use table_grid::text::{is_numeric_text, is_white_space, strip_brackets, trim};

#[test]
fn white_space_is_that_of_unicode() {
    for n in 0..=0x10ffffu32 {
        if let Some(c) = char::from_u32(n) {
            assert_eq!(is_white_space(c), c.is_whitespace(), "{:x}", n);
        }
    }
}

#[test]
fn figures_are_numeric() {
    for s in ["8.23", "-1.05", "9.99", "7.12", "100", "3,456.78", "+5%", "---"] {
        assert!(is_numeric_text(s), "{}", s);
    }
    for s in [" 12 ", "\u{a0}7\u{3000}"] {
        assert!(is_numeric_text(s), "{}", s);
    }
}

#[test]
fn words_are_not_numeric() {
    for s in ["BIO", "Department", "Core Courses", "", "   ", "+", ".", "1 2", "12a", "(5)", "٣"] {
        assert!(!is_numeric_text(s), "{}", s);
    }
}

#[test]
fn three_dashes_are_numeric() {
    assert!(is_numeric_text("---"));
    assert!(is_numeric_text(" ---\t"));
    for s in ["-", "--", "----", "-.-", "- -", "+++"] {
        assert!(!is_numeric_text(s), "{}", s);
    }
}

#[test]
fn trimming_agrees_with_std() {
    for s in ["", " ", "a", " a", "a ", "\t a b \n", "\u{2003}é\u{85}", "a\u{200b}", "日本 "] {
        assert_eq!(trim(s), s.trim());
    }
}

#[test]
fn brackets_are_stripped_at_the_ends() {
    for s in ["", "(", ")", "(5)", "((5))", "5)", "(5", ")5(", "(a(b)c)", "()"] {
        assert_eq!(
            strip_brackets(s),
            s.trim_start_matches('(').trim_end_matches(')')
        );
    }
}
