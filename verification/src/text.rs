//! Trimming of text and recognition of figures.

use vstd::prelude::*;
use vstd::string::*;

verus! {

/// The characters with the Unicode property White_Space.
pub open spec fn white_space(c: char) -> bool {
    let n = c as u32;
    ||| 0x09 <= n <= 0x0d
    ||| n == 0x20
    ||| n == 0x85
    ||| n == 0xa0
    ||| n == 0x1680
    ||| 0x2000 <= n <= 0x200a
    ||| n == 0x2028
    ||| n == 0x2029
    ||| n == 0x202f
    ||| n == 0x205f
    ||| n == 0x3000
}

/// A text without the characters at its front that `drop` names.
pub open spec fn without_front(s: Seq<char>, drop: spec_fn(char) -> bool) -> Seq<char>
    decreases s.len(),
{
    if s.len() > 0 && drop(s.first()) {
        without_front(s.drop_first(), drop)
    } else {
        s
    }
}

/// A text without the characters at its end that `drop` names.
pub open spec fn without_back(s: Seq<char>, drop: spec_fn(char) -> bool) -> Seq<char>
    decreases s.len(),
{
    if s.len() > 0 && drop(s.last()) {
        without_back(s.drop_last(), drop)
    } else {
        s
    }
}

/// A text without white space at its front and end.
pub open spec fn trimmed(s: Seq<char>) -> Seq<char> {
    without_back(
        without_front(s, |c: char| white_space(c)),
        |c: char| white_space(c),
    )
}

pub open spec fn digit(c: char) -> bool {
    '0' <= c <= '9'
}

/// The characters that figures are written with.
pub open spec fn figure_char(c: char) -> bool {
    digit(c) || c == '.' || c == ',' || c == '-' || c == '+' || c == '%'
}

/// The three dashes that stand in a cell without a value.
pub open spec fn dashes(t: Seq<char>) -> bool {
    t == seq!['-', '-', '-']
}

/// A text that, trimmed, has figure characters only and a digit among them, or
/// is three dashes.
pub open spec fn numeric(s: Seq<char>) -> bool {
    let t = trimmed(s);
    &&& forall|i: int| 0 <= i < t.len() ==> figure_char(#[trigger] t[i])
    &&& (exists|i: int| 0 <= i < t.len() && digit(#[trigger] t[i])) || dashes(t)
}

/// Whether a character is white space.
pub fn is_white_space(c: char) -> (b: bool)
    ensures
        b == white_space(c),
{
    let n: u32 = c as u32;
    (0x09 <= n && n <= 0x0d) || n == 0x20 || n == 0x85 || n == 0xa0 || n == 0x1680 || (0x2000
        <= n && n <= 0x200a) || n == 0x2028 || n == 0x2029 || n == 0x202f || n == 0x205f || n
        == 0x3000
}

/// The characters of a text.
fn chars_of(s: &str) -> (v: Vec<char>)
    ensures
        v@ == s@,
{
    let mut v: Vec<char> = Vec::new();
    for c in it: s.chars()
        invariant
            v@ == it.seq().take(it.index()),
    {
        v.push(c);
    }
    v
}

/// Dropping a run of characters at the front that ends before the first other
/// one.
proof fn lemma_without_front(s: Seq<char>, drop: spec_fn(char) -> bool, a: int)
    requires
        0 <= a <= s.len(),
        forall|i: int| 0 <= i < a ==> drop(#[trigger] s[i]),
        a < s.len() ==> !drop(s[a]),
    ensures
        without_front(s, drop) == s.subrange(a, s.len() as int),
    decreases a,
{
    if a == 0 {
        assert(s.subrange(0, s.len() as int) == s);
    } else {
        let t = s.drop_first();
        assert forall|i: int| 0 <= i < a - 1 implies drop(#[trigger] t[i]) by {
            assert(t[i] == s[i + 1]);
        }
        lemma_without_front(t, drop, a - 1);
        assert(t.subrange(a - 1, t.len() as int) == s.subrange(a, s.len() as int));
    }
}

/// Dropping a run of characters at the end that starts after the last other
/// one.
proof fn lemma_without_back(s: Seq<char>, drop: spec_fn(char) -> bool, b: int)
    requires
        0 <= b <= s.len(),
        forall|i: int| b <= i < s.len() ==> drop(#[trigger] s[i]),
        b > 0 ==> !drop(s[b - 1]),
    ensures
        without_back(s, drop) == s.subrange(0, b),
    decreases s.len() - b,
{
    if b == s.len() {
        assert(s.subrange(0, b) == s);
    } else {
        let t = s.drop_last();
        lemma_without_back(t, drop, b);
        assert(t.subrange(0, b) == s.subrange(0, b));
    }
}

/// A text without white space at its front and end.
pub fn trim(s: &str) -> (r: &str)
    ensures
        r@ == trimmed(s@),
{
    let v: Vec<char> = chars_of(s);
    let n: usize = v.len();
    let ghost drop = |c: char| white_space(c);
    let mut a: usize = 0;
    while a < n && is_white_space(v[a])
        invariant
            a <= n == v.len(),
            drop == |c: char| white_space(c),
            forall|i: int| 0 <= i < a ==> drop(#[trigger] v@[i]),
        decreases n - a,
    {
        a += 1;
    }
    let mut b: usize = n;
    while b > a && is_white_space(v[b - 1])
        invariant
            a <= b <= n == v.len(),
            drop == |c: char| white_space(c),
            forall|i: int| b <= i < n ==> drop(#[trigger] v@[i]),
        decreases b,
    {
        b -= 1;
    }
    proof {
        let t = v@.subrange(a as int, n as int);
        lemma_without_front(v@, drop, a as int);
        assert forall|i: int| b - a <= i < t.len() implies drop(#[trigger] t[i]) by {
            assert(t[i] == v@[i + a]);
        }
        lemma_without_back(t, drop, b - a);
        assert(t.subrange(0, b - a) == v@.subrange(a as int, b as int));
    }
    s.substring_char(a, b)
}

/// A text without the opening brackets at its front and the closing brackets
/// at its end.
pub open spec fn unbracketed(s: Seq<char>) -> Seq<char> {
    without_back(without_front(s, |c: char| c == '('), |c: char| c == ')')
}

/// A text without the opening brackets at its front and the closing brackets
/// at its end.
pub fn strip_brackets(s: &str) -> (r: &str)
    ensures
        r@ == unbracketed(s@),
{
    let v: Vec<char> = chars_of(s);
    let n: usize = v.len();
    let ghost open = |c: char| c == '(';
    let ghost close = |c: char| c == ')';
    let mut a: usize = 0;
    while a < n && v[a] == '('
        invariant
            a <= n == v.len(),
            open == |c: char| c == '(',
            forall|i: int| 0 <= i < a ==> open(#[trigger] v@[i]),
        decreases n - a,
    {
        a += 1;
    }
    let mut b: usize = n;
    while b > a && v[b - 1] == ')'
        invariant
            a <= b <= n == v.len(),
            close == |c: char| c == ')',
            forall|i: int| b <= i < n ==> close(#[trigger] v@[i]),
        decreases b,
    {
        b -= 1;
    }
    proof {
        let t = v@.subrange(a as int, n as int);
        lemma_without_front(v@, open, a as int);
        assert forall|i: int| b - a <= i < t.len() implies close(#[trigger] t[i]) by {
            assert(t[i] == v@[i + a]);
        }
        lemma_without_back(t, close, b - a);
        assert(t.subrange(0, b - a) == v@.subrange(a as int, b as int));
    }
    s.substring_char(a, b)
}

/// Whether a text looks like a number: digits with decimal points, commas,
/// signs and percent signs, or three dashes alone, white space around them aside.
pub fn is_numeric_text(s: &str) -> (b: bool)
    ensures
        b == numeric(s@),
{
    let v: Vec<char> = chars_of(trim(s));
    let ghost t = v@;
    let mut any_digit: bool = false;
    let mut i: usize = 0;
    while i < v.len()
        invariant
            i <= v.len(),
            t == v@,
            t == trimmed(s@),
            forall|j: int| 0 <= j < i ==> figure_char(#[trigger] t[j]),
            any_digit == exists|j: int| 0 <= j < i && digit(#[trigger] t[j]),
        decreases v.len() - i,
    {
        let c: char = v[i];
        let is_digit: bool = '0' <= c && c <= '9';
        if !(is_digit || c == '.' || c == ',' || c == '-' || c == '+' || c == '%') {
            assert(!figure_char(t[i as int]));
            return false;
        }
        if is_digit {
            assert(digit(t[i as int]));
            any_digit = true;
        }
        i += 1;
    }
    let three_dashes: bool = v.len() == 3 && v[0] == '-' && v[1] == '-' && v[2] == '-';
    assert(three_dashes ==> t == seq!['-', '-', '-']);
    any_digit || three_dashes
}

/// Texts joined by single spaces.
pub open spec fn spaced(parts: Seq<Seq<char>>) -> Seq<char>
    decreases parts.len(),
{
    if parts.len() == 0 {
        Seq::empty()
    } else if parts.len() == 1 {
        parts[0]
    } else {
        spaced(parts.drop_last()) + seq![' '] + parts.last()
    }
}

/// One more text after texts joined by spaces, none of them empty.
pub proof fn lemma_spaced_push(parts: Seq<Seq<char>>, part: Seq<char>)
    ensures
        parts.len() == 0 ==> spaced(parts.push(part)) == part,
        parts.len() > 0 ==> spaced(parts.push(part)) == spaced(parts) + seq![' '] + part,
{
    assert(parts.push(part).drop_last() == parts);
}

/// Texts joined by spaces are empty only where there is none.
pub proof fn lemma_spaced_empty(parts: Seq<Seq<char>>)
    requires
        forall|i: int| 0 <= i < parts.len() ==> (#[trigger] parts[i]).len() > 0,
    ensures
        spaced(parts).len() == 0 <==> parts.len() == 0,
{
}

/// Adds a text to others, after a space if there are others.
pub fn append_spaced(line: &mut String, part: &str)
    ensures
        final(line)@ == if old(line)@.len() == 0 {
            part@
        } else {
            old(line)@ + seq![' '] + part@
        },
{
    let ghost before = line@;
    if line.as_str().unicode_len() != 0 {
        line.append(" ");
        proof {
            reveal_strlit(" ");
            assert(" "@ == seq![' ']);
        }
    }
    line.append(part);
    assert(before.len() == 0 ==> line@ == part@);
}

proof fn lemma_front_kept(s: Seq<char>, drop: spec_fn(char) -> bool)
    ensures
        without_front(s, drop).len() > 0 ==> !drop(without_front(s, drop).first()),
    decreases s.len(),
{
    if s.len() > 0 && drop(s.first()) {
        lemma_front_kept(s.drop_first(), drop);
    }
}

proof fn lemma_back_kept(s: Seq<char>, drop: spec_fn(char) -> bool)
    ensures
        ({
            let t = without_back(s, drop);
            &&& t.len() > 0 ==> !drop(t.last()) && t.first() == s.first()
            &&& t.len() <= s.len()
        }),
    decreases s.len(),
{
    if s.len() > 0 && drop(s.last()) {
        lemma_back_kept(s.drop_last(), drop);
    }
}

/// A trimmed text neither starts nor ends with white space, and trimming it
/// again changes nothing.
pub proof fn lemma_trimmed(s: Seq<char>)
    ensures
        trimmed(s).len() > 0 ==> !white_space(trimmed(s).first()) && !white_space(
            trimmed(s).last(),
        ),
        trimmed(trimmed(s)) == trimmed(s),
{
    let space = |c: char| white_space(c);
    lemma_front_kept(s, space);
    lemma_back_kept(without_front(s, space), space);
}

/// White space around a text does not matter to whether it is numeric, and a
/// numeric text is not blank.
pub proof fn lemma_numeric(s: Seq<char>)
    ensures
        numeric(trimmed(s)) == numeric(s),
        numeric(s) ==> trimmed(s).len() > 0,
{
    lemma_trimmed(s);
}

/// Texts and more texts are joined by one more space.
pub proof fn lemma_spaced_add(a: Seq<Seq<char>>, b: Seq<Seq<char>>)
    requires
        a.len() > 0,
        b.len() > 0,
    ensures
        spaced(a + b) == spaced(a) + seq![' '] + spaced(b),
    decreases b.len(),
{
    assert((a + b).drop_last() == a + b.drop_last());
    assert((a + b).last() == b.last());
    if b.len() == 1 {
        assert(a + b.drop_last() == a);
    } else {
        lemma_spaced_add(a, b.drop_last());
    }
}

/// A text is numeric exactly where, trimmed, it is `---`, or it has a digit and
/// nothing but digits, points, commas, signs and percent signs.
pub proof fn lemma_numeric_characters(s: Seq<char>)
    ensures
        numeric(s) <==> trimmed(s) == seq!['-', '-', '-'] || {
            &&& exists|i: int| 0 <= i < trimmed(s).len() && '0' <= #[trigger] trimmed(s)[i] <= '9'
            &&& forall|i: int|
                0 <= i < trimmed(s).len() ==> {
                    let c = #[trigger] trimmed(s)[i];
                    ||| '0' <= c <= '9'
                    ||| c == '.'
                    ||| c == ','
                    ||| c == '+'
                    ||| c == '-'
                    ||| c == '%'
                }
        },
{
    let t = trimmed(s);
    if exists|i: int| 0 <= i < t.len() && '0' <= #[trigger] t[i] <= '9' {
        let i = choose|i: int| 0 <= i < t.len() && '0' <= #[trigger] t[i] <= '9';
        assert(digit(t[i]));
    }
    if exists|i: int| 0 <= i < t.len() && digit(#[trigger] t[i]) {
        let i = choose|i: int| 0 <= i < t.len() && digit(#[trigger] t[i]);
        assert('0' <= t[i] <= '9');
    }
}

/// Stripping a text from both ends: what may go at an end goes, and nothing else
/// does.
proof fn lemma_stripped(
    s: Seq<char>,
    front: spec_fn(char) -> bool,
    back: spec_fn(char) -> bool,
    c: char,
)
    ensures
        front(c) ==> without_back(without_front(seq![c] + s, front), back) == without_back(
            without_front(s, front),
            back,
        ),
        back(c) ==> without_back(without_front(s.push(c), front), back) == without_back(
            without_front(s, front),
            back,
        ),
        s.len() > 0 && !front(s.first()) && !back(s.last()) ==> without_back(
            without_front(s, front),
            back,
        ) == s,
    decreases s.len(),
{
    assert((seq![c] + s).drop_first() == s);
    if s.len() == 0 {
        assert(s.push(c).drop_first() == s);
        assert(s.push(c).drop_last() == s);
    } else if front(s.first()) {
        lemma_stripped(s.drop_first(), front, back, c);
        assert(s.push(c).drop_first() == s.drop_first().push(c));
    } else {
        assert(s.push(c).drop_last() == s);
    }
}

/// White space at either end of a text does not matter to its trimmed form, and
/// a text without any there is its own.
pub proof fn lemma_trimming(s: Seq<char>, c: char)
    ensures
        white_space(c) ==> trimmed(seq![c] + s) == trimmed(s) && trimmed(s.push(c)) == trimmed(s),
        s.len() > 0 && !white_space(s.first()) && !white_space(s.last()) ==> trimmed(s) == s,
        trimmed(Seq::empty()) == Seq::<char>::empty(),
{
    let space = |c: char| white_space(c);
    lemma_stripped(s, space, space, c);
}

/// Opening brackets at the front of a text and closing ones at its end do not
/// matter to its form without them, and a text without them is its own.
pub proof fn lemma_unbracketing(s: Seq<char>)
    ensures
        unbracketed(seq!['('] + s) == unbracketed(s),
        unbracketed(s.push(')')) == unbracketed(s),
        s.len() > 0 && s.first() != '(' && s.last() != ')' ==> unbracketed(s) == s,
{
    lemma_stripped(s, |c: char| c == '(', |c: char| c == ')', '(');
    lemma_stripped(s, |c: char| c == '(', |c: char| c == ')', ')');
}

} // verus!
