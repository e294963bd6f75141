use table_grid::single::Single;

fn single(x: f32) -> Single {
    Single::from_bits(x.to_bits())
}

fn same(r: Single, expected: f32) -> bool {
    if expected.is_nan() {
        r.is_nan()
    } else {
        r.to_bits() == expected.to_bits()
    }
}

struct Numbers {
    state: u64,
}

impl Numbers {
    fn next(&mut self) -> u32 {
        self.state = self
            .state
            .wrapping_mul(6364136223846793005)
            .wrapping_add(1442695040888963407);
        (self.state >> 32) as u32
    }

    /// Any pattern half of the time, a page position otherwise.
    fn number(&mut self) -> f32 {
        let bits = self.next();
        if bits % 2 == 0 {
            f32::from_bits(self.next())
        } else {
            (self.next() % 2_000_000) as f32 / 1000.0 - 1000.0
        }
    }
}

const SPECIAL: [u32; 22] = [
    0x0000_0000, 0x8000_0000, 0x0000_0001, 0x8000_0001, 0x007f_ffff, 0x0080_0000, 0x0080_0001,
    0x3f80_0000, 0xbf80_0000, 0x3f7f_ffff, 0x3f80_0001, 0x4b7f_ffff, 0x4b80_0000, 0x7f7f_ffff,
    0xff7f_ffff, 0x7f80_0000, 0xff80_0000, 0x7fc0_0000, 0xffc0_0000, 0x7f80_0001, 0x3f00_0000,
    0x4000_0000,
];

fn compare(a: f32, b: f32) {
    let (x, y) = (single(a), single(b));
    assert!(same(x.add(y), a + b), "{} + {}", a, b);
    assert!(same(x.sub(y), a - b), "{} - {}", a, b);
    assert!(same(x.mul(y), a * b), "{} * {}", a, b);
    assert!(same(x.div(y), a / b), "{} / {}", a, b);
    assert_eq!(x.lt(y), a < b, "{} < {}", a, b);
    assert_eq!(x.le(y), a <= b, "{} <= {}", a, b);
    assert!(x.neg().to_bits() == (-a).to_bits());
    assert!(x.abs().to_bits() == a.abs().to_bits());
    assert_eq!(x.total_key() < y.total_key(), a.total_cmp(&b).is_lt());
    assert_eq!(x.total_key() == y.total_key(), a.total_cmp(&b).is_eq());
    if !a.is_nan() && !b.is_nan() {
        assert_eq!(x.value_key() < y.value_key(), a < b);
    }
    if !(a == 0.0 && b == 0.0) {
        assert!(same(x.max(y), a.max(b)), "max {} {}", a, b);
        assert!(same(x.min(y), a.min(b)), "min {} {}", a, b);
    }
    if a <= b {
        assert!(same(single(7.5).clamp(x, y), 7.5f32.clamp(a, b)), "clamp {} {}", a, b);
    }
}

#[test]
fn arithmetic_agrees_with_the_machine_on_special_numbers() {
    for a in SPECIAL {
        for b in SPECIAL {
            compare(f32::from_bits(a), f32::from_bits(b));
        }
    }
}

#[test]
fn arithmetic_agrees_with_the_machine_on_many_numbers() {
    let mut numbers = Numbers { state: 7 };
    for _ in 0..60_000 {
        let a = numbers.number();
        let b = numbers.number();
        compare(a, b);
    }
}

#[test]
fn arithmetic_agrees_with_the_machine_near_each_other() {
    let mut numbers = Numbers { state: 11 };
    for _ in 0..40_000 {
        let bits = numbers.next();
        let near = bits ^ (numbers.next() % 64) ^ ((numbers.next() % 32) << 23);
        compare(f32::from_bits(bits), f32::from_bits(near));
    }
}

#[test]
fn counts_and_fractions_agree_with_the_machine() {
    let mut numbers = Numbers { state: 3 };
    for n in 0..2000usize {
        assert!(same(Single::from_count(n), n as f32));
    }
    for _ in 0..20_000 {
        let n = (((numbers.next() as u64) << 32) | numbers.next() as u64) >> (numbers.next() % 64);
        assert!(same(Single::from_count(n as usize), n as usize as f32), "{}", n);
    }
    assert!(same(Single::from_count(usize::MAX), usize::MAX as f32));
    assert!(same(Single::from_ratio(1, 10), 0.1));
    assert!(same(Single::from_ratio(4, 5), 0.8));
    assert!(same(Single::from_ratio(3, 5), 0.60));
    assert!(same(Single::from_ratio(3, 10), 0.3));
    assert!(same(Single::from_ratio(3, 4), 0.75));
    assert!(same(Single::from_ratio(27, 20), 1.35));
    assert!(same(Single::from_ratio(5, 4), 1.25));
    assert!(same(Single::from_ratio(1, 2), 0.5));
    assert!(same(Single::from_ratio(25, 1), 25.0));
    assert!(same(Single::from_ratio(1, 3), 1.0 / 3.0));
}

#[test]
fn sums_round_to_even() {
    // 2^24 + 1 is halfway between two numbers.
    assert!(same(single(16777216.0).add(single(1.0)), 16777216.0));
    assert!(same(single(16777218.0).add(single(1.0)), 16777220.0));
    assert!(same(single(0.1).add(single(0.2)), 0.3));
}

#[test]
fn clamp_keeps_what_is_not_a_number() {
    assert!(single(f32::NAN).clamp(single(25.0), single(50.0)).is_nan());
    assert!(same(single(10.0).clamp(single(25.0), single(50.0)), 25.0));
    assert!(same(single(60.0).clamp(single(25.0), single(50.0)), 50.0));
}
