use calculator::product::product;
use calculator::quotient::quotient;
use calculator::sum::{difference, negate, sum};

/// A result agrees with the hardware's where both are NaN or both are the
/// same pattern.
fn agrees(expected: f64, pattern: u64) -> bool {
    if expected.is_nan() {
        f64::from_bits(pattern).is_nan()
    } else {
        expected.to_bits() == pattern
    }
}

fn check_all(a: u64, b: u64) {
    let x = f64::from_bits(a);
    let y = f64::from_bits(b);
    assert!(agrees(x + y, sum(a, b)), "{:#018x} + {:#018x}", a, b);
    assert!(agrees(x - y, difference(a, b)), "{:#018x} - {:#018x}", a, b);
    assert!(agrees(x * y, product(a, b)), "{:#018x} * {:#018x}", a, b);
    assert!(agrees(x / y, quotient(a, b)), "{:#018x} / {:#018x}", a, b);
}

fn landmarks() -> Vec<u64> {
    let mut patterns: Vec<u64> = vec![
        0,
        1,
        2,
        3,
        0x000f_ffff_ffff_ffff,
        0x0010_0000_0000_0000,
        0x0010_0000_0000_0001,
        0x001f_ffff_ffff_ffff,
        0x0020_0000_0000_0000,
        0x3fe0_0000_0000_0000,
        0x3fef_ffff_ffff_ffff,
        0x3ff0_0000_0000_0000,
        0x3ff0_0000_0000_0001,
        0x3ff8_0000_0000_0000,
        0x4000_0000_0000_0000,
        0x4008_0000_0000_0000,
        0x4330_0000_0000_0000,
        0x4340_0000_0000_0000,
        0x4340_0000_0000_0001,
        0x7fdf_ffff_ffff_ffff,
        0x7fe0_0000_0000_0000,
        0x7fef_ffff_ffff_fffe,
        0x7fef_ffff_ffff_ffff,
        0x7ff0_0000_0000_0000,
        0x7ff0_0000_0000_0001,
        0x7ff8_0000_0000_0000,
        0x7fff_ffff_ffff_ffff,
    ];
    for x in [0.1f64, 0.2, 0.3, 1.0 / 3.0, 1e-300, 1e300, 1e-162, 1e154, 5e-324, 1e16, 123456.789] {
        patterns.push(x.to_bits());
    }
    let positive = patterns.clone();
    for pattern in positive {
        patterns.push(pattern | 0x8000_0000_0000_0000);
    }
    patterns
}

struct Generator {
    state: u64,
}

impl Generator {
    fn next(&mut self) -> u64 {
        self.state ^= self.state << 13;
        self.state ^= self.state >> 7;
        self.state ^= self.state << 17;
        self.state
    }
}

#[test]
fn landmarks_agree_with_the_hardware() {
    let patterns = landmarks();
    for &a in &patterns {
        for &b in &patterns {
            check_all(a, b);
        }
    }
}

#[test]
fn random_patterns_agree_with_the_hardware() {
    let mut generator = Generator { state: 0x9e37_79b9_7f4a_7c15 };
    for _ in 0..20000 {
        check_all(generator.next(), generator.next());
    }
}

#[test]
fn random_neighbours_agree_with_the_hardware() {
    // Operands whose exponents lie close together: sums cancel, quotients
    // are near one.
    let mut generator = Generator { state: 0x2545_f491_4f6c_dd1d };
    for _ in 0..20000 {
        let a = generator.next();
        let shift = generator.next() % 140;
        let exponent = ((a >> 52) & 0x7ff) as i64 + shift as i64 - 70;
        let exponent = exponent.clamp(0, 0x7fe) as u64;
        let b = (generator.next() & 0x800f_ffff_ffff_ffff) | (exponent << 52);
        check_all(a, b);
    }
}

#[test]
fn random_subnormals_agree_with_the_hardware() {
    let mut generator = Generator { state: 0x1234_5678_9abc_def1 };
    for _ in 0..20000 {
        let a = generator.next() & 0x801f_ffff_ffff_ffff;
        let b = generator.next() & 0x803f_ffff_ffff_ffff;
        check_all(a, b);
        // A product or a quotient that lands among the subnormals.
        let c = (generator.next() & 0x800f_ffff_ffff_ffff) | (0x3ff - generator.next() % 64) << 52;
        check_all(a, c);
        let d = (generator.next() & 0x800f_ffff_ffff_ffff) | (0x200 - generator.next() % 64) << 52;
        let e = (generator.next() & 0x800f_ffff_ffff_ffff) | (0x1ff + generator.next() % 64) << 52;
        check_all(d, e);
    }
}

#[test]
fn random_giants_agree_with_the_hardware() {
    let mut generator = Generator { state: 0x0fed_cba9_8765_4321 };
    for _ in 0..20000 {
        let a = (generator.next() & 0x800f_ffff_ffff_ffff) | (0x7fe - generator.next() % 4) << 52;
        let b = (generator.next() & 0x800f_ffff_ffff_ffff) | (0x7fe - generator.next() % 4) << 52;
        check_all(a, b);
        let c = (generator.next() & 0x800f_ffff_ffff_ffff) | (0x600 - generator.next() % 64) << 52;
        let d = (generator.next() & 0x800f_ffff_ffff_ffff) | (0x5fe + generator.next() % 64) << 52;
        check_all(c, d);
    }
}

#[test]
fn ties_agree_with_the_hardware() {
    // Sums that lie exactly halfway between two numbers, or one step off.
    let mut generator = Generator { state: 0x7777_1234_abcd_0001 };
    for _ in 0..20000 {
        let a = (generator.next() & 0x800f_ffff_ffff_ffff) | (0x400 << 52);
        let gap = 50 + generator.next() % 6;
        let low = match generator.next() % 3 {
            0 => 0,
            1 => 1,
            _ => 0x000f_ffff_ffff_ffff,
        };
        let b = (generator.next() & 0x8000_0000_0000_0000) | ((0x400 - gap) << 52) | low;
        check_all(a, b);
    }
}

#[test]
fn negate_flips_the_sign_only() {
    assert_eq!(negate(1.5f64.to_bits()), (-1.5f64).to_bits());
    assert_eq!(negate((-0.0f64).to_bits()), 0);
    assert_eq!(negate(0), 0x8000_0000_0000_0000);
    assert_eq!(negate(0x7ff0_0000_0000_0000), 0xfff0_0000_0000_0000);
}
