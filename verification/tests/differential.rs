use dragon4::{exponent, fixed, shortest};

struct Patterns(u64);

impl Patterns {
    fn next(&mut self) -> u64 {
        self.0 ^= self.0 << 13;
        self.0 ^= self.0 >> 7;
        self.0 ^= self.0 << 17;
        self.0
    }

    /// The next pattern that stands for a finite, non-zero double.
    fn next_finite(&mut self) -> f64 {
        loop {
            let v = f64::from_bits(self.next());
            if v.is_finite() && v != 0.0 {
                return v;
            }
        }
    }
}

/// Digits and decimal exponent out of scientific notation such as `1.25e-7`.
fn from_scientific(s: &str) -> (String, i16) {
    let s = s.trim_start_matches('-');
    let (mantissa, exp) = s.split_once('e').unwrap();
    let digits: String = mantissa.chars().filter(|c| *c != '.').collect();
    (digits, exp.parse::<i16>().unwrap() + 1)
}

/// Significant digits out of positional notation such as `0.00125`.
fn from_positional(s: &str) -> String {
    let s = s.trim_start_matches('-');
    let digits: String = s.chars().filter(|c| *c != '.').collect();
    digits.trim_start_matches('0').to_string()
}

#[test]
fn shortest_agrees_with_std_on_random_patterns() {
    let mut gen = Patterns(0x9e37_79b9_7f4a_7c15);
    for _ in 0..3000 {
        let v = gen.next_finite();
        let b = shortest(v.to_bits());
        let (digits, k) = from_scientific(&format!("{:e}", v));
        assert_eq!(String::from_utf8(b.digits.clone()).unwrap(), digits, "{:e}", v);
        assert_eq!(b.k, k, "{:e}", v);
    }
}

#[test]
fn shortest_agrees_with_std_on_subnormals() {
    let mut gen = Patterns(0x1234_5678_9abc_def1);
    for shift in 12..64u32 {
        for _ in 0..20 {
            let bits = gen.next() >> shift;
            if bits == 0 {
                continue;
            }
            let v = f64::from_bits(bits);
            let b = shortest(bits);
            let (digits, k) = from_scientific(&format!("{:e}", v));
            assert_eq!(String::from_utf8(b.digits.clone()).unwrap(), digits, "{:e}", v);
            assert_eq!(b.k, k, "{:e}", v);
        }
    }
}

#[test]
fn shortest_agrees_with_std_on_powers_of_two() {
    for field in 1..0x7ffu64 {
        let bits = field << 52;
        let v = f64::from_bits(bits);
        let b = shortest(bits);
        let (digits, k) = from_scientific(&format!("{:e}", v));
        assert_eq!(String::from_utf8(b.digits.clone()).unwrap(), digits, "{:e}", v);
        assert_eq!(b.k, k, "{:e}", v);
    }
}

#[test]
fn shortest_agrees_with_std_on_small_integers_and_fractions() {
    for i in 1..2000u32 {
        for v in [i as f64, i as f64 / 1000.0, i as f64 * 1e15, 1.0 / i as f64] {
            let b = shortest(v.to_bits());
            let (digits, k) = from_scientific(&format!("{:e}", v));
            assert_eq!(String::from_utf8(b.digits.clone()).unwrap(), digits, "{:e}", v);
            assert_eq!(b.k, k, "{:e}", v);
        }
    }
}

#[test]
fn shortest_reads_back_on_random_patterns() {
    let mut gen = Patterns(0x0fed_cba9_8765_4321);
    for _ in 0..2000 {
        let v = gen.next_finite().abs();
        let b = shortest(v.to_bits());
        let s = format!("0.{}e{}", String::from_utf8(b.digits.clone()).unwrap(), b.k);
        let back: f64 = s.parse().unwrap();
        assert_eq!(back.to_bits(), v.to_bits(), "{}", s);
    }
}

#[test]
fn exponent_agrees_with_std_on_random_patterns() {
    let mut gen = Patterns(0x2545_f491_4f6c_dd1d);
    for _ in 0..600 {
        let v = gen.next_finite();
        for limit in [1i16, 2, 5, 16, 17, 18, 40] {
            let b = exponent(v.to_bits(), limit);
            let (digits, k) = from_scientific(&format!("{:.*e}", limit as usize - 1, v));
            assert_eq!(String::from_utf8(b.digits.clone()).unwrap(), digits, "{:e}", v);
            assert_eq!(b.k, k, "{:e}", v);
        }
    }
}

#[test]
fn exponent_agrees_with_std_on_halfway_values() {
    // Multiples of 1/8 have short exact expansions, so rounding meets many ties.
    for i in 1..4000u32 {
        let v = i as f64 / 8.0;
        for limit in [1i16, 2, 3, 4] {
            let b = exponent(v.to_bits(), limit);
            let (digits, k) = from_scientific(&format!("{:.*e}", limit as usize - 1, v));
            assert_eq!(String::from_utf8(b.digits.clone()).unwrap(), digits, "{}", v);
            assert_eq!(b.k, k, "{}", v);
        }
    }
}

#[test]
fn fixed_agrees_with_std_on_moderate_values() {
    let mut gen = Patterns(0x7a3c_91e5_b04d_26f8);
    let mut seen = 0;
    while seen < 600 {
        let v = gen.next_finite();
        if !(1e-30..1e30).contains(&v.abs()) {
            continue;
        }
        seen += 1;
        for precision in [1i16, 2, 6, 17, 25, 60] {
            let b = fixed(v.to_bits(), precision);
            let digits = from_positional(&format!("{:.*}", precision as usize, v));
            assert_eq!(String::from_utf8(b.digits.clone()).unwrap(), digits, "{:e}", v);
            if !digits.is_empty() {
                assert_eq!(b.k as i32, digits.len() as i32 - precision as i32, "{:e}", v);
            }
        }
    }
}

#[test]
fn fixed_agrees_with_std_on_halfway_values() {
    for i in 1..4000u32 {
        let v = i as f64 / 16.0;
        for precision in [1i16, 2, 3, 4, 5] {
            let b = fixed(v.to_bits(), precision);
            let digits = from_positional(&format!("{:.*}", precision as usize, v));
            assert_eq!(String::from_utf8(b.digits.clone()).unwrap(), digits, "{}", v);
            if !digits.is_empty() {
                assert_eq!(b.k as i32, digits.len() as i32 - precision as i32, "{}", v);
            }
        }
    }
}

#[test]
fn fixed_agrees_with_std_on_small_values() {
    for i in 1..500u32 {
        let v = i as f64 * 1e-5;
        for precision in [1i16, 2, 3, 4, 5, 6] {
            let b = fixed(v.to_bits(), precision);
            let digits = from_positional(&format!("{:.*}", precision as usize, v));
            assert_eq!(String::from_utf8(b.digits.clone()).unwrap(), digits, "{}", v);
        }
    }
}

#[test]
fn fixed_without_places_agrees_with_std_on_the_magnitude() {
    let mut gen = Patterns(0x5bd1_e995_1b87_3593);
    let mut seen = 0;
    while seen < 600 {
        let v = gen.next_finite();
        if !(0.5..1e30).contains(&v.abs()) {
            continue;
        }
        let whole = from_positional(&format!("{:.0}", v));
        if whole.is_empty() {
            continue;
        }
        seen += 1;
        let b = fixed(v.to_bits(), 0);
        assert_eq!(b.digits.len(), 0);
        assert_eq!(b.k as usize, whole.len(), "{:e}", v);
    }
}
