use dragon4::{exponent, fixed, release, shortest, DigitBuffer};

fn text(b: &DigitBuffer) -> String {
    String::from_utf8(b.digits.clone()).unwrap()
}

#[test]
fn it_works() {
    let b = fixed(0.1f64.to_bits(), 40);
    let s = b.digits.as_slice();
    println!("{}; {}", std::str::from_utf8(s).unwrap(), b.k);
    assert_eq!(std::str::from_utf8(s).unwrap(), "1000000000000000055511151231257827021182");
    assert_eq!(b.k, 0);
    release(b);
}

#[test]
fn shortest_of_simple_values() {
    let b = shortest(1.0f64.to_bits());
    assert_eq!((text(&b).as_str(), b.k), ("1", 1));
    let b = shortest(0.1f64.to_bits());
    assert_eq!((text(&b).as_str(), b.k), ("1", 0));
    let b = shortest(0.3f64.to_bits());
    assert_eq!((text(&b).as_str(), b.k), ("3", 0));
    let b = shortest(123456.789f64.to_bits());
    assert_eq!((text(&b).as_str(), b.k), ("123456789", 6));
    let b = shortest(299792458.0f64.to_bits());
    assert_eq!((text(&b).as_str(), b.k), ("299792458", 9));
    let b = shortest(4.35f64.to_bits());
    assert_eq!((text(&b).as_str(), b.k), ("435", 1));
}

#[test]
fn shortest_ignores_the_sign() {
    let b = shortest((-0.3f64).to_bits());
    assert_eq!((text(&b).as_str(), b.k), ("3", 0));
    let b = shortest((-1.5e10f64).to_bits());
    assert_eq!((text(&b).as_str(), b.k), ("15", 11));
}

#[test]
fn shortest_at_the_ends_of_the_range() {
    let b = shortest(f64::MAX.to_bits());
    assert_eq!((text(&b).as_str(), b.k), ("17976931348623157", 309));
    let b = shortest(1u64);
    assert_eq!((text(&b).as_str(), b.k), ("5", -323));
    let b = shortest(2u64);
    assert_eq!((text(&b).as_str(), b.k), ("1", -322));
    let b = shortest(f64::MIN_POSITIVE.to_bits());
    assert_eq!((text(&b).as_str(), b.k), ("22250738585072014", -307));
    let b = shortest(0x000f_ffff_ffff_ffffu64);
    assert_eq!((text(&b).as_str(), b.k), ("2225073858507201", -307));
}

#[test]
fn shortest_near_powers_of_ten_and_two() {
    let b = shortest(1e23f64.to_bits());
    assert_eq!((text(&b).as_str(), b.k), ("1", 24));
    let b = shortest(1e22f64.to_bits());
    assert_eq!((text(&b).as_str(), b.k), ("1", 23));
    let b = shortest(1e21f64.to_bits());
    assert_eq!((text(&b).as_str(), b.k), ("1", 22));
    let b = shortest(1e-7f64.to_bits());
    assert_eq!((text(&b).as_str(), b.k), ("1", -6));
    let b = shortest(9007199254740992.0f64.to_bits());
    assert_eq!((text(&b).as_str(), b.k), ("9007199254740992", 16));
    let b = shortest(4503599627370496.0f64.to_bits());
    assert_eq!((text(&b).as_str(), b.k), ("4503599627370496", 16));
    let b = shortest(3.0e-310f64.to_bits());
    assert_eq!((text(&b).as_str(), b.k), ("3", -309));
}

#[test]
fn shortest_digits_read_back_as_the_value() {
    let values = [0.1f64, 2.0 / 3.0, 1e100, 6.02214076e23, 1.0e-300, 3.141592653589793];
    for v in values {
        let b = shortest(v.to_bits());
        let s = format!("0.{}e{}", text(&b), b.k);
        let back: f64 = s.parse().unwrap();
        assert_eq!(back.to_bits(), v.to_bits());
    }
}

#[test]
fn no_shorter_digits_read_back() {
    // 2/3 needs sixteen digits: cutting or rounding to fifteen reads back as another double.
    let v = 2.0f64 / 3.0;
    let b = shortest(v.to_bits());
    assert_eq!(text(&b), "6666666666666666");
    let down: f64 = "0.666666666666666".parse().unwrap();
    let up: f64 = "0.666666666666667".parse().unwrap();
    assert_ne!(down.to_bits(), v.to_bits());
    assert_ne!(up.to_bits(), v.to_bits());
}

#[test]
fn non_finite_values_give_the_sentinel() {
    for v in [f64::INFINITY, f64::NEG_INFINITY, f64::NAN] {
        let b = shortest(v.to_bits());
        assert_eq!((b.digits.len(), b.k), (0, 0));
        let b = fixed(v.to_bits(), 10);
        assert_eq!((b.digits.len(), b.k), (0, 0));
        let b = exponent(v.to_bits(), 10);
        assert_eq!((b.digits.len(), b.k), (0, 0));
    }
    let b = shortest(0x7ff0_0000_0000_0001u64);
    assert_eq!((b.digits.len(), b.k), (0, 0));
}

#[test]
fn zero_gives_the_sentinel() {
    for v in [0.0f64, -0.0f64] {
        let b = shortest(v.to_bits());
        assert_eq!((b.digits.len(), b.k), (0, 0));
        let b = fixed(v.to_bits(), 3);
        assert_eq!((b.digits.len(), b.k), (0, 0));
        let b = exponent(v.to_bits(), 3);
        assert_eq!((b.digits.len(), b.k), (0, 0));
    }
}

#[test]
fn fixed_rounds_ties_to_even() {
    let b = fixed(0.125f64.to_bits(), 2);
    assert_eq!((text(&b).as_str(), b.k), ("12", 0));
    let b = fixed(0.375f64.to_bits(), 2);
    assert_eq!((text(&b).as_str(), b.k), ("38", 0));
    let b = fixed(0.25f64.to_bits(), 1);
    assert_eq!((text(&b).as_str(), b.k), ("2", 0));
    let b = fixed(0.75f64.to_bits(), 1);
    assert_eq!((text(&b).as_str(), b.k), ("8", 0));
    let b = fixed(2.5f64.to_bits(), 1);
    assert_eq!((text(&b).as_str(), b.k), ("25", 1));
}

#[test]
fn fixed_rounds_by_the_exact_value() {
    // 0.05 is a little above, 0.15 and 0.35 a little below the decimal written.
    let b = fixed(0.05f64.to_bits(), 1);
    assert_eq!((text(&b).as_str(), b.k), ("1", 0));
    let b = fixed(0.15f64.to_bits(), 1);
    assert_eq!((text(&b).as_str(), b.k), ("1", 0));
    let b = fixed(0.35f64.to_bits(), 1);
    assert_eq!((text(&b).as_str(), b.k), ("3", 0));
    let b = fixed(9.995f64.to_bits(), 2);
    assert_eq!((text(&b).as_str(), b.k), ("999", 1));
}

#[test]
fn fixed_carries_into_a_new_digit() {
    let b = fixed(0.96f64.to_bits(), 1);
    assert_eq!((text(&b).as_str(), b.k), ("10", 1));
    let b = fixed(99.999f64.to_bits(), 2);
    assert_eq!((text(&b).as_str(), b.k), ("10000", 3));
    let b = fixed(0.06f64.to_bits(), 1);
    assert_eq!((text(&b).as_str(), b.k), ("1", 0));
}

#[test]
fn fixed_with_nothing_left_gives_no_digit() {
    let b = fixed(1e-10f64.to_bits(), 5);
    assert_eq!((b.digits.len(), b.k), (0, -9));
    let b = fixed(0.04f64.to_bits(), 1);
    assert_eq!((b.digits.len(), b.k), (0, -1));
    let b = fixed(0.006f64.to_bits(), 1);
    assert_eq!((b.digits.len(), b.k), (0, -1));
    let b = fixed(0.004f64.to_bits(), 1);
    assert_eq!((b.digits.len(), b.k), (0, -2));
}

#[test]
fn fixed_without_places_gives_no_digit() {
    let b = fixed(123.4f64.to_bits(), 0);
    assert_eq!((b.digits.len(), b.k), (0, 3));
    let b = fixed(960.0f64.to_bits(), 0);
    assert_eq!((b.digits.len(), b.k), (0, 3));
    let b = fixed(999.5f64.to_bits(), 0);
    assert_eq!((b.digits.len(), b.k), (0, 4));
    let b = fixed(0.6f64.to_bits(), 0);
    assert_eq!((b.digits.len(), b.k), (0, 1));
    let b = fixed(0.5f64.to_bits(), 0);
    assert_eq!((b.digits.len(), b.k), (0, 0));
}

#[test]
fn fixed_with_places_before_the_point_gives_no_digit() {
    let b = fixed(940.0f64.to_bits(), -2);
    assert_eq!((b.digits.len(), b.k), (0, 3));
    let b = fixed(960.0f64.to_bits(), -2);
    assert_eq!((b.digits.len(), b.k), (0, 4));
    let b = fixed(960.0f64.to_bits(), -3);
    assert_eq!((b.digits.len(), b.k), (0, 4));
    let b = fixed(440.0f64.to_bits(), -3);
    assert_eq!((b.digits.len(), b.k), (0, 3));
    let b = fixed(0.4f64.to_bits(), -3);
    assert_eq!((b.digits.len(), b.k), (0, 0));
    let b = fixed(777.0f64.to_bits(), i16::MIN);
    assert_eq!((b.digits.len(), b.k), (0, 4));
    let b = fixed(f64::MAX.to_bits(), -300);
    assert_eq!((b.digits.len(), b.k), (0, 309));
}

#[test]
fn fixed_gives_every_place_asked_for() {
    let b = fixed(1.0f64.to_bits(), 2000);
    assert_eq!(b.digits.len(), 2001);
    assert_eq!(b.k, 1);
    assert_eq!(b.digits[0], b'1');
    assert!(b.digits[1..].iter().all(|c| *c == b'0'));
    let b = fixed(1u64, 1074);
    assert_eq!(b.k, -323);
    assert_eq!(b.digits.len(), 751);
    assert_eq!(&b.digits[..8], b"49406564");
    assert_eq!(&b.digits[747..], b"5625");
}

#[test]
fn exponent_gives_the_digits_asked_for() {
    let b = exponent(1.0f64.to_bits(), 3);
    assert_eq!((text(&b).as_str(), b.k), ("100", 1));
    let b = exponent(0.000123456f64.to_bits(), 3);
    assert_eq!((text(&b).as_str(), b.k), ("123", -3));
    let b = exponent(9.995f64.to_bits(), 3);
    assert_eq!((text(&b).as_str(), b.k), ("999", 1));
    let b = exponent(0.1f64.to_bits(), 20);
    assert_eq!((text(&b).as_str(), b.k), ("10000000000000000555", 0));
    let b = exponent(f64::MAX.to_bits(), 5);
    assert_eq!((text(&b).as_str(), b.k), ("17977", 309));
}

#[test]
fn exponent_rounds_ties_to_even() {
    let b = exponent(1.5f64.to_bits(), 1);
    assert_eq!((text(&b).as_str(), b.k), ("2", 1));
    let b = exponent(2.5f64.to_bits(), 1);
    assert_eq!((text(&b).as_str(), b.k), ("2", 1));
    let b = exponent(0.125f64.to_bits(), 2);
    assert_eq!((text(&b).as_str(), b.k), ("12", 0));
}

#[test]
fn exponent_keeps_the_count_after_a_carry() {
    let b = exponent(9.9996f64.to_bits(), 4);
    assert_eq!((text(&b).as_str(), b.k), ("1000", 2));
    let b = exponent(0.96f64.to_bits(), 1);
    assert_eq!((text(&b).as_str(), b.k), ("1", 1));
    let b = exponent(999.5f64.to_bits(), 3);
    assert_eq!((text(&b).as_str(), b.k), ("100", 4));
}

#[test]
fn exponent_never_exceeds_the_limit() {
    let values = [1.0f64, 0.1, 123456.789, 9.999999999, 5e-324, f64::MAX, 2.5e-7];
    for v in values {
        for limit in [1i16, 2, 3, 10, 17, 30, 800, 1500] {
            let b = exponent(v.to_bits(), limit);
            assert_eq!(b.digits.len(), limit as usize);
            assert!(b.digits.iter().all(|c| c.is_ascii_digit()));
            assert_ne!(b.digits[0], b'0');
        }
    }
}

#[test]
fn exponent_without_digits_gives_none() {
    let b = exponent(123.4f64.to_bits(), 0);
    assert_eq!((b.digits.len(), b.k), (0, 3));
    let b = exponent(0.6f64.to_bits(), 0);
    assert_eq!((b.digits.len(), b.k), (0, 1));
    let b = exponent(0.5f64.to_bits(), -7);
    assert_eq!((b.digits.len(), b.k), (0, 0));
    let b = exponent(50.0f64.to_bits(), i16::MIN);
    assert_eq!((b.digits.len(), b.k), (0, 2));
    let b = exponent(51.0f64.to_bits(), -1);
    assert_eq!((b.digits.len(), b.k), (0, 3));
}

#[test]
fn release_takes_any_buffer() {
    release(shortest(1.0f64.to_bits()));
    release(shortest(f64::NAN.to_bits()));
    release(fixed(0.1f64.to_bits(), 40));
    release(exponent(0.1f64.to_bits(), 4));
    release(DigitBuffer { digits: Vec::new(), k: 0 });
}

#[test]
fn shortest_prefers_the_nearest_of_its_length() {
    // Both 9e-324 and 1e-323 read back as the second least double; the latter is nearer.
    let v = f64::from_bits(2);
    let lower: f64 = "9e-324".parse().unwrap();
    let upper: f64 = "1e-323".parse().unwrap();
    assert_eq!(lower.to_bits(), 2);
    assert_eq!(upper.to_bits(), 2);
    let b = shortest(v.to_bits());
    assert_eq!((text(&b).as_str(), b.k), ("1", -322));
    // 5e-324 is the nearest of the five one-digit decimals that read back as the least double.
    let b = shortest(1);
    assert_eq!((text(&b).as_str(), b.k), ("5", -323));
}
