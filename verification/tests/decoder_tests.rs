use dragon4::decoder::{decode, Decoded, FullDecoded};

#[test]
fn decode_classifies_zero() {
    assert_eq!(decode(0.0f64.to_bits()), FullDecoded::Zero);
    assert_eq!(decode((-0.0f64).to_bits()), FullDecoded::Zero);
}

#[test]
fn decode_classifies_infinities() {
    assert_eq!(decode(f64::INFINITY.to_bits()), FullDecoded::Infinite);
    assert_eq!(decode(f64::NEG_INFINITY.to_bits()), FullDecoded::Infinite);
}

#[test]
fn decode_classifies_not_a_number() {
    assert_eq!(decode(f64::NAN.to_bits()), FullDecoded::NotANumber);
    assert_eq!(decode(0x7ff0_0000_0000_0001), FullDecoded::NotANumber);
    assert_eq!(decode(0xffff_ffff_ffff_ffff), FullDecoded::NotANumber);
}

#[test]
fn decode_restores_the_leading_bit_of_a_normal_value() {
    assert_eq!(
        decode(1.0f64.to_bits()),
        FullDecoded::Finite(Decoded { sign: 1, mantissa: 1 << 52, exponent: -52 })
    );
    assert_eq!(
        decode((-1.5f64).to_bits()),
        FullDecoded::Finite(Decoded { sign: -1, mantissa: 3 << 51, exponent: -52 })
    );
    assert_eq!(
        decode(f64::MAX.to_bits()),
        FullDecoded::Finite(Decoded { sign: 1, mantissa: (1 << 53) - 1, exponent: 971 })
    );
    assert_eq!(
        decode(f64::MIN_POSITIVE.to_bits()),
        FullDecoded::Finite(Decoded { sign: 1, mantissa: 1 << 52, exponent: -1074 })
    );
}

#[test]
fn decode_keeps_the_fraction_of_a_subnormal_value() {
    assert_eq!(
        decode(1),
        FullDecoded::Finite(Decoded { sign: 1, mantissa: 1, exponent: -1074 })
    );
    assert_eq!(
        decode(0x800f_ffff_ffff_ffff),
        FullDecoded::Finite(Decoded { sign: -1, mantissa: (1 << 52) - 1, exponent: -1074 })
    );
}

#[test]
fn decoded_fields_give_the_value_back() {
    let values = [1.0f64, 0.1, -2.5e-310, 6.02214076e23, f64::MAX, 5e-324, -123456.789];
    for v in values {
        match decode(v.to_bits()) {
            FullDecoded::Finite(d) => {
                let mut back = d.mantissa as f64;
                let mut e = d.exponent;
                while e > 0 {
                    back *= 2.0;
                    e -= 1;
                }
                while e < 0 {
                    back /= 2.0;
                    e += 1;
                }
                assert_eq!(back * d.sign as f64, v);
            }
            other => panic!("{:?}", other),
        }
    }
}

#[test]
fn decoded_fields_give_the_pattern_back() {
    let patterns = [1u64, 0x000f_ffff_ffff_ffff, 0x0010_0000_0000_0000, 0x3ff0_0000_0000_0000,
        0x7fef_ffff_ffff_ffff, 0xc00a_bcde_f012_3456, 0x8000_0000_0000_0001];
    for bits in patterns {
        match decode(bits) {
            FullDecoded::Finite(d) => {
                let top: u64 = if d.sign == 1 { 0 } else { 1 << 63 };
                let rest: u64 = if d.mantissa < (1 << 52) {
                    d.mantissa
                } else {
                    (((d.exponent as i64 + 1075) as u64) << 52) + (d.mantissa - (1 << 52))
                };
                assert_eq!(top + rest, bits);
            }
            other => panic!("{:?}", other),
        }
    }
}
