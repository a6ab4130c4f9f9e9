use dragon4::decoder::{decode, Decoded, FullDecoded};
use dragon4::exact::format_exact;
use dragon4::shortest::format_shortest;

fn finite(v: f64) -> Decoded {
    match decode(v.to_bits()) {
        FullDecoded::Finite(d) => d,
        other => panic!("{:?}", other),
    }
}

fn exact(v: f64, limit: i32, max_len: usize) -> (String, i16) {
    let (digits, k) = format_exact(&finite(v), limit, max_len);
    (String::from_utf8(digits).unwrap(), k)
}

#[test]
fn format_exact_stops_at_the_limit() {
    assert_eq!(exact(123.456, -2, 100), ("12346".to_string(), 3));
    assert_eq!(exact(123.456, 0, 100), ("123".to_string(), 3));
    assert_eq!(exact(123.456, 1, 100), ("12".to_string(), 3));
    assert_eq!(exact(123.456, 2, 100), ("1".to_string(), 3));
}

#[test]
fn format_exact_stops_at_the_length() {
    assert_eq!(exact(123.456, -20, 4), ("1235".to_string(), 3));
    assert_eq!(exact(123.456, -20, 1), ("1".to_string(), 3));
    assert_eq!(exact(123.456, -1, 6), ("1235".to_string(), 3));
}

#[test]
fn format_exact_appends_the_carry_within_the_length() {
    assert_eq!(exact(9.9996, -3, 100), ("10000".to_string(), 2));
    assert_eq!(exact(0.96, -1, 100), ("10".to_string(), 1));
    assert_eq!(exact(0.06, -1, 100), ("1".to_string(), 0));
    assert_eq!(exact(960.0, 3, 100), ("1".to_string(), 4));
}

#[test]
fn format_exact_cuts_the_carry_at_the_length() {
    assert_eq!(exact(9.9996, -100, 4), ("1000".to_string(), 2));
    assert_eq!(exact(9.9996, -3, 4), ("1000".to_string(), 2));
    assert_eq!(exact(0.96, -100, 0), ("".to_string(), 1));
}

#[test]
fn format_exact_gives_no_digit_at_or_above_the_magnitude() {
    assert_eq!(exact(123.456, 3, 100), ("".to_string(), 3));
    assert_eq!(exact(123.456, 5, 100), ("".to_string(), 3));
    assert_eq!(exact(960.0, 5, 100), ("".to_string(), 4));
    assert_eq!(exact(0.5, 0, 100), ("".to_string(), 0));
    assert_eq!(exact(1.5, 1, 100), ("".to_string(), 1));
    assert_eq!(exact(5.000001, 1, 100), ("1".to_string(), 2));
}

#[test]
fn format_exact_takes_the_widest_limits() {
    assert_eq!(exact(0.25, i32::MIN, 1), ("2".to_string(), 0));
    assert_eq!(exact(0.25, i32::MAX, usize::MAX), ("".to_string(), 0));
    assert_eq!(exact(0.75, i32::MAX, usize::MAX), ("".to_string(), 1));
    assert_eq!(exact(0.25, i32::MIN, 0), ("".to_string(), 0));
}

#[test]
fn format_shortest_takes_a_decoded_value() {
    let (digits, k) = format_shortest(&Decoded { sign: 1, mantissa: 1 << 52, exponent: -52 });
    assert_eq!((digits.as_slice(), k), (b"1".as_slice(), 1));
    let (digits, k) = format_shortest(&Decoded { sign: -1, mantissa: 3 << 51, exponent: -51 });
    assert_eq!((digits.as_slice(), k), (b"3".as_slice(), 1));
    let (digits, k) = format_shortest(&finite(0.1 + 0.2));
    assert_eq!((digits.as_slice(), k), (b"30000000000000004".as_slice(), 0));
}
