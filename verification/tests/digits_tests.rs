use dragon4::digits::round_up;

#[test]
fn round_up_adds_one_in_the_last_place() {
    let mut d = b"1234".to_vec();
    assert!(!round_up(&mut d));
    assert_eq!(d, b"1235");
}

#[test]
fn round_up_carries_over_nines() {
    let mut d = b"12999".to_vec();
    assert!(!round_up(&mut d));
    assert_eq!(d, b"13000");
    let mut d = b"0999".to_vec();
    assert!(!round_up(&mut d));
    assert_eq!(d, b"1000");
}

#[test]
fn round_up_reports_a_carry_out_of_the_first_digit() {
    let mut d = b"999".to_vec();
    assert!(round_up(&mut d));
    assert_eq!(d, b"100");
    let mut d = b"9".to_vec();
    assert!(round_up(&mut d));
    assert_eq!(d, b"1");
}

#[test]
fn round_up_of_no_digits_carries_out() {
    let mut d: Vec<u8> = Vec::new();
    assert!(round_up(&mut d));
    assert!(d.is_empty());
}
