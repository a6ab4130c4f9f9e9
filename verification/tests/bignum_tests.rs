use dragon4::bignum::{Big, Order};

#[test]
fn from_u64_orders_as_the_numbers_do() {
    assert_eq!(Big::from_u64(5).compare(&Big::from_u64(7)), Order::Less);
    assert_eq!(Big::from_u64(7).compare(&Big::from_u64(7)), Order::Equal);
    assert_eq!(Big::from_u64(u64::MAX).compare(&Big::from_u64(1 << 40)), Order::Greater);
    assert_eq!(Big::from_u64(1 << 32).compare(&Big::from_u64(u32::MAX as u64)), Order::Greater);
    assert_eq!(Big::from_u64(0).compare(&Big::from_u64(0)), Order::Equal);
    assert_eq!(Big::from_u64(0).compare(&Big::from_u64(1 << 33)), Order::Less);
    assert!(Big::from_u64(3).less_than(&Big::from_u64(4)));
    assert!(!Big::from_u64(4).less_than(&Big::from_u64(4)));
    assert!(Big::from_u64(4).at_most(&Big::from_u64(4)));
    assert!(!Big::from_u64(5).at_most(&Big::from_u64(4)));
}

#[test]
fn mul_small_carries_into_new_limbs() {
    let mut a = Big::from_u64(0xffff_ffff);
    a.mul_small(0xffff_ffff);
    assert_eq!(a.compare(&Big::from_u64(0xffff_fffe_0000_0001)), Order::Equal);
    let mut b = Big::from_u64(u64::MAX);
    b.mul_small(2);
    let mut c = Big::from_u64(1 << 63);
    c.mul_small(4);
    assert_eq!(b.compare(&c), Order::Less);
    c.sub_assign(&b);
    assert_eq!(c.compare(&Big::from_u64(2)), Order::Equal);
}

#[test]
fn powers_of_ten_split_into_powers_of_two_and_five() {
    let mut a = Big::from_u64(1);
    let mut c = Big::from_u64(1);
    for _ in 0..30 {
        a.mul_small(10);
        c.mul_small(5);
    }
    assert_eq!(a.compare(&c), Order::Greater);
    c.mul_pow2(29);
    assert_eq!(a.compare(&c), Order::Greater);
    c.mul_small(2);
    assert_eq!(a.compare(&c), Order::Equal);
}

#[test]
fn mul_small_by_zero_gives_zero() {
    let mut a = Big::from_u64(u64::MAX);
    a.mul_small(0);
    assert_eq!(a.compare(&Big::from_u64(0)), Order::Equal);
    a.mul_small(7);
    assert_eq!(a.compare(&Big::from_u64(0)), Order::Equal);
}

#[test]
fn mul_pow2_is_repeated_doubling() {
    let mut a = Big::from_u64(12345);
    a.mul_pow2(100);
    let mut b = Big::from_u64(12345);
    for _ in 0..100 {
        b.mul_small(2);
    }
    assert_eq!(a.compare(&b), Order::Equal);
    let mut c = Big::from_u64(12345);
    c.mul_pow2(0);
    assert_eq!(c.compare(&Big::from_u64(12345)), Order::Equal);
}

#[test]
fn sub_assign_borrows_across_limbs() {
    let mut a = Big::from_u64(1 << 32);
    a.sub_assign(&Big::from_u64(1));
    assert_eq!(a.compare(&Big::from_u64(0xffff_ffff)), Order::Equal);
    let mut b = Big::from_u64(1);
    b.mul_pow2(200);
    let mut c = b.duplicate();
    c.sub_assign(&Big::from_u64(1));
    assert_eq!(c.compare(&b), Order::Less);
    b.sub_assign(&c);
    assert_eq!(b.compare(&Big::from_u64(1)), Order::Equal);
    let mut d = c.duplicate();
    d.sub_assign(&c);
    assert_eq!(d.compare(&Big::from_u64(0)), Order::Equal);
}

#[test]
fn take_digit_divides_with_remainder() {
    let mut a = Big::from_u64(47);
    let d = a.take_digit(&Big::from_u64(5));
    assert_eq!(d, 9);
    assert_eq!(a.compare(&Big::from_u64(2)), Order::Equal);
    let mut b = Big::from_u64(3);
    assert_eq!(b.take_digit(&Big::from_u64(5)), 0);
    assert_eq!(b.compare(&Big::from_u64(3)), Order::Equal);
}

#[test]
fn sub_times_takes_a_multiple() {
    let mut a = Big::from_u64(100);
    a.sub_times(&Big::from_u64(11), 9);
    assert_eq!(a.compare(&Big::from_u64(1)), Order::Equal);
    a.sub_times(&Big::from_u64(11), 0);
    assert_eq!(a.compare(&Big::from_u64(1)), Order::Equal);
}
