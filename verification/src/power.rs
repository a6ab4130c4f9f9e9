//! Powers of two and of ten over the naturals, with the arithmetic facts
//! the rest of the library leans on.
use vstd::prelude::*;

verus! {

/// `2^n`.
pub open spec fn pow2(n: nat) -> nat
    decreases n,
{
    if n == 0 {
        1
    } else {
        2 * pow2((n - 1) as nat)
    }
}

/// `10^n`.
pub open spec fn pow10(n: nat) -> nat
    decreases n,
{
    if n == 0 {
        1
    } else {
        10 * pow10((n - 1) as nat)
    }
}

/// The positive part of an integer: `max(x, 0)`.
pub open spec fn pos_part(x: int) -> nat {
    if x >= 0 {
        x as nat
    } else {
        0
    }
}

/// The negative part of an integer: `max(-x, 0)`.
pub open spec fn neg_part(x: int) -> nat {
    if x < 0 {
        (-x) as nat
    } else {
        0
    }
}

pub proof fn lemma_pow2_positive(n: nat)
    ensures
        pow2(n) >= 1,
    decreases n,
{
    if n > 0 {
        lemma_pow2_positive((n - 1) as nat);
    }
}

pub proof fn lemma_pow10_positive(n: nat)
    ensures
        pow10(n) >= 1,
    decreases n,
{
    if n > 0 {
        lemma_pow10_positive((n - 1) as nat);
    }
}

pub proof fn lemma_pow2_adds(a: nat, b: nat)
    ensures
        pow2(a + b) == pow2(a) * pow2(b),
    decreases a,
{
    if a == 0 {
        assert(pow2(0) == 1);
        assert(pow2(a + b) == 1 * pow2(b));
    } else {
        lemma_pow2_adds((a - 1) as nat, b);
        assert((a + b - 1) as nat == (a - 1) as nat + b);
        assert(pow2(a + b) == 2 * pow2((a + b - 1) as nat));
        assert(2 * (pow2((a - 1) as nat) * pow2(b)) == (2 * pow2((a - 1) as nat)) * pow2(b))
            by (nonlinear_arith);
    }
}

pub proof fn lemma_pow10_adds(a: nat, b: nat)
    ensures
        pow10(a + b) == pow10(a) * pow10(b),
    decreases a,
{
    if a == 0 {
        assert(pow10(0) == 1);
        assert(pow10(a + b) == 1 * pow10(b));
    } else {
        lemma_pow10_adds((a - 1) as nat, b);
        assert((a + b - 1) as nat == (a - 1) as nat + b);
        assert(pow10(a + b) == 10 * pow10((a + b - 1) as nat));
        assert(10 * (pow10((a - 1) as nat) * pow10(b)) == (10 * pow10((a - 1) as nat)) * pow10(
            b,
        )) by (nonlinear_arith);
    }
}

pub proof fn lemma_pow2_monotonic(a: nat, b: nat)
    requires
        a <= b,
    ensures
        pow2(a) <= pow2(b),
    decreases b,
{
    if a < b {
        lemma_pow2_monotonic(a, (b - 1) as nat);
    }
}

pub proof fn lemma_pow10_monotonic(a: nat, b: nat)
    requires
        a <= b,
    ensures
        pow10(a) <= pow10(b),
    decreases b,
{
    if a < b {
        lemma_pow10_monotonic(a, (b - 1) as nat);
    }
}

pub proof fn lemma_pow10_strictly_monotonic(a: nat, b: nat)
    requires
        a < b,
    ensures
        10 * pow10(a) <= pow10(b),
    decreases b,
{
    if a + 1 < b {
        lemma_pow10_strictly_monotonic(a, (b - 1) as nat);
    }
}

pub proof fn lemma_pow2_56()
    ensures
        pow2(56) == 0x100_0000_0000_0000,
{
    assert(pow2(14) == 0x4000) by {
        reveal_with_fuel(pow2, 15);
    }
    lemma_pow2_adds(14, 14);
    assert(pow2(28) == 0x4000 * 0x4000);
    lemma_pow2_adds(28, 28);
    assert(pow2(56) == 0x1000_0000 * 0x1000_0000);
}

/// A power of ten dominates the power of two with three times the exponent.
pub proof fn lemma_pow10_dominates_pow2(n: nat)
    ensures
        pow2(3 * n) <= pow10(n),
    decreases n,
{
    if n > 0 {
        lemma_pow10_dominates_pow2((n - 1) as nat);
        let m = (n - 1) as nat;
        assert(3 * n == 3 * m + 3);
        assert(pow2(3 * n) == 2 * pow2((3 * m + 2) as nat));
        assert(pow2((3 * m + 2) as nat) == 2 * pow2((3 * m + 1) as nat));
        assert(pow2((3 * m + 1) as nat) == 2 * pow2(3 * m));
    }
}

/// The product of two quantities, each held between two multiples of a
/// scale, lies between the products of the multiples times the product of
/// the scales.
proof fn lemma_scaled_product(
    a: int,
    b: int,
    la: int,
    ua: int,
    lb: int,
    ub: int,
    pa: int,
    pb: int,
)
    requires
        0 <= la,
        0 <= lb,
        0 <= pa,
        0 <= pb,
        la * pa <= a <= ua * pa,
        lb * pb <= b <= ub * pb,
    ensures
        (la * lb) * (pa * pb) <= a * b <= (ua * ub) * (pa * pb),
{
    let x = la * pa;
    let y = lb * pb;
    let z = ua * pa;
    let w = ub * pb;
    assert(x >= 0 && y >= 0) by (nonlinear_arith)
        requires
            x == la * pa,
            y == lb * pb,
            0 <= la,
            0 <= lb,
            0 <= pa,
            0 <= pb,
    ;
    assert(x * y <= a * b) by (nonlinear_arith)
        requires
            0 <= x <= a,
            0 <= y <= b,
    ;
    assert(a * b <= z * w) by (nonlinear_arith)
        requires
            0 <= a <= z,
            0 <= b <= w,
    ;
    assert(x * y == (la * lb) * (pa * pb)) by (nonlinear_arith)
        requires
            x == la * pa,
            y == lb * pb,
    ;
    assert(z * w == (ua * ub) * (pa * pb)) by (nonlinear_arith)
        requires
            z == ua * pa,
            w == ub * pb,
    ;
}

/// `2^93` is a little below `10^28`: between `990 * 10^25` and `991 * 10^25`.
proof fn lemma_pow2_93()
    ensures
        990 * pow10(25) <= pow2(93) <= 991 * pow10(25),
        pow2(52) == 0x10_0000_0000_0000,
        pow10(47) == 100_000_000_000_000_000_000_000_000_000_000_000_000_000_000_000,
{
    assert(pow2(14) == 0x4000) by {
        reveal_with_fuel(pow2, 15);
    }
    assert(pow2(9) == 512) by {
        reveal_with_fuel(pow2, 10);
    }
    lemma_pow2_adds(14, 14);
    assert(pow2(28) == 0x4000 * 0x4000);
    lemma_pow2_56();
    lemma_pow2_adds(56, 28);
    assert(pow2(84) == 0x100_0000_0000_0000 * 0x1000_0000);
    lemma_pow2_adds(84, 9);
    assert(pow2(93) == 9903520314283042199192993792);
    assert(pow2(56) == 16 * pow2(52)) by {
        reveal_with_fuel(pow2, 5);
    }
    assert(pow10(5) == 100_000) by {
        reveal_with_fuel(pow10, 6);
    }
    assert(pow10(2) == 100) by {
        reveal_with_fuel(pow10, 3);
    }
    lemma_pow10_adds(5, 5);
    assert(pow10(10) == 100_000 * 100_000);
    lemma_pow10_adds(10, 10);
    assert(pow10(20) == 10_000_000_000 * 10_000_000_000);
    lemma_pow10_adds(20, 5);
    assert(pow10(25) == 10_000_000_000_000_000_000_000_000);
    lemma_pow10_adds(20, 2);
    assert(pow10(22) == 10_000_000_000_000_000_000_000);
    lemma_pow10_adds(25, 22);
}

/// `2^1075`, the reciprocal of half the least double, lies between
/// `4.0 * 10^323` and `4.2 * 10^323`.
pub proof fn lemma_pow2_1075()
    ensures
        40 * pow10(322) < pow2(1075),
        pow2(1075) <= 42 * pow10(322),
{
    lemma_pow2_93();
    let two93 = pow2(93) as int;
    let ten25 = pow10(25) as int;
    lemma_pow10_positive(25);
    lemma_pow2_adds(93, 93);
    lemma_pow10_adds(25, 25);
    lemma_scaled_product(two93, two93, 990, 991, 990, 991, ten25, ten25);
    let two186 = pow2(186) as int;
    let ten50 = pow10(50) as int;
    assert(980100 * ten50 <= two186 <= 982081 * ten50);
    lemma_pow10_positive(50);
    lemma_pow2_adds(186, 186);
    lemma_pow10_adds(50, 50);
    lemma_scaled_product(two186, two186, 980100, 982081, 980100, 982081, ten50, ten50);
    let two372 = pow2(372) as int;
    let ten100 = pow10(100) as int;
    assert(960596010000 * ten100 <= two372 <= 964483090561 * ten100);
    lemma_pow10_positive(100);
    lemma_pow2_adds(372, 372);
    lemma_pow10_adds(100, 100);
    lemma_scaled_product(
        two372,
        two372,
        960596010000,
        964483090561,
        960596010000,
        964483090561,
        ten100,
        ten100,
    );
    let two744 = pow2(744) as int;
    let ten200 = pow10(200) as int;
    let lo8: int = 922744694427920100000000;
    let hi8: int = 930227631978098127294721;
    assert(lo8 * ten200 <= two744 <= hi8 * ten200);
    lemma_pow10_positive(200);
    lemma_pow2_adds(744, 186);
    lemma_pow10_adds(200, 50);
    lemma_scaled_product(two744, two186, lo8, hi8, 980100, 982081, ten200, ten50);
    let two930 = pow2(930) as int;
    let ten250 = pow10(250) as int;
    let lo10: int = 904382075008804490010000000000;
    let hi10: int = 913558883040682586951726894401;
    assert(lo10 * ten250 <= two930 <= hi10 * ten250);
    lemma_pow10_positive(250);
    lemma_pow2_adds(930, 93);
    lemma_pow10_adds(250, 25);
    lemma_scaled_product(two930, two93, lo10, hi10, 990, 991, ten250, ten25);
    let two1023 = pow2(1023) as int;
    let ten275 = pow10(275) as int;
    let lo11: int = 895338254258716445109900000000000;
    let hi11: int = 905336853093316443669161352351391;
    assert(lo11 * ten275 <= two1023 <= hi11 * ten275);
    lemma_pow10_positive(275);
    lemma_pow2_adds(1023, 52);
    let whole = pow2(1075) as int;
    assert((lo11 * 0x10_0000_0000_0000) * ten275 <= whole <= (hi11 * 0x10_0000_0000_0000) * ten275)
        by (nonlinear_arith)
        requires
            lo11 * ten275 <= two1023 <= hi11 * ten275,
            whole == two1023 * 0x10_0000_0000_0000,
    ;
    lemma_pow10_adds(275, 47);
    let ten47 = pow10(47) as int;
    assert(40 * (ten275 * ten47) == (40 * ten47) * ten275) by (nonlinear_arith);
    assert(42 * (ten275 * ten47) == (42 * ten47) * ten275) by (nonlinear_arith);
    let low_c = lo11 * 0x10_0000_0000_0000;
    let high_c = hi11 * 0x10_0000_0000_0000;
    assert(40 * ten47 < low_c);
    assert(high_c <= 42 * ten47);
    assert((40 * ten47) * ten275 < low_c * ten275 && high_c * ten275 <= (42 * ten47) * ten275)
        by (nonlinear_arith)
        requires
            40 * ten47 < low_c,
            high_c <= 42 * ten47,
            ten275 >= 1,
    ;
}

} // verus!
