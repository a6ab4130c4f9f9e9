//! Binary magnitudes on decimal grids.
//!
//! A magnitude `a * 2^e` is measured at a decimal position `j`, that is in
//! units of `10^j`, as the fraction `a * unit(e, j) / denom(e, j)`. Both parts
//! are naturals, so every comparison with a decimal `c * 10^j` is a
//! comparison of two integers.
use crate::power::{
    lemma_pow10_adds,
    lemma_pow10_dominates_pow2,
    lemma_pow10_positive,
    lemma_pow2_56,
    lemma_pow2_adds,
    lemma_pow2_monotonic,
    lemma_pow2_positive,
    neg_part,
    pos_part,
    pow10,
    pow2,
};
use vstd::arithmetic::div_mod::{lemma_fundamental_div_mod, lemma_mod_pos_bound};
use vstd::prelude::*;

verus! {

/// The numerator of `2^e / 10^j`.
pub open spec fn unit(e: int, j: int) -> nat {
    pow2(pos_part(e)) * pow10(neg_part(j))
}

/// The denominator of `2^e / 10^j`.
pub open spec fn denom(e: int, j: int) -> nat {
    pow2(neg_part(e)) * pow10(pos_part(j))
}

/// The factor by which both parts of the fraction grow when a position `e`
/// is expressed on the finer grid `g`.
pub open spec fn regrid_factor(e: int, g: int) -> nat {
    pow10((neg_part(g) - neg_part(e)) as nat)
}

pub proof fn lemma_parts_positive(e: int, j: int)
    ensures
        unit(e, j) >= 1,
        denom(e, j) >= 1,
{
    lemma_pow2_positive(pos_part(e));
    lemma_pow2_positive(neg_part(e));
    lemma_pow10_positive(pos_part(j));
    lemma_pow10_positive(neg_part(j));
    let a = pow2(pos_part(e));
    let b = pow10(neg_part(j));
    let c = pow2(neg_part(e));
    let d = pow10(pos_part(j));
    assert(a * b >= 1 && c * d >= 1) by (nonlinear_arith)
        requires
            a >= 1,
            b >= 1,
            c >= 1,
            d >= 1,
    ;
}

/// One position down: either the denominator loses a factor of ten or the
/// numerator gains one.
pub proof fn lemma_grid_step(e: int, j: int)
    ensures
        j >= 1 ==> unit(e, j - 1) == unit(e, j) && denom(e, j) == 10 * denom(e, j - 1),
        j <= 0 ==> unit(e, j - 1) == 10 * unit(e, j) && denom(e, j - 1) == denom(e, j),
{
    let a = pow2(pos_part(e));
    let c = pow2(neg_part(e));
    if j >= 1 {
        let d = pow10(pos_part(j - 1));
        assert(pow10(pos_part(j)) == 10 * d);
        assert(c * (10 * d) == 10 * (c * d)) by (nonlinear_arith);
    } else {
        let b = pow10(neg_part(j));
        assert(pow10(neg_part(j - 1)) == 10 * b);
        assert(a * (10 * b) == 10 * (a * b)) by (nonlinear_arith);
    }
}

/// A decimal `c * 10^e` is `c * 10^(e - g)` units of the finer grid `g`:
/// numerator and denominator both grow by the same positive factor.
pub proof fn lemma_regrid(b: int, e: int, g: int)
    requires
        g <= e,
    ensures
        regrid_factor(e, g) >= 1,
        unit(b, g) == unit(b, e) * regrid_factor(e, g),
        pow10((e - g) as nat) * denom(b, g) == denom(b, e) * regrid_factor(e, g),
{
    let w = regrid_factor(e, g);
    let u = (e - g) as nat;
    let p = pow2(pos_part(b));
    let q = pow2(neg_part(b));
    lemma_pow10_positive((neg_part(g) - neg_part(e)) as nat);
    if g >= 0 {
        assert(w == pow10(0));
        assert(w == 1);
        lemma_pow10_adds(u, g as nat);
        let x = pow10(u);
        let y = pow10(g as nat);
        assert(unit(b, g) == unit(b, e) * 1);
        assert(x * (q * y) == (q * (x * y)) * 1) by (nonlinear_arith);
    } else if e <= 0 {
        assert(w == pow10(u));
        lemma_pow10_adds(neg_part(e), u);
        let x = pow10(neg_part(e));
        assert(pow10(pos_part(e)) == 1);
        assert(pow10(pos_part(g)) == 1);
        assert(p * (x * w) == (p * x) * w) by (nonlinear_arith);
        assert(w * (q * 1) == (q * 1) * w) by (nonlinear_arith);
    } else {
        let ng = neg_part(g);
        assert(w == pow10(ng));
        lemma_pow10_adds(e as nat, ng);
        assert(u == e as nat + ng);
        let x = pow10(e as nat);
        assert(pow10(neg_part(e)) == 1);
        assert(pow10(pos_part(g)) == 1);
        assert(p * w == (p * 1) * w) by (nonlinear_arith);
        assert((x * w) * (q * 1) == (q * x) * w) by (nonlinear_arith);
    }
}

/// Comparing `a * 2^b` with `c * 10^e` is comparing it with `c * 10^(e - g)`
/// units of the grid `g`.
pub proof fn lemma_regrid_compare(a: int, b: int, c: int, e: int, g: int)
    requires
        g <= e,
    ensures
        (a * unit(b, e) < c * denom(b, e)) == (a * unit(b, g) < (c * pow10((e - g) as nat))
            * denom(b, g)),
        (a * unit(b, e) <= c * denom(b, e)) == (a * unit(b, g) <= (c * pow10((e - g) as nat))
            * denom(b, g)),
{
    lemma_regrid(b, e, g);
    let w = regrid_factor(e, g) as int;
    let ue = unit(b, e) as int;
    let de = denom(b, e) as int;
    let ug = unit(b, g) as int;
    let dg = denom(b, g) as int;
    let x = pow10((e - g) as nat) as int;
    assert(a * ug == (a * ue) * w) by (nonlinear_arith)
        requires
            ug == ue * w,
    ;
    assert((c * x) * dg == (c * de) * w) by (nonlinear_arith)
        requires
            x * dg == de * w,
    ;
    lemma_scale_compare(a * ue, c * de, w);
}

/// Multiplying both sides by a positive factor keeps every comparison.
pub proof fn lemma_scale_compare(x: int, y: int, w: int)
    by (nonlinear_arith)
    requires
        w >= 1,
    ensures
        (x < y) == (x * w < y * w),
        (x <= y) == (x * w <= y * w),
        (x == y) == (x * w == y * w),
{
}

/// The quotient `a / b` rounded to the nearest natural, a tie going to the
/// even one.
pub open spec fn round_half_even(a: nat, b: nat) -> nat {
    let q = a / b;
    let r = a % b;
    if 2 * r < b {
        q
    } else if 2 * r > b {
        q + 1
    } else if q % 2 == 0 {
        q
    } else {
        q + 1
    }
}

/// Twice the distance between `n` and the quotient `a / b`, in units of `1 / b`.
pub open spec fn twice_off(n: int, a: nat, b: nat) -> int {
    let x = 2 * (n * b - a);
    if x >= 0 {
        x
    } else {
        -x
    }
}

/// The rounded quotient is within a half of the quotient, and is even where
/// it is exactly a half away.
pub proof fn lemma_round_half_even_is_nearest(a: nat, b: nat)
    requires
        b > 0,
    ensures
        twice_off(round_half_even(a, b) as int, a, b) <= b,
        twice_off(round_half_even(a, b) as int, a, b) == b ==> round_half_even(a, b) % 2 == 0,
{
    let q = (a / b) as int;
    let r = (a % b) as int;
    let bi = b as int;
    lemma_fundamental_div_mod(a as int, bi);
    lemma_mod_pos_bound(a as int, bi);
    assert((q + 1) * bi == q * bi + bi && bi * q == q * bi) by (nonlinear_arith);
}

/// Only the rounded quotient is within a half of the quotient and even where
/// it is exactly a half away.
pub proof fn lemma_nearest_is_round_half_even(a: nat, b: nat, n: int)
    requires
        b > 0,
        twice_off(n, a, b) < b || (twice_off(n, a, b) == b && n % 2 == 0),
    ensures
        n == round_half_even(a, b),
{
    let q = (a / b) as int;
    let r = (a % b) as int;
    let bi = b as int;
    lemma_fundamental_div_mod(a as int, bi);
    lemma_mod_pos_bound(a as int, bi);
    assert(bi * q == q * bi) by (nonlinear_arith);
    if n <= q - 1 {
        assert(n * bi <= q * bi - bi) by (nonlinear_arith)
            requires
                n <= q - 1,
                bi > 0,
        ;
    } else if n >= q + 2 {
        assert(n * bi >= q * bi + 2 * bi) by (nonlinear_arith)
            requires
                n >= q + 2,
                bi > 0,
        ;
    } else if n == q {
        assert(n * bi == q * bi);
    } else {
        assert(n * bi == q * bi + bi) by (nonlinear_arith)
            requires
                n == q + 1,
        ;
    }
}

/// A quotient between two naturals rounds to a natural between them.
pub proof fn lemma_round_bounds(a: nat, b: nat, lo: nat, hi: nat)
    requires
        b > 0,
        lo * b <= a,
        a < hi * b,
    ensures
        lo <= round_half_even(a, b) <= hi,
{
    let q = (a / b) as int;
    let r = (a % b) as int;
    let bi = b as int;
    lemma_fundamental_div_mod(a as int, bi);
    lemma_mod_pos_bound(a as int, bi);
    let l = lo as int;
    let h = hi as int;
    assert(q >= l) by (nonlinear_arith)
        requires
            l * bi <= bi * q + r,
            r < bi,
            bi > 0,
    ;
    assert(q < h) by (nonlinear_arith)
        requires
            bi * q + r < h * bi,
            r >= 0,
            bi > 0,
    ;
}

/// A quotient below one half rounds to zero.
pub proof fn lemma_round_zero(a: nat, b: nat)
    requires
        2 * a < b,
    ensures
        round_half_even(a, b) == 0,
{
    let bi = b as int;
    lemma_fundamental_div_mod(a as int, bi);
    lemma_mod_pos_bound(a as int, bi);
    let q = (a / b) as int;
    let r = (a % b) as int;
    assert(q == 0) by (nonlinear_arith)
        requires
            a == bi * q + r,
            0 <= r,
            a < bi,
            q >= 0,
            a >= 0,
    ;
}

/// Whether `s` and `u` are the denominator and the numerator of `2^e / 10^j`,
/// both scaled by the positive factor `t`.
pub open spec fn aligned(e: int, j: int, t: int, s: int, u: int) -> bool {
    &&& t >= 1
    &&& s == denom(e, j) * t
    &&& u == unit(e, j) * t
}

/// The factor after a step to the next finer position.
pub open spec fn finer_factor(j: int, t: int) -> int {
    if j >= 1 {
        10 * t
    } else {
        t
    }
}

/// The factor after a step to the next coarser position.
pub open spec fn coarser_factor(j: int, t: int) -> int {
    if j >= 0 {
        t
    } else {
        10 * t
    }
}

/// Ten times the numerator stands for the same magnitude one position down.
pub proof fn lemma_aligned_finer(e: int, j: int, t: int, s: int, u: int)
    requires
        aligned(e, j, t, s, u),
    ensures
        aligned(e, j - 1, finer_factor(j, t), s, 10 * u),
{
    lemma_grid_step(e, j);
    let d0 = denom(e, j - 1) as int;
    let u0 = unit(e, j) as int;
    assert((10 * d0) * t == d0 * (10 * t) && 10 * (u0 * t) == u0 * (10 * t) && 10 * (u0 * t) == (10
        * u0) * t) by (nonlinear_arith);
}

/// Ten times the denominator stands for the same magnitude one position up.
pub proof fn lemma_aligned_coarser(e: int, j: int, t: int, s: int, u: int)
    requires
        aligned(e, j, t, s, u),
    ensures
        aligned(e, j + 1, coarser_factor(j, t), 10 * s, u),
{
    lemma_grid_step(e, j + 1);
    let d0 = denom(e, j) as int;
    let u1 = unit(e, j + 1) as int;
    assert(10 * (d0 * t) == (10 * d0) * t && 10 * (d0 * t) == d0 * (10 * t) && (10 * u1) * t == u1
        * (10 * t)) by (nonlinear_arith);
}

/// A magnitude below `2^1026` that reaches `10^j` has `j` below 342.
pub proof fn lemma_position_upper(a: int, e: int, j: int)
    requires
        0 <= a,
        (a < 0x100_0000_0000_0000 && e <= 970) || (a < 0x80_0000_0000_0000 && e <= 971),
        a * unit(e, j) >= denom(e, j),
    ensures
        j <= 341,
{
    if j >= 342 {
        let jn = j as nat;
        lemma_pow2_56();
        assert(pow2(56) == 2 * pow2(55));
        lemma_pow10_dominates_pow2(jn);
        lemma_pow2_monotonic(1026, 3 * jn);
        lemma_pow2_adds(56, 970);
        lemma_pow2_adds(55, 971);
        lemma_pow2_positive(neg_part(e));
        lemma_pow2_positive(970);
        lemma_pow2_positive(971);
        assert(pow10(neg_part(j)) == 1);
        let p = pow2(pos_part(e)) as int;
        let q = pow2(neg_part(e)) as int;
        let x = pow10(jn) as int;
        let whole = pow2(1026) as int;
        if a < 0x100_0000_0000_0000 && e <= 970 {
            lemma_pow2_monotonic(pos_part(e), 970);
            let top = pow2(970) as int;
            assert(a * (p * 1) < 0x100_0000_0000_0000 * top) by (nonlinear_arith)
                requires
                    0 <= a < 0x100_0000_0000_0000,
                    0 <= p <= top,
                    top >= 1,
            ;
        } else {
            lemma_pow2_monotonic(pos_part(e), 971);
            let top = pow2(971) as int;
            assert(a * (p * 1) < 0x80_0000_0000_0000 * top) by (nonlinear_arith)
                requires
                    0 <= a < 0x80_0000_0000_0000,
                    0 <= p <= top,
                    top >= 1,
            ;
        }
        assert(a * (p * 1) < whole);
        assert(q * x >= x) by (nonlinear_arith)
            requires
                q >= 1,
                x >= 0,
        ;
    }
}

/// A magnitude of at least `2^-1076` that stays within `10^j` has `j` above -360.
pub proof fn lemma_position_lower(a: int, e: int, j: int)
    requires
        a >= 1,
        e >= -1076,
        a * unit(e, j) <= denom(e, j),
    ensures
        j >= -359,
{
    if j <= -360 {
        let jn = (-j) as nat;
        lemma_pow10_dominates_pow2(jn);
        lemma_pow2_monotonic(1077, 3 * jn);
        lemma_pow2_monotonic(neg_part(e), 1076);
        assert(pow2(1077) == 2 * pow2(1076));
        lemma_pow2_positive(pos_part(e));
        lemma_pow2_positive(1076);
        assert(pow10(pos_part(j)) == 1);
        let p = pow2(pos_part(e)) as int;
        let q = pow2(neg_part(e)) as int;
        let x = pow10(jn) as int;
        assert(unit(e, j) == p * x);
        assert(denom(e, j) == q * 1);
        assert(a * (p * x) >= x && q * 1 == q) by (nonlinear_arith)
            requires
                a >= 1,
                p >= 1,
                x >= 0,
        ;
        assert(x <= q);
        assert(q <= pow2(1076));
        assert(pow2(1077) <= x);
    }
}

} // verus!
