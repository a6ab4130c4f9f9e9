//! The shortest digits are the nearest of their length.
//!
//! Among the decimals of one last place the digit loop picks the nearest by
//! construction. A decimal of no more digits but a lower last place is below
//! the power of ten that leads the shortest digits. It can read back as the
//! same double only if that power of ten does too, and then it is no nearer:
//! the interval of a double is too narrow for that, which for the few doubles
//! with a wide interval comes down to where `2^-1075` lies between two powers
//! of ten.
use crate::decoder::Decoded;
use crate::digits::{digits_value, lemma_value_lower};
use crate::power::{
    lemma_pow10_adds,
    lemma_pow10_monotonic,
    lemma_pow10_positive,
    lemma_pow10_strictly_monotonic,
    lemma_pow2_1075,
    lemma_pow2_positive,
    pow10,
    pow2,
};
use crate::ratio::{denom, lemma_parts_positive, lemma_regrid_compare, regrid_factor, unit};
use crate::shortest::is_shortest;
use vstd::prelude::*;

verus! {

/// Whether `c1 * 10^j1` is at least as near to the value as `c2 * 10^j2`:
/// both distances are counted in units of the finer of the two grids.
pub open spec fn at_least_as_near(d: Decoded, c1: int, j1: int, c2: int, j2: int) -> bool {
    let g = if j1 <= j2 {
        j1
    } else {
        j2
    };
    d.error(c1 * pow10((j1 - g) as nat), g) <= d.error(c2 * pow10((j2 - g) as nat), g)
}

/// A value just below a power of ten that reads back as it is within a
/// twentieth of that power.
proof fn lemma_narrow(d: Decoded, j: int)
    requires
        d.wf(),
        d.mid() * unit(d.grid_exp(), j) < denom(d.grid_exp(), j),
        d.below_high(1, j),
    ensures
        20 * (d.mid() * unit(d.grid_exp(), j)) >= 19 * denom(d.grid_exp(), j),
{
    let u = unit(d.grid_exp(), j) as int;
    let dn = denom(d.grid_exp(), j) as int;
    let mid = d.mid();
    let high = d.high();
    lemma_parts_positive(d.grid_exp(), j);
    assert(1 * dn == dn);
    assert(dn <= high * u);
    if d.mantissa >= 10 {
        assert(20 * (mid * u) >= 19 * (high * u)) by (nonlinear_arith)
            requires
                20 * mid >= 19 * high,
                u >= 1,
        ;
    } else {
        assert(d.grid_exp() == -1075);
        assert(high == mid + 1);
        assert(2 <= mid <= 18);
        lemma_pow2_1075();
        let whole = pow2(1075) as int;
        let b = pow10(322) as int;
        lemma_pow10_positive(322);
        assert(pow2(0) == 1);
        assert(pow10(0) == 1);
        assert(1 * 1 == 1);
        if j >= 0 {
            lemma_pow10_positive(j as nat);
            let x = pow10(j as nat) as int;
            assert(u == pow2(0) * pow10(0));
            assert(u == 1);
            assert(dn == pow2(1075) * pow10(j as nat));
            assert(dn == whole * x);
            assert(whole * x >= whole) by (nonlinear_arith)
                requires
                    x >= 1,
                    whole >= 0,
            ;
            assert(high * 1 == high);
        } else {
            let a = (-j) as nat;
            let x = pow10(a) as int;
            assert(u == pow2(0) * pow10(a));
            assert(u == 1 * x);
            assert(dn == pow2(1075) * pow10(0));
            assert(dn == whole * 1);
            if a <= 322 {
                lemma_pow10_monotonic(a, 322);
                assert(high * x <= 19 * b) by (nonlinear_arith)
                    requires
                        0 <= high <= 19,
                        0 <= x <= b,
                ;
            } else if a >= 324 {
                lemma_pow10_monotonic(324, a);
                assert(pow10(324) == 10 * pow10(323));
                assert(pow10(323) == 10 * b);
                assert(mid * x >= 200 * b) by (nonlinear_arith)
                    requires
                        mid >= 2,
                        x >= 100 * b,
                        b >= 0,
                ;
            } else {
                assert(x == 10 * b);
                assert(mid * x == (10 * mid) * b && high * x == (10 * high) * b)
                    by (nonlinear_arith)
                    requires
                        x == 10 * b,
                ;
                assert(mid <= 4) by (nonlinear_arith)
                    requires
                        (10 * mid) * b < 42 * b,
                        b >= 1,
                ;
                assert(high >= 5) by (nonlinear_arith)
                    requires
                        40 * b < (10 * high) * b,
                        b >= 1,
                ;
                assert(mid == 4);
                assert((10 * mid) * b == 40 * b);
            }
        }
    }
}

/// No decimal of at most as many digits as the shortest digits, of whatever
/// exponent, reads back as the double and is nearer to it.
pub proof fn lemma_nearest_of_its_length(d: Decoded, digits: Seq<u8>, k: int, c: int, e: int)
    requires
        d.wf(),
        is_shortest(d, digits, k),
        c < pow10(digits.len()),
        d.round_trips(c, e),
    ensures
        at_least_as_near(d, digits_value(digits) as int, k - digits.len(), c, e),
{
    let n = digits.len();
    let j = k - n;
    let value = digits_value(digits) as int;
    lemma_value_lower(digits);
    assert(pow10(0) == 1);
    if e >= j {
        d.lemma_regrid_round_trips(c, e, j);
        assert(value * 1 == value);
    } else {
        let t = (j - e) as nat;
        let step = pow10(t) as int;
        let lead = pow10((n - 1) as nat) as int;
        lemma_pow10_strictly_monotonic(0, t);
        lemma_pow10_positive((n - 1) as nat);
        assert(pow10(n) == 10 * lead);
        assert(c * 1 == c);
        assert(10 * lead <= lead * step && lead * step <= value * step) by (nonlinear_arith)
            requires
                step >= 10,
                1 <= lead <= value,
        ;
        d.lemma_regrid_round_trips(value, j, e);
        d.lemma_above_low_monotone(c, lead * step, e);
        d.lemma_below_high_monotone(lead * step, value * step, e);
        d.lemma_regrid_round_trips(lead, j, e);
        assert(d.round_trips(lead, j));
        if n >= 2 {
            d.lemma_regrid_round_trips(1, k - 1, j);
            assert(1 * lead == lead);
            lemma_pow10_strictly_monotonic(0, (n - 1) as nat);
            assert(d.round_trips(1, k - 1));
            assert(false);
        } else {
            assert(lead == 1);
            let b = d.grid_exp();
            let mid = d.mid();
            let uj = unit(b, j) as int;
            let dj = denom(b, j) as int;
            let ue = unit(b, e) as int;
            let de = denom(b, e) as int;
            lemma_parts_positive(b, j);
            lemma_parts_positive(b, e);
            d.lemma_regrid_error(1, j, e);
            d.lemma_regrid_error(value, j, e);
            let w = regrid_factor(j, e) as int;
            assert(d.error(value, j) <= d.error(1, j));
            assert(d.error(value, j) * w <= d.error(1, j) * w) by (nonlinear_arith)
                requires
                    d.error(value, j) <= d.error(1, j),
                    w >= 1,
            ;
            lemma_regrid_compare(mid, b, 1, j, e);
            assert(1 * dj == dj);
            assert(1 * step == step);
            assert(c * de < step * de) by (nonlinear_arith)
                requires
                    c < step,
                    de >= 1,
            ;
            if mid * uj >= dj {
                assert(d.error(c, e) >= d.error(step, e));
            } else {
                lemma_narrow(d, j);
                if value >= 2 {
                    assert(value * dj >= 2 * dj) by (nonlinear_arith)
                        requires
                            value >= 2,
                            dj >= 0,
                    ;
                    assert(false);
                }
                assert(value == 1);
                lemma_regrid_compare(20 * mid, b, 19, j, e);
                assert((20 * mid) * uj == 20 * (mid * uj) && (20 * mid) * ue == 20 * (mid * ue)
                    && (19 * step) * de == 19 * (step * de)) by (nonlinear_arith);
                assert(pow10(1) == 10 * pow10(0));
                assert(10 * (c * de) <= 9 * (step * de)) by (nonlinear_arith)
                    requires
                        c <= 9,
                        step >= 10,
                        de >= 1,
                ;
            }
        }
    }
}

} // verus!
