//! Why the rounding interval is the right one: a decimal lies in the
//! interval of a double exactly when rounding the decimal to the nearest
//! double, a tie going to the even mantissa, gives that double.
//!
//! Every double, and every midpoint between two doubles, is a whole multiple
//! of `2^-1076`. Distances are measured in that unit.
use crate::decoder::Decoded;
use crate::digits::digits_value;
use crate::power::{lemma_pow2_adds, lemma_pow2_monotonic, lemma_pow2_positive, pow10, pow2};
use crate::ratio::{denom, lemma_parts_positive, lemma_scale_compare, unit};
use crate::shortest::is_shortest;
use vstd::prelude::*;

verus! {

/// The binary exponent of the unit in which doubles and midpoints are whole.
pub open spec fn base_exp() -> int {
    -1076
}

/// A point of the grid of doubles: a mantissa of up to 53 bits that is
/// normalized unless the exponent is the least one. Every finite non-zero
/// double is such a point; the grid goes on beyond the largest double, so
/// that `2^1024`, where rounding overflows, is one too.
pub open spec fn is_binary_point(o: Decoded) -> bool {
    &&& 0 < o.mantissa < 0x20_0000_0000_0000
    &&& -1074 <= o.exponent
    &&& o.mantissa >= 0x10_0000_0000_0000 || o.exponent == -1074
}

/// The magnitude in units of `2^-1076`.
pub open spec fn lattice(o: Decoded) -> int {
    o.mantissa * pow2((o.exponent - base_exp()) as nat)
}

/// The distance between `c * 10^j` and the magnitude of `o`, in units of
/// `10^j / denom(-1076, j)`: comparable between points for one decimal.
pub open spec fn distance(o: Decoded, c: int, j: int) -> int {
    let x = c * denom(base_exp(), j) - lattice(o) * unit(base_exp(), j);
    if x >= 0 {
        x
    } else {
        -x
    }
}

/// The distance between `c * 10^j` and zero, in the same units.
pub open spec fn distance_to_zero(c: int, j: int) -> int {
    let x = c * denom(base_exp(), j);
    if x >= 0 {
        x
    } else {
        -x
    }
}

/// Whether rounding to nearest, ties to even, prefers `d` to `o` for the
/// decimal `c * 10^j`.
pub open spec fn preferred(d: Decoded, o: Decoded, c: int, j: int) -> bool {
    distance(d, c, j) < distance(o, c, j) || (distance(d, c, j) == distance(o, c, j) && d.mantissa
        % 2 == 0)
}

/// Whether the decimal `c * 10^j`, rounded to the nearest double with ties
/// going to the even mantissa, is `d`: `d` is preferred to every other point
/// of the grid of doubles, and is nearer than zero.
pub open spec fn reads_back(d: Decoded, c: int, j: int) -> bool {
    &&& forall|o: Decoded|
        is_binary_point(o) && lattice(o) != lattice(d) ==> #[trigger] preferred(d, o, c, j)
    &&& distance(d, c, j) < distance_to_zero(c, j)
}

/// Half the distance from `d` down to the next point, in units of `2^-1076`.
pub open spec fn lower_half_gap(d: Decoded) -> int {
    pow2((d.grid_exp() - base_exp()) as nat) as int
}

/// Half the distance from `d` up to the next point, in units of `2^-1076`.
pub open spec fn upper_half_gap(d: Decoded) -> int {
    d.gap_shift() * pow2((d.grid_exp() - base_exp()) as nat)
}

/// The midpoints are where the interval module puts them.
proof fn lemma_ends_on_lattice(d: Decoded)
    requires
        d.wf(),
    ensures
        lower_half_gap(d) >= 1,
        upper_half_gap(d) >= lower_half_gap(d),
        2 * upper_half_gap(d) == pow2((d.exponent - base_exp()) as nat),
        2 * lower_half_gap(d) <= pow2((d.exponent - base_exp()) as nat),
        d.gap_shift() == 2 ==> 4 * lower_half_gap(d) == pow2((d.exponent - base_exp()) as nat),
        d.mid() * lower_half_gap(d) == lattice(d),
        d.low() * lower_half_gap(d) == lattice(d) - lower_half_gap(d),
        d.high() * lower_half_gap(d) == lattice(d) + upper_half_gap(d),
        lattice(d) >= 2 * lower_half_gap(d),
        d.mantissa % 2 == 0 ==> lattice(d) >= 4 * lower_half_gap(d),
{
    let w = lower_half_gap(d);
    let m = d.mantissa as int;
    let g = (d.grid_exp() - base_exp()) as nat;
    lemma_pow2_positive(g);
    let p = pow2((d.exponent - base_exp()) as nat) as int;
    if d.gap_shift() == 2 {
        assert(pow2(g + 2) == 2 * pow2(g + 1));
        assert(pow2(g + 1) == 2 * pow2(g));
        assert(p == 4 * w);
        assert((4 * m) * w == m * (4 * w) && (4 * m - 1) * w == m * (4 * w) - w && (4 * m + 2) * w
            == m * (4 * w) + 2 * w) by (nonlinear_arith);
        assert(m * (4 * w) >= 4 * w) by (nonlinear_arith)
            requires
                m >= 1,
                w >= 1,
        ;
    } else {
        assert(pow2(g + 1) == 2 * pow2(g));
        assert(p == 2 * w);
        assert((2 * m) * w == m * (2 * w) && (2 * m - 1) * w == m * (2 * w) - w && (2 * m + 1) * w
            == m * (2 * w) + 1 * w) by (nonlinear_arith);
        assert(m * (2 * w) >= 2 * w) by (nonlinear_arith)
            requires
                m >= 1,
                w >= 1,
        ;
        if m % 2 == 0 {
            assert(m * (2 * w) >= 4 * w) by (nonlinear_arith)
                requires
                    m >= 2,
                    w >= 1,
            ;
        }
    }
}

/// A comparison on the grid of a binary exponent `b` is the same comparison
/// in units of `2^-1076`.
proof fn lemma_rebase(a: int, b: int, c: int, j: int)
    requires
        b >= base_exp(),
    ensures
        (a * unit(b, j) < c * denom(b, j)) == ((a * pow2((b - base_exp()) as nat)) * unit(
            base_exp(),
            j,
        ) < c * denom(base_exp(), j)),
        (a * unit(b, j) <= c * denom(b, j)) == ((a * pow2((b - base_exp()) as nat)) * unit(
            base_exp(),
            j,
        ) <= c * denom(base_exp(), j)),
{
    let x = pow10(crate::power::neg_part(j)) as int;
    let y = pow10(crate::power::pos_part(j)) as int;
    let w = pow2((b - base_exp()) as nat) as int;
    let full = pow2(1076) as int;
    lemma_pow2_positive((b - base_exp()) as nat);
    lemma_pow2_positive(1076);
    assert(pow2(0) == 1);
    assert(unit(base_exp(), j) == 1 * x);
    assert(denom(base_exp(), j) == full * y);
    if b >= 0 {
        let pb = pow2(b as nat) as int;
        lemma_pow2_adds(b as nat, 1076);
        lemma_pow2_positive(b as nat);
        assert(unit(b, j) == pb * x);
        assert(denom(b, j) == 1 * y);
        assert((a * w) * (1 * x) == (a * (pb * x)) * full && c * (full * y) == (c * (1 * y))
            * full) by (nonlinear_arith)
            requires
                w == pb * full,
        ;
        lemma_scale_compare(a * (pb * x), c * (1 * y), full);
    } else {
        let nb = pow2((-b) as nat) as int;
        lemma_pow2_adds((-b) as nat, (b - base_exp()) as nat);
        assert(unit(b, j) == 1 * x);
        assert(denom(b, j) == nb * y);
        assert((a * w) * (1 * x) == (a * (1 * x)) * w && c * (full * y) == (c * (nb * y)) * w)
            by (nonlinear_arith)
            requires
                full == nb * w,
        ;
        lemma_scale_compare(a * (1 * x), c * (nb * y), w);
    }
}

/// The interval tests in units of `2^-1076`.
proof fn lemma_interval_on_lattice(d: Decoded, c: int, j: int)
    requires
        d.wf(),
    ensures
        d.above_low(c, j) == if d.inclusive() {
            (lattice(d) - lower_half_gap(d)) * unit(base_exp(), j) <= c * denom(base_exp(), j)
        } else {
            (lattice(d) - lower_half_gap(d)) * unit(base_exp(), j) < c * denom(base_exp(), j)
        },
        d.below_high(c, j) == if d.inclusive() {
            c * denom(base_exp(), j) <= (lattice(d) + upper_half_gap(d)) * unit(base_exp(), j)
        } else {
            c * denom(base_exp(), j) < (lattice(d) + upper_half_gap(d)) * unit(base_exp(), j)
        },
{
    lemma_ends_on_lattice(d);
    lemma_rebase(d.low(), d.grid_exp(), c, j);
    lemma_rebase(d.high(), d.grid_exp(), c, j);
}

/// Between a double and the next point of the grid, above or below, there is
/// no other point.
proof fn lemma_no_point_between(d: Decoded, o: Decoded)
    requires
        d.wf(),
        is_binary_point(o),
    ensures
        lattice(o) > lattice(d) ==> lattice(o) >= lattice(d) + 2 * upper_half_gap(d),
        lattice(o) < lattice(d) ==> lattice(o) <= lattice(d) - 2 * lower_half_gap(d),
{
    lemma_ends_on_lattice(d);
    let m = d.mantissa as int;
    let m2 = o.mantissa as int;
    let e = d.exponent as int;
    let e2 = o.exponent as int;
    let p = pow2((e - base_exp()) as nat) as int;
    let q = pow2((e2 - base_exp()) as nat) as int;
    lemma_pow2_positive((e - base_exp()) as nat);
    lemma_pow2_positive((e2 - base_exp()) as nat);
    let w = lower_half_gap(d);
    if e2 == e {
        assert(m2 > m ==> m2 * p >= m * p + p) by (nonlinear_arith)
            requires
                p >= 1,
        ;
        assert(m2 < m ==> m2 * p <= m * p - p) by (nonlinear_arith)
            requires
                p >= 1,
        ;
        assert(m2 == m ==> m2 * p == m * p);
    } else if e2 > e {
        lemma_pow2_monotonic((e + 1 - base_exp()) as nat, (e2 - base_exp()) as nat);
        assert(pow2((e + 1 - base_exp()) as nat) == 2 * p);
        assert(m2 * q >= m * p + p) by (nonlinear_arith)
            requires
                m2 >= 0x10_0000_0000_0000,
                m < 0x20_0000_0000_0000,
                q >= 2 * p,
                p >= 1,
        ;
    } else {
        lemma_pow2_monotonic((e2 + 1 - base_exp()) as nat, (e - base_exp()) as nat);
        assert(pow2((e2 + 1 - base_exp()) as nat) == 2 * q);
        if d.gap_shift() == 2 {
            assert(p == 4 * w);
            assert(m2 * q <= m * (4 * w) - 2 * w) by (nonlinear_arith)
                requires
                    m == 0x10_0000_0000_0000,
                    0 <= m2 < 0x20_0000_0000_0000,
                    4 * w >= 2 * q,
                    q >= 1,
            ;
        } else {
            assert(m2 * q <= m * p - p) by (nonlinear_arith)
                requires
                    m > 0x10_0000_0000_0000,
                    0 <= m2 < 0x20_0000_0000_0000,
                    p >= 2 * q,
                    q >= 1,
            ;
        }
    }
}

/// The next point of the grid above a double.
pub open spec fn next_point(d: Decoded) -> Decoded {
    if d.mantissa + 1 < 0x20_0000_0000_0000 {
        Decoded { sign: d.sign, mantissa: (d.mantissa + 1) as u64, exponent: d.exponent }
    } else {
        Decoded {
            sign: d.sign,
            mantissa: 0x10_0000_0000_0000,
            exponent: (d.exponent + 1) as i16,
        }
    }
}

/// The next point of the grid below a double, where there is one above zero.
pub open spec fn prev_point(d: Decoded) -> Decoded {
    if d.mantissa == 0x10_0000_0000_0000 && d.exponent > -1074 {
        Decoded {
            sign: d.sign,
            mantissa: 0x1f_ffff_ffff_ffff,
            exponent: (d.exponent - 1) as i16,
        }
    } else {
        Decoded { sign: d.sign, mantissa: (d.mantissa - 1) as u64, exponent: d.exponent }
    }
}

proof fn lemma_next_point(d: Decoded)
    requires
        d.wf(),
    ensures
        is_binary_point(next_point(d)),
        lattice(next_point(d)) == lattice(d) + 2 * upper_half_gap(d),
{
    lemma_ends_on_lattice(d);
    let m = d.mantissa as int;
    let p = pow2((d.exponent - base_exp()) as nat) as int;
    if d.mantissa + 1 < 0x20_0000_0000_0000 {
        assert((m + 1) * p == m * p + p) by (nonlinear_arith);
    } else {
        assert(pow2((d.exponent + 1 - base_exp()) as nat) == 2 * p);
        assert(0x10_0000_0000_0000 * (2 * p) == m * p + p) by (nonlinear_arith)
            requires
                m == 0x1f_ffff_ffff_ffff,
        ;
    }
}

proof fn lemma_prev_point(d: Decoded)
    requires
        d.wf(),
        d.mantissa > 1,
    ensures
        is_binary_point(prev_point(d)),
        lattice(prev_point(d)) == lattice(d) - 2 * lower_half_gap(d),
{
    lemma_ends_on_lattice(d);
    let m = d.mantissa as int;
    let p = pow2((d.exponent - base_exp()) as nat) as int;
    let w = lower_half_gap(d);
    if d.mantissa == 0x10_0000_0000_0000 && d.exponent > -1074 {
        assert(pow2((d.exponent - base_exp()) as nat) == 2 * pow2(
            (d.exponent - 1 - base_exp()) as nat,
        ));
        let half = pow2((d.exponent - 1 - base_exp()) as nat) as int;
        assert(0x1f_ffff_ffff_ffff * half == m * (2 * half) - half) by (nonlinear_arith)
            requires
                m == 0x10_0000_0000_0000,
        ;
    } else {
        assert((m - 1) * p == m * p - p) by (nonlinear_arith);
    }
}

/// The distances involved, spelled out over the products they are made of.
proof fn lemma_distances(d: Decoded, o: Decoded, c: int, j: int)
    ensures
        unit(base_exp(), j) >= 1,
        denom(base_exp(), j) >= 1,
        (lattice(d) - lower_half_gap(d)) * unit(base_exp(), j) == lattice(d) * unit(base_exp(), j)
            - lower_half_gap(d) * unit(base_exp(), j),
        (lattice(d) + upper_half_gap(d)) * unit(base_exp(), j) == lattice(d) * unit(base_exp(), j)
            + upper_half_gap(d) * unit(base_exp(), j),
        (lattice(d) - 2 * lower_half_gap(d)) * unit(base_exp(), j) == lattice(d) * unit(
            base_exp(),
            j,
        ) - 2 * (lower_half_gap(d) * unit(base_exp(), j)),
        (lattice(d) + 2 * upper_half_gap(d)) * unit(base_exp(), j) == lattice(d) * unit(
            base_exp(),
            j,
        ) + 2 * (upper_half_gap(d) * unit(base_exp(), j)),
        lattice(o) >= lattice(d) + 2 * upper_half_gap(d) ==> lattice(o) * unit(base_exp(), j) >= (
        lattice(d) + 2 * upper_half_gap(d)) * unit(base_exp(), j),
        lattice(o) <= lattice(d) - 2 * lower_half_gap(d) ==> lattice(o) * unit(base_exp(), j) <= (
        lattice(d) - 2 * lower_half_gap(d)) * unit(base_exp(), j),
{
    lemma_parts_positive(base_exp(), j);
    let u = unit(base_exp(), j) as int;
    let v = lattice(d);
    let vo = lattice(o);
    let l = lower_half_gap(d);
    let h = upper_half_gap(d);
    assert((v - l) * u == v * u - l * u && (v + h) * u == v * u + h * u && (v - 2 * l) * u == v * u
        - 2 * (l * u) && (v + 2 * h) * u == v * u + 2 * (h * u)) by (nonlinear_arith);
    assert(vo >= v + 2 * h ==> vo * u >= (v + 2 * h) * u) by (nonlinear_arith)
        requires
            u >= 1,
    ;
    assert(vo <= v - 2 * l ==> vo * u <= (v - 2 * l) * u) by (nonlinear_arith)
        requires
            u >= 1,
    ;
}

/// A decimal in the rounding interval of a double reads back as that double.
pub proof fn lemma_round_trips_reads_back(d: Decoded, c: int, j: int)
    requires
        d.wf(),
        d.round_trips(c, j),
    ensures
        reads_back(d, c, j),
{
    lemma_ends_on_lattice(d);
    lemma_interval_on_lattice(d, c, j);
    let u = unit(base_exp(), j) as int;
    let l = lower_half_gap(d);
    let h = upper_half_gap(d);
    let lu = l * u;
    let hu = h * u;
    let a = lattice(d) * u;
    lemma_distances(d, d, c, j);
    assert(lu >= u && hu >= lu && a >= 2 * lu) by (nonlinear_arith)
        requires
            lu == l * u,
            hu == h * u,
            a == lattice(d) * u,
            l >= 1,
            h >= l,
            lattice(d) >= 2 * l,
            u >= 1,
    ;
    if d.mantissa % 2 == 0 {
        assert(a >= 4 * lu) by (nonlinear_arith)
            requires
                lu == l * u,
                a == lattice(d) * u,
                lattice(d) >= 4 * l,
                u >= 1,
        ;
    }
    assert forall|o: Decoded|
        is_binary_point(o) && lattice(o) != lattice(d) implies #[trigger] preferred(d, o, c, j) by {
        lemma_no_point_between(d, o);
        lemma_distances(d, o, c, j);
    }
}

/// A decimal that reads back as a double lies in its rounding interval.
pub proof fn lemma_reads_back_round_trips(d: Decoded, c: int, j: int)
    requires
        d.wf(),
        reads_back(d, c, j),
    ensures
        d.round_trips(c, j),
{
    lemma_ends_on_lattice(d);
    lemma_interval_on_lattice(d, c, j);
    lemma_distances(d, d, c, j);
    let u = unit(base_exp(), j) as int;
    let l = lower_half_gap(d);
    let h = upper_half_gap(d);
    let lu = l * u;
    let hu = h * u;
    let a = lattice(d) * u;
    assert(lu >= 1 && hu >= 1) by (nonlinear_arith)
        requires
            lu == l * u,
            hu == h * u,
            l >= 1,
            h >= 1,
            u >= 1,
    ;
    if !d.above_low(c, j) {
        if d.mantissa == 1 {
            assert(lattice(d) == 2 * l) by {
                assert(d.gap_shift() == 1);
                assert(d.mid() == 2);
                assert(2 * l == lattice(d));
            }
            assert(a == 2 * lu) by (nonlinear_arith)
                requires
                    a == lattice(d) * u,
                    lu == l * u,
                    lattice(d) == 2 * l,
            ;
        } else {
            lemma_prev_point(d);
            let o = prev_point(d);
            assert(preferred(d, o, c, j));
            assert(lattice(o) * u == a - 2 * lu);
        }
    } else if !d.below_high(c, j) {
        lemma_next_point(d);
        let o = next_point(d);
        assert(preferred(d, o, c, j));
        assert(lattice(o) * u == a + 2 * hu);
    }
}

/// The shortest digits read back as the double they were made from.
pub proof fn lemma_shortest_reads_back(d: Decoded, digits: Seq<u8>, k: int)
    requires
        d.wf(),
        is_shortest(d, digits, k),
    ensures
        reads_back(d, digits_value(digits) as int, k - digits.len()),
{
    lemma_round_trips_reads_back(d, digits_value(digits) as int, k - digits.len());
}

/// No decimal of fewer digits than the shortest digits reads back as the
/// double, whatever its exponent.
pub proof fn lemma_nothing_shorter_reads_back(d: Decoded, digits: Seq<u8>, k: int, c: int, e: int)
    requires
        d.wf(),
        is_shortest(d, digits, k),
        c < pow10((digits.len() - 1) as nat),
    ensures
        !reads_back(d, c, e),
{
    if reads_back(d, c, e) {
        lemma_reads_back_round_trips(d, c, e);
    }
}

} // verus!
