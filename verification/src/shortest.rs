//! The shortest digits that read back as a given double.
//!
//! The value and the two ends of its rounding interval are held as exact
//! fractions over one denominator. Digits are split off one at a time; after
//! each, the digits so far, or the digits so far plus one in the last place,
//! are tested against the interval. The first grid on which one of the two
//! fits is the coarsest grid on which anything fits.
use crate::bignum::Big;
use crate::decoder::Decoded;
use crate::digits::{all_digits, digits_value, lemma_push_digit};
use crate::power::{lemma_pow10_monotonic, pow10, pow2};
use crate::ratio::{
    aligned,
    coarser_factor,
    denom,
    finer_factor,
    lemma_aligned_coarser,
    lemma_aligned_finer,
    lemma_parts_positive,
    lemma_position_lower,
    lemma_position_upper,
    lemma_scale_compare,
    unit,
};
use vstd::prelude::*;

verus! {

/// The state after a digit was split off on the grid `j`: `dp` is the value
/// cut down to the grid, `rem / s` the part that was cut, and `top / s` what
/// remains up to the upper end of the interval.
spec fn split_state(
    dec: Decoded,
    j: int,
    t: int,
    s: int,
    u: int,
    rem: int,
    top: int,
    dp: int,
) -> bool {
    &&& dec.wf()
    &&& aligned(dec.grid_exp(), j, t, s, u)
    &&& rem + dp * s == dec.mid() * u
    &&& top + dp * s == dec.high() * u
    &&& 0 <= rem < s
}

/// Whether the cut-down value is still inside the interval.
spec fn down_test(dec: Decoded, rem: int, u: int) -> bool {
    if dec.inclusive() {
        rem <= u
    } else {
        rem < u
    }
}

/// Whether the cut-down value plus one grid step is still inside the interval.
spec fn up_test(dec: Decoded, top: int, s: int) -> bool {
    if dec.inclusive() {
        s <= top
    } else {
        s < top
    }
}

/// Whether the value's upper end stays within ten grid steps.
spec fn top_bounded(dec: Decoded, top: int, s: int) -> bool {
    if dec.inclusive() {
        top < 10 * s
    } else {
        top <= 10 * s
    }
}

/// The last digit's choice: up when only that fits, or when both fit and up
/// is at least as near.
spec fn choice(dp: int, rem: int, s: int, down: bool, up: bool) -> int {
    if up && (!down || 2 * rem >= s) {
        dp + 1
    } else {
        dp
    }
}

proof fn lemma_tests_meaning(
    dec: Decoded,
    j: int,
    t: int,
    s: int,
    u: int,
    rem: int,
    top: int,
    dp: int,
)
    requires
        split_state(dec, j, t, s, u, rem, top, dp),
    ensures
        down_test(dec, rem, u) == dec.above_low(dp, j),
        up_test(dec, top, s) == dec.below_high(dp + 1, j),
        dec.below_high(dp, j),
        dec.above_low(dp + 1, j),
{
    dec.lemma_ends();
    dec.lemma_scaled_tests(dp, j, t, s, u);
    dec.lemma_scaled_tests(dp + 1, j, t, s, u);
    let l = dec.low();
    let m = dec.mid();
    let h = dec.high();
    lemma_parts_positive(dec.grid_exp(), j);
    let un = unit(dec.grid_exp(), j) as int;
    assert(u >= 1) by (nonlinear_arith)
        requires
            u == un * t,
            un >= 1,
            t >= 1,
    ;
    assert(l * u == m * u - u && (dp + 1) * s == dp * s + s) by (nonlinear_arith)
        requires
            l == m - 1,
    ;
    assert(h * u > m * u) by (nonlinear_arith)
        requires
            h > m,
            u >= 1,
    ;
}

/// The digit chosen at the end reads back as the value, and no decimal of
/// the same grid that reads back is nearer.
proof fn lemma_final_digit(
    dec: Decoded,
    j: int,
    t: int,
    s: int,
    u: int,
    rem: int,
    top: int,
    dp: int,
    chosen: int,
)
    requires
        split_state(dec, j, t, s, u, rem, top, dp),
        down_test(dec, rem, u) || up_test(dec, top, s),
        chosen == choice(dp, rem, s, down_test(dec, rem, u), up_test(dec, top, s)),
    ensures
        dec.round_trips(chosen, j),
        forall|c: int| #[trigger] dec.round_trips(c, j) ==> dec.error(chosen, j) <= dec.error(c, j),
        forall|c: int| #[trigger]
            dec.round_trips(c, j) && dec.error(c, j) == dec.error(chosen, j) ==> c <= chosen,
{
    lemma_tests_meaning(dec, j, t, s, u, rem, top, dp);
    let m = dec.mid();
    let down = down_test(dec, rem, u);
    let up = up_test(dec, top, s);
    dec.lemma_scaled_tests(chosen, j, t, s, u);
    assert((dp + 1) * s == dp * s + s) by (nonlinear_arith);
    let here = dec.error(chosen, j);
    assert(here * t == if chosen == dp {
        rem
    } else {
        s - rem
    });
    assert forall|c: int| #[trigger] dec.round_trips(c, j) implies dec.error(chosen, j)
        <= dec.error(c, j) && (dec.error(c, j) == dec.error(chosen, j) ==> c <= chosen) by {
        dec.lemma_scaled_tests(c, j, t, s, u);
        let there = dec.error(c, j);
        if c <= dp {
            dec.lemma_above_low_monotone(c, dp, j);
            assert(c * s <= dp * s) by (nonlinear_arith)
                requires
                    c <= dp,
                    s >= 0,
            ;
            assert(there * t >= rem);
            assert(down);
        } else {
            dec.lemma_below_high_monotone(dp + 1, c, j);
            assert(c * s >= (dp + 1) * s) by (nonlinear_arith)
                requires
                    c >= dp + 1,
                    s >= 0,
            ;
            assert(there * t >= s - rem);
            assert(up);
            if c >= dp + 2 {
                assert(c * s >= (dp + 1) * s + s) by (nonlinear_arith)
                    requires
                        c >= dp + 2,
                        s >= 0,
                ;
                assert(there * t > s - rem);
            }
        }
        lemma_scale_compare(here, there, t);
    }
}

/// When neither test holds, no multiple of `10^j` reads back as the value.
proof fn lemma_grid_missed(
    dec: Decoded,
    j: int,
    t: int,
    s: int,
    u: int,
    rem: int,
    top: int,
    dp: int,
)
    requires
        split_state(dec, j, t, s, u, rem, top, dp),
        !down_test(dec, rem, u),
        !up_test(dec, top, s),
    ensures
        dec.grid_misses(j),
{
    lemma_tests_meaning(dec, j, t, s, u, rem, top, dp);
    assert forall|c: int| !#[trigger] dec.round_trips(c, j) by {
        if dec.round_trips(c, j) {
            if c <= dp {
                dec.lemma_above_low_monotone(c, dp, j);
            } else {
                dec.lemma_below_high_monotone(dp + 1, c, j);
            }
        }
    }
}

/// With the upper end within `10^k`, no multiple of `10^k` reads back.
proof fn lemma_top_grid_missed(dec: Decoded, k: int, t: int, s: int, u: int, top: int)
    requires
        dec.wf(),
        aligned(dec.grid_exp(), k - 1, t, s, u),
        top == dec.high() * u,
        top_bounded(dec, top, s),
    ensures
        dec.grid_misses(k),
{
    lemma_aligned_coarser(dec.grid_exp(), k - 1, t, s, u);
    let t2 = coarser_factor(k - 1, t);
    dec.lemma_scaled_tests(1, k, t2, 10 * s, u);
    assert forall|c: int| !#[trigger] dec.round_trips(c, k) by {
        if dec.round_trips(c, k) {
            if c <= 0 {
                dec.lemma_nonpositive_misses(c, k);
            } else {
                dec.lemma_below_high_monotone(1, c, k);
            }
        }
    }
}

/// If every grid from `10^k` down to just above `10^(k-n)` misses, and the
/// upper end of the interval is beyond `10^(k-1)`, then no decimal of fewer
/// than `n` digits reads back as the value.
pub proof fn lemma_no_shorter(dec: Decoded, k: int, n: nat)
    requires
        dec.wf(),
        n >= 1,
        dec.below_high(1, k - 1),
        forall|g: int| k - n < g <= k ==> #[trigger] dec.grid_misses(g),
    ensures
        dec.no_shorter(n),
{
    assert forall|c: int, e: int| c < pow10((n - 1) as nat) implies !#[trigger] dec.round_trips(
        c,
        e,
    ) by {
        if dec.round_trips(c, e) {
            if c <= 0 {
                dec.lemma_nonpositive_misses(c, e);
            } else if e > k {
                dec.lemma_regrid_round_trips(c, e, k);
                assert(dec.grid_misses(k));
                assert(!dec.round_trips(c * pow10((e - k) as nat), k));
            } else if e > k - n {
                assert(dec.grid_misses(e));
            } else if n == 1 {
                assert(pow10(0) == 1);
            } else {
                let cs = pow10((k - 1 - e) as nat) as int;
                lemma_pow10_monotonic((n - 1) as nat, (k - 1 - e) as nat);
                dec.lemma_above_low_monotone(c, cs, e);
                dec.lemma_regrid_round_trips(1, k - 1, e);
                assert(1 * cs == cs);
                assert(dec.grid_misses(k - 1));
                assert(!dec.round_trips(1, k - 1));
            }
        }
    }
}

/// The value and its interval as fractions over one denominator.
struct Frame {
    /// What is left of the value after the digits so far.
    rem: Big,
    /// The distance down to the lower end of the interval.
    gap: Big,
    /// What is left up to the upper end of the interval.
    top: Big,
    /// The common denominator: one step of the current grid.
    scale: Big,
    /// The decimal position of the current grid.
    pos: Ghost<int>,
    /// The factor shared by numerators and denominator.
    factor: Ghost<int>,
}

impl Frame {
    /// The fractions stand for the value less `acc` grid steps.
    spec fn inv(&self, dec: Decoded, acc: int) -> bool {
        &&& self.rem.wf()
        &&& self.gap.wf()
        &&& self.top.wf()
        &&& self.scale.wf()
        &&& aligned(
            dec.grid_exp(),
            self.pos@,
            self.factor@,
            self.scale@ as int,
            self.gap@ as int,
        )
        &&& self.rem@ + acc * self.scale@ == dec.mid() * self.gap@
        &&& self.top@ + acc * self.scale@ == dec.high() * self.gap@
    }

    /// Whether the upper end of the interval is beyond one grid step.
    fn reaches(&self, inclusive: bool) -> (b: bool)
        requires
            self.scale.wf(),
            self.top.wf(),
        ensures
            b == if inclusive {
                self.scale@ <= self.top@
            } else {
                self.scale@ < self.top@
            },
    {
        if inclusive {
            self.scale.at_most(&self.top)
        } else {
            self.scale.less_than(&self.top)
        }
    }

    /// Whether the value cut down to the grid is inside the interval.
    fn fits_below(&self, inclusive: bool) -> (b: bool)
        requires
            self.rem.wf(),
            self.gap.wf(),
        ensures
            b == if inclusive {
                self.rem@ <= self.gap@
            } else {
                self.rem@ < self.gap@
            },
    {
        if inclusive {
            self.rem.at_most(&self.gap)
        } else {
            self.rem.less_than(&self.gap)
        }
    }

    /// Whether the remainder is at least half a grid step.
    fn past_half(&self) -> (b: bool)
        requires
            self.rem.wf(),
            self.scale.wf(),
        ensures
            b == (2 * self.rem@ >= self.scale@),
    {
        let mut twice = self.rem.duplicate();
        twice.mul_small(2);
        self.scale.at_most(&twice)
    }

    /// Moves to the next coarser grid, before any digit was taken.
    fn coarsen(&mut self, Ghost(dec): Ghost<Decoded>)
        requires
            old(self).inv(dec, 0),
        ensures
            final(self).inv(dec, 0),
            final(self).pos@ == old(self).pos@ + 1,
    {
        proof {
            lemma_aligned_coarser(
                dec.grid_exp(),
                self.pos@,
                self.factor@,
                self.scale@ as int,
                self.gap@ as int,
            );
            assert(0 * (10 * self.scale@) == 0);
            assert(0 * self.scale@ == 0);
        }
        self.scale.mul_small(10);
        self.factor = Ghost(coarser_factor(self.pos@, self.factor@));
        self.pos = Ghost(self.pos@ + 1);
    }

    /// Moves to the next finer grid.
    fn refine(&mut self, Ghost(dec): Ghost<Decoded>, Ghost(acc): Ghost<int>)
        requires
            old(self).inv(dec, acc),
        ensures
            final(self).inv(dec, 10 * acc),
            final(self).pos@ == old(self).pos@ - 1,
            final(self).rem@ == 10 * old(self).rem@,
            final(self).gap@ == 10 * old(self).gap@,
            final(self).top@ == 10 * old(self).top@,
            final(self).scale@ == old(self).scale@,
    {
        proof {
            lemma_aligned_finer(
                dec.grid_exp(),
                self.pos@,
                self.factor@,
                self.scale@ as int,
                self.gap@ as int,
            );
            let r = self.rem@ as int;
            let g = self.gap@ as int;
            let t = self.top@ as int;
            let sc = self.scale@ as int;
            let m = dec.mid();
            let h = dec.high();
            assert(10 * r + (10 * acc) * sc == m * (10 * g) && 10 * t + (10 * acc) * sc == h * (10
                * g)) by (nonlinear_arith)
                requires
                    r + acc * sc == m * g,
                    t + acc * sc == h * g,
            ;
        }
        self.rem.mul_small(10);
        self.gap.mul_small(10);
        self.top.mul_small(10);
        self.factor = Ghost(finer_factor(self.pos@, self.factor@));
        self.pos = Ghost(self.pos@ - 1);
    }
}

/// Sets the fractions up on the grid whose step is the greatest power of ten
/// that the upper end of the interval is beyond, and returns that power's
/// exponent plus one.
fn normalize(dec: &Decoded) -> (res: (Frame, i16))
    requires
        dec.wf(),
    ensures
        res.0.inv(*dec, 0),
        res.0.pos@ == res.1 - 1,
        -400 <= res.1 <= 400,
        up_test(*dec, res.0.top@ as int, res.0.scale@ as int),
        top_bounded(*dec, res.0.top@ as int, res.0.scale@ as int),
{
    let wide: bool = dec.mantissa == 0x10_0000_0000_0000 && dec.exponent > -1074;
    let inclusive: bool = dec.mantissa % 2 == 0;
    let mid: u64 = if wide {
        dec.mantissa * 4
    } else {
        dec.mantissa * 2
    };
    let plus: u64 = if wide {
        2
    } else {
        1
    };
    let e: i16 = if wide {
        dec.exponent - 2
    } else {
        dec.exponent - 1
    };
    let mut rem = Big::from_u64(mid);
    let mut gap = Big::from_u64(1);
    let mut top = Big::from_u64(mid + plus);
    let mut scale = Big::from_u64(1);
    if e >= 0 {
        rem.mul_pow2(e as usize);
        gap.mul_pow2(e as usize);
        top.mul_pow2(e as usize);
    } else {
        scale.mul_pow2((-e) as usize);
    }
    proof {
        assert(pow10(0) == 1);
        assert(pow2(0) == 1);
        let p = pow2(crate::power::pos_part(e as int)) as int;
        let q = pow2(crate::power::neg_part(e as int)) as int;
        assert((p * 1) * 1 == p && (q * 1) * 1 == q && 1 * p == p && 1 * q == q)
            by (nonlinear_arith);
        assert(gap@ == p);
        assert(scale@ == q);
        assert(0 * scale@ == 0);
    }
    let mut f = Frame { rem, gap, top, scale, pos: Ghost(0), factor: Ghost(1) };
    let mut k: i16 = 1;
    while f.reaches(inclusive)
        invariant
            dec.wf(),
            inclusive == dec.inclusive(),
            f.inv(*dec, 0),
            f.pos@ == k - 1,
            1 <= k <= 343,
        decreases 343 - k,
    {
        proof {
            lemma_reach_bound(
                *dec,
                f.pos@,
                f.factor@,
                f.scale@ as int,
                f.gap@ as int,
                f.top@ as int,
            );
        }
        f.coarsen(Ghost(*dec));
        k += 1;
    }
    loop
        invariant_except_break
            dec.wf(),
            inclusive == dec.inclusive(),
            f.inv(*dec, 0),
            f.pos@ == k - 1,
            -360 <= k <= 343,
            !up_test(*dec, f.top@ as int, f.scale@ as int),
        ensures
            f.inv(*dec, 0),
            f.pos@ == k - 1,
            -400 <= k <= 400,
            up_test(*dec, f.top@ as int, f.scale@ as int),
            top_bounded(*dec, f.top@ as int, f.scale@ as int),
        decreases k + 400,
    {
        proof {
            lemma_short_bound(
                *dec,
                f.pos@,
                f.factor@,
                f.scale@ as int,
                f.gap@ as int,
                f.top@ as int,
            );
        }
        f.refine(Ghost(*dec), Ghost(0));
        k -= 1;
        if f.reaches(inclusive) {
            break ;
        }
    }
    (f, k)
}

/// While the upper end is beyond a grid step, the grid is not too high.
proof fn lemma_reach_bound(dec: Decoded, j: int, t: int, s: int, u: int, top: int)
    requires
        dec.wf(),
        aligned(dec.grid_exp(), j, t, s, u),
        top == dec.high() * u,
        s <= top,
    ensures
        j <= 341,
{
    dec.lemma_ends();
    let h = dec.high();
    let un = unit(dec.grid_exp(), j) as int;
    let dn = denom(dec.grid_exp(), j) as int;
    assert(h * u == (h * un) * t) by (nonlinear_arith)
        requires
            u == un * t,
    ;
    lemma_scale_compare(dn, h * un, t);
    lemma_position_upper(h, dec.grid_exp(), j);
}

/// While the upper end is within a grid step, the grid is not too low.
proof fn lemma_short_bound(dec: Decoded, j: int, t: int, s: int, u: int, top: int)
    requires
        dec.wf(),
        aligned(dec.grid_exp(), j, t, s, u),
        top == dec.high() * u,
        top <= s,
    ensures
        j >= -359,
{
    dec.lemma_ends();
    let h = dec.high();
    let un = unit(dec.grid_exp(), j) as int;
    let dn = denom(dec.grid_exp(), j) as int;
    assert(h * u == (h * un) * t) by (nonlinear_arith)
        requires
            u == un * t,
    ;
    lemma_scale_compare(h * un, dn, t);
    lemma_position_lower(h, dec.grid_exp(), j);
}

/// What the shortest digits of a value are: `digits`, read as
/// `0.d1 d2 ... * 10^k`, is a decimal that reads back as the value; no decimal
/// of fewer digits does; and among the decimals of the same last place that
/// read back, it is the nearest to the value, the upper one of two equally
/// near.
pub open spec fn is_shortest(dec: Decoded, digits: Seq<u8>, k: int) -> bool {
    let n = digits.len();
    let value = digits_value(digits) as int;
    &&& n >= 1
    &&& all_digits(digits)
    &&& digits[0] != 48
    &&& dec.round_trips(value, k - n)
    &&& dec.no_shorter(n)
    &&& forall|c: int| #[trigger]
        dec.round_trips(c, k - n) ==> dec.error(value, k - n) <= dec.error(c, k - n)
    &&& forall|c: int| #[trigger]
        dec.round_trips(c, k - n) && dec.error(c, k - n) == dec.error(value, k - n) ==> c
            <= value
}

/// Measures how far the digit loop is from its certain end.
spec fn headroom(scale: nat, gap: nat) -> nat {
    if gap < scale {
        (scale - gap) as nat
    } else {
        0
    }
}

/// The shortest digits that read back as the value, with their decimal exponent.
pub fn format_shortest(dec: &Decoded) -> (res: (Vec<u8>, i16))
    requires
        dec.wf(),
    ensures
        is_shortest(*dec, res.0@, res.1 as int),
{
    let inclusive: bool = dec.mantissa % 2 == 0;
    let (mut f, k) = normalize(dec);
    let mut digits: Vec<u8> = Vec::new();
    proof {
        lemma_top_grid_missed(
            *dec,
            k as int,
            f.factor@,
            f.scale@ as int,
            f.gap@ as int,
            f.top@ as int,
        );
        dec.lemma_scaled_tests(1, k - 1, f.factor@, f.scale@ as int, f.gap@ as int);
        assert(1 * f.scale@ == f.scale@);
        assert(digits_value(digits@) == 0);
    }
    loop
        invariant
            dec.wf(),
            inclusive == dec.inclusive(),
            f.inv(*dec, 10 * (digits_value(digits@) as int)),
            all_digits(digits@),
            f.pos@ == k - 1 - digits@.len(),
            top_bounded(*dec, f.top@ as int, f.scale@ as int),
            digits@.len() == 0 ==> up_test(*dec, f.top@ as int, f.scale@ as int),
            digits@.len() > 0 ==> digits@[0] != 48,
            dec.below_high(1, k - 1),
            forall|g: int| f.pos@ < g <= k ==> #[trigger] dec.grid_misses(g),
        decreases headroom(f.scale@, f.gap@),
    {
        let ghost before = digits@;
        let ghost acc = digits_value(before) as int;
        let ghost top_before = f.top@ as int;
        let ghost sc = f.scale@ as int;
        let ghost gp = f.gap@ as int;
        proof {
            dec.lemma_ends();
            lemma_parts_positive(dec.grid_exp(), f.pos@);
            let un = unit(dec.grid_exp(), f.pos@) as int;
            let t = f.factor@;
            assert(gp >= 1) by (nonlinear_arith)
                requires
                    gp == un * t,
                    un >= 1,
                    t >= 1,
            ;
            let m = dec.mid();
            let h = dec.high();
            assert(h * gp > m * gp) by (nonlinear_arith)
                requires
                    h > m,
                    gp >= 1,
            ;
        }
        let d: u8 = f.rem.take_digit(&f.scale);
        proof {
            let dd = d as int;
            assert(top_before >= dd * sc);
        }
        f.top.sub_times(&f.scale, d);
        let ghost dp = 10 * acc + d;
        proof {
            let dd = d as int;
            assert(dp * sc == (10 * acc) * sc + dd * sc) by (nonlinear_arith)
                requires
                    dp == 10 * acc + dd,
            ;
            assert(split_state(
                *dec,
                f.pos@,
                f.factor@,
                sc,
                gp,
                f.rem@ as int,
                f.top@ as int,
                dp,
            ));
            lemma_tests_meaning(
                *dec,
                f.pos@,
                f.factor@,
                sc,
                gp,
                f.rem@ as int,
                f.top@ as int,
                dp,
            );
        }
        let down: bool = f.fits_below(inclusive);
        let up: bool = f.reaches(inclusive);
        if down || up {
            let mut last: u8 = d;
            if up {
                proof {
                    let dd = d as int;
                    let tp = f.top@ as int;
                    assert((dd + 1) * sc == dd * sc + sc) by (nonlinear_arith);
                    assert((dd + 1) * sc < 10 * sc);
                    assert(dd <= 8) by (nonlinear_arith)
                        requires
                            (dd + 1) * sc < 10 * sc,
                            sc >= 0,
                            dd >= 0,
                    ;
                }
                if !down || f.past_half() {
                    last = d + 1;
                }
            }
            let ghost chosen = choice(dp, f.rem@ as int, sc, down, up);
            proof {
                assert(chosen == 10 * acc + last);
                lemma_final_digit(
                    *dec,
                    f.pos@,
                    f.factor@,
                    sc,
                    gp,
                    f.rem@ as int,
                    f.top@ as int,
                    dp,
                    chosen,
                );
                lemma_push_digit(before, (48 + last) as u8);
                if before.len() == 0 && last == 0 {
                    dec.lemma_nonpositive_misses(0, f.pos@);
                }
                lemma_no_shorter(*dec, k as int, (before.len() + 1) as nat);
            }
            digits.push(48 + last);
            proof {
                assert(digits@[0] != 48);
                assert(f.pos@ == k - digits@.len());
            }
            return (digits, k);
        }
        proof {
            lemma_grid_missed(
                *dec,
                f.pos@,
                f.factor@,
                sc,
                gp,
                f.rem@ as int,
                f.top@ as int,
                dp,
            );
            lemma_push_digit(before, (48 + d) as u8);
        }
        digits.push(48 + d);
        f.refine(Ghost(*dec), Ghost(dp));
        proof {
            assert(digits@[0] != 48);
        }
    }
}

} // verus!
