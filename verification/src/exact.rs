//! Digits of a double rounded at a given decimal place.
//!
//! The value is divided out digit by digit down to the last place asked for;
//! what is left decides the rounding, a tie going to the even digit. Nothing
//! is approximated: the remainder is exact.
use crate::bignum::{Big, Order};
use crate::decoder::Decoded;
use crate::digits::{
    all_digits,
    decimal_len,
    digits_value,
    is_digit,
    lemma_decimal_len,
    lemma_leading_zero,
    lemma_push_digit,
    lemma_value_lower,
    lemma_value_upper,
    round_up,
};
use crate::power::{lemma_pow10_positive, neg_part, pos_part, pow10, pow2};
use crate::ratio::{
    aligned,
    coarser_factor,
    denom,
    finer_factor,
    lemma_aligned_coarser,
    lemma_aligned_finer,
    lemma_parts_positive,
    lemma_position_lower,
    lemma_position_upper,
    lemma_regrid_compare,
    lemma_round_bounds,
    lemma_round_zero,
    lemma_scale_compare,
    round_half_even,
    unit,
};
use vstd::arithmetic::div_mod::lemma_fundamental_div_mod_converse;
use vstd::prelude::*;

verus! {

impl Decoded {
    /// The numerator of the value in units of `10^j`.
    pub open spec fn numer_at(self, j: int) -> nat {
        self.mantissa as nat * unit(self.exponent as int, j)
    }

    /// The denominator of the value in units of `10^j`.
    pub open spec fn denom_at(self, j: int) -> nat {
        denom(self.exponent as int, j)
    }

    /// The value in units of `10^j`, rounded to the nearest natural, a tie
    /// going to the even one.
    pub open spec fn rounded_at(self, j: int) -> nat {
        round_half_even(self.numer_at(j), self.denom_at(j))
    }

    /// Whether `10^(k-1) <= value < 10^k`.
    pub open spec fn magnitude_is(self, k: int) -> bool {
        self.denom_at(k - 1) <= self.numer_at(k - 1) && self.numer_at(k) < self.denom_at(k)
    }

    /// The `k` with `10^(k-1) <= value < 10^k`.
    pub open spec fn magnitude(self) -> int {
        choose|k: int| self.magnitude_is(k)
    }

    /// A value has one magnitude.
    pub proof fn lemma_magnitude_unique(self, k1: int, k2: int)
        requires
            self.magnitude_is(k1),
            self.magnitude_is(k2),
        ensures
            k1 == k2,
    {
        if k1 < k2 {
            self.lemma_below_stays_below(k1, k2 - 1);
        } else if k2 < k1 {
            self.lemma_below_stays_below(k2, k1 - 1);
        }
    }

    /// A value below `10^g` is below every higher power of ten.
    pub proof fn lemma_below_stays_below(self, g: int, j: int)
        requires
            g <= j,
            self.numer_at(g) < self.denom_at(g),
        ensures
            self.numer_at(j) < self.denom_at(j),
    {
        let m = self.mantissa as int;
        let e = self.exponent as int;
        lemma_regrid_compare(m, e, 1, j, g);
        let x = pow10((j - g) as nat) as int;
        lemma_pow10_positive((j - g) as nat);
        let d = denom(e, g) as int;
        assert((1 * x) * d >= d) by (nonlinear_arith)
            requires
                x >= 1,
                d >= 0,
        ;
        assert(1 * denom(e, j) == denom(e, j));
    }

    /// Rounded at a place below its magnitude `kv`, the value has as many
    /// digits as there are places from `kv` down, or one more after a carry.
    /// Rounded at its magnitude it is zero or one.
    pub proof fn lemma_rounded_bounds(self, kv: int, place: int)
        requires
            self.magnitude_is(kv),
            place <= kv,
        ensures
            place < kv ==> pow10((kv - 1 - place) as nat) <= self.rounded_at(place) <= pow10(
                (kv - place) as nat,
            ),
            place == kv ==> self.rounded_at(place) <= 1,
            kv - place <= decimal_len(self.rounded_at(place)) <= kv - place + 1,
    {
        let m = self.mantissa as int;
        let e = self.exponent as int;
        let a = self.numer_at(place);
        let b = self.denom_at(place);
        let n = self.rounded_at(place);
        lemma_parts_positive(e, place);
        let hi = pow10((kv - place) as nat);
        lemma_regrid_compare(m, e, 1, kv, place);
        assert(1 * denom(e, kv) == denom(e, kv));
        assert(1 * hi == hi);
        assert(pow10(0) == 1);
        assert(decimal_len(0) == 0);
        if place < kv {
            let lo = pow10((kv - 1 - place) as nat);
            lemma_regrid_compare(m, e, 1, kv - 1, place);
            assert(1 * denom(e, kv - 1) == denom(e, kv - 1));
            assert(1 * lo == lo);
            lemma_round_bounds(a, b, lo, hi);
            assert(hi == 10 * lo);
            lemma_pow10_positive((kv - 1 - place) as nat);
            if n == hi {
                assert(pow10((kv - place + 1) as nat) == 10 * hi);
                lemma_decimal_len(n, (kv - place + 1) as nat);
            } else {
                lemma_decimal_len(n, (kv - place) as nat);
            }
        } else {
            assert(0 * b == 0);
            lemma_round_bounds(a, b, 0, 1);
            if n == 1 {
                assert(pow10(1) == 10 * pow10(0));
                lemma_decimal_len(1, 1);
            }
        }
    }

    /// Rounded at a place above its magnitude, the value is zero.
    pub proof fn lemma_rounds_to_zero(self, kv: int, place: int)
        requires
            self.magnitude_is(kv),
            kv < place,
        ensures
            self.rounded_at(place) == 0,
    {
        let m = self.mantissa as int;
        let e = self.exponent as int;
        lemma_regrid_compare(2 * m, e, 1, place, kv);
        let x = pow10((place - kv) as nat) as int;
        assert(x >= 10) by {
            crate::power::lemma_pow10_strictly_monotonic(0, (place - kv) as nat);
            assert(pow10(0) == 1);
        }
        let d = denom(e, kv) as int;
        let u = unit(e, kv) as int;
        let uj = unit(e, place) as int;
        assert((2 * m) * u == 2 * (m * u) && (2 * m) * uj == 2 * (m * uj)) by (nonlinear_arith);
        assert((1 * x) * d >= 10 * d) by (nonlinear_arith)
            requires
                x >= 10,
                d >= 0,
        ;
        assert(1 * denom(e, place) == denom(e, place));
        lemma_round_zero(self.numer_at(place), self.denom_at(place));
    }

    /// A magnitude lies between -359 and 342.
    pub proof fn lemma_magnitude_bounds(self, kv: int)
        requires
            self.wf(),
            self.magnitude_is(kv),
        ensures
            -359 <= kv <= 342,
    {
        lemma_position_upper(self.mantissa as int, self.exponent as int, kv - 1);
        lemma_position_lower(self.mantissa as int, self.exponent as int, kv);
    }

    /// From a power of ten that the value reaches, the search upwards finds
    /// the magnitude.
    proof fn lemma_search_up(self, j: int) -> (k: int)
        requires
            self.wf(),
            self.denom_at(j - 1) <= self.numer_at(j - 1),
        ensures
            self.magnitude_is(k),
        decreases 343 - j,
    {
        lemma_position_upper(self.mantissa as int, self.exponent as int, j - 1);
        if self.numer_at(j) < self.denom_at(j) {
            j
        } else {
            self.lemma_search_up(j + 1)
        }
    }

    /// From a power of ten above the value, the search downwards finds the
    /// magnitude.
    proof fn lemma_search_down(self, j: int) -> (k: int)
        requires
            self.wf(),
            self.numer_at(j) < self.denom_at(j),
        ensures
            self.magnitude_is(k),
        decreases j + 360,
    {
        lemma_position_lower(self.mantissa as int, self.exponent as int, j);
        if self.denom_at(j - 1) <= self.numer_at(j - 1) {
            j
        } else {
            self.lemma_search_down(j - 1)
        }
    }

    /// Every value has a magnitude.
    pub proof fn lemma_magnitude_exists(self)
        requires
            self.wf(),
        ensures
            self.magnitude_is(self.magnitude()),
    {
        let k = if self.numer_at(0) < self.denom_at(0) {
            self.lemma_search_down(0)
        } else {
            self.lemma_search_up(1)
        };
        assert(self.magnitude_is(k));
    }

    /// The magnitude, once one is known.
    pub proof fn lemma_magnitude(self, k: int)
        requires
            self.magnitude_is(k),
        ensures
            self.magnitude() == k,
    {
        self.lemma_magnitude_unique(k, self.magnitude());
    }
}

/// Where rounding happens: at `limit`, but no more than `max_len` places
/// below the magnitude `kv` and never above it.
pub open spec fn rounding_place(kv: int, limit: int, max_len: int) -> int {
    let lowest = if limit >= kv - max_len {
        limit
    } else {
        kv - max_len
    };
    if lowest <= kv {
        lowest
    } else {
        kv
    }
}

/// What rounding a value at a decimal place gives: the digits of the rounded
/// value `n = rounded_at(place)`, with `k` its order of magnitude, so that the
/// rounded value is `0.d1 d2 ... * 10^k`.
///
/// No digit is given when `k` does not exceed `limit`. At most `max_len`
/// digits are given: where rounding up carried into one digit more, the last
/// zero is left out.
pub open spec fn is_exact(dec: Decoded, limit: int, max_len: int, digits: Seq<u8>, k: int) -> bool {
    let place = rounding_place(dec.magnitude(), limit, max_len);
    let n = dec.rounded_at(place);
    let full = decimal_len(n);
    &&& all_digits(digits)
    &&& digits.len() > 0 ==> digits[0] != 48
    &&& k == place + full
    &&& k <= limit ==> digits.len() == 0
    &&& k > limit ==> digits.len() == (if full <= max_len {
        full as int
    } else {
        max_len
    }) && digits_value(digits) == n / pow10((full - digits.len()) as nat)
}

/// From an exact division with remainder of scaled numerator by scaled
/// denominator, the quotient and the remainder's place against the half.
proof fn lemma_rounded(dec: Decoded, j: int, t: int, s: int, u: int, rem: int, q: int, up: bool)
    requires
        aligned(dec.exponent as int, j, t, s, u),
        rem + q * s == dec.mantissa * u,
        0 <= rem < s,
        0 <= q,
        up == (2 * rem > s || (2 * rem == s && q % 2 == 1)),
    ensures
        dec.rounded_at(j) == if up {
            q + 1
        } else {
            q
        },
{
    let e = dec.exponent as int;
    let m = dec.mantissa as int;
    let un = unit(e, j) as int;
    let dn = denom(e, j) as int;
    lemma_parts_positive(e, j);
    let a = m * un;
    let r0 = a - q * dn;
    assert(rem == r0 * t) by (nonlinear_arith)
        requires
            rem + q * s == m * u,
            s == dn * t,
            u == un * t,
            a == m * un,
            r0 == a - q * dn,
    ;
    assert(0 * t == 0);
    lemma_scale_compare(0, r0, t);
    lemma_scale_compare(r0, dn, t);
    lemma_fundamental_div_mod_converse(a, dn, q, r0);
    assert((2 * r0) * t == 2 * rem) by (nonlinear_arith)
        requires
            rem == r0 * t,
    ;
    lemma_scale_compare(2 * r0, dn, t);
    lemma_scale_compare(dn, 2 * r0, t);
    assert(dec.numer_at(j) == a);
    assert(dec.denom_at(j) == dn);
}

/// What is left of the value over one denominator.
struct Tail {
    /// What is left of the value after the digits so far.
    rem: Big,
    /// The denominator: one step of the current grid.
    scale: Big,
    /// The decimal position of the current grid.
    pos: Ghost<int>,
    /// The factor shared by numerator and denominator.
    factor: Ghost<int>,
    /// The scaled numerator of one unit of the mantissa.
    step: Ghost<int>,
}

impl Tail {
    /// The fraction stands for the value less `acc` grid steps.
    spec fn inv(&self, dec: Decoded, acc: int) -> bool {
        &&& self.rem.wf()
        &&& self.scale.wf()
        &&& aligned(dec.exponent as int, self.pos@, self.factor@, self.scale@ as int, self.step@)
        &&& self.rem@ + acc * self.scale@ == dec.mantissa * self.step@
    }

    /// Moves to the next coarser grid, before any digit was taken.
    fn coarsen(&mut self, Ghost(dec): Ghost<Decoded>)
        requires
            old(self).inv(dec, 0),
        ensures
            final(self).inv(dec, 0),
            final(self).pos@ == old(self).pos@ + 1,
            final(self).rem@ == old(self).rem@,
            final(self).scale@ == 10 * old(self).scale@,
            final(self).step@ == old(self).step@,
            final(self).factor@ == coarser_factor(old(self).pos@, old(self).factor@),
    {
        proof {
            lemma_aligned_coarser(
                dec.exponent as int,
                self.pos@,
                self.factor@,
                self.scale@ as int,
                self.step@,
            );
            assert(0 * (10 * self.scale@) == 0);
            assert(0 * self.scale@ == 0);
        }
        self.scale.mul_small(10);
        self.factor = Ghost(coarser_factor(self.pos@, self.factor@));
        self.pos = Ghost(self.pos@ + 1);
    }

    /// Moves to the next finer grid.
    fn refine(&mut self, Ghost(dec): Ghost<Decoded>, Ghost(acc): Ghost<int>)
        requires
            old(self).inv(dec, acc),
        ensures
            final(self).inv(dec, 10 * acc),
            final(self).pos@ == old(self).pos@ - 1,
            final(self).rem@ == 10 * old(self).rem@,
            final(self).scale@ == old(self).scale@,
            final(self).step@ == 10 * old(self).step@,
            final(self).factor@ == finer_factor(old(self).pos@, old(self).factor@),
    {
        proof {
            lemma_aligned_finer(
                dec.exponent as int,
                self.pos@,
                self.factor@,
                self.scale@ as int,
                self.step@,
            );
            let r = self.rem@ as int;
            let g = self.step@;
            let sc = self.scale@ as int;
            let m = dec.mantissa as int;
            assert(10 * r + (10 * acc) * sc == m * (10 * g)) by (nonlinear_arith)
                requires
                    r + acc * sc == m * g,
            ;
        }
        self.rem.mul_small(10);
        self.step = Ghost(10 * self.step@);
        self.factor = Ghost(finer_factor(self.pos@, self.factor@));
        self.pos = Ghost(self.pos@ - 1);
    }
}

/// While the value reaches a grid step, the grid is not too high.
proof fn lemma_reach_bound(dec: Decoded, j: int, t: int, s: int, u: int)
    requires
        dec.wf(),
        aligned(dec.exponent as int, j, t, s, u),
        s <= dec.mantissa * u,
    ensures
        j <= 341,
        dec.denom_at(j) <= dec.numer_at(j),
{
    let m = dec.mantissa as int;
    let un = unit(dec.exponent as int, j) as int;
    let dn = denom(dec.exponent as int, j) as int;
    assert(m * u == (m * un) * t) by (nonlinear_arith)
        requires
            u == un * t,
    ;
    lemma_scale_compare(dn, m * un, t);
    lemma_position_upper(m, dec.exponent as int, j);
}

/// While the value is within a grid step, the grid is not too low.
proof fn lemma_short_bound(dec: Decoded, j: int, t: int, s: int, u: int)
    requires
        dec.wf(),
        aligned(dec.exponent as int, j, t, s, u),
        dec.mantissa * u < s,
    ensures
        j >= -359,
        dec.numer_at(j) < dec.denom_at(j),
{
    let m = dec.mantissa as int;
    let un = unit(dec.exponent as int, j) as int;
    let dn = denom(dec.exponent as int, j) as int;
    assert(m * u == (m * un) * t) by (nonlinear_arith)
        requires
            u == un * t,
    ;
    lemma_scale_compare(m * un, dn, t);
    lemma_position_lower(m, dec.exponent as int, j);
}

/// Sets the fraction up on the grid of the value's magnitude, and returns
/// the magnitude.
fn normalize(dec: &Decoded) -> (res: (Tail, i16))
    requires
        dec.wf(),
    ensures
        res.0.inv(*dec, 0),
        res.0.pos@ == res.1,
        -400 <= res.1 <= 400,
        dec.magnitude_is(res.1 as int),
        res.0.rem@ < res.0.scale@ <= 10 * res.0.rem@,
{
    let e: i16 = dec.exponent;
    let mut rem = Big::from_u64(dec.mantissa);
    let mut scale = Big::from_u64(1);
    if e >= 0 {
        rem.mul_pow2(e as usize);
    } else {
        scale.mul_pow2((-e) as usize);
    }
    proof {
        assert(pow10(0) == 1);
        let p = pow2(pos_part(e as int)) as int;
        let q = pow2(neg_part(e as int)) as int;
        assert((p * 1) * 1 == p && (q * 1) * 1 == q && 1 * q == q) by (nonlinear_arith);
        assert(scale@ == q);
        assert(0 * scale@ == 0);
    }
    let mut f = Tail {
        rem,
        scale,
        pos: Ghost(0),
        factor: Ghost(1),
        step: Ghost(pow2(pos_part(e as int)) as int),
    };
    let mut k: i16 = 1;
    while !f.rem.less_than(&f.scale)
        invariant
            dec.wf(),
            f.inv(*dec, 0),
            f.pos@ == k - 1,
            1 <= k <= 343,
        decreases 343 - k,
    {
        proof {
            lemma_reach_bound(*dec, f.pos@, f.factor@, f.scale@ as int, f.step@);
        }
        f.coarsen(Ghost(*dec));
        k += 1;
    }
    loop
        invariant_except_break
            dec.wf(),
            f.inv(*dec, 0),
            f.pos@ == k - 1,
            -360 <= k <= 343,
            f.rem@ < f.scale@,
        ensures
            f.inv(*dec, 0),
            f.pos@ == k - 1,
            -400 <= k <= 400,
            f.scale@ <= f.rem@ < 10 * f.scale@,
        decreases k + 400,
    {
        proof {
            lemma_short_bound(*dec, f.pos@, f.factor@, f.scale@ as int, f.step@);
        }
        f.refine(Ghost(*dec), Ghost(0));
        k -= 1;
        if !f.rem.less_than(&f.scale) {
            break ;
        }
    }
    proof {
        lemma_reach_bound(*dec, f.pos@, f.factor@, f.scale@ as int, f.step@);
    }
    f.coarsen(Ghost(*dec));
    proof {
        lemma_short_bound(*dec, f.pos@, f.factor@, f.scale@ as int, f.step@);
    }
    (f, k)
}

/// Divides out the next `len` digits.
fn take_digits(f: &mut Tail, dec: &Decoded, len: usize, Ghost(kv): Ghost<int>) -> (digits: Vec<u8>)
    requires
        dec.wf(),
        old(f).inv(*dec, 0),
        old(f).pos@ == kv,
        old(f).rem@ < old(f).scale@ <= 10 * old(f).rem@,
    ensures
        final(f).inv(*dec, digits_value(digits@) as int),
        final(f).pos@ == kv - len,
        final(f).rem@ < final(f).scale@,
        digits@.len() == len,
        all_digits(digits@),
        len > 0 ==> digits@[0] != 48,
{
    let mut digits: Vec<u8> = Vec::new();
    let mut i: usize = 0;
    proof {
        assert(digits_value(digits@) == 0);
        assert(0 * f.scale@ == 0);
    }
    while i < len
        invariant
            dec.wf(),
            i <= len,
            digits@.len() == i,
            all_digits(digits@),
            f.inv(*dec, digits_value(digits@) as int),
            f.pos@ == kv - i,
            f.rem@ < f.scale@,
            i == 0 ==> f.scale@ <= 10 * f.rem@,
            i > 0 ==> digits@[0] != 48,
        decreases len - i,
    {
        let ghost before = digits@;
        let ghost acc = digits_value(before) as int;
        f.refine(Ghost(*dec), Ghost(acc));
        let d: u8 = f.rem.take_digit(&f.scale);
        proof {
            let dd = d as int;
            let sc = f.scale@ as int;
            assert((10 * acc + dd) * sc == (10 * acc) * sc + dd * sc) by (nonlinear_arith);
            lemma_push_digit(before, (48 + d) as u8);
            if i == 0 && d == 0 {
                assert(0 * sc == 0);
            }
        }
        digits.push(48 + d);
        i += 1;
        proof {
            assert(digits@[0] != 48);
        }
    }
    digits
}

/// Whether what is left rounds the digits up: more than half a step, or
/// exactly half with an odd last digit.
fn rounds_up(f: &Tail, digits: &Vec<u8>) -> (up: bool)
    requires
        f.rem.wf(),
        f.scale.wf(),
        all_digits(digits@),
    ensures
        up == (2 * f.rem@ > f.scale@ || (2 * f.rem@ == f.scale@ && digits_value(digits@) % 2
            == 1)),
{
    let len = digits.len();
    let mut twice = f.rem.duplicate();
    twice.mul_small(2);
    let odd: bool = len > 0 && digits[len - 1] % 2 == 1;
    proof {
        if len > 0 {
            assert(is_digit(digits@[len - 1]));
            assert(digits@.last() == digits@[len - 1]);
            assert(digits_value(digits@) == 10 * digits_value(digits@.drop_last()) + (
            digits@.last() - 48));
        } else {
            assert(digits_value(digits@) == 0);
        }
    }
    match twice.compare(&f.scale) {
        Order::Greater => true,
        Order::Equal => odd,
        Order::Less => false,
    }
}

/// The quotient `q` after rounding.
spec fn rounded(q: nat, up: bool) -> nat {
    if up {
        q + 1
    } else {
        q
    }
}

/// Adds the rounding to the digits. A carry out of the first digit makes
/// the number one digit longer; the new last digit, a zero, is kept only
/// where the digits may grow.
fn settle(digits: &mut Vec<u8>, up: bool, may_grow: bool) -> (carried: bool)
    requires
        all_digits(old(digits)@),
        old(digits)@.len() > 0 ==> old(digits)@[0] != 48,
    ensures
        all_digits(final(digits)@),
        final(digits)@.len() > 0 ==> final(digits)@[0] != 48,
        carried == (up && digits_value(old(digits)@) + 1 == pow10(old(digits)@.len())),
        decimal_len(rounded(digits_value(old(digits)@), up)) == old(digits)@.len() + if carried {
            1nat
        } else {
            0nat
        },
        final(digits)@.len() == old(digits)@.len() + if carried && may_grow {
            1nat
        } else {
            0nat
        },
        digits_value(final(digits)@) == if carried && !may_grow {
            rounded(digits_value(old(digits)@), up) / 10
        } else {
            rounded(digits_value(old(digits)@), up)
        },
{
    let len = digits.len();
    let ghost q = digits_value(digits@);
    proof {
        assert(pow10(0) == 1);
        assert(decimal_len(0) == 0);
        lemma_pow10_positive(len as nat);
        assert(pow10((len + 1) as nat) == 10 * pow10(len as nat));
        if len > 0 {
            assert(pow10(len as nat) == 10 * pow10((len - 1) as nat));
            lemma_value_lower(digits@);
            lemma_value_upper(digits@);
            lemma_decimal_len(q, len as nat);
        }
    }
    if !up {
        return false;
    }
    let overflow = round_up(digits);
    if !overflow {
        proof {
            lemma_value_upper(digits@);
            lemma_decimal_len((q + 1) as nat, len as nat);
            if digits@[0] == 48 {
                lemma_leading_zero(digits@);
            }
        }
        return false;
    }
    proof {
        lemma_decimal_len((q + 1) as nat, (len + 1) as nat);
    }
    if may_grow {
        let ghost cut = digits@;
        if len == 0 {
            digits.push(49);
            proof {
                lemma_push_digit(cut, 49);
            }
        } else {
            digits.push(48);
            proof {
                lemma_push_digit(cut, 48);
            }
        }
    }
    true
}

/// Rounds the value at a decimal place and returns the digits of the
/// rounded value with its decimal exponent.
///
/// Rounding happens at the place `limit`, or higher where `max_len` digits
/// end earlier or the value itself starts lower.
pub fn format_exact(dec: &Decoded, limit: i32, max_len: usize) -> (res: (Vec<u8>, i16))
    requires
        dec.wf(),
    ensures
        is_exact(*dec, limit as int, max_len as int, res.0@, res.1 as int),
{
    let (mut f, kv) = normalize(dec);
    proof {
        dec.lemma_magnitude(kv as int);
    }
    let room: i64 = kv as i64 - limit as i64;
    let len: usize = if room <= 0 {
        0
    } else if (room as u64) < (max_len as u64) {
        room as usize
    } else {
        max_len
    };
    let ghost place = kv - len;
    assert(place == rounding_place(kv as int, limit as int, max_len as int));
    let mut digits = take_digits(&mut f, dec, len, Ghost(kv as int));
    let up = rounds_up(&f, &digits);
    let ghost q = digits_value(digits@);
    let ghost n = dec.rounded_at(place);
    proof {
        lemma_rounded(
            *dec,
            place,
            f.factor@,
            f.scale@ as int,
            f.step@,
            f.rem@ as int,
            q as int,
            up,
        );
    }
    let may_grow: bool = kv as i32 + 1 > limit && len < max_len;
    let carried = settle(&mut digits, up, may_grow);
    let k: i16 = if carried {
        kv + 1
    } else {
        kv
    };
    proof {
        lemma_settled(
            kv as int,
            limit as int,
            max_len as int,
            len as int,
            n,
            carried,
            may_grow,
            digits@,
            k as int,
        );
    }
    (digits, k)
}

/// Puts the pieces of a rounding together.
proof fn lemma_settled(
    kv: int,
    limit: int,
    max_len: int,
    len: int,
    n: nat,
    carried: bool,
    may_grow: bool,
    digits: Seq<u8>,
    k: int,
)
    requires
        0 <= len <= max_len,
        len == kv - rounding_place(kv, limit, max_len),
        may_grow == (kv + 1 > limit && len < max_len),
        k == kv + if carried {
            1int
        } else {
            0int
        },
        decimal_len(n) == len + if carried {
            1int
        } else {
            0int
        },
        digits.len() == len + if carried && may_grow {
            1int
        } else {
            0int
        },
        digits_value(digits) == if carried && !may_grow {
            n / 10
        } else {
            n
        },
    ensures
        k == rounding_place(kv, limit, max_len) + decimal_len(n),
        k <= limit ==> digits.len() == 0,
        k > limit ==> digits.len() == (if decimal_len(n) <= max_len {
            decimal_len(n) as int
        } else {
            max_len
        }) && digits_value(digits) == n / pow10((decimal_len(n) - digits.len()) as nat),
{
    assert(pow10(0) == 1);
    assert(pow10(1) == 10 * pow10(0));
    let full = decimal_len(n);
    if k > limit {
        if carried && !may_grow {
            assert(len == max_len);
            assert((full - digits.len()) as nat == 1);
            assert(n / pow10(1) == n / 10);
        } else {
            assert(full == digits.len());
            assert((full - digits.len()) as nat == 0);
            assert(n / pow10(0) == n);
        }
    }
}

} // verus!
