//! Exact conversion of IEEE-754 double-precision values to decimal digits.
//!
//! A value is handed over as its 64-bit pattern. The digits come back as
//! ASCII bytes with a decimal exponent `k`, read as `0.d1 d2 d3 ... * 10^k`.
//! The sign is not part of the digits: it is a field of the decoded value.
//!
//! Three modes are offered: the shortest digits that read back as the same
//! double, the digits up to a number of places after the decimal point, and
//! a given number of significant digits. Zero, the infinities and
//! not-a-number have no digits: they give the empty buffer with `k` zero.
use vstd::prelude::*;

pub mod bignum;
pub mod closest;
pub mod decoder;
pub mod digits;
pub mod exact;
pub mod interval;
pub mod nearest;
pub mod power;
pub mod ratio;
pub mod shortest;

use crate::decoder::{decode, decode_spec, Decoded, FullDecoded};
use crate::digits::{all_digits, decimal_len, digits_value};
use crate::exact::{format_exact, is_exact, rounding_place};
use crate::power::pow10;
use crate::shortest::{format_shortest, is_shortest};

verus! {

/// Decimal digits with their exponent. The buffer owns its digits; handing it
/// to [`release`] gives them up.
#[derive(Debug)]
pub struct DigitBuffer {
    /// ASCII digits, most significant first.
    pub digits: Vec<u8>,
    /// The decimal exponent: the digits are read as `0.d1 d2 ... * 10^k`.
    pub k: i16,
}

impl DigitBuffer {
    /// The buffer that stands for "no digits": nothing allocated, `k` zero.
    pub open spec fn is_sentinel(self) -> bool {
        self.digits@.len() == 0 && self.k == 0
    }
}

/// Whether the string is the decimal spelling of `n`: as many digits as `n`
/// has, spelling `n`. Zero is spelled by the empty string.
pub open spec fn spells(digits: Seq<u8>, n: nat) -> bool {
    &&& all_digits(digits)
    &&& digits.len() == decimal_len(n)
    &&& digits_value(digits) == n
}

/// The exponent given with no digits: the value's magnitude, or one more
/// where the value is above half of that power of ten.
pub open spec fn bare_exponent(d: Decoded) -> int {
    d.magnitude() + decimal_len(d.rounded_at(d.magnitude()))
}

/// Where the fixed mode rounds: `precision` places after the decimal point,
/// or at the value's magnitude where that is lower.
pub open spec fn fixed_place(d: Decoded, precision: int) -> int {
    if d.magnitude() < -precision {
        d.magnitude()
    } else {
        -precision
    }
}

/// What the fixed mode gives for a finite value: the spelling of the value
/// rounded to `precision` places after the decimal point, a tie going to the
/// even digit, and with it the rounded value's order of magnitude `k`, which
/// puts the last digit at `10^-precision`.
///
/// Without a place after the point no digit is given, only the order of
/// magnitude. A value that rounds to nothing has no digit either; its `k` is
/// then the value's own magnitude, or one more where the value is above half
/// of that power of ten.
pub open spec fn is_fixed(d: Decoded, precision: int, digits: Seq<u8>, k: int) -> bool {
    let place = fixed_place(d, precision);
    &&& k == place + decimal_len(d.rounded_at(place))
    &&& if precision > 0 {
        spells(digits, d.rounded_at(-precision))
    } else {
        digits.len() == 0
    }
}

/// What the limited mode gives for a finite value: exactly `limit` digits,
/// the value rounded to that many significant digits, a tie going to the
/// even digit. With no digit asked for, none is given.
pub open spec fn is_limited(d: Decoded, limit: int, digits: Seq<u8>, k: int) -> bool {
    if limit > 0 {
        let place = d.magnitude() - limit;
        let n = d.rounded_at(place);
        &&& all_digits(digits)
        &&& digits.len() == limit
        &&& digits[0] != 48
        &&& k == place + decimal_len(n)
        &&& digits_value(digits) == if n == pow10(limit as nat) {
            pow10((limit - 1) as nat)
        } else {
            n
        }
    } else {
        digits.len() == 0 && k == bare_exponent(d)
    }
}

/// The shortest digits that read back as the double with the given pattern.
pub fn shortest(bits: u64) -> (b: DigitBuffer)
    ensures
        match decode_spec(bits) {
            FullDecoded::Finite(d) => is_shortest(d, b.digits@, b.k as int),
            _ => b.is_sentinel(),
        },
{
    match decode(bits) {
        FullDecoded::Finite(d) => {
            let (digits, k) = format_shortest(&d);
            DigitBuffer { digits, k }
        },
        _ => DigitBuffer { digits: Vec::new(), k: 0 },
    }
}

/// The digits of the double with the given pattern, rounded to `precision`
/// places after the decimal point.
pub fn fixed(bits: u64, precision: i16) -> (b: DigitBuffer)
    ensures
        match decode_spec(bits) {
            FullDecoded::Finite(d) => is_fixed(d, precision as int, b.digits@, b.k as int),
            _ => b.is_sentinel(),
        },
{
    match decode(bits) {
        FullDecoded::Finite(d) => {
            let (digits, k) = format_exact(&d, -(precision as i32), usize::MAX);
            proof {
                lemma_fixed(d, precision as int, digits@, k as int);
            }
            if precision > 0 {
                DigitBuffer { digits, k }
            } else {
                DigitBuffer { digits: Vec::new(), k }
            }
        },
        _ => DigitBuffer { digits: Vec::new(), k: 0 },
    }
}

/// The first `limit` significant digits of the double with the given
/// pattern, the last one rounded.
pub fn exponent(bits: u64, limit: i16) -> (b: DigitBuffer)
    ensures
        match decode_spec(bits) {
            FullDecoded::Finite(d) => is_limited(d, limit as int, b.digits@, b.k as int),
            _ => b.is_sentinel(),
        },
        limit > 0 ==> b.digits@.len() <= limit,
{
    match decode(bits) {
        FullDecoded::Finite(d) => {
            if limit > 0 {
                let (digits, k) = format_exact(&d, i32::MIN, limit as usize);
                proof {
                    lemma_limited(d, limit as int, digits@, k as int);
                }
                DigitBuffer { digits, k }
            } else {
                let (digits, k) = format_exact(&d, 0, 0);
                DigitBuffer { digits, k }
            }
        },
        _ => DigitBuffer { digits: Vec::new(), k: 0 },
    }
}

/// Gives up a buffer. The buffer is taken by value, so it cannot be used or
/// given up again afterwards.
pub fn release(buffer: DigitBuffer) {
    let DigitBuffer { digits, k: _ } = buffer;
    let _ = digits;
}

/// Rounding at `-precision` with room for every digit gives the fixed
/// mode's exponent and, where places after the point are asked for, its
/// digits.
pub proof fn lemma_fixed(d: Decoded, precision: int, digits: Seq<u8>, k: int)
    requires
        d.wf(),
        -0x8000 <= precision <= 0x8000,
        is_exact(d, -precision, usize::MAX as int, digits, k),
    ensures
        k == fixed_place(d, precision) + decimal_len(d.rounded_at(fixed_place(d, precision))),
        precision > 0 ==> is_fixed(d, precision, digits, k),
{
    let kv = d.magnitude();
    d.lemma_magnitude_exists();
    d.lemma_magnitude_bounds(kv);
    let max_len = usize::MAX as int;
    assert(max_len >= 0xffff_ffff);
    let place = rounding_place(kv, -precision, max_len);
    assert(place == fixed_place(d, precision));
    let at = d.rounded_at(place);
    let full = decimal_len(at);
    let n = d.rounded_at(-precision);
    d.lemma_rounded_bounds(kv, place);
    assert(pow10(0) == 1);
    assert(decimal_len(0) == 0);
    if kv < -precision {
        d.lemma_rounds_to_zero(kv, -precision);
        assert(k <= -precision);
        assert(digits.len() == 0);
        assert(digits_value(digits) == 0);
    } else {
        assert(at == n);
        if n == 0 {
            assert(full == 0);
            assert(digits.len() == 0);
            assert(digits_value(digits) == 0);
        } else {
            assert(full >= 1);
            assert(k > -precision);
            assert(full <= max_len);
            assert(digits.len() == full);
            assert(digits_value(digits) == n / pow10(0));
        }
    }
}

/// Rounding `limit` places below the magnitude is the limited mode.
pub proof fn lemma_limited(d: Decoded, limit: int, digits: Seq<u8>, k: int)
    requires
        d.wf(),
        0 < limit < 0x8000,
        is_exact(d, i32::MIN as int, limit, digits, k),
    ensures
        is_limited(d, limit, digits, k),
{
    let kv = d.magnitude();
    d.lemma_magnitude_exists();
    d.lemma_magnitude_bounds(kv);
    let place = kv - limit;
    assert(place == rounding_place(kv, i32::MIN as int, limit));
    d.lemma_rounded_bounds(kv, place);
    let n = d.rounded_at(place);
    let full = decimal_len(n);
    let top = pow10(limit as nat);
    assert(pow10(0) == 1);
    assert(pow10(1) == 10 * pow10(0));
    assert(top == 10 * pow10((limit - 1) as nat));
    assert(pow10((limit + 1) as nat) == 10 * top);
    assert(k > i32::MIN as int);
    assert(digits.len() == limit);
    if n == top {
        crate::digits::lemma_decimal_len(n, (limit + 1) as nat);
        assert(full - digits.len() == 1);
        assert(digits_value(digits) == n / pow10(1));
    } else {
        crate::digits::lemma_decimal_len(n, limit as nat);
        assert(full - digits.len() == 0);
        assert(digits_value(digits) == n / pow10(0));
    }
}

} // verus!
