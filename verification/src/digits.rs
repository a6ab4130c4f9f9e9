//! Strings of ASCII decimal digits and the naturals they spell.
use crate::power::{lemma_pow10_positive, pow10};
use vstd::prelude::*;

verus! {

/// Whether the byte is one of `'0'..='9'`.
pub open spec fn is_digit(c: u8) -> bool {
    48 <= c <= 57
}

/// Whether every byte of the string is a decimal digit.
pub open spec fn all_digits(s: Seq<u8>) -> bool {
    forall|i: int| 0 <= i < s.len() ==> is_digit(#[trigger] s[i])
}

/// The natural that the string spells, most significant digit first.
/// The empty string spells zero.
pub open spec fn digits_value(s: Seq<u8>) -> nat
    decreases s.len(),
{
    if s.len() == 0 {
        0
    } else {
        (10 * digits_value(s.drop_last()) + (s.last() - 48)) as nat
    }
}

/// How many digits the decimal spelling of `n` has; zero has none.
pub open spec fn decimal_len(n: nat) -> nat
    decreases n,
{
    if n == 0 {
        0
    } else {
        1 + decimal_len(n / 10)
    }
}

/// A natural in `[10^(len-1), 10^len)` has `len` digits.
pub proof fn lemma_decimal_len(n: nat, len: nat)
    requires
        len >= 1,
        pow10((len - 1) as nat) <= n < pow10(len),
    ensures
        decimal_len(n) == len,
    decreases len,
{
    lemma_pow10_positive((len - 1) as nat);
    if len == 1 {
        assert(pow10(1) == 10 * pow10(0));
        assert(pow10(0) == 1);
        assert(n / 10 == 0);
        assert(decimal_len(0) == 0);
    } else {
        assert(pow10(len) == 10 * pow10((len - 1) as nat));
        assert(pow10((len - 1) as nat) == 10 * pow10((len - 2) as nat));
        lemma_decimal_len(n / 10, (len - 1) as nat);
    }
}

pub proof fn lemma_push_digit(s: Seq<u8>, c: u8)
    requires
        is_digit(c),
    ensures
        digits_value(s.push(c)) == 10 * digits_value(s) + (c - 48),
        all_digits(s) ==> all_digits(s.push(c)),
{
    assert(s.push(c).drop_last() =~= s);
    assert(s.push(c).last() == c);
}

/// A string of `n` digits spells a natural below `10^n`.
pub proof fn lemma_value_upper(s: Seq<u8>)
    requires
        all_digits(s),
    ensures
        digits_value(s) < pow10(s.len()),
    decreases s.len(),
{
    if s.len() > 0 {
        assert(is_digit(s[s.len() - 1]));
        assert forall|i: int| 0 <= i < s.drop_last().len() implies is_digit(
            #[trigger] s.drop_last()[i],
        ) by {
            assert(s.drop_last()[i] == s[i]);
        }
        lemma_value_upper(s.drop_last());
    }
}

/// Without a leading zero, a string of `n` digits spells at least `10^(n-1)`.
pub proof fn lemma_value_lower(s: Seq<u8>)
    requires
        all_digits(s),
        s.len() > 0,
        s[0] != 48,
    ensures
        digits_value(s) >= pow10((s.len() - 1) as nat),
    decreases s.len(),
{
    assert(is_digit(s[s.len() - 1]));
    assert(is_digit(s[0]));
    if s.len() == 1 {
        assert(s.drop_last().len() == 0);
        assert(digits_value(s.drop_last()) == 0);
        assert(pow10(0) == 1);
    } else {
        assert forall|i: int| 0 <= i < s.drop_last().len() implies is_digit(
            #[trigger] s.drop_last()[i],
        ) by {
            assert(s.drop_last()[i] == s[i]);
        }
        assert(s.drop_last()[0] == s[0]);
        lemma_value_lower(s.drop_last());
    }
}

/// With a leading zero, a string of `n` digits spells less than `10^(n-1)`.
pub proof fn lemma_leading_zero(s: Seq<u8>)
    requires
        all_digits(s),
        s.len() > 0,
        s[0] == 48,
    ensures
        digits_value(s) < pow10((s.len() - 1) as nat),
    decreases s.len(),
{
    assert(is_digit(s[s.len() - 1]));
    if s.len() == 1 {
        assert(s.drop_last().len() == 0);
        assert(digits_value(s.drop_last()) == 0);
        assert(pow10(0) == 1);
    } else {
        assert forall|i: int| 0 <= i < s.drop_last().len() implies is_digit(
            #[trigger] s.drop_last()[i],
        ) by {
            assert(s.drop_last()[i] == s[i]);
        }
        assert(s.drop_last()[0] == s[0]);
        lemma_leading_zero(s.drop_last());
        assert(pow10((s.len() - 1) as nat) == 10 * pow10((s.len() - 2) as nat));
    }
}

/// Replacing the digit at `i` moves the value by the difference times the
/// digit's weight.
pub proof fn lemma_update_digit(s: Seq<u8>, i: int, c: u8)
    requires
        all_digits(s),
        is_digit(c),
        0 <= i < s.len(),
    ensures
        digits_value(s.update(i, c)) == digits_value(s) + (c - s[i]) * pow10(
            (s.len() - 1 - i) as nat,
        ),
        all_digits(s.update(i, c)),
    decreases s.len(),
{
    let t = s.update(i, c);
    assert(is_digit(s[i]));
    assert(is_digit(s[s.len() - 1]));
    if i == s.len() - 1 {
        assert(t.drop_last() =~= s.drop_last());
        assert(t.last() == c);
        assert(pow10(0) == 1);
        assert((c - s[i]) * 1 == c - s[i]);
    } else {
        assert forall|k: int| 0 <= k < s.drop_last().len() implies is_digit(
            #[trigger] s.drop_last()[k],
        ) by {
            assert(s.drop_last()[k] == s[k]);
        }
        lemma_update_digit(s.drop_last(), i, c);
        assert(t.drop_last() =~= s.drop_last().update(i, c));
        assert(t.last() == s.last());
        let w = pow10((s.len() - 2 - i) as nat);
        assert(pow10((s.len() - 1 - i) as nat) == 10 * w);
        let delta = c - s[i];
        assert(10 * (delta * w) == delta * (10 * w)) by (nonlinear_arith);
        assert(digits_value(t) == 10 * digits_value(t.drop_last()) + (t.last() - 48));
        assert(digits_value(s) == 10 * digits_value(s.drop_last()) + (s.last() - 48));
    }
}

/// Two digit strings of one length that spell one natural are the same string.
pub proof fn lemma_digits_unique(a: Seq<u8>, b: Seq<u8>)
    requires
        all_digits(a),
        all_digits(b),
        a.len() == b.len(),
        digits_value(a) == digits_value(b),
    ensures
        a == b,
    decreases a.len(),
{
    if a.len() > 0 {
        assert(is_digit(a[a.len() - 1]));
        assert(is_digit(b[b.len() - 1]));
        assert forall|k: int| 0 <= k < a.drop_last().len() implies is_digit(
            #[trigger] a.drop_last()[k],
        ) by {
            assert(a.drop_last()[k] == a[k]);
        }
        assert forall|k: int| 0 <= k < b.drop_last().len() implies is_digit(
            #[trigger] b.drop_last()[k],
        ) by {
            assert(b.drop_last()[k] == b[k]);
        }
        lemma_digits_unique(a.drop_last(), b.drop_last());
        assert(a =~= a.drop_last().push(a.last()));
        assert(b =~= b.drop_last().push(b.last()));
    } else {
        assert(a =~= b);
    }
}

/// Adds one to the number that the digits spell, in place and without
/// changing their count.
///
/// When the sum no longer fits (`true` is returned), the digits are left as a
/// one followed by zeros: the sum with its last zero cut off.
pub fn round_up(digits: &mut Vec<u8>) -> (overflow: bool)
    requires
        all_digits(old(digits)@),
    ensures
        all_digits(final(digits)@),
        final(digits)@.len() == old(digits)@.len(),
        overflow <==> digits_value(old(digits)@) + 1 == pow10(old(digits)@.len()),
        !overflow ==> digits_value(final(digits)@) == digits_value(old(digits)@) + 1,
        overflow && old(digits)@.len() > 0 ==> digits_value(final(digits)@) == pow10(
            (old(digits)@.len() - 1) as nat,
        ) && final(digits)@[0] == 49,
{
    let len = digits.len();
    let mut i: usize = len;
    proof {
        assert(pow10(0) == 1);
    }
    while i > 0 && digits[i - 1] == 57
        invariant
            i <= len,
            digits@.len() == len,
            old(digits)@.len() == len,
            all_digits(digits@),
            digits_value(digits@) + pow10((len - i) as nat) == digits_value(old(digits)@) + 1,
        decreases i,
    {
        proof {
            lemma_update_digit(digits@, i - 1, 48);
            let w = pow10((len - i) as nat);
            assert(pow10((len - i + 1) as nat) == 10 * w);
            assert((48 - 57) * w == -9 * w) by (nonlinear_arith);
        }
        digits.set(i - 1, 48);
        i -= 1;
    }
    proof {
        lemma_value_upper(old(digits)@);
        lemma_value_upper(digits@);
        lemma_pow10_positive((len - i) as nat);
    }
    if i > 0 {
        let c: u8 = digits[i - 1];
        assert(is_digit(digits@[i - 1]));
        proof {
            lemma_update_digit(digits@, i - 1, (c + 1) as u8);
            let w = pow10((len - i) as nat);
            assert(((c + 1) - c) * w == w) by (nonlinear_arith);
        }
        digits.set(i - 1, c + 1);
        proof {
            lemma_value_upper(digits@);
        }
        false
    } else {
        if len > 0 {
            assert(is_digit(digits@[0]));
            proof {
                lemma_update_digit(digits@, 0, 49);
                let w = pow10((len - 1) as nat);
                assert(pow10(len as nat) == 10 * w);
                assert(digits_value(digits@) == 0);
                // A string that spells zero starts with the digit zero.
                if digits@[0] != 48 {
                    lemma_value_lower(digits@);
                    lemma_pow10_positive((len - 1) as nat);
                }
                assert((49 - 48) * w == w) by (nonlinear_arith);
            }
            digits.set(0, 49);
        }
        true
    }
}

} // verus!
