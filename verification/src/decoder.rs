//! Splitting a 64-bit IEEE-754 pattern into sign, mantissa and binary exponent.
use vstd::prelude::*;

verus! {

/// A finite, non-zero double: its magnitude is `mantissa * 2^exponent`.
#[derive(Clone, Copy, Debug, PartialEq, Eq)]
pub struct Decoded {
    /// `1` for a clear sign bit, `-1` for a set one.
    pub sign: i8,
    /// At most 53 significant bits, never zero.
    pub mantissa: u64,
    /// The power of two that scales the mantissa.
    pub exponent: i16,
}

/// What a 64-bit pattern stands for.
#[derive(Clone, Copy, Debug, PartialEq, Eq)]
pub enum FullDecoded {
    Finite(Decoded),
    Zero,
    Infinite,
    NotANumber,
}

/// The low 52 bits of the pattern.
pub open spec fn fraction_field(bits: u64) -> int {
    bits as int % 0x10_0000_0000_0000
}

/// The 11 bits above the fraction.
pub open spec fn exponent_field(bits: u64) -> int {
    (bits as int / 0x10_0000_0000_0000) % 0x800
}

/// The top bit of the pattern.
pub open spec fn sign_field(bits: u64) -> int {
    bits as int / 0x8000_0000_0000_0000
}

/// The classification of a pattern, field by field.
pub open spec fn decode_spec(bits: u64) -> FullDecoded {
    let fraction = fraction_field(bits);
    let field = exponent_field(bits);
    let sign: i8 = if sign_field(bits) == 0 {
        1i8
    } else {
        -1i8
    };
    if field == 0x7ff {
        if fraction == 0 {
            FullDecoded::Infinite
        } else {
            FullDecoded::NotANumber
        }
    } else if field == 0 {
        if fraction == 0 {
            FullDecoded::Zero
        } else {
            FullDecoded::Finite(Decoded { sign, mantissa: fraction as u64, exponent: -1074i16 })
        }
    } else {
        FullDecoded::Finite(
            Decoded {
                sign,
                mantissa: (fraction + 0x10_0000_0000_0000) as u64,
                exponent: (field - 1075) as i16,
            },
        )
    }
}

impl Decoded {
    /// The shape that decoding produces: a subnormal keeps the least exponent,
    /// a normal value has its leading bit at position 52.
    pub open spec fn wf(self) -> bool {
        &&& self.sign == 1 || self.sign == -1
        &&& 0 < self.mantissa < 0x20_0000_0000_0000
        &&& -1074 <= self.exponent <= 971
        &&& self.mantissa >= 0x10_0000_0000_0000 || self.exponent == -1074
    }
}

/// Classifies a pattern. Every pattern has a class; there is no failure.
pub fn decode(bits: u64) -> (r: FullDecoded)
    ensures
        r == decode_spec(bits),
        r matches FullDecoded::Finite(d) ==> d.wf(),
{
    let fraction: u64 = bits % 0x10_0000_0000_0000;
    let field: u64 = (bits / 0x10_0000_0000_0000) % 0x800;
    let sign: i8 = if bits / 0x8000_0000_0000_0000 == 0 {
        1
    } else {
        -1
    };
    if field == 0x7ff {
        if fraction == 0 {
            FullDecoded::Infinite
        } else {
            FullDecoded::NotANumber
        }
    } else if field == 0 {
        if fraction == 0 {
            FullDecoded::Zero
        } else {
            FullDecoded::Finite(Decoded { sign, mantissa: fraction, exponent: -1074 })
        }
    } else {
        let exponent: i16 = field as i16 - 1075;
        FullDecoded::Finite(Decoded { sign, mantissa: fraction + 0x10_0000_0000_0000, exponent })
    }
}

/// The pattern of a finite value, put together again from its three fields.
pub open spec fn encode_spec(d: Decoded) -> int {
    let top: int = if d.sign == 1 {
        0
    } else {
        0x8000_0000_0000_0000
    };
    if d.mantissa < 0x10_0000_0000_0000 {
        top + d.mantissa
    } else {
        top + (d.exponent + 1075) * 0x10_0000_0000_0000 + (d.mantissa - 0x10_0000_0000_0000)
    }
}

/// Decoding loses nothing: a finite value's fields give its pattern back.
pub proof fn lemma_decode_is_invertible(bits: u64)
    ensures
        decode_spec(bits) matches FullDecoded::Finite(d) ==> encode_spec(d) == bits,
{
}

} // verus!
