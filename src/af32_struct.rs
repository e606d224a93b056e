//! `af32`: the packed decimal value type, with its operators.
use vstd::prelude::*;
use crate::math::{
    add_words, difference_word, div_words, lemma_negation, mul_words, product_word,
    quotient_word, scaled, sub_words, sum_word, well_formed_word, AccurateOps,
};
use crate::util::{
    decode, decoded, encoded, frac_part, int_part, is_negative_word, render,
    try_encode, well_formed, AfError,
};

verus! {

/// A decimal number packed in a 32-bit word, sign and magnitude: a 5-bit
/// pointer (bits 31 to 27: how many low bits of the magnitude hold the
/// fraction digits), a sign bit (bit 26), and a 26-bit magnitude (bits 25 to
/// 0) that is the integer digits shifted above the fraction digits. Two
/// numbers are equal when their words are.
#[allow(non_camel_case_types)]
#[derive(Debug, Clone, Copy, PartialEq, Eq, Structural)]
pub struct af32 {
    pub bits: u32,
}

impl af32 {
    /// The number that a well-formed text `[-|+]<digits>[.<digits>]` writes.
    pub fn new_from_str(value: &str) -> (r: Self)
        requires
            well_formed(value@),
        ensures
            r.bits == encoded(value@),
    {
        af32 { bits: crate::util::encode(value) }
    }

    /// The number that a text writes, or `MalformedNumber` when the text is
    /// not well formed.
    pub fn try_new_from_str(value: &str) -> (r: Result<Self, AfError>)
        ensures
            match r {
                Ok(x) => well_formed(value@) && x.bits == encoded(value@),
                Err(e) => !well_formed(value@) && e == AfError::MalformedNumber,
            },
    {
        match try_encode(value) {
            Ok(bits) => Ok(af32 { bits }),
            Err(e) => Err(e),
        }
    }

    /// The number whose word is `bits`.
    pub fn new_from_bits(bits: u32) -> (r: Self)
        ensures
            r.bits == bits,
    {
        af32 { bits }
    }

    /// The text `[-]<integer>.<fraction>` of the number.
    pub fn decode(&self) -> (r: String)
        ensures
            r@ == decoded(self.bits),
    {
        decode(self.bits)
    }

    /// The number with its sign flipped: zero minus it, so zero stays zero.
    pub fn neg(self) -> (r: Self)
        ensures
            r.bits == difference_word(0, self.bits),
            well_formed_word(self.bits) ==> decoded(r.bits)
                == render(
                !is_negative_word(self.bits) && scaled(self.bits) > 0,
                int_part(self.bits),
                frac_part(self.bits),
            ),
    {
        proof {
            if well_formed_word(self.bits) {
                lemma_negation(self.bits);
            }
        }
        af32 { bits: sub_words(0, self.bits) }
    }

    /// The quotient `self / rhs`, or `DivisionByZero` when `rhs` is zero.
    pub fn checked_div(self, rhs: Self) -> (r: Result<Self, AfError>)
        ensures
            match r {
                Ok(x) => scaled(rhs.bits) > 0 && x.bits == quotient_word(self.bits, rhs.bits),
                Err(e) => scaled(rhs.bits) == 0 && e == AfError::DivisionByZero,
            },
    {
        match div_words(self.bits, rhs.bits) {
            Ok(bits) => Ok(af32 { bits }),
            Err(e) => Err(e),
        }
    }
}

impl core::ops::Add for af32 {
    type Output = af32;

    fn add(self, rhs: af32) -> af32 {
        af32 { bits: add_words(self.bits, rhs.bits) }
    }
}

impl vstd::std_specs::ops::AddSpecImpl for af32 {
    open spec fn obeys_add_spec() -> bool {
        true
    }

    open spec fn add_req(self, rhs: af32) -> bool {
        true
    }

    open spec fn add_spec(self, rhs: af32) -> af32 {
        af32 { bits: sum_word(self.bits, rhs.bits) }
    }
}

impl core::ops::Sub for af32 {
    type Output = af32;

    fn sub(self, rhs: af32) -> af32 {
        af32 { bits: sub_words(self.bits, rhs.bits) }
    }
}

impl vstd::std_specs::ops::SubSpecImpl for af32 {
    open spec fn obeys_sub_spec() -> bool {
        true
    }

    open spec fn sub_req(self, rhs: af32) -> bool {
        true
    }

    open spec fn sub_spec(self, rhs: af32) -> af32 {
        af32 { bits: difference_word(self.bits, rhs.bits) }
    }
}

impl core::ops::Mul for af32 {
    type Output = af32;

    fn mul(self, rhs: af32) -> af32 {
        af32 { bits: mul_words(self.bits, rhs.bits) }
    }
}

impl vstd::std_specs::ops::MulSpecImpl for af32 {
    open spec fn obeys_mul_spec() -> bool {
        true
    }

    open spec fn mul_req(self, rhs: af32) -> bool {
        true
    }

    open spec fn mul_spec(self, rhs: af32) -> af32 {
        af32 { bits: product_word(self.bits, rhs.bits) }
    }
}

/// `/` asks for a divisor that is not zero. The division that reports a zero
/// divisor as `DivisionByZero` is `checked_div` (and `AccurateOps::div`).
impl core::ops::Div for af32 {
    type Output = af32;

    fn div(self, rhs: af32) -> af32 {
        match div_words(self.bits, rhs.bits) {
            Ok(bits) => af32 { bits },
            Err(_) => self,
        }
    }
}

impl vstd::std_specs::ops::DivSpecImpl for af32 {
    open spec fn obeys_div_spec() -> bool {
        true
    }

    open spec fn div_req(self, rhs: af32) -> bool {
        scaled(rhs.bits) > 0
    }

    open spec fn div_spec(self, rhs: af32) -> af32 {
        af32 { bits: quotient_word(self.bits, rhs.bits) }
    }
}

/// A text that is not well formed converts to zero; `try_new_from_str` reports it.
impl<'a> From<&'a str> for af32 {
    fn from(val: &'a str) -> af32 {
        match try_encode(val) {
            Ok(bits) => af32 { bits },
            Err(_) => af32 { bits: 0 },
        }
    }
}

impl<'a> vstd::std_specs::convert::FromSpecImpl<&'a str> for af32 {
    open spec fn obeys_from_spec() -> bool {
        true
    }

    open spec fn from_spec(val: &'a str) -> af32 {
        af32 {
            bits: if well_formed(val@) {
                encoded(val@)
            } else {
                0
            },
        }
    }
}

/// A text that is not well formed converts to zero; `try_new_from_str` reports it.
impl From<String> for af32 {
    fn from(val: String) -> af32 {
        match try_encode(val.as_str()) {
            Ok(bits) => af32 { bits },
            Err(_) => af32 { bits: 0 },
        }
    }
}

impl vstd::std_specs::convert::FromSpecImpl<String> for af32 {
    open spec fn obeys_from_spec() -> bool {
        true
    }

    open spec fn from_spec(val: String) -> af32 {
        af32 {
            bits: if well_formed(val@) {
                encoded(val@)
            } else {
                0
            },
        }
    }
}

impl AccurateOps for af32 {
    open spec fn word(&self) -> u32 {
        self.bits
    }

    fn add(self, other: Self) -> (r: Self) {
        af32 { bits: add_words(self.bits, other.bits) }
    }

    fn sub(self, other: Self) -> (r: Self) {
        af32 { bits: sub_words(self.bits, other.bits) }
    }

    fn mul(self, other: Self) -> (r: Self) {
        af32 { bits: mul_words(self.bits, other.bits) }
    }

    fn div(self, other: Self) -> (r: Result<Self, AfError>) {
        self.checked_div(other)
    }
}

} // verus!
