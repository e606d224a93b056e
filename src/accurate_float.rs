//! `AccurateFloat`: a packed decimal value type with the same word as `af32`.
use vstd::prelude::*;
use crate::math::{
    add_words, difference_word, div_words, mul_words, product_word, quotient_word, scaled,
    sub_words, sum_word,
};
use crate::util::{decode, decoded, encoded, try_encode, well_formed, AfError};

verus! {

/// A decimal number packed in a 32-bit word, laid out as `af32`, without its
/// negation. Two numbers are equal when their words are.
#[derive(Debug, Clone, Copy, PartialEq, Eq, Structural)]
pub struct AccurateFloat {
    pub bits: u32,
}

impl AccurateFloat {
    /// The number that a well-formed text `[-|+]<digits>[.<digits>]` writes.
    pub fn new_from_str(value: &str) -> (r: Self)
        requires
            well_formed(value@),
        ensures
            r.bits == encoded(value@),
    {
        AccurateFloat { bits: crate::util::encode(value) }
    }

    /// The number that a text writes, or `MalformedNumber` when the text is
    /// not well formed.
    pub fn try_new_from_str(value: &str) -> (r: Result<Self, AfError>)
        ensures
            match r {
                Ok(x) => well_formed(value@) && x.bits == encoded(value@),
                Err(e) => !well_formed(value@) && e == AfError::MalformedNumber,
            },
    {
        match try_encode(value) {
            Ok(bits) => Ok(AccurateFloat { bits }),
            Err(e) => Err(e),
        }
    }

    /// The number whose word is `bits`.
    pub fn new_from_bits(bits: u32) -> (r: Self)
        ensures
            r.bits == bits,
    {
        AccurateFloat { bits }
    }

    /// The text `[-]<integer>.<fraction>` of the number.
    pub fn decode(&self) -> (r: String)
        ensures
            r@ == decoded(self.bits),
    {
        decode(self.bits)
    }

    /// The quotient `self / rhs`, or `DivisionByZero` when `rhs` is zero.
    pub fn checked_div(self, rhs: Self) -> (r: Result<Self, AfError>)
        ensures
            match r {
                Ok(x) => scaled(rhs.bits) > 0 && x.bits == quotient_word(self.bits, rhs.bits),
                Err(e) => scaled(rhs.bits) == 0 && e == AfError::DivisionByZero,
            },
    {
        match div_words(self.bits, rhs.bits) {
            Ok(bits) => Ok(AccurateFloat { bits }),
            Err(e) => Err(e),
        }
    }
}

impl core::ops::Add for AccurateFloat {
    type Output = AccurateFloat;

    fn add(self, rhs: AccurateFloat) -> AccurateFloat {
        AccurateFloat { bits: add_words(self.bits, rhs.bits) }
    }
}

impl vstd::std_specs::ops::AddSpecImpl for AccurateFloat {
    open spec fn obeys_add_spec() -> bool {
        true
    }

    open spec fn add_req(self, rhs: AccurateFloat) -> bool {
        true
    }

    open spec fn add_spec(self, rhs: AccurateFloat) -> AccurateFloat {
        AccurateFloat { bits: sum_word(self.bits, rhs.bits) }
    }
}

impl core::ops::Sub for AccurateFloat {
    type Output = AccurateFloat;

    fn sub(self, rhs: AccurateFloat) -> AccurateFloat {
        AccurateFloat { bits: sub_words(self.bits, rhs.bits) }
    }
}

impl vstd::std_specs::ops::SubSpecImpl for AccurateFloat {
    open spec fn obeys_sub_spec() -> bool {
        true
    }

    open spec fn sub_req(self, rhs: AccurateFloat) -> bool {
        true
    }

    open spec fn sub_spec(self, rhs: AccurateFloat) -> AccurateFloat {
        AccurateFloat { bits: difference_word(self.bits, rhs.bits) }
    }
}

impl core::ops::Mul for AccurateFloat {
    type Output = AccurateFloat;

    fn mul(self, rhs: AccurateFloat) -> AccurateFloat {
        AccurateFloat { bits: mul_words(self.bits, rhs.bits) }
    }
}

impl vstd::std_specs::ops::MulSpecImpl for AccurateFloat {
    open spec fn obeys_mul_spec() -> bool {
        true
    }

    open spec fn mul_req(self, rhs: AccurateFloat) -> bool {
        true
    }

    open spec fn mul_spec(self, rhs: AccurateFloat) -> AccurateFloat {
        AccurateFloat { bits: product_word(self.bits, rhs.bits) }
    }
}

/// `/` asks for a divisor that is not zero. The division that reports a zero
/// divisor as `DivisionByZero` is `checked_div`.
impl core::ops::Div for AccurateFloat {
    type Output = AccurateFloat;

    fn div(self, rhs: AccurateFloat) -> AccurateFloat {
        match div_words(self.bits, rhs.bits) {
            Ok(bits) => AccurateFloat { bits },
            Err(_) => self,
        }
    }
}

impl vstd::std_specs::ops::DivSpecImpl for AccurateFloat {
    open spec fn obeys_div_spec() -> bool {
        true
    }

    open spec fn div_req(self, rhs: AccurateFloat) -> bool {
        scaled(rhs.bits) > 0
    }

    open spec fn div_spec(self, rhs: AccurateFloat) -> AccurateFloat {
        AccurateFloat { bits: quotient_word(self.bits, rhs.bits) }
    }
}

/// A text that is not well formed converts to zero; `try_new_from_str` reports it.
impl<'a> From<&'a str> for AccurateFloat {
    fn from(val: &'a str) -> AccurateFloat {
        match try_encode(val) {
            Ok(bits) => AccurateFloat { bits },
            Err(_) => AccurateFloat { bits: 0 },
        }
    }
}

impl<'a> vstd::std_specs::convert::FromSpecImpl<&'a str> for AccurateFloat {
    open spec fn obeys_from_spec() -> bool {
        true
    }

    open spec fn from_spec(val: &'a str) -> AccurateFloat {
        AccurateFloat {
            bits: if well_formed(val@) {
                encoded(val@)
            } else {
                0
            },
        }
    }
}

/// A text that is not well formed converts to zero; `try_new_from_str` reports it.
impl From<String> for AccurateFloat {
    fn from(val: String) -> AccurateFloat {
        match try_encode(val.as_str()) {
            Ok(bits) => AccurateFloat { bits },
            Err(_) => AccurateFloat { bits: 0 },
        }
    }
}

impl vstd::std_specs::convert::FromSpecImpl<String> for AccurateFloat {
    open spec fn obeys_from_spec() -> bool {
        true
    }

    open spec fn from_spec(val: String) -> AccurateFloat {
        AccurateFloat {
            bits: if well_formed(val@) {
                encoded(val@)
            } else {
                0
            },
        }
    }
}

} // verus!
