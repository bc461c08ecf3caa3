//! A number that is known by its name: the type by which numbers are filed
//! in the order of the dictionary.

use crate::groups::law_supported_range;
use crate::namer::spell;
use crate::spelling::spelling;
use vstd::pervasive::unreached;
use vstd::prelude::*;
use vstd::std_specs::convert::{FromSpec, FromSpecImpl};

verus! {

/// A number, kept as it was given, that can be turned into its English name.
pub struct LexicalNumber {
    inner: usize,
}

impl View for LexicalNumber {
    type V = nat;

    /// The number itself.
    closed spec fn view(&self) -> nat {
        self.inner as nat
    }
}

impl FromSpecImpl<usize> for LexicalNumber {
    open spec fn obeys_from_spec() -> bool {
        true
    }

    closed spec fn from_spec(value: usize) -> LexicalNumber {
        LexicalNumber { inner: value }
    }
}

impl From<usize> for LexicalNumber {
    /// Wraps `value`.
    fn from(value: usize) -> (number: LexicalNumber)
        ensures
            number@ == value,
    {
        LexicalNumber { inner: value }
    }
}

impl FromSpecImpl<LexicalNumber> for usize {
    open spec fn obeys_from_spec() -> bool {
        true
    }

    closed spec fn from_spec(number: LexicalNumber) -> usize {
        number.inner
    }
}

impl From<LexicalNumber> for usize {
    /// Unwraps the number that `number` was made from.
    fn from(number: LexicalNumber) -> (value: usize)
        ensures
            value == number@,
    {
        number.inner
    }
}

impl LexicalNumber {
    /// The name of the number in English words. Every number that fits the
    /// machine word has one.
    pub fn to_string(&self) -> (name: String)
        ensures
            name@ == spelling(self@),
    {
        proof {
            law_supported_range(self.inner as nat);
        }
        match spell(self.inner as u128) {
            Ok(name) => name,
            Err(_) => unreached(),
        }
    }
}

/// Wrapping a number and unwrapping it again gives the number back.
pub proof fn law_round_trip(value: usize)
    ensures
        <usize as FromSpec<LexicalNumber>>::from_spec(
            <LexicalNumber as FromSpec<usize>>::from_spec(value),
        ) == value,
        <LexicalNumber as FromSpec<usize>>::from_spec(value)@ == value,
{
}

} // verus!
