//! Memory addresses written as six hexadecimal digits.
use vstd::prelude::*;
use crate::text::{chars_of, string_of};
use crate::pattern::{is_address_text, is_address_text_exec};

verus! {

/// A memory address: six characters of the class `[\dA-Fa-f]`.
#[derive(Debug, PartialEq)]
pub enum HexAddress {
    Address(String),
}

impl HexAddress {
    /// The address `s`, when `s` is six characters of `[\dA-Fa-f]`; `None` otherwise.
    pub fn new(s: &str) -> (r: Option<Self>)
        ensures
            r is Some <==> is_address_text(s@),
            r matches Some(HexAddress::Address(a)) ==> a@ == s@,
    {
        if HexAddress::is_valid(s) {
            let c = chars_of(s);
            Some(HexAddress::Address(string_of(&c)))
        } else {
            None
        }
    }

    /// Whether `s` is six characters of `[\dA-Fa-f]`.
    fn is_valid(s: &str) -> (b: bool)
        ensures
            b == is_address_text(s@),
    {
        let c = chars_of(s);
        is_address_text_exec(&c)
    }
}

} // verus!
