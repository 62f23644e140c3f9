//! The numeric fields of the old character (`odc`) header: octal digits.

use vstd::prelude::*;
use vstd::utf8::{decode_utf8, valid_utf8};
use crate::bytes::bytes_at;
use crate::error::FormatError;
use crate::numeric::{bytes_as_chars, lemma_octal_digits_value, octal_digits, push_octal, text_value_upto};
use crate::text::{is_ascii_bytes, lemma_ascii_utf8, num_u32_from_str_radix, num_u64_from_str_radix, str_from_utf8};

verus! {

/// Integers that an octal field can hold.
pub trait OctalConversion: Sized {
    /// The integer as a natural number.
    spec fn spec_nat(&self) -> nat;

    /// The largest value of the type.
    spec fn spec_max() -> nat;

    /// Convert any integer type into an octal string
    fn to_octal_bytes(&self) -> (r: Vec<u8>)
        ensures
            r@ == octal_digits(self.spec_nat()),
    ;

    /// Convert an octal string back to the integer type; text that is not an
    /// octal number of the type gives zero.
    fn from_octal_string(s: &str) -> (r: Self)
        ensures
            r.spec_nat() == octal_text_value(s@, Self::spec_max()),
    ;
}

/// Value of octal text as `from_octal_string` reads it: the number, where the
/// text is one that fits below `max`, else zero.
pub open spec fn octal_text_value(cs: Seq<char>, max: nat) -> nat {
    match text_value_upto(cs, 8, max) {
        Some(v) => v,
        None => 0,
    }
}

impl OctalConversion for u32 {
    open spec fn spec_nat(&self) -> nat {
        *self as nat
    }

    open spec fn spec_max() -> nat {
        u32::MAX as nat
    }

    fn to_octal_bytes(&self) -> (r: Vec<u8>) {
        let mut r: Vec<u8> = Vec::new();
        push_octal(*self as u64, &mut r);
        assert(r@ =~= octal_digits(self.spec_nat()));
        r
    }

    fn from_octal_string(s: &str) -> (r: Self) {
        match num_u32_from_str_radix(s, 8) {
            Some(value) => value,
            None => 0,
        }
    }
}

impl OctalConversion for u64 {
    open spec fn spec_nat(&self) -> nat {
        *self as nat
    }

    open spec fn spec_max() -> nat {
        u64::MAX as nat
    }

    fn to_octal_bytes(&self) -> (r: Vec<u8>) {
        let mut r: Vec<u8> = Vec::new();
        push_octal(*self, &mut r);
        assert(r@ =~= octal_digits(self.spec_nat()));
        r
    }

    fn from_octal_string(s: &str) -> (r: Self) {
        match num_u64_from_str_radix(s, 8) {
            Some(value) => value,
            None => 0,
        }
    }
}

/// An octal field of `N` bytes.
#[derive(Debug, Clone, Copy, Default)]
pub struct Octal<T: OctalConversion, const N: usize> {
    pub value: T,
}

/// Reading of an `N`-byte field at `pos`: the value of its text and the
/// position after it. Bytes that are not UTF-8 are refused.
pub open spec fn spec_read_octal(s: Seq<u8>, pos: int, n: nat, max: nat) -> Result<(nat, int), FormatError> {
    match bytes_at(s, pos, n) {
        None => Err(FormatError::Incomplete),
        Some(b) => if valid_utf8(b) {
            Ok((octal_text_value(decode_utf8(b), max), pos + n))
        } else {
            Err(FormatError::InvalidNumber)
        },
    }
}

impl<T: OctalConversion, const N: usize> Octal<T, N> {
    pub fn new(value: T) -> (r: Self)
        ensures
            r.value == value,
    {
        Self { value }
    }

    /// Reads the field at `pos`: `N` bytes of UTF-8 text, read as an octal
    /// number (zero where the text is not one).
    pub fn read(bytes: &[u8], pos: usize) -> (r: Result<(T, usize), FormatError>)
        ensures
            match r {
                Ok((v, end)) => spec_read_octal(bytes@, pos as int, N as nat, T::spec_max())
                    == Ok::<(nat, int), FormatError>((v.spec_nat(), end as int)),
                Err(e) => spec_read_octal(bytes@, pos as int, N as nat, T::spec_max())
                    == Err::<(nat, int), FormatError>(e),
            },
    {
        if bytes.len() < N || pos > bytes.len() - N {
            return Err(FormatError::Incomplete);
        }
        let field = vstd::slice::slice_subrange(bytes, pos, pos + N);
        match str_from_utf8(field) {
            Some(s) => Ok((T::from_octal_string(s), pos + N)),
            None => Err(FormatError::InvalidNumber),
        }
    }

    /// Appends the value's octal digits, as many as it has (which need not
    /// be `N`).
    pub fn write(&self, out: &mut Vec<u8>)
        ensures
            final(out)@ == old(out)@ + octal_digits(self.value.spec_nat()),
    {
        let b = self.value.to_octal_bytes();
        crate::bytes::append_bytes(out, b.as_slice());
    }
}

/// The octal digits of a value read back as the value: what `to_octal_bytes`
/// writes, `from_octal_string` reads as the same number.
pub proof fn lemma_octal_round_trip(v: nat, max: nat)
    requires
        v <= max,
    ensures
        valid_utf8(octal_digits(v)),
        octal_text_value(decode_utf8(octal_digits(v)), max) == v,
{
    let b = octal_digits(v);
    lemma_octal_digits_value(v);
    assert forall|i: int| 0 <= i < b.len() implies #[trigger] b[i] < 0x80 by {
        assert(bytes_as_chars(b)[i] == b[i] as char);
        assert(crate::numeric::digit_of(bytes_as_chars(b)[i]) is Some);
    }
    assert(is_ascii_bytes(b));
    lemma_ascii_utf8(b);
}

} // verus!
