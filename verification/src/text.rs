//! Text in byte buffers: UTF-8 decoding and the reading of numbers from text,
//! as std and `num_traits` provide them.

use vstd::prelude::*;
use vstd::utf8::*;
use crate::numeric::{bytes_as_chars, text_value_upto};

verus! {

/// `std::str::from_utf8`: the bytes as a string slice when they are valid
/// UTF-8, and nothing otherwise. Its contract claims that the call succeeds
/// exactly on valid UTF-8 and that the slice holds the decoded characters.
#[verifier::external_body]
pub(crate) fn str_from_utf8(b: &[u8]) -> (r: Option<&str>)
    ensures
        r is Some <==> valid_utf8(b@),
        r matches Some(s) ==> s@ == decode_utf8(b@),
{
    std::str::from_utf8(b).ok()
}

/// `<u32 as num_traits::Num>::from_str_radix`, which forwards to
/// `u32::from_str_radix`. Its contract claims what std documents: an
/// optional `+` followed by one or more digits of the radix is read as a
/// number, which must fit in a `u32`; anything else is an error. std panics
/// on a radix outside 2..=36, which `requires` leaves out.
#[verifier::external_body]
pub(crate) fn num_u32_from_str_radix(s: &str, radix: u32) -> (r: Option<u32>)
    requires
        2 <= radix <= 36,
    ensures
        match text_value_upto(s@, radix as nat, u32::MAX as nat) {
            Some(v) => r == Some(v as u32),
            None => r is None,
        },
{
    <u32 as num_traits::Num>::from_str_radix(s, radix).ok()
}

/// `<u64 as num_traits::Num>::from_str_radix`, which forwards to
/// `u64::from_str_radix`; the contract is that of the `u32` version with the
/// bound of a `u64`.
#[verifier::external_body]
pub(crate) fn num_u64_from_str_radix(s: &str, radix: u32) -> (r: Option<u64>)
    requires
        2 <= radix <= 36,
    ensures
        match text_value_upto(s@, radix as nat, u64::MAX as nat) {
            Some(v) => r == Some(v as u64),
            None => r is None,
        },
{
    <u64 as num_traits::Num>::from_str_radix(s, radix).ok()
}

/// True when every byte is below 0x80.
pub open spec fn is_ascii_bytes(b: Seq<u8>) -> bool {
    forall|i: int| 0 <= i < b.len() ==> #[trigger] b[i] < 0x80
}

/// ASCII bytes are valid UTF-8 and decode one for one into characters.
pub proof fn lemma_ascii_utf8(b: Seq<u8>)
    requires
        is_ascii_bytes(b),
    ensures
        valid_utf8(b),
        decode_utf8(b) == bytes_as_chars(b),
{
    let cs = bytes_as_chars(b);
    assert forall|i| 0 <= i < cs.len() implies '\0' <= #[trigger] cs[i] <= '\u{7f}' by {
        assert(cs[i] == b[i] as char);
    }
    assert(is_ascii_chars(cs));
    is_ascii_chars_encode_utf8(cs);
    assert forall|i| 0 <= i < b.len() implies #[trigger] encode_utf8(cs)[i] == b[i] by {
        assert(cs[i] == b[i] as char);
        assert(cs[i] as u8 == encode_utf8(cs)[i]);
    }
    assert(encode_utf8(cs) =~= b);
    encode_utf8_valid_utf8(cs);
    encode_utf8_decode_utf8(cs);
}

} // verus!
