//! Alignment of cpio records to four bytes.

use vstd::prelude::*;

verus! {

/// Number of zero bytes that bring `len` up to a multiple of four.
pub open spec fn spec_pad_to_4(len: nat) -> nat {
    if len % 4 == 0 {
        0
    } else {
        (4 - len % 4) as nat
    }
}

/// pad out to a multiple of 4 bytes
pub fn pad_to_4(len: usize) -> (pad: usize)
    ensures
        pad == spec_pad_to_4(len as nat),
        pad < 4,
        (len + pad) % 4 == 0,
{
    match len % 4 {
        0 => 0,
        x => 4 - x,
    }
}

} // verus!
