//! The numeric fields of the portable ASCII (`newc`) header: eight
//! hexadecimal digits.

use vstd::prelude::*;
use crate::bytes::bytes_at;
use crate::error::FormatError;
use crate::numeric::{
    bytes_as_chars, lemma_hex_u32_round_trip, parse_u32_text, push_upper_hex, text_value_upto,
    upper_hex_digits,
};

verus! {

/// A numeric field of a `newc` header.
#[derive(Debug, Clone, Copy, Default)]
pub struct Ascii {
    pub value: u32,
}

/// The value that the eight bytes of a field hold: their text read as a
/// hexadecimal number, or `None` where they are not such text.
pub open spec fn hex_field_value(b: Seq<u8>) -> Option<nat> {
    text_value_upto(bytes_as_chars(b), 16, u32::MAX as nat)
}

/// Reading of a field at `pos` of `s`: its value and the position after it.
pub open spec fn spec_read_ascii(s: Seq<u8>, pos: int) -> Result<(u32, int), FormatError> {
    match bytes_at(s, pos, 8) {
        None => Err(FormatError::Incomplete),
        Some(b) => match hex_field_value(b) {
            Some(v) => Ok((v as u32, pos + 8)),
            None => Err(FormatError::InvalidNumber),
        },
    }
}

/// The eight bytes that a field of value `v` is written as: its hexadecimal
/// digits in upper case, with leading zeros.
pub open spec fn spec_write_ascii(v: u32) -> Seq<u8> {
    upper_hex_digits(v as nat, 8)
}

impl Ascii {
    pub fn new(value: u32) -> (r: Self)
        ensures
            r.value == value,
    {
        Self { value }
    }

    /// Reads the field at `pos`: eight bytes, the text of a hexadecimal
    /// number (an optional `+`, then digits in either case).
    pub fn read(bytes: &[u8], pos: usize) -> (r: Result<(u32, usize), FormatError>)
        ensures
            match r {
                Ok((v, end)) => spec_read_ascii(bytes@, pos as int) == Ok::<(u32, int), FormatError>((v, end as int)),
                Err(e) => spec_read_ascii(bytes@, pos as int) == Err::<(u32, int), FormatError>(e),
            },
    {
        if bytes.len() < 8 || pos > bytes.len() - 8 {
            return Err(FormatError::Incomplete);
        }
        let field = vstd::slice::slice_subrange(bytes, pos, pos + 8);
        match parse_u32_text(field, 16) {
            Some(v) => Ok((v, pos + 8)),
            None => Err(FormatError::InvalidNumber),
        }
    }

    /// Appends the field: the value as eight upper-case hexadecimal digits,
    /// most significant first ("008B2874").
    pub fn write(&self, out: &mut Vec<u8>)
        ensures
            final(out)@ == old(out)@ + spec_write_ascii(self.value),
    {
        push_upper_hex(self.value, 8, out);
    }
}

/// A field reads back as the value it was written with.
pub proof fn lemma_ascii_round_trip(v: u32, s: Seq<u8>, pos: int)
    requires
        0 <= pos,
        pos + 8 <= s.len(),
        s.subrange(pos, pos + 8) == spec_write_ascii(v),
    ensures
        spec_read_ascii(s, pos) == Ok::<(u32, int), FormatError>((v, pos + 8)),
{
    lemma_hex_u32_round_trip(v);
}

/// Reading of `k` consecutive fields at `pos`: their values, or the error of
/// the first field that fails.
pub open spec fn spec_read_ascii_fields(s: Seq<u8>, pos: int, k: nat) -> Result<Seq<u32>, FormatError>
    decreases k,
{
    if k == 0 {
        Ok(Seq::empty())
    } else {
        match spec_read_ascii_fields(s, pos, (k - 1) as nat) {
            Err(e) => Err(e),
            Ok(vs) => match spec_read_ascii(s, pos + 8 * (k - 1)) {
                Err(e) => Err(e),
                Ok((v, _)) => Ok(vs.push(v)),
            },
        }
    }
}

/// The bytes of consecutive fields.
pub open spec fn spec_write_ascii_fields(vs: Seq<u32>) -> Seq<u8>
    decreases vs.len(),
{
    if vs.len() == 0 {
        Seq::empty()
    } else {
        spec_write_ascii_fields(vs.drop_last()) + spec_write_ascii(vs.last())
    }
}

/// Once a field fails, reading more fields fails the same way.
pub proof fn lemma_ascii_fields_err(s: Seq<u8>, pos: int, j: nat, k: nat)
    requires
        j <= k,
        spec_read_ascii_fields(s, pos, j) is Err,
    ensures
        spec_read_ascii_fields(s, pos, k) == spec_read_ascii_fields(s, pos, j),
    decreases k - j,
{
    if j < k {
        lemma_ascii_fields_err(s, pos, j, (k - 1) as nat);
    }
}

/// Fields that are read are as many as asked for.
pub proof fn lemma_ascii_fields_len(s: Seq<u8>, pos: int, k: nat)
    ensures
        spec_read_ascii_fields(s, pos, k) matches Ok(vs) ==> vs.len() == k,
        spec_read_ascii_fields(s, pos, k) is Ok && k > 0 ==> 0 <= pos && pos + 8 * k <= s.len(),
    decreases k,
{
    if k > 0 {
        lemma_ascii_fields_len(s, pos, (k - 1) as nat);
    }
}

/// Written fields take eight bytes each.
pub proof fn lemma_write_ascii_fields_len(vs: Seq<u32>)
    ensures
        spec_write_ascii_fields(vs).len() == 8 * vs.len(),
    decreases vs.len(),
{
    if vs.len() > 0 {
        lemma_write_ascii_fields_len(vs.drop_last());
        lemma_hex_u32_round_trip(vs.last());
    }
}

/// Written fields read back as the same values.
pub proof fn lemma_ascii_fields_round_trip(vs: Seq<u32>, s: Seq<u8>, pos: int)
    requires
        0 <= pos,
        pos + 8 * vs.len() <= s.len(),
        s.subrange(pos, pos + 8 * vs.len()) == spec_write_ascii_fields(vs),
    ensures
        spec_read_ascii_fields(s, pos, vs.len()) == Ok::<Seq<u32>, FormatError>(vs),
    decreases vs.len(),
{
    if vs.len() > 0 {
        let k = vs.len() - 1;
        let init = vs.drop_last();
        lemma_write_ascii_fields_len(init);
        lemma_write_ascii_fields_len(vs);
        let w = spec_write_ascii_fields(vs);
        assert(s.subrange(pos, pos + 8 * k) =~= w.subrange(0, 8 * k));
        assert(w.subrange(0, 8 * k) =~= spec_write_ascii_fields(init));
        lemma_ascii_fields_round_trip(init, s, pos);
        assert(s.subrange(pos + 8 * k, pos + 8 * k + 8) =~= w.subrange(8 * k, 8 * k + 8));
        assert(w.subrange(8 * k, 8 * k + 8) =~= spec_write_ascii(vs.last()));
        lemma_ascii_round_trip(vs.last(), s, pos + 8 * k);
        assert(init.push(vs.last()) =~= vs);
    } else {
        assert(vs =~= Seq::<u32>::empty());
    }
}

/// Each field that is read holds the value of its own eight bytes: field `j`
/// of those read at `pos` is the hexadecimal text at `pos + 8 * j`.
pub proof fn lemma_ascii_fields_values(s: Seq<u8>, pos: int, k: nat)
    ensures
        spec_read_ascii_fields(s, pos, k) matches Ok(vs) ==> forall|j: int| 0 <= j < k ==>
            hex_field_value(s.subrange(pos + 8 * j, pos + 8 * j + 8)) == Some(#[trigger] vs[j] as nat),
    decreases k,
{
    if k > 0 {
        let j0 = k - 1;
        lemma_ascii_fields_values(s, pos, j0 as nat);
        lemma_ascii_fields_len(s, pos, j0 as nat);
        if let Ok(vs) = spec_read_ascii_fields(s, pos, k) {
            let prev = spec_read_ascii_fields(s, pos, j0 as nat).unwrap();
            let b = s.subrange(pos + 8 * j0, pos + 8 * j0 + 8);
            assert(bytes_at(s, pos + 8 * j0, 8) == Some(b));
            let w = hex_field_value(b).unwrap();
            assert(w <= u32::MAX);
            assert(vs == prev.push(w as u32));
            assert forall|j: int| 0 <= j < k implies hex_field_value(s.subrange(pos + 8 * j, pos + 8 * j + 8))
                == Some(#[trigger] vs[j] as nat) by {
                if j < j0 {
                    assert(vs[j] == prev[j]);
                }
            }
        }
    }
}

/// Field `j` of written fields stands at bytes `8 * j` to `8 * j + 8`.
pub proof fn lemma_write_ascii_fields_at(vs: Seq<u32>, j: int)
    requires
        0 <= j < vs.len(),
    ensures
        spec_write_ascii_fields(vs).len() == 8 * vs.len(),
        spec_write_ascii_fields(vs).subrange(8 * j, 8 * j + 8) == spec_write_ascii(vs[j]),
    decreases vs.len(),
{
    let init = vs.drop_last();
    lemma_write_ascii_fields_len(vs);
    lemma_write_ascii_fields_len(init);
    lemma_hex_u32_round_trip(vs.last());
    let w = spec_write_ascii_fields(vs);
    if j == vs.len() - 1 {
        assert(w.subrange(8 * j, 8 * j + 8) =~= spec_write_ascii(vs.last()));
    } else {
        lemma_write_ascii_fields_at(init, j);
        assert(w.subrange(8 * j, 8 * j + 8) =~= spec_write_ascii_fields(init).subrange(8 * j, 8 * j + 8));
    }
}

/// Reads `k` consecutive fields at `pos`.
pub fn read_ascii_fields(bytes: &[u8], pos: usize, k: usize) -> (r: Result<Vec<u32>, FormatError>)
    ensures
        match r {
            Ok(vs) => spec_read_ascii_fields(bytes@, pos as int, k as nat) == Ok::<Seq<u32>, FormatError>(vs@),
            Err(e) => spec_read_ascii_fields(bytes@, pos as int, k as nat) == Err::<Seq<u32>, FormatError>(e),
        },
{
    let mut vs: Vec<u32> = Vec::new();
    let mut p = pos;
    let mut i: usize = 0;
    while i < k
        invariant
            i <= k,
            p == pos + 8 * i,
            spec_read_ascii_fields(bytes@, pos as int, i as nat) == Ok::<Seq<u32>, FormatError>(vs@),
        decreases k - i,
    {
        match Ascii::read(bytes, p) {
            Ok((v, end)) => {
                vs.push(v);
                p = end;
                i = i + 1;
            },
            Err(e) => {
                proof {
                    lemma_ascii_fields_err(bytes@, pos as int, (i + 1) as nat, k as nat);
                }
                return Err(e);
            },
        }
    }
    Ok(vs)
}

/// Appends consecutive fields.
pub fn write_ascii_fields(vs: &[u32], out: &mut Vec<u8>)
    ensures
        final(out)@ == old(out)@ + spec_write_ascii_fields(vs@),
{
    let mut i: usize = 0;
    while i < vs.len()
        invariant
            i <= vs@.len(),
            out@ == old(out)@ + spec_write_ascii_fields(vs@.subrange(0, i as int)),
        decreases vs@.len() - i,
    {
        Ascii::new(vs[i]).write(out);
        i = i + 1;
        assert(vs@.subrange(0, i as int).drop_last() =~= vs@.subrange(0, i - 1));
        assert(out@ =~= old(out)@ + spec_write_ascii_fields(vs@.subrange(0, i as int)));
    }
    assert(vs@.subrange(0, vs@.len() as int) =~= vs@);
}

} // verus!
