//! What every cpio header offers, whatever its format.

use vstd::prelude::*;
use vstd::utf8::{decode_utf8, valid_utf8};
use crate::error::FormatError;
use crate::text::str_from_utf8;

verus! {

/// The attributes of an archive member, independent of the format.
pub struct Header {
    pub ino: u32,
    pub mode: u32,
    pub uid: u32,
    pub gid: u32,
    pub nlink: u32,
    pub mtime: u32,
    pub devmajor: u32,
    pub devminor: u32,
    pub rdevmajor: u32,
    pub rdevminor: u32,
    pub name: String,
}

/// A `Header` as values: its numbers and the characters of its name.
pub struct HeaderView {
    pub ino: u32,
    pub mode: u32,
    pub uid: u32,
    pub gid: u32,
    pub nlink: u32,
    pub mtime: u32,
    pub devmajor: u32,
    pub devminor: u32,
    pub rdevmajor: u32,
    pub rdevminor: u32,
    pub name: Seq<char>,
}

impl View for Header {
    type V = HeaderView;

    open spec fn view(&self) -> HeaderView {
        HeaderView {
            ino: self.ino,
            mode: self.mode,
            uid: self.uid,
            gid: self.gid,
            nlink: self.nlink,
            mtime: self.mtime,
            devmajor: self.devmajor,
            devminor: self.devminor,
            rdevmajor: self.rdevmajor,
            rdevminor: self.rdevminor,
            name: self.name@,
        }
    }
}

impl Default for Header {
    fn default() -> (h: Self)
        ensures
            h@ == (HeaderView {
                ino: 0, mode: 0, uid: 0, gid: 0, nlink: 0, mtime: 0,
                devmajor: 0, devminor: 0, rdevmajor: 0, rdevminor: 0,
                name: Seq::empty(),
            }),
    {
        Header {
            ino: 0,
            mode: 0,
            uid: 0,
            gid: 0,
            nlink: 0,
            mtime: 0,
            devmajor: 0,
            devminor: 0,
            rdevmajor: 0,
            rdevminor: 0,
            name: String::new(),
        }
    }
}

/// A name field that reads as a string: the UTF-8 bytes of the string, then
/// one NUL, with no NUL before it.
pub open spec fn name_is_valid(field: Seq<u8>) -> bool {
    &&& field.len() > 0
    &&& field.last() == 0
    &&& forall|i: int| 0 <= i < field.len() - 1 ==> #[trigger] field[i] != 0
    &&& valid_utf8(field.drop_last())
}

/// The characters of a name field (meaningful where `name_is_valid`).
pub open spec fn name_chars(field: Seq<u8>) -> Seq<char> {
    decode_utf8(field.drop_last())
}

/// The name held by a NUL-terminated name field, if it is one.
pub fn name_from_field(field: &[u8]) -> (r: Option<&str>)
    ensures
        r is Some <==> name_is_valid(field@),
        r matches Some(s) ==> s@ == name_chars(field@),
{
    let n = field.len();
    if n == 0 || field[n - 1] != 0 {
        return None;
    }
    let mut i: usize = 0;
    while i < n - 1
        invariant
            n == field@.len(),
            n > 0,
            i <= n - 1,
            forall|j: int| 0 <= j < i ==> #[trigger] field@[j] != 0,
        decreases n - 1 - i,
    {
        if field[i] == 0 {
            return None;
        }
        i = i + 1;
    }
    let text = vstd::slice::slice_subrange(field, 0, n - 1);
    assert(text@ =~= field@.drop_last());
    str_from_utf8(text)
}

/// A cpio header format: how a header is read from and written to bytes,
/// and what it says of its member.
pub trait CpioHeader: Sized + View {
    /// Reading of a header at `pos` of `s`: the header and the position
    /// after it.
    spec fn spec_read(s: Seq<u8>, pos: int) -> Result<(Self::V, int), FormatError>;

    /// The bytes a header is written as.
    spec fn spec_write(h: Self::V) -> Seq<u8>;

    /// Size of the member's data.
    spec fn spec_filesize(h: Self::V) -> u32;

    /// Size of the name field as the header states it.
    spec fn spec_namesize(h: Self::V) -> u32;

    /// Number of bytes that follow the member's data.
    spec fn spec_data_pad(h: Self::V) -> nat;

    /// The raw bytes of the name field.
    spec fn spec_name_field(h: Self::V) -> Seq<u8>;

    /// The format-independent attributes of a header.
    spec fn spec_into_header(h: Self::V) -> HeaderView;

    /// Inputs on which `from_header` makes a header.
    spec fn spec_from_header_ok(h: HeaderView, filesize: u64) -> bool;

    /// The header that `from_header` makes.
    spec fn spec_from_header(h: HeaderView, filesize: u64) -> Self::V;

    /// A header that is read takes at least one byte, and no more than there are.
    proof fn lemma_read_advances(s: Seq<u8>, pos: int)
        ensures
            Self::spec_read(s, pos) matches Ok((_, end)) ==> 0 <= pos < end <= s.len(),
    ;

    /// Reads a header at `pos`.
    fn read(bytes: &[u8], pos: usize) -> (r: Result<(Self, usize), FormatError>)
        ensures
            match r {
                Ok((h, end)) => Self::spec_read(bytes@, pos as int)
                    == Ok::<(Self::V, int), FormatError>((h@, end as int)),
                Err(e) => Self::spec_read(bytes@, pos as int)
                    == Err::<(Self::V, int), FormatError>(e),
            },
    ;

    /// Appends the header's bytes.
    fn write(&self, out: &mut Vec<u8>)
        ensures
            final(out)@ == old(out)@ + Self::spec_write(self@),
    ;

    fn into_header(&self) -> (r: Header)
        requires
            name_is_valid(Self::spec_name_field(self@)),
        ensures
            r@ == Self::spec_into_header(self@),
    ;

    fn from_header(header: Header, filesize: u64) -> (r: Self)
        requires
            Self::spec_from_header_ok(header@, filesize),
        ensures
            r@ == Self::spec_from_header(header@, filesize),
    ;

    fn ino(&self) -> (r: u32)
        ensures
            r == Self::spec_into_header(self@).ino,
    ;

    fn mode(&self) -> (r: u32)
        ensures
            r == Self::spec_into_header(self@).mode,
    ;

    fn uid(&self) -> (r: u32)
        ensures
            r == Self::spec_into_header(self@).uid,
    ;

    fn gid(&self) -> (r: u32)
        ensures
            r == Self::spec_into_header(self@).gid,
    ;

    fn nlink(&self) -> (r: u32)
        ensures
            r == Self::spec_into_header(self@).nlink,
    ;

    fn mtime(&self) -> (r: u32)
        ensures
            r == Self::spec_into_header(self@).mtime,
    ;

    fn filesize(&self) -> (r: u32)
        ensures
            r == Self::spec_filesize(self@),
    ;

    fn namesize(&self) -> (r: u32)
        ensures
            r == Self::spec_namesize(self@),
    ;

    /// The member's name; the name field must hold a NUL-terminated string.
    fn name(&self) -> (r: &str)
        requires
            name_is_valid(Self::spec_name_field(self@)),
        ensures
            r@ == name_chars(Self::spec_name_field(self@)),
    ;

    /// The member's name where the name field holds a NUL-terminated
    /// string, `None` otherwise.
    fn try_name(&self) -> (r: Option<&str>)
        ensures
            r is Some <==> name_is_valid(Self::spec_name_field(self@)),
            r matches Some(s) ==> s@ == name_chars(Self::spec_name_field(self@)),
    ;

    fn data_pad(&self) -> (r: usize)
        ensures
            r == Self::spec_data_pad(self@),
    ;
}

} // verus!
