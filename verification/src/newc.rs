//! The new (SVR4) portable format, `newc`: numeric fields as eight
//! hexadecimal digits each.

use vstd::prelude::*;
use vstd::utf8::encode_utf8;
use crate::ascii::{
    hex_field_value, lemma_ascii_fields_len, lemma_ascii_fields_round_trip, lemma_ascii_fields_values,
    lemma_write_ascii_fields_at, lemma_write_ascii_fields_len, read_ascii_fields, spec_read_ascii_fields,
    spec_write_ascii, spec_write_ascii_fields, write_ascii_fields, Ascii,
};
use crate::bytes::{append_bytes, bytes_at, copy_bytes, has_bytes, zero_vec, zeros};
use crate::error::FormatError;
use crate::header::{name_chars, name_from_field, CpioHeader, Header, HeaderView};
use crate::pad::{pad_to_4, spec_pad_to_4};

verus! {

/// The magic number that starts a `newc` header: "070701".
pub open spec fn newc_magic() -> Seq<u8> {
    seq![0x30u8, 0x37u8, 0x30u8, 0x37u8, 0x30u8, 0x31u8]
}

/// The new (SVR4) portable format, which supports file systems having more than 65536 i-nodes. (4294967295 bytes)
#[derive(Debug)]
pub struct NewcHeader {
    pub magic: [u8; 6],
    pub ino: Ascii,
    pub mode: Ascii,
    pub uid: Ascii,
    pub gid: Ascii,
    pub nlink: Ascii,
    pub mtime: Ascii,
    pub filesize: Ascii,
    pub devmajor: Ascii,
    pub devminor: Ascii,
    pub rdevmajor: Ascii,
    pub rdevminor: Ascii,
    pub namesize: Ascii,
    pub check: Ascii,
    pub name: Vec<u8>,
    name_pad: Vec<u8>,
}

/// A `newc` header as values. `fields` holds the thirteen numbers in the
/// order in which they are written.
pub struct NewcHeaderView {
    pub magic: Seq<u8>,
    pub fields: Seq<u32>,
    pub name: Seq<u8>,
    pub name_pad: Seq<u8>,
}

impl NewcHeaderView {
    pub open spec fn ino(self) -> u32 { self.fields[0] }
    pub open spec fn mode(self) -> u32 { self.fields[1] }
    pub open spec fn uid(self) -> u32 { self.fields[2] }
    pub open spec fn gid(self) -> u32 { self.fields[3] }
    pub open spec fn nlink(self) -> u32 { self.fields[4] }
    pub open spec fn mtime(self) -> u32 { self.fields[5] }
    pub open spec fn filesize(self) -> u32 { self.fields[6] }
    pub open spec fn devmajor(self) -> u32 { self.fields[7] }
    pub open spec fn devminor(self) -> u32 { self.fields[8] }
    pub open spec fn rdevmajor(self) -> u32 { self.fields[9] }
    pub open spec fn rdevminor(self) -> u32 { self.fields[10] }
    pub open spec fn namesize(self) -> u32 { self.fields[11] }
    pub open spec fn check(self) -> u32 { self.fields[12] }
}

impl View for NewcHeader {
    type V = NewcHeaderView;

    closed spec fn view(&self) -> NewcHeaderView {
        NewcHeaderView {
            magic: self.magic@,
            fields: seq![
                self.ino.value, self.mode.value, self.uid.value, self.gid.value,
                self.nlink.value, self.mtime.value, self.filesize.value, self.devmajor.value,
                self.devminor.value, self.rdevmajor.value, self.rdevminor.value,
                self.namesize.value, self.check.value,
            ],
            name: self.name@,
            name_pad: self.name_pad@,
        }
    }
}

/// Number of padding bytes after a name of `namesize` bytes: the header's
/// 110 bytes and the name together end on a multiple of four.
pub open spec fn newc_name_pad(namesize: nat) -> nat {
    spec_pad_to_4(6 + namesize)
}

/// Reading of a `newc` header at `pos`: the magic number, the thirteen
/// fields, `namesize` bytes of name, then the name's padding.
pub open spec fn spec_read_newc(s: Seq<u8>, pos: int) -> Result<(NewcHeaderView, int), FormatError> {
    match bytes_at(s, pos, 6) {
        None => Err(FormatError::Incomplete),
        Some(magic) => if magic != newc_magic() {
            Err(FormatError::BadMagic)
        } else {
            match spec_read_ascii_fields(s, pos + 6, 13) {
                Err(e) => Err(e),
                Ok(fields) => {
                    let p = pos + 110;
                    let namesize = fields[11] as nat;
                    match bytes_at(s, p, namesize) {
                        None => Err(FormatError::Incomplete),
                        Some(name) => match bytes_at(s, p + namesize, newc_name_pad(namesize)) {
                            None => Err(FormatError::Incomplete),
                            Some(name_pad) => Ok((
                                NewcHeaderView { magic, fields, name, name_pad },
                                p + namesize + newc_name_pad(namesize),
                            )),
                        },
                    }
                },
            }
        },
    }
}

/// The bytes of a `newc` header: each part as it is held, in order.
pub open spec fn spec_write_newc(h: NewcHeaderView) -> Seq<u8> {
    h.magic + spec_write_ascii_fields(h.fields) + h.name + h.name_pad
}

impl NewcHeader {
    /// The thirteen numeric fields in the order in which they are written.
    fn field_values(&self) -> (r: Vec<u32>)
        ensures
            r@ == self@.fields,
    {
        let mut r: Vec<u32> = Vec::new();
        r.push(self.ino.value);
        r.push(self.mode.value);
        r.push(self.uid.value);
        r.push(self.gid.value);
        r.push(self.nlink.value);
        r.push(self.mtime.value);
        r.push(self.filesize.value);
        r.push(self.devmajor.value);
        r.push(self.devminor.value);
        r.push(self.rdevmajor.value);
        r.push(self.rdevminor.value);
        r.push(self.namesize.value);
        r.push(self.check.value);
        assert(r@ =~= self@.fields);
        r
    }

    pub fn devmajor(&self) -> (r: u32)
        ensures
            r == self@.devmajor(),
    {
        self.devmajor.value
    }

    pub fn devminor(&self) -> (r: u32)
        ensures
            r == self@.devminor(),
    {
        self.devminor.value
    }

    pub fn check(&self) -> (r: u32)
        ensures
            r == self@.check(),
    {
        self.check.value
    }
}

impl CpioHeader for NewcHeader {
    open spec fn spec_read(s: Seq<u8>, pos: int) -> Result<(NewcHeaderView, int), FormatError> {
        spec_read_newc(s, pos)
    }

    open spec fn spec_write(h: NewcHeaderView) -> Seq<u8> {
        spec_write_newc(h)
    }

    open spec fn spec_filesize(h: NewcHeaderView) -> u32 {
        h.filesize()
    }

    open spec fn spec_namesize(h: NewcHeaderView) -> u32 {
        h.namesize()
    }

    open spec fn spec_data_pad(h: NewcHeaderView) -> nat {
        spec_pad_to_4(h.filesize() as nat)
    }

    open spec fn spec_name_field(h: NewcHeaderView) -> Seq<u8> {
        h.name
    }

    open spec fn spec_into_header(h: NewcHeaderView) -> HeaderView {
        HeaderView {
            ino: h.ino(),
            mode: h.mode(),
            uid: h.uid(),
            gid: h.gid(),
            nlink: h.nlink(),
            mtime: h.mtime(),
            devmajor: h.devmajor(),
            devminor: h.devminor(),
            rdevmajor: 0,
            rdevminor: 0,
            name: name_chars(h.name),
        }
    }

    open spec fn spec_from_header_ok(h: HeaderView, filesize: u64) -> bool {
        &&& filesize <= u32::MAX
        &&& (encode_utf8(h.name).len() as u32) < u32::MAX
    }

    open spec fn spec_from_header(h: HeaderView, filesize: u64) -> NewcHeaderView {
        let name = encode_utf8(h.name);
        NewcHeaderView {
            magic: newc_magic(),
            fields: seq![
                h.ino, h.mode, h.uid, h.gid, h.nlink, h.mtime, filesize as u32, h.devmajor,
                h.devminor, h.rdevmajor, h.rdevminor, ((name.len() as u32) + 1) as u32, 0u32,
            ],
            name,
            name_pad: zeros(spec_pad_to_4(6 + name.len())),
        }
    }

    proof fn lemma_read_advances(s: Seq<u8>, pos: int) {
        lemma_ascii_fields_len(s, pos + 6, 13);
    }

    fn read(bytes: &[u8], pos: usize) -> (r: Result<(Self, usize), FormatError>) {
        if !has_bytes(bytes, pos, 6) {
            return Err(FormatError::Incomplete);
        }
        let magic: [u8; 6] = [
            bytes[pos], bytes[pos + 1], bytes[pos + 2], bytes[pos + 3], bytes[pos + 4], bytes[pos + 5],
        ];
        assert(magic@ =~= bytes@.subrange(pos as int, pos + 6));
        if !(magic[0] == 0x30 && magic[1] == 0x37 && magic[2] == 0x30 && magic[3] == 0x37
            && magic[4] == 0x30 && magic[5] == 0x31) {
            assert(magic@ != newc_magic()) by {
                if magic@ == newc_magic() {
                    assert(magic@[0] == 0x30 && magic@[1] == 0x37 && magic@[2] == 0x30);
                    assert(magic@[3] == 0x37 && magic@[4] == 0x30 && magic@[5] == 0x31);
                }
            }
            return Err(FormatError::BadMagic);
        }
        assert(magic@ =~= newc_magic());
        let fields = match read_ascii_fields(bytes, pos + 6, 13) {
            Ok(fields) => fields,
            Err(e) => return Err(e),
        };
        proof {
            lemma_ascii_fields_len(bytes@, pos + 6, 13);
        }
        let p = pos + 110;
        let namesize = fields[11];
        if !has_bytes(bytes, p, namesize as usize) {
            return Err(FormatError::Incomplete);
        }
        let name = copy_bytes(bytes, p, namesize as usize);
        let q = p + namesize as usize;
        let pad = pad_to_4(6 + (namesize % 4) as usize);
        assert(pad == newc_name_pad(namesize as nat));
        if !has_bytes(bytes, q, pad) {
            return Err(FormatError::Incomplete);
        }
        let name_pad = copy_bytes(bytes, q, pad);
        let h = NewcHeader {
            magic,
            ino: Ascii::new(fields[0]),
            mode: Ascii::new(fields[1]),
            uid: Ascii::new(fields[2]),
            gid: Ascii::new(fields[3]),
            nlink: Ascii::new(fields[4]),
            mtime: Ascii::new(fields[5]),
            filesize: Ascii::new(fields[6]),
            devmajor: Ascii::new(fields[7]),
            devminor: Ascii::new(fields[8]),
            rdevmajor: Ascii::new(fields[9]),
            rdevminor: Ascii::new(fields[10]),
            namesize: Ascii::new(fields[11]),
            check: Ascii::new(fields[12]),
            name,
            name_pad,
        };
        assert(h@.fields =~= fields@);
        Ok((h, q + pad))
    }

    fn write(&self, out: &mut Vec<u8>) {
        let mut i: usize = 0;
        while i < 6
            invariant
                i <= 6,
                out@ == old(out)@ + self.magic@.subrange(0, i as int),
            decreases 6 - i,
        {
            out.push(self.magic[i]);
            i = i + 1;
            assert(out@ =~= old(out)@ + self.magic@.subrange(0, i as int));
        }
        assert(self.magic@.subrange(0, 6) =~= self.magic@);
        let fields = self.field_values();
        write_ascii_fields(fields.as_slice(), out);
        append_bytes(out, self.name.as_slice());
        append_bytes(out, self.name_pad.as_slice());
        assert(out@ =~= old(out)@ + spec_write_newc(self@));
    }

    fn into_header(&self) -> (r: Header) {
        Header {
            ino: self.ino(),
            mode: self.mode(),
            uid: self.uid(),
            gid: self.gid(),
            nlink: self.nlink(),
            mtime: self.mtime(),
            devmajor: self.devmajor.value,
            devminor: self.devminor.value,
            rdevmajor: 0,
            rdevminor: 0,
            name: self.name().to_string(),
        }
    }

    fn from_header(header: Header, filesize: u64) -> (r: Self) {
        let name_bytes = vstd::slice::slice_to_vec(header.name.as_str().as_bytes());
        let name_len = name_bytes.len();
        let pad = pad_to_4(6 + (name_len % 4));
        assert(pad == spec_pad_to_4((6 + name_len) as nat));
        let r = NewcHeader {
            magic: [0x30, 0x37, 0x30, 0x37, 0x30, 0x31],
            ino: Ascii::new(header.ino),
            mode: Ascii::new(header.mode),
            uid: Ascii::new(header.uid),
            gid: Ascii::new(header.gid),
            nlink: Ascii::new(header.nlink),
            mtime: Ascii::new(header.mtime),
            filesize: Ascii::new(filesize as u32),
            devmajor: Ascii::new(header.devmajor),
            devminor: Ascii::new(header.devminor),
            rdevmajor: Ascii::new(header.rdevmajor),
            rdevminor: Ascii::new(header.rdevminor),
            namesize: Ascii::new(name_len as u32 + 1),
            check: Ascii::new(0),
            name: name_bytes,
            name_pad: zero_vec(pad),
        };
        assert(r@.magic =~= newc_magic());
        assert(r@.fields =~= Self::spec_from_header(header@, filesize).fields);
        r
    }

    fn ino(&self) -> (r: u32) {
        self.ino.value
    }

    fn mode(&self) -> (r: u32) {
        self.mode.value
    }

    fn uid(&self) -> (r: u32) {
        self.uid.value
    }

    fn gid(&self) -> (r: u32) {
        self.gid.value
    }

    fn nlink(&self) -> (r: u32) {
        self.nlink.value
    }

    fn mtime(&self) -> (r: u32) {
        self.mtime.value
    }

    fn filesize(&self) -> (r: u32) {
        self.filesize.value
    }

    fn namesize(&self) -> (r: u32) {
        self.namesize.value
    }

    fn name(&self) -> (r: &str) {
        match name_from_field(self.name.as_slice()) {
            Some(s) => s,
            None => {
                assert(false);
                ""
            },
        }
    }

    fn try_name(&self) -> (r: Option<&str>) {
        name_from_field(self.name.as_slice())
    }

    fn data_pad(&self) -> (r: usize) {
        pad_to_4(self.filesize() as usize)
    }
}

/// A header whose parts agree: the magic number, thirteen fields, a name of
/// `namesize` bytes and the padding that follows such a name.
pub open spec fn newc_consistent(h: NewcHeaderView) -> bool {
    &&& h.magic == newc_magic()
    &&& h.fields.len() == 13
    &&& h.name.len() == h.namesize()
    &&& h.name_pad.len() == newc_name_pad(h.namesize() as nat)
}

/// A consistent header reads back from its bytes as itself, whatever
/// surrounds them.
pub proof fn lemma_newc_round_trip(h: NewcHeaderView, s: Seq<u8>, pos: int)
    requires
        newc_consistent(h),
        0 <= pos,
        pos + spec_write_newc(h).len() <= s.len(),
        s.subrange(pos, pos + spec_write_newc(h).len()) == spec_write_newc(h),
    ensures
        spec_read_newc(s, pos) == Ok::<(NewcHeaderView, int), FormatError>((h, pos + spec_write_newc(h).len())),
{
    let w = spec_write_newc(h);
    let f = spec_write_ascii_fields(h.fields);
    lemma_write_ascii_fields_len(h.fields);
    let ns = h.namesize() as int;
    let np = newc_name_pad(ns as nat) as int;
    assert(w.len() == 110 + ns + np);
    assert(s.subrange(pos, pos + 6) =~= w.subrange(0, 6));
    assert(w.subrange(0, 6) =~= h.magic);
    assert(s.subrange(pos + 6, pos + 110) =~= w.subrange(6, 110));
    assert(w.subrange(6, 110) =~= f);
    lemma_ascii_fields_round_trip(h.fields, s, pos + 6);
    assert(s.subrange(pos + 110, pos + 110 + ns) =~= w.subrange(110, 110 + ns));
    assert(w.subrange(110, 110 + ns) =~= h.name);
    assert(s.subrange(pos + 110 + ns, pos + 110 + ns + np) =~= w.subrange(110 + ns, 110 + ns + np));
    assert(w.subrange(110 + ns, 110 + ns + np) =~= h.name_pad);
}

/// Where field `j` of a header's bytes stands: eight bytes at `6 + 8 * j`.
proof fn lemma_newc_field_bytes(h: NewcHeaderView, j: int)
    requires
        h.magic.len() == 6,
        h.fields.len() == 13,
        0 <= j < 13,
    ensures
        spec_write_newc(h).subrange(0, 6) == h.magic,
        spec_write_newc(h).subrange(6 + 8 * j, 14 + 8 * j) == spec_write_ascii(h.fields[j]),
        spec_write_newc(h).subrange(110, 110 + h.name.len() as int) == h.name,
{
    let f = spec_write_ascii_fields(h.fields);
    let w = spec_write_newc(h);
    lemma_write_ascii_fields_at(h.fields, j);
    assert(w.subrange(0, 6) =~= h.magic);
    assert(w.subrange(6 + 8 * j, 14 + 8 * j) =~= f.subrange(8 * j, 8 * j + 8));
    assert(w.subrange(110, 110 + h.name.len() as int) =~= h.name);
}

/// A `newc` header made from attributes `a` and a size `n` writes each of
/// them in its own field: after the magic number, `ino`, `mode`, `uid`,
/// `gid`, `nlink`, `mtime`, the size, `devmajor`, `devminor`, `rdevmajor`,
/// `rdevminor`, the name's length with its NUL and a zero check, each as
/// eight upper-case hexadecimal digits; then the name, and as many zeros as
/// bring six more than the name's length to a multiple of four.
pub proof fn lemma_newc_from_header_bytes(a: HeaderView, n: u64)
    requires
        NewcHeader::spec_from_header_ok(a, n),
    ensures
        ({
            let w = spec_write_newc(NewcHeader::spec_from_header(a, n));
            let name = encode_utf8(a.name);
            &&& w.subrange(0, 6) == newc_magic()
            &&& w.subrange(6, 14) == spec_write_ascii(a.ino)
            &&& w.subrange(14, 22) == spec_write_ascii(a.mode)
            &&& w.subrange(22, 30) == spec_write_ascii(a.uid)
            &&& w.subrange(30, 38) == spec_write_ascii(a.gid)
            &&& w.subrange(38, 46) == spec_write_ascii(a.nlink)
            &&& w.subrange(46, 54) == spec_write_ascii(a.mtime)
            &&& w.subrange(54, 62) == spec_write_ascii(n as u32)
            &&& w.subrange(62, 70) == spec_write_ascii(a.devmajor)
            &&& w.subrange(70, 78) == spec_write_ascii(a.devminor)
            &&& w.subrange(78, 86) == spec_write_ascii(a.rdevmajor)
            &&& w.subrange(86, 94) == spec_write_ascii(a.rdevminor)
            &&& w.subrange(94, 102) == spec_write_ascii((name.len() as u32 + 1) as u32)
            &&& w.subrange(102, 110) == spec_write_ascii(0)
            &&& w.subrange(110, 110 + name.len() as int) == name
            &&& w.len() == 110 + name.len() + spec_pad_to_4((6 + name.len()) as nat)
            &&& w.subrange(110 + name.len() as int, w.len() as int) == zeros(spec_pad_to_4((6 + name.len()) as nat))
        }),
{
    let h = NewcHeader::spec_from_header(a, n);
    let w = spec_write_newc(h);
    lemma_write_ascii_fields_len(h.fields);
    assert(w.subrange(110 + h.name.len() as int, w.len() as int) =~= h.name_pad);
    assert(h.magic.len() == 6);
    assert(h.fields.len() == 13);
    lemma_newc_field_bytes(h, 0);
    lemma_newc_field_bytes(h, 1);
    lemma_newc_field_bytes(h, 2);
    lemma_newc_field_bytes(h, 3);
    lemma_newc_field_bytes(h, 4);
    lemma_newc_field_bytes(h, 5);
    lemma_newc_field_bytes(h, 6);
    lemma_newc_field_bytes(h, 7);
    lemma_newc_field_bytes(h, 8);
    lemma_newc_field_bytes(h, 9);
    lemma_newc_field_bytes(h, 10);
    lemma_newc_field_bytes(h, 11);
    lemma_newc_field_bytes(h, 12);
}

/// A `newc` header read from bytes reports, as its attributes, the values
/// written in its own fields, by position after the header's start: `ino`
/// the hexadecimal text at bytes 6..14, `mode` 14..22, `uid` 22..30, `gid`
/// 30..38, `nlink` 38..46, `mtime` 46..54, the size 54..62, `devmajor`
/// 62..70, `devminor` 70..78, the name's size 94..102; and its name field
/// is that many bytes after the header's 110.
pub proof fn lemma_newc_read_attributes(s: Seq<u8>, pos: int)
    ensures
        spec_read_newc(s, pos) matches Ok((h, _)) ==> {
            let a = NewcHeader::spec_into_header(h);
            let namesize = NewcHeader::spec_namesize(h) as int;
            &&& hex_field_value(s.subrange(pos + 6, pos + 14)) == Some(a.ino as nat)
            &&& hex_field_value(s.subrange(pos + 14, pos + 22)) == Some(a.mode as nat)
            &&& hex_field_value(s.subrange(pos + 22, pos + 30)) == Some(a.uid as nat)
            &&& hex_field_value(s.subrange(pos + 30, pos + 38)) == Some(a.gid as nat)
            &&& hex_field_value(s.subrange(pos + 38, pos + 46)) == Some(a.nlink as nat)
            &&& hex_field_value(s.subrange(pos + 46, pos + 54)) == Some(a.mtime as nat)
            &&& hex_field_value(s.subrange(pos + 54, pos + 62)) == Some(NewcHeader::spec_filesize(h) as nat)
            &&& hex_field_value(s.subrange(pos + 62, pos + 70)) == Some(a.devmajor as nat)
            &&& hex_field_value(s.subrange(pos + 70, pos + 78)) == Some(a.devminor as nat)
            &&& hex_field_value(s.subrange(pos + 94, pos + 102)) == Some(namesize as nat)
            &&& NewcHeader::spec_name_field(h) == s.subrange(pos + 110, pos + 110 + namesize)
        },
{
    lemma_ascii_fields_values(s, pos + 6, 13);
    lemma_ascii_fields_len(s, pos + 6, 13);
    if let Ok((h, _)) = spec_read_newc(s, pos) {
        let fields = h.fields;
        assert(spec_read_ascii_fields(s, pos + 6, 13) == Ok::<Seq<u32>, FormatError>(fields));
        assert(hex_field_value(s.subrange(pos + 6, pos + 14)) == Some(fields[0] as nat));
        assert(hex_field_value(s.subrange(pos + 6 + 8, pos + 6 + 8 + 8)) == Some(fields[1] as nat));
        assert(hex_field_value(s.subrange(pos + 6 + 16, pos + 6 + 16 + 8)) == Some(fields[2] as nat));
        assert(hex_field_value(s.subrange(pos + 6 + 24, pos + 6 + 24 + 8)) == Some(fields[3] as nat));
        assert(hex_field_value(s.subrange(pos + 6 + 32, pos + 6 + 32 + 8)) == Some(fields[4] as nat));
        assert(hex_field_value(s.subrange(pos + 6 + 40, pos + 6 + 40 + 8)) == Some(fields[5] as nat));
        assert(hex_field_value(s.subrange(pos + 6 + 48, pos + 6 + 48 + 8)) == Some(fields[6] as nat));
        assert(hex_field_value(s.subrange(pos + 6 + 56, pos + 6 + 56 + 8)) == Some(fields[7] as nat));
        assert(hex_field_value(s.subrange(pos + 6 + 64, pos + 6 + 64 + 8)) == Some(fields[8] as nat));
        assert(hex_field_value(s.subrange(pos + 6 + 88, pos + 6 + 88 + 8)) == Some(fields[11] as nat));
    }
}

/// The data of a `newc` member is followed by fewer than four bytes, as
/// many as bring its size to a multiple of four.
pub proof fn lemma_newc_data_pad(h: NewcHeaderView)
    ensures
        NewcHeader::spec_data_pad(h) < 4,
        (NewcHeader::spec_filesize(h) + NewcHeader::spec_data_pad(h)) % 4 == 0,
{
}

} // verus!
