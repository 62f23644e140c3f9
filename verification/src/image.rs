//! A `newc` archive held whole: each member with its header, its name and
//! its contents, read from bytes and written back to bytes as held.

use vstd::prelude::*;
use crate::archive::{is_trailer, prepend_objects, trailer_bytes};
use crate::ascii::{read_ascii_fields, spec_read_ascii, spec_read_ascii_fields};
use crate::bytes::{append_bytes, bytes_at, copy_bytes, has_bytes};
use crate::error::FormatError;
use crate::newc::newc_magic;
use crate::pad::{pad_to_4, spec_pad_to_4};

verus! {

/// A numeric field of a header.
#[derive(Debug, Clone, Copy, Default)]
pub struct Ascii {
    pub value: u32,
}

/// Lower-case hexadecimal digit of `d < 16`.
pub open spec fn lower_hex_digit(d: nat) -> u8 {
    if d < 10 {
        (0x30 + d) as u8
    } else {
        (0x57 + d) as u8
    }
}

/// The bytes a field of value `v` is written as: its last `n` lower-case
/// hexadecimal digits, each raised by 0x18 (so that `0` is written `H`).
pub open spec fn shifted_hex_digits(v: nat, n: nat) -> Seq<u8>
    decreases n,
{
    if n == 0 {
        Seq::empty()
    } else {
        shifted_hex_digits(v / 16, (n - 1) as nat).push((lower_hex_digit(v % 16) + 0x18) as u8)
    }
}

/// Appends the last `n` lower-case hexadecimal digits of `v`, each raised by 0x18.
fn push_shifted_hex(v: u32, n: usize, out: &mut Vec<u8>)
    ensures
        final(out)@ == old(out)@ + shifted_hex_digits(v as nat, n as nat),
    decreases n,
{
    if n > 0 {
        push_shifted_hex(v / 16, n - 1, out);
        let d = (v % 16) as u8;
        let c = if d < 10 { 0x30 + d } else { 0x57 + d };
        out.push(c + 0x18);
    }
    assert(out@ =~= old(out)@ + shifted_hex_digits(v as nat, n as nat));
}

impl Ascii {
    /// Reads the field at `pos`: eight bytes, the text of a hexadecimal number.
    pub fn read(bytes: &[u8], pos: usize) -> (r: Result<(u32, usize), FormatError>)
        ensures
            match r {
                Ok((v, end)) => spec_read_ascii(bytes@, pos as int) == Ok::<(u32, int), FormatError>((v, end as int)),
                Err(e) => spec_read_ascii(bytes@, pos as int) == Err::<(u32, int), FormatError>(e),
            },
    {
        crate::ascii::Ascii::read(bytes, pos)
    }

    /// Appends the field: eight lower-case hexadecimal digits, each byte
    /// raised by 0x18. (This is not what `crate::ascii::Ascii::read` reads.)
    pub fn write(&self, out: &mut Vec<u8>)
        ensures
            final(out)@ == old(out)@ + shifted_hex_digits(self.value as nat, 8),
    {
        push_shifted_hex(self.value, 8, out);
    }
}

/// The header of a member: the magic number and thirteen numeric fields.
#[derive(Debug, Clone)]
pub struct CpioNewcHeader {
    pub magic: [u8; 6],
    pub ino: Ascii,
    pub mode: Ascii,
    pub uid: Ascii,
    pub gid: Ascii,
    pub nlink: Ascii,
    pub mtime: Ascii,
    pub filesize: Ascii,
    pub devmajor: Ascii,
    pub devminor: Ascii,
    pub rdevmajor: Ascii,
    pub rdevminor: Ascii,
    pub namesize: Ascii,
    pub check: Ascii,
}

/// A `CpioNewcHeader` as values; `fields` in the order in which they are written.
pub struct CpioNewcHeaderView {
    pub magic: Seq<u8>,
    pub fields: Seq<u32>,
}

impl View for CpioNewcHeader {
    type V = CpioNewcHeaderView;

    open spec fn view(&self) -> CpioNewcHeaderView {
        CpioNewcHeaderView {
            magic: self.magic@,
            fields: seq![
                self.ino.value, self.mode.value, self.uid.value, self.gid.value,
                self.nlink.value, self.mtime.value, self.filesize.value, self.devmajor.value,
                self.devminor.value, self.rdevmajor.value, self.rdevminor.value,
                self.namesize.value, self.check.value,
            ],
        }
    }
}

/// The bytes of consecutive fields as `Ascii::write` writes them.
pub open spec fn shifted_fields(vs: Seq<u32>) -> Seq<u8>
    decreases vs.len(),
{
    if vs.len() == 0 {
        Seq::empty()
    } else {
        shifted_fields(vs.drop_last()) + shifted_hex_digits(vs.last() as nat, 8)
    }
}

/// Reading of a header at `pos`: the magic number, then thirteen fields of
/// eight hexadecimal digits.
pub open spec fn spec_read_image_header(s: Seq<u8>, pos: int) -> Result<(CpioNewcHeaderView, int), FormatError> {
    match bytes_at(s, pos, 6) {
        None => Err(FormatError::Incomplete),
        Some(magic) => if magic != newc_magic() {
            Err(FormatError::BadMagic)
        } else {
            match spec_read_ascii_fields(s, pos + 6, 13) {
                Err(e) => Err(e),
                Ok(fields) => Ok((CpioNewcHeaderView { magic, fields }, pos + 110)),
            }
        },
    }
}

impl CpioNewcHeader {
    /// Reads a header at `pos`.
    pub fn read(bytes: &[u8], pos: usize) -> (r: Result<(Self, usize), FormatError>)
        ensures
            match r {
                Ok((h, end)) => spec_read_image_header(bytes@, pos as int)
                    == Ok::<(CpioNewcHeaderView, int), FormatError>((h@, end as int)),
                Err(e) => spec_read_image_header(bytes@, pos as int)
                    == Err::<(CpioNewcHeaderView, int), FormatError>(e),
            },
    {
        if !has_bytes(bytes, pos, 6) {
            return Err(FormatError::Incomplete);
        }
        let magic: [u8; 6] = [
            bytes[pos], bytes[pos + 1], bytes[pos + 2], bytes[pos + 3], bytes[pos + 4], bytes[pos + 5],
        ];
        assert(magic@ =~= bytes@.subrange(pos as int, pos + 6));
        if !(magic[0] == 0x30 && magic[1] == 0x37 && magic[2] == 0x30 && magic[3] == 0x37
            && magic[4] == 0x30 && magic[5] == 0x31) {
            assert(magic@ != newc_magic()) by {
                if magic@ == newc_magic() {
                    assert(magic@[0] == 0x30 && magic@[1] == 0x37 && magic@[2] == 0x30);
                    assert(magic@[3] == 0x37 && magic@[4] == 0x30 && magic@[5] == 0x31);
                }
            }
            return Err(FormatError::BadMagic);
        }
        assert(magic@ =~= newc_magic());
        let fields = match read_ascii_fields(bytes, pos + 6, 13) {
            Ok(fields) => fields,
            Err(e) => return Err(e),
        };
        proof {
            crate::ascii::lemma_ascii_fields_len(bytes@, pos + 6, 13);
        }
        let h = CpioNewcHeader {
            magic,
            ino: Ascii { value: fields[0] },
            mode: Ascii { value: fields[1] },
            uid: Ascii { value: fields[2] },
            gid: Ascii { value: fields[3] },
            nlink: Ascii { value: fields[4] },
            mtime: Ascii { value: fields[5] },
            filesize: Ascii { value: fields[6] },
            devmajor: Ascii { value: fields[7] },
            devminor: Ascii { value: fields[8] },
            rdevmajor: Ascii { value: fields[9] },
            rdevminor: Ascii { value: fields[10] },
            namesize: Ascii { value: fields[11] },
            check: Ascii { value: fields[12] },
        };
        assert(h@.fields =~= fields@);
        Ok((h, pos + 110))
    }

    /// Appends the header: the magic number as held, then each field as
    /// `Ascii::write` writes it.
    pub fn write(&self, out: &mut Vec<u8>)
        ensures
            final(out)@ == old(out)@ + self@.magic + shifted_fields(self@.fields),
    {
        let mut i: usize = 0;
        while i < 6
            invariant
                i <= 6,
                out@ == old(out)@ + self.magic@.subrange(0, i as int),
            decreases 6 - i,
        {
            out.push(self.magic[i]);
            i = i + 1;
            assert(out@ =~= old(out)@ + self.magic@.subrange(0, i as int));
        }
        assert(self.magic@.subrange(0, 6) =~= self.magic@);
        let ghost m = out@;
        self.ino.write(out);
        self.mode.write(out);
        self.uid.write(out);
        self.gid.write(out);
        self.nlink.write(out);
        self.mtime.write(out);
        self.filesize.write(out);
        self.devmajor.write(out);
        self.devminor.write(out);
        self.rdevmajor.write(out);
        self.rdevminor.write(out);
        self.namesize.write(out);
        self.check.write(out);
        proof {
            let fs = self@.fields;
            reveal_with_fuel(shifted_fields, 14);
            assert(fs.drop_last().drop_last().drop_last().drop_last().drop_last().drop_last().drop_last()
                .drop_last().drop_last().drop_last().drop_last().drop_last().drop_last() =~= Seq::<u32>::empty());
            assert(out@ =~= m + shifted_fields(fs));
        }
    }
}


/// A member: its header, its name (without the NUL that ends it), the
/// name's padding, its contents and their padding.
#[derive(Debug, Clone)]
pub struct Object {
    pub header: CpioNewcHeader,
    pub name: Vec<u8>,
    name_pad: Vec<u8>,
    pub file: Vec<u8>,
    file_pad: Vec<u8>,
}

/// An `Object` as values.
pub struct ObjectImage {
    pub header: CpioNewcHeaderView,
    pub name: Seq<u8>,
    pub name_pad: Seq<u8>,
    pub file: Seq<u8>,
    pub file_pad: Seq<u8>,
}

impl View for Object {
    type V = ObjectImage;

    closed spec fn view(&self) -> ObjectImage {
        ObjectImage {
            header: self.header@,
            name: self.name@,
            name_pad: self.name_pad@,
            file: self.file@,
            file_pad: self.file_pad@,
        }
    }
}

/// Index of the first NUL at or after `from`, if there is one.
pub open spec fn first_nul(s: Seq<u8>, from: int) -> Option<int>
    decreases s.len() - from,
{
    if from < 0 || from >= s.len() {
        None
    } else if s[from] == 0 {
        Some(from)
    } else {
        first_nul(s, from + 1)
    }
}

/// The first NUL lies at or after `from`, within the bytes.
proof fn lemma_first_nul(s: Seq<u8>, from: int)
    ensures
        first_nul(s, from) matches Some(k) ==> from <= k < s.len() && s[k] == 0,
    decreases s.len() - from,
{
    if 0 <= from < s.len() && s[from] != 0 {
        lemma_first_nul(s, from + 1);
    }
}

/// A header that is read lies within the bytes.
proof fn lemma_image_header_len(s: Seq<u8>, pos: int)
    ensures
        spec_read_image_header(s, pos) matches Ok((_, end)) ==> 0 <= pos && end == pos + 110 && end <= s.len(),
{
    crate::ascii::lemma_ascii_fields_len(s, pos + 6, 13);
}

/// Reading of a member at `pos`: the header; the name, up to and including
/// the first NUL, which must be `namesize` bytes in all; the name's padding;
/// `filesize` bytes of contents; and their padding.
pub open spec fn spec_read_image_object(s: Seq<u8>, pos: int) -> Result<(ObjectImage, int), FormatError> {
    match spec_read_image_header(s, pos) {
        Err(e) => Err(e),
        Ok((header, p1)) => match first_nul(s, p1) {
            None => Err(FormatError::Incomplete),
            Some(k) => {
                let name = s.subrange(p1, k);
                let namesize = header.fields[11] as int;
                if namesize == 0 {
                    Err(FormatError::InvalidNameSize)
                } else if name.len() != namesize - 1 {
                    Err(FormatError::NameSizeMismatch)
                } else {
                    let p2 = k + 1;
                    let np = spec_pad_to_4((6 + namesize) as nat);
                    let fs = header.fields[6] as nat;
                    let fp = spec_pad_to_4(fs);
                    match bytes_at(s, p2, np) {
                        None => Err(FormatError::Incomplete),
                        Some(name_pad) => match bytes_at(s, p2 + np, fs) {
                            None => Err(FormatError::Incomplete),
                            Some(file) => match bytes_at(s, p2 + np + fs, fp) {
                                None => Err(FormatError::Incomplete),
                                Some(file_pad) => Ok((
                                    ObjectImage { header, name, name_pad, file, file_pad },
                                    p2 + np + fs + fp,
                                )),
                            },
                        },
                    }
                }
            },
        },
    }
}

/// The bytes of a member: each part as held, the name followed by a NUL.
pub open spec fn spec_write_image_object(o: ObjectImage) -> Seq<u8> {
    o.header.magic + shifted_fields(o.header.fields) + o.name.push(0) + o.name_pad + o.file + o.file_pad
}

/// Index of the first NUL at or after `from`.
fn find_nul(bytes: &[u8], from: usize) -> (r: Option<usize>)
    ensures
        match r {
            Some(k) => first_nul(bytes@, from as int) == Some(k as int),
            None => first_nul(bytes@, from as int) is None,
        },
{
    let mut i = from;
    while i < bytes.len()
        invariant
            from <= i,
            first_nul(bytes@, from as int) == first_nul(bytes@, i as int),
        decreases bytes@.len() - i,
    {
        if bytes[i] == 0 {
            return Some(i);
        }
        i = i + 1;
    }
    None
}

impl Object {
    /// Reads a member at `pos`.
    pub fn read(bytes: &[u8], pos: usize) -> (r: Result<(Self, usize), FormatError>)
        ensures
            match r {
                Ok((o, end)) => spec_read_image_object(bytes@, pos as int)
                    == Ok::<(ObjectImage, int), FormatError>((o@, end as int)),
                Err(e) => spec_read_image_object(bytes@, pos as int)
                    == Err::<(ObjectImage, int), FormatError>(e),
            },
    {
        let (header, p1) = match CpioNewcHeader::read(bytes, pos) {
            Ok(x) => x,
            Err(e) => return Err(e),
        };
        proof {
            lemma_image_header_len(bytes@, pos as int);
            lemma_first_nul(bytes@, p1 as int);
        }
        let k = match find_nul(bytes, p1) {
            Some(k) => k,
            None => return Err(FormatError::Incomplete),
        };
        let name = copy_bytes(bytes, p1, k - p1);
        let namesize = header.namesize.value as usize;
        if namesize == 0 {
            return Err(FormatError::InvalidNameSize);
        }
        if name.len() != namesize - 1 {
            return Err(FormatError::NameSizeMismatch);
        }
        assert(bytes@.len() == bytes.len());
        let p2 = k + 1;
        let np = pad_to_4(6 + (namesize % 4));
        assert(np == spec_pad_to_4((6 + namesize) as nat));
        if !has_bytes(bytes, p2, np) {
            return Err(FormatError::Incomplete);
        }
        let name_pad = copy_bytes(bytes, p2, np);
        let fs = header.filesize.value as usize;
        assert(bytes@.len() == bytes.len());
        if !has_bytes(bytes, p2 + np, fs) {
            return Err(FormatError::Incomplete);
        }
        let file = copy_bytes(bytes, p2 + np, fs);
        let fp = pad_to_4(fs);
        if !has_bytes(bytes, p2 + np + fs, fp) {
            return Err(FormatError::Incomplete);
        }
        let file_pad = copy_bytes(bytes, p2 + np + fs, fp);
        Ok((Object { header, name, name_pad, file, file_pad }, p2 + np + fs + fp))
    }

    /// Appends the member's bytes.
    pub fn write(&self, out: &mut Vec<u8>)
        ensures
            final(out)@ == old(out)@ + spec_write_image_object(self@),
    {
        self.header.write(out);
        append_bytes(out, self.name.as_slice());
        out.push(0);
        append_bytes(out, self.name_pad.as_slice());
        append_bytes(out, self.file.as_slice());
        append_bytes(out, self.file_pad.as_slice());
        assert(out@ =~= old(out)@ + spec_write_image_object(self@));
    }
}

/// A whole archive: its members up to and including the trailer.
#[derive(Debug, Clone)]
pub struct Archive {
    pub objects: Vec<Object>,
}

impl View for Archive {
    type V = Seq<ObjectImage>;

    open spec fn view(&self) -> Seq<ObjectImage> {
        self.objects@.map_values(|o: Object| o@)
    }
}

/// Reading of the members at `pos` up to and including the one named
/// "TRAILER!!!".
#[verifier::opaque]
pub open spec fn spec_read_image_objects(s: Seq<u8>, pos: int) -> Result<Seq<ObjectImage>, FormatError>
    decreases s.len() - pos,
{
    match spec_read_image_object(s, pos) {
        Err(e) => Err(e),
        Ok((o, end)) => if o.name == trailer_bytes() {
            Ok(seq![o])
        } else if end >= s.len() || end <= pos {
            // no next header can be read (a member always takes bytes, so
            // `end <= pos` does not occur; the test bounds the recursion)
            Err(FormatError::Incomplete)
        } else {
            match spec_read_image_objects(s, end) {
                Err(e) => Err(e),
                Ok(rest) => Ok(seq![o] + rest),
            }
        },
    }
}

/// The bytes of members one after another.
pub open spec fn spec_write_image_objects(objs: Seq<ObjectImage>) -> Seq<u8>
    decreases objs.len(),
{
    if objs.len() == 0 {
        Seq::empty()
    } else {
        spec_write_image_objects(objs.drop_last()) + spec_write_image_object(objs.last())
    }
}

/// A member that is read ends after its header.
proof fn lemma_image_object_advances(s: Seq<u8>, pos: int)
    ensures
        spec_read_image_object(s, pos) matches Ok((_, end)) ==> pos < end <= s.len(),
{
    lemma_image_header_len(s, pos);
    if let Ok((h, p1)) = spec_read_image_header(s, pos) {
        lemma_first_nul(s, p1);
    }
}

/// A field is written as `n` bytes.
proof fn lemma_shifted_hex_len(v: nat, n: nat)
    ensures
        shifted_hex_digits(v, n).len() == n,
    decreases n,
{
    if n > 0 {
        lemma_shifted_hex_len(v / 16, (n - 1) as nat);
    }
}

/// Fields are written as eight bytes each.
proof fn lemma_shifted_fields_len(vs: Seq<u32>)
    ensures
        shifted_fields(vs).len() == 8 * vs.len(),
    decreases vs.len(),
{
    if vs.len() > 0 {
        lemma_shifted_fields_len(vs.drop_last());
        lemma_shifted_hex_len(vs.last() as nat, 8);
    }
}

/// A member that is read takes as many bytes as it is written in: it ends
/// where its written bytes would end.
pub proof fn lemma_image_object_extent(s: Seq<u8>, pos: int)
    ensures
        spec_read_image_object(s, pos) matches Ok((o, end)) ==> end == pos + spec_write_image_object(o).len(),
{
    lemma_image_header_len(s, pos);
    crate::ascii::lemma_ascii_fields_len(s, pos + 6, 13);
    if let Ok((o, end)) = spec_read_image_object(s, pos) {
        let p1 = pos + 110;
        lemma_first_nul(s, p1);
        lemma_shifted_fields_len(o.header.fields);
        assert(o.header.magic.len() == 6);
        assert(o.header.fields.len() == 13);
        assert(o.name.len() + 1 + p1 + o.name_pad.len() + o.file.len() + o.file_pad.len() == end);
    }
}

impl Archive {
    /// True when `last_object` is the trailer, "TRAILER!!!".
    pub fn until(last_object: &Object) -> (r: bool)
        ensures
            r == (last_object@.name == trailer_bytes()),
    {
        is_trailer(last_object.name.as_slice())
    }

    /// Reads the members at `pos`, up to and including the trailer, and the
    /// position after them: `pos` and the length of their written bytes.
    pub fn read(bytes: &[u8], pos: usize) -> (r: Result<(Self, usize), FormatError>)
        ensures
            match r {
                Ok((a, end)) => {
                    &&& spec_read_image_objects(bytes@, pos as int) == Ok::<Seq<ObjectImage>, FormatError>(a@)
                    &&& end == pos + spec_write_image_objects(a@).len()
                },
                Err(e) => spec_read_image_objects(bytes@, pos as int) == Err::<Seq<ObjectImage>, FormatError>(e),
            },
    {
        let mut objects: Vec<Object> = Vec::new();
        let mut p = pos;
        assert(objects@.map_values(|o: Object| o@) =~= Seq::<ObjectImage>::empty());
        loop
            invariant
                pos <= p,
                p == pos + spec_write_image_objects(objects@.map_values(|o: Object| o@)).len(),
                spec_read_image_objects(bytes@, pos as int)
                    == prepend_objects(objects@.map_values(|o: Object| o@), spec_read_image_objects(bytes@, p as int)),
            decreases bytes@.len() - p,
        {
            proof {
                reveal(spec_read_image_objects);
                lemma_image_object_advances(bytes@, p as int);
                lemma_image_object_extent(bytes@, p as int);
            }
            let ghost views = objects@.map_values(|o: Object| o@);
            let (o, end) = match Object::read(bytes, p) {
                Ok(x) => x,
                Err(e) => return Err(e),
            };
            let done = Self::until(&o);
            objects.push(o);
            let ghost new_views = objects@.map_values(|o: Object| o@);
            assert(new_views =~= views.push(o@));
            assert(new_views.drop_last() =~= views);
            assert(end == pos + spec_write_image_objects(new_views).len());
            if done {
                assert(views + seq![o@] =~= new_views);
                return Ok((Archive { objects }, end));
            }
            if end >= bytes.len() {
                return Err(FormatError::Incomplete);
            }
            proof {
                if let Ok(rest) = spec_read_image_objects(bytes@, end as int) {
                    assert(views + (seq![o@] + rest) =~= new_views + rest);
                }
            }
            p = end;
        }
    }

    /// Appends every member in order.
    pub fn write(&self, out: &mut Vec<u8>)
        ensures
            final(out)@ == old(out)@ + spec_write_image_objects(self@),
    {
        let mut i: usize = 0;
        while i < self.objects.len()
            invariant
                i <= self@.len(),
                self@.len() == self.objects@.len(),
                out@ == old(out)@ + spec_write_image_objects(self@.subrange(0, i as int)),
            decreases self@.len() - i,
        {
            self.objects[i].write(out);
            i = i + 1;
            assert(self@.subrange(0, i as int).drop_last() =~= self@.subrange(0, i - 1));
            assert(out@ =~= old(out)@ + spec_write_image_objects(self@.subrange(0, i as int)));
        }
        assert(self@.subrange(0, i as int) =~= self@);
    }
}

} // verus!
