//! Archives: the members of an archive read from its bytes, one member
//! extracted by name, and an archive written from files.

use vstd::prelude::*;
use vstd::utf8::decode_utf8_encode_utf8;
use crate::bytes::{append_bytes, append_zeros, bytes_at, copy_bytes, zero_vec, zeros};
use crate::error::{aborts, CpioError, FormatError};
use crate::header::{name_chars, name_is_valid, CpioHeader, Header, HeaderView};
use crate::pad::{pad_to_4, spec_pad_to_4};

verus! {

/// The bytes of the name that ends an archive, "TRAILER!!!".
pub open spec fn trailer_bytes() -> Seq<u8> {
    seq![0x54u8, 0x52u8, 0x41u8, 0x49u8, 0x4cu8, 0x45u8, 0x52u8, 0x21u8, 0x21u8, 0x21u8]
}

/// True when `b` is "TRAILER!!!".
pub(crate) fn is_trailer(b: &[u8]) -> (r: bool)
    ensures
        r == (b@ == trailer_bytes()),
{
    let r = b.len() == 10 && b[0] == 0x54 && b[1] == 0x52 && b[2] == 0x41 && b[3] == 0x49
        && b[4] == 0x4c && b[5] == 0x45 && b[6] == 0x52 && b[7] == 0x21 && b[8] == 0x21
        && b[9] == 0x21;
    if r {
        assert(b@ =~= trailer_bytes());
    } else {
        assert(b@ != trailer_bytes()) by {
            if b@ == trailer_bytes() {
                assert(b@[0] == 0x54 && b@[1] == 0x52 && b@[2] == 0x41 && b@[3] == 0x49);
                assert(b@[4] == 0x4c && b@[5] == 0x45 && b@[6] == 0x52 && b@[7] == 0x21);
                assert(b@[8] == 0x21 && b@[9] == 0x21);
            }
        }
    }
    r
}

/// Where a member's data is.
pub enum Data {
    /// On read: the position of the data in the archive, whose bytes were
    /// skipped; extracting the member reads them from there.
    Offset(u64),
    /// On write: the data still to be written (empty once written).
    Bytes(Vec<u8>),
}

/// `Data` as values.
pub enum DataView {
    Offset(u64),
    Bytes(Seq<u8>),
}

impl View for Data {
    type V = DataView;

    open spec fn view(&self) -> DataView {
        match self {
            Data::Offset(o) => DataView::Offset(*o),
            Data::Bytes(b) => DataView::Bytes(b@),
        }
    }
}

/// An archive member: a header, where its data is, and the bytes that pad
/// the data.
pub struct Object<C: CpioHeader> {
    pub header: C,
    data: Data,
    data_pad: Vec<u8>,
}

/// An `Object` as values.
pub struct ObjectView<H> {
    pub header: H,
    pub data: DataView,
    pub data_pad: Seq<u8>,
}

impl<C: CpioHeader> View for Object<C> {
    type V = ObjectView<C::V>;

    closed spec fn view(&self) -> ObjectView<C::V> {
        ObjectView { header: self.header@, data: self.data@, data_pad: self.data_pad@ }
    }
}

impl<C: CpioHeader> Object<C> {
    pub fn new(header: C, data: Data) -> (r: Self)
        ensures
            r@ == (ObjectView { header: header@, data: data@, data_pad: zeros(C::spec_data_pad(header@)) }),
    {
        let data_pad = zero_vec(header.data_pad());
        Self { header, data, data_pad }
    }

    /// Where the member's data is.
    pub fn data(&self) -> (r: &Data)
        ensures
            r@ == self@.data,
    {
        &self.data
    }
}

/// Reading of a member at `pos`: its header, then its data, whose position is
/// noted and whose bytes are skipped (they need not all be there), then the
/// padding that the header asks for.
pub open spec fn spec_read_object<C: CpioHeader>(s: Seq<u8>, pos: int) -> Result<(ObjectView<C::V>, int), FormatError> {
    match C::spec_read(s, pos) {
        Err(e) => Err(e),
        Ok((h, p1)) => {
            let p2 = p1 + C::spec_filesize(h);
            let pad = C::spec_data_pad(h);
            if pad == 0 {
                Ok((ObjectView { header: h, data: DataView::Offset(p1 as u64), data_pad: Seq::empty() }, p2))
            } else {
                match bytes_at(s, p2, pad) {
                    None => Err(FormatError::Incomplete),
                    Some(b) => Ok((ObjectView { header: h, data: DataView::Offset(p1 as u64), data_pad: b }, p2 + pad)),
                }
            }
        },
    }
}

/// The member's name field without its terminating NUL.
pub open spec fn name_text<C: CpioHeader>(h: C::V) -> Seq<u8> {
    C::spec_name_field(h).drop_last()
}

/// Reading of the members at `pos` up to and including the one named
/// "TRAILER!!!": each member's name must be a NUL-terminated string.
#[verifier::opaque]
pub open spec fn spec_read_objects<C: CpioHeader>(s: Seq<u8>, pos: int) -> Result<Seq<ObjectView<C::V>>, FormatError>
    decreases s.len() - pos,
{
    match spec_read_object::<C>(s, pos) {
        Err(e) => Err(e),
        Ok((o, end)) => if !name_is_valid(C::spec_name_field(o.header)) {
            Err(FormatError::InvalidName)
        } else if name_text::<C>(o.header) == trailer_bytes() {
            Ok(seq![o])
        } else if end >= s.len() || end <= pos {
            // no next header can be read (a member always takes bytes, so
            // `end <= pos` does not occur; the test bounds the recursion)
            Err(FormatError::Incomplete)
        } else {
            match spec_read_objects::<C>(s, end) {
                Err(e) => Err(e),
                Ok(rest) => Ok(seq![o] + rest),
            }
        },
    }
}

/// A member that is read ends after its header.
proof fn lemma_read_object_advances<C: CpioHeader>(s: Seq<u8>, pos: int)
    ensures
        spec_read_object::<C>(s, pos) matches Ok((_, end)) ==> pos < end,
{
    C::lemma_read_advances(s, pos);
}

/// Reads the member at `pos`; the position after it, where it is within the
/// bytes.
fn read_object<C: CpioHeader>(bytes: &[u8], pos: usize) -> (r: Result<(Object<C>, Option<usize>), FormatError>)
    ensures
        match r {
            Ok((o, next)) => spec_read_object::<C>(bytes@, pos as int) matches Ok((v, end)) && v == o@
                && next == (if end < bytes@.len() { Some(end as usize) } else { None::<usize> }),
            Err(e) => spec_read_object::<C>(bytes@, pos as int) == Err::<(ObjectView<C::V>, int), FormatError>(e),
        },
{
    let (header, p1) = match C::read(bytes, pos) {
        Ok(x) => x,
        Err(e) => return Err(e),
    };
    proof {
        C::lemma_read_advances(bytes@, pos as int);
    }
    let fs = header.filesize();
    let pad = header.data_pad();
    let rest = bytes.len() - p1;
    if pad == 0 {
        let next = if (fs as usize) < rest { Some(p1 + fs as usize) } else { None };
        let o = Object { header, data: Data::Offset(p1 as u64), data_pad: Vec::new() };
        assert(o@.data_pad =~= Seq::<u8>::empty());
        Ok((o, next))
    } else {
        if pad > rest || (fs as usize) > rest - pad {
            return Err(FormatError::Incomplete);
        }
        let p2 = p1 + fs as usize;
        let data_pad = copy_bytes(bytes, p2, pad);
        let next = if p2 + pad < bytes.len() { Some(p2 + pad) } else { None };
        let o = Object { header, data: Data::Offset(p1 as u64), data_pad };
        Ok((o, next))
    }
}

/// The members of an archive, up to and including its trailer.
pub struct Objects<C: CpioHeader> {
    pub inner: Vec<Object<C>>,
}

impl<C: CpioHeader> View for Objects<C> {
    type V = Seq<ObjectView<C::V>>;

    open spec fn view(&self) -> Seq<ObjectView<C::V>> {
        self.inner@.map_values(|o: Object<C>| o@)
    }
}

/// `acc` followed by the members of `r`, or the error of `r`.
pub open spec fn prepend_objects<V>(acc: Seq<V>, r: Result<Seq<V>, FormatError>) -> Result<Seq<V>, FormatError> {
    match r {
        Ok(rest) => Ok(acc + rest),
        Err(e) => Err(e),
    }
}

impl<C: CpioHeader> Objects<C> {
    /// True when `last_object` is the trailer; its name must be a string.
    pub fn until(last_object: &Object<C>) -> (r: bool)
        requires
            name_is_valid(C::spec_name_field(last_object@.header)),
        ensures
            r == (name_text::<C>(last_object@.header) == trailer_bytes()),
    {
        let name = last_object.header.name();
        proof {
            decode_utf8_encode_utf8(C::spec_name_field(last_object@.header).drop_last());
        }
        is_trailer(name.as_bytes())
    }

    /// Reads the members at `pos`, up to and including the trailer.
    pub fn read(bytes: &[u8], pos: usize) -> (r: Result<Self, FormatError>)
        ensures
            match r {
                Ok(objs) => spec_read_objects::<C>(bytes@, pos as int) == Ok::<Seq<ObjectView<C::V>>, FormatError>(objs@),
                Err(e) => spec_read_objects::<C>(bytes@, pos as int) == Err::<Seq<ObjectView<C::V>>, FormatError>(e),
            },
    {
        let mut inner: Vec<Object<C>> = Vec::new();
        let mut p = pos;
        assert(inner@.map_values(|o: Object<C>| o@) =~= Seq::<ObjectView<C::V>>::empty());
        loop
            invariant
                pos <= p,
                spec_read_objects::<C>(bytes@, pos as int)
                    == prepend_objects(inner@.map_values(|o: Object<C>| o@), spec_read_objects::<C>(bytes@, p as int)),
            decreases bytes@.len() - p,
        {
            proof {
                reveal(spec_read_objects);
            }
            let ghost views = inner@.map_values(|o: Object<C>| o@);
            let ghost obj_spec = spec_read_object::<C>(bytes@, p as int);
            let (o, next) = match read_object::<C>(bytes, p) {
                Ok(x) => x,
                Err(e) => {
                    return Err(e);
                },
            };
            proof {
                lemma_read_object_advances::<C>(bytes@, p as int);
            }
            if o.header.try_name().is_none() {
                return Err(FormatError::InvalidName);
            }
            let done = Self::until(&o);
            inner.push(o);
            let ghost new_views = inner@.map_values(|o: Object<C>| o@);
            assert(new_views =~= views.push(o@));
            if done {
                assert(views + seq![o@] =~= new_views);
                return Ok(Objects { inner });
            }
            match next {
                None => {
                    return Err(FormatError::Incomplete);
                },
                Some(n) => {
                    proof {
                        let (v, end) = obj_spec.unwrap();
                        assert(end < bytes@.len());
                        assert(end > p);
                        assert(bytes@.len() == bytes.len());
                        assert(n as int == end);
                    }
                    assert(n > p);
                    proof {
                        if let Ok(rest) = spec_read_objects::<C>(bytes@, n as int) {
                            assert(views + (seq![o@] + rest) =~= new_views + rest);
                        }
                    }
                    p = n;
                },
            }
        }
    }
}


/// The bytes after `offset`, which is what a reader that starts there sees
/// (nothing, where `offset` is past the end).
pub open spec fn stream_from(io: Seq<u8>, offset: u64) -> Seq<u8> {
    if offset <= io.len() {
        io.subrange(offset as int, io.len() as int)
    } else {
        Seq::empty()
    }
}

/// An archive's bytes, read from `offset` on: positions are counted from
/// `offset`.
pub struct ReaderWithOffset {
    io: Vec<u8>,
    /// Offset from start of file to the archive
    offset: u64,
}

impl ReaderWithOffset {
    /// What a reader of this archive sees.
    pub closed spec fn stream(&self) -> Seq<u8> {
        stream_from(self.io@, self.offset)
    }

    pub fn new(io: Vec<u8>, offset: u64) -> (r: Self)
        ensures
            r.stream() == stream_from(io@, offset),
    {
        Self { io, offset }
    }

    /// The bytes that a reader of this archive sees.
    pub fn stream_bytes(&self) -> (r: &[u8])
        ensures
            r@ == self.stream(),
    {
        let len = self.io.len();
        let start: usize = if self.offset <= len as u64 { self.offset as usize } else { len };
        vstd::slice::slice_subrange(self.io.as_slice(), start, len)
    }
}

/// Where a member's data can be extracted from `stream`: it was read (its
/// data has a position) and all of its data is there.
pub open spec fn extract_ok<C: CpioHeader>(stream: Seq<u8>, o: ObjectView<C::V>) -> bool {
    o.data matches DataView::Offset(off) && off + C::spec_filesize(o.header) <= stream.len()
}

/// The data of a member whose data can be extracted.
pub open spec fn extracted<C: CpioHeader>(stream: Seq<u8>, o: ObjectView<C::V>) -> Seq<u8> {
    match o.data {
        DataView::Offset(off) => stream.subrange(off as int, off + C::spec_filesize(o.header)),
        DataView::Bytes(_) => Seq::empty(),
    }
}

/// Readers from which a member's data is extracted.
pub trait CpioReader {
    /// What the reader sees.
    spec fn spec_stream(&self) -> Seq<u8>;

    /// Writes a member's data, read from where the archive holds it.
    fn extract_data<C: CpioHeader>(&self, object: &Object<C>, writer: &mut Vec<u8>) -> (r: Result<(), CpioError>)
        requires
            extract_ok::<C>(self.spec_stream(), object@),
        ensures
            r is Ok,
            final(writer)@ == old(writer)@ + extracted::<C>(self.spec_stream(), object@),
    ;
}

impl CpioReader for ReaderWithOffset {
    open spec fn spec_stream(&self) -> Seq<u8> {
        self.stream()
    }

    fn extract_data<C: CpioHeader>(&self, object: &Object<C>, writer: &mut Vec<u8>) -> (r: Result<(), CpioError>) {
        // found the file, seek forward
        match object.data() {
            Data::Offset(offset) => {
                let stream = self.stream_bytes();
                assert(stream@.len() == stream.len());
                let size = object.header.filesize() as usize;
                let start = *offset as usize;
                let buf = copy_bytes(stream, start, size);
                append_bytes(writer, buf.as_slice());
                Ok(())
            },
            Data::Bytes(_) => {
                assert(false);
                Err(CpioError::StdIo)
            },
        }
    }
}

/// Archives that `from_reader` and `from_reader_with_offset` take: reading
/// them gives members, or an error that `reported` counts.
pub open spec fn archive_accepted<C: CpioHeader>(stream: Seq<u8>) -> bool {
    !(spec_read_objects::<C>(stream, 0) matches Err(e) && aborts(e))
}

/// A member's name field holds `name`.
pub open spec fn name_matches<C: CpioHeader>(o: ObjectView<C::V>, name: Seq<char>) -> bool {
    name_is_valid(C::spec_name_field(o.header)) && name_chars(C::spec_name_field(o.header)) == name
}

/// No member before the `j`-th is named `name`.
pub open spec fn none_before<C: CpioHeader>(objs: Seq<ObjectView<C::V>>, name: Seq<char>, j: int) -> bool {
    forall|k: int| 0 <= k < j ==> !#[trigger] name_matches::<C>(objs[k], name)
}

/// The `j`-th member is the first that is named `name`.
pub open spec fn first_named<C: CpioHeader>(objs: Seq<ObjectView<C::V>>, name: Seq<char>, j: int) -> bool {
    0 <= j < objs.len() && none_before::<C>(objs, name, j) && name_matches::<C>(objs[j], name)
}

/// True when the two byte strings are equal.
fn bytes_eq(x: &[u8], y: &[u8]) -> (r: bool)
    ensures
        r == (x@ == y@),
{
    if x.len() != y.len() {
        return false;
    }
    let mut i: usize = 0;
    while i < x.len()
        invariant
            i <= x@.len(),
            x@.len() == y@.len(),
            x@.subrange(0, i as int) == y@.subrange(0, i as int),
        decreases x@.len() - i,
    {
        if x[i] != y[i] {
            return false;
        }
        i = i + 1;
        assert(x@.subrange(0, i as int) =~= x@.subrange(0, i - 1).push(x@[i - 1]));
        assert(y@.subrange(0, i as int) =~= y@.subrange(0, i - 1).push(y@[i - 1]));
    }
    assert(x@ =~= x@.subrange(0, i as int));
    assert(y@ =~= y@.subrange(0, i as int));
    true
}

/// True when the two strings are equal.
fn str_eq(a: &str, b: &str) -> (r: bool)
    ensures
        r == (a@ == b@),
{
    proof {
        vstd::utf8::encode_utf8_decode_utf8(a@);
        vstd::utf8::encode_utf8_decode_utf8(b@);
    }
    bytes_eq(a.as_bytes(), b.as_bytes())
}

pub struct ArchiveReader<C: CpioHeader> {
    pub reader: ReaderWithOffset,
    pub objects: Objects<C>,
}

impl<C: CpioHeader> ArchiveReader<C> {
    /// Reads the members of the archive that starts at `offset` of `reader`.
    /// It takes any input: input that `from_reader_with_offset` does not take
    /// gives the errors of `aborts`.
    pub fn read_archive(reader: Vec<u8>, offset: u64) -> (r: Result<Self, FormatError>)
        ensures
            match r {
                Ok(a) => {
                    &&& spec_read_objects::<C>(stream_from(reader@, offset), 0)
                        == Ok::<Seq<ObjectView<C::V>>, FormatError>(a.objects@)
                    &&& a.reader.stream() == stream_from(reader@, offset)
                },
                Err(e) => spec_read_objects::<C>(stream_from(reader@, offset), 0)
                    == Err::<Seq<ObjectView<C::V>>, FormatError>(e),
            },
    {
        let reader = ReaderWithOffset::new(reader, offset);
        let objects = match Objects::read(reader.stream_bytes(), 0) {
            Ok(objects) => objects,
            Err(e) => return Err(e),
        };
        Ok(Self { reader, objects })
    }

    pub fn from_reader(reader: Vec<u8>) -> (r: Result<Self, CpioError>)
        requires
            archive_accepted::<C>(stream_from(reader@, 0)),
        ensures
            match spec_read_objects::<C>(stream_from(reader@, 0), 0) {
                Ok(objs) => r matches Ok(a) && a.objects@ == objs && a.reader.stream() == stream_from(reader@, 0),
                Err(e) => r matches Err(CpioError::Format(f)) && f == e,
            },
    {
        Self::from_reader_with_offset(reader, 0)
    }

    pub fn from_reader_with_offset(reader: Vec<u8>, offset: u64) -> (r: Result<Self, CpioError>)
        requires
            archive_accepted::<C>(stream_from(reader@, offset)),
        ensures
            match spec_read_objects::<C>(stream_from(reader@, offset), 0) {
                Ok(objs) => r matches Ok(a) && a.objects@ == objs && a.reader.stream() == stream_from(reader@, offset),
                Err(e) => r matches Err(CpioError::Format(f)) && f == e,
            },
    {
        match Self::read_archive(reader, offset) {
            Ok(a) => Ok(a),
            Err(e) => Err(CpioError::Format(e)),
        }
    }

    /// Writes the data of the first member named `name` and returns its
    /// header; `None` where no member has that name. The names of the
    /// members before it must be strings, and its data must be there.
    pub fn extract_by_name(&self, name: &str, writer: &mut Vec<u8>) -> (r: Result<Option<Header>, CpioError>)
        requires
            forall|j: int| 0 <= j < self.objects@.len() && #[trigger] none_before::<C>(self.objects@, name@, j)
                ==> name_is_valid(C::spec_name_field(self.objects@[j].header)),
            forall|j: int| #[trigger] first_named::<C>(self.objects@, name@, j)
                ==> extract_ok::<C>(self.reader.stream(), self.objects@[j]),
        ensures
            match r {
                Ok(Some(h)) => exists|j: int| #[trigger] first_named::<C>(self.objects@, name@, j)
                    && h@ == C::spec_into_header(self.objects@[j].header)
                    && final(writer)@ == old(writer)@ + extracted::<C>(self.reader.stream(), self.objects@[j]),
                Ok(None) => (forall|j: int| !#[trigger] first_named::<C>(self.objects@, name@, j))
                    && final(writer)@ == old(writer)@,
                Err(_) => false,
            },
    {
        let n = self.objects.inner.len();
        let mut i: usize = 0;
        while i < n
            invariant
                i <= n,
                n == self.objects@.len(),
                none_before::<C>(self.objects@, name@, i as int),
                writer@ == old(writer)@,
                forall|j: int| 0 <= j < self.objects@.len() && #[trigger] none_before::<C>(self.objects@, name@, j)
                    ==> name_is_valid(C::spec_name_field(self.objects@[j].header)),
                forall|j: int| #[trigger] first_named::<C>(self.objects@, name@, j)
                    ==> extract_ok::<C>(self.reader.stream(), self.objects@[j]),
            decreases n - i,
        {
            let object = &self.objects.inner[i];
            assert(self.objects@[i as int] == object@);
            if str_eq(name, object.header.name()) {
                assert(first_named::<C>(self.objects@, name@, i as int));
                let res = self.reader.extract_data(object, writer);
                return Ok(Some(object.header.into_header()));
            }
            assert(!name_matches::<C>(self.objects@[i as int], name@));
            i = i + 1;
            assert forall|k: int| 0 <= k < i implies !#[trigger] name_matches::<C>(self.objects@[k], name@) by {
                if k < i - 1 {
                    assert(none_before::<C>(self.objects@, name@, (i - 1) as int));
                }
            }
        }
        assert forall|j: int| !#[trigger] first_named::<C>(self.objects@, name@, j) by {
            if first_named::<C>(self.objects@, name@, j) {
                assert(!name_matches::<C>(self.objects@[j], name@));
            }
        }
        Ok(None)
    }
}


/// The bytes of a member's data as it is written: the data, then zeros up to
/// a multiple of four.
pub open spec fn data_bytes(d: DataView) -> Seq<u8> {
    match d {
        DataView::Bytes(b) => b + zeros(spec_pad_to_4(b.len())),
        DataView::Offset(_) => Seq::empty(),
    }
}

/// The bytes of a member as it is written: its header, then its data.
pub open spec fn object_bytes<C: CpioHeader>(o: ObjectView<C::V>) -> Seq<u8> {
    C::spec_write(o.header) + data_bytes(o.data)
}

/// The bytes of members as they are written, one after another.
pub open spec fn objects_bytes<C: CpioHeader>(objs: Seq<ObjectView<C::V>>) -> Seq<u8>
    decreases objs.len(),
{
    if objs.len() == 0 {
        Seq::empty()
    } else {
        objects_bytes::<C>(objs.drop_last()) + object_bytes::<C>(objs.last())
    }
}

/// The member after it is written: its data has been read out.
pub open spec fn written<H>(o: ObjectView<H>) -> ObjectView<H> {
    ObjectView { header: o.header, data: DataView::Bytes(Seq::empty()), data_pad: o.data_pad }
}

/// The members after they are written.
pub open spec fn written_all<H>(objs: Seq<ObjectView<H>>) -> Seq<ObjectView<H>> {
    objs.map_values(|o: ObjectView<H>| written(o))
}

/// Every member holds the data that is to be written.
pub open spec fn all_bytes<H>(objs: Seq<ObjectView<H>>) -> bool {
    forall|i: int| 0 <= i < objs.len() ==> (#[trigger] objs[i]).data is Bytes
}

impl Data {
    /// Appends the data and its padding; the data is then used up.
    fn to_mutwriter(&mut self, writer: &mut Vec<u8>)
        requires
            old(self)@ is Bytes,
        ensures
            final(writer)@ == old(writer)@ + data_bytes(old(self)@),
            final(self)@ == DataView::Bytes(Seq::empty()),
    {
        let mut data: Vec<u8> = Vec::new();
        if let Data::Bytes(b) = self {
            std::mem::swap(&mut data, b);
        }
        // write the data
        append_bytes(writer, data.as_slice());
        // add padding
        append_zeros(writer, pad_to_4(data.len()));
        *self = Data::Bytes(Vec::new());
        assert(final(self)@ == DataView::Bytes(Seq::<u8>::empty()));
    }
}

impl<C: CpioHeader> Object<C> {
    /// Appends the member: its header, then its data.
    fn to_mutwriter(&mut self, writer: &mut Vec<u8>)
        requires
            old(self)@.data is Bytes,
        ensures
            final(writer)@ == old(writer)@ + object_bytes::<C>(old(self)@),
            final(self)@ == written(old(self)@),
    {
        self.header.write(writer);
        self.data.to_mutwriter(writer);
        assert(writer@ =~= old(writer)@ + object_bytes::<C>(old(self)@));
    }
}

impl<C: CpioHeader> Objects<C> {
    /// Appends every member in order.
    fn to_mutwriter(&mut self, writer: &mut Vec<u8>)
        requires
            all_bytes(old(self)@),
        ensures
            final(writer)@ == old(writer)@ + objects_bytes::<C>(old(self)@),
            final(self)@ == written_all(old(self)@),
    {
        let mut rest: Vec<Object<C>> = Vec::new();
        std::mem::swap(&mut rest, &mut self.inner);
        let ghost all = rest@.map_values(|o: Object<C>| o@);
        let n = rest.len();
        let mut done: Vec<Object<C>> = Vec::new();
        let mut i: usize = 0;
        assert(all.subrange(0, 0) =~= Seq::<ObjectView<C::V>>::empty());
        while i < n
            invariant
                i <= n,
                n == all.len(),
                all_bytes(all),
                rest@.len() == n - i,
                rest@.map_values(|o: Object<C>| o@) == all.subrange(i as int, n as int),
                done@.map_values(|o: Object<C>| o@) == written_all(all.subrange(0, i as int)),
                writer@ == old(writer)@ + objects_bytes::<C>(all.subrange(0, i as int)),
            decreases n - i,
        {
            let ghost before = rest@.map_values(|o: Object<C>| o@);
            assert(before[0] == rest@[0]@);
            let ghost raw = rest@;
            let mut o = rest.remove(0);
            assert forall|k: int| 0 <= k < rest@.len() implies #[trigger] rest@[k]@ == all[i + 1 + k] by {
                assert(rest@[k] == raw[k + 1]);
                assert(raw[k + 1]@ == before[k + 1]);
            }
            assert(o@ == before[0]);
            assert(o@ == all[i as int]);
            let ghost ov = o@;
            o.to_mutwriter(writer);
            let ghost done_before = done@.map_values(|o: Object<C>| o@);
            done.push(o);
            i = i + 1;
            assert(rest@.map_values(|o: Object<C>| o@) =~= all.subrange(i as int, n as int));
            assert(done@.map_values(|o: Object<C>| o@) =~= done_before.push(written(ov)));
            assert(all.subrange(0, i as int).drop_last() =~= all.subrange(0, i - 1));
            assert(written_all(all.subrange(0, i as int))
                =~= written_all(all.subrange(0, i - 1)).push(written(ov)));
            assert(writer@ =~= old(writer)@ + objects_bytes::<C>(all.subrange(0, i as int)));
        }
        assert(all.subrange(0, n as int) =~= all);
        self.inner = done;
    }
}

/// The attributes of the member that ends an archive: one link, the name
/// "TRAILER!!!", everything else zero.
pub open spec fn trailer_header() -> HeaderView {
    HeaderView {
        ino: 0,
        mode: 0,
        uid: 0,
        gid: 0,
        nlink: 1,
        mtime: 0,
        devmajor: 0,
        devminor: 0,
        rdevmajor: 0,
        rdevminor: 0,
        name: seq!['T', 'R', 'A', 'I', 'L', 'E', 'R', '!', '!', '!'],
    }
}

/// The member that `push_file` adds for a file with the attributes `h` and
/// the contents `contents`.
pub open spec fn pushed<C: CpioHeader>(h: HeaderView, contents: Seq<u8>) -> ObjectView<C::V> {
    let header = C::spec_from_header(h, contents.len() as u64);
    ObjectView { header, data: DataView::Bytes(contents), data_pad: zeros(C::spec_data_pad(header)) }
}

/// Zero bytes written after `used` bytes of members: up to the next multiple
/// of `pad_len` past `used` (a whole block where `used` is a multiple), or
/// none where `pad_len` is zero.
pub open spec fn final_pad(used: nat, pad_len: nat) -> nat {
    if pad_len == 0 {
        0
    } else {
        ((used / pad_len + 1) * pad_len - used) as nat
    }
}

/// The padding of a written archive fills its last block: it is at least one
/// byte and at most a whole block, and ends on a multiple of the block size.
pub proof fn lemma_final_pad(used: nat, pad_len: nat)
    requires
        pad_len > 0,
    ensures
        final_pad(used, pad_len) == (used / pad_len + 1) * pad_len - used,
        1 <= final_pad(used, pad_len) <= pad_len,
        (used + final_pad(used, pad_len)) % pad_len == 0,
{
    let q = used / pad_len;
    let r = used % pad_len;
    vstd::arithmetic::div_mod::lemma_fundamental_div_mod(used as int, pad_len as int);
    assert((q + 1) * pad_len == q * pad_len + pad_len) by (nonlinear_arith);
    assert(q * pad_len == pad_len * q) by (nonlinear_arith);
    assert(used + final_pad(used, pad_len) == (q + 1) * pad_len);
    vstd::arithmetic::div_mod::lemma_mod_multiples_basic((q + 1) as int, pad_len as int);
}

pub struct ArchiveWriter<C: CpioHeader> {
    pub writer: Vec<u8>,
    pub objects: Objects<C>,
    pad_len: u32,
}

impl<C: CpioHeader> ArchiveWriter<C> {
    /// Size of the blocks that a written archive fills.
    pub closed spec fn pad_len(&self) -> u32 {
        self.pad_len
    }

    /// The bytes written so far.
    pub closed spec fn output(&self) -> Seq<u8> {
        self.writer@
    }

    /// The members added so far.
    pub closed spec fn members(&self) -> Seq<ObjectView<C::V>> {
        self.objects@
    }

    pub fn new(writer: Vec<u8>) -> (r: Self)
        ensures
            r.output() == writer@,
            r.members() == Seq::<ObjectView<C::V>>::empty(),
            r.pad_len() == 0x400,
    {
        let r = Self { writer, objects: Objects { inner: Vec::new() }, pad_len: 0x400 };
        assert(r.objects@ =~= Seq::<ObjectView<C::V>>::empty());
        r
    }

    /// Adds a member with the contents `reader` and the attributes of `header`.
    pub fn push_file(&mut self, reader: Vec<u8>, header: Header) -> (r: Result<(), CpioError>)
        requires
            C::spec_from_header_ok(header@, reader@.len() as u64),
        ensures
            r is Ok,
            final(self).output() == old(self).output(),
            final(self).pad_len() == old(self).pad_len(),
            final(self).members() == old(self).members().push(pushed::<C>(header@, reader@)),
    {
        // stream_len
        let filesize = reader.len() as u64;
        let header = C::from_header(header, filesize);
        let object = Object::new(header, Data::Bytes(reader));
        let ghost before = self.objects@;
        self.objects.inner.push(object);
        assert(self.objects@ =~= before.push(object@));
        Ok(())
    }

    /// Writes the archive: a trailer member is added, every member is
    /// written in order, then zeros up to the next multiple of the block
    /// size (see `final_pad`).
    pub fn write(&mut self) -> (r: Result<(), CpioError>)
        requires
            C::spec_from_header_ok(trailer_header(), 0),
            all_bytes(old(self).members()),
            objects_bytes::<C>(old(self).members().push(pushed::<C>(trailer_header(), Seq::empty()))).len() + final_pad(objects_bytes::<C>(old(self).members().push(pushed::<C>(trailer_header(), Seq::empty()))).len(), old(self).pad_len() as nat) <= u32::MAX,
        ensures
            r is Ok,
            ({
                let all = old(self).members().push(pushed::<C>(trailer_header(), Seq::empty()));
                let used = objects_bytes::<C>(all).len();
                &&& final(self).output() == old(self).output() + objects_bytes::<C>(all)
                    + zeros(final_pad(used, old(self).pad_len() as nat))
                &&& final(self).members() == written_all(all)
                &&& final(self).pad_len() == old(self).pad_len()
            }),
    {
        let header = Header {
            ino: 0,
            mode: 0,
            uid: 0,
            gid: 0,
            nlink: 1,
            mtime: 0,
            devmajor: 0,
            devminor: 0,
            rdevmajor: 0,
            rdevminor: 0,
            name: "TRAILER!!!".to_string(),
        };
        proof {
            reveal_strlit("TRAILER!!!");
            assert(header@.name =~= trailer_header().name);
            assert(header@ == trailer_header());
        }

        let ghost all = old(self).members().push(pushed::<C>(trailer_header(), Seq::empty()));
        let ghost used = objects_bytes::<C>(all).len();

        // empty data
        let data: Vec<u8> = Vec::new();
        assert(data@ =~= Seq::<u8>::empty());
        let _ = self.push_file(data, header);
        assert(all_bytes(self.objects@));

        assert(self.objects@ == all);
        assert(self.writer@ == old(self).writer@);
        let start = self.writer.len();
        self.objects.to_mutwriter(&mut self.writer);
        assert(self.writer@ == old(self).writer@ + objects_bytes::<C>(all));

        // pad bytes if required
        let bytes_used = self.writer.len() - start;
        assert(self.objects@ == written_all(all));
        assert(bytes_used == used);
        if self.pad_len != 0 {
            // Pad out to the block size
            let used32 = bytes_used as u32;
            assert(used32 == used);
            assert(self.pad_len == old(self).pad_len());
            let blocks_used: u32 = used32 / self.pad_len;
            assert(blocks_used * self.pad_len <= used32) by (nonlinear_arith)
                requires blocks_used == used32 / self.pad_len, self.pad_len > 0;
            assert((blocks_used + 1) * self.pad_len == blocks_used * self.pad_len + self.pad_len) by (nonlinear_arith);
            let ghost pl = self.pad_len as nat;
            assert(blocks_used == used / pl);
            proof {
                lemma_final_pad(used, pl);
            }
            assert(final_pad(used, pl) == ((used / pl + 1) * pl - used) as nat);
            assert(used + final_pad(used, pl) <= u32::MAX);
            assert(final_pad(used, pl) == (blocks_used + 1) * self.pad_len - used32);
            let total_pad_len = (blocks_used + 1) * self.pad_len;
            let pad_len = total_pad_len - used32;

            // Write 1K at a time
            let mut total_written: u32 = 0;
            while total_written < pad_len
                invariant
                    total_written <= pad_len,
                    self.objects@ == written_all(all),
                    self.pad_len == old(self).pad_len(),
                    self.writer@ == old(self).writer@ + objects_bytes::<C>(old(self).objects@.push(pushed::<C>(trailer_header(), Seq::empty()))) + zeros(total_written as nat),
                decreases pad_len - total_written,
            {
                // check if last block to write
                let len: u32 = if (pad_len - total_written) < 1024 {
                    (pad_len - total_written) % 1024
                } else {
                    // else, full 1K
                    1024
                };
                let ghost before = self.writer@;
                append_zeros(&mut self.writer, len as usize);
                assert(zeros(total_written as nat) + zeros(len as nat) =~= zeros((total_written + len) as nat));
                total_written += len;
                assert(self.writer@ =~= before + zeros(len as nat));
            }
        } else {
            assert(self.writer@ =~= self.writer@ + zeros(0));
            assert(final_pad(used, self.pad_len as nat) == 0);
        }
        assert(self.writer@ == old(self).writer@ + objects_bytes::<C>(all) + zeros(final_pad(used, old(self).pad_len() as nat)));
        assert(self.objects@ == written_all(all));
        Ok(())
    }
}

} // verus!
