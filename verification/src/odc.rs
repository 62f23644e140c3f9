//! The old character format, `odc`: numeric fields as octal digits.

use vstd::prelude::*;
use vstd::utf8::{decode_utf8, encode_utf8};
use crate::bytes::{append_bytes, bytes_at, copy_bytes, has_bytes};
use crate::error::FormatError;
use crate::header::{name_chars, name_from_field, CpioHeader, Header, HeaderView};
use crate::numeric::octal_digits;
use crate::octal::{lemma_octal_round_trip, octal_text_value, spec_read_octal, Octal};

verus! {

/// The magic number that starts an `odc` header: "070707".
pub open spec fn odc_magic() -> Seq<u8> {
    seq![0x30u8, 0x37u8, 0x30u8, 0x37u8, 0x30u8, 0x37u8]
}

#[derive(Debug)]
pub struct OdcHeader {
    pub magic: [u8; 6],
    pub dev: Octal<u32, 6>,
    pub ino: Octal<u32, 6>,
    pub mode: Octal<u32, 6>,
    pub uid: Octal<u32, 6>,
    pub gid: Octal<u32, 6>,
    pub nlink: Octal<u32, 6>,
    pub rdev: Octal<u32, 6>,
    pub mtime: Octal<u64, 11>,
    pub namesize: Octal<u32, 6>,
    pub filesize: Octal<u64, 11>,
    pub name: Vec<u8>,
}

/// An `odc` header as values.
pub struct OdcHeaderView {
    pub magic: Seq<u8>,
    pub dev: u32,
    pub ino: u32,
    pub mode: u32,
    pub uid: u32,
    pub gid: u32,
    pub nlink: u32,
    pub rdev: u32,
    pub mtime: u64,
    pub namesize: u32,
    pub filesize: u64,
    pub name: Seq<u8>,
}

impl View for OdcHeader {
    type V = OdcHeaderView;

    open spec fn view(&self) -> OdcHeaderView {
        OdcHeaderView {
            magic: self.magic@,
            dev: self.dev.value,
            ino: self.ino.value,
            mode: self.mode.value,
            uid: self.uid.value,
            gid: self.gid.value,
            nlink: self.nlink.value,
            rdev: self.rdev.value,
            mtime: self.mtime.value,
            namesize: self.namesize.value,
            filesize: self.filesize.value,
            name: self.name@,
        }
    }
}

/// Offset of numeric field `k` after the magic number: seven fields of six
/// digits, `mtime` of eleven, `namesize` of six, `filesize` of eleven.
pub open spec fn odc_offset(k: nat) -> nat {
    if k <= 7 {
        6 * k
    } else if k == 8 {
        53
    } else {
        59
    }
}

/// Width of numeric field `k`.
pub open spec fn odc_width(k: nat) -> nat {
    if k == 7 || k == 9 {
        11
    } else {
        6
    }
}

/// Largest value of numeric field `k`: `mtime` and `filesize` are 64-bit.
pub open spec fn odc_max(k: nat) -> nat {
    if k == 7 || k == 9 {
        u64::MAX as nat
    } else {
        u32::MAX as nat
    }
}

/// Reading of numeric field `k` of a header at `pos`.
pub open spec fn spec_read_odc_field(s: Seq<u8>, pos: int, k: nat) -> Result<(nat, int), FormatError> {
    spec_read_octal(s, pos + 6 + odc_offset(k), odc_width(k), odc_max(k))
}

/// Reading of the first `k` numeric fields: their values, or the error of the
/// first that fails.
pub open spec fn spec_read_odc_fields(s: Seq<u8>, pos: int, k: nat) -> Result<Seq<nat>, FormatError>
    decreases k,
{
    if k == 0 {
        Ok(Seq::empty())
    } else {
        match spec_read_odc_fields(s, pos, (k - 1) as nat) {
            Err(e) => Err(e),
            Ok(vs) => match spec_read_odc_field(s, pos, (k - 1) as nat) {
                Err(e) => Err(e),
                Ok((v, _)) => Ok(vs.push(v)),
            },
        }
    }
}

/// Reading of an `odc` header at `pos`: the magic number, ten numeric fields
/// (76 bytes in all), then `namesize` bytes of name.
pub open spec fn spec_read_odc(s: Seq<u8>, pos: int) -> Result<(OdcHeaderView, int), FormatError> {
    match bytes_at(s, pos, 6) {
        None => Err(FormatError::Incomplete),
        Some(magic) => if magic != odc_magic() {
            Err(FormatError::BadMagic)
        } else {
            match spec_read_odc_fields(s, pos, 10) {
                Err(e) => Err(e),
                Ok(vs) => {
                    let namesize = vs[8] as u32;
                    match bytes_at(s, pos + 76, namesize as nat) {
                        None => Err(FormatError::Incomplete),
                        Some(name) => Ok((
                            OdcHeaderView {
                                magic,
                                dev: vs[0] as u32,
                                ino: vs[1] as u32,
                                mode: vs[2] as u32,
                                uid: vs[3] as u32,
                                gid: vs[4] as u32,
                                nlink: vs[5] as u32,
                                rdev: vs[6] as u32,
                                mtime: vs[7] as u64,
                                namesize,
                                filesize: vs[9] as u64,
                                name,
                            },
                            pos + 76 + namesize,
                        )),
                    }
                },
            }
        },
    }
}

/// The bytes of an `odc` header: the magic number, each value's octal
/// digits (as many as it has), and the name.
pub open spec fn spec_write_odc(h: OdcHeaderView) -> Seq<u8> {
    h.magic + octal_digits(h.dev as nat) + octal_digits(h.ino as nat) + octal_digits(h.mode as nat)
        + octal_digits(h.uid as nat) + octal_digits(h.gid as nat) + octal_digits(h.nlink as nat)
        + octal_digits(h.rdev as nat) + octal_digits(h.mtime as nat) + octal_digits(h.namesize as nat)
        + octal_digits(h.filesize as nat) + h.name
}

/// Once a field fails, reading more fields fails the same way.
proof fn lemma_odc_fields_err(s: Seq<u8>, pos: int, j: nat, k: nat)
    requires
        j <= k,
        spec_read_odc_fields(s, pos, j) is Err,
    ensures
        spec_read_odc_fields(s, pos, k) == spec_read_odc_fields(s, pos, j),
    decreases k - j,
{
    if j < k {
        lemma_odc_fields_err(s, pos, j, (k - 1) as nat);
    }
}

/// Fields that are read are as many as asked for, each within its bound, and
/// lie within the bytes.
proof fn lemma_odc_fields_ok(s: Seq<u8>, pos: int, k: nat)
    requires
        k <= 10,
    ensures
        spec_read_odc_fields(s, pos, k) matches Ok(vs) ==> {
            &&& vs.len() == k
            &&& forall|i: int| 0 <= i < k ==> #[trigger] vs[i] <= odc_max(i as nat)
            &&& (k > 0 ==> pos + 6 + odc_offset((k - 1) as nat) + odc_width((k - 1) as nat) <= s.len())
        },
    decreases k,
{
    if k > 0 {
        lemma_odc_fields_ok(s, pos, (k - 1) as nat);
        if let Ok(vs) = spec_read_odc_fields(s, pos, k) {
            let prev = spec_read_odc_fields(s, pos, (k - 1) as nat).unwrap();
            let j = (k - 1) as nat;
            let b = bytes_at(s, pos + 6 + odc_offset(j), odc_width(j)).unwrap();
            assert(vs.last() == octal_text_value(vstd::utf8::decode_utf8(b), odc_max(j)));
            assert(vs.last() <= odc_max(j));
            assert(vs == prev.push(vs.last()));
            assert forall|i: int| 0 <= i < k implies #[trigger] vs[i] <= odc_max(i as nat) by {
                if i < k - 1 {
                    assert(vs[i] == prev[i]);
                }
            }
        }
    }
}

/// Reads numeric field `k` as a 64-bit value.
fn read_odc_field(bytes: &[u8], pos: usize, k: usize) -> (r: Result<u64, FormatError>)
    requires
        k < 10,
        pos + 6 + odc_offset(k as nat) <= usize::MAX,
    ensures
        match r {
            Ok(v) => spec_read_odc_field(bytes@, pos as int, k as nat) matches Ok((w, _)) && w == v,
            Err(e) => spec_read_odc_field(bytes@, pos as int, k as nat) == Err::<(nat, int), FormatError>(e),
        },
{
    let off: usize = if k <= 7 { 6 * k } else if k == 8 { 53 } else { 59 };
    if k == 7 || k == 9 {
        match Octal::<u64, 11>::read(bytes, pos + 6 + off) {
            Ok((v, _)) => Ok(v),
            Err(e) => Err(e),
        }
    } else {
        match Octal::<u32, 6>::read(bytes, pos + 6 + off) {
            Ok((v, _)) => Ok(v as u64),
            Err(e) => Err(e),
        }
    }
}

impl CpioHeader for OdcHeader {
    open spec fn spec_read(s: Seq<u8>, pos: int) -> Result<(OdcHeaderView, int), FormatError> {
        spec_read_odc(s, pos)
    }

    open spec fn spec_write(h: OdcHeaderView) -> Seq<u8> {
        spec_write_odc(h)
    }

    open spec fn spec_filesize(h: OdcHeaderView) -> u32 {
        h.filesize as u32
    }

    open spec fn spec_namesize(h: OdcHeaderView) -> u32 {
        h.namesize
    }

    open spec fn spec_data_pad(h: OdcHeaderView) -> nat {
        0
    }

    open spec fn spec_name_field(h: OdcHeaderView) -> Seq<u8> {
        h.name
    }

    open spec fn spec_into_header(h: OdcHeaderView) -> HeaderView {
        HeaderView {
            ino: h.ino,
            mode: h.mode,
            uid: h.uid,
            gid: h.gid,
            nlink: h.nlink,
            mtime: h.mtime as u32,
            devmajor: h.dev,
            devminor: h.rdev,
            rdevmajor: 0,
            rdevminor: 0,
            name: name_chars(h.name),
        }
    }

    open spec fn spec_from_header_ok(h: HeaderView, filesize: u64) -> bool {
        true
    }

    open spec fn spec_from_header(h: HeaderView, filesize: u64) -> OdcHeaderView {
        let name = encode_utf8(h.name);
        OdcHeaderView {
            magic: odc_magic(),
            dev: h.devmajor,
            ino: h.ino,
            mode: h.mode,
            uid: h.uid,
            gid: h.gid,
            nlink: h.nlink,
            rdev: h.devminor,
            mtime: h.mtime as u64,
            namesize: name.len() as u32,
            filesize,
            name,
        }
    }

    proof fn lemma_read_advances(s: Seq<u8>, pos: int) {
        lemma_odc_fields_ok(s, pos, 10);
    }

    fn read(bytes: &[u8], pos: usize) -> (r: Result<(Self, usize), FormatError>) {
        if !has_bytes(bytes, pos, 6) {
            return Err(FormatError::Incomplete);
        }
        let magic: [u8; 6] = [
            bytes[pos], bytes[pos + 1], bytes[pos + 2], bytes[pos + 3], bytes[pos + 4], bytes[pos + 5],
        ];
        assert(magic@ =~= bytes@.subrange(pos as int, pos + 6));
        if !(magic[0] == 0x30 && magic[1] == 0x37 && magic[2] == 0x30 && magic[3] == 0x37
            && magic[4] == 0x30 && magic[5] == 0x37) {
            assert(magic@ != odc_magic()) by {
                if magic@ == odc_magic() {
                    assert(magic@[0] == 0x30 && magic@[1] == 0x37 && magic@[2] == 0x30);
                    assert(magic@[3] == 0x37 && magic@[4] == 0x30 && magic@[5] == 0x37);
                }
            }
            return Err(FormatError::BadMagic);
        }
        assert(magic@ =~= odc_magic());
        let mut vals: Vec<u64> = Vec::new();
        let mut k: usize = 0;
        while k < 10
            invariant
                k <= 10,
                pos + 6 <= bytes@.len(),
                bytes@.len() == bytes.len(),
                bytes_at(bytes@, pos as int, 6) == Some(odc_magic()),
                spec_read_odc_fields(bytes@, pos as int, k as nat) matches Ok(vs) && vs == vals@.map_values(|v: u64| v as nat),
            decreases 10 - k,
        {
            match read_odc_field(bytes, pos, k) {
                Ok(v) => {
                    let ghost old_vals = vals@;
                    vals.push(v);
                    k = k + 1;
                    assert(vals@.map_values(|v: u64| v as nat) =~= old_vals.map_values(|v: u64| v as nat).push(v as nat));
                },
                Err(e) => {
                    proof {
                        assert(spec_read_odc_fields(bytes@, pos as int, (k + 1) as nat)
                            == Err::<Seq<nat>, FormatError>(e));
                        lemma_odc_fields_err(bytes@, pos as int, (k + 1) as nat, 10);
                        assert(spec_read_odc_fields(bytes@, pos as int, 10) == Err::<Seq<nat>, FormatError>(e));
                    }
                    return Err(e);
                },
            }
        }
        proof {
            lemma_odc_fields_ok(bytes@, pos as int, 10);
        }
        let ghost vs = spec_read_odc_fields(bytes@, pos as int, 10).unwrap();
        assert(vs[0] == vals@[0] as nat && vs[1] == vals@[1] as nat && vs[2] == vals@[2] as nat);
        assert(vs[3] == vals@[3] as nat && vs[4] == vals@[4] as nat && vs[5] == vals@[5] as nat);
        assert(vs[6] == vals@[6] as nat && vs[7] == vals@[7] as nat && vs[8] == vals@[8] as nat);
        assert(vs[9] == vals@[9] as nat);
        assert(vs[0] <= odc_max(0) && vs[1] <= odc_max(1) && vs[2] <= odc_max(2) && vs[3] <= odc_max(3));
        assert(vs[4] <= odc_max(4) && vs[5] <= odc_max(5) && vs[6] <= odc_max(6) && vs[8] <= odc_max(8));
        let namesize = vals[8] as u32;
        let p = pos + 76;
        if !has_bytes(bytes, p, namesize as usize) {
            return Err(FormatError::Incomplete);
        }
        let name = copy_bytes(bytes, p, namesize as usize);
        let h = OdcHeader {
            magic,
            dev: Octal::new(vals[0] as u32),
            ino: Octal::new(vals[1] as u32),
            mode: Octal::new(vals[2] as u32),
            uid: Octal::new(vals[3] as u32),
            gid: Octal::new(vals[4] as u32),
            nlink: Octal::new(vals[5] as u32),
            rdev: Octal::new(vals[6] as u32),
            mtime: Octal::new(vals[7]),
            namesize: Octal::new(namesize),
            filesize: Octal::new(vals[9]),
            name,
        };
        Ok((h, p + namesize as usize))
    }

    fn write(&self, out: &mut Vec<u8>) {
        let mut i: usize = 0;
        while i < 6
            invariant
                i <= 6,
                out@ == old(out)@ + self.magic@.subrange(0, i as int),
            decreases 6 - i,
        {
            out.push(self.magic[i]);
            i = i + 1;
            assert(out@ =~= old(out)@ + self.magic@.subrange(0, i as int));
        }
        assert(self.magic@.subrange(0, 6) =~= self.magic@);
        self.dev.write(out);
        self.ino.write(out);
        self.mode.write(out);
        self.uid.write(out);
        self.gid.write(out);
        self.nlink.write(out);
        self.rdev.write(out);
        self.mtime.write(out);
        self.namesize.write(out);
        self.filesize.write(out);
        append_bytes(out, self.name.as_slice());
        assert(out@ =~= old(out)@ + spec_write_odc(self@));
    }

    fn into_header(&self) -> (r: Header) {
        Header {
            ino: self.ino(),
            mode: self.mode(),
            uid: self.uid(),
            gid: self.gid(),
            nlink: self.nlink(),
            mtime: self.mtime(),
            devmajor: self.dev.value,
            devminor: self.rdev.value,
            rdevmajor: 0,
            rdevminor: 0,
            name: self.name().to_string(),
        }
    }

    fn from_header(header: Header, filesize: u64) -> (r: Self) {
        let name_bytes = vstd::slice::slice_to_vec(header.name.as_str().as_bytes());
        let name_len = name_bytes.len();
        let r = OdcHeader {
            magic: [0x30, 0x37, 0x30, 0x37, 0x30, 0x37],
            dev: Octal::new(header.devmajor),
            ino: Octal::new(header.ino),
            mode: Octal::new(header.mode),
            uid: Octal::new(header.uid),
            gid: Octal::new(header.gid),
            nlink: Octal::new(header.nlink),
            rdev: Octal::new(header.devminor),
            mtime: Octal::new(header.mtime as u64),
            namesize: Octal::new(name_len as u32),
            filesize: Octal::new(filesize),
            name: name_bytes,
        };
        assert(r@.magic =~= odc_magic());
        r
    }

    fn ino(&self) -> (r: u32) {
        self.ino.value
    }

    fn mode(&self) -> (r: u32) {
        self.mode.value
    }

    fn uid(&self) -> (r: u32) {
        self.uid.value
    }

    fn gid(&self) -> (r: u32) {
        self.gid.value
    }

    fn nlink(&self) -> (r: u32) {
        self.nlink.value
    }

    fn mtime(&self) -> (r: u32) {
        self.mtime.value as u32
    }

    fn filesize(&self) -> (r: u32) {
        self.filesize.value as u32
    }

    fn namesize(&self) -> (r: u32) {
        self.namesize.value
    }

    fn name(&self) -> (r: &str) {
        match name_from_field(self.name.as_slice()) {
            Some(s) => s,
            None => {
                assert(false);
                ""
            },
        }
    }

    fn try_name(&self) -> (r: Option<&str>) {
        name_from_field(self.name.as_slice())
    }

    fn data_pad(&self) -> (r: usize) {
        0
    }
}

/// An `odc` header whose parts agree: the magic number, each number written
/// in exactly the width of its field, and a name of `namesize` bytes.
pub open spec fn odc_consistent(h: OdcHeaderView) -> bool {
    &&& h.magic == odc_magic()
    &&& octal_digits(h.dev as nat).len() == 6
    &&& octal_digits(h.ino as nat).len() == 6
    &&& octal_digits(h.mode as nat).len() == 6
    &&& octal_digits(h.uid as nat).len() == 6
    &&& octal_digits(h.gid as nat).len() == 6
    &&& octal_digits(h.nlink as nat).len() == 6
    &&& octal_digits(h.rdev as nat).len() == 6
    &&& octal_digits(h.mtime as nat).len() == 11
    &&& octal_digits(h.namesize as nat).len() == 6
    &&& octal_digits(h.filesize as nat).len() == 11
    &&& h.name.len() == h.namesize
}

/// The numbers of a header in the order in which they are written.
pub open spec fn odc_values(h: OdcHeaderView) -> Seq<nat> {
    seq![
        h.dev as nat, h.ino as nat, h.mode as nat, h.uid as nat, h.gid as nat, h.nlink as nat,
        h.rdev as nat, h.mtime as nat, h.namesize as nat, h.filesize as nat,
    ]
}

/// Fields that each read as given read together as given.
proof fn lemma_odc_fields_prefix(s: Seq<u8>, pos: int, vs: Seq<nat>, k: nat)
    requires
        k <= vs.len(),
        forall|j: int| 0 <= j < k ==> (#[trigger] spec_read_odc_field(s, pos, j as nat) matches Ok((v, _)) && v == vs[j]),
    ensures
        spec_read_odc_fields(s, pos, k) == Ok::<Seq<nat>, FormatError>(vs.take(k as int)),
    decreases k,
{
    if k > 0 {
        lemma_odc_fields_prefix(s, pos, vs, (k - 1) as nat);
        assert(spec_read_odc_field(s, pos, (k - 1) as nat) matches Ok((v, _)) && v == vs[k - 1]);
        assert(vs.take(k - 1).push(vs[k - 1]) =~= vs.take(k as int));
    } else {
        assert(vs.take(0) =~= Seq::<nat>::empty());
    }
}

/// Where a part of written bytes stands among the bytes around them.
proof fn lemma_piece(s: Seq<u8>, pos: int, w: Seq<u8>, x: Seq<u8>, y: Seq<u8>)
    requires
        0 <= pos,
        pos + w.len() <= s.len(),
        s.subrange(pos, pos + w.len()) == w,
        (x + y).len() <= w.len(),
        w.subrange(0, (x + y).len() as int) == x + y,
    ensures
        s.subrange(pos + x.len(), pos + x.len() + y.len()) == y,
        w.subrange(0, x.len() as int) == x,
{
    assert(s.subrange(pos + x.len(), pos + x.len() + y.len()) =~= (x + y).subrange(x.len() as int, (x + y).len() as int)) by {
        assert forall|i: int| 0 <= i < y.len() implies s.subrange(pos + x.len(), pos + x.len() + y.len())[i]
            == (x + y).subrange(x.len() as int, (x + y).len() as int)[i] by {
            assert(s[pos + x.len() + i] == w[x.len() + i]);
            assert(w[x.len() + i] == (x + y)[x.len() + i]);
        }
    }
    assert((x + y).subrange(x.len() as int, (x + y).len() as int) =~= y);
    assert(w.subrange(0, x.len() as int) =~= x) by {
        assert forall|i: int| 0 <= i < x.len() implies w.subrange(0, x.len() as int)[i] == x[i] by {
            assert(w[i] == (x + y)[i]);
        }
    }
}

/// Where each part of a consistent header's bytes stands.
proof fn lemma_odc_layout(h: OdcHeaderView, s: Seq<u8>, pos: int)
    requires
        odc_consistent(h),
        0 <= pos,
        pos + spec_write_odc(h).len() <= s.len(),
        s.subrange(pos, pos + spec_write_odc(h).len()) == spec_write_odc(h),
    ensures
        spec_write_odc(h).len() == 76 + h.name.len(),
        s.subrange(pos, pos + 6) == h.magic,
        s.subrange(pos + 76, pos + 76 + h.name.len()) == h.name,
        forall|j: int| 0 <= j < 10 ==> #[trigger] bytes_at(s, pos + 6 + odc_offset(j as nat), odc_width(j as nat))
            == Some(octal_digits(odc_values(h)[j])),
{
    let w = spec_write_odc(h);
    let p0 = h.magic;
    let p1 = p0 + octal_digits(h.dev as nat);
    let p2 = p1 + octal_digits(h.ino as nat);
    let p3 = p2 + octal_digits(h.mode as nat);
    let p4 = p3 + octal_digits(h.uid as nat);
    let p5 = p4 + octal_digits(h.gid as nat);
    let p6 = p5 + octal_digits(h.nlink as nat);
    let p7 = p6 + octal_digits(h.rdev as nat);
    let p8 = p7 + octal_digits(h.mtime as nat);
    let p9 = p8 + octal_digits(h.namesize as nat);
    let p10 = p9 + octal_digits(h.filesize as nat);
    assert(w.subrange(0, w.len() as int) =~= w);
    lemma_piece(s, pos, w, p10, h.name);
    lemma_piece(s, pos, w, p9, octal_digits(h.filesize as nat));
    lemma_piece(s, pos, w, p8, octal_digits(h.namesize as nat));
    lemma_piece(s, pos, w, p7, octal_digits(h.mtime as nat));
    lemma_piece(s, pos, w, p6, octal_digits(h.rdev as nat));
    lemma_piece(s, pos, w, p5, octal_digits(h.nlink as nat));
    lemma_piece(s, pos, w, p4, octal_digits(h.gid as nat));
    lemma_piece(s, pos, w, p3, octal_digits(h.uid as nat));
    lemma_piece(s, pos, w, p2, octal_digits(h.mode as nat));
    lemma_piece(s, pos, w, p1, octal_digits(h.ino as nat));
    lemma_piece(s, pos, w, p0, octal_digits(h.dev as nat));
    assert(Seq::<u8>::empty() + p0 =~= p0);
    lemma_piece(s, pos, w, Seq::<u8>::empty(), p0);
    let vs = odc_values(h);
    assert forall|j: int| 0 <= j < 10 implies #[trigger] bytes_at(s, pos + 6 + odc_offset(j as nat), odc_width(j as nat)) == Some(octal_digits(vs[j])) by {
        if j == 0 {
            assert(p0.len() == 6 + odc_offset(0));
        } else if j == 1 {
            assert(p1.len() == 6 + odc_offset(1));
        } else if j == 2 {
            assert(p2.len() == 6 + odc_offset(2));
        } else if j == 3 {
            assert(p3.len() == 6 + odc_offset(3));
        } else if j == 4 {
            assert(p4.len() == 6 + odc_offset(4));
        } else if j == 5 {
            assert(p5.len() == 6 + odc_offset(5));
        } else if j == 6 {
            assert(p6.len() == 6 + odc_offset(6));
        } else if j == 7 {
            assert(p7.len() == 6 + odc_offset(7));
        } else if j == 8 {
            assert(p8.len() == 6 + odc_offset(8));
        } else if j == 9 {
            assert(p9.len() == 6 + odc_offset(9));
        }
    }
}

/// A field whose bytes are the digits of a value within its bound reads as that value.
proof fn lemma_odc_field_read(s: Seq<u8>, pos: int, j: nat, v: nat)
    requires
        j < 10,
        v <= odc_max(j),
        bytes_at(s, pos + 6 + odc_offset(j), odc_width(j)) == Some(octal_digits(v)),
    ensures
        spec_read_odc_field(s, pos, j) matches Ok((w, _)) && w == v,
{
    lemma_octal_round_trip(v, odc_max(j));
}

/// A consistent header reads back from its bytes as itself, whatever
/// surrounds them. (The writer writes each number in as many digits as it
/// has, so other headers do not read back.)
pub proof fn lemma_odc_round_trip(h: OdcHeaderView, s: Seq<u8>, pos: int)
    requires
        odc_consistent(h),
        0 <= pos,
        pos + spec_write_odc(h).len() <= s.len(),
        s.subrange(pos, pos + spec_write_odc(h).len()) == spec_write_odc(h),
    ensures
        spec_read_odc(s, pos) == Ok::<(OdcHeaderView, int), FormatError>((h, pos + spec_write_odc(h).len())),
{
    lemma_odc_layout(h, s, pos);
    let vs = odc_values(h);
    assert forall|j: int| 0 <= j < 10 implies (#[trigger] spec_read_odc_field(s, pos, j as nat) matches Ok((v, _)) && v == vs[j]) by {
        assert(bytes_at(s, pos + 6 + odc_offset(j as nat), odc_width(j as nat)) == Some(octal_digits(vs[j])));
        assert(vs[j] <= odc_max(j as nat));
        lemma_odc_field_read(s, pos, j as nat, vs[j]);
    }
    lemma_odc_fields_prefix(s, pos, vs, 10);
    assert(vs.take(10) =~= vs);
}

/// Value of the octal text in the `n` bytes at `p`, as a field of at most
/// `max` is read.
pub open spec fn octal_field_at(s: Seq<u8>, p: int, n: nat, max: nat) -> nat {
    octal_text_value(decode_utf8(s.subrange(p, p + n)), max)
}

/// Each field that is read holds the value of its own bytes.
proof fn lemma_odc_fields_values(s: Seq<u8>, pos: int, k: nat)
    requires
        k <= 10,
    ensures
        spec_read_odc_fields(s, pos, k) matches Ok(vs) ==> forall|j: int| 0 <= j < k ==>
            (#[trigger] spec_read_odc_field(s, pos, j as nat) matches Ok((v, _)) && v == vs[j]),
    decreases k,
{
    if k > 0 {
        let j0 = (k - 1) as nat;
        lemma_odc_fields_values(s, pos, j0);
        lemma_odc_fields_ok(s, pos, j0);
        if let Ok(vs) = spec_read_odc_fields(s, pos, k) {
            let prev = spec_read_odc_fields(s, pos, j0).unwrap();
            let v = spec_read_odc_field(s, pos, j0).unwrap().0;
            assert(vs == prev.push(v));
            assert forall|j: int| 0 <= j < k implies
                (#[trigger] spec_read_odc_field(s, pos, j as nat) matches Ok((w, _)) && w == vs[j]) by {
                if j < j0 {
                    assert(vs[j] == prev[j]);
                }
            }
        }
    }
}

/// An `odc` header read from bytes reports, as its attributes, the values
/// of its own fields, by position after the header's start: `devmajor` the
/// octal text at bytes 6..12, `ino` 12..18, `mode` 18..24, `uid` 24..30,
/// `gid` 30..36, `nlink` 36..42, `devminor` 42..48, `mtime` 48..59, the
/// name's size 59..65, the size 65..76; and its name field is that many
/// bytes after the header's 76.
pub proof fn lemma_odc_read_attributes(s: Seq<u8>, pos: int)
    ensures
        spec_read_odc(s, pos) matches Ok((h, _)) ==> {
            let a = OdcHeader::spec_into_header(h);
            let namesize = OdcHeader::spec_namesize(h) as int;
            &&& a.devmajor == octal_field_at(s, pos + 6, 6, u32::MAX as nat)
            &&& a.ino == octal_field_at(s, pos + 12, 6, u32::MAX as nat)
            &&& a.mode == octal_field_at(s, pos + 18, 6, u32::MAX as nat)
            &&& a.uid == octal_field_at(s, pos + 24, 6, u32::MAX as nat)
            &&& a.gid == octal_field_at(s, pos + 30, 6, u32::MAX as nat)
            &&& a.nlink == octal_field_at(s, pos + 36, 6, u32::MAX as nat)
            &&& a.devminor == octal_field_at(s, pos + 42, 6, u32::MAX as nat)
            &&& a.mtime == octal_field_at(s, pos + 48, 11, u64::MAX as nat) as u32
            &&& namesize == octal_field_at(s, pos + 59, 6, u32::MAX as nat)
            &&& OdcHeader::spec_filesize(h) == octal_field_at(s, pos + 65, 11, u64::MAX as nat) as u32
            &&& OdcHeader::spec_name_field(h) == s.subrange(pos + 76, pos + 76 + namesize)
        },
{
    lemma_odc_fields_values(s, pos, 10);
    lemma_odc_fields_ok(s, pos, 10);
    if let Ok((h, _)) = spec_read_odc(s, pos) {
        let vs = spec_read_odc_fields(s, pos, 10).unwrap();
        assert(spec_read_odc_field(s, pos, 0) matches Ok((v, _)) && v == vs[0]);
        assert(spec_read_odc_field(s, pos, 1) matches Ok((v, _)) && v == vs[1]);
        assert(spec_read_odc_field(s, pos, 2) matches Ok((v, _)) && v == vs[2]);
        assert(spec_read_odc_field(s, pos, 3) matches Ok((v, _)) && v == vs[3]);
        assert(spec_read_odc_field(s, pos, 4) matches Ok((v, _)) && v == vs[4]);
        assert(spec_read_odc_field(s, pos, 5) matches Ok((v, _)) && v == vs[5]);
        assert(spec_read_odc_field(s, pos, 6) matches Ok((v, _)) && v == vs[6]);
        assert(spec_read_odc_field(s, pos, 7) matches Ok((v, _)) && v == vs[7]);
        assert(spec_read_odc_field(s, pos, 8) matches Ok((v, _)) && v == vs[8]);
        assert(spec_read_odc_field(s, pos, 9) matches Ok((v, _)) && v == vs[9]);
        assert(vs[0] <= odc_max(0) && vs[1] <= odc_max(1) && vs[2] <= odc_max(2) && vs[3] <= odc_max(3));
        assert(vs[4] <= odc_max(4) && vs[5] <= odc_max(5) && vs[6] <= odc_max(6) && vs[7] <= odc_max(7));
        assert(vs[8] <= odc_max(8) && vs[9] <= odc_max(9));
    }
}

/// An `odc` header made from attributes `a` and a size `n` is written as
/// the magic number, then the octal digits of `devmajor`, `ino`, `mode`,
/// `uid`, `gid`, `nlink`, `devminor` (the field `rdev`), `mtime`, the
/// name's length and the size, then the name.
pub proof fn lemma_odc_from_header_bytes(a: HeaderView, n: u64)
    ensures
        spec_write_odc(OdcHeader::spec_from_header(a, n)) == odc_magic() + octal_digits(a.devmajor as nat)
            + octal_digits(a.ino as nat) + octal_digits(a.mode as nat) + octal_digits(a.uid as nat)
            + octal_digits(a.gid as nat) + octal_digits(a.nlink as nat) + octal_digits(a.devminor as nat)
            + octal_digits(a.mtime as nat) + octal_digits((encode_utf8(a.name).len() as u32) as nat)
            + octal_digits(n as nat) + encode_utf8(a.name),
{
}

/// An `odc` header made from attributes `a` and a size `n` gives back `a`'s
/// `ino`, `mode`, `uid`, `gid`, `nlink`, `mtime`, `devmajor` and `devminor`,
/// and `n` as its size where it fits in 32 bits.
pub proof fn lemma_odc_from_header_kept(a: HeaderView, n: u64)
    ensures
        ({
            let h = OdcHeader::spec_from_header(a, n);
            let b = OdcHeader::spec_into_header(h);
            &&& b.ino == a.ino
            &&& b.mode == a.mode
            &&& b.uid == a.uid
            &&& b.gid == a.gid
            &&& b.nlink == a.nlink
            &&& b.mtime == a.mtime
            &&& b.devmajor == a.devmajor
            &&& b.devminor == a.devminor
            &&& OdcHeader::spec_filesize(h) == n as u32
        }),
{
}

} // verus!
