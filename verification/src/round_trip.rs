//! What a `newc` archive that the writer wrote gives back when it is read.

use vstd::prelude::*;
use vstd::utf8::{encode_utf8, encode_utf8_decode_utf8, encode_utf8_valid_utf8, is_ascii_chars_encode_utf8};
use crate::archive::{
    extract_ok, extracted, final_pad, lemma_final_pad, name_text, object_bytes, objects_bytes, pushed,
    spec_read_object, spec_read_objects, trailer_bytes, trailer_header, DataView, ObjectView,
};
use crate::ascii::{lemma_ascii_fields_round_trip, lemma_write_ascii_fields_len, spec_write_ascii_fields};
use crate::bytes::zeros;
use crate::header::{name_chars, name_is_valid, CpioHeader, HeaderView};
use crate::newc::{newc_magic, spec_read_newc, NewcHeader, NewcHeaderView};
use crate::pad::spec_pad_to_4;

verus! {

/// The attributes that a `newc` member gives back: all but the device
/// numbers of a special file, which read back as zero.
pub open spec fn newc_kept(h: HeaderView) -> HeaderView {
    HeaderView {
        ino: h.ino,
        mode: h.mode,
        uid: h.uid,
        gid: h.gid,
        nlink: h.nlink,
        mtime: h.mtime,
        devmajor: h.devmajor,
        devminor: h.devminor,
        rdevmajor: 0,
        rdevminor: 0,
        name: h.name,
    }
}

/// A file that a `newc` archive gives back as it was added: its contents fit
/// the format, and its name has no NUL and a length in bytes that is not two
/// more than a multiple of four (the writer leaves out the name's NUL, and
/// only the padding after such names supplies one).
pub open spec fn newc_file_ok(h: HeaderView, contents: Seq<u8>) -> bool {
    let name = encode_utf8(h.name);
    &&& contents.len() <= u32::MAX
    &&& name.len() + 1 < u32::MAX
    &&& name.len() % 4 != 2
    &&& forall|i: int| 0 <= i < name.len() ==> #[trigger] name[i] != 0
}

/// The members that the writer writes for `files`, then its trailer.
pub open spec fn newc_members(files: Seq<(HeaderView, Seq<u8>)>) -> Seq<ObjectView<NewcHeaderView>> {
    files.map_values(|f: (HeaderView, Seq<u8>)| pushed::<NewcHeader>(f.0, f.1)).push(
        pushed::<NewcHeader>(trailer_header(), Seq::empty()),
    )
}

/// The bytes of members one after another split where the members are split.
proof fn lemma_objects_bytes_concat<C: CpioHeader>(a: Seq<ObjectView<C::V>>, b: Seq<ObjectView<C::V>>)
    ensures
        objects_bytes::<C>(a + b) == objects_bytes::<C>(a) + objects_bytes::<C>(b),
    decreases b.len(),
{
    if b.len() == 0 {
        assert(a + b =~= a);
        assert(objects_bytes::<C>(a) + objects_bytes::<C>(b) =~= objects_bytes::<C>(a));
    } else {
        lemma_objects_bytes_concat::<C>(a, b.drop_last());
        assert((a + b).drop_last() =~= a + b.drop_last());
        assert((a + b).last() == b.last());
        assert(objects_bytes::<C>(a + b) =~= objects_bytes::<C>(a) + objects_bytes::<C>(b));
    }
}

/// Where member `i` starts, and that its bytes stand there.
proof fn lemma_member_at<C: CpioHeader>(objs: Seq<ObjectView<C::V>>, i: int)
    requires
        0 <= i < objs.len(),
    ensures
        objects_bytes::<C>(objs.take(i + 1)) == objects_bytes::<C>(objs.take(i)) + object_bytes::<C>(objs[i]),
        objects_bytes::<C>(objs) == objects_bytes::<C>(objs.take(i)) + object_bytes::<C>(objs[i])
            + objects_bytes::<C>(objs.skip(i + 1)),
{
    assert(objs.take(i + 1).drop_last() =~= objs.take(i));
    lemma_objects_bytes_concat::<C>(objs.take(i + 1), objs.skip(i + 1));
    assert(objs.take(i + 1) + objs.skip(i + 1) =~= objs);
}

/// A header that `from_header` made, followed by a NUL, reads back with that
/// NUL as the end of its name.
proof fn lemma_newc_written_header_read(h: HeaderView, size: u64, s: Seq<u8>, p: int)
    requires
        size <= u32::MAX,
        encode_utf8(h.name).len() + 1 < u32::MAX,
        forall|i: int| 0 <= i < encode_utf8(h.name).len() ==> #[trigger] encode_utf8(h.name)[i] != 0,
        0 <= p,
        ({
            let hdr = NewcHeader::spec_from_header(h, size);
            let len = encode_utf8(h.name).len();
            &&& p + 111 + len + spec_pad_to_4(7 + len) <= s.len()
            &&& s.subrange(p, p + 110 + len) == hdr.magic + spec_write_ascii_fields(hdr.fields) + hdr.name
            &&& s[p + 110 + len] == 0
        }),
    ensures
        ({
            let hdr = NewcHeader::spec_from_header(h, size);
            let len = encode_utf8(h.name).len();
            spec_read_newc(s, p) matches Ok((v, end)) && {
                &&& end == p + 111 + len + spec_pad_to_4(7 + len)
                &&& v.name == hdr.name.push(0)
                &&& name_is_valid(v.name)
                &&& name_chars(v.name) == h.name
                &&& NewcHeader::spec_into_header(v) == newc_kept(h)
                &&& NewcHeader::spec_filesize(v) == size
                &&& NewcHeader::spec_data_pad(v) == spec_pad_to_4(size as nat)
            }
        }),
{
    let hdr = NewcHeader::spec_from_header(h, size);
    let name = encode_utf8(h.name);
    let len = name.len() as int;
    let prefix = hdr.magic + spec_write_ascii_fields(hdr.fields) + hdr.name;
    lemma_write_ascii_fields_len(hdr.fields);
    assert(hdr.fields.len() == 13);
    assert(s.subrange(p, p + 6) =~= prefix.subrange(0, 6));
    assert(prefix.subrange(0, 6) =~= newc_magic());
    assert(s.subrange(p + 6, p + 110) =~= prefix.subrange(6, 110));
    assert(prefix.subrange(6, 110) =~= spec_write_ascii_fields(hdr.fields));
    lemma_ascii_fields_round_trip(hdr.fields, s, p + 6);
    assert(hdr.fields[11] == len + 1);
    assert(s.subrange(p + 110, p + 111 + len) =~= name.push(0)) by {
        assert forall|i: int| 0 <= i < len implies s.subrange(p + 110, p + 111 + len)[i] == name[i] by {
            assert(s[p + 110 + i] == prefix[110 + i]);
        }
    }
    let v = spec_read_newc(s, p).unwrap().0;
    assert(v.name == name.push(0));
    assert(v.name.drop_last() =~= name);
    encode_utf8_valid_utf8(h.name);
    encode_utf8_decode_utf8(h.name);
    assert(name_is_valid(v.name));
    assert(v.fields == hdr.fields);
}

/// The bytes of the name "TRAILER!!!".
proof fn lemma_trailer_name()
    ensures
        encode_utf8(trailer_header().name) == trailer_bytes(),
{
    let cs = trailer_header().name;
    assert(vstd::utf8::is_ascii_chars(cs));
    is_ascii_chars_encode_utf8(cs);
    assert(encode_utf8(cs) =~= trailer_bytes());
}

/// A file's member reads back from the bytes it was written as, with the
/// file's attributes and contents.
proof fn lemma_file_member_read(h: HeaderView, contents: Seq<u8>, s: Seq<u8>, p: int)
    requires
        newc_file_ok(h, contents),
        0 <= p,
        s.len() <= u32::MAX,
        p + object_bytes::<NewcHeader>(pushed::<NewcHeader>(h, contents)).len() <= s.len(),
        s.subrange(p, p + object_bytes::<NewcHeader>(pushed::<NewcHeader>(h, contents)).len())
            == object_bytes::<NewcHeader>(pushed::<NewcHeader>(h, contents)),
    ensures
        spec_read_object::<NewcHeader>(s, p) matches Ok((v, end)) && {
            &&& end == p + object_bytes::<NewcHeader>(pushed::<NewcHeader>(h, contents)).len()
            &&& name_is_valid(NewcHeader::spec_name_field(v.header))
            &&& name_text::<NewcHeader>(v.header) == encode_utf8(h.name)
            &&& NewcHeader::spec_into_header(v.header) == newc_kept(h)
            &&& extract_ok::<NewcHeader>(s, v)
            &&& extracted::<NewcHeader>(s, v) == contents
            &&& gives_back(v, (h, contents), s)
        },
{
    reveal(gives_back);
    let size = contents.len() as u64;
    let hdr = NewcHeader::spec_from_header(h, size);
    let name = encode_utf8(h.name);
    let len = name.len() as int;
    let w = object_bytes::<NewcHeader>(pushed::<NewcHeader>(h, contents));
    let hw = NewcHeader::spec_write(hdr);
    let np = spec_pad_to_4((6 + len) as nat);
    lemma_write_ascii_fields_len(hdr.fields);
    assert(hw == hdr.magic + spec_write_ascii_fields(hdr.fields) + hdr.name + zeros(np));
    assert(hw.len() == 110 + len + np);
    assert(np >= 1);
    assert(spec_pad_to_4((7 + len) as nat) == np - 1);
    let dp = spec_pad_to_4(contents.len());
    assert(w =~= hw + (contents + zeros(dp)));
    assert(s.subrange(p, p + 110 + len) =~= w.subrange(0, 110 + len));
    assert(w.subrange(0, 110 + len) =~= hdr.magic + spec_write_ascii_fields(hdr.fields) + hdr.name);
    assert(s[p + 110 + len] == w[110 + len]);
    lemma_newc_written_header_read(h, size, s, p);
    let p1 = p + hw.len();
    assert(s.subrange(p1, p1 + contents.len()) =~= contents) by {
        assert forall|i: int| 0 <= i < contents.len() implies s.subrange(p1, p1 + contents.len())[i] == contents[i] by {
            assert(s[p1 + i] == w[hw.len() + i]);
        }
    }
    let (v, end) = spec_read_object::<NewcHeader>(s, p).unwrap();
    assert(v.data == DataView::Offset(p1 as u64));
    lemma_trailer_name();
    assert(v.header.name.drop_last() =~= name);
}

/// The trailer's member reads back from its bytes followed by four zeros.
proof fn lemma_trailer_member_read(s: Seq<u8>, p: int)
    requires
        0 <= p,
        p + object_bytes::<NewcHeader>(pushed::<NewcHeader>(trailer_header(), Seq::empty())).len() + 4 <= s.len(),
        s.subrange(p, p + object_bytes::<NewcHeader>(pushed::<NewcHeader>(trailer_header(), Seq::empty())).len())
            == object_bytes::<NewcHeader>(pushed::<NewcHeader>(trailer_header(), Seq::empty())),
        s[p + object_bytes::<NewcHeader>(pushed::<NewcHeader>(trailer_header(), Seq::empty())).len()] == 0,
    ensures
        spec_read_object::<NewcHeader>(s, p) matches Ok((v, end)) && {
            &&& name_is_valid(NewcHeader::spec_name_field(v.header))
            &&& name_text::<NewcHeader>(v.header) == trailer_bytes()
        },
{
    let h = trailer_header();
    lemma_trailer_name();
    let hdr = NewcHeader::spec_from_header(h, 0);
    let name = encode_utf8(h.name);
    assert(name.len() == 10);
    let w = object_bytes::<NewcHeader>(pushed::<NewcHeader>(h, Seq::empty()));
    lemma_write_ascii_fields_len(hdr.fields);
    assert(spec_pad_to_4(16) == 0);
    assert(w =~= hdr.magic + spec_write_ascii_fields(hdr.fields) + hdr.name);
    assert(w.len() == 120);
    assert forall|i: int| 0 <= i < name.len() implies #[trigger] name[i] != 0 by {
        assert(name[i] == trailer_bytes()[i]);
    }
    assert(s.subrange(p, p + 120) =~= w);
    lemma_newc_written_header_read(h, 0, s, p);
    let (v, end) = spec_read_object::<NewcHeader>(s, p).unwrap();
    assert(v.header.name.drop_last() =~= name);
}


/// A member that was read gives back the file: its attributes (see
/// `newc_kept`) and its contents, which are all there.
#[verifier::opaque]
pub open spec fn gives_back(v: ObjectView<NewcHeaderView>, file: (HeaderView, Seq<u8>), archive: Seq<u8>) -> bool {
    &&& NewcHeader::spec_into_header(v.header) == newc_kept(file.0)
    &&& extract_ok::<NewcHeader>(archive, v)
    &&& extracted::<NewcHeader>(archive, v) == file.1
}

/// A file's member and the trailer are written in a multiple of four bytes.
proof fn lemma_member_aligned(o: ObjectView<NewcHeaderView>, h: HeaderView, contents: Seq<u8>)
    requires
        o == pushed::<NewcHeader>(h, contents),
    ensures
        object_bytes::<NewcHeader>(o).len() % 4 == 0,
{
    let hdr = NewcHeader::spec_from_header(h, contents.len() as u64);
    lemma_write_ascii_fields_len(hdr.fields);
    let len = encode_utf8(h.name).len();
    assert(NewcHeader::spec_write(hdr).len() == 110 + len + spec_pad_to_4((6 + len) as nat));
}

/// Members each written in a multiple of four bytes are so together.
proof fn lemma_objects_aligned(objs: Seq<ObjectView<NewcHeaderView>>)
    requires
        forall|i: int| 0 <= i < objs.len() ==> #[trigger] object_bytes::<NewcHeader>(objs[i]).len() % 4 == 0,
    ensures
        objects_bytes::<NewcHeader>(objs).len() % 4 == 0,
    decreases objs.len(),
{
    if objs.len() > 0 {
        assert forall|i: int| 0 <= i < objs.drop_last().len() implies #[trigger] object_bytes::<NewcHeader>(objs.drop_last()[i]).len() % 4 == 0 by {
            assert(objs.drop_last()[i] == objs[i]);
        }
        lemma_objects_aligned(objs.drop_last());
        assert(object_bytes::<NewcHeader>(objs[objs.len() - 1]).len() % 4 == 0);
    }
}

/// Where member `i` of written members stands in the written archive.
proof fn lemma_layout(objs: Seq<ObjectView<NewcHeaderView>>, fp: nat, i: int)
    requires
        0 <= i < objs.len(),
    ensures
        ({
            let b = objects_bytes::<NewcHeader>(objs) + zeros(fp);
            let p = objects_bytes::<NewcHeader>(objs.take(i)).len() as int;
            let w = object_bytes::<NewcHeader>(objs[i]);
            &&& p + w.len() <= b.len()
            &&& b.subrange(p, p + w.len()) == w
            &&& objects_bytes::<NewcHeader>(objs.take(i + 1)).len() == p + w.len()
            &&& i == objs.len() - 1 ==> b.len() == p + w.len() + fp
                && forall|j: int| 0 <= j < fp ==> #[trigger] b[p + w.len() + j] == 0
            &&& i < objs.len() - 1 ==> p + w.len() + object_bytes::<NewcHeader>(objs[i + 1]).len() <= b.len()
        }),
{
    let b = objects_bytes::<NewcHeader>(objs) + zeros(fp);
    let prefix = objects_bytes::<NewcHeader>(objs.take(i));
    let p = prefix.len() as int;
    let w = object_bytes::<NewcHeader>(objs[i]);
    lemma_member_at::<NewcHeader>(objs, i);
    let rest = objects_bytes::<NewcHeader>(objs.skip(i + 1));
    assert(b =~= prefix + w + (rest + zeros(fp)));
    assert(b.subrange(p, p + w.len()) =~= w);
    if i == objs.len() - 1 {
        assert(objs.skip(i + 1) =~= Seq::<ObjectView<NewcHeaderView>>::empty());
        assert(rest =~= Seq::<u8>::empty());
        assert forall|j: int| 0 <= j < fp implies #[trigger] b[p + w.len() + j] == 0 by {
            assert(b[p + w.len() + j] == zeros(fp)[j]);
        }
    } else {
        lemma_member_at::<NewcHeader>(objs, i + 1);
    }
}

/// Reading members steps from one member to the next.
proof fn lemma_objects_step(b: Seq<u8>, p: int, v: ObjectView<NewcHeaderView>, end: int, r2: Seq<ObjectView<NewcHeaderView>>)
    requires
        spec_read_object::<NewcHeader>(b, p) == Ok::<(ObjectView<NewcHeaderView>, int), crate::error::FormatError>((v, end)),
        name_is_valid(NewcHeader::spec_name_field(v.header)),
        name_text::<NewcHeader>(v.header) != trailer_bytes(),
        p < end < b.len(),
        spec_read_objects::<NewcHeader>(b, end) == Ok::<Seq<ObjectView<NewcHeaderView>>, crate::error::FormatError>(r2),
    ensures
        spec_read_objects::<NewcHeader>(b, p) == Ok::<Seq<ObjectView<NewcHeaderView>>, crate::error::FormatError>(seq![v] + r2),
{
    reveal(spec_read_objects);
}

/// Reading members stops at the trailer.
proof fn lemma_objects_last(b: Seq<u8>, p: int, v: ObjectView<NewcHeaderView>, end: int)
    requires
        spec_read_object::<NewcHeader>(b, p) == Ok::<(ObjectView<NewcHeaderView>, int), crate::error::FormatError>((v, end)),
        name_is_valid(NewcHeader::spec_name_field(v.header)),
        name_text::<NewcHeader>(v.header) == trailer_bytes(),
    ensures
        spec_read_objects::<NewcHeader>(b, p) == Ok::<Seq<ObjectView<NewcHeaderView>>, crate::error::FormatError>(seq![v]),
{
    reveal(spec_read_objects);
}

/// The `i`-th written member.
proof fn lemma_member_index(files: Seq<(HeaderView, Seq<u8>)>, i: int)
    requires
        0 <= i <= files.len(),
    ensures
        newc_members(files).len() == files.len() + 1,
        i < files.len() ==> newc_members(files)[i] == pushed::<NewcHeader>(files[i].0, files[i].1),
        i == files.len() ==> newc_members(files)[i] == pushed::<NewcHeader>(trailer_header(), Seq::empty()),
{
}

/// A written member takes at least the six bytes of its magic number.
proof fn lemma_member_nonempty(h: HeaderView, contents: Seq<u8>)
    ensures
        object_bytes::<NewcHeader>(pushed::<NewcHeader>(h, contents)).len() >= 6,
{
}

/// A file's member followed by the members after it.
proof fn lemma_read_step(
    files: Seq<(HeaderView, Seq<u8>)>,
    i: int,
    b: Seq<u8>,
    p: int,
    v: ObjectView<NewcHeaderView>,
    end: int,
    r2: Seq<ObjectView<NewcHeaderView>>,
)
    requires
        0 <= i < files.len(),
        spec_read_object::<NewcHeader>(b, p) == Ok::<(ObjectView<NewcHeaderView>, int), crate::error::FormatError>((v, end)),
        name_is_valid(NewcHeader::spec_name_field(v.header)),
        name_text::<NewcHeader>(v.header) == encode_utf8(files[i].0.name),
        encode_utf8(files[i].0.name).len() % 4 != 2,
        gives_back(v, files[i], b),
        p < end < b.len(),
        spec_read_objects::<NewcHeader>(b, end) == Ok::<Seq<ObjectView<NewcHeaderView>>, crate::error::FormatError>(r2),
        r2.len() == files.len() - i,
        forall|k: int| 0 <= k < r2.len() - 1 ==> gives_back(#[trigger] r2[k], files[i + 1 + k], b),
        name_text::<NewcHeader>(r2[r2.len() - 1].header) == trailer_bytes(),
    ensures
        spec_read_objects::<NewcHeader>(b, p) matches Ok(r) && {
            &&& r.len() == files.len() + 1 - i
            &&& forall|k: int| 0 <= k < r.len() - 1 ==> gives_back(#[trigger] r[k], files[i + k], b)
            &&& name_text::<NewcHeader>(r[r.len() - 1].header) == trailer_bytes()
        },
{
    assert(name_text::<NewcHeader>(v.header) != trailer_bytes()) by {
        if name_text::<NewcHeader>(v.header) == trailer_bytes() {
            assert(encode_utf8(files[i].0.name).len() == 10);
        }
    }
    lemma_objects_step(b, p, v, end, r2);
    let r = seq![v] + r2;
    assert forall|k: int| 0 <= k < r.len() - 1 implies gives_back(#[trigger] r[k], files[i + k], b) by {
        if k > 0 {
            assert(r[k] == r2[k - 1]);
            assert(gives_back(r2[k - 1], files[i + 1 + (k - 1)], b));
        } else {
            assert(r[0] == v);
        }
    }
    assert(r[r.len() - 1] == r2[r2.len() - 1]);
}

/// The members from the `i`-th on read back, from where the `i`-th starts.
proof fn lemma_read_members(files: Seq<(HeaderView, Seq<u8>)>, fp: nat, i: int)
    requires
        forall|k: int| 0 <= k < files.len() ==> newc_file_ok(#[trigger] files[k].0, files[k].1),
        fp >= 4,
        (objects_bytes::<NewcHeader>(newc_members(files)) + zeros(fp)).len() <= u32::MAX,
        0 <= i <= files.len(),
    ensures
        ({
            let objs = newc_members(files);
            let b = objects_bytes::<NewcHeader>(objs) + zeros(fp);
            spec_read_objects::<NewcHeader>(b, objects_bytes::<NewcHeader>(objs.take(i)).len() as int) matches Ok(r) && {
                &&& r.len() == files.len() + 1 - i
                &&& forall|k: int| 0 <= k < r.len() - 1 ==> gives_back(#[trigger] r[k], files[i + k], b)
                &&& name_text::<NewcHeader>(r[r.len() - 1].header) == trailer_bytes()
            }
        }),
    decreases files.len() - i,
{
    let objs = newc_members(files);
    let b = objects_bytes::<NewcHeader>(objs) + zeros(fp);
    let p = objects_bytes::<NewcHeader>(objs.take(i)).len() as int;
    let w = object_bytes::<NewcHeader>(objs[i]);
    lemma_member_index(files, i);
    lemma_layout(objs, fp, i);
    if i == files.len() {
        assert(b[p + w.len() + 0] == 0);
        lemma_trailer_member_read(b, p);
        let (v, end) = spec_read_object::<NewcHeader>(b, p).unwrap();
        lemma_objects_last(b, p, v, end);
    } else {
        let f = files[i];
        assert(newc_file_ok(f.0, f.1));
        lemma_file_member_read(f.0, f.1, b, p);
        let (v, end) = spec_read_object::<NewcHeader>(b, p).unwrap();
        lemma_member_nonempty(f.0, f.1);
        lemma_member_index(files, i + 1);
        if i + 1 < files.len() {
            lemma_member_nonempty(files[i + 1].0, files[i + 1].1);
        } else {
            lemma_member_nonempty(trailer_header(), Seq::empty());
        }
        lemma_read_members(files, fp, i + 1);
        let r2 = spec_read_objects::<NewcHeader>(b, end).unwrap();
        lemma_read_step(files, i, b, p, v, end, r2);
    }
}

/// A multiple of a multiple of four is a multiple of four.
proof fn lemma_multiple_of_four(x: nat, m: nat)
    requires
        m > 0,
        x % m == 0,
        m % 4 == 0,
    ensures
        x % 4 == 0,
{
    vstd::arithmetic::div_mod::lemma_fundamental_div_mod(x as int, m as int);
    vstd::arithmetic::div_mod::lemma_fundamental_div_mod(m as int, 4);
    let q = x / m;
    let k = m / 4;
    assert(x == m * q);
    assert(m == 4 * k);
    assert(x == 4 * (k * q)) by (nonlinear_arith)
        requires x == m * q, m == 4 * k;
    vstd::arithmetic::div_mod::lemma_mod_multiples_basic((k * q) as int, 4);
    assert((k * q) * 4 == 4 * (k * q)) by (nonlinear_arith);
}

/// What a `newc` archive gives back: the archive that the writer writes for
/// `files` (members in order, a trailer, then zeros up to the block size
/// `pad_len`) reads back as one member per file and the trailer, and each
/// file's member has the file's attributes (see `newc_kept`) and contents.
pub proof fn lemma_newc_archive_round_trip(files: Seq<(HeaderView, Seq<u8>)>, pad_len: nat)
    requires
        forall|k: int| 0 <= k < files.len() ==> newc_file_ok(#[trigger] files[k].0, files[k].1),
        pad_len > 0,
        pad_len % 4 == 0,
        objects_bytes::<NewcHeader>(newc_members(files)).len()
            + final_pad(objects_bytes::<NewcHeader>(newc_members(files)).len(), pad_len) <= u32::MAX,
    ensures
        ({
            let objs = newc_members(files);
            let used = objects_bytes::<NewcHeader>(objs).len();
            let archive = objects_bytes::<NewcHeader>(objs) + zeros(final_pad(used, pad_len));
            spec_read_objects::<NewcHeader>(archive, 0) matches Ok(r) && {
                &&& r.len() == files.len() + 1
                &&& forall|k: int| 0 <= k < files.len() ==> gives_back(#[trigger] r[k], files[k], archive)
                &&& name_text::<NewcHeader>(r[files.len() as int].header) == trailer_bytes()
            }
        }),
{
    let objs = newc_members(files);
    let used = objects_bytes::<NewcHeader>(objs).len();
    let fp = final_pad(used, pad_len);
    assert forall|i: int| 0 <= i < objs.len() implies #[trigger] object_bytes::<NewcHeader>(objs[i]).len() % 4 == 0 by {
        if i < files.len() {
            lemma_member_aligned(objs[i], files[i].0, files[i].1);
        } else {
            lemma_member_aligned(objs[i], trailer_header(), Seq::empty());
        }
    }
    lemma_objects_aligned(objs);
    lemma_final_pad(used, pad_len);
    lemma_multiple_of_four(used + fp, pad_len);
    assert(fp >= 4);
    assert(objs.take(0) =~= Seq::<ObjectView<NewcHeaderView>>::empty());
    lemma_member_index(files, 0);
    lemma_read_members(files, fp, 0);
    let archive = objects_bytes::<NewcHeader>(objs) + zeros(fp);
    let r = spec_read_objects::<NewcHeader>(archive, 0).unwrap();
    assert forall|k: int| 0 <= k < files.len() implies gives_back(#[trigger] r[k], files[k], archive) by {
        assert(files[0 + k] == files[k]);
    }
}

} // verus!
