use librarium::archive::{ArchiveReader, ArchiveWriter, CpioReader, Data};
use librarium::error::{CpioError, FormatError};
use librarium::header::{CpioHeader, Header};
use librarium::newc::NewcHeader;
use librarium::odc::OdcHeader;

fn header(name: &str, ino: u32, mode: u32) -> Header {
    Header {
        ino,
        mode,
        uid: 1000,
        gid: 100,
        nlink: 1,
        mtime: 0x5f5e_1000,
        devmajor: 8,
        devminor: 1,
        rdevmajor: 3,
        rdevminor: 4,
        name: name.to_string(),
    }
}

fn newc_archive(files: &[(&str, &[u8])]) -> Vec<u8> {
    let mut w: ArchiveWriter<NewcHeader> = ArchiveWriter::new(Vec::new());
    for (i, (name, data)) in files.iter().enumerate() {
        w.push_file(data.to_vec(), header(name, i as u32 + 1, 0o100644)).unwrap();
    }
    w.write().unwrap();
    w.writer
}

#[test]
fn newc_write_then_read() {
    let bytes = newc_archive(&[("file.txt", b"hello world"), ("dir/data.bin", &[0, 1, 2, 3, 4])]);
    assert_eq!(bytes.len() % 0x400, 0);
    assert_eq!(&bytes[0..6], b"070701");
    let mut a: ArchiveReader<NewcHeader> = ArchiveReader::from_reader(bytes).unwrap();
    assert_eq!(a.objects.inner.len(), 3);
    assert_eq!(a.objects.inner[2].header.name(), "TRAILER!!!");

    let mut out = Vec::new();
    let h = a.extract_by_name("file.txt", &mut out).unwrap().unwrap();
    assert_eq!(out, b"hello world".to_vec());
    assert_eq!(h.name, "file.txt");
    assert_eq!((h.ino, h.mode, h.uid, h.gid, h.nlink, h.mtime), (1, 0o100644, 1000, 100, 1, 0x5f5e_1000));
    assert_eq!((h.devmajor, h.devminor, h.rdevmajor, h.rdevminor), (8, 1, 0, 0));

    let mut out = Vec::new();
    let h = a.extract_by_name("dir/data.bin", &mut out).unwrap().unwrap();
    assert_eq!(out, vec![0, 1, 2, 3, 4]);
    assert_eq!(h.ino, 2);

    let mut out = vec![9];
    assert!(a.extract_by_name("missing", &mut out).unwrap().is_none());
    assert_eq!(out, vec![9]);
}

#[test]
fn newc_written_layout() {
    let bytes = newc_archive(&[("a", b"xyz")]);
    // header of 110 bytes, the name without its NUL, padding to four
    assert_eq!(&bytes[6..14], b"00000001");
    assert_eq!(&bytes[54..62], b"00000003");
    assert_eq!(&bytes[94..102], b"00000002");
    assert_eq!(&bytes[110..111], b"a");
    assert_eq!(&bytes[111..112], &[0]);
    assert_eq!(&bytes[112..115], b"xyz");
    assert_eq!(&bytes[115..116], &[0]);
    assert_eq!(&bytes[116..122], b"070701");
    assert_eq!(&bytes[226..236], b"TRAILER!!!");
    assert!(bytes[236..].iter().all(|b| *b == 0));
    assert_eq!(bytes.len(), 1024);
}

#[test]
fn newc_full_block_is_padded_with_another() {
    // the members take exactly 1024 bytes: a whole block of zeros follows
    let data = vec![7u8; 1024 - 112 - 120];
    let bytes = newc_archive(&[("a", &data)]);
    assert_eq!(bytes.len(), 2048);
}

#[test]
fn newc_name_two_past_multiple_of_four_reads_wrong() {
    // "ab" is written without its NUL and with no padding after it, so the
    // name is read with the first byte of the contents
    let bytes = newc_archive(&[("ab", b"xyz")]);
    let r = ArchiveReader::<NewcHeader>::read_archive(bytes, 0);
    assert!(matches!(r, Err(FormatError::InvalidName)));
}

#[test]
fn newc_read_at_offset() {
    let mut bytes = b"junk".to_vec();
    bytes.extend(newc_archive(&[("file.txt", b"abc")]));
    let a: ArchiveReader<NewcHeader> = ArchiveReader::from_reader_with_offset(bytes, 4).unwrap();
    let mut out = Vec::new();
    a.reader.extract_data(&a.objects.inner[0], &mut out).unwrap();
    assert_eq!(out, b"abc".to_vec());
    match a.objects.inner[0].data() {
        Data::Offset(o) => assert_eq!(*o, 120),
        Data::Bytes(_) => panic!("read member without an offset"),
    }
}

#[test]
fn newc_read_errors() {
    let bytes = newc_archive(&[("file.txt", b"abc")]);
    let r = ArchiveReader::<NewcHeader>::from_reader(bytes[..200].to_vec());
    assert!(matches!(r, Err(CpioError::Format(FormatError::Incomplete))));
    let mut bad = bytes.clone();
    bad[5] = b'7';
    let r = ArchiveReader::<NewcHeader>::from_reader(bad);
    assert!(matches!(r, Err(CpioError::Format(FormatError::BadMagic))));
    let r = ArchiveReader::<NewcHeader>::from_reader(Vec::new());
    assert!(matches!(r, Err(CpioError::Format(FormatError::Incomplete))));
    let mut bad = bytes.clone();
    bad[7] = b'Z';
    let r = ArchiveReader::<NewcHeader>::read_archive(bad, 0);
    assert!(matches!(r, Err(FormatError::InvalidNumber)));
    let r = ArchiveReader::<NewcHeader>::read_archive(bytes.clone(), 5000);
    assert!(matches!(r, Err(FormatError::Incomplete)));
}

#[test]
fn newc_header_from_header() {
    let h = NewcHeader::from_header(header("hello", 5, 0o40755), 0);
    assert_eq!(h.namesize(), 6);
    assert_eq!(h.name, b"hello".to_vec());
    assert_eq!(h.filesize(), 0);
    assert_eq!(h.check(), 0);
    assert_eq!(h.devmajor(), 8);
    assert_eq!(h.devminor(), 1);
    assert_eq!(h.data_pad(), 0);
    assert!(h.try_name().is_none());
    let mut out = Vec::new();
    h.write(&mut out);
    assert_eq!(out.len(), 110 + 5 + 1);
    let (back, end) = NewcHeader::read(&out, 0).unwrap();
    assert_eq!(end, 116);
    assert_eq!(back.name(), "hello");
    assert_eq!(back.ino(), 5);
    assert_eq!(back.mode(), 0o40755);
    let h = NewcHeader::from_header(header("x", 1, 0), 5);
    assert_eq!(h.data_pad(), 3);
}

fn odc_member(name: &str, mode: &str, data: &[u8]) -> Vec<u8> {
    let mut b = Vec::new();
    b.extend_from_slice(b"070707");
    b.extend_from_slice(b"000001"); // dev
    b.extend_from_slice(b"000042"); // ino
    b.extend_from_slice(mode.as_bytes()); // mode
    b.extend_from_slice(b"001750"); // uid
    b.extend_from_slice(b"000144"); // gid
    b.extend_from_slice(b"000001"); // nlink
    b.extend_from_slice(b"000003"); // rdev
    b.extend_from_slice(b"14523456701"); // mtime
    b.extend_from_slice(format!("{:06o}", name.len() + 1).as_bytes());
    b.extend_from_slice(format!("{:011o}", data.len()).as_bytes());
    b.extend_from_slice(name.as_bytes());
    b.push(0);
    b.extend_from_slice(data);
    b
}

#[test]
fn odc_read_members() {
    let mut bytes = odc_member("hello.txt", "100644", b"world");
    bytes.extend(odc_member("TRAILER!!!", "000000", b""));
    let a: ArchiveReader<OdcHeader> = ArchiveReader::from_reader(bytes).unwrap();
    assert_eq!(a.objects.inner.len(), 2);
    let o = &a.objects.inner[0];
    assert_eq!(o.header.name(), "hello.txt");
    assert_eq!(o.header.ino(), 0o42);
    assert_eq!(o.header.mode(), 0o100644);
    assert_eq!(o.header.uid(), 0o1750);
    assert_eq!(o.header.mtime(), 0o14523456701u64 as u32);
    assert_eq!(o.header.filesize(), 5);
    assert_eq!(o.header.namesize(), 10);
    let mut out = Vec::new();
    let h = a.extract_by_name("hello.txt", &mut out).unwrap().unwrap();
    assert_eq!(out, b"world".to_vec());
    assert_eq!((h.devmajor, h.devminor), (1, 3));
}

#[test]
fn odc_write_has_unpadded_fields() {
    let h = OdcHeader::from_header(header("f", 2, 0o644), 3);
    let mut out = Vec::new();
    h.write(&mut out);
    // dev 8, ino 2, mode 644, uid 1750, gid 144, nlink 1, rdev 1, mtime, namesize 1, filesize 3, name
    let mut expected = b"070707".to_vec();
    expected.extend_from_slice(b"10" as &[u8]);
    expected.extend_from_slice(b"2644175014411");
    expected.extend_from_slice(format!("{:o}", 0x5f5e_1000u32).as_bytes());
    expected.extend_from_slice(b"13f");
    assert_eq!(out, expected);
    assert_eq!(h.data_pad(), 0);
}

#[test]
fn newc_consistent_header_round_trip() {
    let bytes = newc_archive(&[("file.txt", b"hello")]);
    let (h, end) = NewcHeader::read(&bytes, 0).unwrap();
    assert_eq!(end, 120);
    let mut out = Vec::new();
    h.write(&mut out);
    assert_eq!(out, bytes[..120].to_vec());
    let (again, end2) = NewcHeader::read(&out, 0).unwrap();
    assert_eq!(end2, 120);
    assert_eq!(again.name, h.name);
    assert_eq!(again.ino(), h.ino());
    assert_eq!(again.filesize(), 5);
}

#[test]
fn odc_consistent_header_round_trip() {
    let mut bytes = odc_member("hello.txt", "100644", b"world");
    bytes[6..12].copy_from_slice(b"100001"); // a device number of six digits
    bytes[18..24].copy_from_slice(b"100644");
    bytes[24..30].copy_from_slice(b"101750");
    bytes[30..36].copy_from_slice(b"100144");
    bytes[36..42].copy_from_slice(b"100001");
    bytes[42..48].copy_from_slice(b"100003");
    bytes[12..18].copy_from_slice(b"100042");
    bytes[59..65].copy_from_slice(b"000012");
    let (h, end) = OdcHeader::read(&bytes, 0).unwrap();
    assert_eq!(h.namesize(), 10);
    assert_eq!(end, 76 + 10);
    // namesize and filesize are written without their leading zeros
    let mut out = Vec::new();
    h.write(&mut out);
    assert_eq!(&out[..59], &bytes[..59]);
    assert_eq!(&out[59..61], b"12");
    let mut exact = odc_member("name56789", "100644", b"");
    exact[6..12].copy_from_slice(b"100001");
    exact[12..18].copy_from_slice(b"100042");
    exact[24..30].copy_from_slice(b"101750");
    exact[30..36].copy_from_slice(b"100144");
    exact[36..42].copy_from_slice(b"100001");
    exact[42..48].copy_from_slice(b"100003");
    exact[59..65].copy_from_slice(b"100000");
    exact[65..76].copy_from_slice(b"10000000000");
    exact.truncate(76);
    exact.extend(vec![b'n'; 0o100000]);
    let (h, end) = OdcHeader::read(&exact, 0).unwrap();
    assert_eq!(end, exact.len());
    let mut out = Vec::new();
    h.write(&mut out);
    assert_eq!(out, exact);
}
