use librarium::archive::ArchiveWriter;
use librarium::error::FormatError;
use librarium::header::Header;
use librarium::image::{Archive, Ascii, CpioNewcHeader, Object};
use librarium::newc::NewcHeader;

fn newc_bytes(names: &[(&str, &[u8])]) -> Vec<u8> {
    let mut w: ArchiveWriter<NewcHeader> = ArchiveWriter::new(Vec::new());
    for (name, data) in names {
        w.push_file(data.to_vec(), Header { nlink: 1, name: name.to_string(), ..Default::default() }).unwrap();
    }
    w.write().unwrap();
    w.writer
}

#[test]
fn image_ascii_write_is_shifted() {
    let mut out = Vec::new();
    Ascii { value: 0 }.write(&mut out);
    assert_eq!(out, b"HHHHHHHH".to_vec());
    let mut out = Vec::new();
    Ascii { value: 0x0000_00af }.write(&mut out);
    assert_eq!(out, b"HHHHHHy~".to_vec());
    assert_eq!(Ascii::read(b"000000af", 0), Ok((0xaf, 8)));
}

#[test]
fn image_read_archive() {
    let bytes = newc_bytes(&[("file.txt", b"hello"), ("other", b"")]);
    let (a, end) = Archive::read(&bytes, 0).unwrap();
    assert_eq!(a.objects.len(), 3);
    assert_eq!(a.objects[0].name, b"file.txt".to_vec());
    assert_eq!(a.objects[0].file, b"hello".to_vec());
    assert_eq!(a.objects[0].header.filesize.value, 5);
    assert_eq!(a.objects[1].name, b"other".to_vec());
    assert_eq!(a.objects[2].name, b"TRAILER!!!".to_vec());
    assert!(Archive::until(&a.objects[2]));
    assert!(!Archive::until(&a.objects[0]));
    assert!(end <= bytes.len());
}

#[test]
fn image_read_errors() {
    let bytes = newc_bytes(&[("file.txt", b"hello")]);
    assert_eq!(Archive::read(&bytes[..100], 0).map(|(a, _)| a.objects.len()), Err(FormatError::Incomplete));
    let mut bad = bytes.clone();
    bad[0] = b'1';
    assert_eq!(Archive::read(&bad, 0).map(|(a, _)| a.objects.len()), Err(FormatError::BadMagic));
    // a namesize that does not count the name and its NUL
    let mut bad = bytes.clone();
    bad[101] = b'A';
    assert_eq!(Object::read(&bad, 0).map(|(o, _)| o.file.len()), Err(FormatError::NameSizeMismatch));
    let mut bad = bytes.clone();
    bad[94..102].copy_from_slice(b"00000000");
    assert_eq!(Object::read(&bad, 0).map(|(o, _)| o.file.len()), Err(FormatError::InvalidNameSize));
}

#[test]
fn image_write_shifts_fields() {
    let bytes = newc_bytes(&[("file.txt", b"hello")]);
    let (h, end) = CpioNewcHeader::read(&bytes, 0).unwrap();
    assert_eq!(end, 110);
    let mut out = Vec::new();
    h.write(&mut out);
    assert_eq!(&out[0..6], b"070701");
    assert_eq!(&out[6..14], b"HHHHHHHH");
    assert_eq!(out.len(), 110);
    let (a, _) = Archive::read(&bytes, 0).unwrap();
    let mut all = Vec::new();
    a.write(&mut all);
    assert_eq!(&all[110..119], b"file.txt\0");
    assert_eq!(all.len(), (110 + 9 + 1 + 5 + 3) + (110 + 11 + 3));
}
