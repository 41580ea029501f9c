use logbuddy::sniff::{
    classify, classify_read, is_container_extension, kind_of_extension, FileKind, SNIFF_LEN,
};

#[test]
fn empty_input_is_unknown() {
    assert_eq!(classify(&[]), FileKind::Unknown);
}

#[test]
fn gzip_is_archive() {
    assert_eq!(classify(&[0x1f, 0x8b, 0x08, 0x00, 0x00]), FileKind::Archive);
}

#[test]
fn zip_is_archive() {
    let mut b = vec![0x50, 0x4b, 0x03, 0x04];
    b.extend(std::iter::repeat(0u8).take(60));
    assert_eq!(classify(&b), FileKind::Archive);
}

#[test]
fn tar_is_archive() {
    let mut b = vec![0u8; 600];
    b[257..262].copy_from_slice(b"ustar");
    assert_eq!(classify(&b), FileKind::Archive);
}

#[test]
fn png_is_other() {
    assert_eq!(classify(&[0x89, 0x50, 0x4e, 0x47, 0x0d, 0x0a, 0x1a, 0x0a]), FileKind::Other);
}

#[test]
fn plain_text_is_unknown() {
    assert_eq!(classify(b"2024-01-01 12:00:00 INFO started\n"), FileKind::Unknown);
}

#[test]
fn long_input_is_classified_by_its_head() {
    let mut b = vec![0x1f, 0x8b, 0x08];
    b.extend(std::iter::repeat(7u8).take(3 * SNIFF_LEN));
    assert_eq!(classify(&b), FileKind::Archive);
}

#[test]
fn classifying_twice_gives_the_same_kind() {
    for bytes in [&[0x1f, 0x8b, 0x08][..], &b"hello"[..], &[][..], &[0x89, 0x50, 0x4e, 0x47][..]] {
        assert_eq!(classify(bytes), classify(bytes));
    }
}

#[test]
fn unreadable_file_is_unknown() {
    assert_eq!(classify_read(None), FileKind::Unknown);
    assert_eq!(classify_read(Some(&[0x1f, 0x8b, 0x08])), FileKind::Archive);
}

#[test]
fn extensions_map_to_kinds() {
    assert_eq!(kind_of_extension(&None), FileKind::Unknown);
    assert_eq!(kind_of_extension(&Some("gz".to_string())), FileKind::Archive);
    assert_eq!(kind_of_extension(&Some("pdf".to_string())), FileKind::Other);
    assert_eq!(kind_of_extension(&Some("png".to_string())), FileKind::Other);
}

#[test]
fn container_extensions() {
    for e in ["zip", "tar", "gz", "bz2", "xz", "7z", "rar", "zst", "cpio", "Z"] {
        assert!(is_container_extension(e), "{}", e);
    }
    for e in ["pdf", "sqlite", "epub", "rtf", "ps", "z", "", "gzip"] {
        assert!(!is_container_extension(e), "{}", e);
    }
}

#[test]
fn pdf_is_other() {
    assert_eq!(classify(b"%PDF-1.7\n%\xe2\xe3\xcf\xd3\n"), FileKind::Other);
}

#[test]
fn sqlite_is_other() {
    let mut b = b"SQLite format 3\0".to_vec();
    b.extend(std::iter::repeat(0u8).take(100));
    assert_eq!(classify(&b), FileKind::Other);
}
