use journal_export::is_gz_magic;

#[test]
fn gzip_is_told_by_its_first_two_bytes() {
    assert!(is_gz_magic(&[0x1f, 0x8b]));
    assert!(is_gz_magic(&[0x1f, 0x8b, 0x08, 0x00]));
    assert!(!is_gz_magic(&[0x1f]));
    assert!(!is_gz_magic(&[]));
    assert!(!is_gz_magic(&[0x8b, 0x1f]));
    assert!(!is_gz_magic(&[0x1f, 0x8c, 0x08]));
    assert!(!is_gz_magic(b"__CURSOR=s"));
}
