use iksemel::digest::{digest_text, sha1_hex};

#[test]
fn bytes_are_written_as_small_hexadecimal_digits() {
    assert_eq!(digest_text(&[]), "");
    assert_eq!(digest_text(&[0x00, 0xff, 0x1a, 0xa1, 0x09, 0x90]), "00ff1aa10990");
    assert_eq!(digest_text(&[1, 2, 3, 15, 16]), "0102030f10");
}

#[test]
fn the_digest_is_that_of_sha1() {
    assert_eq!(sha1_hex(b""), "da39a3ee5e6b4b0d3255bfef95601890afd80709");
    assert_eq!(sha1_hex(b"abc"), "a9993e364706816aba3e25717850c26c9cd0d89d");
    assert_eq!(sha1_hex(b"hello world"), "2aae6c35c94fcfb415dbe95f408b9ce91ee846ed");
    assert_eq!(sha1_hex(b"abc").len(), 40);
}
