use iksemel::memory;
use iksemel::{
    align_size, calculate_chunk_growth, escape, escape_size, str_casecmp, str_cat, str_dup,
    str_len, unescape, unescape_size, IksError,
};

#[test]
fn test_string_utils() {
    assert_eq!(str_dup(Some("test")), Some("test".to_string()));
    assert_eq!(str_dup(None), None);

    let mut s = String::from("Hello");
    str_cat(&mut s, Some(" World"));
    assert_eq!(s, "Hello World");

    assert_eq!(str_casecmp(Some("test"), Some("TEST")), 0);
    assert_eq!(str_casecmp(Some("test"), Some("test2")), -1);
    assert_eq!(str_casecmp(None, Some("test")), -1);

    assert_eq!(str_len(Some("test")), 4);
    assert_eq!(str_len(None), 0);
}

#[test]
fn test_xml_escaping() {
    let input = "a < b & c > d \"quote\" 'apos'";
    let escaped = escape(input);
    assert_eq!(
        escaped,
        "a &lt; b &amp; c &gt; d &quot;quote&quot; &apos;apos&apos;"
    );
    assert_eq!(unescape(&escaped), input);
}

#[test]
fn str_cat_without_text_changes_nothing() {
    let mut s = String::from("Hello");
    str_cat(&mut s, None);
    assert_eq!(s, "Hello");
}

#[test]
fn str_len_counts_bytes() {
    assert_eq!(str_len(Some("\u{e9}")), 2);
    assert_eq!(str_len(Some("")), 0);
}

#[test]
fn casecmp_orders_by_the_first_difference() {
    assert_eq!(str_casecmp(Some("abc"), Some("abd")), -1);
    assert_eq!(str_casecmp(Some("b"), Some("A")), 1);
    assert_eq!(str_casecmp(Some("Z"), Some("a")), 25);
    assert_eq!(str_casecmp(Some("abc"), Some("ab")), 1);
    assert_eq!(str_casecmp(Some(""), Some("")), 0);
    assert_eq!(str_casecmp(Some("x"), None), -1);
    assert_eq!(str_casecmp(None, None), -1);
    assert_eq!(str_casecmp(Some("[") , Some("{")), -32);
}

#[test]
fn unescape_undoes_escape() {
    for text in ["", "plain", "&", "&&;;", "<<a>>", "'\"'", "a&amp;b", "&lt", "x;y&z", "\u{e9}&\u{1F600}"] {
        assert_eq!(unescape(&escape(text)), text);
    }
}

#[test]
fn unescape_keeps_unknown_entities() {
    assert_eq!(unescape("&foo;"), "&foo;");
    assert_eq!(unescape("a&foo;b&lt;c"), "a&foo;b<c");
    assert_eq!(unescape("&foo"), "&foo;");
    assert_eq!(unescape("&"), "&;");
    assert_eq!(unescape("&;"), "&;");
    assert_eq!(unescape("&amp"), "&");
    assert_eq!(unescape("&quot;&apos;&gt;"), "\"'>");
}

#[test]
fn sizes_match_the_texts() {
    assert_eq!(escape_size(""), 0);
    assert_eq!(escape_size("a&<>\"'"), 1 + 5 + 4 + 4 + 6 + 6);
    assert_eq!(escape_size("a < b"), escape("a < b").chars().count());
    assert_eq!(unescape_size("a&lt;b"), 3);
    assert_eq!(unescape_size("&foo;"), 5);
    assert_eq!(unescape_size("&foo"), 5);
    assert_eq!(unescape_size(""), 0);
    assert_eq!(unescape_size("&amp;&quot;x"), 3);
}

#[test]
fn sizes_are_rounded_up_to_the_alignment() {
    assert_eq!(memory::ALIGNMENT, 8);
    assert_eq!(memory::ALIGN_MASK, 7);
    assert_eq!(align_size(0), 0);
    assert_eq!(align_size(1), 8);
    assert_eq!(align_size(8), 8);
    assert_eq!(align_size(9), 16);
    assert_eq!(align_size(63), 64);
}

#[test]
fn chunks_grow_by_half() {
    assert_eq!(calculate_chunk_growth(0), 0);
    assert_eq!(calculate_chunk_growth(64), 96);
    assert_eq!(calculate_chunk_growth(100), 152);
    assert_eq!(calculate_chunk_growth(5), 8);
    assert_eq!(calculate_chunk_growth(256), 384);
}

#[test]
fn every_error_has_its_message() {
    assert_eq!(IksError::NoMem.message(), "Out of memory");
    assert_eq!(IksError::BadXml.message(), "Invalid XML");
    assert_eq!(IksError::Hook.message(), "Hook returned error");
    assert_eq!(IksError::NetNoDns.message(), "Network DNS error");
    assert_eq!(IksError::NetNoSock.message(), "Network socket error");
    assert_eq!(IksError::NetNoConn.message(), "Network connection error");
    assert_eq!(IksError::NetRwErr.message(), "Network read/write error");
    assert_eq!(IksError::NetNotSupp.message(), "Network operation not supported");
    assert_eq!(IksError::NetTlsFail.message(), "TLS operation failed");
    assert_eq!(IksError::NetDropped.message(), "Network connection dropped");
    assert_eq!(IksError::NetUnknown.message(), "Unknown network error");
    assert_eq!(IksError::FileNoFile.message(), "File not found");
    assert_eq!(IksError::FileNoAccess.message(), "File access denied");
    assert_eq!(IksError::FileRwErr.message(), "File read/write error");
    assert_eq!(IksError::Io("disk full".to_string()).message(), "IO error: disk full");
}
