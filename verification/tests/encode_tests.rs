use rcloneflix::encode::{percent_encode_path, urlencoding_simple};

#[test]
fn path_encoding_escapes_space_hash_and_non_ascii() {
    // A segment with a space, a `#` and a non-ASCII character (é is C3 A9
    // in UTF-8): everything but `/` is escaped, so the helper resolves the
    // URL back to the original file.
    let encoded = percent_encode_path("dir name/file#\u{e9}.mkv".as_bytes());
    assert_eq!(encoded, b"dir%20name/file%23%C3%A9.mkv".to_vec());
}

#[test]
fn path_encoding_keeps_unreserved_bytes_and_separators() {
    let encoded = percent_encode_path(b"Movies/A-Z_0.9~x/ok");
    assert_eq!(encoded, b"Movies/A-Z_0.9~x/ok".to_vec());
}

#[test]
fn path_encoding_of_empty_path_is_empty() {
    assert_eq!(percent_encode_path(b""), Vec::<u8>::new());
}

#[test]
fn component_encoding_escapes_space_as_hex() {
    // A space escapes as %20, like every other non-unreserved byte: a file
    // server does not decode a `+` back to a space.
    assert_eq!(urlencoding_simple(b"My File (1).mkv"), b"My%20File%20%281%29.mkv".to_vec());
    assert_eq!(urlencoding_simple(b"a b&c"), b"a%20b%26c".to_vec());
}

#[test]
fn component_encoding_escapes_slash() {
    assert_eq!(urlencoding_simple(b"a/b"), b"a%2Fb".to_vec());
}

#[test]
fn component_encoding_keeps_unreserved() {
    assert_eq!(urlencoding_simple(b"AZaz09-_.~"), b"AZaz09-_.~".to_vec());
}
