use bitmasher::ascii_codec::{encode_bytes_ascii_wrapped, decode_bytes_ascii_wrapped};

#[test]
fn test_wrapped_roundtrip() {
    let data = "abc123\u{FF}hi🙂".as_bytes();
    let prefix = "BEGIN\n";
    let suffix = "\nEND";

    let s = encode_bytes_ascii_wrapped(data, 3, prefix, suffix);
    let out = decode_bytes_ascii_wrapped(&s, prefix, suffix).unwrap();
    assert_eq!(out, data);
}

#[test]
fn wrapped_missing_prefix() {
    let s = encode_bytes_ascii_wrapped(&[1u8, 2], 4, "<<", ">>");
    assert_eq!(decode_bytes_ascii_wrapped(&s, "[[", ">>").unwrap_err(), "missing prefix");
}

#[test]
fn wrapped_missing_suffix() {
    let s = encode_bytes_ascii_wrapped(&[1u8, 2], 4, "<<", ">>");
    assert_eq!(decode_bytes_ascii_wrapped(&s, "<<", "]]").unwrap_err(), "missing suffix");
}
