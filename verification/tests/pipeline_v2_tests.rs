use bitmasher::pipeline_v2::process_str_pipeline_v2;
use bitmasher::pipeline_decode_v2::decode_pipeline_v2_from_bytes;
use bitmasher::ppke::{export_key_password_protected, import_key_password_protected};

/// In-memory round trip of the key-derived pipeline: the rotated prefix
/// and the key (carried through a password-protected envelope) are enough
/// to restore the text, and the integrity check passes.
#[test]
fn pipeline_v2_roundtrip_in_memory() {
    let salt = Some(b"bitmasher-salt".as_ref());
    let info = b"bitmasher:pipeline:v2";
    let input = "café🙂 Rust!";

    let fwd = process_str_pipeline_v2::<128>(input, salt, info);
    assert_eq!(fwd.hkdf_key.len(), 128);
    assert!(!fwd.interleaved.is_empty());

    // Carry the key through a password-protected envelope.
    let blob = export_key_password_protected(&fwd.hkdf_key, b"pw123", Some(1000), 16).unwrap();
    let key = import_key_password_protected(&blob, b"pw123").unwrap();
    assert_eq!(key, fwd.hkdf_key);

    // Hand over only the used prefix of the rotated buffer.
    let rotated_prefix = &fwd.bitarray_final.as_bytes()[..fwd.used_bytes];
    let recovered = decode_pipeline_v2_from_bytes::<128>(&key, rotated_prefix, salt, info).unwrap();
    assert_eq!(recovered, input);
}

/// A key of the wrong length is rejected before any cryptography.
#[test]
fn pipeline_v2_key_length_checked() {
    let err = decode_pipeline_v2_from_bytes::<128>(b"short", b"data", None, b"i").unwrap_err();
    assert_eq!(err, "hkdf_key length does not match the capacity");
}

/// A forged key of the right length fails the integrity check.
#[test]
fn pipeline_v2_integrity_mismatch() {
    let salt = Some(b"bitmasher-salt".as_ref());
    let info = b"bitmasher:pipeline:v2";
    let fwd = process_str_pipeline_v2::<64>("hello there", salt, info);
    let mut bad_key = fwd.hkdf_key.clone();
    bad_key[0] ^= 0xFF;
    let rotated_prefix = &fwd.bitarray_final.as_bytes()[..fwd.used_bytes];
    let err = decode_pipeline_v2_from_bytes::<64>(&bad_key, rotated_prefix, salt, info).unwrap_err();
    assert_eq!(err, "hkdf mismatch: decoded payload does not match the decrypted key");
}
