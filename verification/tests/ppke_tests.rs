use bitmasher::ppke::{export_key_password_protected, import_key_password_protected};

#[test]
fn ppke_roundtrip() {
    let key = b"0123456789abcdef0123456789abcdef";
    let blob = export_key_password_protected(key, b"pw123", Some(1000), 16).unwrap();
    assert_eq!(blob.len(), 16 + 16 + 12 + key.len() + 16);
    assert_eq!(&blob[0..4], b"BMK1");
    let back = import_key_password_protected(&blob, b"pw123").unwrap();
    assert_eq!(back, key);
}

#[test]
fn ppke_default_iterations_roundtrip() {
    let key = b"shorter key";
    let blob = export_key_password_protected(key, b"secret", None, 16).unwrap();
    let back = import_key_password_protected(&blob, b"secret").unwrap();
    assert_eq!(back, key);
}

#[test]
fn ppke_wrong_password_fails() {
    let key = b"super secret key material";
    let blob = export_key_password_protected(key, b"right", Some(1000), 16).unwrap();
    assert_eq!(import_key_password_protected(&blob, b"wrong").unwrap_err(), "aead open");
}

#[test]
fn ppke_corrupted_header_fails() {
    let key = b"super secret key material";
    let mut blob = export_key_password_protected(key, b"pw", Some(1000), 16).unwrap();
    // flip a bit of the iteration count: the header is authenticated
    blob[9] ^= 1;
    assert!(import_key_password_protected(&blob, b"pw").is_err());
}

#[test]
fn ppke_truncated_fails() {
    let key = b"super secret key material";
    let blob = export_key_password_protected(key, b"pw", Some(1000), 16).unwrap();
    assert_eq!(
        import_key_password_protected(&blob[..blob.len() - 1], b"pw").unwrap_err(),
        "ciphertext truncated"
    );
    assert_eq!(import_key_password_protected(&blob[..20], b"pw").unwrap_err(), "payload truncated");
    assert_eq!(import_key_password_protected(&blob[..8], b"pw").unwrap_err(), "payload too short");
}

#[test]
fn ppke_bad_magic_fails() {
    let key = b"k";
    let mut blob = export_key_password_protected(key, b"pw", Some(1000), 16).unwrap();
    blob[0] = b'X';
    assert_eq!(import_key_password_protected(&blob, b"pw").unwrap_err(), "bad magic");
}

#[test]
fn ppke_rejects_empty_salt() {
    assert_eq!(
        export_key_password_protected(b"k", b"pw", Some(1000), 0).unwrap_err(),
        "salt_len must be > 0"
    );
}
