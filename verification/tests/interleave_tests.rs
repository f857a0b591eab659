use bitmasher::interleave::{
    interleave_with_random_bytes, interleave_with_random_bytes_hex,
    interleave_with_random_bytes_seeded, deinterleave_original_bytes,
    deinterleave_original_bytes_from_hex,
};
use bitmasher::utf8util::utf8_to_fixed_bytes;

/// Ensure utf8_to_fixed_bytes copies bytes correctly and pads as expected.
#[test]
fn test_utf8_to_fixed_bytes_basic() {
    // ASCII: "Hello"
    let (data, used) = utf8_to_fixed_bytes::<8>("Hello");
    assert_eq!(used, 5);
    assert_eq!(&data[..5], b"Hello");
    assert_eq!(&data[5..], &[0, 0, 0]);  // padded

    // Unicode: "cafÃ©" â†’ 5 bytes in UTF-8
    let (data2, used2) = utf8_to_fixed_bytes::<8>("café");
    assert_eq!(used2, 5);
    assert_eq!(&data2[..5], "café".as_bytes());
}

/// Test roundâ€‘trip: interleave -> deinterleave returns original string.
#[test]
fn test_interleave_roundtrip_binary() {
    let s = "cafÃ©ğŸ™‚Ğ ÑƒÑÑĞºĞ¸Ğ¹"; // complicated UTFâ€‘8 string
    let inter = interleave_with_random_bytes(s);
    let recovered = deinterleave_original_bytes(&inter).unwrap();
    assert_eq!(recovered, s);
}

/// Same but using the hex wrapper version.
#[test]
fn test_interleave_roundtrip_hex() {
    let s = "HelloğŸ™‚Ã˜Î©Ğ–"; // another mix of unicode
    let hex = interleave_with_random_bytes_hex(s);
    let recovered = deinterleave_original_bytes_from_hex(&hex).unwrap();
    assert_eq!(recovered, s);
}

/// Make sure interleave actually inserts random bytes between original bytes
#[test]
fn test_interleave_structure() {
    let s = "hi";  // UTFâ€‘8: [0x68, 0x69]
    let inter = interleave_with_random_bytes(s);
    assert_eq!(inter.len(), 3); // original[0], random[1], original[2]

    assert_eq!(inter[0], b'h');
    assert_eq!(inter[2], b'i');
    assert_ne!(inter[1], b'h'); // highly unlikely equal
    assert_ne!(inter[1], b'i'); // highly unlikely equal
}

/// Ensure deinterleaver rejects invalid UTF-8
#[test]
fn test_deinterleave_invalid_utf8() {
    // Create interleaved bytes manually but corrupt the original byte
    let bad = vec![0xFF, 0x01, 0x00]; // [original=0xFF (invalid), random, original=0x00]
    let res = deinterleave_original_bytes(&bad);
    assert!(res.is_err());
}

/// Interleaving "hi" and deinterleaving the very same bytes gives "hi"
/// back, whatever filler stood between them.
#[test]
fn interleave_scenario_hi() {
    let inter = interleave_with_random_bytes("hi");
    assert_eq!(inter.len(), 3);
    assert_eq!(inter[0], b'h');
    assert_eq!(inter[2], b'i');
    let back = deinterleave_original_bytes(&inter).unwrap();
    assert_eq!(back, "hi");
}

#[test]
fn interleave_empty_input() {
    let inter = interleave_with_random_bytes("");
    assert_eq!(inter.len(), 0);
    assert_eq!(deinterleave_original_bytes(&inter).unwrap(), "");
}

#[test]
fn hex_decode_errors() {
    assert_eq!(
        deinterleave_original_bytes_from_hex("ABC").unwrap_err(),
        "hex string length must be even"
    );
    assert_eq!(
        deinterleave_original_bytes_from_hex("6SG8").unwrap_err(),
        "invalid hex character: S"
    );
}

/// The seeded variant is the pluggable filler source: a fixed seed gives a
/// reproducible interleaving whose fillers follow the xorshift stream.
#[test]
fn interleave_seeded_reproducible() {
    let a = interleave_with_random_bytes_seeded("hello", 42);
    let b = interleave_with_random_bytes_seeded("hello", 42);
    assert_eq!(a, b);
    assert_eq!(a.len(), 9);
    for i in 0..5 {
        assert_eq!(a[2 * i], b"hello"[i]);
    }
    // first filler: low byte of one xorshift step from the seed
    let mut x: u64 = 42;
    x ^= x << 13;
    x ^= x >> 7;
    x ^= x << 17;
    assert_eq!(a[1], (x & 0xFF) as u8);
    let c = interleave_with_random_bytes_seeded("hello", 43);
    assert_eq!(c.len(), 9);
    let recovered = deinterleave_original_bytes(&c).unwrap();
    assert_eq!(recovered, "hello");
}
