use bitmasher::BitArray;
use bitmasher::bitarray::BitArrayError;

#[test]
fn full_byte_len_left_right() {
    // Little-endian: [0xA1, 0x03] => 0x03A1
    let start = [0b1010_0001, 0b0000_0011];

    // Rotate left by 4 across the contiguous 16-bit bit ring
    let mut b = BitArray::<2>::new(start, 16);
    b.rotate_left(4);
    // ROL16(0x03A1, 4) = 0x3A10 => [0x10, 0x3A]
    assert_eq!(*b.as_bytes(), [0b0001_0000, 0b0011_1010]);

    // Rotate right by 4 returns to original
    b.rotate_right(4);
    assert_eq!(*b.as_bytes(), start);

    // Identity cases: k = 0 and k = bit_len
    let mut b = BitArray::<2>::new(start, 16);
    b.rotate_left(0);
    assert_eq!(*b.as_bytes(), start);
    b.rotate_left(16);
    assert_eq!(*b.as_bytes(), start);

    // k reduced modulo bit_len
    let mut b = BitArray::<2>::new(start, 16);
    b.rotate_left(20); // 20 % 16 == 4
    assert_eq!(*b.as_bytes(), [0x10, 0x3A]);

    // Cross-check against native u16 rotates for a range of k
    let uw = u16::from_le_bytes(start);
    for k in 0..=31 {
        let mut x = BitArray::<2>::new(start, 16);
        x.rotate_left(k);
        let got = u16::from_le_bytes(*x.as_bytes());
        let want = uw.rotate_left((k % 16) as u32);
        assert_eq!(got, want, "ROL mismatch for k={k}");
    }
    for k in 0..=31 {
        let mut x = BitArray::<2>::new(start, 16);
        x.rotate_right(k);
        let got = u16::from_le_bytes(*x.as_bytes());
        let want = uw.rotate_right((k % 16) as u32);
        assert_eq!(got, want, "ROR mismatch for k={k}");
    }
}

#[test]
fn partial_bit_len_masking() {
    // 2 bytes storage but only 10 bits used.
    let mut arr = [0u8; 2];
    // set bits 0,2,4,6,8
    for i in (0..10).step_by(2) {
        let byte = i / 8;
        let off = i % 8;
        arr[byte] |= 1 << off;
    }
    let mut b = BitArray::<2>::new(arr, 10);

    // The last 6 bits of byte1 are unused and must be 0.
    assert_eq!(b.as_bytes()[1] & !0b0000_0011, 0);

    // Rotate left by 3 within 10-bit space and ensure the tail is masked.
    b.rotate_left(3);
    assert_eq!(b.as_bytes()[1] & !0b0000_0011, 0);

    // Full cycle returns to the same configuration.
    let before = *b.as_bytes();
    b.rotate_left(10);
    assert_eq!(*b.as_bytes(), before);
}

#[test]
fn equivalence_lr() {
    let mut b1 = BitArray::<3>::new([0xAA, 0x55, 0x0F], 20); // 20-bit domain
    let mut b2 = BitArray::<3>::new([0xAA, 0x55, 0x0F], 20);
    b1.rotate_left(7);
    b2.rotate_right(20 - 7);
    assert_eq!(*b1.as_bytes(), *b2.as_bytes());
}

#[test]
fn masking_scenario_13_bits() {
    // Construction re-masks whatever stands in the unused tail bits.
    let mut b = BitArray::<2>::new([0b1110_1101, 0b0000_0011], 13);
    assert_eq!(*b.as_bytes(), [0b1110_1101, 0b0000_0011]);
    assert_eq!(b.as_bytes()[1] & 0b1110_0000, 0);
    b.rotate_left(5);
    assert_eq!(b.as_bytes()[1] & 0b1110_0000, 0);
    b.rotate_right(5);
    assert_eq!(*b.as_bytes(), [0b1110_1101, 0b0000_0011]);

    // Garbage above bit 13 is discarded at construction.
    let c = BitArray::<2>::new([0xFF, 0xFF], 13);
    assert_eq!(*c.as_bytes(), [0xFF, 0b0001_1111]);
}

#[test]
fn bit_access_and_errors() {
    let mut b = BitArray::<2>::new([0b0000_0101, 0], 10);
    assert_eq!(b.bit_len(), 10);
    assert!(b.get_bit(0));
    assert!(!b.get_bit(1));
    assert!(b.get_bit(2));
    b.set_bit(1, true);
    assert!(b.get_bit(1));
    b.set_bit(0, false);
    assert!(!b.get_bit(0));

    assert_eq!(b.try_get_bit(10), Err(BitArrayError::IndexOutOfRange));
    assert_eq!(b.try_get_bit(1), Ok(true));
    assert_eq!(b.try_set_bit(10, true), Err(BitArrayError::IndexOutOfRange));
    assert_eq!(b.try_set_bit(3, true), Ok(()));
    assert!(b.get_bit(3));

    assert!(BitArray::<2>::try_new([0, 0], 17).is_err());
    assert_eq!(
        BitArray::<2>::try_new([0, 0], 17).unwrap_err(),
        BitArrayError::CapacityExceeded
    );
    assert!(BitArray::<2>::try_new([0, 0], 16).is_ok());
}
