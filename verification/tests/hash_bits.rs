use hamt::errors::Error;
use hamt::hash_bits::{HashBits, HashedKey};

#[test]
fn test_bitfield() {
    let mut key: HashedKey = Default::default();
    key[0] = 0b10001000;
    key[1] = 0b10101010;
    key[2] = 0b10111111;
    key[3] = 0b11111111;
    let mut hb = HashBits::new(&key);
    // Test eq cmp
    assert_eq!(hb.next(8).unwrap(), 0b10001000);
    // Test lt cmp
    assert_eq!(hb.next(5).unwrap(), 0b10101);
    // Test gt cmp
    assert_eq!(hb.next(5).unwrap(), 0b01010);
    assert_eq!(hb.next(6).unwrap(), 0b111111);
    assert_eq!(hb.next(8).unwrap(), 0b11111111);
    assert!(matches!(hb.next(9), Err(Error::InvalidHashBitLen)));
    for _ in 0..28 {
        // Iterate through rest of key to test depth
        hb.next(8).unwrap();
    }
    assert!(matches!(hb.next(1), Err(Error::MaxDepth)));
}

#[test]
fn test_partial_last_bits() {
    let mut key: HashedKey = Default::default();
    key[31] = 0b00000001;
    let bit_width = 5;
    let mut hb = HashBits::new(&key);
    for _ in 0..(256 / bit_width) {
        hb.next(bit_width).unwrap();
    }
    assert!(matches!(hb.next(bit_width), Ok(1)));
    assert!(matches!(hb.next(bit_width), Err(Error::MaxDepth)));
}

#[test]
fn invalid_bit_lengths_fail() {
    let key: HashedKey = [0xFF; 32];
    let mut hb = HashBits::new(&key);
    assert!(matches!(hb.next(0), Err(Error::InvalidHashBitLen)));
    assert!(matches!(hb.next(9), Err(Error::InvalidHashBitLen)));
    assert!(matches!(hb.next(10), Err(Error::InvalidHashBitLen)));
    assert!(matches!(hb.next(u32::MAX), Err(Error::InvalidHashBitLen)));
    // A failed request consumes nothing.
    assert_eq!(hb.consumed, 0);
    // The check precedes exhaustion: after consuming everything, a bad
    // length still reports InvalidHashBitLen, not MaxDepth.
    for _ in 0..32 {
        hb.next(8).unwrap();
    }
    assert!(matches!(hb.next(9), Err(Error::InvalidHashBitLen)));
}

#[test]
fn eight_bit_reads_exhaust_in_32_steps() {
    let mut key: HashedKey = Default::default();
    for (i, b) in key.iter_mut().enumerate() {
        *b = i as u8;
    }
    let mut hb = HashBits::new(&key);
    for i in 0..32 {
        assert_eq!(hb.next(8).unwrap(), i as u32);
    }
    assert!(matches!(hb.next(8), Err(Error::MaxDepth)));
    assert!(matches!(hb.next(1), Err(Error::MaxDepth)));
}

#[test]
fn new_at_index_resumes_mid_byte() {
    let mut key: HashedKey = Default::default();
    key[0] = 0b1011_0110;
    key[1] = 0b1100_0000;
    let mut hb = HashBits::new_at_index(&key, 3);
    // Bits 3..=9 are 1011011 read across the byte boundary.
    assert_eq!(hb.next(7).unwrap(), 0b1011011);
    assert_eq!(hb.consumed, 10);
}
