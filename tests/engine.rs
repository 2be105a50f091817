use rc5_cipher::{Rc5Error, WordBuilder, RC5};

#[test]
fn serde_test() {
    let rc5 = RC5::new(32, 12, 16);
    let bytes = vec![
        0x00, 0x01, 0x02, 0x03, 0x04, 0x05, 0x06, 0x07, 0x08, 0x09, 0x0A, 0x0B, 0x0C, 0x0D, 0x0E,
        0x0F,
    ];
    let parsed = rc5.parse(&bytes);
    let res = rc5.serialize(&parsed);
    assert_eq!(&bytes[..], &res[..]);
}

#[test]
fn key_expansion_test() {
    let key = vec![0x00, 0x01, 0x02, 0x03, 0x04, 0x05, 0x06, 0x07];
    let rc5 = RC5::new(16, 16, 8);
    rc5.key_expansion(&key);
}

#[test]
fn key_expansion_table_length() {
    let key = vec![0x00, 0x01, 0x02, 0x03, 0x04, 0x05, 0x06, 0x07];
    let rc5 = RC5::new(16, 16, 8);
    assert_eq!(rc5.key_expansion(&key).len(), 34);
}

#[test]
fn parse_reads_little_endian_words() {
    let rc5 = RC5::new(32, 12, 16);
    let words = rc5.parse(&[0x01, 0x02, 0x03, 0x04, 0x05, 0x06]);
    let wb = WordBuilder::new(32);
    assert_eq!(words.len(), 2);
    assert!(words[0] == wb.build_word(0x0403_0201));
    assert!(words[1] == wb.build_word(0x0605));
}

#[test]
fn engine_known_answer() {
    let rc5 = RC5::new(32, 12, 16);
    let key = vec![
        0x00, 0x01, 0x02, 0x03, 0x04, 0x05, 0x06, 0x07, 0x08, 0x09, 0x0A, 0x0B, 0x0C, 0x0D, 0x0E,
        0x0F,
    ];
    let pt = vec![0x00, 0x11, 0x22, 0x33, 0x44, 0x55, 0x66, 0x77];
    let ct = vec![0x2D, 0xDC, 0x14, 0x9B, 0xCF, 0x08, 0x8B, 0x9E];
    assert_eq!(rc5.encrypt(&key, &pt), Ok(ct.clone()));
    assert_eq!(rc5.decrypt(&key, &ct), Ok(pt));
}

#[test]
fn engine_round_trip_every_width() {
    for width in [8usize, 16, 32, 64, 128] {
        for rounds in [1u8, 12, 20] {
            let rc5 = RC5::new(width, rounds, 10);
            let key: Vec<u8> = (0..10u8).map(|i| i.wrapping_mul(37).wrapping_add(5)).collect();
            let block: Vec<u8> = (0..(2 * width / 8) as u8).map(|i| i.wrapping_mul(91)).collect();
            let ct = rc5.encrypt(&key, &block).unwrap();
            assert_eq!(ct.len(), block.len());
            assert_ne!(ct, block);
            assert_eq!(rc5.decrypt(&key, &ct).unwrap(), block);
        }
    }
}

#[test]
fn engine_is_deterministic() {
    let key = vec![7u8; 16];
    let block = vec![0x42u8; 16];
    let a = RC5::new(64, 12, 16);
    let b = RC5::new(64, 12, 16);
    assert_eq!(a.encrypt(&key, &block), b.encrypt(&key, &block));
    assert_eq!(a.encrypt(&key, &block), a.encrypt(&key, &block));
    let ta: Vec<_> = a.key_expansion(&key).iter().map(|w| w.data.extract()).collect();
    let tb: Vec<_> = b.key_expansion(&key).iter().map(|w| w.data.extract()).collect();
    assert_eq!(ta, tb);
}

#[test]
fn engine_key_length_off_by_one() {
    let rc5 = RC5::new(32, 12, 16);
    let block = vec![0u8; 8];
    assert_eq!(rc5.encrypt(&[0u8; 15], &block), Err(Rc5Error::InvalidKeyLen));
    assert_eq!(rc5.encrypt(&[0u8; 17], &block), Err(Rc5Error::InvalidKeyLen));
    assert_eq!(rc5.decrypt(&[0u8; 15], &block), Err(Rc5Error::InvalidKeyLen));
}

#[test]
fn engine_block_one_byte_short() {
    let rc5 = RC5::new(32, 12, 16);
    let key = vec![0u8; 16];
    assert_eq!(rc5.encrypt(&key, &[0u8; 7]), Err(Rc5Error::BufferOutOfBounds));
    assert_eq!(rc5.decrypt(&key, &[0u8; 7]), Err(Rc5Error::BufferOutOfBounds));
}

#[test]
fn serialize_writes_each_word_little_endian() {
    let rc5 = RC5::new(16, 12, 16);
    let wb = WordBuilder::new(16);
    let words = vec![wb.build_word(0x1234), wb.build_word(0xABCD)];
    assert_eq!(rc5.serialize(&words), vec![0x34, 0x12, 0xCD, 0xAB]);
}
