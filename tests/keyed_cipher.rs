use rc5_cipher::{Rc5, Rc5Error, Rc5Version};

#[test]
fn cypher_encode_a() {
    let key = vec![
        0x00, 0x01, 0x02, 0x03, 0x04, 0x05, 0x06, 0x07, 0x08, 0x09, 0x0A, 0x0B, 0x0C, 0x0D, 0x0E,
        0x0F,
    ];
    let pt = vec![0x00, 0x11, 0x22, 0x33, 0x44, 0x55, 0x66, 0x77];
    let ct = vec![0x2D, 0xDC, 0x14, 0x9B, 0xCF, 0x08, 0x8B, 0x9E];

    let rc5 = Rc5::new(&key, Rc5Version::Rc5_32_12_16).unwrap();
    let res = rc5.encrypt(pt.clone()).unwrap();

    assert_eq!(ct, res);

    let res = rc5.decrypt(&res).unwrap();
    assert_eq!(pt, res);
}

#[test]
fn cypher_encode_b() {
    let key = vec![
        0x2B, 0xD6, 0x45, 0x9F, 0x82, 0xC5, 0xB3, 0x00, 0x95, 0x2C, 0x49, 0x10, 0x48, 0x81, 0xFF,
        0x48,
    ];
    let pt = vec![0xEA, 0x02, 0x47, 0x14, 0xAD, 0x5C, 0x4D, 0x84];
    let ct = vec![0x11, 0xE4, 0x3B, 0x86, 0xD2, 0x31, 0xEA, 0x64];
    let rc5 = Rc5::new(&key, Rc5Version::Rc5_32_12_16).unwrap();
    let res = rc5.encrypt(pt.clone()).unwrap();

    assert!(&ct[..] == &res[..]);
}

#[test]
fn cypher_decode_a() {
    let key = vec![
        0x00, 0x01, 0x02, 0x03, 0x04, 0x05, 0x06, 0x07, 0x08, 0x09, 0x0A, 0x0B, 0x0C, 0x0D, 0x0E,
        0x0F,
    ];
    let pt = vec![0x96, 0x95, 0x0D, 0xDA, 0x65, 0x4A, 0x3D, 0x62];
    let ct = vec![0x00, 0x11, 0x22, 0x33, 0x44, 0x55, 0x66, 0x77];
    let rc5 = Rc5::new(&key, Rc5Version::Rc5_32_12_16).unwrap();
    let res = rc5.decrypt(&ct).unwrap();
    assert!(&pt[..] == &res[..]);
}

#[test]
fn cypher_decode_b() {
    let key = vec![
        0x2B, 0xD6, 0x45, 0x9F, 0x82, 0xC5, 0xB3, 0x00, 0x95, 0x2C, 0x49, 0x10, 0x48, 0x81, 0xFF,
        0x48,
    ];
    let pt = vec![0x63, 0x8B, 0x3A, 0x5E, 0xF7, 0x2B, 0x66, 0x3F];
    let ct = vec![0xEA, 0x02, 0x47, 0x14, 0xAD, 0x5C, 0x4D, 0x84];
    let rc5 = Rc5::new(&key, Rc5Version::Rc5_32_12_16).unwrap();
    let res = rc5.decrypt(&ct).unwrap();
    assert!(&pt[..] == &res[..]);
}

#[test]
fn cypher_key_length_off_by_one() {
    assert!(matches!(
        Rc5::new(&[0u8; 15], Rc5Version::Rc5_32_12_16),
        Err(Rc5Error::InvalidKeyLen)
    ));
    assert!(matches!(
        Rc5::new(&[0u8; 17], Rc5Version::Rc5_32_16_16),
        Err(Rc5Error::InvalidKeyLen)
    ));
}

#[test]
fn cypher_block_one_byte_short() {
    let rc5 = Rc5::new(&[1u8; 16], Rc5Version::Rc5_32_12_16).unwrap();
    assert_eq!(rc5.encrypt(vec![0u8; 7]), Err(Rc5Error::BufferOutOfBounds));
    assert_eq!(rc5.decrypt(&[0u8; 7]), Err(Rc5Error::BufferOutOfBounds));
}

#[test]
fn cypher_sixteen_rounds_round_trip() {
    let key: Vec<u8> = (0..16u8).collect();
    let rc12 = Rc5::new(&key, Rc5Version::Rc5_32_12_16).unwrap();
    let rc16 = Rc5::new(&key, Rc5Version::Rc5_32_16_16).unwrap();
    let pt = vec![0x00, 0x11, 0x22, 0x33, 0x44, 0x55, 0x66, 0x77];
    let c16 = rc16.encrypt(pt.clone()).unwrap();
    assert_ne!(c16, rc12.encrypt(pt.clone()).unwrap());
    assert_eq!(rc16.decrypt(&c16).unwrap(), pt);
}
