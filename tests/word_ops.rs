use rc5_cipher::{Word, WordBuilder, WordType};

#[test]
fn arithmetic_test() {
    let wb = WordBuilder::new(16);

    assert!(wb.build_word(0x3002) == wb.build_word(0x3000) + 2_u8);
    assert!(wb.build_word(0x3039) == wb.build_word(0x3000) + wb.build_word(0x0039));
    assert!(wb.build_word(3) == wb.build_word(34) - wb.build_word(31));
    assert!(wb.build_word(0) == wb.build_word(0x00FF) & wb.build_word(0));
    assert!(wb.build_word(3) == wb.build_word(1) | wb.build_word(2));
    assert!(wb.build_word(0xFFFE) == wb.build_word(0xFFFF) ^ wb.build_word(0x0001));
}

#[test]
fn rotate_test() {
    let wb = WordBuilder::new(16);

    assert!(wb.build_word(0x0022) == wb.build_word(0x0011) << wb.build_word(1));
    assert!(wb.build_word(16) == wb.build_word(1) << wb.build_word(4));
    assert!(wb.build_word(1) == wb.build_word(16) >> wb.build_word(4));

    let result = wb.build_word(0b1111111111111101) << 1_u8;
    assert!(result == wb.build_word(0b1111111111111011));

    let result = wb.build_word(0b1111111111111101) << wb.build_word(1);
    assert!(result == wb.build_word(0b1111111111111011));

    let result = wb.build_word(0b1111111111111011) >> wb.build_word(1);
    assert!(result == wb.build_word(0b1111111111111101));

    let result = wb.build_word(1) >> wb.build_word(0xFFFF);
    assert!(result == wb.build_word(0b10));

    let result = wb.build_word(0b1) << wb.build_word(16);
    assert!(result == wb.build_word(0b1));

    let result = wb.build_word(0x7000) << wb.build_word(0x0100);
    assert!(wb.build_word(0x7000) == result);

    let result = wb.build_word(0x7000) >> wb.build_word(0x0100);
    assert!(wb.build_word(0x7000) == result);

    let result = wb.build_word(0x7000) << wb.build_word(0x0008);
    assert!(wb.build_word(0x0070) == result);

    let result = wb.build_word(0x7000) >> wb.build_word(0x0008);
    assert!(wb.build_word(0x0070) == result);
}

#[test]
fn subtraction_wraps_below_zero() {
    let wb = WordBuilder::new(16);
    assert!(wb.build_word(0x0001) - wb.build_word(0x0002) == wb.build_word(0xFFFF));
    let wb = WordBuilder::new(128);
    assert!(wb.build_word(0) - wb.build_word(1) == wb.build_word(u128::MAX));
}

#[test]
fn addition_wraps_at_every_width() {
    for (width, max) in [
        (8u128, u8::MAX as u128),
        (16, u16::MAX as u128),
        (32, u32::MAX as u128),
        (64, u64::MAX as u128),
        (128, u128::MAX),
    ] {
        let wb = WordBuilder::new(width);
        let sum = wb.build_word(max) + wb.build_word(2);
        assert!(sum == wb.build_word(1));
        assert_eq!(sum.data.extract(), (width, 1));
    }
}

#[test]
fn build_word_truncates_to_width() {
    let wb = WordBuilder::new(8);
    assert_eq!(wb.build_word(0x1234).data.extract(), (8, 0x34));
    assert!(wb.build_word(0x1234).data == WordType::U8(0x34));
}

#[test]
fn rotate_by_full_width_is_identity() {
    for width in [8u128, 16, 32, 64, 128] {
        let wb = WordBuilder::new(width);
        let x = wb.build_word(0xA5C3_0F1E_D2B4_9687_1122_3344_5566_7788);
        assert!(x << wb.build_word(width) == x);
        assert!(x >> wb.build_word(width) == x);
    }
}

#[test]
fn rotate_right_then_left_is_identity() {
    for width in [8u128, 16, 32, 64, 128] {
        let wb = WordBuilder::new(width);
        let x = wb.build_word(0x0123_4567_89AB_CDEF_FEDC_BA98_7654_3210);
        for amount in [0u128, 1, 3, 7, 13, 63, 127, 0xFFFF] {
            let y = wb.build_word(amount);
            assert!((x >> y) << y == x);
            assert!((x << y) >> y == x);
        }
    }
}

#[test]
fn rotate_left_moves_top_bits_to_bottom() {
    let wb = WordBuilder::new(32);
    assert!(wb.build_word(0x8000_0001) << wb.build_word(1) == wb.build_word(0x0000_0003));
    assert!(wb.build_word(0x8000_0001) >> wb.build_word(1) == wb.build_word(0xC000_0000));
}

#[test]
fn little_endian_bytes_of_words() {
    let wb = WordBuilder::new(32);
    assert_eq!(wb.build_word(0x0A0B_0C0D).to_le_bytes(), vec![0x0D, 0x0C, 0x0B, 0x0A]);
    let wb = WordBuilder::new(16);
    assert_eq!(wb.build_word(0xBEEF).data.to_le_bytes(), vec![0xEF, 0xBE]);
    let wb = WordBuilder::new(8);
    assert_eq!(wb.build_word(0x7F).to_le_bytes(), vec![0x7F]);
}

#[test]
fn new_word_vec_is_zeroed() {
    let wb = WordBuilder::new(64);
    let v: Vec<Word> = wb.new_word_vec(3);
    assert_eq!(v.len(), 3);
    for w in v {
        assert!(w == wb.build_word(0));
    }
}
