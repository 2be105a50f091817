use rc5_cipher::{div_ceil, BigNum};

#[test]
fn multiplication_test() {
    let mut res =
        BigNum::new("123456789000000000000000000000000000000000000011111111111111111111111.0");
    res.multiply(20);
    let expected =
        "2469135780000000000000000000000000000000000000222222222222222222222220.0".to_string();
    assert_eq!(res.to_string(), expected);

    let mut res =
        BigNum::new("123456789000000000000000000000000000000000000011111111111111111111111");
    res.multiply(0);
    assert_eq!(res.to_string(), "0".to_string());
}

#[test]
fn multiplication_keeps_fraction_digits() {
    let mut res = BigNum::new("1.5");
    res.multiply(2);
    assert_eq!(res.to_string(), "3.0");

    let mut res = BigNum::new("0.25");
    res.multiply(2);
    assert_eq!(res.to_string(), ".50");

    let mut res = BigNum::new("0.75");
    res.multiply(2);
    assert_eq!(res.to_string(), "1.50");

    let mut res = BigNum::new("1.5");
    res.multiply(0);
    assert_eq!(res.to_string(), ".0");
}

#[test]
fn multiplication_by_large_factor() {
    let mut res = BigNum::new("3");
    res.multiply(u128::MAX);
    assert_eq!(res.to_string(), "1020847100762815390390123822295304634365");

    let mut res = BigNum::new("007");
    res.multiply(10);
    assert_eq!(res.to_string(), "70");
}

#[test]
fn truncate_keeps_integer_part() {
    assert_eq!(BigNum::new("123.456").truncate(), "123");
    assert_eq!(BigNum::new("42").truncate(), "42");
    assert_eq!(BigNum::new(".5").truncate(), "");
}

#[test]
fn binary_odd_test() {
    let mut val = String::from("100");
    BigNum::binary_odd(&mut val);
    assert_eq!(val, "101".to_string());

    let mut val = String::from("11");
    BigNum::binary_odd(&mut val);
    assert_eq!(val, "11".to_string());
}

#[test]
fn binary_odd_of_empty_is_empty() {
    let mut val = String::new();
    BigNum::binary_odd(&mut val);
    assert_eq!(val, "");
}

#[test]
fn convert_to_binary_test() {
    assert_eq!("111", BigNum::convert_to_binary(&"7".to_string()));
}

#[test]
fn convert_to_binary_more() {
    assert_eq!(BigNum::convert_to_binary(&"0".to_string()), "0");
    assert_eq!(BigNum::convert_to_binary(&"10".to_string()), "1010");
    assert_eq!(BigNum::convert_to_binary(&"256".to_string()), "100000000");
    assert_eq!(
        BigNum::convert_to_binary(&"3084996963".to_string()),
        "10110111111000010101000101100011"
    );
}

#[test]
fn binary_to_hex_test() {
    assert_eq!("F", BigNum::convert_binary_to_hex(&"1111".to_string()));
}

#[test]
fn binary_to_hex_more() {
    assert_eq!(BigNum::convert_binary_to_hex(&"".to_string()), "");
    assert_eq!(BigNum::convert_binary_to_hex(&"00001010".to_string()), "0A");
    assert_eq!(BigNum::convert_binary_to_hex(&"101111000111".to_string()), "BC7");
}

#[test]
fn calc_magic_consts_test() {
    BigNum::magic_constants(16);
    BigNum::magic_constants(32);
    BigNum::magic_constants(64);
    BigNum::magic_constants(128);

    BigNum::magic_constants(256);
    BigNum::magic_constants(512);
}

#[test]
fn magic_constants_known_values() {
    assert_eq!(BigNum::magic_constants(8), ("B7".to_string(), "9F".to_string()));
    assert_eq!(BigNum::magic_constants(16), ("B7E1".to_string(), "9E37".to_string()));
    assert_eq!(BigNum::magic_constants(32), ("B7E15163".to_string(), "9E3779B9".to_string()));
    assert_eq!(
        BigNum::magic_constants(64),
        ("B7E151628AED2A6B".to_string(), "9E3779B97F4A7C15".to_string())
    );
    assert_eq!(
        BigNum::magic_constants(128),
        (
            "B7E151628AED2A6ABF7158809CF4F3C7".to_string(),
            "9E3779B97F4A7C15F39CC0605CEDC835".to_string()
        )
    );
}

#[test]
fn magic_constant_of_own_seed() {
    let seed = BigNum::new("0.5");
    assert_eq!(BigNum::magic_constant(&seed, 8), "81");
}

#[test]
fn div_ceil_test() {
    assert!(15 == div_ceil(59, 4));
    assert!(15 == div_ceil(15, 1));
    assert!(12 == div_ceil(23, 2));
    assert!(5 == div_ceil(17, 4));
}

#[test]
fn div_ceil_edges() {
    assert_eq!(div_ceil(0, 4), 0);
    assert_eq!(div_ceil(usize::MAX, 1), usize::MAX);
    assert_eq!(div_ceil(usize::MAX, 2), usize::MAX / 2 + 1);
}
