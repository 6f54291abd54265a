use pathfinder::account::{validate_and_parse_ethereum_address, Address};
use pathfinder::errors::FlowError;
use pathfinder::value::{validate_and_parse_u256, U256};

const MAX_DECIMAL: &str =
    "115792089237316195423570985008687907853269984665640564039457584007913129639935";
const OVER_MAX_DECIMAL: &str =
    "115792089237316195423570985008687907853269984665640564039457584007913129639936";

#[test]
fn parses_small_decimal_values() {
    assert_eq!(validate_and_parse_u256("0").unwrap(), U256::zero());
    assert_eq!(validate_and_parse_u256("42").unwrap(), U256::from_u64(42));
    assert_eq!(
        validate_and_parse_u256("18446744073709551616").unwrap(),
        U256 { l0: 0, l1: 1, l2: 0, l3: 0 }
    );
}

#[test]
fn parses_the_largest_value() {
    assert_eq!(validate_and_parse_u256(MAX_DECIMAL).unwrap(), U256::max_value());
}

#[test]
fn rejects_value_above_range() {
    assert_eq!(
        validate_and_parse_u256(OVER_MAX_DECIMAL).err().unwrap(),
        FlowError::ValueRangeError
    );
}

#[test]
fn rejects_malformed_value_strings() {
    assert_eq!(validate_and_parse_u256("").err().unwrap(), FlowError::ValueFormatError);
    assert_eq!(validate_and_parse_u256("12a4").err().unwrap(), FlowError::ValueFormatError);
    assert_eq!(validate_and_parse_u256("-5").err().unwrap(), FlowError::ValueFormatError);
    assert_eq!(validate_and_parse_u256("+5").err().unwrap(), FlowError::ValueFormatError);
    assert_eq!(validate_and_parse_u256("1 0").err().unwrap(), FlowError::ValueFormatError);
    // A malformed string is a format error even when its digit prefix is huge.
    let mut huge_then_bad = String::from(OVER_MAX_DECIMAL);
    huge_then_bad.push('x');
    assert_eq!(
        validate_and_parse_u256(&huge_then_bad).err().unwrap(),
        FlowError::ValueFormatError
    );
}

#[test]
fn checked_arithmetic_reports_overflow_and_underflow() {
    let one = U256::from_u64(1);
    assert_eq!(U256::max_value().checked_add(one), None);
    assert_eq!(U256::zero().checked_sub(one), None);
    let x = U256::from_u64(u64::MAX);
    let sum = x.checked_add(one).unwrap();
    assert_eq!(sum, U256 { l0: 0, l1: 1, l2: 0, l3: 0 });
    assert_eq!(sum.checked_sub(one).unwrap(), x);
    assert_eq!(x.min_of(sum), x);
    assert_eq!(sum.min_of(x), x);
    assert!(x.lt(&sum));
    assert!(x.le(&x));
}

#[test]
fn division_by_ten_walks_digits() {
    let (q, r) = U256::from_u64(1234).div10();
    assert_eq!(q, U256::from_u64(123));
    assert_eq!(r, 4);
    let (q0, r0) = U256::zero().div10();
    assert_eq!(q0, U256::zero());
    assert_eq!(r0, 0);
}

#[test]
fn parses_addresses_case_insensitively() {
    let lower = "0x00000000000000000000000000000000000000ff";
    let upper = "0x00000000000000000000000000000000000000FF";
    let a = validate_and_parse_ethereum_address(lower).unwrap();
    let b = validate_and_parse_ethereum_address(upper).unwrap();
    assert_eq!(a, b);
    assert_eq!(a, Address { w0: 0, w1: 0, w2: 255 });
}

#[test]
fn parses_address_words_in_byte_order() {
    let s = "0x0123456789abcdef11223344556677889900aabb";
    let a = validate_and_parse_ethereum_address(s).unwrap();
    assert_eq!(a.w0, 0x0123456789abcdef);
    assert_eq!(a.w1, 0x1122334455667788);
    assert_eq!(a.w2, 0x9900aabb);
}

#[test]
fn rejects_malformed_addresses() {
    for bad in [
        "",
        "0x",
        "1234",
        "0x0123456789abcdef11223344556677889900aab",
        "0x0123456789abcdef11223344556677889900aabbc",
        "00x123456789abcdef11223344556677889900aabb",
        "0x0123456789abcdef11223344556677889900aabg",
    ] {
        assert_eq!(
            validate_and_parse_ethereum_address(bad).err().unwrap(),
            FlowError::AddressFormatError,
            "{bad}"
        );
    }
}

#[test]
fn renders_decimal_numerals() {
    assert_eq!(U256::zero().to_decimal(), "0");
    assert_eq!(U256::from_u64(7).to_decimal(), "7");
    assert_eq!(U256::from_u64(1050).to_decimal(), "1050");
    assert_eq!(U256::max_value().to_decimal(), MAX_DECIMAL);
    assert_eq!(
        (U256 { l0: 0, l1: 1, l2: 0, l3: 0 }).to_decimal(),
        "18446744073709551616"
    );
}

#[test]
fn decimal_and_hex_round_trips() {
    for s in ["0", "1", "999", "18446744073709551615", "18446744073709551616", MAX_DECIMAL] {
        let v = validate_and_parse_u256(s).unwrap();
        assert_eq!(v.to_decimal(), s);
    }
    for s in [
        "0x0000000000000000000000000000000000000000",
        "0x0123456789abcdef11223344556677889900aabb",
        "0xffffffffffffffffffffffffffffffffffffffff",
    ] {
        let a = validate_and_parse_ethereum_address(s).unwrap();
        assert_eq!(a.to_hex(), s);
    }
}
