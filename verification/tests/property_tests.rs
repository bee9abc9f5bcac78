use anybase::bigint_to_dst_table;
use anybase::convert_base;
use anybase::parse_to_bigint;
use anybase::BigInt;
use anybase::Converter;
use anybase::BIN;
use anybase::DEC;
use anybase::HEX;
use anybase::OCT;

#[test]
fn test_seed_scenarios() {
    assert_eq!(
        convert_base("ff", "0123456789abcdef", "01234567").unwrap(),
        "377"
    );
    assert_eq!(
        convert_base(
            "12345",
            "0123456789",
            "0123456789abcdefghijklmnopqrstuvwxyz"
        )
        .unwrap(),
        "9ix"
    );
    assert_eq!(convert_base("1010", "01", "0123456789").unwrap(), "10");
    assert_eq!(
        convert_base("0", "0123456789", "0123456789abcdef").unwrap(),
        "0"
    );
    let converter = Converter::new("0123456789", "01").unwrap();
    assert_eq!(converter.convert("10").unwrap(), "1010");
    assert_eq!(converter.inverse().unwrap().convert("1010").unwrap(), "10");
}

#[test]
fn test_round_trip_concrete() {
    // forward and back reproduces a string with no leading zero digit
    let mid = convert_base("hello", "abcdefghijklmnopqrstuvwxyz", HEX).unwrap();
    let back = convert_base(&mid, HEX, "abcdefghijklmnopqrstuvwxyz").unwrap();
    assert_eq!(back, "hello");
    // ... and the zero digit alone
    let mid = convert_base("a", "abc", "xyz").unwrap();
    assert_eq!(mid, "x");
    assert_eq!(convert_base(&mid, "xyz", "abc").unwrap(), "a");
}

#[test]
fn test_zero_canonicalization_concrete() {
    // any run of the source's zero digit becomes the destination's zero digit
    assert_eq!(convert_base("aaaa", "abc", "xyz").unwrap(), "x");
    assert_eq!(convert_base("a", "abc", "xyz").unwrap(), "x");
    assert_eq!(convert_base("00000", DEC, HEX).unwrap(), "0");
}

#[test]
fn test_identity_strips_leading_zeros() {
    // self-conversion strips leading zero digits but preserves the rest
    assert_eq!(convert_base("0123", DEC, DEC).unwrap(), "123");
    let table = "0123abc";
    assert_eq!(convert_base("0123", table, table).unwrap(), "123");
    assert_eq!(convert_base("00c3a0", table, table).unwrap(), "c3a0");
}

#[test]
fn test_presets() {
    assert_eq!(convert_base("1010", BIN, DEC).unwrap(), "10");
    assert_eq!(convert_base("255", DEC, HEX).unwrap(), "ff");
    assert_eq!(convert_base("ff", HEX, OCT).unwrap(), "377");
    assert_eq!(convert_base("8", DEC, BIN).unwrap(), "1000");
}

#[test]
fn test_accessors() {
    let converter = Converter::new(DEC, BIN).unwrap();
    assert_eq!(converter.src_table(), "0123456789");
    assert_eq!(converter.dst_table(), "01");
    assert_eq!(converter.src_base(), 10);
    assert_eq!(converter.dst_base(), 2);
    let inverse = converter.inverse().unwrap();
    assert_eq!(converter.src_table(), inverse.dst_table());
    assert_eq!(converter.dst_table(), inverse.src_table());
}

#[test]
fn test_multibyte_base_counts_scalars() {
    // the alphabet's size is its count of scalar values, not of bytes
    let converter = Converter::new("你好世界", DEC).unwrap();
    assert_eq!(converter.src_base(), 4);
    // "好你" is 1 * 4 + 0 = 4
    assert_eq!(converter.convert("好你").unwrap(), "4");
}

#[test]
fn test_bigint_primitives() {
    let mut b = BigInt::zero();
    assert!(b.is_zero());
    b.add_small(7);
    assert!(!b.is_zero());
    b.mul_small(6);
    let rem = b.div_mod_small(5).unwrap();
    assert_eq!(rem, 2);
    assert_eq!(bigint_to_dst_table(b, DEC).unwrap(), "8");
    let mut b = BigInt::zero();
    b.mul_small(1000);
    assert!(b.is_zero());
    b.add_small(3);
    b.mul_small(0);
    assert!(b.is_zero());
}

#[test]
fn test_free_function_pipeline() {
    // the two passes exposed as free functions compose into a conversion
    let big = parse_to_bigint("377", OCT).unwrap();
    assert_eq!(bigint_to_dst_table(big, HEX).unwrap(), "ff");
    let zero = parse_to_bigint("", DEC).unwrap();
    assert!(zero.is_zero());
    assert_eq!(bigint_to_dst_table(zero, HEX).unwrap(), "0");
    // an empty input denotes zero end to end
    assert_eq!(convert_base("", DEC, HEX).unwrap(), "0");
}

#[test]
fn test_carry_propagation_across_limbs() {
    // a value wider than two machine words survives a round trip exactly
    let input = "123456789012345678901234567890123456789012345678901234567890";
    let mid = convert_base(input, DEC, HEX).unwrap();
    let back = convert_base(&mid, HEX, DEC).unwrap();
    assert_eq!(back, input);
    // exact expected value: 2^64 and 2^64 - 1 in decimal from hex
    assert_eq!(
        convert_base("10000000000000000", HEX, DEC).unwrap(),
        "18446744073709551616"
    );
    assert_eq!(
        convert_base("ffffffffffffffff", HEX, DEC).unwrap(),
        "18446744073709551615"
    );
}
