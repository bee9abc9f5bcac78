use anybase::convert_base;
use anybase::Converter;
use anybase::DEC;
use anybase::HEX;

#[test]
// playground
fn something() {}

#[test]
fn test_basic() {
    let src = "0123456789abcdef";
    let dst = "01234567";
    assert_eq!(convert_base("ff", src, dst).unwrap(), "377");
    assert_eq!(convert_base("0", src, dst).unwrap(), "0");
}

#[test]
fn test_large() {
    // Large repeated characters, testing performance/correctness
    let src = "0123456789abcdefghijklmnopqrstuvwxyz"; // base36
    let dst = "01"; // to binary
    let input = "z".repeat(200); // very large number
    let out = convert_base(&input, src, dst).unwrap();
    assert!(!out.is_empty());
}

#[test]
fn test_converter() {
    let converter = Converter::new("0123456789", "01").unwrap();
    let result = converter.convert("10").unwrap();
    assert_eq!(result, "1010");
}

#[test]
fn test_inverse() {
    let converter = Converter::new("0123456789", "01").unwrap();
    let inv_converter = converter.inverse().unwrap();
    let result = inv_converter.convert("1010").unwrap();
    assert_eq!(result, "10");
}

#[test]
fn test_same_table() {
    let converter = Converter::new("0123456789", "0123456789").unwrap();
    let result = converter.convert("12345").unwrap();
    assert_eq!(result, "12345");
}

#[test]
fn test_preset_bases() {
    let converter = Converter::new(DEC, HEX).unwrap();
    let result = converter.convert("255").unwrap();
    assert_eq!(result, "ff");
}

#[test]
fn test_main() {
    let src = "0123456789";
    let dst = "abcdefghijklmnopqrstuvwxyz";

    for i in "你好啊世界\u{9fff}\u{4e00}".chars() {
        let input = format!("{}", i as u32);
        let out = convert_base(&input, src, dst).unwrap();
        println!("{} -> {}", input, out);
        assert!(!out.is_empty());
    }
}
