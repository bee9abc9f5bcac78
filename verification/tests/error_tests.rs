use anybase::bigint_to_dst_table;
use anybase::convert_base;
use anybase::parse_to_bigint;
use anybase::BigInt;
use anybase::ConvertError;
use anybase::Converter;
use anybase::TableKind;
use anybase::TableRule;

#[test]
fn test_empty_src_table_rejected() {
    assert_eq!(
        convert_base("123", "", "0123456789"),
        Err(ConvertError::InvalidTable {
            table: TableKind::Source,
            rule: TableRule::Empty,
        })
    );
}

#[test]
fn test_empty_dst_table_rejected() {
    assert_eq!(
        convert_base("123", "0123456789", ""),
        Err(ConvertError::InvalidTable {
            table: TableKind::Destination,
            rule: TableRule::Empty,
        })
    );
}

#[test]
fn test_duplicate_dst_table_rejected() {
    assert_eq!(
        convert_base("123", "0123456789", "011"),
        Err(ConvertError::InvalidTable {
            table: TableKind::Destination,
            rule: TableRule::Duplicate,
        })
    );
}

#[test]
fn test_duplicate_src_table_rejected() {
    assert_eq!(
        convert_base("1", "011", "01"),
        Err(ConvertError::InvalidTable {
            table: TableKind::Source,
            rule: TableRule::Duplicate,
        })
    );
}

#[test]
fn test_invalid_digit_reported_with_position() {
    assert_eq!(
        convert_base("9", "01", "0123456789"),
        Err(ConvertError::InvalidDigit { ch: '9', pos: 0 })
    );
    // the first offending character decides
    assert_eq!(
        convert_base("01x1y", "01", "0123456789"),
        Err(ConvertError::InvalidDigit { ch: 'x', pos: 2 })
    );
}

#[test]
fn test_division_by_zero_reported() {
    let mut b = BigInt::zero();
    b.add_small(7);
    assert_eq!(b.div_mod_small(0), Err(ConvertError::DivisionByZero));
}

#[test]
fn test_unary_destination_not_representable() {
    assert_eq!(
        convert_base("1", "01", "0"),
        Err(ConvertError::NotRepresentable)
    );
    // zero still renders over a one-character destination
    assert_eq!(convert_base("0", "01", "0").unwrap(), "0");
    // ... and a one-character source always denotes zero
    assert_eq!(convert_base("xxx", "x", "01").unwrap(), "0");
}

#[test]
fn test_new_reports_source_before_destination() {
    match Converter::new("", "011") {
        Err(e) => assert_eq!(
            e,
            ConvertError::InvalidTable {
                table: TableKind::Source,
                rule: TableRule::Empty,
            }
        ),
        Ok(_) => panic!("an empty source table must be rejected"),
    }
}

#[test]
fn test_parse_to_bigint_errors() {
    assert_eq!(
        parse_to_bigint("1", ""),
        Err(ConvertError::InvalidTable {
            table: TableKind::Source,
            rule: TableRule::Empty,
        })
    );
    assert_eq!(
        parse_to_bigint("1", "didi"),
        Err(ConvertError::InvalidTable {
            table: TableKind::Source,
            rule: TableRule::Duplicate,
        })
    );
    assert_eq!(
        parse_to_bigint("21", "01"),
        Err(ConvertError::InvalidDigit { ch: '2', pos: 0 })
    );
}

#[test]
fn test_bigint_to_dst_table_errors() {
    let b = parse_to_bigint("255", "0123456789").unwrap();
    assert_eq!(
        bigint_to_dst_table(b, ""),
        Err(ConvertError::InvalidTable {
            table: TableKind::Destination,
            rule: TableRule::Empty,
        })
    );
    let b = parse_to_bigint("255", "0123456789").unwrap();
    assert_eq!(bigint_to_dst_table(b, "0"), Err(ConvertError::NotRepresentable));
}
