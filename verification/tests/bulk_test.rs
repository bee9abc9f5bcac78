use anybase::convert_base;

#[test]
fn test_bidirectional_conversion() {
    let test_cases = vec![
        // (input, src_table, dst_table)
        ("ff", "0123456789abcdef", "01234567"),
        ("377", "01234567", "0123456789abcdef"),
        (
            "12345",
            "0123456789",
            "0123456789abcdefghijklmnopqrstuvwxyz",
        ),
        ("9ix", "0123456789abcdefghijklmnopqrstuvwxyz", "0123456789"),
        ("zzzz", "0123456789abcdefghijklmnopqrstuvwxyz", "0123456789"),
        ("0", "0123456789abcdef", "01234567"),
        ("0", "0123456789", "0123456789abcdefghijklmnopqrstuvwxyz"),
        ("abc", "abcdefghijklmnopqrstuvwxyz", "0123456789"),
        ("777", "01234567", "0123456789"),
        ("hello", "abcdefghijklmnopqrstuvwxyz", "0123456789abcdef"),
        ("rust", "abcdefghijklmnopqrstuvwxyz", "0123456789"),
        // a case with a leading zero digit
        ("abc", "abcdefghijklmnopqrstuvwxyz", "0123456789"),
    ];

    for (input, src_table, dst_table) in test_cases {
        // forward: src base -> dst base
        let forward_result = convert_base(input, src_table, dst_table).expect(&format!(
            "Failed to convert {} from {} to {}",
            input, src_table, dst_table
        ));

        // backward: dst base -> src base
        let backward_result = convert_base(&forward_result, dst_table, src_table).expect(&format!(
            "Failed to convert back {} from {} to {}",
            forward_result, dst_table, src_table
        ));

        // A leading zero digit is dropped by the conversion, so inputs that
        // begin with the source's zero digit cannot be compared verbatim.
        let expected = if input.chars().count() > 1 {
            let zero_digit = src_table.chars().next().unwrap();
            input.trim_start_matches(zero_digit)
        } else {
            input
        };

        assert_eq!(
            expected, backward_result,
            "Bidirectional conversion failed: {} -> {} -> {} (expected {})",
            input, forward_result, backward_result, expected
        );
    }

    // strings consisting only of zero digits
    let all_zero_cases = vec![
        ("0", "0123456789", "0123456789abcdef"),
        ("000", "0123456789", "0123456789abcdef"),
        ("0000", "0123456789abcdef", "01234567"),
    ];

    for (input, src_table, dst_table) in all_zero_cases {
        let forward_result = convert_base(input, src_table, dst_table).expect(&format!(
            "Failed to convert {} from {} to {}",
            input, src_table, dst_table
        ));
        let backward_result = convert_base(&forward_result, dst_table, src_table).expect(&format!(
            "Failed to convert back {} from {} to {}",
            forward_result, dst_table, src_table
        ));

        // every all-zero string becomes the single zero digit
        assert_eq!("0", forward_result);
        assert_eq!("0", backward_result);
    }
}
