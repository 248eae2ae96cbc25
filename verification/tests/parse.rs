use cut::field_range::FieldRange;
use cut::parse::{make_field_list, make_field_range, parse_int, ParseError};

#[test]
fn test_parse_int1() {
    assert_eq!(parse_int("100"), Ok(100))
}

#[test]
fn test_make_field_list1() {
    let fields_str = "1";
    let length = 10;
    let field_list = make_field_list(&fields_str).unwrap();
    let output = field_list.get_fields(&length);
    let expected_output = vec![1];
    assert_eq!(output, expected_output)
}

#[test]
fn test_make_field_list2() {
    let fields_str = "2-";
    let length = 5;
    let field_list = make_field_list(&fields_str).unwrap();
    let output = field_list.get_fields(&length);
    let expected_output = vec![2, 3, 4, 5];
    assert_eq!(output, expected_output)
}

#[test]
fn test_make_field_list3() {
    let fields_str = "2-4";
    let length = 5;
    let field_list = make_field_list(&fields_str).unwrap();
    let output = field_list.get_fields(&length);
    let expected_output = vec![2, 3, 4];
    assert_eq!(output, expected_output)
}

#[test]
fn test_make_field_list4() {
    let fields_str = "2-4,8,11-14";
    let length = 25;
    let field_list = make_field_list(&fields_str).unwrap();
    let output = field_list.get_fields(&length);
    let expected_output = vec![2, 3, 4, 8, 11, 12, 13, 14];
    assert_eq!(output, expected_output)
}

#[test]
fn test_make_field_list5() {
    let fields_str = "4,11-";
    let length = 14;
    let field_list = make_field_list(&fields_str).unwrap();
    let output = field_list.get_fields(&length);
    let expected_output = vec![4, 11, 12, 13, 14];
    assert_eq!(output, expected_output)
}

#[test]
fn parse_int_reads_plain_numbers() {
    assert_eq!(parse_int("0"), Ok(0));
    assert_eq!(parse_int("7"), Ok(7));
    assert_eq!(parse_int("007"), Ok(7));
    assert_eq!(parse_int("4294967295"), Ok(4294967295));
    assert_eq!(parse_int("00000000000000000000004294967295"), Ok(4294967295));
}

#[test]
fn parse_int_takes_no_sign() {
    assert_eq!(parse_int("+5"), Err(ParseError::Number("+5".to_string())));
    assert_eq!(parse_int("+"), Err(ParseError::Number("+".to_string())));
    assert_eq!(parse_int("-5"), Err(ParseError::Number("-5".to_string())));
    assert_eq!(parse_int("5+"), Err(ParseError::Number("5+".to_string())));
}

#[test]
fn parse_int_rejects_what_is_no_number() {
    assert_eq!(parse_int(""), Err(ParseError::Number("".to_string())));
    assert_eq!(parse_int("x"), Err(ParseError::Number("x".to_string())));
    assert_eq!(parse_int("12a"), Err(ParseError::Number("12a".to_string())));
    assert_eq!(parse_int(" 1"), Err(ParseError::Number(" 1".to_string())));
    assert_eq!(parse_int("1 "), Err(ParseError::Number("1 ".to_string())));
    assert_eq!(parse_int("1_0"), Err(ParseError::Number("1_0".to_string())));
    assert_eq!(parse_int("-1"), Err(ParseError::Number("-1".to_string())));
    assert_eq!(parse_int("١"), Err(ParseError::Number("١".to_string())));
}

#[test]
fn parse_int_rejects_what_does_not_fit() {
    assert_eq!(parse_int("4294967296"), Err(ParseError::Number("4294967296".to_string())));
    assert_eq!(
        parse_int("99999999999999999999999999"),
        Err(ParseError::Number("99999999999999999999999999".to_string()))
    );
    assert_eq!(parse_int("42949672950"), Err(ParseError::Number("42949672950".to_string())));
}

#[test]
fn parse_int_agrees_with_the_standard_parser_on_unsigned_tokens() {
    let tokens = [
        "", "0", "1", "-", "-0", "10", "4294967295", "4294967296", "000", "1x", "x1", "1.0",
        "0x10", " 7", "18446744073709551616",
    ];
    for token in tokens {
        let expected = token.parse::<u32>().map_err(|_| ParseError::Number(token.to_string()));
        assert_eq!(parse_int(token), expected);
    }
}

#[test]
fn field_range_of_each_shape() {
    assert_eq!(make_field_range("8"), Ok(FieldRange::Value(8)));
    assert_eq!(make_field_range("11-"), Ok(FieldRange::Range1(11)));
    assert_eq!(make_field_range("2-4"), Ok(FieldRange::Range2((2, 4))));
}

#[test]
fn field_range_with_stray_dashes() {
    assert_eq!(make_field_range("-4"), Ok(FieldRange::Range1(4)));
    assert_eq!(make_field_range("4--"), Ok(FieldRange::Range1(4)));
    assert_eq!(make_field_range("--4"), Ok(FieldRange::Range1(4)));
    assert_eq!(make_field_range("2--4"), Ok(FieldRange::Range2((2, 4))));
    assert_eq!(make_field_range("-2-4-"), Ok(FieldRange::Range2((2, 4))));
}

#[test]
fn field_range_accepts_zero_and_reversed_bounds() {
    assert_eq!(make_field_range("0"), Ok(FieldRange::Value(0)));
    assert_eq!(make_field_range("0-"), Ok(FieldRange::Range1(0)));
    assert_eq!(make_field_range("5-2"), Ok(FieldRange::Range2((5, 2))));
}

#[test]
fn field_range_without_a_bound() {
    assert_eq!(make_field_range("-"), Err(ParseError::Range("-".to_string())));
    assert_eq!(make_field_range("---"), Err(ParseError::Range("---".to_string())));
}

#[test]
fn field_range_with_too_many_bounds() {
    assert_eq!(make_field_range("1-2-3"), Err(ParseError::Range("1-2-3".to_string())));
    assert_eq!(make_field_range("1-2-3-4"), Err(ParseError::Range("1-2-3-4".to_string())));
    assert_eq!(make_field_range("a-b-c"), Err(ParseError::Range("a-b-c".to_string())));
}

#[test]
fn field_range_takes_no_sign() {
    assert_eq!(make_field_range("+2"), Err(ParseError::Number("+2".to_string())));
    assert_eq!(make_field_range("2-+4"), Err(ParseError::Number("+4".to_string())));
}

#[test]
fn field_range_names_the_first_bad_bound() {
    assert_eq!(make_field_range("a-3"), Err(ParseError::Number("a".to_string())));
    assert_eq!(make_field_range("3-b"), Err(ParseError::Number("b".to_string())));
    assert_eq!(make_field_range("a-b"), Err(ParseError::Number("a".to_string())));
    assert_eq!(make_field_range("x-"), Err(ParseError::Number("x".to_string())));
    assert_eq!(make_field_range("4294967296-"), Err(ParseError::Number("4294967296".to_string())));
}

#[test]
fn malformed_range_names_the_part() {
    let error = make_field_list("1-2-3").unwrap_err();
    assert_eq!(error, ParseError::Range("1-2-3".to_string()));
    assert_eq!(error.message(), "could not parse '1-2-3'");
}

#[test]
fn malformed_range_among_good_parts() {
    assert_eq!(make_field_list("1,2-3-4,x").unwrap_err(), ParseError::Range("2-3-4".to_string()));
    assert_eq!(make_field_list("1,x,2-3-4").unwrap_err(), ParseError::Number("x".to_string()));
}

#[test]
fn bad_number_names_the_token() {
    let error = make_field_list("1,2x,3").unwrap_err();
    assert_eq!(error, ParseError::Number("2x".to_string()));
    assert_eq!(error.message(), "Failed to parse 2x");
}

#[test]
fn empty_parts_are_rejected() {
    assert_eq!(make_field_list("").unwrap_err(), ParseError::Number("".to_string()));
    assert_eq!(make_field_list("1,,2").unwrap_err(), ParseError::Number("".to_string()));
    assert_eq!(make_field_list("1,").unwrap_err(), ParseError::Number("".to_string()));
    assert_eq!(make_field_list(",1").unwrap_err(), ParseError::Number("".to_string()));
}

#[test]
fn field_list_keeps_the_written_order() {
    let field_list = make_field_list("3,1-3,7-,3").unwrap();
    assert_eq!(
        field_list.fields,
        vec![
            FieldRange::Value(3),
            FieldRange::Range2((1, 3)),
            FieldRange::Range1(7),
            FieldRange::Value(3),
        ]
    );
    assert_eq!(field_list.get_fields(&8), vec![3, 1, 2, 3, 7, 8, 3]);
}

#[test]
fn field_lists_joined_by_a_comma() {
    let first = make_field_list("5-,2").unwrap();
    let second = make_field_list("1-2,9").unwrap();
    let both = make_field_list("5-,2,1-2,9").unwrap();
    let mut fields = first.fields.clone();
    fields.extend(second.fields.clone());
    assert_eq!(both.fields, fields);
    let mut expected = first.get_fields(&6);
    expected.extend(second.get_fields(&6));
    assert_eq!(both.get_fields(&6), expected);
    assert_eq!(both.get_fields(&6), vec![5, 6, 2, 1, 2]);
}

#[test]
fn same_selection_resolves_the_same() {
    let once = make_field_list("2-4,8,11-").unwrap().get_fields(&12);
    let again = make_field_list("2-4,8,11-").unwrap().get_fields(&12);
    assert_eq!(once, again);
    assert_eq!(once, vec![2, 3, 4, 8, 11, 12]);
}

#[test]
fn zero_selects_nothing() {
    let field_list = make_field_list("0").unwrap();
    assert_eq!(field_list.fields, vec![FieldRange::Value(0)]);
    for length in [0u32, 1, 2, 10, u32::MAX] {
        assert_eq!(field_list.get_fields(&length), Vec::<u32>::new());
    }
}

#[test]
fn open_range_at_the_end_of_the_line() {
    let field_list = make_field_list("7-").unwrap();
    assert_eq!(field_list.fields, vec![FieldRange::Range1(7)]);
    assert_eq!(field_list.get_fields(&7), vec![7]);
    assert_eq!(field_list.get_fields(&6), Vec::<u32>::new());
    assert_eq!(field_list.get_fields(&0), Vec::<u32>::new());
}

#[test]
fn open_range_from_zero_on_an_empty_line() {
    let field_list = make_field_list("0-").unwrap();
    assert_eq!(field_list.get_fields(&0), Vec::<u32>::new());
}

#[test]
fn closed_range_is_clamped_to_the_line() {
    let field_list = make_field_list("9-11").unwrap();
    assert_eq!(field_list.get_fields(&10), vec![9, 10]);
}
