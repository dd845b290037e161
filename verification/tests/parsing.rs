use compare_sort_algorithms::parse::parse_dataset;
use compare_sort_algorithms::parse::parse_i32;

fn bytes(s: &str) -> Vec<u8> {
    s.as_bytes().to_vec()
}

#[test]
fn plain_number_parses() {
    assert_eq!(parse_i32(&bytes("42")), Some(42));
    assert_eq!(parse_i32(&bytes("0")), Some(0));
}

#[test]
fn surrounding_whitespace_is_trimmed() {
    assert_eq!(parse_i32(&bytes("  -17 \t\n")), Some(-17));
    assert_eq!(parse_i32(&bytes("\r\n8\r\n")), Some(8));
}

#[test]
fn explicit_plus_sign_is_accepted() {
    assert_eq!(parse_i32(&bytes("+8")), Some(8));
}

#[test]
fn malformed_lines_are_rejected() {
    assert_eq!(parse_i32(&bytes("abc")), None);
    assert_eq!(parse_i32(&bytes("12a")), None);
    assert_eq!(parse_i32(&bytes("1 2")), None);
    assert_eq!(parse_i32(&bytes("")), None);
    assert_eq!(parse_i32(&bytes("   ")), None);
    assert_eq!(parse_i32(&bytes("-")), None);
    assert_eq!(parse_i32(&bytes("+")), None);
    assert_eq!(parse_i32(&bytes("--4")), None);
}

#[test]
fn range_boundaries_of_i32() {
    assert_eq!(parse_i32(&bytes("2147483647")), Some(i32::MAX));
    assert_eq!(parse_i32(&bytes("2147483648")), None);
    assert_eq!(parse_i32(&bytes("-2147483648")), Some(i32::MIN));
    assert_eq!(parse_i32(&bytes("-2147483649")), None);
    assert_eq!(parse_i32(&bytes("99999999999999999999")), None);
}

#[test]
fn leading_zeros_are_allowed() {
    assert_eq!(parse_i32(&bytes("007")), Some(7));
    assert_eq!(parse_i32(&bytes("-000000000000000000012")), Some(-12));
}

#[test]
fn dataset_with_good_lines_parses_whole() {
    let lines = vec![bytes("5"), bytes(" 3"), bytes("3 "), bytes("1")];
    assert_eq!(parse_dataset(&lines), Some(vec![5, 3, 3, 1]));
}

#[test]
fn dataset_with_a_malformed_line_fails_before_any_sort() {
    let lines = vec![bytes("5"), bytes("abc"), bytes("1")];
    assert_eq!(parse_dataset(&lines), None);
}

#[test]
fn empty_dataset_parses_to_no_numbers() {
    let lines: Vec<Vec<u8>> = Vec::new();
    assert_eq!(parse_dataset(&lines), Some(Vec::new()));
}
