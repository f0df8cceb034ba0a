use school_desk::number::{next_ticket_no, pad_integer, parse_i64, ticket_id_param};

#[test]
fn first_ticket_number_when_table_is_empty() {
    assert_eq!(next_ticket_no(None), "SMB-Q0001");
}

#[test]
fn ticket_number_counts_from_largest_id() {
    assert_eq!(next_ticket_no(Some(41)), "SMB-Q0042");
    assert_eq!(next_ticket_no(Some(0)), "SMB-Q0001");
    assert_eq!(next_ticket_no(Some(998)), "SMB-Q0999");
}

#[test]
fn ticket_number_grows_past_four_digits() {
    assert_eq!(next_ticket_no(Some(9999)), "SMB-Q10000");
    assert_eq!(next_ticket_no(Some(123455)), "SMB-Q123456");
}

#[test]
fn ticket_number_of_negative_ids_keeps_sign_before_zeros() {
    assert_eq!(next_ticket_no(Some(-5)), "SMB-Q-004");
    assert_eq!(next_ticket_no(Some(-1)), "SMB-Q0000");
}

#[test]
fn distinct_ids_give_distinct_ticket_numbers() {
    let ids: Vec<i64> = vec![-1001, -100, -2, 0, 1, 9, 10, 99, 1000, 10000, 99999];
    let numbers: Vec<String> = ids.iter().map(|&i| next_ticket_no(Some(i))).collect();
    for a in 0..numbers.len() {
        for b in 0..numbers.len() {
            if a != b {
                assert_ne!(numbers[a], numbers[b]);
            }
        }
    }
}

#[test]
fn pad_integer_matches_std_formatting() {
    let values: Vec<i64> = vec![
        0, 1, -1, 7, -7, 42, -42, 999, -999, 1000, -1000, 12345, -12345,
        i64::MAX, i64::MIN, i64::MIN + 1,
    ];
    for &v in &values {
        for w in 0..8usize {
            assert_eq!(pad_integer(v, w), format!("{:0w$}", v, w = w), "value {} width {}", v, w);
        }
    }
}

#[test]
fn parse_i64_matches_std_parse() {
    let inputs = [
        "", "+", "-", "0", "-0", "+0", "+12", "-12", "12a", " 1", "1 ", "+-1", "--1", "1.0",
        "9223372036854775807", "9223372036854775808", "-9223372036854775808",
        "-9223372036854775809", "00000000000000000000000000001", "99999999999999999999999",
        "\u{0661}", "12\u{00e9}", "0x10",
    ];
    for s in inputs.iter() {
        assert_eq!(parse_i64(s), s.parse::<i64>().ok(), "input {:?}", s);
    }
}

#[test]
fn ticket_id_param_defaults_to_zero() {
    assert_eq!(ticket_id_param(None), 0);
    assert_eq!(ticket_id_param(Some("abc")), 0);
    assert_eq!(ticket_id_param(Some("")), 0);
    assert_eq!(ticket_id_param(Some("17")), 17);
    assert_eq!(ticket_id_param(Some("-3")), -3);
}
