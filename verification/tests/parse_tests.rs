use selection_sort::parse::parse_length;

#[test]
fn parses_plain_number() {
    assert_eq!(parse_length(&b"123".to_vec()), Some(123));
    assert_eq!(parse_length(&b"0".to_vec()), Some(0));
    assert_eq!(parse_length(&b"007".to_vec()), Some(7));
}

#[test]
fn parses_leading_plus() {
    assert_eq!(parse_length(&b"+7".to_vec()), Some(7));
    assert_eq!(parse_length(&b"+0".to_vec()), Some(0));
}

#[test]
fn rejects_non_digits() {
    assert_eq!(parse_length(&b"abc".to_vec()), None);
    assert_eq!(parse_length(&b"12x".to_vec()), None);
    assert_eq!(parse_length(&b"-3".to_vec()), None);
    assert_eq!(parse_length(&b"1 2".to_vec()), None);
}

#[test]
fn rejects_empty_digit_run() {
    assert_eq!(parse_length(&b"".to_vec()), None);
    assert_eq!(parse_length(&b"+".to_vec()), None);
}

#[test]
fn handles_limit_of_usize() {
    let max = usize::MAX.to_string();
    assert_eq!(parse_length(&max.clone().into_bytes()), Some(usize::MAX));
    let over = format!("{}0", max);
    assert_eq!(parse_length(&over.into_bytes()), None);
}

#[test]
fn agrees_with_std_parse_on_samples() {
    let samples: Vec<&str> = vec!["5", "+41", "18446744073709551615", "99999999999999999999", "4e2", ""];
    for s in samples {
        let ours = parse_length(&s.as_bytes().to_vec());
        let std_parse: Option<usize> = s.parse().ok();
        assert_eq!(ours, std_parse);
    }
}
