use est_inf::seed_file::{parse_line, parse_seeds, SeedLineError};

#[test]
fn reads_one_id_per_line() {
    assert_eq!(parse_seeds(b"3\n1\n4\n1\n5\n"), Ok(vec![3, 1, 4, 1, 5]));
    assert_eq!(parse_seeds(b"3\n1\n4\n1\n5"), Ok(vec![3, 1, 4, 1, 5]));
}

#[test]
fn empty_file_has_no_ids() {
    assert_eq!(parse_seeds(b""), Ok(vec![]));
}

#[test]
fn crlf_line_breaks() {
    assert_eq!(parse_seeds(b"10\r\n20\r\n"), Ok(vec![10, 20]));
}

#[test]
fn carriage_return_without_newline_is_malformed() {
    assert_eq!(parse_seeds(b"10\n20\r"), Err(SeedLineError { line: 1 }));
}

#[test]
fn plus_sign_is_accepted() {
    assert_eq!(parse_seeds(b"+7\n"), Ok(vec![7]));
    assert_eq!(parse_seeds(b"+\n"), Err(SeedLineError { line: 0 }));
}

#[test]
fn empty_line_is_malformed() {
    assert_eq!(parse_seeds(b"1\n\n2\n"), Err(SeedLineError { line: 1 }));
}

#[test]
fn non_digit_is_malformed() {
    assert_eq!(parse_seeds(b"abc\n"), Err(SeedLineError { line: 0 }));
    assert_eq!(parse_seeds(b"1\n2\n-3\n"), Err(SeedLineError { line: 2 }));
    assert_eq!(parse_seeds(b"1 \n"), Err(SeedLineError { line: 0 }));
}

#[test]
fn largest_id_and_overflow() {
    let max = usize::MAX.to_string();
    assert_eq!(parse_line(max.as_bytes(), 0, max.len()), Some(usize::MAX));
    let over = format!("{}0", max);
    assert_eq!(parse_line(over.as_bytes(), 0, over.len()), None);
    let text = format!("5\n{}\n", over);
    assert_eq!(parse_seeds(text.as_bytes()), Err(SeedLineError { line: 1 }));
}

#[test]
fn parse_line_reads_a_range() {
    let text = b"xx042yy";
    assert_eq!(parse_line(text, 2, 5), Some(42));
    assert_eq!(parse_line(text, 2, 2), None);
    assert_eq!(parse_line(text, 0, 5), None);
}
