use textstream::lines::split_content_lines;
use textstream::lines::strip_terminator;
use textstream::numfmt::format_counter;
use textstream::parse::parse_positive_int;
use textstream::report::format_diagnostic;

#[test]
fn rejects_non_positive_and_garbage() {
    let bad = ["0", "-1", "abc", "", "+", "12a", "99999999999999999999999999"];
    for val in bad {
        let e = parse_positive_int(val).unwrap_err();
        assert_eq!(e, val);
    }
}

#[test]
fn accepts_positive_integers() {
    assert_eq!(parse_positive_int("1").unwrap(), 1);
    assert_eq!(parse_positive_int("10").unwrap(), 10);
    assert_eq!(parse_positive_int("999999").unwrap(), 999999);
    assert_eq!(parse_positive_int("+42").unwrap(), 42);
}

#[test]
fn counter_is_right_aligned_to_six_columns() {
    assert_eq!(format_counter(1), b"     1\t".to_vec());
    assert_eq!(format_counter(42), b"    42\t".to_vec());
    assert_eq!(format_counter(123456), b"123456\t".to_vec());
    assert_eq!(format_counter(1234567), b"1234567\t".to_vec());
}

#[test]
fn splitting_strips_terminators() {
    let lines = split_content_lines(&b"a\r\nb\nc".to_vec());
    assert_eq!(lines, vec![b"a".to_vec(), b"b".to_vec(), b"c".to_vec()]);
}

#[test]
fn carriage_return_without_line_feed_stays() {
    let lines = split_content_lines(&b"a\r".to_vec());
    assert_eq!(lines, vec![b"a\r".to_vec()]);
    assert_eq!(strip_terminator(&b"a\r".to_vec()), b"a\r".to_vec());
    assert_eq!(strip_terminator(&b"a\r\n".to_vec()), b"a".to_vec());
}

#[test]
fn diagnostic_line_format() {
    let line = format_diagnostic(&b"f.txt".to_vec(), &b"denied".to_vec());
    assert_eq!(line, b"f.txt: denied\n".to_vec());
}
