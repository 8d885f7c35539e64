use textstream::head::format_header;
use textstream::head::get_args;
use textstream::head::head_bytes;
use textstream::head::head_lines;
use textstream::head::head_sources;
use textstream::head::Config;
use textstream::head::TruncationMode;

#[test]
fn byte_mode_takes_exact_prefix() {
    let input = b"abcdef".to_vec();
    assert_eq!(head_bytes(&input, 4), b"abcd".to_vec());
    assert_eq!(head_bytes(&input, 6), b"abcdef".to_vec());
    assert_eq!(head_bytes(&input, 10), b"abcdef".to_vec());
}

#[test]
fn line_mode_keeps_terminators() {
    let input = b"one\r\ntwo\nthree".to_vec();
    assert_eq!(head_lines(&input, 1), b"one\r\n".to_vec());
    assert_eq!(head_lines(&input, 2), b"one\r\ntwo\n".to_vec());
    assert_eq!(head_lines(&input, 3), input);
    assert_eq!(head_lines(&input, 5), input);
}

#[test]
fn multi_source_headers_with_blank_separators() {
    let sources = vec![
        (b"a".to_vec(), Ok(b"1\n".to_vec())),
        (b"b".to_vec(), Ok(b"2\n".to_vec())),
        (b"c".to_vec(), Ok(b"3\n".to_vec())),
    ];
    let (out, errs) = head_sources(&sources, TruncationMode::Lines(10));
    assert_eq!(out, b"==> a <==\n1\n\n==> b <==\n2\n\n==> c <==\n3\n".to_vec());
    assert!(errs.is_empty());
}

#[test]
fn single_source_has_no_header() {
    let sources = vec![(b"a".to_vec(), Ok(b"1\n2\n".to_vec()))];
    let (out, errs) = head_sources(&sources, TruncationMode::Lines(1));
    assert_eq!(out, b"1\n".to_vec());
    assert!(errs.is_empty());
}

#[test]
fn failed_source_diagnosed_and_skipped() {
    let sources = vec![
        (b"missing".to_vec(), Err(b"boom".to_vec())),
        (b"there".to_vec(), Ok(b"x\ny\n".to_vec())),
    ];
    let (out, errs) = head_sources(&sources, TruncationMode::Lines(10));
    assert_eq!(out, b"\n==> there <==\nx\ny\n".to_vec());
    assert_eq!(errs, b"missing: boom\n".to_vec());
}

#[test]
fn byte_mode_in_batch() {
    let sources = vec![(b"a".to_vec(), Ok(b"abcdef".to_vec()))];
    let (out, _) = head_sources(&sources, TruncationMode::Bytes(2));
    assert_eq!(out, b"ab".to_vec());
}

#[test]
fn byte_limit_takes_precedence() {
    let c = Config { files: Vec::new(), lines: 10, bytes: Some(3) };
    assert!(matches!(c.mode(), TruncationMode::Bytes(3)));
    let c = Config { files: Vec::new(), lines: 7, bytes: None };
    assert!(matches!(c.mode(), TruncationMode::Lines(7)));
}

#[test]
fn get_args_accepts_valid_counts() {
    let c = get_args(vec!["-".to_string()], "10", None).unwrap();
    assert_eq!(c.files, vec!["-".to_string()]);
    assert_eq!(c.lines, 10);
    assert_eq!(c.bytes, None);

    let c = get_args(Vec::new(), "3", Some("200")).unwrap();
    assert_eq!(c.lines, 3);
    assert_eq!(c.bytes, Some(200));
}

#[test]
fn get_args_rejects_bad_line_count() {
    let e = get_args(Vec::new(), "foo", None).unwrap_err();
    assert_eq!(e, "illegal line count -- foo");
    let e = get_args(Vec::new(), "0", None).unwrap_err();
    assert_eq!(e, "illegal line count -- 0");
}

#[test]
fn get_args_rejects_bad_byte_count() {
    let e = get_args(Vec::new(), "3", Some("0")).unwrap_err();
    assert_eq!(e, "illegal byte count -- 0");
    let e = get_args(Vec::new(), "3", Some("12x")).unwrap_err();
    assert_eq!(e, "illegal byte count -- 12x");
}

#[test]
fn header_format() {
    assert_eq!(
        format_header(&b"f.txt".to_vec(), true),
        b"==> f.txt <==\n".to_vec()
    );
    assert_eq!(
        format_header(&b"f.txt".to_vec(), false),
        b"\n==> f.txt <==\n".to_vec()
    );
}
