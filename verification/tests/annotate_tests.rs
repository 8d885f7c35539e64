use textstream::annotate::annotate_source;
use textstream::annotate::cat_sources;
use textstream::annotate::get_args;
use textstream::annotate::Config;
use textstream::annotate::NumberingPolicy;

#[test]
fn plain_mode_preserves_lines() {
    let input = b"alpha\nbeta\ngamma\n".to_vec();
    let out = annotate_source(&input, NumberingPolicy::Plain);
    assert_eq!(out, b"alpha\nbeta\ngamma\n".to_vec());
}

#[test]
fn plain_mode_normalizes_terminators() {
    let input = b"one\r\ntwo".to_vec();
    let out = annotate_source(&input, NumberingPolicy::Plain);
    assert_eq!(out, b"one\ntwo\n".to_vec());
}

#[test]
fn number_all_counts_every_line() {
    let input = b"a\n\nb\n".to_vec();
    let out = annotate_source(&input, NumberingPolicy::NumberAll);
    assert_eq!(out, b"     1\ta\n     2\t\n     3\tb\n".to_vec());
}

#[test]
fn number_nonblank_skips_blank_lines() {
    let input = b"a\n\nb\n".to_vec();
    let out = annotate_source(&input, NumberingPolicy::NumberNonblank);
    assert_eq!(out, b"     1\ta\n\n     2\tb\n".to_vec());
}

#[test]
fn counter_restarts_for_each_source() {
    let sources = vec![
        (b"one".to_vec(), Ok(b"x\ny\n".to_vec())),
        (b"two".to_vec(), Ok(b"z\n".to_vec())),
    ];
    let (out, errs) = cat_sources(&sources, NumberingPolicy::NumberAll);
    assert_eq!(out, b"     1\tx\n     2\ty\n     1\tz\n".to_vec());
    assert!(errs.is_empty());
}

#[test]
fn missing_source_reports_and_continues() {
    let sources = vec![
        (
            b"gone.txt".to_vec(),
            Err(b"No such file or directory (os error 2)".to_vec()),
        ),
        (b"ok.txt".to_vec(), Ok(b"first\nsecond\n".to_vec())),
    ];
    let (out, errs) = cat_sources(&sources, NumberingPolicy::Plain);
    assert_eq!(out, b"first\nsecond\n".to_vec());
    assert_eq!(
        errs,
        b"gone.txt: No such file or directory (os error 2)\n".to_vec()
    );
}

#[test]
fn get_args_bundles_flags() {
    let c: Config = get_args(vec!["-".to_string()], true, false);
    assert_eq!(c.files, vec!["-".to_string()]);
    assert!(c.number_lines);
    assert!(!c.number_nonblank_lines);
}

#[test]
fn number_all_wins_when_both_flags_set() {
    let c = get_args(Vec::new(), true, true);
    assert!(matches!(c.policy(), NumberingPolicy::NumberAll));
    let c = get_args(Vec::new(), false, true);
    assert!(matches!(c.policy(), NumberingPolicy::NumberNonblank));
    let c = get_args(Vec::new(), false, false);
    assert!(matches!(c.policy(), NumberingPolicy::Plain));
}

#[test]
fn empty_input_produces_no_output() {
    let out = annotate_source(&Vec::new(), NumberingPolicy::NumberAll);
    assert!(out.is_empty());
}

#[test]
fn final_blank_line_gets_no_counter_in_nonblank_mode() {
    let input = b"x\n\n".to_vec();
    let out = annotate_source(&input, NumberingPolicy::NumberNonblank);
    assert_eq!(out, b"     1\tx\n\n".to_vec());
}
