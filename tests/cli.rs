use tfrecord_prep::cli::{parse_ratio, CliError, PrepareCliOpts};
use tfrecord_prep::prepare::PrepareOpts;

#[test]
fn ratio_forms() {
    assert_eq!(parse_ratio("20%").ok(), Some(20));
    assert_eq!(parse_ratio("20/100").ok(), Some(20));
    assert_eq!(parse_ratio("20").ok(), Some(20));
    assert_eq!(parse_ratio("+7").ok(), Some(7));
    assert_eq!(parse_ratio("0%").ok(), Some(0));
}

#[test]
fn bad_ratios_are_errors() {
    for bad in ["", "abc", "300", "-1", "20 %", "%20", "/5", "2.5"] {
        assert!(matches!(parse_ratio(bad), Err(CliError::Integer(_))), "{}", bad);
    }
}

#[test]
fn options_from_the_command_line() {
    let cli = PrepareCliOpts {
        input: "in".to_string(),
        output: "out".to_string(),
        retain: "25%".to_string(),
    };
    let opts = PrepareOpts::from_cli(cli).ok().unwrap();
    assert_eq!(opts.input, "in");
    assert_eq!(opts.output, "out");
    assert_eq!(opts.test_set_ratio, 25);
}
