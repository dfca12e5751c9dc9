use fuzzy_tree::args::{collect, default_cmd, parse_number, parse_usize, ArgError};

#[test]
fn parsing_usize_with_no_value() {
    assert_eq!(parse_usize(None, "lines", 3), Ok(None));
}

#[test]
fn parsing_usize_with_ok_value() {
    assert_eq!(parse_usize(Some("5"), "lines", 3), Ok(Some(5)));
}

#[test]
fn parsing_usize_below_the_minimum() {
    let err = parse_usize(Some("2"), "n_lines", 3).unwrap_err();
    assert_eq!(
        err,
        ArgError::BelowMinimum {
            arg: "n_lines".to_string(),
            min: 3
        }
    );
    assert_eq!(err.message(), "option '--n_lines' must be >=3");
    assert_eq!(parse_usize(Some("3"), "n_lines", 3), Ok(Some(3)));
}

#[test]
fn parsing_usize_of_what_is_no_number() {
    let err = parse_usize(Some("five"), "n_collapse", 0).unwrap_err();
    assert_eq!(
        err,
        ArgError::Invalid {
            arg: "n_collapse".to_string(),
            value: "five".to_string()
        }
    );
    assert_eq!(err.message(), "invalid value for option '--n_collapse': five");
}

#[test]
fn numbers_are_read_as_the_standard_library_reads_them() {
    let too_big = format!("{}0", usize::MAX);
    let max = format!("{}", usize::MAX);
    for text in [
        "0", "7", "10", "0012", "+5", "+", "", "-1", "-0", "1_000", " 1", "1 ", "12a", "++1",
        "4294967296", max.as_str(), too_big.as_str(), "99999999999999999999999999",
    ] {
        assert_eq!(parse_number(text), text.parse::<usize>().ok(), "{:?}", text);
    }
}

#[test]
fn default_command_depends_on_the_fast_finder() {
    assert_eq!(default_cmd(true), "fd");
    assert_eq!(default_cmd(false), "find");
}

#[test]
fn collect_fills_in_the_defaults() {
    let args = collect(None, None, None, false).unwrap();
    assert_eq!(args.cmd, "find");
    assert_eq!(args.n_collapse, 10);
    assert_eq!(args.n_lines, 20);
    let args = collect(Some("ls -R"), Some("0"), Some("3"), true).unwrap();
    assert_eq!(args.cmd, "ls -R");
    assert_eq!(args.n_collapse, 0);
    assert_eq!(args.n_lines, 3);
    assert_eq!(collect(None, None, None, true).unwrap().cmd, "fd");
}

#[test]
fn collect_reports_the_first_error() {
    let err = collect(None, Some("x"), Some("1"), false).unwrap_err();
    assert_eq!(err.message(), "invalid value for option '--n_collapse': x");
    let err = collect(None, Some("4"), Some("1"), false).unwrap_err();
    assert_eq!(err.message(), "option '--n_lines' must be >=3");
}
