use std::path::Path;

use terax::startup::{scan_args, ArgScan, StartupPath, StartupStep};

/// Runs the argument scan to its end, asking the file system which values
/// are directories.
fn parse_args(args: Vec<String>) -> Option<String> {
    let mut start = 0;
    loop {
        let scan = scan_args(&args, start);
        let is_dir = scan.value().map_or(false, |v| Path::new(v).is_dir());
        match scan.settle(is_dir) {
            StartupStep::Done(r) => return r,
            StartupStep::ResumeAt(next) => start = next,
        }
    }
}

#[test]
fn empty_args_yield_none() {
    assert_eq!(parse_args(Vec::<String>::new()), None);
}

#[test]
fn ignores_unknown_flags() {
    let args = vec!["--devtools".to_string(), "--verbose".to_string()];
    assert_eq!(parse_args(args), None);
}

#[test]
fn nonexistent_path_is_rejected() {
    let args = vec![
        "--path".to_string(),
        "/definitely/does/not/exist/ever".to_string(),
    ];
    assert_eq!(parse_args(args), None);
}

#[test]
fn accepts_path_flag_for_existing_dir() {
    let dir = "/".to_string();
    let args = vec!["--path".to_string(), dir.clone()];
    let got = parse_args(args).expect("root dir should be parsed");
    assert_eq!(got, dir);
}

#[test]
fn accepts_equals_form() {
    let got = parse_args(vec!["--path=/".to_string()]).expect("--path= should parse");
    assert_eq!(got, "/");
}

#[test]
fn accepts_single_dash_flag() {
    let args = vec!["-path".to_string(), "/".to_string()];
    let got = parse_args(args).expect("-path should parse");
    assert_eq!(got, "/");
}

#[test]
fn accepts_positional_for_existing_dir() {
    let got = parse_args(vec!["/".to_string()]).expect("positional should parse");
    assert_eq!(got, "/");
}

#[test]
fn skips_dash_dash_separator() {
    let got = parse_args(vec!["--".to_string(), "--path".to_string(), "/".to_string()])
        .expect("parsed");
    assert_eq!(got, "/");
}

#[test]
fn scan_reports_each_form() {
    let args = |v: &[&str]| v.iter().map(|s| s.to_string()).collect::<Vec<String>>();
    assert!(matches!(scan_args(&args(&["--path", "x"]), 0), ArgScan::FlagValue(v) if v == "x"));
    assert!(matches!(scan_args(&args(&["-path", "y"]), 0), ArgScan::FlagValue(v) if v == "y"));
    assert!(matches!(scan_args(&args(&["--path=a/b"]), 0), ArgScan::FlagValue(v) if v == "a/b"));
    assert!(matches!(scan_args(&args(&["-path=c"]), 0), ArgScan::FlagValue(v) if v == "c"));
    assert!(matches!(scan_args(&args(&["--path"]), 0), ArgScan::MissingValue));
    assert!(matches!(scan_args(&args(&["--x", "--", "d"]), 0), ArgScan::Candidate(3, v) if v == "d"));
    assert!(matches!(scan_args(&args(&["--x"]), 0), ArgScan::Exhausted));
    assert!(matches!(scan_args(&args(&["a", "b"]), 1), ArgScan::Candidate(2, v) if v == "b"));
    // An empty argument does not start with `-`, so it is a candidate.
    assert!(matches!(scan_args(&args(&[""]), 0), ArgScan::Candidate(1, v) if v.is_empty()));
}

#[test]
fn flag_value_settles_even_when_invalid() {
    // A flag wins immediately: a later valid positional is not consulted.
    let args = vec!["--path".to_string(), "/no/such/dir/here".to_string(), "/".to_string()];
    assert_eq!(parse_args(args), None);
}

#[test]
fn first_existing_positional_wins() {
    let args = vec!["/no/such/dir/here".to_string(), "/".to_string(), "/tmp".to_string()];
    assert_eq!(parse_args(args), Some("/".to_string()));
}

#[test]
fn settle_follows_the_check() {
    assert!(matches!(ArgScan::FlagValue("d".to_string()).settle(true), StartupStep::Done(Some(v)) if v == "d"));
    assert!(matches!(ArgScan::FlagValue("d".to_string()).settle(false), StartupStep::Done(None)));
    assert!(matches!(ArgScan::Candidate(4, "d".to_string()).settle(false), StartupStep::ResumeAt(4)));
    assert!(matches!(ArgScan::Candidate(4, "d".to_string()).settle(true), StartupStep::Done(Some(v)) if v == "d"));
    assert!(matches!(ArgScan::MissingValue.settle(true), StartupStep::Done(None)));
    assert!(matches!(ArgScan::Exhausted.settle(true), StartupStep::Done(None)));
}

#[test]
fn startup_path_is_set_once() {
    let mut cell = StartupPath::new();
    assert_eq!(cell.startup_path(), None);
    assert!(cell.init(Some("/first".to_string())));
    assert!(!cell.init(Some("/second".to_string())));
    assert!(!cell.init(None));
    assert_eq!(cell.startup_path(), Some("/first".to_string()));

    let mut unset = StartupPath::new();
    assert!(unset.init(None));
    assert!(!unset.init(Some("/later".to_string())));
    assert_eq!(unset.startup_path(), None);
}
