use fate_respec::cli::{parse_args, parse_stat_baseline, parse_version, paths_differ, ArgError, BaselineError, Command};
use fate_respec::layout::GameVersion;

fn args(list: &[&str]) -> Vec<String> {
    list.iter().map(|s| s.to_string()).collect()
}

#[test]
fn versions_by_name() {
    assert_eq!(parse_version("auto").unwrap(), None);
    assert_eq!(parse_version("fate").unwrap(), Some(GameVersion::Fate));
    assert_eq!(parse_version("traitorsoul").unwrap(), Some(GameVersion::TraitorsSoul));
    match parse_version("Fate") {
        Err(ArgError::UnknownVersion { value }) => assert_eq!(value, "Fate"),
        _ => panic!("expected an unknown version"),
    }
    assert!(parse_version("").is_err());
}

#[test]
fn stat_baselines_parse() {
    assert_eq!(parse_stat_baseline("25,20,25,10").unwrap(), [25, 20, 25, 10]);
    assert_eq!(parse_stat_baseline(" 1, 2 ,\t3,+4 ").unwrap(), [1, 2, 3, 4]);
    assert_eq!(parse_stat_baseline("0,9999,0,0").unwrap(), [0, 9999, 0, 0]);
    assert_eq!(parse_stat_baseline("007,0,0,0").unwrap(), [7, 0, 0, 0]);
}

#[test]
fn stat_baselines_count_parts() {
    match parse_stat_baseline("1,2,3") {
        Err(BaselineError::WrongCount { found, value }) => {
            assert_eq!(found, 3);
            assert_eq!(value, "1,2,3");
        }
        _ => panic!("expected a count error"),
    }
    match parse_stat_baseline("") {
        Err(BaselineError::WrongCount { found, .. }) => assert_eq!(found, 1),
        _ => panic!("expected a count error"),
    }
    match parse_stat_baseline("1,2,3,4,") {
        Err(BaselineError::WrongCount { found, .. }) => assert_eq!(found, 5),
        _ => panic!("expected a count error"),
    }
}

#[test]
fn stat_baselines_reject_bad_parts() {
    match parse_stat_baseline("1, x y ,3,4") {
        Err(BaselineError::NotAnInteger { text }) => assert_eq!(text, "x y"),
        _ => panic!("expected a bad integer"),
    }
    match parse_stat_baseline("1,,3,4") {
        Err(BaselineError::NotAnInteger { text }) => assert_eq!(text, ""),
        _ => panic!("expected a bad integer"),
    }
    match parse_stat_baseline("1,-5,3,4") {
        Err(BaselineError::OutOfRange { value }) => assert_eq!(value, -5),
        _ => panic!("expected a range error"),
    }
    match parse_stat_baseline("1,2,3,10000") {
        Err(BaselineError::OutOfRange { value }) => assert_eq!(value, 10000),
        _ => panic!("expected a range error"),
    }
    match parse_stat_baseline("1,2,3,99999999999") {
        Err(BaselineError::NotAnInteger { text }) => assert_eq!(text, "99999999999"),
        _ => panic!("expected a bad integer"),
    }
    match parse_stat_baseline("1,2,-,4") {
        Err(BaselineError::NotAnInteger { text }) => assert_eq!(text, "-"),
        _ => panic!("expected a bad integer"),
    }
    // The first bad part is the one reported.
    match parse_stat_baseline("1,99999,z,4") {
        Err(BaselineError::OutOfRange { value }) => assert_eq!(value, 99999),
        _ => panic!("expected a range error"),
    }
}

#[test]
fn args_two_paths_and_defaults() {
    match parse_args(&args(&["in.FFD", "out.FFD"])).unwrap() {
        Command::Run(o) => {
            assert_eq!(o.input, "in.FFD");
            assert_eq!(o.output, "out.FFD");
            assert_eq!(o.version, None);
            assert_eq!(o.stat_baseline, None);
        }
        Command::Help => panic!("expected a run"),
    }
}

#[test]
fn args_options_in_both_forms() {
    let a = args(&["--version", "fate", "a", "--stat-baseline=1,2,3,4", "b"]);
    match parse_args(&a).unwrap() {
        Command::Run(o) => {
            assert_eq!(o.input, "a");
            assert_eq!(o.output, "b");
            assert_eq!(o.version, Some(GameVersion::Fate));
            assert_eq!(o.stat_baseline, Some([1, 2, 3, 4]));
        }
        Command::Help => panic!("expected a run"),
    }
    let a = args(&["a", "--version=traitorsoul", "--stat-baseline", "5,6,7,8", "-", "--version=auto"]);
    match parse_args(&a).unwrap() {
        Command::Run(o) => {
            assert_eq!(o.input, "a");
            assert_eq!(o.output, "-");
            assert_eq!(o.version, None);
            assert_eq!(o.stat_baseline, Some([5, 6, 7, 8]));
        }
        Command::Help => panic!("expected a run"),
    }
}

#[test]
fn args_help_anywhere() {
    assert!(matches!(parse_args(&args(&["a", "-h"])).unwrap(), Command::Help));
    assert!(matches!(parse_args(&args(&["--bogus", "--help"])).unwrap(), Command::Help));
    assert!(matches!(parse_args(&args(&["--version", "--help"])).unwrap(), Command::Help));
}

#[test]
fn args_errors() {
    assert!(matches!(parse_args(&args(&["a", "b", "--version"])), Err(ArgError::VersionNeedsValue)));
    assert!(matches!(parse_args(&args(&["a", "b", "--stat-baseline"])), Err(ArgError::BaselineNeedsValue)));
    match parse_args(&args(&["a", "--verbose", "b"])) {
        Err(ArgError::UnknownOption { option }) => assert_eq!(option, "--verbose"),
        _ => panic!("expected an unknown option"),
    }
    match parse_args(&args(&["a", "--version=newest", "b"])) {
        Err(ArgError::UnknownVersion { value }) => assert_eq!(value, "newest"),
        _ => panic!("expected an unknown version"),
    }
    match parse_args(&args(&["a", "b", "--stat-baseline=1,2"])) {
        Err(ArgError::Baseline(BaselineError::WrongCount { found, .. })) => assert_eq!(found, 2),
        _ => panic!("expected a baseline error"),
    }
    match parse_args(&args(&["a"])) {
        Err(ArgError::PathCount { found }) => assert_eq!(found, 1),
        _ => panic!("expected a path count error"),
    }
    match parse_args(&args(&["a", "b", "c"])) {
        Err(ArgError::PathCount { found }) => assert_eq!(found, 3),
        _ => panic!("expected a path count error"),
    }
    match parse_args(&args(&[])) {
        Err(ArgError::PathCount { found }) => assert_eq!(found, 0),
        _ => panic!("expected a path count error"),
    }
}

#[test]
fn paths_must_differ() {
    assert!(paths_differ("a.FFD", "b.FFD"));
    assert!(!paths_differ("save.FFD", "save.FFD"));
}

#[test]
fn rendered_baselines_read_back() {
    for a in [[0, 0, 0, 0], [25, 20, 25, 10], [9999, 1, 10, 100], [7, 9999, 1000, 42]] {
        let text = format!("{},{},{},{}", a[0], a[1], a[2], a[3]);
        assert_eq!(parse_stat_baseline(&text).unwrap(), a);
    }
}
