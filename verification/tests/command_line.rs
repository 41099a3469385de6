use leaves::cli::{parse_depth, parse_number, parse_short_options, usage_error, Args, NanoAction, LONG_HELP, SHORT_HELP};
use leaves::path::PathBuf;

fn bytes(args: &[&str]) -> Vec<Vec<u8>> {
    args.iter().map(|arg| arg.as_bytes().to_vec()).collect()
}

fn parse(args: &[&str]) -> Args {
    match Args::parse_nano(bytes(args)).unwrap() {
        NanoAction::Run(args) => args,
        _ => panic!("expected runnable arguments"),
    }
}

fn error(args: &[&str]) -> String {
    Args::parse_nano(bytes(args)).err().unwrap()
}

#[test]
fn parses_flags_path_and_overrides() {
    let args = parse(&[
        "--max-depth=9",
        "-AHIGEx",
        "--cross-fs",
        "/tmp",
        "!target",
        "--",
        "-literal",
    ]);

    assert_eq!(args.path, PathBuf::from_text("/tmp"));
    assert_eq!(args.max_depth, 9);
    assert!(args.cross_fs);
    assert!(args.xray);
    assert!(args.include_all);
    assert!(args.include_hidden);
    assert!(args.include_ignored);
    assert!(args.include_gitignored);
    assert!(args.include_gitexcluded);
    assert_eq!(args.overrides, ["!target", "-literal"]);
}

#[test]
fn parses_attached_short_depth() {
    assert_eq!(parse(&["-d=7"]).max_depth, 7);
    assert_eq!(parse(&["-d8"]).max_depth, 8);
}

#[test]
fn rejects_unknown_options() {
    let error = Args::parse_nano(bytes(&["--unknown"])).err().unwrap();
    assert_eq!(error, "unexpected argument '--unknown'");
}

#[test]
fn nothing_gives_the_defaults() {
    let args = parse(&[]);
    assert_eq!(args.path, PathBuf::from_text("."));
    assert_eq!(args.max_depth, 5);
    assert!(!args.cross_fs && !args.xray && !args.include_all && !args.include_hidden);
    assert!(!args.include_ignored && !args.include_gitignored && !args.include_gitexcluded);
    assert!(args.overrides.is_empty());
}

#[test]
fn each_flag_sets_its_own_field() {
    for flag in ["-x", "--xray"] {
        assert!(parse(&[flag]).xray && !parse(&[flag]).include_all);
    }
    for flag in ["-A", "--include-all"] {
        assert!(parse(&[flag]).include_all && !parse(&[flag]).include_hidden);
    }
    for flag in ["-H", "--include-hidden"] {
        assert!(parse(&[flag]).include_hidden && !parse(&[flag]).xray);
    }
    for flag in ["-I", "--include-ignored"] {
        assert!(parse(&[flag]).include_ignored && !parse(&[flag]).include_gitignored);
    }
    for flag in ["-G", "--include-gitignored"] {
        assert!(parse(&[flag]).include_gitignored && !parse(&[flag]).include_gitexcluded);
    }
    for flag in ["-E", "--include-gitexcluded"] {
        assert!(parse(&[flag]).include_gitexcluded && !parse(&[flag]).include_ignored);
    }
}

#[test]
fn depth_comes_from_the_next_argument() {
    assert_eq!(parse(&["-d", "3"]).max_depth, 3);
    assert_eq!(parse(&["--max-depth", "4", "here"]).max_depth, 4);
    assert_eq!(parse(&["-xd", "6"]).max_depth, 6);
    assert!(parse(&["-xd", "6"]).xray);
    assert_eq!(parse(&["-d", "+7"]).max_depth, 7);
}

#[test]
fn missing_and_wrong_depths_are_errors() {
    assert_eq!(error(&["-d"]), "a value is required for '-d'");
    assert_eq!(error(&["--max-depth"]), "a value is required for '--max-depth'");
    assert_eq!(error(&["-xd"]), "a value is required for '-d'");
    assert_eq!(error(&["-d="]), "a value is required for '-d'");
    assert_eq!(error(&["-d", "many"]), "invalid value \"many\" for '--max-depth'");
    assert_eq!(error(&["--max-depth="]), "invalid value \"\" for '--max-depth'");
    assert_eq!(error(&["-d-1"]), "invalid value \"-1\" for '--max-depth'");
    assert_eq!(error(&["-d", "a\"b"]), "invalid value \"a\\\"b\" for '--max-depth'");
    let bytes = vec![b"-d".to_vec(), vec![0xff]];
    assert_eq!(
        Args::parse_nano(bytes).err().unwrap(),
        "maximum depth must be valid UTF-8"
    );
}

#[test]
fn unknown_letters_are_errors() {
    assert_eq!(error(&["-xq"]), "unexpected argument '-q'");
    assert_eq!(error(&["--max-depth5"]), "unexpected argument '--max-depth5'");
}

#[test]
fn help_and_version_come_first() {
    assert!(matches!(
        Args::parse_nano(bytes(&["-h", "--unknown"])).unwrap(),
        NanoAction::Help(false)
    ));
    assert!(matches!(
        Args::parse_nano(bytes(&["--help"])).unwrap(),
        NanoAction::Help(true)
    ));
    assert!(matches!(
        Args::parse_nano(bytes(&["-V"])).unwrap(),
        NanoAction::Version
    ));
    assert!(matches!(
        Args::parse_nano(bytes(&["--version"])).unwrap(),
        NanoAction::Version
    ));
}

#[test]
fn a_path_need_not_be_text_but_overrides_must() {
    let path = vec![b'/', b't', 0xfe];
    match Args::parse_nano(vec![path.clone()]).unwrap() {
        NanoAction::Run(args) => assert_eq!(args.path.to_bytes(), path),
        _ => panic!("expected runnable arguments"),
    }
    assert_eq!(
        Args::parse_nano(vec![b"/".to_vec(), path]).err().unwrap(),
        "override globs must be valid UTF-8"
    );
}

#[test]
fn after_a_double_dash_nothing_is_an_option() {
    let args = parse(&["--", "-x", "-d", "--help"]);
    assert_eq!(args.path, PathBuf::from_text("-x"));
    assert_eq!(args.overrides, ["-d", "--help"]);
    assert!(!args.xray);
}

#[test]
fn a_single_dash_is_a_path() {
    assert_eq!(parse(&["-"]).path, PathBuf::from_text("-"));
}

#[test]
fn numbers_are_decimal() {
    assert_eq!(parse_number("0"), Some(0));
    assert_eq!(parse_number("007"), Some(7));
    assert_eq!(parse_number("+12"), Some(12));
    assert_eq!(parse_number("18446744073709551615"), Some(usize::MAX));
    assert_eq!(parse_number("18446744073709551616"), None);
    assert_eq!(parse_number(""), None);
    assert_eq!(parse_number("+"), None);
    assert_eq!(parse_number("++1"), None);
    assert_eq!(parse_number("1_000"), None);
    assert_eq!(parse_depth(b"12"), Ok(12));
}

#[test]
fn short_options_stop_at_the_depth() {
    let mut args = parse(&[]);
    assert_eq!(
        parse_short_options("-Ad=3x", &mut args),
        Ok(Some(Some("3x".to_string())))
    );
    assert!(args.include_all && !args.xray);
    assert_eq!(parse_short_options("-x", &mut args), Ok(None));
    assert!(args.xray);
    assert_eq!(parse_short_options("-d", &mut args), Ok(Some(None)));
}

#[test]
fn arguments_are_changed_one_at_a_time() {
    let args = parse(&["-x", "/a", "*.rs"]);
    let deeper = args.with_depth(9);
    assert_eq!(deeper.max_depth, 9);
    assert_eq!(deeper.path, args.path);
    assert_eq!(deeper.overrides, args.overrides);
    let moved = args.with_path(&PathBuf::from_text("/b"));
    assert_eq!(moved.path, PathBuf::from_text("/b"));
    assert_eq!(moved.max_depth, 5);
    assert!(moved.xray);
}

#[test]
fn everything_is_included_on_demand() {
    let args = parse(&["-A"]).with_all_included();
    assert!(args.include_hidden && args.include_ignored);
    assert!(args.include_gitignored && args.include_gitexcluded);
    let args = parse(&["-H"]).with_all_included();
    assert!(args.include_hidden && !args.include_ignored);
}

#[test]
fn help_texts_name_the_options() {
    assert!(SHORT_HELP.starts_with("Usage: leaves [OPTIONS] [PATH] [OVERRIDES]...\n"));
    assert!(SHORT_HELP.ends_with("  -V, --version                Print version\n"));
    assert!(LONG_HELP.contains("--include-gitexcluded\n          Don't skip files"));
    assert_eq!(
        usage_error("no"),
        "error: no\n\nUsage: leaves [OPTIONS] [PATH] [OVERRIDES]...\n\nFor more information, try '--help'.\n"
    );
}
