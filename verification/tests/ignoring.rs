use ignore::gitignore::GitignoreBuilder;
use ignore::overrides::OverrideBuilder;
use leaves::cli::Args;
use leaves::error::Failure;
use leaves::globs::safe_pattern;
use leaves::path::PathBuf;
use leaves::rules::{is_hidden, parse_file, parse_rule, slash_path, validate_override, Decision};
use leaves::ruleset::{has_no_nul, Overrides, RuleSet, Rules};
use std::path::Path;

fn path(text: &str) -> PathBuf {
    PathBuf::from_text(text)
}

fn expected_decision(patterns: &[&str], relative: &str, is_dir: bool) -> Option<Decision> {
    let base = Path::new("/repo");
    let mut builder = GitignoreBuilder::new(base);
    for pattern in patterns {
        builder.add_line(None, pattern).unwrap();
    }
    let matcher = builder.build().unwrap();
    let matched = matcher.matched(base.join(relative), is_dir);
    if matched.is_ignore() {
        Some(Decision::Exclude)
    } else if matched.is_whitelist() {
        Some(Decision::Include)
    } else {
        None
    }
}

fn actual_decision(patterns: &[&str], relative: &str, is_dir: bool) -> Option<Decision> {
    let base = path("/repo");
    let parsed = patterns
        .iter()
        .filter_map(|pattern| parse_rule(pattern, &base, false))
        .collect::<Vec<_>>();
    let mut rules = RuleSet::default();
    rules.add_rules(&base, &parsed).unwrap();
    rules.matched(&base.join(&path(relative)), is_dir)
}

fn assert_compatible(patterns: &[&str], candidates: &[(&str, bool)]) {
    for &(relative, is_dir) in candidates {
        assert_eq!(
            actual_decision(patterns, relative, is_dir),
            expected_decision(patterns, relative, is_dir),
            "patterns {patterns:?}, candidate {relative:?}, is_dir {is_dir}"
        );
    }
}

fn make_args(root: &PathBuf, overrides: &[&str]) -> Args {
    Args {
        path: root.clone(),
        max_depth: 5,
        cross_fs: false,
        xray: false,
        include_all: false,
        include_hidden: false,
        include_ignored: false,
        include_gitignored: false,
        include_gitexcluded: false,
        overrides: overrides.iter().map(|value| value.to_string()).collect(),
    }
}

#[test]
fn parses_gitignore_and_override_polarity() {
    let base = path("/repo");
    let ignore = parse_rule("target/", &base, false).unwrap();
    assert_eq!(ignore.decision, Decision::Exclude);
    assert!(ignore.dir_only);
    assert!(ignore.matches(&path("/repo/crate/target"), true));

    let kept = parse_rule("!target/keep", &base, false).unwrap();
    assert_eq!(kept.decision, Decision::Include);
    assert!(kept.matches(&path("/repo/target/keep"), false));

    let override_exclude = parse_rule("!*.log", &base, true).unwrap();
    assert_eq!(override_exclude.decision, Decision::Exclude);
    assert!(override_exclude.matches(&path("/repo/deep/debug.log"), false));
}

#[test]
fn anchored_rules_are_relative_to_their_ignore_file() {
    let base = path("/repo/crate");
    let anchored = parse_rule("/build/*.o", &base, false).unwrap();
    assert!(anchored.matches(&path("/repo/crate/build/main.o"), false));
    assert!(!anchored.matches(&path("/repo/crate/src/build/main.o"), false));

    let basename = parse_rule("*.o", &base, false).unwrap();
    assert!(basename.matches(&path("/repo/crate/src/main.o"), false));
}

#[test]
fn later_and_higher_precedence_rules_win() {
    let base = path("/repo");
    let mut rules = Rules::default();
    rules
        .gitignore
        .add_rules(
            &base,
            &vec![
                parse_rule("*.tmp", &base, false).unwrap(),
                parse_rule("!keep.tmp", &base, false).unwrap(),
            ],
        )
        .unwrap();
    rules
        .ignore
        .add_rules(&base, &vec![parse_rule("keep.tmp", &base, false).unwrap()])
        .unwrap();

    assert_eq!(
        rules.matched(&path("/repo/drop.tmp"), false, true),
        Some(Decision::Exclude)
    );
    assert_eq!(
        rules.matched(&path("/repo/keep.tmp"), false, true),
        Some(Decision::Exclude)
    );

    assert_compatible(
        &["duplicate", "!duplicate"],
        &[("duplicate", false), ("other", false)],
    );
}

#[test]
fn matches_common_gitignore_semantics() {
    assert_compatible(
        &["*.log", "!keep.log"],
        &[
            ("debug.log", false),
            ("deep/debug.log", false),
            ("keep.log", false),
            ("deep/keep.log", false),
            ("debug.txt", false),
        ],
    );
    assert_compatible(
        &["/build/*.o"],
        &[
            ("build/main.o", false),
            ("deep/build/main.o", false),
            ("build/deep/main.o", false),
        ],
    );
    assert_compatible(
        &["doc/frotz", "abc/**", "a/**/b"],
        &[
            ("doc/frotz", false),
            ("deep/doc/frotz", false),
            ("abc/file", false),
            ("abc/deep/file", false),
            ("a/b", false),
            ("a/deep/b", false),
            ("a/deep/more/b", false),
        ],
    );
    assert_compatible(
        &["cache/", "[ab].txt", "\\#notes", "\\!important"],
        &[
            ("cache", true),
            ("cache", false),
            ("deep/cache", true),
            ("a.txt", false),
            ("c.txt", false),
            ("#notes", false),
            ("!important", false),
        ],
    );
    assert_compatible(
        &["foo", "**/bar", "a?c", "[!a].txt", "name\\ "],
        &[
            ("foo", false),
            ("deep/foo", false),
            ("foobar", false),
            ("bar", false),
            ("deep/bar", false),
            ("abc", false),
            ("a/c", false),
            ("b.txt", false),
            ("a.txt", false),
            ("name ", false),
            ("name", false),
        ],
    );
    assert_compatible(
        &["foo/**", "src/*/generated"],
        &[
            ("foo", true),
            ("foo/file", false),
            ("foo/deep/file", false),
            ("deep/foo/file", false),
            ("src/a/generated", false),
            ("src/a/deep/generated", false),
        ],
    );
}

#[test]
fn matches_existing_override_semantics() {
    let root = path("/repo");
    let base = Path::new("/repo");
    let patterns = ["*.foo", "!*.bar.foo"];
    let ours = Overrides::new(&make_args(&root, &patterns)).unwrap();
    let mut builder = OverrideBuilder::new(base);
    for pattern in patterns {
        builder.add(pattern).unwrap();
    }
    let existing = builder.build().unwrap();

    for (relative, is_dir) in [
        ("a.foo", false),
        ("a.rs", false),
        ("a.bar.foo", false),
        ("src/a.foo", false),
        ("src", true),
    ] {
        let expected = existing.matched(base.join(relative), is_dir);
        let expected = if expected.is_ignore() {
            Some(Decision::Exclude)
        } else if expected.is_whitelist() {
            Some(Decision::Include)
        } else {
            None
        };
        let actual = ours
            .matched(&root.join(&path(relative)), is_dir)
            .or_else(|| (ours.has_includes() && !is_dir).then_some(Decision::Exclude));
        assert_eq!(actual, expected, "{relative:?}, is_dir {is_dir}");
    }
}

#[test]
fn blank_lines_and_comments_are_no_rules() {
    let base = path("/repo");
    assert!(parse_rule("", &base, false).is_none());
    assert!(parse_rule("   ", &base, false).is_none());
    assert!(parse_rule("# all", &base, false).is_none());
    assert!(parse_rule("/", &base, false).is_none());
    assert!(parse_rule("!", &base, false).is_none());
    let rules = parse_file(b"# one\n\n*.log\r\n!keep.log\n", &base);
    assert_eq!(rules.len(), 2);
    assert_eq!(rules[0].pattern, "*.log");
    assert_eq!(rules[1].decision, Decision::Include);
}

#[test]
fn open_brackets_make_an_override_invalid() {
    assert!(validate_override("*.rs").is_ok());
    assert!(validate_override("[ab].{c,d}").is_ok());
    assert!(validate_override("\\[").is_ok());
    for pattern in ["[ab", "{a", "a\\"] {
        let failure = validate_override(pattern).err().unwrap();
        assert!(matches!(failure, Failure::Override(_)));
        assert_eq!(
            failure.message(),
            format!("invalid override glob {pattern:?}")
        );
    }
    let args = make_args(&path("/repo"), &["*.rs", "[x"]);
    let failure = Overrides::new(&args).err().unwrap();
    assert_eq!(failure.message(), "invalid override glob \"[x\"");
}

#[test]
fn patterns_that_cannot_be_compiled_are_reported_or_skipped() {
    let base = path("/repo");
    let rules = vec![parse_rule("[", &base, false).unwrap()];
    let mut set = RuleSet::default();
    match set.add_rules(&base, &rules) {
        Ok(()) => assert_eq!(set.matched(&path("/repo/["), false), None),
        Err(failure) => assert_eq!(
            failure.message(),
            "error parsing glob: unclosed character class"
        ),
    }
}

#[test]
fn a_rule_for_directories_leaves_files_alone() {
    let base = path("/repo");
    let mut rules = RuleSet::default();
    rules.add_file(b"build/\n", &base);
    assert_eq!(rules.matched(&path("/repo/build"), true), Some(Decision::Exclude));
    assert_eq!(rules.matched(&path("/repo/build"), false), None);
    assert_eq!(rules.matched(&path("/repo"), true), None);
    assert_eq!(rules.matched(&path("/other/build"), true), None);
}

#[test]
fn deeper_ignore_files_come_first() {
    let mut rules = RuleSet::default();
    rules.add_file(b"*.bin\n", &path("/repo"));
    rules.add_file(b"!keep.bin\n", &path("/repo/nested"));
    assert_eq!(
        rules.matched(&path("/repo/nested/keep.bin"), false),
        Some(Decision::Include)
    );
    assert_eq!(
        rules.matched(&path("/repo/nested/drop.bin"), false),
        Some(Decision::Exclude)
    );
    assert_eq!(
        rules.matched(&path("/repo/keep.bin"), false),
        Some(Decision::Exclude)
    );
}

#[test]
fn git_rules_count_only_in_a_repository() {
    let base = path("/repo");
    let mut rules = Rules::default();
    rules.git_global.add_file(b"*.bak\n", &base);
    rules.git_exclude.add_file(b"!keep.bak\n", &base);
    assert_eq!(
        rules.matched(&path("/repo/x.bak"), false, true),
        Some(Decision::Exclude)
    );
    assert_eq!(
        rules.matched(&path("/repo/keep.bak"), false, true),
        Some(Decision::Include)
    );
    assert_eq!(rules.matched(&path("/repo/x.bak"), false, false), None);
}

#[test]
fn names_are_looked_at_as_text() {
    assert!(is_hidden(b".git"));
    assert!(!is_hidden(b"git."));
    assert!(!is_hidden(&[0xff, b'.']));
    assert_eq!(slash_path(&path("a\\b/c")), "a/b/c");
    assert_eq!(slash_path(&PathBuf::from_bytes(&[b'a', 0xff])), "a\u{fffd}");
    assert!(has_no_nul(&path("/a/b")));
    assert!(!has_no_nul(&PathBuf::from_bytes(&[b'a', 0])));
}

#[test]
fn a_rule_for_names_and_one_for_paths_have_one_pattern() {
    let candidates = [("foo", false), ("foo", true), ("deep/foo", false), ("deep/foo", true)];
    assert_compatible(&["foo", "!/foo"], &candidates);
    assert_compatible(&["!/foo", "foo"], &candidates);
    assert_compatible(&["foo", "!/foo", "foo"], &candidates);
    assert_compatible(&["/foo", "!foo", "/foo"], &candidates);
    let base = path("/repo");
    let mut rules = RuleSet::default();
    rules.add_file(b"foo\n!/foo\n", &base);
    assert_eq!(rules.matched(&path("/repo/foo"), false), Some(Decision::Include));
    assert_eq!(rules.matched(&path("/repo/deep/foo"), false), Some(Decision::Exclude));
}

#[test]
fn a_line_that_is_no_text_spoils_no_other() {
    let base = path("/repo");
    let mut rules = RuleSet::default();
    rules.add_file("*.log\na\0b\n**/x\0y\n\\\u{e9}\n{c,d\0}\n!keep.log\n".as_bytes(), &base);
    assert_eq!(rules.matched(&path("/repo/x.log"), false), Some(Decision::Exclude));
    assert_eq!(rules.matched(&path("/repo/keep.log"), false), Some(Decision::Include));
    assert_eq!(rules.matched(&path("/repo/a"), false), None);
    assert_eq!(rules.matched(&path("/repo/c"), false), Some(Decision::Exclude));
    assert_eq!(rules.matched(&path("/repo/d"), false), None);
}

fn excludes(pattern: &str, relative: &str) -> bool {
    let base = path("/repo");
    let mut rules = RuleSet::default();
    rules.add_file(pattern.as_bytes(), &base);
    rules.matched(&base.join(&path(relative)), false) == Some(Decision::Exclude)
}

#[test]
fn escaped_characters_beyond_ascii_are_matched() {
    assert!(excludes("ab*\\\u{e9}", "ab-\u{e9}"));
    assert!(excludes("ab*\\\u{e9}", "deep/ab\u{e9}"));
    assert!(!excludes("ab*\\\u{e9}", "ab-e"));
    assert!(excludes("long/\\\u{e9}x", "long/\u{e9}x"));
    assert!(excludes("[\\\u{e9}a]b", "ab"));
    assert!(excludes("{\\\u{e9},b}c", "\u{e9}c"));
    assert!(excludes("\\\\\u{e9}", "\\\u{e9}"));
    assert!(!safe("\\\u{e9}"));
    assert!(!safe("a\\\u{e9}b"));
    assert!(safe("ab\\\u{e9}b"));
    assert!(!safe("ab\\\u{20ac}b"));
    assert!(safe("a?bcd\\\u{1f600}"));
    assert!(!safe("a?b\\\u{1f600}"));
    assert!(safe("[abc]{d,\\\u{e9}}"));
}

#[test]
fn a_nul_beside_two_stars_is_matched_around() {
    assert!(excludes("[\0a]/**/b?", "a/x/bc"));
    assert!(!excludes("[\0a]/**/b?", "c/x/bc"));
    assert!(excludes("{src/**,x\0}", "src/main.rs"));
    assert!(excludes("/{**/*.o,x\0}", "deep/main.o"));
    assert!(excludes("/{a*b/**,x\0/**}", "acb/c"));
    assert!(excludes("/{p/**/*.c,p/**/*.\0}", "p/q/r.c"));
    assert!(!safe("x\0/**"));
    assert!(!safe("**/x\0"));
    assert!(!safe("**/*x\0"));
    assert!(!safe("a\0/**/*b"));
    assert!(!safe("{a,b\0}/**"));
    assert!(!safe("{a,{b,c\0}/**}"));
    assert!(safe("**/*.\0"));
    assert!(safe("**/**/*.\0"));
    assert!(!safe("**/*.\0.c"));
    assert!(safe("a\0**b"));
    assert!(safe("a\0/**/b*"));
    assert!(safe("a/**/*\0"));
    assert!(safe("{a\0/**,b*c*d}"));
    assert!(safe("a\0b"));
}

fn safe(pattern: &str) -> bool {
    safe_pattern(&pattern.chars().collect::<Vec<char>>())
}

#[test]
fn no_short_pattern_breaks_a_map() {
    let symbols = ['a', '*', '/', '\0', '{', '}', ',', '\\', '\u{e9}', '['];
    let mut patterns = vec![String::new()];
    for _ in 0..4 {
        patterns = patterns
            .iter()
            .flat_map(|pattern| symbols.iter().map(move |symbol| format!("{pattern}{symbol}")))
            .collect();
        for pattern in &patterns {
            excludes(pattern, "a");
        }
    }
}
