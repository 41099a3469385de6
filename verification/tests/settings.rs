use leaves::app::Key;
use leaves::colors::{Color, ColorScheme, Palette};
use leaves::config::{
    default_true, resolve_colors, resolve_dark_mode, resolve_dir_style, resolve_shift, ColorShift, Config, DirStyle,
    EnvWrap, ThemeSpec, PROJECT_NAME,
};
use leaves::diagnostics::NoopSpan;
use leaves::path::{extension_of, PathBuf};
use leaves::scan::{ScanState, ScanUI};
use leaves::show::{decimal_text, show_name, show_path};

fn vars(pairs: &[(&str, &str)]) -> Vec<(String, String)> {
    pairs.iter().map(|(k, v)| (k.to_string(), v.to_string())).collect()
}

fn text(value: &str) -> Option<String> {
    Some(value.to_string())
}

#[test]
fn variables_override_settings() {
    let config = Config::default().with_env(vars(&[
        ("LEAVES_DARK_MODE", "YES"),
        ("LEAVES_COLORS", "Spring"),
        ("LEAVES_THEME", "other"),
        ("LEAVES_COLOR_SHIFT", "0.5"),
        ("LEAVES_DIR_STYLE", "Heavy"),
        ("PATH", "/bin"),
    ]));
    assert!(config.dark_mode);
    assert_eq!(config.colors.as_deref(), Some("spring"));
    assert!(matches!(&config.color_shift, ColorShift::Given(number) if number == "0.5"));
    assert_eq!(config.dir_style, DirStyle::Thick);
    let config = config.with_env(vars(&[
        ("LEAVES_BG", "LIGHT"),
        ("LEAVES_THEME", "None"),
        ("LEAVES_COLOR_SHIFT", "False"),
        ("LEAVES_DIR_STYLE", "plain"),
    ]));
    assert!(!config.dark_mode);
    assert_eq!(config.colors.as_deref(), Some("mono"));
    assert!(matches!(config.color_shift, ColorShift::Off));
    assert_eq!(config.dir_style, DirStyle::Plain);
    let config = config.with_env(Vec::new());
    assert_eq!(config.colors.as_deref(), Some("mono"));
    assert!(matches!(config.color_shift, ColorShift::Off));
}

#[test]
fn settings_begin_plain() {
    let config = Config::default();
    assert!(!config.dark_mode && config.colors.is_none() && config.themes.is_empty());
    assert!(matches!(config.color_shift, ColorShift::Setting));
    assert_eq!(config.dir_style, DirStyle::default());
    assert!(default_true());
    assert_eq!(PROJECT_NAME, "leaves");
}

#[test]
fn each_value_has_its_meaning() {
    for value in ["0", "no", "false"] {
        assert!(!resolve_dark_mode(true, &text(value), &None));
    }
    for value in ["1", "yes", "true"] {
        assert!(resolve_dark_mode(false, &text(value), &None));
    }
    assert!(resolve_dark_mode(true, &text("maybe"), &text("grey")));
    assert!(resolve_dark_mode(false, &text("0"), &text("dark")));
    assert!(!resolve_dark_mode(true, &text("1"), &text("light")));
    for value in ["none", "mono", "monochrome"] {
        assert_eq!(resolve_colors(None, text(value)), text("mono"));
    }
    assert_eq!(resolve_colors(text("a"), text("b")), text("b"));
    assert_eq!(resolve_colors(text("a"), None), text("a"));
    for value in ["no", "none", "false"] {
        assert!(matches!(resolve_shift(ColorShift::Setting, text(value)), ColorShift::Off));
    }
    for value in ["yes", "true"] {
        assert!(matches!(resolve_shift(ColorShift::Setting, text(value)), ColorShift::Standard));
    }
    assert!(matches!(resolve_shift(ColorShift::Off, None), ColorShift::Off));
    for value in ["heavy", "thick", "strong"] {
        assert_eq!(resolve_dir_style(DirStyle::Plain, &text(value)), DirStyle::Thick);
    }
    assert_eq!(resolve_dir_style(DirStyle::Thick, &text("odd")), DirStyle::Thick);
}

#[test]
fn the_last_of_two_variables_counts() {
    let env = EnvWrap::of(vars(&[("A", "One"), ("B", "Two"), ("A", "Three")]));
    assert_eq!(env.get("A"), Some("Three"));
    assert_eq!(env.get("C"), None);
    assert_eq!(env.lower("B").as_deref(), Some("two"));
    assert_eq!(env.lower("C"), None);
    assert_eq!(env.one_of(&["C", "B", "A"]).as_deref(), Some("two"));
    assert_eq!(env.one_of(&["C"]), None);
}

#[test]
fn themes_choose_gradients() {
    let mut config = Config::default();
    config.themes = vec![(
        "custom".to_string(),
        ThemeSpec { dirs: vec!["#fff".to_string()], files: vec!["red".to_string()] },
    )];
    assert!(config.theme().is_none());
    assert_eq!(ColorScheme::new(&config, true).palette, Palette::Fall);
    for (name, palette) in [
        ("fall", Palette::Fall),
        ("spring", Palette::Spring),
        ("swap", Palette::Spring),
        ("greys", Palette::Greys),
        ("mono", Palette::Greys),
        ("unknown", Palette::Fall),
    ] {
        config.colors = text(name);
        let scheme = ColorScheme::new(&config, true);
        assert_eq!(scheme.palette, palette);
        assert_eq!(scheme.mono, name == "mono");
    }
    config.colors = text("custom");
    assert_eq!(config.theme().unwrap().files, ["red"]);
    assert_eq!(ColorScheme::new(&config, true).palette, Palette::Custom);
    assert_eq!(ColorScheme::new(&config, false).palette, Palette::Fall);
}

#[test]
fn colors_go_by_name_and_extension() {
    let scheme = ColorScheme { dark_mode: false, mono: false, palette: Palette::Fall };
    let path = PathBuf::from_text;
    assert!(matches!(scheme.dir_color(&path("/a/src")), Color::Dir(Some(name)) if name == b"src"));
    assert!(matches!(scheme.dir_color(&path("/")), Color::Dir(None)));
    assert!(matches!(scheme.file_color(&path("/a/x.rs")), Color::Ext(ext) if ext == b"rs"));
    assert!(matches!(scheme.file_color(&path("/a/Makefile")), Color::Reset));
    assert!(matches!(scheme.ext_color(b""), Color::Reset));
    let mono = ColorScheme { mono: true, ..scheme };
    assert!(matches!(mono.dir_color(&path("/a")), Color::Reset));
    assert!(matches!(mono.file_color(&path("/a.rs")), Color::Reset));
}

#[test]
fn paths_are_read_as_the_standard_library_reads_them() {
    for text in [
        "", ".", "..", "/", "//", "a", "/a", "a/", "./a", "a/./b", "/./a", "a//b", "a/../b", ".a", "a.", "a.b.c",
        "/a/.b", "../x.tar.gz", "a/..",
    ] {
        let std = std::path::Path::new(text);
        let ours = PathBuf::from_text(text);
        let spelled: std::path::PathBuf = std.components().collect();
        assert_eq!(ours.to_bytes(), spelled.to_str().unwrap().as_bytes(), "{text:?}");
        assert_eq!(PathBuf::from_bytes(&ours.to_bytes()), ours, "{text:?}");
        assert_eq!(ours.is_absolute(), std.is_absolute());
        assert_eq!(ours.depth(), std.components().count(), "{text:?}");
        assert_eq!(
            ours.file_name(),
            std.file_name().map(|name| name.to_str().unwrap().as_bytes()),
            "{text:?}"
        );
        assert_eq!(
            ours.extension(),
            std.extension().map(|ext| ext.to_str().unwrap().as_bytes().to_vec()),
            "{text:?}"
        );
        assert_eq!(
            ours.parent(),
            std.parent().map(|parent| PathBuf::from_text(parent.to_str().unwrap())),
            "{text:?}"
        );
        for other in ["", "a", "/a", "..", ".", "/"] {
            let base = std::path::Path::new(other);
            let ours_base = PathBuf::from_text(other);
            assert_eq!(ours.starts_with(&ours_base), std.starts_with(base), "{text:?} {other:?}");
            assert_eq!(
                ours.strip_prefix(&ours_base),
                std.strip_prefix(base).ok().map(|rest| PathBuf::from_text(rest.to_str().unwrap())),
                "{text:?} {other:?}"
            );
            assert_eq!(
                ours.join(&ours_base),
                PathBuf::from_text(std.join(base).to_str().unwrap()),
                "{text:?} {other:?}"
            );
            assert_eq!(ours.same(&ours_base), std == base, "{text:?} {other:?}");
        }
    }
    assert_eq!(extension_of(b"x.tar.gz"), Some(b"gz".to_vec()));
    assert_eq!(extension_of(b".bashrc"), None);
}

#[test]
fn names_need_not_be_text() {
    let odd = PathBuf::from_bytes(&[b'/', b'a', 0xff, b'/', b'b', 0xfe]);
    assert_eq!(show_path(&odd), "/a\u{fffd}/b\u{fffd}");
    assert_eq!(show_name(&odd), "b\u{fffd}");
    assert_eq!(decimal_text(0), "0");
    assert_eq!(decimal_text(12_034), "12034");
}

#[test]
fn a_scan_counts_what_it_meets() {
    let colors = ColorScheme { dark_mode: false, mono: false, palette: Palette::Fall };
    let mut state = ScanState::default();
    let file = PathBuf::from_text("/r/a.rs");
    state.visit(file.clone());
    let entry = state.found(file.clone(), true, 1_200, &colors).unwrap();
    assert_eq!((entry.size, entry.nfiles, entry.leaves), (1_200, 1, 1));
    assert!(state.found(file.clone(), true, 0, &colors).is_none());
    assert!(state.found(file, false, 4_096, &colors).is_none());
    assert_eq!((state.count, state.total, state.done), (1, 1_200, false));

    let mut window = ScanUI::new(ScanState::default());
    assert!(window.running() && !window.wants_to_quit());
    window.refresh(state.clone());
    assert_eq!(window.lines(), ["Scanning /r/a.rs", "Count: 1", "Total: 1.20 kB"]);
    window.press(Key::Char('x'));
    assert!(window.running());
    state.done = true;
    window.refresh(state);
    assert!(!window.running() && !window.wants_to_quit());
    window.press(Key::Char('q'));
    assert!(window.wants_to_quit());
}

#[test]
fn work_is_done_in_a_span() {
    assert_eq!(NoopSpan.in_scope(|| 7), 7);
}
