use leaves::actions::{leaves_fit, Change, Expand, Expansion};
use leaves::app::{App, Input, Key, Outcome, TreeCommand};
use leaves::area::{Position, Rect};
use leaves::checks::{all_sizes_fit, counts_fit, is_covered, is_ordered, prunable};
use leaves::cli::Args;
use leaves::colors::{Color, ColorScheme, Palette};
use leaves::entry::{Entry, EntryInfo, Forest};
use leaves::error::{install_handler, thread_join_error, Failure};
use leaves::forest::make_forest;
use leaves::frame::{
    diag_lines, focus_path, info_lines, inspector_share, show_address, sidebar_width, status_spans, title_spans,
    window_look, wrapped_height, Span, Tone, Width,
};
use leaves::path::PathBuf;
use leaves::state::{get_title, is_plain, AppAction, AppMode, AppState, TreeFocus};

fn path(text: &str) -> PathBuf {
    PathBuf::from_text(text)
}

fn colors() -> ColorScheme {
    ColorScheme { dark_mode: true, mono: false, palette: Palette::Fall }
}

fn args() -> Args {
    Args {
        path: path("/r"),
        max_depth: 1,
        cross_fs: false,
        xray: false,
        include_all: false,
        include_hidden: false,
        include_ignored: false,
        include_gitignored: false,
        include_gitexcluded: false,
        overrides: Vec::new(),
    }
}

fn leaf(name: &str, size: usize) -> Entry {
    Entry::new_leaf(path(name), size, &colors())
}

fn sample() -> Vec<Entry> {
    vec![
        leaf("/r/src/main.rs", 30),
        leaf("/r/src/lib.rs", 50),
        leaf("/r/src/deep/er/x.txt", 7),
        leaf("/r/src/deep/z.rs", 5),
        leaf("/r/README", 100),
    ]
}

fn tree(root: &str, leaves: Vec<Entry>, xray: bool) -> Forest {
    let mut args = args().with_depth(usize::MAX);
    args.xray = xray;
    make_forest(&colors(), &args, &path(root), leaves)
}

fn start() -> (App, AppState) {
    let app = App::new(colors(), args(), tree("/r", sample(), false));
    (app, AppState::new(&path("/r"), AppMode::Normal))
}

fn select(app: &mut App, state: &mut AppState, addr: &[usize]) {
    state.tree_state.select(addr.to_vec());
    app.settle_input(state);
    app.begin_frame(state);
}

fn press(app: &mut App, state: &mut AppState, key: Key) -> Outcome {
    let outcome = app.handle_event(state, Input::Key(key));
    app.settle_input(state);
    app.begin_frame(state);
    outcome
}

fn names(forest: &[(usize, Entry)]) -> Vec<String> {
    forest
        .iter()
        .map(|(_, entry)| String::from_utf8(entry.path.to_bytes()).unwrap())
        .collect()
}

fn texts(spans: &[Span]) -> String {
    spans.iter().map(|span| span.text.as_str()).collect()
}

fn total(forest: &[(usize, Entry)]) -> usize {
    forest.iter().map(|(_, entry)| entry.size).sum()
}

#[test]
fn entering_and_leaving_a_view() {
    let (mut app, mut state) = start();
    assert_eq!(names(app.get_view(&state)), ["/r/README", "/r/src"]);
    select(&mut app, &mut state, &[100]);
    assert_eq!(press(&mut app, &mut state, Key::Enter), Outcome::Rebuild);
    assert_eq!(state.skip_view, [100]);
    assert!(state.tree_state.selected.is_empty());
    assert_eq!(
        names(app.get_view(&state)),
        ["/r/src/lib.rs", "/r/src/main.rs", "/r/src/deep"]
    );
    assert_eq!(press(&mut app, &mut state, Key::Backspace), Outcome::Rebuild);
    assert!(state.skip_view.is_empty());
    assert_eq!(state.tree_state.selected, [100]);
    assert_eq!(press(&mut app, &mut state, Key::Char('\\')), Outcome::Rebuild);
    assert!(state.skip_view.is_empty());
}

#[test]
fn leaving_a_view_selects_the_view_alone() {
    for key in [Key::Backspace, Key::Char('\\')] {
        let (mut app, mut state) = start();
        select(&mut app, &mut state, &[100]);
        press(&mut app, &mut state, Key::Enter);
        select(&mut app, &mut state, &[80]);
        assert_eq!(app.selection, [80]);
        assert_eq!(focus_path(&app).unwrap(), "/r/src/deep");
        assert_eq!(press(&mut app, &mut state, key), Outcome::Rebuild);
        assert!(state.skip_view.is_empty());
        assert_eq!(state.tree_state.selected, [100]);
        assert_eq!(app.selection, [100]);
        assert_eq!(focus_path(&app).unwrap(), "/r/src");
    }
}

#[test]
fn a_leaf_is_no_view() {
    let (mut app, mut state) = start();
    select(&mut app, &mut state, &[100, 0]);
    press(&mut app, &mut state, Key::Enter);
    assert_eq!(state.skip_view, [100]);
    select(&mut app, &mut state, &[0]);
    press(&mut app, &mut state, Key::Enter);
    assert_eq!(state.skip_view, [100]);
}

#[test]
fn keys_change_what_they_say() {
    let (mut app, mut state) = start();
    for key in ['+', '=', '='] {
        assert_eq!(press(&mut app, &mut state, Key::Char(key)), Outcome::Done(true));
    }
    assert_eq!(app.args.max_depth, 4);
    for key in ['-', '_', '-', '-', '-'] {
        assert_eq!(press(&mut app, &mut state, Key::Char(key)), Outcome::Done(true));
    }
    assert_eq!(app.args.max_depth, 1);
    press(&mut app, &mut state, Key::Char('i'));
    assert!(state.diagnostic);
    press(&mut app, &mut state, Key::Char('x'));
    assert_eq!(state.action, AppAction::SwitchMode(AppMode::Xray));
    press(&mut app, &mut state, Key::Char('e'));
    assert_eq!(state.action, AppAction::Expand);
    press(&mut app, &mut state, Key::Char('E'));
    assert_eq!(state.action, AppAction::ForceRescan);
    press(&mut app, &mut state, Key::Char('d'));
    assert_eq!(App::take_action(&mut state), AppAction::Deflate);
    assert_eq!(state.action, AppAction::Noop);
    assert_eq!(press(&mut app, &mut state, Key::Char('z')), Outcome::Done(false));
    assert_eq!(press(&mut app, &mut state, Key::Other), Outcome::Done(false));
    assert!(!app.exit);
    assert_eq!(press(&mut app, &mut state, Key::Char('q')), Outcome::Done(true));
    assert!(app.exit);
}

#[test]
fn the_navigator_has_its_own_keys() {
    let (mut app, mut state) = start();
    let navigate = [
        (Key::Char(' '), TreeCommand::ToggleSelected),
        (Key::Char('<'), TreeCommand::CloseAll),
        (Key::Left, TreeCommand::KeyLeft),
        (Key::Right, TreeCommand::KeyRight),
        (Key::Down, TreeCommand::KeyDown),
        (Key::Up, TreeCommand::KeyUp),
        (Key::Home, TreeCommand::SelectFirst),
        (Key::End, TreeCommand::SelectLast),
        (Key::PageDown, TreeCommand::ScrollDown(3)),
        (Key::PageUp, TreeCommand::ScrollUp(3)),
    ];
    for (key, command) in navigate {
        assert_eq!(press(&mut app, &mut state, key), Outcome::Navigate(command));
    }
    select(&mut app, &mut state, &[100]);
    assert_eq!(press(&mut app, &mut state, Key::Esc), Outcome::Done(true));
    assert!(state.tree_state.selected.is_empty());
    assert_eq!(press(&mut app, &mut state, Key::Char('`')), Outcome::Done(false));
}

#[test]
fn the_mouse_scrolls_and_clicks() {
    let (mut app, mut state) = start();
    assert_eq!(
        app.handle_event(&mut state, Input::ScrollDown),
        Outcome::Navigate(TreeCommand::ScrollDown(1))
    );
    assert_eq!(
        app.handle_event(&mut state, Input::ScrollUp),
        Outcome::Navigate(TreeCommand::ScrollUp(1))
    );
    let at = Position { x: 3, y: 4 };
    state.click_addr = vec![1];
    assert_eq!(
        app.handle_event(&mut state, Input::Press(at)),
        Outcome::Click(TreeCommand::ClickAt(at))
    );
    assert_eq!(state.click_pos, Some(at));
    assert!(state.click_addr.is_empty());
    assert_eq!(app.handle_event(&mut state, Input::Release), Outcome::Done(true));
    assert_eq!(app.handle_event(&mut state, Input::Resize), Outcome::Done(true));
    assert_eq!(app.handle_event(&mut state, Input::Other), Outcome::Done(false));
}

#[test]
fn a_click_selects_and_opens_the_way() {
    let (mut app, mut state) = start();
    state.click_pos = Some(Position { x: 1, y: 1 });
    state.click_addr = vec![100, 80, 7];
    app.begin_frame(&mut state);
    assert_eq!(state.tree_state.selected, [100, 80, 7]);
    assert_eq!(state.tree_state.opened, [vec![100], vec![100, 80]]);
    assert_eq!(app.entries.focus, [100, 80, 7]);
    assert_eq!(app.selection, [100, 80, 7]);
    assert_eq!(state.click_pos, None);
    assert!(state.click_addr.is_empty());
}

#[test]
fn the_type_of_the_selection_is_kept() {
    let (mut app, mut state) = start();
    select(&mut app, &mut state, &[100, 0]);
    assert_eq!(state.tag, Some(b"rs".to_vec()));
    select(&mut app, &mut state, &[0]);
    assert_eq!(state.tag, Some(Vec::new()));
    select(&mut app, &mut state, &[100]);
    assert_eq!(state.tag, Some(Vec::new()));
    assert_eq!(app.entries.entry().unwrap().path, path("/r/src"));
    assert!(app.is_in_step(&state));
}

#[test]
fn the_summary_is_that_of_the_view() {
    let (mut app, mut state) = start();
    let info = app.view_info(&state);
    assert_eq!((info.size, info.nfiles, info.leaves), (192, 5, 5));
    assert_eq!(info.path, path("/r"));
    select(&mut app, &mut state, &[100]);
    press(&mut app, &mut state, Key::Enter);
    let info = app.view_info(&state);
    assert_eq!((info.size, info.nfiles, info.leaves), (92, 4, 4));
    assert_eq!(info.path, path("/r/src"));
    assert!(is_plain(&info));
    state.show_info(info);
    assert_eq!(state.title, Some(b"/r/src | 92 B (4 files)".to_vec()));
    assert_eq!(
        texts(&title_spans(&state)),
        "/r/src | 92 B (4 files)"
    );
    state.diagnostic = true;
    assert_eq!(
        texts(&title_spans(&state)),
        "/r/src | 92 B (4 files) [4 leaves]"
    );
}

#[test]
fn titles_say_the_type() {
    let state = AppState::new(&path("/r"), AppMode::Xray);
    let mut info = EntryInfo {
        path: path("/r/a"),
        tag: Some(b"rs".to_vec()),
        size: 2_500,
        nfiles: 1_234_567,
        leaves: 3,
    };
    assert_eq!(
        get_title(&state, &info),
        b"/r/a/**.rs | 2.50 kB (1,234,567 files)".to_vec()
    );
    info.tag = Some(Vec::new());
    assert_eq!(
        get_title(&state, &info),
        b"/r/a/** | 2.50 kB (1,234,567 files)".to_vec()
    );
    info.tag = Some(b"a/b".to_vec());
    assert!(!is_plain(&info));
}

#[test]
fn the_title_begins_with_the_root() {
    let mut state = AppState::new(&path("/"), AppMode::Normal);
    assert_eq!(texts(&title_spans(&state)), "leaves");
    assert_eq!(title_spans(&state)[0].tone, Tone::Cyan);
    state.view_info = Some(EntryInfo {
        path: path("/usr/lib"),
        tag: Some(Vec::new()),
        size: 1,
        nfiles: 1,
        leaves: 1,
    });
    let spans = title_spans(&state);
    assert_eq!(texts(&spans), "/usr/lib/**.(none) | 1 B (1 files)");
    assert_eq!(spans[0].text, "/");
    assert_eq!(spans[0].tone, Tone::Bold);
    state.root = path("/other");
    let spans = title_spans(&state);
    assert_eq!(spans[0].text, "/usr/lib");
    assert_eq!(spans[0].tone, Tone::Plain);
}

#[test]
fn the_bottom_shows_the_keys_that_work() {
    let (mut app, mut state) = start();
    assert_eq!(
        texts(&status_spans(&app, &state)),
        " Mode: normal  | Keys:  x-ray  +/-depth[1] quit "
    );
    select(&mut app, &mut state, &[100]);
    assert_eq!(
        texts(&status_spans(&app, &state)),
        " Mode: normal  | Keys:  x-ray  <Enter>Focus  expand  deflate  +/-depth[1] quit "
    );
    press(&mut app, &mut state, Key::Enter);
    state.mode = AppMode::Xray;
    let spans = status_spans(&app, &state);
    assert_eq!(
        texts(&spans),
        " Mode: x-ray  | Keys:  (x)Normal  <Back>Defocus  expand  deflate  +/-depth[1] quit "
    );
    assert_eq!(spans[3].tone, Tone::Blue);
}

#[test]
fn the_inspector_says_what_is_selected() {
    let (mut app, mut state) = start();
    assert!(info_lines(&app, &state).is_empty());
    assert_eq!(focus_path(&app), None);
    select(&mut app, &mut state, &[100, 0]);
    assert_eq!(info_lines(&app, &state), ["tag: rs", "bytes: 50"]);
    assert_eq!(focus_path(&app).unwrap(), "/r/src/lib.rs");
    select(&mut app, &mut state, &[100]);
    state.diagnostic = true;
    assert_eq!(info_lines(&app, &state), ["tag: (none)", "leaves: 4", "files: 4"]);
    assert_eq!(
        diag_lines(&state, "Some(\"rs\")"),
        ["--- Diagnostics ---", "VW []", "SL [100]", "TG Some(\"rs\")"]
    );
    assert_eq!(show_address(&[1, 20, 300]), "[1, 20, 300]");
}

#[test]
fn the_window_is_dashed_for_an_xray() {
    let (mut app, mut state) = start();
    state.tag = Some(b"rs".to_vec());
    state.skip_view = vec![100];
    assert!(matches!(window_look(&app, &state), (false, None)));
    app.args.xray = true;
    let (dashed, color) = window_look(&app, &state);
    assert!(dashed);
    assert!(matches!(color, Some(Color::Ext(ext)) if ext == b"rs"));
    state.skip_view.clear();
    assert!(matches!(window_look(&app, &state), (true, None)));
}

#[test]
fn the_sidebar_is_a_share_of_a_narrow_window() {
    assert_eq!(sidebar_width(199), Width::Percentage(25));
    assert_eq!(sidebar_width(200), Width::Max(50));
    assert_eq!(inspector_share(true), 50);
    assert_eq!(inspector_share(false), 25);
    assert_eq!(wrapped_height(0, 10), 1);
    assert_eq!(wrapped_height(10, 10), 2);
    assert_eq!(wrapped_height(11, 10), 3);
}

fn deflate(app: &mut App, state: &mut AppState) -> Result<Change, Failure> {
    let root = state.root.clone();
    app.deflate(state, &root)
}

#[test]
fn deflating_sums_up_the_directory() {
    let (mut app, mut state) = start();
    select(&mut app, &mut state, &[100]);
    assert!(prunable(&app.entries.tree));
    assert_eq!(deflate(&mut app, &mut state).unwrap(), Change::Rebuild);
    assert_eq!(total(&app.entries.tree), 192);
    assert_eq!(names(&app.entries.tree), ["/r/README", "/r/src"]);
    assert_eq!(
        names(&app.entries.tree[1].1.subtree),
        ["/r/src/**.rs", "/r/src/**.txt"]
    );
    assert!(prunable(&app.entries.tree));
}

#[test]
fn deflating_needs_no_more_room_than_the_forest() {
    let files = vec![leaf("/r/src/a.rs", usize::MAX - 3), leaf("/r/src/b.rs", 2), leaf("/r/x", 1)];
    let mut app = App::new(colors(), args(), tree("/r", files, false));
    let mut state = AppState::new(&path("/r"), AppMode::Normal);
    select(&mut app, &mut state, &[0]);
    assert!(prunable(&app.entries.tree));
    assert_eq!(deflate(&mut app, &mut state).unwrap(), Change::Rebuild);
    assert_eq!(names(&app.entries.tree), ["/r/src", "/r/x"]);
    assert_eq!(names(&app.entries.tree[0].1.subtree), ["/r/src/**.rs"]);
    assert_eq!(total(&app.entries.tree), usize::MAX);
}

#[test]
fn emptied_directories_share_an_offset() {
    let forest: Forest = vec![
        (0, leaf("/r/big", 5)),
        (5, Entry { size: 0, nfiles: 0, ..leaf("/r/one", 0) }),
        (5, Entry { size: 0, nfiles: 0, ..leaf("/r/two", 0) }),
    ];
    let mut app = App::new(colors(), args(), forest);
    let mut state = AppState::new(&path("/r"), AppMode::Normal);
    assert!(prunable(&app.entries.tree) && counts_fit(&app.entries.tree));
    assert_eq!(app.get_view(&state).len(), 3);
    select(&mut app, &mut state, &[5]);
    assert_eq!(focus_path(&app).unwrap(), "/r/one");
    assert_eq!(press(&mut app, &mut state, Key::Enter), Outcome::Rebuild);
    assert!(state.skip_view.is_empty());
    assert_eq!(app.view_info(&state).size, 5);
}

#[test]
fn a_leaf_deflates_the_directory_above() {
    let (mut app, mut state) = start();
    select(&mut app, &mut state, &[100, 0]);
    assert_eq!(deflate(&mut app, &mut state).unwrap(), Change::Rebuild);
    assert_eq!(state.tree_state.selected, [100]);
    assert_eq!(app.entries.focus, [100]);
    assert_eq!(
        names(&app.entries.tree[1].1.subtree),
        ["/r/src/**.rs", "/r/src/**.txt"]
    );
}

#[test]
fn what_is_no_directory_does_not_deflate() {
    let (mut app, mut state) = start();
    assert_eq!(deflate(&mut app, &mut state).unwrap(), Change::Nothing);
    select(&mut app, &mut state, &[0]);
    assert_eq!(deflate(&mut app, &mut state).unwrap(), Change::Nothing);
    assert_eq!(total(&app.entries.tree), 192);
}

#[test]
fn a_directory_outside_of_the_root_is_an_error() {
    let (mut app, mut state) = start();
    select(&mut app, &mut state, &[100]);
    state.root = path("/elsewhere");
    let failure = deflate(&mut app, &mut state).err().unwrap();
    assert!(matches!(failure, Failure::Prefix));
    assert_eq!(failure.message(), "prefix not found");
    assert!(matches!(app.begin_expand(&mut state), Err(Failure::Prefix)));
}

#[test]
fn expanding_scans_the_directory_again() {
    let (mut app, mut state) = start();
    select(&mut app, &mut state, &[100]);
    deflate(&mut app, &mut state).unwrap();
    app.settle_input(&mut state);
    let expansion = match app.begin_expand(&mut state).unwrap() {
        Expand::Selected(expansion) => expansion,
        other => panic!("{other:?}"),
    };
    assert_eq!(expansion.target, path("/r/src"));
    assert_eq!(expansion.args.max_depth, 2);
    assert_eq!(expansion.est_count, 4);
    assert_eq!(names(&expansion.rest), ["/r/README"]);
    let scanned = vec![
        leaf("/r/src/main.rs", 30),
        leaf("/r/src/new.rs", 1),
        leaf("/r/srcs/other.rs", 9),
        leaf("/r/src/deep/er/x.txt", 7),
    ];
    let leaves = expansion.filter(scanned);
    assert_eq!(leaves.len(), 3);
    assert!(leaves_fit(&leaves));
    let tree = make_forest(&colors(), &expansion.args, &path("/r"), leaves);
    assert_eq!(app.finish_expand(&mut state, expansion, tree), Change::Rebuild);
    assert_eq!(total(&app.entries.tree), 138);
    assert_eq!(
        names(&app.entries.tree[1].1.subtree),
        ["/r/src/main.rs", "/r/src/deep", "/r/src/new.rs"]
    );
    assert_eq!(app.entries.focus, [100]);
}

#[test]
fn expanding_undoes_deflating() {
    for xray in [false, true] {
        let forest = tree("/r", sample(), xray);
        let addr: &[usize] = if xray { &[100, 0] } else { &[100] };
        let mut app = App::new(colors(), args(), forest);
        let mut state = AppState::new(&path("/r"), AppMode::Normal);
        app.args.xray = xray;
        app.args.max_depth = 9;
        select(&mut app, &mut state, addr);
        assert_eq!(app.entries.entry().unwrap().path, path("/r/src"));
        let before = format!("{:?}", app.entries.tree);
        assert_eq!(deflate(&mut app, &mut state).unwrap(), Change::Rebuild);
        let deflated = app.entries.entry().unwrap();
        assert!(deflated.subtree.iter().all(|(_, entry)| entry.is_group && entry.subtree.is_empty()));
        assert_ne!(format!("{:?}", app.entries.tree), before);
        app.settle_input(&mut state);
        let expansion = match app.begin_expand(&mut state).unwrap() {
            Expand::Selected(expansion) => expansion,
            other => panic!("{other:?}"),
        };
        let leaves = expansion.filter(sample());
        let scanned = make_forest(&colors(), &expansion.args, &path("/r"), leaves);
        assert_eq!(app.finish_expand(&mut state, expansion, scanned), Change::Rebuild);
        assert_eq!(format!("{:?}", app.entries.tree), before);
    }
}

#[test]
fn expanding_a_type_keeps_to_it() {
    let expansion = Expansion {
        target: path("/r/a"),
        tag: Some(b"rs".to_vec()),
        args: args(),
        est_count: 1,
        rest: Vec::new(),
    };
    assert!(expansion.keeps(&leaf("/r/a/b.rs", 1)));
    assert!(!expansion.keeps(&leaf("/r/a/b.txt", 1)));
    assert!(!expansion.keeps(&leaf("/r/b.rs", 1)));
    let expansion = Expansion { tag: Some(Vec::new()), ..expansion };
    assert!(expansion.keeps(&leaf("/r/a/Makefile", 1)));
    assert!(!expansion.keeps(&leaf("/r/a/b.rs", 1)));
}

#[test]
fn expanding_nothing_scans_the_root_if_it_is_another_one() {
    let (mut app, mut state) = start();
    assert!(matches!(app.begin_expand(&mut state), Ok(Expand::Root)));
    assert!(!App::refresh_root(&state, &path("/r")));
    state.root = path("/r/src");
    assert!(App::refresh_root(&state, &path("/r")));
    app.finish_refresh(&mut state, tree("/r/src", vec![leaf("/r/src/a", 5)], false));
    assert_eq!(names(&app.entries.tree), ["/r/src/a"]);
    select(&mut app, &mut state, &[0]);
    assert!(matches!(app.begin_expand(&mut state), Ok(Expand::Nothing)));
}

#[test]
fn too_deep_an_expansion_is_noticed() {
    let (mut app, mut state) = start();
    app.args.max_depth = usize::MAX;
    select(&mut app, &mut state, &[100]);
    assert!(matches!(app.begin_expand(&mut state), Ok(Expand::TooLarge)));
    let expansion = Expansion {
        target: path("/r/a"),
        tag: None,
        args: args(),
        est_count: 1,
        rest: vec![(0, leaf("/r/x", usize::MAX))],
    };
    let change = app.finish_expand(&mut state, expansion, vec![(0, leaf("/r/y", 1))]);
    assert_eq!(change, Change::TooLarge);
}

#[test]
fn an_xray_of_a_view_and_back() {
    let (mut app, mut state) = start();
    select(&mut app, &mut state, &[100]);
    press(&mut app, &mut state, Key::Enter);
    select(&mut app, &mut state, &[80, 7]);
    let info = app.view_info(&state);
    state.show_info(info);

    let (leaves, count, switch) = app.begin_switch(&mut state, AppMode::Xray, &path("/r"));
    assert_eq!(leaves.len(), 4);
    assert_eq!(count, Some(4));
    assert_eq!(app.reserve.len(), 1);
    assert!(app.args.xray);
    assert_eq!(state.root, path("/r/src"));
    assert_eq!(switch.restore_view, Some(path("/r/src")));
    assert_eq!(switch.restore_path, Some(path("/r/src/deep/z.rs")));
    assert_eq!(switch.restore_tag, Some(b"rs".to_vec()));
    let forest = tree("/r/src", leaves, true);
    app.finish_switch(&mut state, switch, forest);
    assert_eq!(names(&app.entries.tree), ["/r/src/**.rs", "/r/src/**.txt"]);
    assert_eq!(total(&app.entries.tree), 92);
    assert_eq!(state.mode, AppMode::Xray);
    assert_eq!(state.view_info.is_none(), true);
    app.begin_frame(&mut state);
    app.settle_input(&mut state);
    assert_eq!(app.entries.entry().unwrap().path, path("/r/src/deep/z.rs"));

    let (leaves, count, switch) = app.begin_switch(&mut state, AppMode::Normal, &path("/r"));
    assert_eq!(leaves.len(), 5);
    assert_eq!(count, Some(5));
    assert!(app.reserve.is_empty());
    assert_eq!(state.root, path("/r"));
    let forest = tree("/r", leaves, false);
    app.finish_switch(&mut state, switch, forest);
    assert_eq!(total(&app.entries.tree), 192);
    assert_eq!(state.mode, AppMode::Normal);
    assert_eq!(state.skip_view, [100]);
    app.begin_frame(&mut state);
    app.settle_input(&mut state);
    assert_eq!(app.entries.entry().unwrap().path, path("/r/src/deep/z.rs"));
}

#[test]
fn switching_back_restores_the_forest() {
    let files = vec![leaf("/r/a/b/f.rs", 9), leaf("/r/a/b/g.txt", 3), leaf("/r/c", 1)];
    for view in [&[][..], &[0][..], &[0, 0][..]] {
        let mut app = App::new(colors(), args(), tree("/r", files.clone(), false));
        let mut state = AppState::new(&path("/r"), AppMode::Normal);
        let before = format!("{:?}", app.entries.tree);
        select(&mut app, &mut state, view);
        press(&mut app, &mut state, Key::Enter);
        assert_eq!(state.skip_view, view);
        let (leaves, _, switch) = app.begin_switch(&mut state, AppMode::Xray, &path("/r"));
        let forest = tree(&String::from_utf8(state.root.to_bytes()).unwrap(), leaves, true);
        app.finish_switch(&mut state, switch, forest);
        let (leaves, _, switch) = app.begin_switch(&mut state, AppMode::Normal, &path("/r"));
        let forest = tree("/r", leaves, false);
        app.finish_switch(&mut state, switch, forest);
        assert_eq!(format!("{:?}", app.entries.tree), before);
    }
}

#[test]
fn a_forest_is_tested_before_it_is_used() {
    let sound = tree("/r", sample(), false);
    assert!(is_ordered(&sound) && is_covered(&sound) && counts_fit(&sound) && all_sizes_fit(&sound));
    let twice: Forest = vec![(0, leaf("/a", 1)), (0, leaf("/b", 1))];
    assert!(is_ordered(&twice));
    let falling: Forest = vec![(1, leaf("/a", 1)), (0, leaf("/b", 1))];
    assert!(!is_ordered(&falling));
    let mut small = leaf("/a", 1);
    small.subtree = vec![(0, leaf("/a/b", 2))];
    assert!(!is_covered(&vec![(0, small)]));
    let huge: Forest = vec![(0, leaf("/a", usize::MAX)), (1, leaf("/b", 1))];
    assert!(!counts_fit(&huge) && !all_sizes_fit(&huge));
    assert!(!leaves_fit(&vec![leaf("/a", usize::MAX), leaf("/b", 1)]));
}

#[test]
fn a_focus_is_nothing_at_first() {
    let mut focus = TreeFocus::default();
    assert!(focus.entry().is_none());
    focus.tree = vec![(0, leaf("/a", 1))];
    focus.select(&[0]);
    assert_eq!(focus.entry().unwrap().path, path("/a"));
}

#[test]
fn states_begin_blank() {
    let state = AppState::new(&path("/x"), AppMode::default());
    assert_eq!(state.root, path("/x"));
    assert_eq!(state.mode, AppMode::Normal);
    assert_eq!(state.action, AppAction::default());
    assert_eq!(state.click_area, Rect::default());
    assert!(state.qual_select().is_empty());
    assert!(state.status_msg.is_none() && state.pending_delete.is_none());
}

#[test]
fn failures_have_messages() {
    assert_eq!(thread_join_error().message(), "Failed to join scanner thread");
    assert_eq!(Failure::Globs.message(), "error parsing glob: unclosed character class");
    assert!(install_handler().is_ok());
}
