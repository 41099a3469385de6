use leaves::area::{Position, Rect};
use leaves::colors::{Color, ColorScheme, Palette};
use leaves::config::DirStyle;
use leaves::entry::{Entry, StackAddr};
use leaves::explorer::{
    build_nav_tree, combine_shards, enty_to_nav, nav_threads, outline_job, split_jobs, tree_items, NavItem,
};
use leaves::path::PathBuf;
use leaves::render::{
    can_render, is_lost, note_click, render_content, render_entry, render_subtree, selection_below, weights,
    Border, Content, Plot,
};
use leaves::siblings::cumsum_size;
use leaves::state::{AppMode, AppState};

fn path(text: &str) -> PathBuf {
    PathBuf::from_text(text)
}

fn leaf(name: &str, size: usize) -> Entry {
    let colors = ColorScheme { dark_mode: true, mono: false, palette: Palette::Fall };
    Entry::new_leaf(path(name), size, &colors)
}

fn directory(name: &str, below: Vec<Entry>) -> Entry {
    let mut entry = Entry::bare(path(name));
    entry.size = below.iter().map(|it| it.size).sum();
    entry.nfiles = below.iter().map(|it| it.nfiles).sum();
    entry.leaves = below.iter().map(|it| it.leaves).sum();
    entry.subtree = cumsum_size(below);
    entry
}

fn area(x: u16, y: u16, width: u16, height: u16) -> Rect {
    Rect { x, y, width, height }
}

fn outline(items: &[NavItem]) -> String {
    items
        .iter()
        .map(|item| format!("({} {}{})", item.id, item.text, outline(&item.children)))
        .collect()
}

#[test]
fn areas_hold_and_overlap() {
    let whole = area(1, 1, 10, 5);
    assert!(whole.contains(Position { x: 1, y: 1 }));
    assert!(whole.contains(Position { x: 10, y: 5 }));
    assert!(!whole.contains(Position { x: 11, y: 5 }));
    assert!(!whole.contains(Position { x: 0, y: 3 }));
    assert_eq!(whole.intersection(area(5, 0, 20, 3)), area(5, 1, 6, 2));
    assert_eq!(whole.intersection(area(50, 50, 2, 2)).width, 0);
    let ratatui = ratatui::layout::Rect::new(1, 1, 10, 5).intersection(ratatui::layout::Rect::new(5, 0, 20, 3));
    assert_eq!((ratatui.x, ratatui.y, ratatui.width, ratatui.height), (5, 1, 6, 2));
    let edge = area(65_530, 0, 10, 1);
    assert!(edge.contains(Position { x: 65_534, y: 0 }));
    assert!(!edge.contains(Position { x: 65_535, y: 0 }));
}

#[test]
fn the_deepest_area_is_clicked_on() {
    let root = StackAddr::root();
    let outer = root.push(4);
    let inner = outer.push(5);
    let mut state = AppState::new(&path("/"), AppMode::Normal);
    state.click_area = area(0, 0, 40, 20);
    state.click_pos = Some(Position { x: 12, y: 6 });
    note_click(&mut state, &outer, area(10, 5, 10, 10));
    assert_eq!(state.click_addr, [4]);
    note_click(&mut state, &inner, area(11, 6, 4, 4));
    assert_eq!(state.click_addr, [4, 5]);
    assert_eq!(state.click_area, area(11, 6, 4, 4));
    note_click(&mut state, &root.push(6), area(0, 0, 40, 20));
    assert_eq!(state.click_addr, [4, 5]);
    note_click(&mut state, &root.push(7), area(30, 0, 10, 20));
    assert_eq!(state.click_addr, [4, 5]);
    state.click_pos = None;
    note_click(&mut state, &root, area(12, 6, 1, 1));
    assert_eq!(state.click_addr, [4, 5]);
}

#[test]
fn areas_are_proportional_to_sizes() {
    assert_eq!(weights(200, 100), (43690, 21845));
    assert_eq!(weights(1, 1), (32767, 32767));
    assert_eq!(weights(9, 1), (58981, 6553));
    assert_eq!(weights(usize::MAX, usize::MAX), (32767, 32767));
    assert_eq!(weights(7, 0), (65535, 0));
    assert_eq!(weights(0, 0), (0, 0));
}

#[test]
fn a_forest_is_drawn_by_halves() {
    let forest = cumsum_size(vec![leaf("/a.rs", 6), leaf("/b", 3), leaf("/c", 2), leaf("/d", 1)]);
    assert!(can_render(&forest));
    match render_subtree(&forest, area(0, 0, 21, 10), &[]) {
        Plot::Split { left, right, left_size, right_size, horizontal } => {
            assert_eq!((left.len(), right.len()), (1, 3));
            assert_eq!((left_size, right_size), (6, 6));
            assert!(horizontal);
        }
        _ => panic!("not split"),
    }
    assert!(matches!(
        render_subtree(&forest, area(0, 0, 20, 10), &[]),
        Plot::Split { horizontal: false, .. }
    ));
    assert!(matches!(render_subtree(&forest[..0], area(0, 0, 9, 9), &[]), Plot::Nothing));
    assert!(matches!(
        render_subtree(&forest[1..2], area(0, 0, 1, 1), &[]),
        Plot::One { id: 6, .. }
    ));
    match render_subtree(&forest, area(0, 0, 2, 9), &[11]) {
        Plot::Tiny { id, color, marked } => {
            assert_eq!(id, 0);
            assert!(matches!(color, Color::Ext(ext) if ext == b"rs"));
            assert!(marked);
        }
        _ => panic!("not tiny"),
    }
    assert!(matches!(
        render_subtree(&forest, area(0, 0, 9, 1), &[12, 0]),
        Plot::Tiny { marked: false, .. }
    ));
    assert!(is_lost(area(0, 0, 0, 4)) && is_lost(area(0, 0, 4, 0)) && !is_lost(area(0, 0, 1, 1)));
    let unordered = vec![(5, leaf("/a", 1)), (0, leaf("/b", 1))];
    assert!(!can_render(&unordered));
}

#[test]
fn the_border_tells_what_an_entry_is() {
    let root = StackAddr::root();
    let addr = root.push(3);
    let file = leaf("/a/file.rs", 2_000);
    let dir = directory("/a/dir", vec![leaf("/a/dir/x", 1)]);
    let look = render_entry(DirStyle::Plain, &file, &addr, area(0, 0, 9, 9), &[]);
    assert_eq!(look.title, "file.rs");
    assert_eq!(look.size.as_deref(), Some("2 kB"));
    assert_eq!(look.border, Border::LightDoubleDashed);
    assert!(!look.selected);
    let look = render_entry(DirStyle::Plain, &file, &addr, area(0, 0, 9, 1), &[3, 4]);
    assert_eq!(look.size, None);
    assert_eq!(look.border, Border::QuadrantInside);
    assert!(look.selected);
    assert_eq!(selection_below(look.selected, &[3, 4]), [4]);
    assert!(selection_below(false, &[3, 4]).is_empty());
    assert_eq!(render_entry(DirStyle::Plain, &dir, &addr, area(0, 0, 9, 9), &[4]).border, Border::Plain);
    assert_eq!(render_entry(DirStyle::Thick, &dir, &addr, area(0, 0, 9, 9), &[4]).border, Border::Thick);
    let mut group = directory("/a/**.rs", vec![leaf("/a/x.rs", 1)]);
    group.is_group = true;
    assert_eq!(render_entry(DirStyle::Thick, &group, &addr, area(0, 0, 9, 9), &[]).border, Border::Double);
    let root_dir = directory("/", vec![leaf("/x", 1)]);
    assert_eq!(render_entry(DirStyle::Plain, &root_dir, &addr, area(0, 0, 9, 9), &[]).title, "");
}

#[test]
fn what_is_below_is_drawn_if_there_is_room() {
    let file = leaf("/a", 1);
    let dir = directory("/d", vec![leaf("/d/x", 1)]);
    assert_eq!(render_content(&file, area(0, 0, 1, 1), true), Content::Filled(true));
    assert_eq!(render_content(&file, area(0, 0, 9, 9), false), Content::Filled(false));
    assert_eq!(render_content(&dir, area(0, 0, 3, 1), true), Content::Below);
    assert_eq!(render_content(&dir, area(0, 0, 1, 3), true), Content::Below);
    assert_eq!(render_content(&dir, area(0, 0, 2, 2), true), Content::Nothing);
}

#[test]
fn the_navigator_outlines_the_forest() {
    let forest = cumsum_size(vec![
        directory("/d", vec![leaf("/d/x", 1_500), leaf("/d/y.rs", 20)]),
        leaf("/z", 7),
    ]);
    let expected = "(0 [1.52 kB] d(0 [1.50 kB] x)(1500 [20 B] y.rs))(1520 [7 B] z)";
    assert_eq!(outline(&tree_items(&forest)), expected);
    assert_eq!(outline(&build_nav_tree(&forest, 8)), expected);
    assert_eq!(outline(&[enty_to_nav(9, &forest[1].1)]), "(9 [7 B] z)");
}

#[test]
fn jobs_outline_the_same_as_one_worker() {
    let mut big = directory("/big", vec![leaf("/big/x", 5), leaf("/big/y", 4)]);
    big.leaves = 60_000;
    big.subtree[0].1.leaves = 30_000;
    big.subtree[0].1.subtree = cumsum_size(vec![leaf("/big/x/u", 3), leaf("/big/x/v", 2)]);
    let mut forest = cumsum_size(vec![big, leaf("/small", 1)]);
    let jobs = split_jobs(&forest);
    let addresses: Vec<Vec<usize>> = jobs.iter().map(|(addr, _)| addr.clone()).collect();
    assert_eq!(addresses, [vec![0, 0, 0], vec![0, 0, 3], vec![0, 5], vec![9]]);
    let shards = jobs.iter().map(outline_job).collect();
    assert_eq!(outline(&combine_shards(&forest, shards)), outline(&tree_items(&forest)));
    forest[0].1.leaves = 600_000;
    assert_eq!(outline(&build_nav_tree(&forest, 4)), outline(&tree_items(&forest)));
    assert_eq!(nav_threads(49_999, 4), 0);
    assert_eq!(nav_threads(100_000, 4), 2);
    assert_eq!(nav_threads(1_000_000, 4), 4);
}
