use leaves::checks::{is_covered, is_ordered, prunable};
use leaves::cli::Args;
use leaves::colors::{Color, ColorScheme, Palette};
use leaves::entry::{copy_forest, Either, Entry, EntryInfo, Forest, MaybePair, StackAddr};
use leaves::forest::make_forest;
use leaves::leaves::{deforest, into_leaves};
use leaves::merge::{merge_entries, merge_forests};
use leaves::parallel::{num_threads, pair_up, par_forest, reduce_forests};
use leaves::partition::{key_range, partition};
use leaves::path::PathBuf;
use leaves::regroup::regroup;
use leaves::room::merge_fits;
use leaves::siblings::{cumsum_size, sort_largest};
use leaves::surgery::{find_id, get_selection, prune_entry, recumsum_forest, tree_find_path};

fn path(text: &str) -> PathBuf {
    PathBuf::from_text(text)
}

fn colors() -> ColorScheme {
    ColorScheme { dark_mode: true, mono: false, palette: Palette::Fall }
}

fn args(max_depth: usize, xray: bool) -> Args {
    Args {
        path: path("/r"),
        max_depth,
        cross_fs: false,
        xray,
        include_all: false,
        include_hidden: false,
        include_ignored: false,
        include_gitignored: false,
        include_gitexcluded: false,
        overrides: Vec::new(),
    }
}

fn leaf(name: &str, size: usize) -> Entry {
    Entry::new_leaf(path(name), size, &colors())
}

fn sample() -> Vec<Entry> {
    vec![
        leaf("/r/src/main.rs", 30),
        leaf("/r/src/lib.rs", 50),
        leaf("/r/src/deep/er/x.txt", 7),
        leaf("/r/src/deep/er/y.txt", 8),
        leaf("/r/src/deep/z.rs", 5),
        leaf("/r/README", 100),
    ]
}

/// The entries of a forest with their ids, one line each, indented by depth.
fn show(forest: &Forest) -> Vec<String> {
    let mut lines = Vec::new();
    show_below(forest, 0, &mut lines);
    lines
}

fn show_below(forest: &Forest, depth: usize, lines: &mut Vec<String>) {
    for (id, entry) in forest {
        lines.push(format!(
            "{}{} {} {} {}/{}{}",
            " ".repeat(depth),
            id,
            String::from_utf8(entry.path.to_bytes()).unwrap(),
            entry.size,
            entry.nfiles,
            entry.leaves,
            if entry.is_group { " group" } else { "" },
        ));
        show_below(&entry.subtree, depth + 1, lines);
    }
}

#[test]
fn test_addr() {
    let root = StackAddr(None);

    let one = StackAddr(Some((1, &root)));
    let two = one.push(2);

    let all = (&two).collect_vec();
    assert_eq!(all, vec![2, 1]);
}

#[test]
fn addresses_are_read_from_the_root() {
    let root = StackAddr::root();
    assert_eq!(root.head(), None);
    let one = root.push(1);
    let two = one.push(2);
    assert_eq!(two.head(), Some(&2));
    assert_eq!(two.address(), [1, 2]);
    assert!(root.collect_vec().is_empty());
}

#[test]
fn test_prune_and_recumsum() {
    let entry1 = Entry {
        path: PathBuf::from_text("/a"),
        size: 100,
        nfiles: 1,
        leaves: 1,
        ..Default::default()
    };
    let entry2 = Entry {
        path: PathBuf::from_text("/b"),
        size: 200,
        nfiles: 1,
        leaves: 1,
        ..Default::default()
    };
    let entry3 = Entry {
        path: PathBuf::from_text("/c"),
        size: 300,
        nfiles: 1,
        leaves: 1,
        ..Default::default()
    };

    let mut forest: Forest = vec![(0, entry1), (100, entry2), (300, entry3)];

    let pruned = prune_entry(&mut forest, &[100]);
    assert!(pruned.is_left());
    if let Either::Left(removed) = pruned {
        assert_eq!(removed.path, PathBuf::from_text("/b"));
    }

    assert_eq!(forest.len(), 2);

    recumsum_forest(&mut forest);

    assert_eq!(forest[0].0, 0);
    assert_eq!(forest[0].1.path, PathBuf::from_text("/a"));
    assert_eq!(forest[1].0, 100);
    assert_eq!(forest[1].1.path, PathBuf::from_text("/c"));
}

#[test]
fn a_forest_follows_the_directories() {
    let forest = make_forest(&colors(), &args(9, false), &path("/r"), sample());
    assert_eq!(
        show(&forest),
        [
            "0 /r/README 100 1/1",
            "100 /r/src 100 5/5",
            " 0 /r/src/lib.rs 50 1/1",
            " 50 /r/src/main.rs 30 1/1",
            " 80 /r/src/deep 20 3/3",
            "  0 /r/src/deep/er 15 2/2",
            "   0 /r/src/deep/er/y.txt 8 1/1",
            "   8 /r/src/deep/er/x.txt 7 1/1",
            "  15 /r/src/deep/z.rs 5 1/1",
        ]
    );
    assert!(matches!(&forest[1].1.color, Color::Dir(Some(name)) if name == b"src"));
    assert!(matches!(&forest[0].1.color, Color::Reset));
    assert!(matches!(&forest[1].1.subtree[0].1.color, Color::Ext(ext) if ext == b"rs"));
}

#[test]
fn below_the_depth_files_are_summed_up_by_type() {
    let forest = make_forest(&colors(), &args(2, false), &path("/r"), sample());
    assert_eq!(
        show(&forest),
        [
            "0 /r/README 100 1/1",
            "100 /r/src 100 5/4",
            " 0 /r/src/lib.rs 50 1/1",
            " 50 /r/src/main.rs 30 1/1",
            " 80 /r/src/deep 20 3/2",
            "  0 /r/src/deep/**.txt 15 2/1 group",
            "  15 /r/src/deep/**.rs 5 1/1 group",
        ]
    );
    let forest = make_forest(&colors(), &args(1, false), &path("/r"), sample());
    assert_eq!(
        show(&forest),
        [
            "0 /r/README 100 1/1",
            "100 /r/src 100 5/2",
            " 0 /r/src/**.rs 85 3/1 group",
            " 85 /r/src/**.txt 15 2/1 group",
        ]
    );
}

#[test]
fn an_xray_groups_by_type_first() {
    let forest = make_forest(&colors(), &args(9, true), &path("/r"), sample());
    assert_eq!(
        show(&forest),
        [
            "0 /r/(none) 100 1/1 group",
            " 0 /r/README 100 1/1",
            "100 /r/**.rs 85 3/3 group",
            " 0 /r/src 85 3/3",
            "  0 /r/src/lib.rs 50 1/1",
            "  50 /r/src/main.rs 30 1/1",
            "  80 /r/src/deep 5 1/1",
            "   0 /r/src/deep/z.rs 5 1/1",
            "185 /r/**.txt 15 2/2 group",
            " 0 /r/src 15 2/2",
            "  0 /r/src/deep 15 2/2",
            "   0 /r/src/deep/er 15 2/2",
            "    0 /r/src/deep/er/y.txt 8 1/1",
            "    8 /r/src/deep/er/x.txt 7 1/1",
        ]
    );
    assert_eq!(forest[1].1.subtree[0].1.tag, Some(b"rs".to_vec()));
}

#[test]
fn leaves_come_back_out_of_a_forest() {
    for xray in [false, true] {
        let forest = make_forest(&colors(), &args(9, xray), &path("/r"), sample());
        let mut back: Vec<(Vec<u8>, usize)> = deforest(forest)
            .collect_vec()
            .into_iter()
            .map(|entry| (entry.path.to_bytes(), entry.size))
            .collect();
        back.sort();
        let mut given: Vec<(Vec<u8>, usize)> = sample()
            .into_iter()
            .map(|entry| (entry.path.to_bytes(), entry.size))
            .collect();
        given.sort();
        assert_eq!(back, given);
    }
}

#[test]
fn leaves_come_one_by_one() {
    let mut forest = make_forest(&colors(), &args(9, false), &path("/r"), sample());
    let src = forest.pop().unwrap().1;
    let mut leaves = into_leaves(vec![leaf("/r/a", 1), src]);
    assert_eq!(leaves.next().unwrap().path, path("/r/a"));
    assert!(leaves.next().is_some());
    assert_eq!(leaves.collect_vec().len(), 4);
    assert!(into_leaves(Vec::new()).next().is_none());
}

#[test]
fn the_largest_come_first_and_ties_go_by_path() {
    let sorted = sort_largest(vec![leaf("/b", 1), leaf("/c", 2), leaf("/a", 1), leaf("/a/b", 1)]);
    let names: Vec<Vec<u8>> = sorted.iter().map(|entry| entry.path.to_bytes()).collect();
    assert_eq!(names, [b"/c".to_vec(), b"/a".to_vec(), b"/a/b".to_vec(), b"/b".to_vec()]);
    let laid = cumsum_size(sorted);
    let ids: Vec<usize> = laid.iter().map(|(id, _)| *id).collect();
    assert_eq!(ids, [0, 2, 3, 4]);
}

#[test]
fn pruning_subtracts_on_the_way_up() {
    let mut forest = make_forest(&colors(), &args(9, false), &path("/r"), sample());
    match prune_entry(&mut forest, &[100, 80, 0]) {
        Either::Left(entry) => assert_eq!(entry.path, path("/r/src/deep/er")),
        Either::Right(_) => panic!("nothing pruned"),
    }
    assert_eq!(
        show(&forest),
        [
            "0 /r/README 100 1/1",
            "100 /r/src 85 3/3",
            " 0 /r/src/lib.rs 50 1/1",
            " 50 /r/src/main.rs 30 1/1",
            " 80 /r/src/deep 5 1/1",
            "  15 /r/src/deep/z.rs 5 1/1",
        ]
    );
    recumsum_forest(&mut forest);
    assert_eq!(forest[1].1.subtree[2].1.subtree[0].0, 0);
    match prune_entry(&mut forest, &[77]) {
        Either::Left(_) => panic!("something pruned"),
        Either::Right(whole) => assert_eq!(whole.len(), 2),
    }
    assert!(forest.is_empty());
}

#[test]
fn what_is_found_is_selected() {
    let forest = make_forest(&colors(), &args(9, false), &path("/r"), sample());
    let root = StackAddr::root();
    let addr = tree_find_path(&forest, &path("/r/src/deep/z.rs"), None, &root).unwrap();
    assert_eq!(addr, [100, 80, 15]);
    assert_eq!(get_selection(&addr, &forest).unwrap().path, path("/r/src/deep/z.rs"));
    assert!(tree_find_path(&forest, &path("/r/none"), None, &root).is_none());
    assert!(get_selection(&[], &forest).is_none());
    assert!(get_selection(&[100, 81], &forest).is_none());
    assert_eq!(find_id(&forest, 100), Some(1));
    assert_eq!(find_id(&forest, 99), None);

    let forest = make_forest(&colors(), &args(9, true), &path("/r"), sample());
    let addr = tree_find_path(&forest, &path("/r/src"), Some(b"txt"), &root).unwrap();
    assert_eq!(addr, [185, 0]);
    let addr = tree_find_path(&forest, &path("/r/src"), None, &root).unwrap();
    assert_eq!(addr, [100, 0]);
}

#[test]
fn merging_adds_what_has_one_path() {
    let whole = sample();
    let mut first = Vec::new();
    let mut second = Vec::new();
    for (i, entry) in whole.into_iter().enumerate() {
        if i % 2 == 0 {
            first.push(entry);
        } else {
            second.push(entry);
        }
    }
    for (depth, xray) in [(9, false), (9, true), (1, false)] {
        let left = make_forest(&colors(), &args(depth, xray), &path("/r"), first.clone());
        let right = make_forest(&colors(), &args(depth, xray), &path("/r"), second.clone());
        assert!(merge_fits(&left, &right));
        let merged = merge_forests(left, right);
        let all = make_forest(&colors(), &args(depth, xray), &path("/r"), sample());
        assert_eq!(show(&merged), show(&all));
    }
}

#[test]
fn merging_two_entries_adds_their_counts() {
    let merged = merge_entries(leaf("/r/a", 3), leaf("/r/a", 4));
    assert_eq!((merged.size, merged.nfiles, merged.leaves), (7, 2, 1));
    assert!(merged.subtree.is_empty());
}

#[test]
fn forests_too_large_to_merge_are_noticed() {
    let left: Forest = vec![(0, leaf("/r/a", usize::MAX))];
    let right: Forest = vec![(0, leaf("/r/a", 1))];
    assert!(!merge_fits(&left, &right));
    assert!(reduce_forests(vec![left, right]).is_none());
    let left: Forest = vec![(0, leaf("/r/a", usize::MAX))];
    let right: Forest = vec![(0, leaf("/r/b", 1))];
    assert!(!merge_fits(&left, &right));
    let many = |name: &str| Entry { nfiles: usize::MAX, ..leaf(name, 1) };
    assert!(!merge_fits(&vec![(0, many("/r/a"))], &vec![(0, many("/r/a"))]));
    assert!(merge_fits(&vec![(0, many("/r/a"))], &vec![(0, many("/r/b"))]));
    let above = |name: &str, child: Entry| Entry { subtree: vec![(0, child)], ..leaf(name, 1) };
    let left: Forest = vec![(0, above("/r/d", leaf("/r/d/x", usize::MAX)))];
    let right: Forest = vec![(0, above("/r/d", leaf("/r/d/y", 1)))];
    assert!(!merge_fits(&left, &right));
    let wide = |name: &str| Entry { leaves: usize::MAX, ..leaf(name, 1) };
    let left: Forest = vec![(0, above("/r/d", wide("/r/d/x")))];
    let right: Forest = vec![(0, above("/r/d", wide("/r/d/y")))];
    assert!(!merge_fits(&left, &right));
    let right: Forest = vec![(0, above("/r/e", wide("/r/e/y")))];
    assert!(merge_fits(&left, &right));
}

#[test]
fn merging_needs_no_more_room_than_the_sums() {
    for depth in [0, 1, 9] {
        for xray in [false, true] {
            let args = args(depth, xray);
            let files = vec![leaf("/r/d/e/a.rs", usize::MAX - 1), leaf("/r/d/e/b.rs", 1)];
            let all = make_forest(&colors(), &args, &path("/r"), files.clone());
            let shares = files.into_iter().map(|file| vec![file]).collect();
            let forest = par_forest(&colors(), &args, &path("/r"), shares).unwrap();
            assert_eq!(show(&forest), show(&all));
        }
    }
}

#[test]
fn files_that_count_as_many_are_put_together_again() {
    let files: Vec<Entry> = sample()
        .into_iter()
        .map(|entry| Entry { nfiles: 3, leaves: 2, is_group: true, ..entry })
        .collect();
    for (depth, xray) in [(9, false), (9, true), (1, false), (1, true)] {
        let args = args(depth, xray);
        let all = make_forest(&colors(), &args, &path("/r"), files.clone());
        let shares = files.iter().cloned().map(|file| vec![file]).rev().collect();
        let forest = par_forest(&colors(), &args, &path("/r"), shares).unwrap();
        assert_eq!(show(&forest), show(&all));
    }
}

#[test]
fn shares_are_put_together_again() {
    let shares: Vec<Vec<Entry>> = sample().into_iter().map(|entry| vec![entry]).collect();
    for depth in [0, 1, 9] {
        for xray in [false, true] {
            let args = args(depth, xray);
            let all = make_forest(&colors(), &args, &path("/r"), sample());
            let forest = par_forest(&colors(), &args, &path("/r"), shares.clone()).unwrap();
            assert_eq!(show(&forest), show(&all));
            let turned = shares.iter().cloned().rev().collect();
            let forest = par_forest(&colors(), &args, &path("/r"), turned).unwrap();
            assert_eq!(show(&forest), show(&all));
            let halves = vec![sample().split_off(3), sample()[..3].to_vec()];
            let forest = par_forest(&colors(), &args, &path("/r"), halves).unwrap();
            assert_eq!(show(&forest), show(&all));
        }
    }
    assert!(par_forest(&colors(), &args(9, false), &path("/r"), Vec::new()).unwrap().is_empty());
    assert_eq!(num_threads(Some(49_999), 8), 0);
    assert_eq!(num_threads(Some(150_000), 8), 3);
    assert_eq!(num_threads(Some(900_000), 8), 8);
    assert_eq!(num_threads(None, 8), 8);
    let pairs = pair_up(vec![Vec::new(), Vec::new(), Vec::new()]);
    assert_eq!(pairs.len(), 2);
    assert!(matches!(pairs[0], MaybePair::Two(_, _)));
    assert!(matches!(pairs[1], MaybePair::One(_)));
}

#[test]
fn a_forest_is_parted_near_the_middle() {
    let forest = cumsum_size(vec![leaf("/a", 6), leaf("/b", 3), leaf("/c", 2), leaf("/d", 1)]);
    assert_eq!(key_range(&forest), Some(0..12));
    match partition(&forest) {
        MaybePair::Two(left, right) => {
            assert_eq!((left.len(), right.len()), (1, 3));
            assert_eq!(key_range(left), Some(0..6));
            assert_eq!(key_range(right), Some(6..12));
        }
        MaybePair::One(_) => panic!("not parted"),
    }
    assert!(matches!(partition(&forest[..1]), MaybePair::One(_)));
    assert_eq!(key_range(&forest[..0]), None);
}

#[test]
fn many_files_of_a_kind_become_a_group() {
    let grouped = regroup(vec![leaf("/r/a.rs", 1), leaf("/r/b.rs", 2), leaf("/r/c.txt", 4)]);
    let forest = cumsum_size(grouped);
    assert_eq!(
        show(&forest),
        [
            "0 /r/c.txt 4 1/1",
            "4 *.rs 3 2/2 group",
            " 0 /r/a.rs 1 1/1",
            " 1 /r/b.rs 2 1/1",
        ]
    );
    assert!(regroup(Vec::new()).is_empty());
}

#[test]
fn copies_are_equal() {
    let forest = make_forest(&colors(), &args(2, false), &path("/r"), sample());
    assert_eq!(show(&copy_forest(&forest)), show(&forest));
    let info = EntryInfo::of(&forest[1].1);
    assert_eq!((info.size, info.nfiles, info.leaves), (100, 5, 4));
    assert_eq!(info.clone().path, path("/r/src"));
}

#[test]
fn an_entry_is_taken_out_where_those_above_it_count_enough() {
    let mut odd = leaf("/r/odd", 1);
    odd.subtree = vec![(0, leaf("/r/odd/x", 2))];
    let mut dir = leaf("/r/dir", 7);
    dir.subtree = vec![(0, leaf("/r/dir/y", 7))];
    let mut forest: Forest = vec![(0, dir), (7, odd)];
    assert!(!is_covered(&forest));
    match prune_entry(&mut forest, &[0, 0]) {
        Either::Left(entry) => assert_eq!(entry.size, 7),
        Either::Right(_) => panic!("nothing was found"),
    }
    assert_eq!((forest[0].1.size, forest[0].1.nfiles, forest[0].1.leaves), (0, 0, 0));
    match prune_entry(&mut forest, &[3]) {
        Either::Left(_) => panic!("something was found"),
        Either::Right(whole) => assert_eq!(whole.len(), 2),
    }
    assert!(forest.is_empty());
}

#[test]
fn merging_emptied_directories_keeps_their_ids_from_falling() {
    let empty = |name: &str| Entry { size: 0, nfiles: 0, ..leaf(name, 0) };
    let left: Forest = vec![(0, leaf("/r/a", 4)), (4, empty("/r/b"))];
    let right: Forest = vec![(0, empty("/r/c"))];
    assert!(merge_fits(&left, &right));
    let merged = merge_forests(left, right);
    assert_eq!(merged.iter().map(|entry| entry.0).collect::<Vec<_>>(), [0, 4, 4]);
    assert!(is_ordered(&merged) && prunable(&merged));
    assert_eq!(find_id(&merged, 4), Some(1));
}
