//! What holds of the way through a forest: of views, keys and modes.
use vstd::prelude::*;
use crate::actions::{
    aim_of, aimed_state, as_ids, deflated_leaves, deflation, deflation_plan, found_again, in_step, switch_begun,
    switch_count, switch_leaves, switch_root, switched_state, to_restore, without_aim, AimView,
};
use crate::app::{
    frame_begun, input_outcome, input_settled, input_taken, key_outcome, key_pressed, last_met, left_view, shown,
    synced, view_info_of, view_of, AppView, Input, Key, Outcome, TreeCommand,
};
use crate::area::Position;
use crate::cli::ArgsView;
use crate::colors::ColorScheme;
use crate::conservation::forest_conserves;
use crate::detail::{grown_at, is_forest, is_grown};
use crate::entry::{bare, info_of, lemma_sum_add, sum_leaves, sum_nfiles, sum_size, Node};
use crate::graft::laid_out;
use crate::growth::{lemma_under_child, under};
use crate::ids::{has_id, index_of_id, ordered};
use crate::leaves::{leaves_all, leaves_conserve};
use crate::lineage::leaf_tag;
use crate::merge::{merge_conserves, merged};
use crate::path::PathView;
use crate::state::{showing_opens_the_way, AppAction, AppMode, FocusView, StateView};
use crate::surgery::{
    address_is_unique, address_of, adds_up, counted, found_address_leads, found_is_selected, is_wanted, leads, nats,
    prune_subtracts, prune_takes_the_selected, pruned, resolve, search_is_complete,
};

verus! {

broadcast use crate::ids::lemma_index_of_id;

/// A view never is an entry that has nothing below it.
pub proof fn views_have_content(f: Seq<(nat, Node)>, skip: Seq<usize>)
    ensures
        resolve(f, nats(shown(f, skip))) matches Some(n) ==> n.subtree.len() > 0,
        shown(f, shown(f, skip)) == shown(f, skip),
        shown(f, skip).is_prefix_of(skip),
    decreases skip.len(),
{
    if skip.len() > 0 {
        let d = skip.drop_last();
        views_have_content(f, d);
        if shown(f, skip) == shown(f, d) {
            let s = shown(f, d);
            assert(s =~= d.subrange(0, s.len() as int));
            assert(s =~= skip.subrange(0, s.len() as int));
        }
    }
}

/// Leaving a view shows the entry above, and the entry that was the view is
/// selected in it, whatever was selected in the view.
pub proof fn leaving_selects_the_view(a: AppView, s: StateView)
    requires
        s.skip_view.len() > 0,
        shown(a.entries.tree, s.skip_view.drop_last()) == s.skip_view.drop_last(),
    ensures
        left_view(a, s).1.skip_view == s.skip_view.drop_last(),
        left_view(a, s).0.selection == seq![s.skip_view.last()],
        left_view(a, s).1.tree_state.selected == seq![s.skip_view.last()],
        left_view(a, s).1.qual_select() == s.skip_view,
{
    let t = left_view(a, s).1;
    assert(t.qual_select() =~= s.skip_view) by {
        assert(s.skip_view =~= s.skip_view.drop_last().push(s.skip_view.last()));
    }
}

/// Going into a directory of the view and back again, with a frame in between,
/// shows the old view, in which the directory is selected.
pub proof fn back_undoes_enter(a: AppView, s: StateView, id: usize)
    requires
        s.tree_state.selected == seq![id],
        s.click_addr.len() == 0,
        shown(a.entries.tree, s.skip_view) == s.skip_view,
        resolve(a.entries.tree, nats(s.skip_view.push(id))) matches Some(n) && n.subtree.len() > 0,
    ensures
        ({
            let (b, t) = key_pressed(a, s, Key::Enter);
            let (c, u) = frame_begun(b, t);
            let (d, v) = key_pressed(c, u, Key::Backspace);
            &&& t.skip_view == s.skip_view.push(id)
            &&& v.skip_view == s.skip_view
            &&& v.tree_state.selected == s.tree_state.selected
            &&& d.entries == a.entries
        }),
{
    let (b, t) = key_pressed(a, s, Key::Enter);
    assert(s.qual_select() =~= s.skip_view.push(id));
    assert(t.skip_view == s.skip_view.push(id));
    let (c, u) = frame_begun(b, t);
    assert(c.selection =~= Seq::empty());
    assert(u.skip_view.drop_last() =~= s.skip_view);
    leaving_selects_the_view(c, u);
    let (d, v) = key_pressed(c, u, Key::Backspace);
    assert(seq![u.skip_view.last()] =~= seq![id]);
}

/// Nobody leaves the forest that the application began with.
pub proof fn no_way_out(a: AppView, s: StateView)
    requires
        s.skip_view.len() == 0,
    ensures
        key_pressed(a, s, Key::Backspace).1.skip_view == s.skip_view,
        key_pressed(a, s, Key::Backspace).0.entries == a.entries,
{
}

/// No input makes the depth less than one.
pub proof fn depth_stays_positive(a: AppView, s: StateView, input: Input)
    requires
        a.args.max_depth >= 1,
    ensures
        input_taken(a, s, input).0.args.max_depth >= 1,
{
}

/// A key changes neither the forest nor the leaves outside of it: that is for
/// the actions.
pub proof fn keys_keep_the_forest(a: AppView, s: StateView, input: Input)
    ensures
        input_taken(a, s, input).0.entries.tree == a.entries.tree,
        input_taken(a, s, input).0.reserve == a.reserve,
{
}

/// Once the mode was switched as the key for it asked, the key asks for the mode
/// that was before.
pub proof fn mode_key_alternates(a: AppView, s: StateView)
    ensures
        ({
            let t = key_pressed(a, s, Key::Char('x')).1;
            let mode = t.action->SwitchMode_0;
            &&& t.action is SwitchMode
            &&& mode != s.mode
            &&& key_pressed(a, StateView { mode, ..t }, Key::Char('x')).1.action
                == AppAction::SwitchMode(s.mode)
        }),
{
}

/// After an input was dealt with, the user looks at what is selected.
pub proof fn inputs_keep_step(a: AppView, s: StateView)
    ensures
        in_step(input_settled(a, s).0, input_settled(a, s).1),
{
}

pub proof fn lemma_last_met(f: Seq<(nat, Node)>, skip: Seq<usize>, before: Option<Node>)
    requires
        skip.len() > 0,
        resolve(f, nats(skip)) is Some,
    ensures
        last_met(f, skip, before) == resolve(f, nats(skip)),
        (resolve(f, nats(skip))->0).subtree.len() > 0 ==> view_of(f, skip) == (resolve(
            f,
            nats(skip),
        )->0).subtree,
        counted(f) ==> counted((resolve(f, nats(skip))->0).subtree) && adds_up(
            resolve(f, nats(skip))->0,
        ),
    decreases skip.len(),
{
    let addr = nats(skip);
    let rest = skip.skip(1);
    assert(addr.skip(1) =~= nats(rest));
    let i = index_of_id(f, addr[0]);
    let n = f[i].1;
    if skip.len() > 1 {
        lemma_last_met(n.subtree, rest, Some(n));
        assert(has_id(n.subtree, nats(rest)[0]));
        assert(n.subtree.len() > 0);
    } else {
        assert(rest =~= Seq::empty());
        assert(last_met(n.subtree, rest, Some(n)) == Some(n));
        assert(view_of(n.subtree, rest) == n.subtree);
    }
}

/// The summary of a view is the summary of the entry that it shows, and its
/// counts are those of the entries that it shows together.
pub proof fn summary_fits_the_view(f: Seq<(nat, Node)>, root: PathView, skip: Seq<usize>)
    requires
        counted(f),
        skip.len() > 0 ==> (resolve(f, nats(skip)) matches Some(n) && n.subtree.len() > 0),
    ensures
        ({
            let info = view_info_of(f, root, skip);
            let view = bare(view_of(f, skip));
            &&& info.size == sum_size(view)
            &&& info.nfiles == sum_nfiles(view)
            &&& info.leaves == sum_leaves(view)
            &&& skip.len() > 0 ==> info == info_of(resolve(f, nats(skip))->0)
            &&& skip.len() == 0 ==> info.path == root
        }),
{
    if skip.len() > 0 {
        lemma_last_met(f, skip, None);
    }
}

pub proof fn lemma_gone_counted(f: Seq<(nat, Node)>, addr: Seq<usize>)
    requires
        counted(f),
        pruned(f, addr) is Some,
    ensures
        counted((pruned(f, addr)->0).1.subtree),
        adds_up((pruned(f, addr)->0).1),
    decreases addr.len(),
{
    let i = index_of_id(f, addr[0] as nat);
    assert(counted(f[i].1.subtree) && adds_up(f[i].1));
    if pruned(f[i].1.subtree, addr.skip(1)) is Some {
        lemma_gone_counted(f[i].1.subtree, addr.skip(1));
    }
}

/// Switching to x-ray mode loses nothing: the leaves of the view and those that
/// are kept for the way back make up the whole forest.
pub proof fn xray_keeps_everything(a: AppView, s: StateView)
    requires
        counted(a.entries.tree),
        pruned(a.entries.tree, s.skip_view) matches Some((rest, gone)) ==> gone.subtree.len() > 0,
    ensures
        ({
            let leaves = switch_leaves(a, s, AppMode::Xray);
            let kept = switch_begun(a, s, AppMode::Xray).reserve;
            &&& sum_size(leaves) + sum_size(kept) == sum_size(bare(a.entries.tree))
            &&& sum_nfiles(leaves) + sum_nfiles(kept) == sum_nfiles(bare(a.entries.tree))
        }),
{
    let f = a.entries.tree;
    match pruned(f, s.skip_view) {
        Some((rest, gone)) => {
            prune_subtracts(f, s.skip_view);
            lemma_gone_counted(f, s.skip_view);
            leaves_conserve(rest);
            leaves_conserve(gone.subtree);
        },
        None => {
            leaves_conserve(f);
            let none = Seq::<(nat, Node)>::empty();
            assert(counted(none));
            leaves_conserve(none);
            assert(bare(none) =~= Seq::empty());
        },
    }
}

/// Switching back from x-ray mode loses nothing: the leaves of the x-rayed view
/// come after those that were kept.
pub proof fn normal_keeps_everything(a: AppView, s: StateView)
    requires
        counted(a.entries.tree),
    ensures
        ({
            let leaves = switch_leaves(a, s, AppMode::Normal);
            &&& sum_size(leaves) == sum_size(a.reserve) + sum_size(bare(a.entries.tree))
            &&& sum_nfiles(leaves) == sum_nfiles(a.reserve) + sum_nfiles(bare(a.entries.tree))
            &&& switch_begun(a, s, AppMode::Normal).reserve.len() == 0
        }),
{
    leaves_conserve(a.entries.tree);
    lemma_sum_add(a.reserve, leaves_all(bare(a.entries.tree)));
}

/// Deflating a directory keeps the size of the forest and its number of files.
pub proof fn deflating_conserves(a: AppView, s: StateView, root: PathView, aim: AimView)
    requires
        ordered(a.entries.tree),
        counted(a.entries.tree),
        in_step(a, s),
        aim_of(a.entries, s) == Some(aim),
        deflation_plan(a, s, root, aim).is_scan(deflated_leaves(a, aim)),
    ensures
        ({
            let after = merged(without_aim(a, aim), deflation(a, s, root, aim));
            &&& sum_size(bare(after)) == sum_size(bare(a.entries.tree))
            &&& sum_nfiles(bare(after)) == sum_nfiles(bare(a.entries.tree))
        }),
{
    let f = a.entries.tree;
    let plan = deflation_plan(a, s, root, aim);
    prune_takes_the_selected(f, aim.selection);
    let (rest, gone) = pruned(f, aim.selection)->0;
    prune_subtracts(f, aim.selection);
    assert(aim.selection.len() > 0);
    lemma_last_met(f, aim.selection, None);
    leaves_conserve(gone.subtree);
    forest_conserves(plan, deflated_leaves(a, aim));
    merge_conserves(rest, deflation(a, s, root, aim));
}

/// Whether ids are within the machine's limits.
pub open spec fn are_ids(addr: Seq<nat>) -> bool {
    forall|i: int| 0 <= i < addr.len() ==> #[trigger] addr[i] <= usize::MAX
}

/// Whether all ids of a forest are within the machine's limits.
pub open spec fn has_ids(f: Seq<(nat, Node)>) -> bool {
    forall|addr: Seq<nat>, n: Node| #[trigger] leads(f, addr, n) ==> are_ids(addr)
}

/// Whether an entry of a forest has a path.
pub open spec fn stands_in(f: Seq<(nat, Node)>, path: PathView) -> bool {
    exists|addr: Seq<nat>, n: Node| #[trigger] leads(f, addr, n) && n.path == path
}

/// The application and the state that the first frame after a switch is drawn of,
/// with the forest that the switch made.
pub open spec fn after_switch(
    a: AppView,
    s: StateView,
    mode: AppMode,
    init_root: PathView,
    f: Seq<(nat, Node)>,
) -> (AppView, StateView) {
    let b = AppView {
        entries: FocusView { tree: f, focus: Seq::empty() },
        selection: Seq::empty(),
        ..switch_begun(a, s, mode)
    };
    let t = StateView { root: switch_root(a, s, mode, init_root), ..s };
    frame_begun(b, synced(f, Seq::empty(), switched_state(t, to_restore(a, s, mode, init_root), f)))
}

/// Whether the entry that is selected, and that the user looks at, has a path.
pub open spec fn is_selected(a: AppView, s: StateView, path: PathView) -> bool {
    &&& a.entries.at() matches Some(n) && n.path == path
    &&& a.entries.focus == s.qual_select()
}

/// The path that the selection keeps in a switch: its own, or for a group that of
/// the directory that the group is in.
pub open spec fn keeps_path(n: Node, path: PathView) -> bool {
    if n.is_group {
        n.path.parent() == Some(path)
    } else {
        n.path == path
    }
}

proof fn lemma_ids_back(addr: Seq<nat>)
    requires
        are_ids(addr),
    ensures
        nats(as_ids(addr)) == addr,
{
    assert(nats(as_ids(addr)) =~= addr);
}

/// What is selected stays selected in a switch, if the new forest has an entry
/// with its path and a tag that fits, and the view that was shown is not an entry
/// of that forest but all of it, or gone.
pub proof fn switching_keeps_the_selection(
    a: AppView,
    s: StateView,
    mode: AppMode,
    init_root: PathView,
    f: Seq<(nat, Node)>,
    path: PathView,
    addr: Seq<nat>,
    x: Node,
)
    requires
        a.entries.at() matches Some(n) && keeps_path(n, path),
        ordered(f),
        has_ids(f),
        leads(f, addr, x),
        x.path == path,
        s.tag is Some && x.tag is Some ==> s.tag == x.tag,
        s.skip_view.len() > 0 || init_root != s.root ==> !stands_in(
            f,
            view_info_of(a.entries.tree, s.root, s.skip_view).path,
        ),
    ensures
        ({
            let (b, t) = after_switch(a, s, mode, init_root, f);
            &&& is_selected(b, t, path)
            &&& t.skip_view.len() == 0
            &&& t.mode == mode
            &&& t.tag == s.tag
            &&& t.click_pos is None
            &&& t.click_addr.len() == 0
            &&& t.title is None
            &&& t.view_info is None
            &&& t.root == switch_root(a, s, mode, init_root)
            &&& b.entries.tree == f
            &&& b.args == (ArgsView { xray: mode == AppMode::Xray, ..a.args })
        }),
{
    let w = to_restore(a, s, mode, init_root);
    search_is_complete(f, path, s.tag, addr, x);
    found_is_selected(f, path, s.tag);
    found_address_leads(f, path, s.tag);
    let found = address_of(f, path, s.tag)->0;
    lemma_ids_back(found);
    if let Some(p) = w.restore_view {
        if address_of(f, p, s.tag) is Some {
            found_address_leads(f, p, s.tag);
        }
    }
    let t = StateView { root: switch_root(a, s, mode, init_root), ..s };
    let u = switched_state(t, w, f);
    assert(u.skip_view =~= Seq::empty());
    assert(u.click_addr =~= as_ids(found));
    let (b, v) = after_switch(a, s, mode, init_root, f);
    assert(v.skip_view + u.click_addr =~= as_ids(found));
    assert(b.entries.focus =~= as_ids(found));
    assert(v.qual_select() =~= as_ids(found));
}

/// The way to an entry of a directory begins with the entry at the top that lies
/// on it.
#[verifier::spinoff_prover]
proof fn lemma_way_begins(
    colors: ColorScheme,
    f: Seq<(nat, Node)>,
    path: PathView,
    tag: Option<Seq<u8>>,
    addr: Seq<nat>,
    n: Node,
) -> (i: int)
    requires
        is_grown(colors, f, path, tag),
        leads(f, addr, n),
    ensures
        0 <= i < f.len(),
        f[i].0 == addr[0],
        under(n.path, f[i].1.path),
        n.path.comps.len() == path.comps.len() + addr.len(),
        addr.len() == 1 ==> f[i].1 == n,
        addr.len() > 1 ==> leads(f[i].1.subtree, addr.skip(1), n),
        tag is None ==> n.tag is None,
    decreases addr.len(),
{
    let i = choose|i: int|
        0 <= i < f.len() && (#[trigger] f[i]).0 == addr[0] && if addr.len() == 1 {
            f[i].1 == n
        } else {
            leads(f[i].1.subtree, addr.skip(1), n)
        };
    assert(grown_at(colors, f[i].1, path, tag));
    if addr.len() > 1 {
        assert(is_grown(colors, f[i].1.subtree, f[i].1.path, tag));
        let k = lemma_way_begins(colors, f[i].1.subtree, f[i].1.path, tag, addr.skip(1), n);
        assert(grown_at(colors, f[i].1.subtree[k].1, f[i].1.path, tag));
        lemma_under_child(n.path, f[i].1.subtree[k].1.path, f[i].1.path);
    }
    i
}

/// The way to an entry leads through the directories that it lies in.
#[verifier::rlimit(40)]
#[verifier::spinoff_prover]
proof fn lemma_way_through(
    colors: ColorScheme,
    f: Seq<(nat, Node)>,
    path: PathView,
    tag: Option<Seq<u8>>,
    above: Seq<nat>,
    v: Node,
    addr: Seq<nat>,
    x: Node,
)
    requires
        is_grown(colors, f, path, tag),
        laid_out(f),
        leads(f, above, v),
        leads(f, addr, x),
        under(x.path, v.path),
        x.path != v.path,
    ensures
        above.len() < addr.len(),
        above == addr.take(above.len() as int),
        v.subtree.len() > 0,
    decreases above.len(),
{
    let i = lemma_way_begins(colors, f, path, tag, above, v);
    let k = lemma_way_begins(colors, f, path, tag, addr, x);
    assert(x.path.comps.len() > v.path.comps.len()) by {
        if x.path.comps.len() == v.path.comps.len() {
            assert(x.path.comps =~= v.path.comps);
        }
    }
    assert(f[i].1.path == f[k].1.path) by {
        let p = f[i].1.path.comps;
        let q = f[k].1.path.comps;
        assert(grown_at(colors, f[i].1, path, tag));
        assert(grown_at(colors, f[k].1, path, tag));
        assert forall|c: int| 0 <= c < p.len() implies p[c] == q[c] by {
            assert(p[c] == v.path.comps[c]);
            assert(v.path.comps[c] == x.path.comps[c]);
            assert(q[c] == x.path.comps[c]);
        }
        assert(p =~= q);
    }
    assert(i == k) by {
        assert(bare(f)[i] == f[i].1 && bare(f)[k] == f[k].1);
    }
    assert(addr.len() > 1);
    let t = f[i].1.subtree;
    let begun = lemma_way_begins(colors, t, f[i].1.path, tag, addr.skip(1), x);
    if above.len() == 1 {
        assert(above =~= addr.take(1));
    } else {
        lemma_way_through(colors, t, f[i].1.path, tag, above.skip(1), v, addr.skip(1), x);
        assert(above =~= addr.take(above.len() as int)) by {
            assert forall|c: int| 0 <= c < above.len() implies above[c] == addr[c] by {
                if c > 0 {
                    assert(above.skip(1)[c - 1] == addr.skip(1).take(above.len() - 1)[c - 1]);
                }
            }
        }
    }
}

/// What is selected stays selected in a switch back from x-ray mode, if the new
/// forest has an entry with its path: within the view, which is found again where
/// the forest has an entry for it.
pub proof fn switching_back_keeps_the_selection(
    a: AppView,
    s: StateView,
    init_root: PathView,
    f: Seq<(nat, Node)>,
    path: PathView,
    addr: Seq<nat>,
    x: Node,
)
    requires
        a.entries.at() matches Some(n) && keeps_path(n, path),
        is_forest(a.colors, f, a.args.path, None),
        has_ids(f),
        leads(f, addr, x),
        x.path == path,
        under(path, view_info_of(a.entries.tree, s.root, s.skip_view).path),
        path != view_info_of(a.entries.tree, s.root, s.skip_view).path,
    ensures
        ({
            let view = view_info_of(a.entries.tree, s.root, s.skip_view).path;
            let (b, t) = after_switch(a, s, AppMode::Normal, init_root, f);
            &&& is_selected(b, t, path)
            &&& t.skip_view.len() > 0 ==> (resolve(f, nats(t.skip_view)) matches Some(v) && v.path == view)
            &&& (s.skip_view.len() > 0 || init_root != s.root) && stands_in(f, view) ==> t.skip_view.len() > 0
        }),
{
    let mode = AppMode::Normal;
    let w = to_restore(a, s, mode, init_root);
    let begun = lemma_way_begins(a.colors, f, a.args.path, None, addr, x);
    search_is_complete(f, path, s.tag, addr, x);
    found_is_selected(f, path, s.tag);
    found_address_leads(f, path, s.tag);
    let found = address_of(f, path, s.tag)->0;
    lemma_ids_back(found);
    let m = choose|m: Node| leads(f, found, m) && #[trigger] is_wanted(m, path, s.tag);
    let t = StateView { root: switch_root(a, s, mode, init_root), ..s };
    let u = switched_state(t, w, f);
    let (b, z) = after_switch(a, s, mode, init_root, f);
    if found_again(f, w.restore_view, s.tag) is Some {
        let p = w.restore_view->0;
        let above = address_of(f, p, s.tag)->0;
        found_address_leads(f, p, s.tag);
        let v = choose|v: Node| leads(f, above, v) && #[trigger] is_wanted(v, p, s.tag);
        address_is_unique(f, above, v);
        lemma_ids_back(above);
        lemma_way_through(a.colors, f, a.args.path, None, above, v, found, m);
        assert(u.skip_view =~= as_ids(above));
        assert(shown(f, u.skip_view) == u.skip_view);
        assert(u.skip_view + u.click_addr =~= as_ids(found)) by {
            assert(as_ids(found).take(above.len() as int) =~= as_ids(above));
        }
    } else {
        assert(u.skip_view =~= Seq::empty());
        assert(u.skip_view + u.click_addr =~= as_ids(found));
        let view = view_info_of(a.entries.tree, s.root, s.skip_view).path;
        if (s.skip_view.len() > 0 || init_root != s.root) && stands_in(f, view) {
            let (way, v) = choose|way: Seq<nat>, v: Node| #[trigger] leads(f, way, v) && v.path == view;
            let top = lemma_way_begins(a.colors, f, a.args.path, None, way, v);
            search_is_complete(f, view, s.tag, way, v);
        }
    }
    assert(u.click_addr.len() > 0);
    assert(b.entries.focus =~= as_ids(found));
    assert(z.qual_select() =~= as_ids(found));
}

/// In x-ray mode the root is the directory that was the view, and the forest is
/// made of the files in it. Back in the other mode the root is that of the
/// arguments, and the files that were kept come back.
pub proof fn xray_looks_into_the_view(a: AppView, s: StateView, init_root: PathView)
    requires
        s.skip_view.len() > 0,
        resolve(a.entries.tree, nats(s.skip_view)) matches Some(v) && v.subtree.len() > 0,
    ensures
        ({
            let v = resolve(a.entries.tree, nats(s.skip_view))->0;
            &&& switch_root(a, s, AppMode::Xray, init_root) == v.path
            &&& switch_leaves(a, s, AppMode::Xray) == leaves_all(bare(v.subtree))
            &&& switch_leaves(a, s, AppMode::Xray) == leaves_all(bare(view_of(a.entries.tree, s.skip_view)))
            &&& switch_begun(a, s, AppMode::Xray).args.xray
            &&& switch_root(a, s, AppMode::Normal, init_root) == a.args.path
            &&& !switch_begun(a, s, AppMode::Normal).args.xray
        }),
{
    lemma_last_met(a.entries.tree, s.skip_view, None);
    prune_takes_the_selected(a.entries.tree, s.skip_view);
}

/// Without a view all of the forest is x-rayed, and nothing is kept aside.
pub proof fn xray_looks_into_everything(a: AppView, s: StateView, init_root: PathView)
    requires
        s.skip_view.len() == 0,
    ensures
        switch_leaves(a, s, AppMode::Xray) == leaves_all(bare(a.entries.tree)),
        switch_begun(a, s, AppMode::Xray).reserve.len() == 0,
        init_root == s.root ==> switch_root(a, s, AppMode::Xray, init_root) == a.args.path,
        init_root != s.root ==> switch_root(a, s, AppMode::Xray, init_root) == s.root,
{
    assert(bare(Seq::<(nat, Node)>::empty()) =~= Seq::empty());
}

/// The keys for the depth undo each other, and change nothing else. Two of each
/// kind do the same.
pub proof fn depth_keys_undo_each_other(a: AppView, s: StateView)
    requires
        a.args.max_depth >= 1,
    ensures
        ({
            let (b, t) = key_pressed(a, s, Key::Char('+'));
            let (c, u) = key_pressed(b, t, Key::Char('-'));
            &&& b.args.max_depth > a.args.max_depth
            &&& c == a
            &&& t == s
            &&& u == s
            &&& key_pressed(a, s, Key::Char('=')) == (b, t)
            &&& key_pressed(b, t, Key::Char('_')) == (c, u)
            &&& (AppView { args: a.args, ..b }) == a
            &&& (ArgsView { max_depth: a.args.max_depth, ..b.args }) == a.args
        }),
        ({
            let (b, t) = key_pressed(a, s, Key::Char('-'));
            &&& t == s
            &&& (AppView { args: a.args, ..b }) == a
            &&& (ArgsView { max_depth: a.args.max_depth, ..b.args }) == a.args
            &&& a.args.max_depth > 1 ==> key_pressed(b, t, Key::Char('+')) == (a, s)
            &&& a.args.max_depth == 1 ==> b == a
        }),
{
}

/// Whether a character is one that asks for an action.
pub open spec fn asks_for(c: char) -> Option<AppAction> {
    if c == 'e' {
        Some(AppAction::Expand)
    } else if c == 'E' {
        Some(AppAction::ForceRescan)
    } else if c == 'd' {
        Some(AppAction::Deflate)
    } else {
        None
    }
}

/// A key that asks for an action does nothing but that: all else stays as it is
/// until the action is taken.
pub proof fn action_keys_only_ask(a: AppView, s: StateView, c: char)
    requires
        asks_for(c) is Some || c == 'x',
    ensures
        ({
            let (b, t) = key_pressed(a, s, Key::Char(c));
            &&& b == a
            &&& (StateView { action: s.action, ..t }) == s
            &&& asks_for(c) is Some ==> t.action == asks_for(c)->0
            &&& key_outcome(s, Key::Char(c)) == Outcome::Done(true)
        }),
{
}

/// One key ends the application, and no other does.
pub proof fn one_key_ends(a: AppView, s: StateView, input: Input)
    requires
        !a.exit,
    ensures
        input_taken(a, s, input).0.exit <==> input == Input::Key(Key::Char('q')),
        input == Input::Key(Key::Char('q')) ==> input_taken(a, s, input).1 == s && (AppView {
            exit: false,
            ..input_taken(a, s, input).0
        }) == a,
{
}

/// Details are shown and hidden in turn.
pub proof fn details_alternate(a: AppView, s: StateView)
    ensures
        ({
            let (b, t) = key_pressed(a, s, Key::Char('i'));
            let (c, u) = key_pressed(b, t, Key::Char('i'));
            &&& t.diagnostic != s.diagnostic
            &&& u.diagnostic == s.diagnostic
            &&& (StateView { diagnostic: s.diagnostic, view_info: s.view_info, ..t }) == s
            &&& (AppView { entries: a.entries, ..b }) == a
            &&& b.entries.tree == a.entries.tree
            &&& in_step(b, t)
            &&& c == b
        }),
{
}

/// Nothing is selected after the keys for it, but the view stays. The forest and
/// what was opened stay too.
pub proof fn selections_are_dropped(a: AppView, s: StateView, key: Key)
    requires
        key == Key::Esc || key == Key::Char('`'),
    ensures
        ({
            let (b, t) = key_pressed(a, s, key);
            &&& b == a
            &&& t.tree_state.selected.len() == 0
            &&& t.qual_select() == s.skip_view
            &&& t.tree_state.opened == s.tree_state.opened
            &&& (StateView { tree_state: s.tree_state, ..t }) == s
            &&& key_outcome(s, key) == Outcome::Done(s.tree_state.selected.len() > 0)
        }),
{
    assert(key_pressed(a, s, key).1.qual_select() =~= s.skip_view);
}

/// Where there is nothing to draw, nothing has changed.
pub proof fn changes_are_drawn(a: AppView, s: StateView, input: Input)
    ensures
        input_outcome(s, input) == Outcome::Done(false) ==> input_taken(a, s, input).0 == a && input_taken(
            a,
            s,
            input,
        ).1.skip_view == s.skip_view && input_taken(a, s, input).1.qual_select() == s.qual_select() && input_taken(
            a,
            s,
            input,
        ).1.action == s.action,
{
    let t = input_taken(a, s, input).1;
    if input_outcome(s, input) == Outcome::Done(false) {
        assert(t.tree_state.selected =~= s.tree_state.selected);
    }
}

/// What the navigator has to do changes neither the application, but for what it
/// has noted of the selection, nor the state.
pub proof fn the_navigator_navigates(a: AppView, s: StateView, key: Key)
    requires
        key_outcome(s, key) is Navigate,
    ensures
        key_pressed(a, s, key).1 == s,
        (AppView { selection: a.selection, ..key_pressed(a, s, key).0 }) == a,
{
}

/// The keys for opposite directions ask the navigator for opposite ways, as far
/// one way as the other.
pub proof fn directions_are_opposite(s: StateView)
    ensures
        key_outcome(s, Key::Up) == Outcome::Navigate(TreeCommand::KeyUp),
        key_outcome(s, Key::Down) == Outcome::Navigate(TreeCommand::KeyDown),
        key_outcome(s, Key::Left) == Outcome::Navigate(TreeCommand::KeyLeft),
        key_outcome(s, Key::Right) == Outcome::Navigate(TreeCommand::KeyRight),
        key_outcome(s, Key::Home) == Outcome::Navigate(TreeCommand::SelectFirst),
        key_outcome(s, Key::End) == Outcome::Navigate(TreeCommand::SelectLast),
        exists|n: usize|
            n == 3 && #[trigger] scrolls(key_outcome(s, Key::PageDown), key_outcome(s, Key::PageUp), n),
        exists|n: usize|
            n == 1 && #[trigger] scrolls(
                input_outcome(s, Input::ScrollDown),
                input_outcome(s, Input::ScrollUp),
                n,
            ),
{
    assert(scrolls(key_outcome(s, Key::PageDown), key_outcome(s, Key::PageUp), 3));
    assert(scrolls(input_outcome(s, Input::ScrollDown), input_outcome(s, Input::ScrollUp), 1));
}

/// Whether outcomes scroll down and up by a number of lines.
pub open spec fn scrolls(down: Outcome, up: Outcome, n: usize) -> bool {
    down == Outcome::Navigate(TreeCommand::ScrollDown(n)) && up == Outcome::Navigate(TreeCommand::ScrollUp(n))
}

/// A directory or group that is selected becomes the view when it is entered:
/// what lies in it is shown, and nothing of it is selected.
pub proof fn entering_shows_what_is_inside(a: AppView, s: StateView)
    requires
        s.qual_select().len() > 0,
        resolve(a.entries.tree, nats(s.qual_select())) matches Some(n) && n.subtree.len() > 0,
    ensures
        ({
            let n = resolve(a.entries.tree, nats(s.qual_select()))->0;
            let (b, t) = key_pressed(a, s, Key::Enter);
            &&& t.skip_view == s.qual_select()
            &&& view_of(b.entries.tree, t.skip_view) == n.subtree
            &&& view_info_of(b.entries.tree, t.root, t.skip_view).path == n.path
            &&& t.tree_state.selected.len() == 0
            &&& b.selection.len() == 0
            &&& t.view_info is None
            &&& t.title is None
            &&& key_outcome(s, Key::Enter) == Outcome::Rebuild
        }),
{
    lemma_last_met(a.entries.tree, s.qual_select(), None);
}

/// A file has nothing to enter: the directory that it is in becomes the view.
pub proof fn files_are_not_entered(a: AppView, s: StateView)
    requires
        s.qual_select().len() > 1,
        resolve(a.entries.tree, nats(s.qual_select())) matches Some(n) && n.subtree.len() == 0,
        resolve(a.entries.tree, nats(s.qual_select().drop_last())) matches Some(d) && d.subtree.len() > 0,
    ensures
        key_pressed(a, s, Key::Enter).1.skip_view == s.qual_select().drop_last(),
{
    let q = s.qual_select();
    assert(shown(a.entries.tree, q) == shown(a.entries.tree, q.drop_last()));
}

/// What was clicked on is selected and looked at in the next frame, and the
/// entries above it are open. Then the click is over: another frame is the same.
pub proof fn clicks_select(a: AppView, s: StateView)
    requires
        s.click_addr.len() > 0,
    ensures
        ({
            let (b, t) = frame_begun(a, s);
            &&& t.tree_state.selected == s.click_addr
            &&& b.selection == s.click_addr
            &&& in_step(b, t)
            &&& t.skip_view == s.skip_view
            &&& t.qual_select() == s.skip_view + s.click_addr
            &&& b.entries.tree == a.entries.tree
            &&& forall|n: int|
                0 < n < s.click_addr.len() ==> t.tree_state.opened.contains(#[trigger] s.click_addr.take(n))
            &&& frame_begun(b, t) == (b, t)
        }),
{
    showing_opens_the_way(s.tree_state, s.click_addr);
}

/// Where nothing was clicked on, a frame only notes what is selected.
pub proof fn frames_note_the_selection(a: AppView, s: StateView)
    requires
        s.click_addr.len() == 0,
    ensures
        frame_begun(a, s).1 == s,
        frame_begun(a, s).0.selection == s.tree_state.selected,
        (AppView { selection: a.selection, ..frame_begun(a, s).0 }) == a,
{
}

/// A press is noted, and takes the place of one before. Letting go changes
/// nothing.
pub proof fn presses_are_noted(a: AppView, s: StateView, at: Position)
    ensures
        ({
            let (b, t) = input_taken(a, s, Input::Press(at));
            &&& b == a
            &&& t.click_pos == Some(at)
            &&& t.click_addr.len() == 0
            &&& (StateView { click_pos: s.click_pos, click_addr: s.click_addr, ..t }) == s
            &&& input_outcome(s, Input::Press(at)) == Outcome::Click(TreeCommand::ClickAt(at))
        }),
        input_taken(a, s, Input::Release) == (a, s),
        input_taken(a, s, Input::Resize) == (a, s),
        input_outcome(s, Input::Release) == Outcome::Done(true),
        input_outcome(s, Input::Resize) == Outcome::Done(true),
{
}

/// The file type of the selection is remembered: its tag, or for files and groups
/// of files that of their names. A directory without a tag leaves the type that
/// was remembered before.
pub proof fn types_are_remembered(a: AppView, s: StateView, n: Node)
    requires
        resolve(a.entries.tree, nats(s.qual_select())) == Some(n),
    ensures
        ({
            let t = input_settled(a, s).1;
            &&& n.tag is Some ==> t.tag == n.tag
            &&& n.tag is None && (n.subtree.len() == 0 || n.is_group) ==> t.tag == leaf_tag(true, n.path)
            &&& n.tag is None && n.subtree.len() > 0 && !n.is_group ==> t.tag == s.tag
            &&& (StateView { tag: s.tag, ..t }) == s
        }),
{
}

/// What is deflated or expanded is a directory of the forest that holds something:
/// the selected one, or that of the selected file. It is selected then.
pub proof fn aims_are_directories(a: AppView, s: StateView, n: Node)
    requires
        in_step(a, s),
        resolve(a.entries.tree, nats(s.qual_select())) == Some(n),
        s.tree_state.selected.len() > 0,
    ensures
        n.subtree.len() > 0 && !n.is_group ==> (aim_of(a.entries, s) matches Some(aim) && aim.selection
            == s.qual_select() && aim.path == n.path && aim.tag == n.tag && aimed_state(a.entries, s) == s),
        n.subtree.len() > 0 && n.is_group ==> aim_of(a.entries, s) is None,
        n.subtree.len() == 0 ==> match resolve(a.entries.tree, nats(s.qual_select().drop_last())) {
            Some(d) => {
                let t = aimed_state(a.entries, s);
                &&& !d.is_group ==> (aim_of(a.entries, s) matches Some(aim) && aim.path == d.path && aim.tag
                    == d.tag && aim.selection == s.qual_select().drop_last())
                &&& d.is_group ==> aim_of(a.entries, s) is None
                &&& t.qual_select() == s.qual_select().drop_last()
                &&& (StateView { tree_state: s.tree_state, ..t }) == s
                &&& t.tree_state.opened == s.tree_state.opened
            },
            None => aim_of(a.entries, s) is None && aimed_state(a.entries, s) == s,
        },
{
    let q = s.qual_select();
    let f = a.entries.tree;
    assert(q.drop_last() =~= s.skip_view + s.tree_state.selected.drop_last());
    if n.subtree.len() == 0 {
        if let Some(d) = resolve(f, nats(q.drop_last())) {
            lemma_something_below(f, q);
            let t = aimed_state(a.entries, s);
            assert(t.tree_state.selected =~= s.tree_state.selected.drop_last());
            assert(t.qual_select() =~= q.drop_last());
        }
    }
}

/// What an address leads through holds something.
proof fn lemma_something_below(f: Seq<(nat, Node)>, addr: Seq<usize>)
    requires
        addr.len() > 0,
        resolve(f, nats(addr)) is Some,
        resolve(f, nats(addr.drop_last())) is Some,
    ensures
        (resolve(f, nats(addr.drop_last()))->0).subtree.len() > 0,
    decreases addr.len(),
{
    let d = addr.drop_last();
    assert(nats(addr)[0] == addr[0] as nat);
    assert(nats(d)[0] == d[0] as nat);
    assert(nats(addr).skip(1) =~= nats(addr.skip(1)));
    assert(nats(d).skip(1) =~= nats(d.skip(1)));
    assert(addr.skip(1).drop_last() =~= d.skip(1));
    let i = index_of_id(f, addr[0] as nat);
    assert(has_id(f, addr[0] as nat));
    if d.len() > 1 {
        lemma_something_below(f[i].1.subtree, addr.skip(1));
    } else {
        assert(has_id(f[i].1.subtree, nats(addr.skip(1))[0]));
    }
}

proof fn lemma_ones(s: Seq<Node>)
    requires
        forall|i: int| 0 <= i < s.len() ==> (#[trigger] s[i]).leaves == 1,
    ensures
        sum_leaves(s) == s.len(),
    decreases s.len(),
{
    if s.len() > 0 {
        assert(s[s.len() - 1].leaves == 1);
        assert forall|i: int| 0 <= i < s.drop_last().len() implies (#[trigger] s.drop_last()[i]).leaves == 1 by {
            assert(s[i].leaves == 1);
        }
        lemma_ones(s.drop_last());
    }
}

/// As many leaves are expected of a switch as it builds the forest of: all of them
/// on the way back from x-ray mode, those of the view on the way there.
pub proof fn switches_expect_what_comes(a: AppView, s: StateView)
    requires
        counted(a.entries.tree),
        forall|i: int|
            0 <= i < leaves_all(bare(a.entries.tree)).len() ==> (#[trigger] leaves_all(
                bare(a.entries.tree),
            )[i]).leaves == 1,
        s.skip_view.len() == 0,
        s.view_info == Some(view_info_of(a.entries.tree, s.root, s.skip_view)),
    ensures
        switch_count(a, s, AppMode::Normal) == Some(switch_leaves(a, s, AppMode::Normal).len()),
        switch_count(a, s, AppMode::Xray) == Some(switch_leaves(a, s, AppMode::Xray).len()),
{
    leaves_conserve(a.entries.tree);
    lemma_ones(leaves_all(bare(a.entries.tree)));
}

/// An id that no entry of the level has is passed over.
pub proof fn unknown_ids_are_passed_over(f: Seq<(nat, Node)>, id: usize, skip: Seq<usize>, before: Option<Node>)
    requires
        !has_id(f, id as nat),
    ensures
        view_of(f, seq![id] + skip) == view_of(f, skip),
        last_met(f, seq![id] + skip, before) == last_met(f, skip, before),
{
    assert((seq![id] + skip).skip(1) =~= skip);
    assert((seq![id] + skip)[0] == id);
}

/// An id of an entry that holds something leads into it.
pub proof fn known_ids_lead_in(f: Seq<(nat, Node)>, i: int, id: usize, skip: Seq<usize>)
    requires
        ordered(f),
        0 <= i < f.len(),
        f[i].0 == id as nat,
        f[i].1.subtree.len() > 0,
    ensures
        view_of(f, seq![id] + skip) == view_of(f[i].1.subtree, skip),
        last_met(f, seq![id] + skip, None) == last_met(f[i].1.subtree, skip, Some(f[i].1)),
{
    assert((seq![id] + skip).skip(1) =~= skip);
    assert((seq![id] + skip)[0] == id);
    assert(has_id(f, id as nat));
    let k = index_of_id(f, id as nat);
    if k < i {
        assert(f[k].0 < f[i].0);
    } else if i < k {
        assert(f[i].0 < f[k].0);
    }
}

/// Whether a character has a meaning.
pub open spec fn means_something(c: char) -> bool {
    ||| c == 'q' || c == 'i' || c == 'x'
    ||| c == 'e' || c == 'E' || c == 'd'
    ||| c == '+' || c == '=' || c == '-' || c == '_'
    ||| c == '<' || c == '`' || c == '\\' || c == ' '
}

/// A character without a meaning does nothing, and neither does another key.
pub proof fn other_keys_do_nothing(a: AppView, s: StateView, c: char)
    requires
        !means_something(c),
    ensures
        key_pressed(a, s, Key::Char(c)) == (a, s),
        key_outcome(s, Key::Char(c)) == Outcome::Done(false),
        key_pressed(a, s, Key::Other) == (a, s),
        key_outcome(s, Key::Other) == Outcome::Done(false),
{
}

/// A backslash goes back, as the key for that does. A blank opens and closes what is
/// selected, and one key closes all, after which nothing is noted as selected.
pub proof fn some_characters_navigate(a: AppView, s: StateView)
    ensures
        key_pressed(a, s, Key::Char('\\')) == key_pressed(a, s, Key::Backspace),
        key_outcome(s, Key::Char('\\')) == Outcome::Rebuild,
        key_outcome(s, Key::Backspace) == Outcome::Rebuild,
        key_pressed(a, s, Key::Char(' ')) == (a, s),
        key_outcome(s, Key::Char(' ')) == Outcome::Navigate(TreeCommand::ToggleSelected),
        key_outcome(s, Key::Char('<')) == Outcome::Navigate(TreeCommand::CloseAll),
        key_pressed(a, s, Key::Char('<')).0.selection.len() == 0,
        key_pressed(a, s, Key::Char('<')).1 == s,
{
}

} // verus!
