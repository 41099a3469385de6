//! What deflating and expanding do to a directory, and how one undoes the other.
use vstd::prelude::*;
use crate::accounting::{lemma_sum_if_same, sum_if, w_nfiles, w_size, Plan};
use crate::actions::{
    aim_of, deflated, deflated_leaves, deflation, deflation_plan, depth_below, expanded, expansion_of, in_step,
    is_lifted, without_aim, AimView, ExpansionView,
};
use crate::app::AppView;
use crate::assembly::{lemma_sum_if_add, marks};
use crate::cli::ArgsView;
use crate::detail::{is_forest, is_painted, lemma_resolved_forest, way_end};
use crate::entry::{bare, sum_leaves, sum_nfiles, sum_size, Node};
use crate::forest::forest_of;
use crate::graft::{regrown, regrown_in_place, replaced, replacement_is_found, replacing_back_restores};
use crate::growth::under;
use crate::ids::{has_id, index_of_id};
use crate::leaves::leaves_all;
use crate::lineage::{beyond, has_path, leaf_tag, summary_name};
use crate::matching::{lemma_sorted_members, merging_nothing_changes_nothing};
use crate::merge::merged;
use crate::path::PathView;
use crate::roundtrip::lemma_sum_if_single;
use crate::sharing::{deepest, lemma_deepest, lemma_summary_names};
use crate::siblings::{offsets_keep_entries, sort_is_ordered, sort_nodes};
use crate::state::StateView;
use crate::surgery::{leads, nats, prune_takes_the_selected, pruned, resolve};
use crate::whole::{
    is_whole, lemma_through_group, lemma_whole_laid, lemma_whole_tag, lemma_whole_under, scans_make_forests,
};

verus! {

broadcast use crate::ids::lemma_index_of_id;

/// The directory that is deflated or expanded is in the forest.
proof fn lemma_aimed(a: AppView, s: StateView, aim: AimView)
    requires
        in_step(a, s),
        aim_of(a.entries, s) == Some(aim),
    ensures
        resolve(a.entries.tree, nats(aim.selection)) is Some,
        (resolve(a.entries.tree, nats(aim.selection))->0).path == aim.path,
        (resolve(a.entries.tree, nats(aim.selection))->0).tag == aim.tag,
        (resolve(a.entries.tree, nats(aim.selection))->0).subtree.len() > 0,
        !(resolve(a.entries.tree, nats(aim.selection))->0).is_group,
{
}

proof fn lemma_depth_below(root: PathView, path: PathView)
    requires
        under(path, root),
    ensures
        depth_below(root, path) == Some((path.comps.len() - root.comps.len()) as nat),
{
    assert(root.comps.is_prefix_of(path.comps));
}

impl Plan {
    /// Where leaves are counted that lie in a directory of the depth that is kept
    /// or less.
    proof fn lemma_spots_in(self, leaves: Seq<Node>, p: PathView, tag: Option<Seq<u8>>)
        requires
            self.is_scan(leaves),
            under(p, self.root),
            p.comps.len() <= self.root.comps.len() + self.depth,
            forall|j: int|
                0 <= j < leaves.len() ==> under((#[trigger] leaves[j]).path, p) && leaves[j].path != p
                    && self.label(leaves[j]) == tag,
        ensures
            self.all_below(leaves, p, tag),
    {
        assert forall|j: int| 0 <= j < leaves.len() implies under(self.spot(#[trigger] leaves[j]), p) && self.spot(
            leaves[j],
        ) != p && self.label(leaves[j]) == tag by {
            let x = leaves[j];
            self.lemma_spot(x);
            if beyond(self.root, x.path) > self.depth {
                let n = (self.root.comps.len() + self.depth) as int;
                assert(p.comps =~= self.spot(x).comps.take(p.comps.len() as int)) by {
                    assert forall|k: int| 0 <= k < p.comps.len() implies p.comps[k] == self.spot(x).comps[k] by {
                        assert(p.comps[k] == x.path.comps[k]);
                    }
                }
                assert(self.spot(x).comps.len() == n + 1);
            }
        }
    }

    /// Where all leaves are counted directly below a path, its entries are the
    /// groups that count them.
    #[verifier::rlimit(40)]
    #[verifier::spinoff_prover]
    proof fn lemma_summaries(self, leaves: Seq<Node>, p: PathView, tag: Option<Seq<u8>>)
        requires
            self.known(leaves),
            self.all_below(leaves, p, tag),
            forall|j: int|
                0 <= j < leaves.len() ==> beyond(self.root, (#[trigger] leaves[j]).path) > self.depth
                    && self.spot(leaves[j]).comps.len() == p.comps.len() + 1,
        ensures
            are_summaries(self.tree(leaves, p, tag), p),
    {
        let t = self.tree(leaves, p, tag);
        let g = self.level(leaves, p, tag);
        let s = sort_nodes(g);
        self.lemma_level(leaves, p, tag);
        self.lemma_level_full(leaves, p, tag);
        lemma_sorted_members(g);
        offsets_keep_entries(s);
        assert forall|i: int| 0 <= i < t.len() implies is_summary((#[trigger] t[i]).1, p) by {
            let v = t[i].1;
            assert(v == bare(t)[i]);
            assert(s.contains(s[i]));
            assert(g.contains(v));
            let k = choose|k: int| 0 <= k < g.len() && g[k] == v;
            assert(self.is_full(g[k], leaves, p, tag));
            let w = choose|w: int|
                0 <= w < leaves.len() && under(self.spot(#[trigger] leaves[w]), v.path) && self.label(leaves[w])
                    == tag;
            assert(self.spot(leaves[w]).comps =~= v.path.comps);
            assert((self.at(v.path, tag))(leaves[w]));
            assert(marks(v) == self.marks_of(leaves[w]));
            if v.subtree.len() > 0 {
                self.lemma_tree_touched(leaves, v.path, tag);
                let x = choose|x: int|
                    0 <= x < leaves.len() && under(self.spot(#[trigger] leaves[x]), v.path) && self.spot(
                        leaves[x],
                    ) != v.path && self.label(leaves[x]) == tag;
                assert(self.spot(leaves[x]).comps =~= v.path.comps);
            }
        }
    }

    /// Where all leaves are counted directly below a path, there is an entry for
    /// each of their file types, which counts them.
    #[verifier::rlimit(80)]
    #[verifier::spinoff_prover]
    proof fn lemma_types(self, leaves: Seq<Node>, p: PathView, tag: Option<Seq<u8>>)
        requires
            self.known(leaves),
            self.all_below(leaves, p, tag),
            forall|j: int|
                0 <= j < leaves.len() ==> beyond(self.root, (#[trigger] leaves[j]).path) > self.depth
                    && self.spot(leaves[j]).comps.len() == p.comps.len() + 1,
        ensures
            sums_up_types(self.tree(leaves, p, tag), leaves),
    {
        let t = self.tree(leaves, p, tag);
        let g = self.level(leaves, p, tag);
        let s = sort_nodes(g);
        self.lemma_level(leaves, p, tag);
        self.lemma_level_full(leaves, p, tag);
        lemma_sorted_members(g);
        offsets_keep_entries(s);
        assert forall|k: int, w: int|
            0 <= k < g.len() && 0 <= w < leaves.len() && self.spot(#[trigger] leaves[w]) == (#[trigger] g[k]).path implies counts_type(
            g[k],
            leaves,
            leaves[w],
        ) by {
            self.lemma_type(leaves, p, tag, g[k], w);
        }
        assert forall|i: int| 0 <= i < t.len() implies counts_some_type((#[trigger] t[i]).1, leaves) by {
            let v = t[i].1;
            assert(v == bare(t)[i]);
            assert(s.contains(s[i]));
            assert(g.contains(v));
            let k = choose|k: int| 0 <= k < g.len() && g[k] == v;
            assert(self.is_full(g[k], leaves, p, tag));
            let w = choose|w: int|
                0 <= w < leaves.len() && under(self.spot(#[trigger] leaves[w]), v.path) && self.label(leaves[w])
                    == tag;
            assert(self.spot(leaves[w]).comps =~= v.path.comps);
            assert(self.spot(leaves[w]) == g[k].path);
            assert(counts_type(g[k], leaves, leaves[w]));
        }
        assert forall|w: int| 0 <= w < leaves.len() implies is_counted(t, leaves, #[trigger] leaves[w]) by {
            let c = self.spot(leaves[w]);
            assert(under(c, c));
            assert(under(c, p) && self.label(leaves[w]) == tag);
            assert(self.touched(leaves, c, tag));
            assert(c.parent() == Some(p)) by {
                assert(c.comps.drop_last() =~= p.comps);
            }
            assert(has_path(g, c));
            let k = choose|k: int| 0 <= k < g.len() && (#[trigger] g[k]).path == c;
            assert(counts_type(g[k], leaves, leaves[w]));
            assert(g.contains(g[k]));
            assert(s.contains(g[k]));
            let i = choose|i: int| 0 <= i < s.len() && s[i] == g[k];
            assert(t[i].1 == bare(t)[i]);
        }
        assert forall|i: int, k: int| 0 <= i < t.len() && 0 <= k < t.len() && i != k implies (
        #[trigger] t[i]).1.path != (#[trigger] t[k]).1.path by {
            assert(bare(t)[i] == t[i].1 && bare(t)[k] == t[k].1);
            assert(s[i].path != s[k].path);
        }
    }

    #[verifier::rlimit(40)]
    #[verifier::spinoff_prover]
    proof fn lemma_type(self, leaves: Seq<Node>, p: PathView, tag: Option<Seq<u8>>, v: Node, w: int)
        requires
            self.is_scan(leaves),
            self.all_below(leaves, p, tag),
            forall|j: int|
                0 <= j < leaves.len() ==> beyond(self.root, (#[trigger] leaves[j]).path) > self.depth
                    && self.spot(leaves[j]).comps.len() == p.comps.len() + 1,
            self.is_full(v, leaves, p, tag),
            0 <= w < leaves.len(),
            self.spot(leaves[w]) == v.path,
        ensures
            counts_type(v, leaves, leaves[w]),
    {
        let x = leaves[w];
        self.lemma_spot(x);
        let here = self.below(v.path, tag);
        let kind = of_type(x.path.extension());
        assert forall|j: int| 0 <= j < leaves.len() implies here(#[trigger] leaves[j]) == kind(leaves[j]) by {
            let y = leaves[j];
            self.lemma_spot(y);
            assert(under(self.spot(y), p) && self.label(y) == tag);
            assert(under(self.spot(x), p));
            if here(y) {
                assert(self.spot(y).comps =~= v.path.comps);
                assert(self.spot(y).comps.last() == self.spot(x).comps.last());
                lemma_summary_names(y.path, x.path);
            }
            if kind(y) {
                assert(self.spot(y).comps =~= self.spot(x).comps) by {
                    assert forall|k: int| 0 <= k < self.spot(x).comps.len() implies self.spot(y).comps[k]
                        == self.spot(x).comps[k] by {
                        if k < p.comps.len() {
                            assert(self.spot(y).comps[k] == p.comps[k]);
                            assert(self.spot(x).comps[k] == p.comps[k]);
                        }
                    }
                }
            }
        }
        lemma_sum_if_same(leaves, here, kind, w_size());
        lemma_sum_if_same(leaves, here, kind, w_nfiles());
        assert(v.path.comps.last() == summary_name(x.path));
        assert(summary_name(x.path)[0] == 42u8 || summary_name(x.path)[0] == 40u8);
    }
}

/// Whether an entry stands for the files of a type in a directory.
pub open spec fn is_summary(n: Node, path: PathView) -> bool {
    n.is_group && n.tag is None && n.subtree.len() == 0 && n.path.parent() == Some(path)
}

/// Whether the entries of a directory are summaries of file types.
pub open spec fn are_summaries(f: Seq<(nat, Node)>, path: PathView) -> bool {
    forall|i: int| 0 <= i < f.len() ==> is_summary((#[trigger] f[i]).1, path)
}

/// The entries of a file type.
pub open spec fn of_type(ext: Option<Seq<u8>>) -> spec_fn(Node) -> bool {
    |x: Node| x.path.extension() == ext
}

/// Whether an entry has the name of the file type of a leaf, and counts what all
/// leaves of that type count together.
pub open spec fn counts_type(v: Node, leaves: Seq<Node>, x: Node) -> bool {
    &&& v.path.file_name() == Some(summary_name(x.path))
    &&& v.size == sum_if(leaves, of_type(x.path.extension()), w_size())
    &&& v.nfiles == sum_if(leaves, of_type(x.path.extension()), w_nfiles())
}

/// Whether an entry counts the leaves of some file type.
pub open spec fn counts_some_type(v: Node, leaves: Seq<Node>) -> bool {
    exists|j: int| 0 <= j < leaves.len() && counts_type(v, leaves, #[trigger] leaves[j])
}

/// Whether an entry counts the leaves of the file type of a leaf.
pub open spec fn is_counted(f: Seq<(nat, Node)>, leaves: Seq<Node>, x: Node) -> bool {
    exists|i: int| 0 <= i < f.len() && counts_type((#[trigger] f[i]).1, leaves, x)
}

/// Whether siblings sum up leaves by file type: one for each type that leaves
/// have, and no other.
pub open spec fn sums_up_types(f: Seq<(nat, Node)>, leaves: Seq<Node>) -> bool {
    &&& forall|i: int| 0 <= i < f.len() ==> counts_some_type((#[trigger] f[i]).1, leaves)
    &&& forall|j: int| 0 <= j < leaves.len() ==> is_counted(f, leaves, #[trigger] leaves[j])
    &&& forall|i: int, k: int|
        0 <= i < f.len() && 0 <= k < f.len() && i != k ==> (#[trigger] f[i]).1.path != (
        #[trigger] f[k]).1.path
}

/// Deflating a directory puts an entry in its place that counts the same and has
/// nothing but summaries below it, one for each file type of the leaves that were
/// there, which counts these. All else stays as it is and where it is.
pub proof fn deflating_leaves_summaries(a: AppView, s: StateView, aim: AimView)
    requires
        is_whole(a.colors, a.entries.tree, s.root, a.args.xray),
        in_step(a, s),
        aim_of(a.entries, s) == Some(aim),
    ensures
        ({
            let f = a.entries.tree;
            let gone = resolve(f, nats(aim.selection))->0;
            let t = deflation(a, s, s.root, aim);
            let m = way_end(t, aim.selection.len());
            &&& depth_below(s.root, aim.path) is Some
            &&& merged(without_aim(a, aim), t) == replaced(f, aim.selection, m)
            &&& is_whole(a.colors, replaced(f, aim.selection, m), s.root, a.args.xray)
            &&& m.path == aim.path
            &&& m.size == gone.size
            &&& m.nfiles == gone.nfiles
            &&& m.tag == aim.tag
            &&& !m.is_group
            &&& m.subtree.len() > 0
            &&& are_summaries(m.subtree, aim.path)
            &&& sums_up_types(m.subtree, deflated_leaves(a, aim))
        }),
{
    let f = a.entries.tree;
    let plan = deflation_plan(a, s, s.root, aim);
    let leaves = deflated_leaves(a, aim);
    lemma_aimed(a, s, aim);
    let gone = resolve(f, nats(aim.selection))->0;
    lemma_whole_laid(a.colors, f, s.root, a.args.xray);
    prune_takes_the_selected(f, aim.selection);
    assert(leaves == leaves_all(bare(gone.subtree)));
    plan.lemma_leaves_whole(f, aim.selection);
    lemma_depth_below(s.root, aim.path);
    plan.lemma_spots_in(leaves, aim.path, gone.tag);
    plan.lemma_regrown_whole(f, aim.selection, leaves);
    plan.lemma_replaced_whole(f, aim.selection, leaves);
    plan.lemma_painted_found(leaves);
    assert forall|j: int| 0 <= j < leaves.len() implies beyond(plan.root, (#[trigger] leaves[j]).path) > plan.depth
        && plan.spot(leaves[j]).comps.len() == aim.path.comps.len() + 1 by {
        let x = leaves[j];
        assert(x.path.comps.len() > aim.path.comps.len()) by {
            if x.path.comps.len() == aim.path.comps.len() {
                assert(x.path.comps =~= aim.path.comps);
            }
        }
        plan.lemma_spot(x);
    }
    plan.lemma_summaries(leaves, aim.path, gone.tag);
    plan.lemma_types(leaves, aim.path, gone.tag);
}

/// The directory that is deflated stays selected, and the user looks at it, with
/// nothing but summaries in it. All else of the application stays.
pub proof fn deflating_keeps_the_selection(a: AppView, s: StateView, aim: AimView)
    requires
        is_whole(a.colors, a.entries.tree, s.root, a.args.xray),
        in_step(a, s),
        aim_of(a.entries, s) == Some(aim),
        s.tree_state.selected.len() > 0,
    ensures
        ({
            let (b, t) = deflated(a, s, s.root, aim);
            &&& b.entries.at() matches Some(n) && n.path == aim.path && n.tag == aim.tag && are_summaries(
                n.subtree,
                aim.path,
            )
            &&& in_step(b, t)
            &&& t.view_info is None
            &&& b.args == a.args
            &&& b.reserve == a.reserve
            &&& t.skip_view == s.skip_view
            &&& t.action == s.action
        }),
{
    let f = a.entries.tree;
    lemma_aimed(a, s, aim);
    deflating_leaves_summaries(a, s, aim);
    let m = way_end(deflation(a, s, s.root, aim), aim.selection.len());
    lemma_whole_laid(a.colors, f, s.root, a.args.xray);
    replacement_is_found(f, aim.selection, m);
    let (b, t) = deflated(a, s, s.root, aim);
    let q = s.qual_select();
    if is_lifted(a.entries, s) {
        assert(q.drop_last() =~= s.skip_view + s.tree_state.selected.drop_last());
        assert(t.tree_state.selected =~= s.tree_state.selected.drop_last());
    }
    assert(t.qual_select() =~= aim.selection);
}

/// After an expansion the user looks at what is selected, in the forest that came
/// out. All else of the application stays.
pub proof fn expanding_keeps_step(a: AppView, s: StateView, e: ExpansionView, t: Seq<(nat, Node)>)
    ensures
        ({
            let (b, u) = expanded(a, s, e, t);
            &&& b.entries.tree == merged(e.rest, t)
            &&& in_step(b, u)
            &&& b.args == a.args
            &&& b.reserve == a.reserve
            &&& u.qual_select() == s.qual_select()
            &&& u.skip_view == s.skip_view
            &&& u.view_info is None
        }),
{
}

/// How the files that a directory is scanned to are arranged when it is expanded.
pub open spec fn expansion_plan(a: AppView, s: StateView, aim: AimView) -> Plan {
    Plan {
        colors: a.colors,
        root: s.root,
        depth: expansion_of(a, s, aim).args.max_depth,
        xray: a.args.xray,
    }
}

/// Whether files are what a scan of the directory that is expanded finds in it.
pub open spec fn are_scanned(a: AppView, s: StateView, aim: AimView, leaves: Seq<Node>) -> bool {
    &&& leaves.len() > 0
    &&& expansion_plan(a, s, aim).are_painted(leaves)
    &&& forall|j: int|
        0 <= j < leaves.len() ==> expansion_of(a, s, aim).keeps(#[trigger] leaves[j]) && leaves[j].path
            != aim.path
}

proof fn lemma_scanned_below(a: AppView, s: StateView, f: Seq<(nat, Node)>, aim: AimView, leaves: Seq<Node>)
    requires
        is_whole(a.colors, f, s.root, a.args.xray),
        resolve(f, nats(aim.selection)) is Some,
        ({
            let gone = resolve(f, nats(aim.selection))->0;
            gone.path == aim.path && gone.tag == aim.tag && !gone.is_group && gone.subtree.len() > 0
        }),
        are_scanned(a, s, aim, leaves),
    ensures
        expansion_plan(a, s, aim).all_below(leaves, aim.path, aim.tag),
        depth_below(s.root, aim.path) is Some,
{
    let plan = expansion_plan(a, s, aim);
    lemma_whole_under(a.colors, f, aim.selection, s.root, a.args.xray);
    lemma_whole_tag(a.colors, f, aim.selection, s.root, a.args.xray);
    lemma_depth_below(s.root, aim.path);
    assert forall|j: int| 0 <= j < leaves.len() implies under((#[trigger] leaves[j]).path, aim.path)
        && leaves[j].path != aim.path && plan.label(leaves[j]) == aim.tag by {
        assert(expansion_of(a, s, aim).keeps(leaves[j]));
        assert(leaves[j].path.starts_with(aim.path));
        assert(under(leaves[j].path, s.root));
    }
    plan.lemma_spots_in(leaves, aim.path, aim.tag);
}

/// Expanding a directory puts what a scan finds in it in its place. All else is
/// as it was, but for the order of siblings and what the entries above count.
pub proof fn expanding_replaces_the_directory(a: AppView, s: StateView, aim: AimView, leaves: Seq<Node>)
    requires
        is_whole(a.colors, a.entries.tree, s.root, a.args.xray),
        in_step(a, s),
        aim_of(a.entries, s) == Some(aim),
        are_scanned(a, s, aim, leaves),
    ensures
        ({
            let f = a.entries.tree;
            let t = forest_of(expansion_plan(a, s, aim), leaves);
            let m = way_end(t, aim.selection.len());
            &&& depth_below(s.root, aim.path) is Some
            &&& merged(without_aim(a, aim), t) == regrown(f, aim.selection, m)
            &&& m.path == aim.path
            &&& m.size == sum_size(leaves)
            &&& m.nfiles == sum_nfiles(leaves)
            &&& !m.is_group
            &&& is_forest(a.colors, m.subtree, aim.path, aim.tag)
        }),
{
    let plan = expansion_plan(a, s, aim);
    lemma_aimed(a, s, aim);
    lemma_scanned_below(a, s, a.entries.tree, aim, leaves);
    plan.lemma_regrown_whole(a.entries.tree, aim.selection, leaves);
}

impl Plan {
    /// An entry stands where a leaf is counted.
    #[verifier::rlimit(40)]
    #[verifier::spinoff_prover]
    proof fn lemma_entry_at(self, leaves: Seq<Node>, q: PathView, tag: Option<Seq<u8>>, j: int) -> (r: (
        Seq<nat>,
        Node,
    ))
        requires
            self.known(leaves),
            0 <= j < leaves.len(),
            under(self.spot(leaves[j]), q),
            self.spot(leaves[j]) != q,
            self.label(leaves[j]) == tag,
        ensures
            leads(self.tree(leaves, q, tag), r.0, r.1),
            r.1.path == self.spot(leaves[j]),
            self.spot(leaves[j]).comps.len() > 0,
            self.is_full(r.1, leaves, self.spot(leaves[j]).parent()->0, tag),
        decreases self.spot(leaves[j]).comps.len() - q.comps.len(),
    {
        let spot = self.spot(leaves[j]);
        let t = self.tree(leaves, q, tag);
        let g = self.level(leaves, q, tag);
        let s = sort_nodes(g);
        self.lemma_level(leaves, q, tag);
        self.lemma_level_full(leaves, q, tag);
        lemma_sorted_members(g);
        offsets_keep_entries(s);
        assert(spot.comps.len() > q.comps.len()) by {
            if spot.comps.len() == q.comps.len() {
                assert(spot.comps =~= q.comps);
            }
        }
        let c = PathView { absolute: spot.absolute, comps: spot.comps.take(q.comps.len() as int + 1) };
        assert(c.parent() == Some(q)) by {
            assert(c.comps.drop_last() =~= q.comps);
        }
        assert(under(spot, c));
        assert(self.touched(leaves, c, tag));
        assert(has_path(g, c));
        let k = choose|k: int| 0 <= k < g.len() && (#[trigger] g[k]).path == c;
        assert(self.is_full(g[k], leaves, q, tag));
        assert(g.contains(g[k]));
        assert(s.contains(g[k]));
        let i = choose|i: int| 0 <= i < s.len() && s[i] == g[k];
        assert(t[i].1 == bare(t)[i]);
        if c == spot {
            let addr = seq![t[i].0];
            assert(t[i].0 == addr[0] && t[i].1 == g[k]);
            (addr, g[k])
        } else {
            let (more, v) = self.lemma_entry_at(leaves, c, tag, j);
            let addr = seq![t[i].0] + more;
            assert(addr.skip(1) =~= more);
            assert(t[i].0 == addr[0] && leads(t[i].1.subtree, addr.skip(1), v));
            (addr, v)
        }
    }

    /// The entry of a leaf that is not below the depth counts it and nothing else.
    proof fn lemma_own_counts(self, leaves: Seq<Node>, tag: Option<Seq<u8>>, j: int, v: Node)
        requires
            self.known(leaves),
            0 <= j < leaves.len(),
            self.label(leaves[j]) == tag,
            beyond(self.root, leaves[j].path) <= self.depth,
            v.path == self.spot(leaves[j]),
            self.is_full(v, leaves, v.path.parent()->0, tag),
        ensures
            v.path == leaves[j].path,
            v.size == leaves[j].size,
            v.nfiles == leaves[j].nfiles,
            v.subtree.len() == 0,
            marks(v) == marks(leaves[j]),
    {
        let x = leaves[j];
        self.lemma_spot(x);
        let here = self.below(v.path, tag);
        assert forall|i: int| 0 <= i < leaves.len() && i != j implies !here(#[trigger] leaves[i]) by {
            self.lemma_spots(leaves, i, j);
        }
        assert(under(self.spot(x), v.path));
        assert(here(x));
        lemma_sum_if_single(leaves, here, w_size(), j);
        lemma_sum_if_single(leaves, here, w_nfiles(), j);
        assert((self.at(v.path, tag))(x));
        if v.subtree.len() > 0 {
            self.lemma_tree_touched(leaves, v.path, tag);
            let i = choose|i: int|
                0 <= i < leaves.len() && under(self.spot(#[trigger] leaves[i]), v.path) && self.spot(leaves[i])
                    != v.path && self.label(leaves[i]) == tag;
            if i != j {
                self.lemma_spots(leaves, i, j);
            }
        }
    }

    /// A leaf that is not below the depth has an entry of its own.
    proof fn lemma_own_entry(self, leaves: Seq<Node>, q: PathView, tag: Option<Seq<u8>>, j: int)
        requires
            self.known(leaves),
            0 <= j < leaves.len(),
            under(self.spot(leaves[j]), q),
            self.spot(leaves[j]) != q,
            self.label(leaves[j]) == tag,
            beyond(self.root, leaves[j].path) <= self.depth,
        ensures
            has_own_entry(self.tree(leaves, q, tag), leaves[j]),
    {
        let (addr, v) = self.lemma_entry_at(leaves, q, tag, j);
        self.lemma_own_counts(leaves, tag, j, v);
    }

    /// The entry of a leaf below the depth stands for its file type in the directory
    /// at the depth.
    proof fn lemma_group_counts(self, leaves: Seq<Node>, tag: Option<Seq<u8>>, j: int, v: Node)
        requires
            self.known(leaves),
            0 <= j < leaves.len(),
            self.label(leaves[j]) == tag,
            beyond(self.root, leaves[j].path) > self.depth,
            v.path == self.spot(leaves[j]),
            self.is_full(v, leaves, v.path.parent()->0, tag),
        ensures
            v.is_group,
            v.tag is None,
            v.color == leaves[j].color,
            v.path.comps.len() == self.root.comps.len() + self.depth + 1,
            v.path.comps.last() == summary_name(leaves[j].path),
            under(leaves[j].path, v.path.parent()->0),
    {
        let x = leaves[j];
        self.lemma_spot(x);
        assert((self.at(v.path, tag))(x));
        let n = (self.root.comps.len() + self.depth) as int;
        assert(v.path.comps.drop_last() =~= x.path.comps.subrange(0, n));
    }

    /// What the trees of leaves show is not deeper than the depth.
    #[verifier::rlimit(60)]
    #[verifier::spinoff_prover]
    proof fn lemma_tree_shallow(self, leaves: Seq<Node>, q: PathView, tag: Option<Seq<u8>>, f: Seq<(nat, Node)>)
        requires
            self.known(leaves),
            f == self.tree(leaves, q, tag),
        ensures
            goes_to_level(f, self.root.comps.len() + self.depth),
        decreases f,
    {
        let g = self.level(leaves, q, tag);
        let s = sort_nodes(g);
        let most = self.root.comps.len() + self.depth;
        self.lemma_level(leaves, q, tag);
        self.lemma_level_full(leaves, q, tag);
        lemma_sorted_members(g);
        offsets_keep_entries(s);
        assert forall|i: int| 0 <= i < f.len() implies ((#[trigger] f[i]).1.path.comps.len() <= most || (
        f[i].1.path.comps.len() == most + 1 && f[i].1.is_group)) && goes_to_level(f[i].1.subtree, most) by {
            let v = f[i].1;
            assert(v == bare(f)[i]);
            assert(s.contains(s[i]));
            assert(g.contains(v));
            let k = choose|k: int| 0 <= k < g.len() && g[k] == v;
            assert(self.is_full(g[k], leaves, q, tag));
            let w = choose|w: int|
                0 <= w < leaves.len() && under(self.spot(#[trigger] leaves[w]), v.path) && self.label(leaves[w])
                    == tag;
            self.lemma_spot(leaves[w]);
            if v.path.comps.len() > most {
                assert(self.spot(leaves[w]).comps =~= v.path.comps);
                assert((self.at(v.path, tag))(leaves[w]));
                assert(marks(v) == self.marks_of(leaves[w]));
            }
            assert(decreases_to!(f => f[i].1.subtree));
            self.lemma_tree_shallow(leaves, v.path, tag, v.subtree);
        }
    }
}

/// Whether a file has an entry of its own in a forest: one with its path, which
/// counts it and nothing else.
pub open spec fn has_own_entry(f: Seq<(nat, Node)>, x: Node) -> bool {
    exists|addr: Seq<nat>, v: Node| #[trigger]
        leads(f, addr, v) && v.path == x.path && v.size == x.size && v.nfiles == x.nfiles && v.subtree.len() == 0
}

/// Whether no entry of a forest has more path components than a number, but for
/// groups, which may have one more.
pub open spec fn goes_to_level(f: Seq<(nat, Node)>, most: nat) -> bool
    decreases f,
{
    forall|i: int|
        0 <= i < f.len() ==> ((#[trigger] f[i]).1.path.comps.len() <= most || (f[i].1.path.comps.len() == most + 1
            && f[i].1.is_group)) && goes_to_level(f[i].1.subtree, most)
}

/// An address leads to the entry that was put in the place of another.
proof fn lemma_regrown_leads(f: Seq<(nat, Node)>, addr: Seq<usize>, m: Node) -> (r: Seq<nat>)
    requires
        resolve(f, nats(addr)) is Some,
    ensures
        leads(regrown(f, addr, m), r, m),
    decreases addr.len(),
{
    assert(nats(addr)[0] == addr[0] as nat);
    assert(nats(addr).skip(1) =~= nats(addr.skip(1)));
    let i = index_of_id(f, addr[0] as nat);
    assert(has_id(f, addr[0] as nat));
    let g = regrown(f, addr, m);
    let n = f[i].1;
    let gone = resolve(f, nats(addr))->0;
    let below = regrown(n.subtree, addr.skip(1), m);
    let new = if addr.len() <= 1 {
        m
    } else {
        Node {
            size: (n.size - gone.size + m.size) as nat,
            nfiles: (n.nfiles - gone.nfiles + m.nfiles) as nat,
            leaves: sum_leaves(bare(below)),
            subtree: below,
            ..n
        }
    };
    let s = bare(f).update(i, new);
    assert(s[i] == new);
    sort_is_ordered(s);
    assert(s.contains(new));
    s.to_multiset_ensures();
    sort_nodes(s).to_multiset_ensures();
    assert(s.to_multiset().count(new) > 0);
    assert(sort_nodes(s).to_multiset().count(new) > 0);
    assert(sort_nodes(s).contains(new));
    offsets_keep_entries(sort_nodes(s));
    let k = choose|k: int| 0 <= k < sort_nodes(s).len() && sort_nodes(s)[k] == new;
    assert(g[k].1 == bare(g)[k]);
    if addr.len() <= 1 {
        let r = seq![g[k].0];
        assert(g[k].0 == r[0] && g[k].1 == m);
        r
    } else {
        let more = lemma_regrown_leads(n.subtree, addr.skip(1), m);
        let r = seq![g[k].0] + more;
        assert(r.skip(1) =~= more);
        assert(g[k].0 == r[0] && leads(g[k].1.subtree, r.skip(1), m));
        r
    }
}

/// A scanned file belongs to an expansion if it lies in the directory and, where
/// the forest shows a file type, is of that type.
pub proof fn expansions_keep_what_is_inside(a: AppView, s: StateView, aim: AimView, x: Node)
    requires
        aim.path.comps.len() > 0,
    ensures
        expansion_of(a, s, aim).keeps(x) <==> (under(x.path, aim.path) && (aim.tag is None || leaf_tag(
            true,
            x.path,
        ) == aim.tag)),
{
    assert(x.path.starts_with(aim.path) == under(x.path, aim.path));
}

/// Expanding a directory shows it to the depth that is set, counted from the
/// directory. Every file that is not deeper has an entry of its own in the forest
/// that comes out, at an address below that of the directory. Nothing that is
/// deeper has one: groups stand for it, one level below the depth.
pub proof fn expanding_shows_the_depth_that_is_set(a: AppView, s: StateView, aim: AimView, leaves: Seq<Node>) -> (r:
    (Seq<nat>, Node))
    requires
        is_whole(a.colors, a.entries.tree, s.root, a.args.xray),
        in_step(a, s),
        aim_of(a.entries, s) == Some(aim),
        are_scanned(a, s, aim, leaves),
    ensures
        expansion_of(a, s, aim).args.max_depth - (aim.path.comps.len() - s.root.comps.len()) == a.args.max_depth,
        leads(merged(without_aim(a, aim), forest_of(expansion_plan(a, s, aim), leaves)), r.0, r.1),
        r.1.path == aim.path,
        goes_to_level(r.1.subtree, aim.path.comps.len() + a.args.max_depth),
        forall|j: int|
            0 <= j < leaves.len() && (#[trigger] leaves[j]).path.comps.len() <= aim.path.comps.len()
                + a.args.max_depth ==> has_own_entry(r.1.subtree, leaves[j]),
{
    let f = a.entries.tree;
    let plan = expansion_plan(a, s, aim);
    lemma_aimed(a, s, aim);
    lemma_scanned_below(a, s, f, aim, leaves);
    plan.lemma_regrown_whole(f, aim.selection, leaves);
    plan.lemma_painted_found(leaves);
    lemma_whole_under(a.colors, f, aim.selection, s.root, a.args.xray);
    lemma_depth_below(s.root, aim.path);
    let m = way_end(forest_of(plan, leaves), aim.selection.len());
    let addr = lemma_regrown_leads(f, aim.selection, m);
    plan.lemma_tree_shallow(leaves, m.path, aim.tag, m.subtree);
    assert forall|j: int|
        0 <= j < leaves.len() && (#[trigger] leaves[j]).path.comps.len() <= aim.path.comps.len()
            + a.args.max_depth implies has_own_entry(m.subtree, leaves[j]) by {
        assert(under(plan.spot(leaves[j]), aim.path));
        plan.lemma_own_entry(leaves, m.path, aim.tag, j);
    }
    (addr, m)
}

/// Every file of a scan is in the forest. Down to the depth it has an entry of its
/// own, which counts it and nothing else. Below the depth a group stands for the
/// files of its type, in the directory at the depth that it lies in.
pub proof fn every_file_is_shown(plan: Plan, leaves: Seq<Node>, j: int) -> (r: (Seq<nat>, Node))
    requires
        plan.are_painted(leaves),
        plan.groups_differ(leaves),
        0 <= j < leaves.len(),
    ensures
        leads(forest_of(plan, leaves), r.0, r.1),
        beyond(plan.root, leaves[j].path) <= plan.depth ==> {
            &&& r.1.path == leaves[j].path
            &&& r.1.size == leaves[j].size
            &&& r.1.nfiles == leaves[j].nfiles
            &&& r.1.subtree.len() == 0
            &&& marks(r.1) == marks(leaves[j])
        },
        beyond(plan.root, leaves[j].path) > plan.depth ==> {
            &&& r.1.is_group
            &&& r.1.tag is None
            &&& r.1.color == leaves[j].color
            &&& r.1.path.comps.len() == plan.root.comps.len() + plan.depth + 1
            &&& r.1.path.comps.last() == summary_name(leaves[j].path)
            &&& under(leaves[j].path, r.1.path.parent()->0)
        },
{
    let x = leaves[j];
    let tag = plan.label(x);
    let f = forest_of(plan, leaves);
    plan.lemma_painted_found(leaves);
    plan.lemma_spot(x);
    let (addr, v) = plan.lemma_entry_at(leaves, plan.root, tag, j);
    if beyond(plan.root, x.path) <= plan.depth {
        plan.lemma_own_counts(leaves, tag, j, v);
    } else {
        plan.lemma_group_counts(leaves, tag, j, v);
    }
    if plan.xray {
        let ext = tag->0;
        let g = plan.all_groups(leaves);
        let group = plan.grouped(leaves, ext);
        plan.lemma_groups(leaves);
        assert(plan.uses(leaves, ext));
        lemma_sorted_members(g);
        offsets_keep_entries(sort_nodes(g));
        assert(g.contains(group));
        assert(sort_nodes(g).contains(group));
        let i = choose|i: int| 0 <= i < sort_nodes(g).len() && sort_nodes(g)[i] == group;
        assert(f[i].1 == bare(f)[i]);
        let way = seq![f[i].0] + addr;
        assert(way.skip(1) =~= addr);
        assert(f[i].0 == way[0] && leads(f[i].1.subtree, way.skip(1), v));
        (way, v)
    } else {
        (addr, v)
    }
}

/// What lies in a directory, of a file type if there is one.
pub open spec fn lies_in(plan: Plan, path: PathView, tag: Option<Seq<u8>>) -> spec_fn(Node) -> bool {
    |x: Node| under(x.path, path) && leaf_tag(plan.xray, x.path) == tag
}

/// A directory counts all files that lie in it, however deep, and no others. In
/// x-ray mode these are the files of its type.
pub proof fn directories_count_what_is_in_them(plan: Plan, leaves: Seq<Node>, addr: Seq<usize>)
    requires
        plan.are_painted(leaves),
        plan.groups_differ(leaves),
        resolve(forest_of(plan, leaves), nats(addr)) is Some,
        !(resolve(forest_of(plan, leaves), nats(addr))->0).is_group,
        (resolve(forest_of(plan, leaves), nats(addr))->0).subtree.len() > 0,
    ensures
        ({
            let n = resolve(forest_of(plan, leaves), nats(addr))->0;
            &&& n.size == sum_if(leaves, lies_in(plan, n.path, n.tag), w_size())
            &&& n.nfiles == sum_if(leaves, lies_in(plan, n.path, n.tag), w_nfiles())
        }),
{
    let n = resolve(forest_of(plan, leaves), nats(addr))->0;
    let p = n.path;
    plan.lemma_painted_found(leaves);
    plan.lemma_whole_full(leaves, addr);
    plan.lemma_tree_touched(leaves, p, n.tag);
    let x = choose|x: int|
        0 <= x < leaves.len() && under(plan.spot(#[trigger] leaves[x]), p) && plan.spot(leaves[x]) != p
            && plan.label(leaves[x]) == n.tag;
    plan.lemma_spot(leaves[x]);
    assert(plan.spot(leaves[x]).comps.len() > p.comps.len()) by {
        if plan.spot(leaves[x]).comps.len() == p.comps.len() {
            assert(plan.spot(leaves[x]).comps =~= p.comps);
        }
    }
    assert(p.comps.len() <= plan.root.comps.len() + plan.depth);
    let here = plan.below(p, n.tag);
    let inside = lies_in(plan, p, n.tag);
    assert forall|i: int| 0 <= i < leaves.len() implies here(#[trigger] leaves[i]) == inside(leaves[i]) by {
        let y = leaves[i];
        plan.lemma_spot(y);
        if beyond(plan.root, y.path) > plan.depth {
            let s = plan.spot(y);
            if p.comps.is_prefix_of(y.path.comps) {
                assert(p.comps =~= s.comps.subrange(0, p.comps.len() as int));
            }
            if p.comps.is_prefix_of(s.comps) {
                assert forall|k: int| 0 <= k < p.comps.len() implies p.comps[k] == y.path.comps[k] by {
                    assert(p.comps[k] == s.comps[k]);
                }
                assert(p.comps =~= y.path.comps.subrange(0, p.comps.len() as int));
            }
        }
    }
    lemma_sum_if_same(leaves, here, inside, w_size());
    lemma_sum_if_same(leaves, here, inside, w_nfiles());
}

/// An expansion is for the directory that was chosen: all of it that the forest
/// showed leaves the forest, and as many files are expected as it counted. But for
/// the depth, the arguments stay.
pub proof fn expansions_are_for_the_directory(a: AppView, s: StateView, aim: AimView)
    requires
        in_step(a, s),
        aim_of(a.entries, s) == Some(aim),
    ensures
        ({
            let e = expansion_of(a, s, aim);
            let gone = resolve(a.entries.tree, nats(s.qual_select()))->0;
            &&& e.target == aim.path
            &&& e.tag == aim.tag
            &&& gone.subtree.len() > 0 ==> e.target == gone.path && e.tag == gone.tag && e.est_count == gone.nfiles
            &&& (ArgsView { max_depth: a.args.max_depth, ..e.args }) == a.args
        }),
{
    lemma_aimed(a, s, aim);
    prune_takes_the_selected(a.entries.tree, aim.selection);
}

/// Expanding a directory undoes deflating it, if a scan shows the directory as the
/// forest showed it before.
pub proof fn expanding_undoes_deflating(a: AppView, s: StateView, aim: AimView, leaves: Seq<Node>)
    requires
        is_whole(a.colors, a.entries.tree, s.root, a.args.xray),
        in_step(a, s),
        aim_of(a.entries, s) == Some(aim),
        are_scanned(a, s, aim, leaves),
        resolve(a.entries.tree, nats(aim.selection)) == Some(
            way_end(forest_of(expansion_plan(a, s, aim), leaves), aim.selection.len()),
        ),
    ensures
        ({
            let deflated = merged(without_aim(a, aim), deflation(a, s, s.root, aim));
            let rest = (pruned(deflated, aim.selection)->0).0;
            &&& pruned(deflated, aim.selection) is Some
            &&& merged(rest, forest_of(expansion_plan(a, s, aim), leaves)) == a.entries.tree
        }),
{
    let f = a.entries.tree;
    let addr = aim.selection;
    let plan = expansion_plan(a, s, aim);
    let gone = resolve(f, nats(addr))->0;
    lemma_aimed(a, s, aim);
    deflating_leaves_summaries(a, s, aim);
    let m = way_end(deflation(a, s, s.root, aim), addr.len());
    let g = replaced(f, addr, m);
    lemma_whole_laid(a.colors, f, s.root, a.args.xray);
    replacement_is_found(f, addr, m);
    lemma_scanned_below(a, s, f, aim, leaves);
    plan.lemma_regrown_whole(f, addr, leaves);
    plan.lemma_regrown_whole(g, addr, leaves);
    lemma_whole_laid(a.colors, g, s.root, a.args.xray);
    regrown_in_place(g, addr, gone);
    replacing_back_restores(f, addr, m);
}

impl Plan {
    /// What lies at an address of the trees of leaves counts the leaves below it.
    proof fn lemma_resolved_full(self, leaves: Seq<Node>, addr: Seq<usize>, q: PathView, tag: Option<Seq<u8>>)
        requires
            self.known(leaves),
            resolve(self.tree(leaves, q, tag), nats(addr)) is Some,
        ensures
            ({
                let n = resolve(self.tree(leaves, q, tag), nats(addr))->0;
                &&& n.path.comps.len() > 0
                &&& self.is_full(n, leaves, n.path.parent()->0, tag)
            }),
        decreases addr.len(),
    {
        let t = self.tree(leaves, q, tag);
        let i = index_of_id(t, addr[0] as nat);
        assert(nats(addr)[0] == addr[0] as nat);
        assert(nats(addr).skip(1) =~= nats(addr.skip(1)));
        assert(has_id(t, addr[0] as nat));
        let g = self.level(leaves, q, tag);
        let s = sort_nodes(g);
        self.lemma_level(leaves, q, tag);
        self.lemma_level_full(leaves, q, tag);
        lemma_sorted_members(g);
        offsets_keep_entries(s);
        let v = t[i].1;
        assert(v == bare(t)[i]);
        assert(s.contains(s[i]));
        assert(g.contains(v));
        let k = choose|k: int| 0 <= k < g.len() && g[k] == v;
        assert(self.is_full(g[k], leaves, q, tag));
        if addr.len() > 1 {
            self.lemma_resolved_full(leaves, addr.skip(1), v.path, tag);
        }
    }
}

impl Plan {
    proof fn lemma_whole_full(self, leaves: Seq<Node>, addr: Seq<usize>)
        requires
            self.are_painted(leaves),
            self.groups_differ(leaves),
            resolve(forest_of(self, leaves), nats(addr)) is Some,
            !(resolve(forest_of(self, leaves), nats(addr))->0).is_group,
            (resolve(forest_of(self, leaves), nats(addr))->0).subtree.len() > 0,
        ensures
            ({
                let n = resolve(forest_of(self, leaves), nats(addr))->0;
                &&& n.path.comps.len() > 0
                &&& self.is_full(n, leaves, n.path.parent()->0, n.tag)
            }),
    {
        let f = forest_of(self, leaves);
        let n = resolve(f, nats(addr))->0;
        self.lemma_painted_found(leaves);
        scans_make_forests(self, leaves);
        if self.xray {
            let ext = lemma_through_group(self.colors, f, addr, self.root);
            let i = index_of_id(f, addr[0] as nat);
            let g = self.all_groups(leaves);
            let v = f[i].1;
            self.lemma_groups(leaves);
            lemma_sorted_members(g);
            offsets_keep_entries(sort_nodes(g));
            assert(v == bare(f)[i]);
            assert(sort_nodes(g).contains(sort_nodes(g)[i]));
            assert(g.contains(v));
            let k = choose|k: int| 0 <= k < g.len() && g[k] == v;
            assert(self.is_some_group(g[k], leaves));
            let e = choose|e: Seq<u8>| #[trigger] self.is_group_of(g[k], leaves, e);
            assert(v.subtree == self.tree(leaves, self.root, Some(e)));
            self.lemma_tree_forest(leaves, self.root, Some(e));
            lemma_resolved_forest(self.colors, v.subtree, addr.skip(1), self.root, Some(e));
            self.lemma_resolved_full(leaves, addr.skip(1), self.root, Some(e));
        } else {
            lemma_resolved_forest(self.colors, f, addr, self.root, None);
            self.lemma_resolved_full(leaves, addr, self.root, None);
        }
    }
}

/// Scanning a directory to the depth to which the forest was scanned shows it as
/// the forest shows it, if it holds the files that it held: in x-ray mode those of
/// the type that is shown.
#[verifier::rlimit(60)]
#[verifier::spinoff_prover]
pub proof fn scanning_again_shows_the_same(plan: Plan, others: Seq<Node>, inside: Seq<Node>, addr: Seq<usize>)
    requires
        plan.are_painted(others + inside),
        plan.groups_differ(others + inside),
        resolve(forest_of(plan, others + inside), nats(addr)) is Some,
        ({
            let n = resolve(forest_of(plan, others + inside), nats(addr))->0;
            &&& n.subtree.len() > 0
            &&& !n.is_group
            &&& forall|j: int|
                0 <= j < others.len() ==> !(under((#[trigger] others[j]).path, n.path) && plan.label(others[j])
                    == n.tag)
            &&& forall|j: int|
                0 <= j < inside.len() ==> under((#[trigger] inside[j]).path, n.path) && plan.label(inside[j])
                    == n.tag
        }),
    ensures
        inside.len() > 0,
        plan.are_painted(inside),
        resolve(forest_of(plan, others + inside), nats(addr)) == Some(
            way_end(forest_of(plan, inside), addr.len()),
        ),
{
    let all = others + inside;
    let f = forest_of(plan, all);
    let n = resolve(f, nats(addr))->0;
    let p = n.path;
    let tag = n.tag;
    plan.lemma_painted_found(all);
    scans_make_forests(plan, all);
    lemma_whole_under(plan.colors, f, addr, plan.root, plan.xray);
    plan.lemma_whole_full(all, addr);
    plan.lemma_full_grown(all, n, p.parent()->0, tag);
    // The directory is not deeper than what is kept.
    plan.lemma_tree_touched(all, p, tag);
    let x = choose|x: int|
        0 <= x < all.len() && under(plan.spot(#[trigger] all[x]), p) && plan.spot(all[x]) != p && plan.label(all[x])
            == tag;
    plan.lemma_spot(all[x]);
    assert(plan.spot(all[x]).comps.len() > p.comps.len()) by {
        if plan.spot(all[x]).comps.len() == p.comps.len() {
            assert(plan.spot(all[x]).comps =~= p.comps);
        }
    }
    assert(p.comps.len() <= plan.root.comps.len() + plan.depth);
    lemma_part_painted(plan, all, 0, others.len() as int);
    lemma_part_painted(plan, all, others.len() as int, all.len() as int);
    assert(all.subrange(0, others.len() as int) =~= others);
    assert(all.subrange(others.len() as int, all.len() as int) =~= inside);
    plan.lemma_painted_found(others);
    plan.lemma_painted_found(inside);
    // No other file is counted in it.
    assert(!plan.touched(others, p, tag)) by {
        if plan.touched(others, p, tag) {
            let w = choose|w: int|
                0 <= w < others.len() && under(plan.spot(#[trigger] others[w]), p) && plan.label(others[w]) == tag;
            plan.lemma_spot(others[w]);
            if beyond(plan.root, others[w].path) > plan.depth {
                assert(p.comps =~= others[w].path.comps.take(p.comps.len() as int)) by {
                    assert forall|k: int| 0 <= k < p.comps.len() implies p.comps[k] == others[w].path.comps[k] by {
                        assert(p.comps[k] == plan.spot(others[w]).comps[k]);
                    }
                }
                assert(under(others[w].path, p));
            }
        }
    }
    plan.lemma_touched_add(others, inside, p, tag);
    assert(plan.touched(all, p, tag));
    assert forall|j: int| 0 <= j < inside.len() implies under((#[trigger] inside[j]).path, p) && inside[j].path != p by {
        if inside[j].path == p {
            plan.lemma_spot(inside[j]);
            assert(all[others.len() + j] == inside[j]);
            assert((plan.at(p, tag))(all[others.len() + j]));
            assert(plan.at_home(all, p, tag));
        }
    }
    plan.lemma_spots_in(inside, p, tag);
    plan.lemma_regrown_whole(f, addr, inside);
    let m = way_end(forest_of(plan, inside), addr.len());
    // What is counted in it is the same.
    plan.lemma_untouched(others, p, tag);
    lemma_sum_if_add(others, inside, plan.below(p, tag), w_size());
    lemma_sum_if_add(others, inside, plan.below(p, tag), w_nfiles());
    let most = deepest(plan, all);
    assert forall|j: int| 0 <= j < all.len() implies plan.spot(#[trigger] all[j]).comps.len() <= most by {
        lemma_deepest(plan, all, j);
    }
    plan.lemma_trees_merge(others, inside, p, tag, most);
    assert(plan.tree(others, p, tag) =~= Seq::<(nat, Node)>::empty());
    plan.lemma_level(inside, p, tag);
    merging_nothing_changes_nothing(plan.level(inside, p, tag));
    assert(n.subtree == m.subtree);
    assert(n == m) by {
        assert(marks(n) == marks(m));
    }
}

proof fn lemma_part_painted(plan: Plan, leaves: Seq<Node>, from: int, to: int)
    requires
        plan.are_painted(leaves),
        0 <= from <= to <= leaves.len(),
    ensures
        plan.are_painted(leaves.subrange(from, to)),
{
    let part = leaves.subrange(from, to);
    plan.lemma_painted_found(leaves);
    plan.lemma_known_part(leaves, from, to);
    assert forall|i: int| 0 <= i < part.len() implies (#[trigger] part[i]).size > 0 && part[i].subtree.len() == 0
        && is_painted(plan.colors, part[i]) by {
        assert(part[i] == leaves[from + i]);
    }
}

} // verus!
