//! Scans that are shared out, and directories that are deflated, need no more
//! room than what is there to count.
use vstd::prelude::*;
use crate::accounting::{
    lemma_sum_if_all, lemma_sum_if_at, lemma_sum_if_le, lemma_sum_if_none, lemma_sum_if_or, sort_keeps_sums,
    sum_if, w_one, w_size, Plan,
};
use crate::actions::{aim_of, deflated_leaves, deflation_fits, deflation_plan, depth_below, in_step, AimView};
use crate::app::AppView;
use crate::assembly::lemma_shuffled_members;
use crate::colors::ColorScheme;
use crate::conservation::forest_conserves;
use crate::detail::is_grown;
use crate::entry::{bare, lemma_sum_add, sum_leaves, sum_nfiles, sum_size, Node};
use crate::forest::{extensions_distinct, forest_of, groups};
use crate::growth::{grown, lemma_grown, settled, tree_of};
use crate::ids::index_of_id;
use crate::journey::lemma_gone_counted;
use crate::keymap::Key;
use crate::leaves::{leaves_all, leaves_below, leaves_conserve, leaves_of};
use crate::lineage::{extensions_of, leaf_tag};
use crate::merge::fuse_fits;
use crate::parallel::{reduced, rounds_fit};
use crate::path::PathView;
use crate::restoring::deflating_leaves_summaries;
use crate::room::{
    all_roomy, forests_roomy, lemma_reach_add, lemma_reach_below, lemma_reach_leaves, lemma_reach_push,
    lemma_reach_sorted, reach, reach_all, reach_below, room_of, roomy, rounds_have_room, sums_are_enough,
};
use crate::roundtrip::{all_bare, are_files, forest_is_sound, lemma_extension_used};
use crate::sharing::{joined, order_makes_no_difference, sharing_makes_no_difference};
use crate::siblings::{offsets, offsets_keep_entries, sort_nodes};
use crate::state::StateView;
use crate::surgery::{adds_up, counted, prune_subtracts, prune_takes_the_selected, pruned};
use crate::whole::{is_any_group, is_typed_group, is_whole, lemma_whole_laid};

verus! {

broadcast use crate::ids::lemma_index_of_id;

/// Entries that count what lies below them have enough on every level.
proof fn lemma_counted_roomy(f: Seq<(nat, Node)>)
    requires
        counted(f),
    ensures
        all_roomy(bare(f)),
    decreases f,
{
    assert forall|i: int| 0 <= i < bare(f).len() implies roomy(#[trigger] bare(f)[i]) by {
        let n = f[i].1;
        assert(counted(n.subtree) && adds_up(n));
        lemma_counted_roomy(n.subtree);
        if n.subtree.len() == 0 {
            assert(bare(n.subtree) =~= Seq::empty());
        }
        assert forall|j: int| 0 <= j < n.subtree.len() implies roomy((#[trigger] n.subtree[j]).1) by {
            assert(bare(n.subtree)[j] == n.subtree[j].1);
        }
    }
}

/// Whether an entry can come to count no more leaves than it does, nor can those
/// below it.
spec fn exact(n: Node) -> bool {
    reach(n) == n.leaves
}

proof fn lemma_exact_sum(s: Seq<Node>)
    requires
        forall|i: int| 0 <= i < s.len() ==> exact(#[trigger] s[i]),
    ensures
        reach_all(s) == sum_leaves(s),
    decreases s.len(),
{
    if s.len() > 0 {
        let d = s.drop_last();
        assert forall|i: int| 0 <= i < d.len() implies exact(#[trigger] d[i]) by {
            assert(d[i] == s[i]);
        }
        lemma_exact_sum(d);
        assert(exact(s[s.len() - 1]));
    }
}

proof fn lemma_settled_exact(n: Node, below: Seq<(nat, Node)>)
    requires
        n.subtree.len() == 0,
        reach_all(bare(below)) == sum_leaves(bare(below)),
    ensures
        exact(settled(n, below)),
{
    lemma_reach_below(below);
    if below.len() == 0 {
        assert(reach_below(n.subtree) == 0);
    } else {
        lemma_reach_leaves(bare(below));
        assert(bare(below).len() == below.len());
    }
}

/// Trees that grow from leaves can come to count no more leaves than they do.
proof fn lemma_tree_exact(m: Map<Key, Seq<Node>>, path: PathView, tag: Option<Seq<u8>>)
    requires
        all_bare(m),
    ensures
        reach_all(bare(tree_of(m, path, tag))) == sum_leaves(bare(tree_of(m, path, tag))),
    decreases m.dom().len(),
{
    let key: Key = (path, tag);
    let t = tree_of(m, path, tag);
    if m.dom().finite() && m.contains_key(key) {
        let rest = m.remove(key);
        let kids = m[key];
        let g = grown(rest, kids, tag);
        lemma_grown(rest, kids, tag);
        assert forall|k: Key, i: int| rest.contains_key(k) && 0 <= i < rest[k].len() implies (
        #[trigger] rest[k][i]).subtree.len() == 0 by {
            assert(m[k][i].subtree.len() == 0);
        }
        assert forall|i: int| 0 <= i < g.len() implies exact(#[trigger] g[i]) by {
            assert(m[key][i].subtree.len() == 0);
            lemma_tree_exact(rest, kids[i].path, tag);
            lemma_settled_exact(kids[i], tree_of(rest, kids[i].path, tag));
        }
        lemma_exact_sum(g);
        lemma_reach_sorted(g);
        sort_keeps_sums(g);
        offsets_keep_entries(sort_nodes(g));
        assert(t == offsets(sort_nodes(g)));
    } else {
        assert(bare(t) =~= Seq::empty());
    }
}

impl Plan {
    proof fn lemma_groups_reach(self, leaves: Seq<Node>, exts: Seq<Seq<u8>>)
        requires
            self.is_scan(leaves),
            are_files(leaves),
            sum_size(leaves) <= usize::MAX,
            sum_nfiles(leaves) <= usize::MAX,
            leaves.len() <= usize::MAX,
            exts.no_duplicates(),
            forall|i: int|
                0 <= i < exts.len() ==> tree_of(
                    self.families(leaves),
                    self.root,
                    Some(#[trigger] exts[i]),
                ).len() > 0,
        ensures
            reach_all(groups(self.colors, self.root, self.families(leaves), exts)) <= sum_if(
                leaves,
                self.tagged_any(exts),
                w_one(),
            ),
        decreases exts.len(),
    {
        let m = self.families(leaves);
        let g = groups(self.colors, self.root, m, exts);
        let all = self.tagged_any(exts);
        if exts.len() == 0 {
            lemma_sum_if_none(leaves, all, w_one());
        } else {
            let d = exts.drop_last();
            let n = exts.len() - 1;
            assert forall|i: int| 0 <= i < d.len() implies tree_of(
                self.families(leaves),
                self.root,
                Some(#[trigger] d[i]),
            ).len() > 0 by {
                assert(exts[i] == d[i]);
            }
            self.lemma_groups_reach(leaves, d);
            assert(g.drop_last() =~= groups(self.colors, self.root, m, d));
            let before = self.tagged_any(d);
            let last = |x: Node| leaf_tag(self.xray, x.path) == Some(exts[n]);
            assert forall|j: int| 0 <= j < leaves.len() implies !(before(#[trigger] leaves[j]) && last(
                leaves[j],
            )) && all(leaves[j]) == (before(leaves[j]) || last(leaves[j])) by {
                let x = leaves[j];
                if before(x) {
                    let i = choose|i: int|
                        0 <= i < d.len() && leaf_tag(self.xray, x.path) == Some(#[trigger] d[i]);
                    assert(exts[i] == d[i]);
                    assert(exts[i] != exts[n]);
                }
                if all(x) {
                    let i = choose|i: int|
                        0 <= i < exts.len() && leaf_tag(self.xray, x.path) == Some(#[trigger] exts[i]);
                    if i < n {
                        assert(d[i] == exts[i]);
                    }
                }
            }
            lemma_sum_if_or(leaves, before, last, all, w_one());
            let below = tree_of(m, self.root, Some(exts[n]));
            self.lemma_tree_reach(leaves, Some(exts[n]));
            lemma_reach_below(below);
            assert(below.len() > 0);
            lemma_reach_leaves(bare(below));
            lemma_sum_if_le(
                leaves,
                self.below(self.root, Some(exts[n])),
                last,
                w_one(),
            );
        }
    }

    proof fn lemma_tree_reach(self, leaves: Seq<Node>, tag: Option<Seq<u8>>)
        requires
            self.is_scan(leaves),
            are_files(leaves),
            sum_size(leaves) <= usize::MAX,
            sum_nfiles(leaves) <= usize::MAX,
            leaves.len() <= usize::MAX,
        ensures
            ({
                let t = tree_of(self.families(leaves), self.root, tag);
                &&& reach_all(bare(t)) == sum_leaves(bare(t))
                &&& reach_all(bare(t)) <= sum_if(leaves, self.below(self.root, tag), w_one())
            }),
    {
        self.lemma_kept(leaves);
        self.lemma_families_bare(leaves);
        lemma_tree_exact(self.families(leaves), self.root, tag);
        self.lemma_growth_fits(leaves, self.root, tag);
    }
}

/// The forest of scanned files can come to count no more leaves than there are
/// files.
proof fn lemma_scan_reach(plan: Plan, leaves: Seq<Node>)
    requires
        plan.is_scan(leaves),
        are_files(leaves),
        sum_size(leaves) <= usize::MAX,
        sum_nfiles(leaves) <= usize::MAX,
        leaves.len() <= usize::MAX,
    ensures
        reach_all(bare(forest_of(plan, leaves))) <= leaves.len(),
{
    let m = plan.families(leaves);
    if plan.xray {
        let exts = extensions_of(true, leaves);
        let g = groups(plan.colors, plan.root, m, exts);
        extensions_distinct(true, leaves);
        forest_is_sound(plan, leaves);
        assert forall|i: int| 0 <= i < exts.len() implies tree_of(m, plan.root, Some(#[trigger] exts[i])).len()
            > 0 by {
            let below = tree_of(m, plan.root, Some(exts[i]));
            let j = lemma_extension_used(leaves, i);
            plan.lemma_tag_conserved(leaves, Some(exts[i]));
            plan.lemma_spot(leaves[j]);
            lemma_sum_if_at(
                leaves,
                plan.below(plan.root, Some(exts[i])),
                w_size(),
                j,
            );
            assert(leaves[j].size > 0);
            if below.len() == 0 {
                assert(bare(below) =~= Seq::empty());
            }
        }
        plan.lemma_groups_reach(leaves, exts);
        lemma_sum_if_all(leaves, plan.tagged_any(exts));
        lemma_reach_sorted(g);
        offsets_keep_entries(sort_nodes(g));
    } else {
        plan.lemma_tree_reach(leaves, None);
        lemma_sum_if_all(leaves, plan.below(plan.root, None));
    }
}

proof fn lemma_scan_halves(plan: Plan, a: Seq<Node>, b: Seq<Node>)
    requires
        plan.is_scan(a + b),
        are_files(a + b),
    ensures
        plan.is_scan(a),
        plan.is_scan(b),
        are_files(a),
        are_files(b),
{
    let all = a + b;
    assert forall|i: int| 0 <= i < a.len() implies #[trigger] a[i] == all[i] by {}
    assert forall|i: int| 0 <= i < b.len() implies #[trigger] b[i] == all[a.len() + i] by {}
}

/// The forests that workers make of their shares, as a list.
pub open spec fn shared_forests(plan: Plan, shares: Seq<Seq<Node>>) -> Seq<Seq<(nat, Node)>> {
    shares.map_values(|share: Seq<Node>| forest_of(plan, share))
}

proof fn lemma_shares_room(plan: Plan, shares: Seq<Seq<Node>>)
    requires
        plan.is_scan(joined(shares)),
        are_files(joined(shares)),
        sum_size(joined(shares)) <= usize::MAX,
        sum_nfiles(joined(shares)) <= usize::MAX,
        joined(shares).len() <= usize::MAX,
    ensures
        ({
            let fs = shared_forests(plan, shares);
            &&& forests_roomy(fs)
            &&& room_of(fs).0 == sum_size(joined(shares))
            &&& room_of(fs).1 == sum_nfiles(joined(shares))
            &&& room_of(fs).2 <= joined(shares).len()
        }),
    decreases shares.len(),
{
    let fs = shared_forests(plan, shares);
    if shares.len() > 0 {
        let d = shares.drop_last();
        let last = shares.last();
        lemma_scan_halves(plan, joined(d), last);
        lemma_sum_add(joined(d), last);
        lemma_shares_room(plan, d);
        assert(fs.drop_last() =~= shared_forests(plan, d));
        forest_is_sound(plan, last);
        lemma_counted_roomy(forest_of(plan, last));
        forest_conserves(plan, last);
        lemma_scan_reach(plan, last);
        assert forall|i: int| 0 <= i < fs.len() implies all_roomy(bare(#[trigger] fs[i])) by {
            if i < d.len() {
                assert(fs[i] == shared_forests(plan, d)[i]);
            }
        }
    }
}

/// Merging what workers make of the files of a scan never counts too much, if
/// what there is to count fits in a machine word.
pub proof fn shares_have_room(plan: Plan, shares: Seq<Seq<Node>>)
    requires
        plan.is_scan(joined(shares)),
        are_files(joined(shares)),
        sum_size(joined(shares)) <= usize::MAX,
        sum_nfiles(joined(shares)) <= usize::MAX,
        joined(shares).len() <= usize::MAX,
    ensures
        rounds_fit(shared_forests(plan, shares)),
{
    lemma_shares_room(plan, shares);
    rounds_have_room(shared_forests(plan, shares));
}

/// However many workers the files of a scan are shared out among, and whichever
/// of them gets which file, merging what they make counts nothing that does not
/// fit in a machine word, and gives the forest of all files, as long as what there
/// is to count fits and no two extensions have one group.
pub proof fn workers_make_the_forest(plan: Plan, leaves: Seq<Node>, shares: Seq<Seq<Node>>)
    requires
        plan.are_found(leaves),
        plan.groups_differ(leaves),
        are_files(leaves),
        joined(shares).to_multiset() == leaves.to_multiset(),
        sum_size(leaves) <= usize::MAX,
        sum_nfiles(leaves) <= usize::MAX,
        leaves.len() <= usize::MAX,
    ensures
        rounds_fit(shared_forests(plan, shares)),
        reduced(shared_forests(plan, shares)) == forest_of(plan, leaves),
{
    let all = joined(shares);
    plan.lemma_shuffled_found(leaves, all);
    lemma_shuffled_members(all, leaves);
    assert forall|i: int| 0 <= i < all.len() implies (#[trigger] all[i]).size > 0 && all[i].subtree.len() == 0 by {
        assert(leaves.contains(all[i]));
        let j = choose|j: int| 0 <= j < leaves.len() && leaves[j] == all[i];
        assert(leaves[j].size > 0);
    }
    order_makes_no_difference(plan, leaves, all);
    forest_conserves(plan, leaves);
    forest_conserves(plan, all);
    shares_have_room(plan, shares);
    sharing_makes_no_difference(plan, leaves, shares);
}

proof fn lemma_leaves_reach(n: Node)
    ensures
        leaves_of(n).len() <= reach(n),
    decreases n, 0nat,
{
    if n.subtree.len() > 0 {
        lemma_leaves_reach_below(n.subtree);
    }
}

proof fn lemma_leaves_reach_below(f: Seq<(nat, Node)>)
    ensures
        leaves_below(f).len() <= reach_below(f),
    decreases f, f.len(),
{
    if f.len() > 0 {
        assert(decreases_to!(f => f.drop_last()));
        lemma_leaves_reach_below(f.drop_last());
        lemma_leaves_reach(f.last().1);
    }
}

proof fn lemma_leaves_reach_all(s: Seq<Node>)
    ensures
        leaves_all(s).len() <= reach_all(s),
    decreases s.len(),
{
    if s.len() > 0 {
        lemma_leaves_reach_all(s.skip(1));
        lemma_leaves_reach(s[0]);
        assert(s =~= seq![s[0]] + s.skip(1));
        lemma_reach_add(seq![s[0]], s.skip(1));
        assert(seq![s[0]] =~= Seq::empty().push(s[0]));
        lemma_reach_push(Seq::empty(), s[0]);
    }
}

/// Whether every entry with nothing below it counts one leaf.
pub open spec fn tipped(f: Seq<(nat, Node)>) -> bool
    decreases f,
{
    forall|i: int|
        0 <= i < f.len() ==> tipped((#[trigger] f[i]).1.subtree) && (f[i].1.subtree.len() == 0
            ==> f[i].1.leaves == 1)
}

proof fn lemma_tipped_exact(f: Seq<(nat, Node)>)
    requires
        counted(f),
        tipped(f),
    ensures
        forall|i: int| 0 <= i < f.len() ==> exact((#[trigger] f[i]).1),
        reach_all(bare(f)) == sum_leaves(bare(f)),
    decreases f,
{
    assert forall|i: int| 0 <= i < f.len() implies exact((#[trigger] f[i]).1) by {
        let n = f[i].1;
        assert(counted(n.subtree) && adds_up(n) && tipped(n.subtree));
        lemma_tipped_exact(n.subtree);
        lemma_reach_below(n.subtree);
        lemma_reach_leaves(bare(n.subtree));
        assert(bare(n.subtree).len() == n.subtree.len());
    }
    assert forall|i: int| 0 <= i < bare(f).len() implies exact(#[trigger] bare(f)[i]) by {
        assert(exact(f[i].1));
    }
    lemma_exact_sum(bare(f));
}

proof fn lemma_grown_tipped(colors: ColorScheme, f: Seq<(nat, Node)>, path: PathView, tag: Option<Seq<u8>>)
    requires
        is_grown(colors, f, path, tag),
    ensures
        tipped(f),
    decreases f,
{
    assert forall|i: int| 0 <= i < f.len() implies tipped((#[trigger] f[i]).1.subtree) && (f[i].1.subtree.len()
        == 0 ==> f[i].1.leaves == 1) by {
        lemma_grown_tipped(colors, f[i].1.subtree, f[i].1.path, tag);
    }
}

proof fn lemma_whole_tipped(colors: ColorScheme, f: Seq<(nat, Node)>, root: PathView, xray: bool)
    requires
        is_whole(colors, f, root, xray),
    ensures
        tipped(f),
{
    if xray {
        assert forall|i: int| 0 <= i < f.len() implies tipped((#[trigger] f[i]).1.subtree) && (
        f[i].1.subtree.len() == 0 ==> f[i].1.leaves == 1) by {
            assert(is_any_group(colors, f[i].1, root));
            let ext = choose|ext: Seq<u8>| #[trigger] is_typed_group(colors, f[i].1, root, ext);
            lemma_grown_tipped(colors, f[i].1.subtree, root, Some(ext));
        }
    } else {
        lemma_grown_tipped(colors, f, root, None);
    }
}

proof fn lemma_reach_split(f: Seq<(nat, Node)>, i: int)
    requires
        0 <= i < f.len(),
    ensures
        reach_all(bare(f)) == reach_all(bare(f.take(i))) + reach(f[i].1) + reach_all(bare(f.skip(i + 1))),
{
    let s = bare(f);
    assert(s =~= bare(f.take(i)).push(f[i].1) + bare(f.skip(i + 1)));
    lemma_reach_add(bare(f.take(i)).push(f[i].1), bare(f.skip(i + 1)));
    lemma_reach_push(bare(f.take(i)), f[i].1);
}

/// Without an entry a forest can come to count one leaf more than without the
/// leaves of the entry: that of a directory which is left empty.
proof fn lemma_pruned_reach(f: Seq<(nat, Node)>, addr: Seq<usize>)
    requires
        counted(f),
        tipped(f),
        pruned(f, addr) is Some,
    ensures
        ({
            let (rest, gone) = pruned(f, addr)->0;
            &&& exact(gone)
            &&& reach_all(bare(rest)) + gone.leaves <= reach_all(bare(f)) + 1
        }),
    decreases addr.len(),
{
    let i = index_of_id(f, addr[0] as nat);
    let n = f[i].1;
    let (rest, gone) = pruned(f, addr)->0;
    assert(counted(n.subtree) && adds_up(n) && tipped(n.subtree));
    lemma_tipped_exact(f);
    lemma_reach_split(f, i);
    match pruned(n.subtree, addr.skip(1)) {
        None => {
            assert(rest =~= f.take(i) + f.skip(i + 1));
            assert(bare(rest) =~= bare(f.take(i)) + bare(f.skip(i + 1)));
            lemma_reach_add(bare(f.take(i)), bare(f.skip(i + 1)));
        },
        Some((sub, _)) => {
            lemma_pruned_reach(n.subtree, addr.skip(1));
            prune_subtracts(n.subtree, addr.skip(1));
            lemma_reach_below(n.subtree);
            lemma_reach_below(sub);
            lemma_tipped_exact(n.subtree);
            lemma_reach_split(rest, i);
            assert(rest.take(i) =~= f.take(i));
            assert(rest.skip(i + 1) =~= f.skip(i + 1));
            assert(n.subtree.len() > 0);
            assert(n.leaves == sum_leaves(bare(n.subtree)));
        },
    }
}

/// Putting the forest of scanned files where an entry was taken out of a forest
/// counts nothing that does not fit in a machine word, if what stays of the forest
/// and the files count together what fits, with one leaf to spare.
pub proof fn regrowing_has_room(f: Seq<(nat, Node)>, addr: Seq<usize>, plan: Plan, leaves: Seq<Node>)
    requires
        counted(f),
        tipped(f),
        pruned(f, addr) is Some,
        plan.is_scan(leaves),
        are_files(leaves),
        ({
            let rest = bare((pruned(f, addr)->0).0);
            &&& sum_size(rest) + sum_size(leaves) <= usize::MAX
            &&& sum_nfiles(rest) + sum_nfiles(leaves) <= usize::MAX
            &&& sum_leaves(rest) + leaves.len() < usize::MAX
        }),
    ensures
        fuse_fits(bare((pruned(f, addr)->0).0) + bare(forest_of(plan, leaves))),
{
    let (rest, gone) = pruned(f, addr)->0;
    let t = forest_of(plan, leaves);
    lemma_tipped_exact(f);
    prune_subtracts(f, addr);
    lemma_pruned_reach(f, addr);
    lemma_scan_reach(plan, leaves);
    forest_is_sound(plan, leaves);
    forest_conserves(plan, leaves);
    lemma_counted_roomy(t);
    lemma_counted_roomy(rest);
    let both = bare(rest) + bare(t);
    assert forall|i: int| 0 <= i < both.len() implies roomy(#[trigger] both[i]) by {
        if i < rest.len() {
            assert(both[i] == bare(rest)[i]);
        } else {
            assert(both[i] == bare(t)[i - rest.len()]);
        }
    }
    lemma_sum_add(bare(rest), bare(t));
    lemma_reach_add(bare(rest), bare(t));
    sums_are_enough(both);
}

/// Deflating a directory counts nothing that does not fit in a machine word, if
/// the counts of the forest add up and fit, with one leaf to spare.
pub proof fn deflating_has_room(a: AppView, s: StateView, root: PathView, aim: AimView)
    requires
        counted(a.entries.tree),
        tipped(a.entries.tree),
        in_step(a, s),
        aim_of(a.entries, s) == Some(aim),
        deflation_plan(a, s, root, aim).is_scan(deflated_leaves(a, aim)),
        are_files(deflated_leaves(a, aim)),
        sum_size(bare(a.entries.tree)) <= usize::MAX,
        sum_nfiles(bare(a.entries.tree)) <= usize::MAX,
        sum_leaves(bare(a.entries.tree)) < usize::MAX,
    ensures
        deflation_fits(a, s, root, aim),
{
    let f = a.entries.tree;
    prune_takes_the_selected(f, aim.selection);
    let (rest, gone) = pruned(f, aim.selection)->0;
    assert(gone.subtree.len() > 0);
    lemma_gone_counted(f, aim.selection);
    leaves_conserve(gone.subtree);
    prune_subtracts(f, aim.selection);
    lemma_pruned_reach(f, aim.selection);
    lemma_leaves_reach_all(bare(gone.subtree));
    lemma_reach_below(gone.subtree);
    assert(deflated_leaves(a, aim).len() <= gone.leaves);
    regrowing_has_room(f, aim.selection, deflation_plan(a, s, root, aim), deflated_leaves(a, aim));
}

/// A directory of a scanned forest can be deflated, if what the forest counts
/// fits in a machine word, with one leaf to spare.
pub proof fn scanned_forests_deflate(a: AppView, s: StateView, aim: AimView)
    requires
        is_whole(a.colors, a.entries.tree, s.root, a.args.xray),
        in_step(a, s),
        aim_of(a.entries, s) == Some(aim),
        sum_size(bare(a.entries.tree)) <= usize::MAX,
        sum_nfiles(bare(a.entries.tree)) <= usize::MAX,
        sum_leaves(bare(a.entries.tree)) < usize::MAX,
    ensures
        depth_below(s.root, aim.path) is Some,
        deflation_fits(a, s, s.root, aim),
{
    let f = a.entries.tree;
    deflating_leaves_summaries(a, s, aim);
    lemma_whole_laid(a.colors, f, s.root, a.args.xray);
    lemma_whole_tipped(a.colors, f, s.root, a.args.xray);
    prune_takes_the_selected(f, aim.selection);
    deflation_plan(a, s, s.root, aim).lemma_leaves_whole(f, aim.selection);
    deflating_has_room(a, s, s.root, aim);
}

} // verus!
