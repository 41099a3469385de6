//! Switching to x-ray mode and back.
use vstd::prelude::*;
use crate::accounting::Plan;
use crate::actions::{switch_begun, switch_leaves, switch_root};
use crate::app::AppView;
use crate::assembly::lemma_shuffled_members;
use crate::colors::ColorScheme;
use crate::detail::{
    grown_at, is_forest, is_grown, is_painted, lemma_resolved_forest, lemma_resolved_under,
    lemma_under_through,
};
use crate::entry::{bare, lemma_sum_one, Node};
use crate::forest::forest_of;
use crate::growth::{lemma_under_child, under};
use crate::ids::{has_id, index_of_id, ordered};
use crate::journey::lemma_last_met;
use crate::leaves::{leaves_all, leaves_are_leaves, leaves_below, leaves_of};
use crate::lineage::{beyond, dir_node};
use crate::path::PathView;
use crate::rebuilding::{lemma_leaves_split, lemma_leaves_turned, rebuilding_changes_nothing};
use crate::roundtrip::{as_leaf, as_leaves, leaves_come_back};
use crate::state::{AppMode, FocusView, StateView};
use crate::surgery::{adds_up, counted, nats, prune_takes_the_selected, pruned, resolve};

verus! {

broadcast use crate::ids::lemma_index_of_id;

/// Another entry in the place of one changes the leaves of a list by theirs.
proof fn lemma_leaves_swapped(s: Seq<Node>, i: int, x: Node)
    requires
        0 <= i < s.len(),
    ensures
        leaves_all(s.update(i, x)).to_multiset().add(leaves_of(s[i]).to_multiset()) == leaves_all(
            s,
        ).to_multiset().add(leaves_of(x).to_multiset()),
{
    let u = s.update(i, x);
    lemma_leaves_split(s, i);
    lemma_leaves_split(u, i);
    assert(u.take(i) =~= s.take(i));
    assert(u.skip(i + 1) =~= s.skip(i + 1));
    let a = leaves_all(s.take(i));
    let b = leaves_all(s.skip(i + 1));
    lemma_three(a, leaves_of(s[i]), b);
    lemma_three(a, leaves_of(x), b);
    assert(leaves_all(u).to_multiset().add(leaves_of(s[i]).to_multiset()) =~= leaves_all(s).to_multiset().add(
        leaves_of(x).to_multiset(),
    ));
}

/// A list without an entry lacks its leaves.
proof fn lemma_leaves_removed(s: Seq<Node>, i: int)
    requires
        0 <= i < s.len(),
    ensures
        leaves_all(s.remove(i)).to_multiset().add(leaves_of(s[i]).to_multiset()) == leaves_all(s).to_multiset(),
{
    lemma_leaves_split(s, i);
    let a = leaves_all(s.take(i));
    let b = leaves_all(s.skip(i + 1));
    lemma_leaves_joined(s.take(i), s.skip(i + 1));
    assert(s.remove(i) =~= s.take(i) + s.skip(i + 1));
    lemma_three(a, leaves_of(s[i]), b);
    vstd::seq_lib::lemma_multiset_commutative(a, b);
    assert(leaves_all(s.remove(i)).to_multiset().add(leaves_of(s[i]).to_multiset()) =~= leaves_all(
        s,
    ).to_multiset());
}

proof fn lemma_leaves_joined(a: Seq<Node>, b: Seq<Node>)
    ensures
        leaves_all(a + b) == leaves_all(a) + leaves_all(b),
    decreases a.len(),
{
    if a.len() == 0 {
        assert(a + b =~= b);
        assert(leaves_all(a) + leaves_all(b) =~= leaves_all(b));
    } else {
        lemma_leaves_joined(a.skip(1), b);
        assert((a + b).skip(1) =~= a.skip(1) + b);
        assert((a + b)[0] == a[0]);
        assert(leaves_all(a + b) =~= leaves_all(a) + leaves_all(b));
    }
}

proof fn lemma_three(a: Seq<Node>, b: Seq<Node>, c: Seq<Node>)
    ensures
        (a + b + c).to_multiset() == a.to_multiset().add(b.to_multiset()).add(c.to_multiset()),
{
    vstd::seq_lib::lemma_multiset_commutative(a + b, c);
    vstd::seq_lib::lemma_multiset_commutative(a, b);
}

/// The directories that nothing is left in when an entry is taken out: the one that
/// held it, if it held nothing else.
pub open spec fn hollowed(f: Seq<(nat, Node)>, addr: Seq<usize>) -> Seq<Node>
    decreases addr.len(),
{
    if addr.len() <= 1 {
        Seq::empty()
    } else {
        let i = index_of_id(f, addr[0] as nat);
        let below = (pruned(f[i].1.subtree, addr.skip(1))->0).0;
        if below.len() == 0 {
            seq![(pruned(f, addr)->0).0[i].1]
        } else {
            hollowed(f[i].1.subtree, addr.skip(1))
        }
    }
}

proof fn lemma_pruned_len(f: Seq<(nat, Node)>, addr: Seq<usize>)
    requires
        ordered(f),
        resolve(f, nats(addr)) is Some,
    ensures
        pruned(f, addr) is Some,
        (pruned(f, addr)->0).0.len() == f.len() - if addr.len() == 1 {
            1int
        } else {
            0int
        },
{
    let i = index_of_id(f, addr[0] as nat);
    let more = addr.skip(1);
    prune_takes_the_selected(f, addr);
    assert(nats(addr)[0] == addr[0] as nat);
    assert(nats(addr).skip(1) =~= nats(more));
    assert(has_id(f, addr[0] as nat));
    if addr.len() > 1 {
        assert(ordered(f[i].1.subtree));
        prune_takes_the_selected(f[i].1.subtree, more);
    }
}

/// Taking an entry out of a forest takes its leaves out. A directory in which
/// nothing is left becomes a leaf.
proof fn lemma_leaves_pruned(f: Seq<(nat, Node)>, addr: Seq<usize>)
    requires
        ordered(f),
        resolve(f, nats(addr)) is Some,
    ensures
        ({
            let (rest, gone) = pruned(f, addr)->0;
            &&& pruned(f, addr) is Some
            &&& gone == resolve(f, nats(addr))->0
            &&& leaves_all(bare(rest)).to_multiset().add(leaves_of(gone).to_multiset()) == leaves_all(
                bare(f),
            ).to_multiset().add(hollowed(f, addr).to_multiset())
        }),
    decreases addr.len(),
{
    let i = index_of_id(f, addr[0] as nat);
    let n = f[i].1;
    let more = addr.skip(1);
    prune_takes_the_selected(f, addr);
    assert(nats(addr)[0] == addr[0] as nat);
    assert(nats(addr).skip(1) =~= nats(more));
    assert(has_id(f, addr[0] as nat));
    let (rest, gone) = pruned(f, addr)->0;
    let s = bare(f);
    let none = Seq::<Node>::empty();
    none.to_multiset_ensures();
    if addr.len() == 1 {
        assert(bare(rest) =~= s.remove(i));
        lemma_leaves_removed(s, i);
        assert(hollowed(f, addr).to_multiset() =~= vstd::multiset::Multiset::empty());
        assert(leaves_all(s).to_multiset().add(hollowed(f, addr).to_multiset()) =~= leaves_all(s).to_multiset());
    } else {
        assert(ordered(n.subtree));
        assert(resolve(f, nats(addr)) == resolve(n.subtree, nats(addr).skip(1)));
        assert(has_id(n.subtree, nats(more)[0]));
        lemma_leaves_pruned(n.subtree, more);
        let (below, _) = pruned(n.subtree, more)->0;
        let less = rest[i].1;
        assert(less.subtree == below);
        assert(bare(rest) =~= s.update(i, less));
        assert(s[i] == n);
        lemma_leaves_swapped(s, i, less);
        lemma_leaves_turned(n.subtree);
        lemma_leaves_turned(below);
        let all = leaves_all(s).to_multiset();
        let own = leaves_of(n).to_multiset();
        let left = leaves_of(less).to_multiset();
        let got = leaves_of(gone).to_multiset();
        let kept = leaves_all(bare(rest)).to_multiset();
        let h = hollowed(f, addr).to_multiset();
        assert(kept.add(own) == all.add(left));
        assert(own == leaves_all(bare(n.subtree)).to_multiset());
        if below.len() == 0 {
            assert(leaves_of(less) =~= seq![less]);
            assert(hollowed(f, addr) =~= seq![less]);
            assert(left == h);
            lemma_pruned_len(n.subtree, more);
            assert(more.len() == 1);
            assert(bare(below) =~= Seq::empty());
            assert(leaves_all(bare(below)) =~= none);
            assert(hollowed(n.subtree, more) =~= none);
            assert(got =~= own) by {
                assert(leaves_all(bare(below)).to_multiset().add(got) == own.add(
                    hollowed(n.subtree, more).to_multiset(),
                ));
                assert(none.to_multiset() =~= vstd::multiset::Multiset::empty());
            }
            assert(kept.add(got) =~= all.add(h));
        } else {
            assert(left == leaves_all(bare(below)).to_multiset());
            assert(left.add(got) == own.add(h));
            assert(kept.add(got) =~= all.add(h)) by {
                assert forall|v: Node| #[trigger] kept.add(got).count(v) == all.add(h).count(v) by {
                    assert(kept.add(own).count(v) == all.add(left).count(v));
                    assert(left.add(got).count(v) == own.add(h).count(v));
                }
            }
        }
    }
}

/// A directory in which nothing is left is an empty directory, and held what was
/// taken out.
proof fn lemma_hollowed(colors: ColorScheme, f: Seq<(nat, Node)>, addr: Seq<usize>, path: PathView)
    requires
        is_forest(colors, f, path, None),
        resolve(f, nats(addr)) is Some,
    ensures
        ({
            let h = hollowed(f, addr);
            let gone = resolve(f, nats(addr))->0;
            &&& h.len() <= 1
            &&& h.len() == 1 ==> h[0] == dir_node(colors, h[0].path, None) && gone.path.parent() == Some(h[0].path)
                && under(h[0].path, path) && h[0].path != path
        }),
    decreases addr.len(),
{
    let i = index_of_id(f, addr[0] as nat);
    let n = f[i].1;
    let more = addr.skip(1);
    prune_takes_the_selected(f, addr);
    assert(nats(addr)[0] == addr[0] as nat);
    assert(nats(addr).skip(1) =~= nats(more));
    assert(has_id(f, addr[0] as nat));
    if addr.len() > 1 {
        let gone = resolve(f, nats(addr))->0;
        lemma_resolved_under(colors, f, addr, path, None);
        assert(grown_at(colors, f[i].1, path, None));
        assert(ordered(f[i].1.subtree) && counted(f[i].1.subtree) && adds_up(f[i].1));
        assert(crate::graft::laid_out(f[i].1.subtree) && crate::surgery::sized(f[i].1.subtree));
        prune_takes_the_selected(n.subtree, more);
        let (below, _) = pruned(n.subtree, more)->0;
        assert(under(n.path, n.path));
        lemma_under_child(n.path, n.path, path);
        if below.len() == 0 {
            assert(nats(more)[0] == more[0] as nat);
            assert(has_id(n.subtree, more[0] as nat));
            lemma_pruned_len(n.subtree, more);
            assert(more.len() == 1);
            assert(n.subtree.len() == 1);
            assert(n.subtree[0].1 == gone);
            assert(bare(n.subtree) =~= seq![gone]);
            lemma_sum_one(gone);
            let less = (pruned(f, addr)->0).0[i].1;
            assert(less.subtree =~= Seq::empty());
            assert(is_grown(colors, f[i].1.subtree, f[i].1.path, None));
            assert(grown_at(colors, n.subtree[0].1, n.path, None));
            assert(less == dir_node(colors, n.path, None));
        } else {
            lemma_hollowed(colors, n.subtree, more, n.path);
            if hollowed(n.subtree, more).len() == 1 {
                lemma_under_child(hollowed(n.subtree, more)[0].path, n.path, path);
            }
        }
    }
}

/// How the leaves are arranged that a switch builds the forest of: to any depth.
pub open spec fn switch_plan(a: AppView, root: PathView, xray: bool) -> Plan {
    Plan { colors: a.colors, root, depth: usize::MAX as nat, xray }
}

impl Plan {
    /// Leaves of a scan, and an empty directory above some of them, make the trees
    /// that the leaves make alone.
    proof fn lemma_hollow_trees(self, leaves: Seq<Node>, h: Seq<Node>, all: Seq<Node>, path: PathView)
        requires
            !self.xray,
            self.are_painted(leaves),
            self.is_shallow(leaves),
            h.len() <= 1,
            all.to_multiset() == leaves.to_multiset().add(h.to_multiset()),
            h.len() == 1 ==> self.is_hollow(h[0]) && under(h[0].path, self.root) && h[0].path != self.root,
            h.len() == 1 ==> exists|j: int|
                0 <= j < leaves.len() && under((#[trigger] leaves[j]).path, h[0].path) && leaves[j].path
                    != h[0].path,
        ensures
            self.tree(all, path, None) == self.tree(leaves, path, None),
    {
        let whole = leaves + h;
        vstd::seq_lib::lemma_multiset_commutative(leaves, h);
        lemma_shuffled_members(all, whole);
        lemma_shuffled_members(whole, all);
        assert forall|i: int| 0 <= i < leaves.len() implies !self.is_hollow(#[trigger] leaves[i]) by {
            assert(leaves[i].size > 0);
        }
        // Nothing lies below a file.
        assert forall|i: int, j: int| 0 <= i < whole.len() && 0 <= j < whole.len() && i != j && !self.is_hollow(
            whole[i],
        ) implies !under((#[trigger] whole[j]).path, (#[trigger] whole[i]).path) by {
            if i < leaves.len() && j < leaves.len() {
                assert(whole[i] == leaves[i] && whole[j] == leaves[j]);
            } else if i < leaves.len() {
                assert(whole[i] == leaves[i] && whole[j] == h[0]);
                if under(h[0].path, leaves[i].path) {
                    let w = choose|w: int|
                        0 <= w < leaves.len() && under((#[trigger] leaves[w]).path, h[0].path) && leaves[w].path
                            != h[0].path;
                    lemma_under_through(leaves[w].path, h[0].path, leaves[i].path);
                    if w == i {
                        assert(leaves[w].path.comps =~= h[0].path.comps);
                    }
                }
            } else {
                assert(whole[i] == h[0]);
            }
        }
        assert(whole.no_duplicates()) by {
            assert forall|i: int, j: int| 0 <= i < whole.len() && 0 <= j < whole.len() && i != j implies whole[i]
                != whole[j] by {
                assert(under(whole[i].path, whole[i].path));
                if i < leaves.len() {
                    assert(whole[i] == leaves[i]);
                    assert(!under(whole[j].path, whole[i].path));
                } else {
                    assert(whole[j] == leaves[j]);
                    assert(!under(whole[i].path, whole[j].path));
                }
            }
        }
        whole.lemma_multiset_has_no_duplicates();
        all.lemma_multiset_has_no_duplicates_conv();
        assert forall|i: int| 0 <= i < whole.len() implies under((#[trigger] whole[i]).path, self.root)
            && whole[i].path != self.root && beyond(self.root, whole[i].path) <= self.depth by {
            if i < leaves.len() {
                assert(whole[i] == leaves[i]);
            } else {
                assert(whole[i] == h[0]);
                let w = choose|w: int|
                    0 <= w < leaves.len() && under((#[trigger] leaves[w]).path, h[0].path) && leaves[w].path
                        != h[0].path;
                assert(beyond(self.root, leaves[w].path) <= self.depth);
            }
        }
        assert forall|i: int| 0 <= i < all.len() implies under((#[trigger] all[i]).path, self.root) && all[i].path
            != self.root && beyond(self.root, all[i].path) <= self.depth by {
            assert(whole.contains(all[i]));
            let p = choose|p: int| 0 <= p < whole.len() && whole[p] == all[i];
            assert(under(whole[p].path, self.root));
        }
        assert forall|i: int, j: int| 0 <= i < all.len() && 0 <= j < all.len() && i != j && !self.is_hollow(
            all[i],
        ) implies !under((#[trigger] all[j]).path, (#[trigger] all[i]).path) by {
            assert(all[i] != all[j]);
            assert(whole.contains(all[i]) && whole.contains(all[j]));
            let p = choose|p: int| 0 <= p < whole.len() && whole[p] == all[i];
            let q = choose|q: int| 0 <= q < whole.len() && whole[q] == all[j];
            assert(!under(whole[q].path, whole[p].path));
        }
        assert(self.is_loose(all));
        assert forall|i: int, j: int| 0 <= i < leaves.len() && 0 <= j < leaves.len() && i != j && !self.is_hollow(
            leaves[i],
        ) implies !under((#[trigger] leaves[j]).path, (#[trigger] leaves[i]).path) by {}
        assert(self.is_loose(leaves));
        assert forall|c: PathView| #[trigger] self.entry_at(all, c) == self.entry_at(leaves, c) by {
            if self.has_file(leaves, c) {
                let j = choose|j: int| 0 <= j < leaves.len() && self.is_file_at(#[trigger] leaves[j], c);
                assert(whole[j] == leaves[j]);
                assert(all.contains(whole[j]));
                self.lemma_one_file(all, leaves[j], c);
                assert(leaves.contains(leaves[j]));
                self.lemma_one_file(leaves, leaves[j], c);
            } else if self.has_file(all, c) {
                let j = choose|j: int| 0 <= j < all.len() && self.is_file_at(#[trigger] all[j], c);
                assert(whole.contains(all[j]));
                let p = choose|p: int| 0 <= p < whole.len() && whole[p] == all[j];
                if p < leaves.len() {
                    assert(self.is_file_at(leaves[p], c));
                } else {
                    assert(whole[p] == h[0]);
                }
            }
        }
        assert forall|c: PathView, t: Option<Seq<u8>>| #[trigger] self.touched(all, c, t) == self.touched(
            leaves,
            c,
            t,
        ) by {
            self.lemma_hollow_touched(leaves, h, all, c, t);
        }
        self.lemma_loose_trees(all, leaves, path);
    }

    proof fn lemma_hollow_touched(self, leaves: Seq<Node>, h: Seq<Node>, all: Seq<Node>, c: PathView, t: Option<Seq<u8>>)
        requires
            !self.xray,
            self.is_scan(leaves),
            self.is_shallow(leaves),
            h.len() <= 1,
            all.to_multiset() == leaves.to_multiset().add(h.to_multiset()),
            forall|i: int|
                0 <= i < all.len() ==> under((#[trigger] all[i]).path, self.root) && all[i].path != self.root
                    && beyond(self.root, all[i].path) <= self.depth,
            h.len() == 1 ==> exists|j: int|
                0 <= j < leaves.len() && under((#[trigger] leaves[j]).path, h[0].path) && leaves[j].path
                    != h[0].path,
        ensures
            self.touched(all, c, t) == self.touched(leaves, c, t),
    {
        let whole = leaves + h;
        vstd::seq_lib::lemma_multiset_commutative(leaves, h);
        lemma_shuffled_members(all, whole);
        lemma_shuffled_members(whole, all);
        if self.touched(all, c, t) {
            let j = choose|j: int|
                0 <= j < all.len() && under(self.spot(#[trigger] all[j]), c) && self.label(all[j]) == t;
            self.lemma_spot(all[j]);
            assert(whole.contains(all[j]));
            let p = choose|p: int| 0 <= p < whole.len() && whole[p] == all[j];
            if p < leaves.len() {
                assert(leaves[p] == all[j]);
                assert(under(self.spot(leaves[p]), c));
            } else {
                assert(whole[p] == h[0]);
                let w = choose|w: int|
                    0 <= w < leaves.len() && under((#[trigger] leaves[w]).path, h[0].path) && leaves[w].path
                        != h[0].path;
                self.lemma_spot(leaves[w]);
                assert(beyond(self.root, leaves[w].path) <= self.depth);
                lemma_under_through(leaves[w].path, h[0].path, c);
                assert(under(self.spot(leaves[w]), c));
            }
        }
        if self.touched(leaves, c, t) {
            let j = choose|j: int|
                0 <= j < leaves.len() && under(self.spot(#[trigger] leaves[j]), c) && self.label(leaves[j]) == t;
            assert(whole[j] == leaves[j]);
            assert(all.contains(whole[j]));
            let p = choose|p: int| 0 <= p < all.len() && all[p] == leaves[j];
            assert(under(self.spot(all[p]), c));
        }
    }
}

/// Switching to x-ray mode in any view, and back, restores the forest.
pub proof fn switching_back_restores(a: AppView, s: StateView, init_root: PathView)
    requires
        !a.args.xray,
        a.reserve.len() == 0,
        s.root == a.args.path,
        is_forest(a.colors, a.entries.tree, s.root, None),
        s.skip_view.len() > 0 ==> resolve(a.entries.tree, nats(s.skip_view)) is Some && (resolve(
            a.entries.tree,
            nats(s.skip_view),
        )->0).subtree.len() > 0,
        forall|j: int|
            0 <= j < leaves_all(bare(a.entries.tree)).len() ==> (#[trigger] leaves_all(
                bare(a.entries.tree),
            )[j]).path.comps.len() <= usize::MAX,
    ensures
        ({
            let root = switch_root(a, s, AppMode::Xray, init_root);
            let xrayed = forest_of(switch_plan(a, root, true), switch_leaves(a, s, AppMode::Xray));
            let b = AppView {
                entries: FocusView { tree: xrayed, focus: Seq::empty() },
                ..switch_begun(a, s, AppMode::Xray)
            };
            forest_of(switch_plan(b, a.args.path, false), switch_leaves(b, s, AppMode::Normal)) == a.entries.tree
        }),
{
    let f = a.entries.tree;
    let root = switch_root(a, s, AppMode::Xray, init_root);
    let xplan = switch_plan(a, root, true);
    let plan = switch_plan(a, a.args.path, false);
    let inside = switch_leaves(a, s, AppMode::Xray);
    let reserve = switch_begun(a, s, AppMode::Xray).reserve;
    let xrayed = forest_of(xplan, inside);
    let back = leaves_all(bare(xrayed));
    let all = reserve + back;
    let leaves = leaves_all(bare(f));
    assert(under(a.args.path, plan.root));
    plan.lemma_forest_painted(f, plan.root, None);
    assert forall|j: int| 0 <= j < leaves.len() implies beyond(plan.root, (#[trigger] leaves[j]).path) <= plan.depth by {}
    rebuilding_changes_nothing(plan, f);
    let none = Seq::<Node>::empty();
    none.to_multiset_ensures();
    // The leaves of the view come back.
    lemma_view_leaves(a, s, init_root);
    leaves_come_back(xplan, inside);
    assert(as_leaves(inside) =~= inside) by {
        assert forall|j: int| 0 <= j < inside.len() implies as_leaf(#[trigger] inside[j]) == inside[j] by {
            assert(is_painted(xplan.colors, inside[j]));
        }
    }
    assert(back.to_multiset() == inside.to_multiset());
    vstd::seq_lib::lemma_multiset_commutative(reserve, back);
    if s.skip_view.len() == 0 {
        assert(pruned(f, s.skip_view) is None);
        assert(inside == leaves);
        let rest = Seq::<(nat, Node)>::empty();
        assert(bare(rest) =~= none);
        assert(reserve =~= none);
        assert(all.to_multiset() =~= leaves.to_multiset().add(none.to_multiset()));
        plan.lemma_hollow_trees(leaves, none, all, plan.root);
    } else {
        let addr = s.skip_view;
        let h = hollowed(f, addr);
        let gone = resolve(f, nats(addr))->0;
        lemma_leaves_pruned(f, addr);
        lemma_hollowed(a.colors, f, addr, s.root);
        lemma_leaves_turned(gone.subtree);
        assert(leaves_of(gone) == leaves_below(gone.subtree));
        assert(all.to_multiset() =~= leaves.to_multiset().add(h.to_multiset()));
        if h.len() == 1 {
            leaves_are_leaves(bare(gone.subtree));
            assert(inside.len() > 0);
            lemma_inside_found(f, addr, inside[0]);
            let j = choose|j: int| 0 <= j < leaves.len() && leaves[j] == inside[0];
            assert(under(inside[0].path, gone.path) && inside[0].path != gone.path);
            lemma_under_child(inside[0].path, gone.path, h[0].path);
            assert(under(leaves[j].path, h[0].path) && leaves[j].path != h[0].path);
        }
        plan.lemma_hollow_trees(leaves, h, all, plan.root);
    }
}

/// A leaf below an entry is a leaf of the forest.
proof fn lemma_inside_found(f: Seq<(nat, Node)>, addr: Seq<usize>, x: Node)
    requires
        resolve(f, nats(addr)) is Some,
        (resolve(f, nats(addr))->0).subtree.len() > 0,
        leaves_all(bare((resolve(f, nats(addr))->0).subtree)).contains(x),
    ensures
        leaves_all(bare(f)).contains(x),
    decreases addr.len(),
{
    let i = index_of_id(f, addr[0] as nat);
    let n = f[i].1;
    let more = addr.skip(1);
    assert(nats(addr)[0] == addr[0] as nat);
    assert(nats(addr).skip(1) =~= nats(more));
    assert(has_id(f, addr[0] as nat));
    if addr.len() > 1 {
        assert(resolve(f, nats(addr)) == resolve(n.subtree, nats(addr).skip(1)));
        assert(has_id(n.subtree, nats(more)[0]));
        lemma_inside_found(n.subtree, more, x);
    }
    let s = bare(f);
    assert(s[i] == n);
    lemma_leaves_split(s, i);
    lemma_leaves_turned(n.subtree);
    let c = leaves_all(bare(n.subtree));
    let b = leaves_below(n.subtree);
    lemma_shuffled_members(c, b);
    let k = choose|k: int| 0 <= k < c.len() && c[k] == x;
    assert(b.contains(c[k]));
    let q = choose|q: int| 0 <= q < b.len() && b[q] == x;
    let before = leaves_all(s.take(i));
    assert(leaves_all(s)[before.len() + q] == x);
}

/// The leaves of a view are those of a scan of what it shows.
proof fn lemma_view_leaves(a: AppView, s: StateView, init_root: PathView)
    requires
        s.root == a.args.path,
        is_forest(a.colors, a.entries.tree, s.root, None),
        s.skip_view.len() > 0 ==> resolve(a.entries.tree, nats(s.skip_view)) is Some && (resolve(
            a.entries.tree,
            nats(s.skip_view),
        )->0).subtree.len() > 0,
        forall|j: int|
            0 <= j < leaves_all(bare(a.entries.tree)).len() ==> (#[trigger] leaves_all(
                bare(a.entries.tree),
            )[j]).path.comps.len() <= usize::MAX,
    ensures
        ({
            let root = switch_root(a, s, AppMode::Xray, init_root);
            let xplan = switch_plan(a, root, true);
            let inside = switch_leaves(a, s, AppMode::Xray);
            &&& xplan.are_painted(inside)
            &&& xplan.is_shallow(inside)
            &&& s.skip_view.len() > 0 ==> ({
                let gone = resolve(a.entries.tree, nats(s.skip_view))->0;
                &&& inside == leaves_all(bare(gone.subtree))
                &&& forall|j: int|
                    0 <= j < inside.len() ==> under((#[trigger] inside[j]).path, gone.path) && inside[j].path
                        != gone.path
            })
        }),
{
    let f = a.entries.tree;
    let root = switch_root(a, s, AppMode::Xray, init_root);
    let xplan = switch_plan(a, root, true);
    let inside = switch_leaves(a, s, AppMode::Xray);
    if s.skip_view.len() == 0 {
        assert(root == s.root);
        assert(under(root, root));
        xplan.lemma_forest_painted(f, root, None);
        assert(pruned(f, s.skip_view) is None);
        assert(inside == leaves_all(bare(f)));
    } else {
        let gone = resolve(f, nats(s.skip_view))->0;
        prune_takes_the_selected(f, s.skip_view);
        lemma_last_met(f, s.skip_view, None);
        assert(root == gone.path);
        lemma_resolved_forest(a.colors, f, s.skip_view, s.root, None);
        assert(under(root, root));
        xplan.lemma_forest_painted(gone.subtree, root, None);
        assert forall|j: int| 0 <= j < inside.len() implies beyond(root, (#[trigger] inside[j]).path)
            <= xplan.depth by {
            assert(inside.contains(inside[j]));
            lemma_inside_found(f, s.skip_view, inside[j]);
            let k = choose|k: int|
                0 <= k < leaves_all(bare(f)).len() && leaves_all(bare(f))[k] == inside[j];
            assert(leaves_all(bare(f))[k].path.comps.len() <= usize::MAX);
            assert(under(inside[j].path, root));
        }
    }
}

} // verus!
