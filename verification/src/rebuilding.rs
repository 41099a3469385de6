//! A forest that is built again from its leaves.
use vstd::prelude::*;
use crate::accounting::{lemma_sum_if_all, w_nfiles, w_size, Plan};
use crate::assembly::{lemma_shuffled_members, lemma_sum_if_add, lemma_sum_if_shuffled, marks};
use crate::colors::ColorScheme;
use crate::detail::{
    grown_at, is_forest, is_grown, lemma_beside, lemma_sized_all, lemma_spread_all, lemma_under_through,
    lies_in,
};
use crate::entry::{bare, Node};
use crate::forest::forest_of;
use crate::graft::{laid_out, lemma_laid_differ, siblings_differ};
use crate::growth::{lemma_one_child, lemma_under_child, under};
use crate::ids::ordered;
use crate::leaves::{leaves_all, leaves_are_leaves, leaves_below, leaves_of, lemma_leaf_sums};
use crate::lineage::{beyond, has_path};
use crate::matching::{merging_nothing_changes_nothing, order_does_not_matter};
use crate::path::PathView;
use crate::sharing::{deepest, lemma_deepest};
use crate::surgery::{adds_up, counted, sized};

verus! {

/// The leaves of a list are those before an entry, its own and those after it.
pub proof fn lemma_leaves_split(s: Seq<Node>, i: int)
    requires
        0 <= i < s.len(),
    ensures
        leaves_all(s) == leaves_all(s.take(i)) + leaves_of(s[i]) + leaves_all(s.skip(i + 1)),
    decreases s.len(),
{
    if i == 0 {
        assert(s.take(0) =~= Seq::empty());
        assert(leaves_all(s.take(0)) =~= Seq::empty());
        assert(leaves_all(s) =~= leaves_all(s.take(0)) + leaves_of(s[0]) + leaves_all(s.skip(1)));
    } else {
        let d = s.skip(1);
        lemma_leaves_split(d, i - 1);
        assert(d[i - 1] == s[i]);
        assert(d.skip(i) =~= s.skip(i + 1));
        assert(s.take(i).skip(1) =~= d.take(i - 1));
        assert(s.take(i)[0] == s[0]);
        assert(leaves_all(s.take(i)) == leaves_of(s[0]) + leaves_all(d.take(i - 1)));
        assert(leaves_all(s) =~= leaves_all(s.take(i)) + leaves_of(s[i]) + leaves_all(s.skip(i + 1)));
    }
}

/// The leaves of siblings are the same in whatever order the siblings are gone
/// through.
pub proof fn lemma_leaves_turned(f: Seq<(nat, Node)>)
    ensures
        leaves_below(f).to_multiset() == leaves_all(bare(f)).to_multiset(),
    decreases f.len(),
{
    if f.len() > 0 {
        let d = f.drop_last();
        let s = bare(f);
        lemma_leaves_turned(d);
        lemma_leaves_split(s, s.len() - 1);
        assert(s.take(s.len() - 1) =~= bare(d));
        assert(s.skip(s.len() as int) =~= Seq::empty());
        assert(leaves_all(s.skip(s.len() as int)) =~= Seq::empty());
        assert(s[s.len() - 1] == f.last().1);
        let a = leaves_of(f.last().1);
        assert(leaves_below(f) == a + leaves_below(d));
        assert(leaves_all(s) =~= leaves_all(bare(d)) + a);
        vstd::seq_lib::lemma_multiset_commutative(a, leaves_below(d));
        vstd::seq_lib::lemma_multiset_commutative(leaves_all(bare(d)), a);
        assert(leaves_below(f).to_multiset() =~= leaves_all(s).to_multiset());
    } else {
        assert(bare(f) =~= Seq::empty());
        assert(leaves_below(f) =~= leaves_all(bare(f)));
    }
}

proof fn lemma_part_grown(colors: ColorScheme, f: Seq<(nat, Node)>, path: PathView, tag: Option<Seq<u8>>, from: int, to: int)
    requires
        is_grown(colors, f, path, tag),
        siblings_differ(f),
        0 <= from <= to <= f.len(),
    ensures
        is_grown(colors, f.subrange(from, to), path, tag),
        siblings_differ(f.subrange(from, to)),
        bare(f.subrange(from, to)) == bare(f).subrange(from, to),
{
    let d = f.subrange(from, to);
    assert forall|i: int| 0 <= i < d.len() implies grown_at(colors, (#[trigger] d[i]).1, path, tag) && is_grown(
        colors,
        d[i].1.subtree,
        d[i].1.path,
        tag,
    ) && siblings_differ(d[i].1.subtree) by {
        assert(d[i] == f[from + i]);
    }
    assert(bare(d) =~= bare(f).subrange(from, to));
    assert forall|i: int, j: int| 0 <= i < bare(d).len() && 0 <= j < bare(d).len() && i != j implies (
    #[trigger] bare(d)[i]).path != (#[trigger] bare(d)[j]).path by {
        assert(bare(d)[i] == bare(f)[from + i] && bare(d)[j] == bare(f)[from + j]);
    }
}

/// The leaves of other siblings do not lie in an entry.
proof fn lemma_others_outside(colors: ColorScheme, f: Seq<(nat, Node)>, path: PathView, tag: Option<Seq<u8>>, i: int, from: int, to: int)
    requires
        is_grown(colors, f, path, tag),
        siblings_differ(f),
        0 <= from <= to <= f.len(),
        0 <= i < f.len(),
        i < from || to <= i,
    ensures
        ({
            let part = leaves_all(bare(f).subrange(from, to));
            forall|j: int| 0 <= j < part.len() ==> !under((#[trigger] part[j]).path, f[i].1.path)
        }),
{
    let d = f.subrange(from, to);
    lemma_part_grown(colors, f, path, tag, from, to);
    lemma_spread_all(colors, d, path, tag);
    let part = leaves_all(bare(d));
    assert forall|j: int| 0 <= j < part.len() implies !under((#[trigger] part[j]).path, f[i].1.path) by {
        assert(lies_in(part[j], bare(d)));
        let k = choose|k: int| 0 <= k < bare(d).len() && under(part[j].path, (#[trigger] bare(d)[k]).path);
        assert(bare(d)[k] == bare(f)[from + k]);
        assert(bare(f)[from + k] == f[from + k].1);
        assert(bare(f)[i] == f[i].1);
        assert(grown_at(colors, f[from + k].1, path, tag));
        assert(grown_at(colors, f[i].1, path, tag));
        lemma_beside(part[j].path, f[from + k].1.path, f[i].1.path, path);
    }
}

impl Plan {
    /// The leaves of a forest are those of a scan.
    pub proof fn lemma_forest_painted(self, f: Seq<(nat, Node)>, q: PathView, tag: Option<Seq<u8>>)
        requires
            is_forest(self.colors, f, q, tag),
            under(q, self.root),
        ensures
            self.are_painted(leaves_all(bare(f))),
            forall|j: int|
                0 <= j < leaves_all(bare(f)).len() ==> under((#[trigger] leaves_all(bare(f))[j]).path, q)
                    && leaves_all(bare(f))[j].path != q,
    {
        let leaves = leaves_all(bare(f));
        lemma_laid_differ(f);
        lemma_spread_all(self.colors, f, q, tag);
        assert forall|i: int| 0 <= i < bare(f).len() implies (#[trigger] bare(f)[i]).size > 0 && sized(
            bare(f)[i].subtree,
        ) by {
            assert(bare(f)[i] == f[i].1);
        }
        lemma_sized_all(bare(f));
        assert forall|j: int| 0 <= j < leaves.len() implies under((#[trigger] leaves[j]).path, q) && leaves[j].path
            != q && under(leaves[j].path, self.root) && leaves[j].path != self.root by {
            assert(lies_in(leaves[j], bare(f)));
            let k = choose|k: int| 0 <= k < bare(f).len() && under(leaves[j].path, (#[trigger] bare(f)[k]).path);
            assert(bare(f)[k] == f[k].1);
            assert(grown_at(self.colors, f[k].1, q, tag));
            lemma_under_child(leaves[j].path, f[k].1.path, q);
            lemma_under_through(leaves[j].path, q, self.root);
        }
    }

    /// The trees of the leaves of a forest are that forest.
    proof fn lemma_rebuilt(self, f: Seq<(nat, Node)>, q: PathView)
        requires
            !self.xray,
            is_forest(self.colors, f, q, None),
            under(q, self.root),
            self.is_shallow(leaves_all(bare(f))),
        ensures
            self.tree(leaves_all(bare(f)), q, None) == f,
        decreases f,
    {
        let s = bare(f);
        let leaves = leaves_all(s);
        let g = self.level(leaves, q, None);
        self.lemma_forest_painted(f, q, None);
        self.lemma_painted_found(leaves);
        self.lemma_level(leaves, q, None);
        self.lemma_level_full(leaves, q, None);
        lemma_laid_differ(f);
        lemma_spread_all(self.colors, f, q, None);
        assert forall|i: int| 0 <= i < s.len() implies self.is_full(#[trigger] s[i], leaves, q, None) by {
            let n = f[i].1;
            assert(s[i] == n);
            assert(decreases_to!(f => f[i].1.subtree));
            if n.subtree.len() > 0 {
                self.lemma_kept_below(f, q, i);
                self.lemma_rebuilt(n.subtree, n.path);
            }
            self.lemma_child_full(f, q, i);
        }
        assert forall|v: Node| s.contains(v) <==> #[trigger] g.contains(v) by {
            if s.contains(v) {
                let i = choose|i: int| 0 <= i < s.len() && s[i] == v;
                assert(self.is_full(s[i], leaves, q, None));
                assert(has_path(g, v.path));
                let j = choose|j: int| 0 <= j < g.len() && (#[trigger] g[j]).path == v.path;
                self.lemma_full_one(g[j], v, leaves, q, None);
            }
            if g.contains(v) {
                let j = choose|j: int| 0 <= j < g.len() && g[j] == v;
                assert(self.is_full(g[j], leaves, q, None));
                let w = choose|w: int|
                    0 <= w < leaves.len() && under(self.spot(#[trigger] leaves[w]), v.path) && self.label(leaves[w])
                        == None::<Seq<u8>>;
                self.lemma_spot(leaves[w]);
                assert(lies_in(leaves[w], s));
                let k = choose|k: int| 0 <= k < s.len() && under(leaves[w].path, (#[trigger] s[k]).path);
                assert(self.is_full(s[k], leaves, q, None));
                lemma_one_child(leaves[w].path, s[k].path, v.path, q);
                self.lemma_full_one(s[k], v, leaves, q, None);
            }
        }
        order_does_not_matter(s, g);
    }

    proof fn lemma_kept_below(self, f: Seq<(nat, Node)>, q: PathView, i: int)
        requires
            is_forest(self.colors, f, q, None),
            under(q, self.root),
            self.is_shallow(leaves_all(bare(f))),
            0 <= i < f.len(),
            f[i].1.subtree.len() > 0,
        ensures
            is_forest(self.colors, f[i].1.subtree, f[i].1.path, None),
            under(f[i].1.path, self.root),
            self.is_shallow(leaves_all(bare(f[i].1.subtree))),
    {
        let n = f[i].1;
        let s = bare(f);
        assert(grown_at(self.colors, f[i].1, q, None));
        assert(laid_out(f[i].1.subtree) && ordered(f[i].1.subtree) && counted(f[i].1.subtree) && sized(
            f[i].1.subtree,
        ));
        assert(under(n.path, n.path));
        lemma_under_child(n.path, n.path, q);
        lemma_under_through(n.path, q, self.root);
        lemma_leaves_split(s, i);
        lemma_leaves_turned(n.subtree);
        let b = leaves_below(n.subtree);
        let c = leaves_all(bare(n.subtree));
        lemma_shuffled_members(c, b);
        let before = leaves_all(s.take(i));
        assert forall|j: int| 0 <= j < c.len() implies beyond(self.root, (#[trigger] c[j]).path) <= self.depth by {
            assert(b.contains(c[j]));
            let k = choose|k: int| 0 <= k < b.len() && b[k] == c[j];
            assert(s[i] == n);
            assert(leaves_all(s)[before.len() + k] == b[k]);
        }
    }

    proof fn lemma_child_full(self, f: Seq<(nat, Node)>, q: PathView, i: int)
        requires
            !self.xray,
            is_forest(self.colors, f, q, None),
            under(q, self.root),
            self.is_shallow(leaves_all(bare(f))),
            0 <= i < f.len(),
            f[i].1.subtree.len() > 0 ==> self.tree(
                leaves_all(bare(f[i].1.subtree)),
                f[i].1.path,
                None,
            ) == f[i].1.subtree,
        ensures
            self.is_full(f[i].1, leaves_all(bare(f)), q, None),
    {
        let s = bare(f);
        let n = f[i].1;
        let leaves = leaves_all(s);
        let before = leaves_all(s.take(i));
        let own = leaves_of(n);
        let after = leaves_all(s.skip(i + 1));
        let others = before + after;
        assert(s[i] == n);
        lemma_leaves_split(s, i);
        assert(leaves == before + own + after);
        self.lemma_forest_painted(f, q, None);
        self.lemma_painted_found(leaves);
        lemma_laid_differ(f);
        assert(grown_at(self.colors, f[i].1, q, None));
        assert(counted(f[i].1.subtree) && adds_up(f[i].1));
        // The others lie outside.
        lemma_others_outside(self.colors, f, q, None, i, 0, i);
        lemma_others_outside(self.colors, f, q, None, i, i + 1, f.len() as int);
        assert(s.subrange(0, i) =~= s.take(i));
        assert(s.subrange(i + 1, f.len() as int) =~= s.skip(i + 1));
        assert forall|j: int| 0 <= j < others.len() implies !under((#[trigger] others[j]).path, n.path) by {
            if j < before.len() {
                assert(others[j] == before[j]);
            } else {
                assert(others[j] == after[j - before.len()]);
            }
        }
        // All leaves are the others and those below.
        let both = others + own;
        self.lemma_regathered(before, own, after);
        assert(both.to_multiset() == leaves.to_multiset());
        self.lemma_shuffled_kept(leaves, both);
        self.lemma_known_part(both, 0, others.len() as int);
        self.lemma_known_part(both, others.len() as int, both.len() as int);
        assert(both.subrange(0, others.len() as int) =~= others);
        assert(both.subrange(others.len() as int, both.len() as int) =~= own);
        assert forall|j: int| 0 <= j < own.len() implies under((#[trigger] own[j]).path, n.path) && (
        n.subtree.len() > 0 ==> own[j].path != n.path) by {
            self.lemma_own_inside(f, q, i, j);
        }
        let one = seq![n];
        leaves_are_leaves(one);
        assert(one.skip(1) =~= Seq::empty());
        assert(leaves_all(one.skip(1)) =~= Seq::empty());
        assert(leaves_all(one) == leaves_of(one[0]) + leaves_all(one.skip(1)));
        assert(leaves_all(one) =~= own);
        assert(own.len() > 0);
        // Nothing of the others is counted below.
        assert forall|j: int| 0 <= j < both.len() implies self.spot(#[trigger] both[j]) == both[j].path by {
            lemma_shuffled_members(both, leaves);
            let k = choose|k: int| 0 <= k < leaves.len() && leaves[k] == both[j];
            assert(beyond(self.root, leaves[k].path) <= self.depth);
        }
        assert(!self.touched(others, n.path, None)) by {
            if self.touched(others, n.path, None) {
                let w = choose|w: int|
                    0 <= w < others.len() && under(self.spot(#[trigger] others[w]), n.path) && self.label(
                        others[w],
                    ) == None::<Seq<u8>>;
                assert(both[w] == others[w]);
            }
        }
        assert(both[others.len() as int] == own[0]);
        assert(under(self.spot(both[others.len() as int]), n.path));
        assert(self.touched(both, n.path, None));
        self.lemma_shuffled_touched(both, leaves, n.path, None);
        self.lemma_shuffled_touched(leaves, both, n.path, None);
        self.lemma_untouched(others, n.path, None);
        // The trees below.
        let most = deepest(self, both);
        assert forall|j: int| 0 <= j < both.len() implies self.spot(#[trigger] both[j]).comps.len() <= most by {
            lemma_deepest(self, both, j);
        }
        self.lemma_trees_agree(both, leaves, n.path, None, most);
        self.lemma_trees_merge(others, own, n.path, None, most);
        assert(self.tree(others, n.path, None) =~= Seq::<(nat, Node)>::empty());
        self.lemma_level(own, n.path, None);
        merging_nothing_changes_nothing(self.level(own, n.path, None));
        assert(self.tree(leaves, n.path, None) == self.tree(own, n.path, None));
        if n.subtree.len() > 0 {
            lemma_leaves_turned(n.subtree);
            let c = leaves_all(bare(n.subtree));
            self.lemma_shuffled_kept(own, c);
            assert forall|j: int| 0 <= j < own.len() implies self.spot(#[trigger] own[j]).comps.len() <= most by {
                assert(both[others.len() + j] == own[j]);
            }
            self.lemma_trees_agree(own, c, n.path, None, most);
        } else {
            if self.tree(own, n.path, None).len() > 0 {
                self.lemma_tree_touched(own, n.path, None);
                let x = choose|x: int|
                    0 <= x < own.len() && under(self.spot(#[trigger] own[x]), n.path) && self.spot(own[x])
                        != n.path && self.label(own[x]) == None::<Seq<u8>>;
                assert(both[others.len() + x] == own[x]);
                assert(own[x] == n);
            }
            assert(self.tree(own, n.path, None) =~= n.subtree);
        }
        // The counts.
        let p = self.below(n.path, None);
        lemma_sum_if_shuffled(leaves, both, p, w_size());
        lemma_sum_if_shuffled(leaves, both, p, w_nfiles());
        lemma_sum_if_add(others, own, p, w_size());
        lemma_sum_if_add(others, own, p, w_nfiles());
        assert forall|j: int| 0 <= j < own.len() implies p(#[trigger] own[j]) by {
            assert(both[others.len() + j] == own[j]);
        }
        lemma_sum_if_all(own, p);
        lemma_leaf_sums(n);
        // The marks.
        assert forall|j: int| 0 <= j < leaves.len() && (self.at(n.path, None))(#[trigger] leaves[j]) implies marks(n)
            == self.marks_of(leaves[j]) by {
            lemma_shuffled_members(leaves, both);
            let k = choose|k: int| 0 <= k < both.len() && both[k] == leaves[j];
            assert(self.spot(both[k]) == n.path);
            assert(under(n.path, n.path));
            if k < others.len() {
                assert(both[k] == others[k]);
            } else {
                assert(both[k] == own[k - others.len()]);
            }
        }
        if !self.at_home(leaves, n.path, None) {
            if n.subtree.len() == 0 {
                assert(own[0] == n);
                assert(leaves[before.len() as int] == n);
                assert(beyond(self.root, leaves[before.len() as int].path) <= self.depth);
                assert((self.at(n.path, None))(leaves[before.len() as int]));
            }
        }
    }

    proof fn lemma_regathered(self, before: Seq<Node>, own: Seq<Node>, after: Seq<Node>)
        ensures
            (before + after + own).to_multiset() == (before + own + after).to_multiset(),
    {
        vstd::seq_lib::lemma_multiset_commutative(before + after, own);
        vstd::seq_lib::lemma_multiset_commutative(before, after);
        vstd::seq_lib::lemma_multiset_commutative(before + own, after);
        vstd::seq_lib::lemma_multiset_commutative(before, own);
        assert((before + after + own).to_multiset() =~= (before + own + after).to_multiset());
    }

    /// The leaves of an entry lie in it.
    proof fn lemma_own_inside(self, f: Seq<(nat, Node)>, q: PathView, i: int, j: int)
        requires
            is_forest(self.colors, f, q, None),
            0 <= i < f.len(),
            0 <= j < leaves_of(f[i].1).len(),
        ensures
            under(leaves_of(f[i].1)[j].path, f[i].1.path),
            f[i].1.subtree.len() > 0 ==> leaves_of(f[i].1)[j].path != f[i].1.path,
    {
        let n = f[i].1;
        assert(under(n.path, n.path));
        if n.subtree.len() > 0 {
            assert(laid_out(f[i].1.subtree) && ordered(f[i].1.subtree) && counted(f[i].1.subtree) && sized(
                f[i].1.subtree,
            ));
            assert(is_grown(self.colors, f[i].1.subtree, f[i].1.path, None));
            let b = leaves_below(n.subtree);
            let c = leaves_all(bare(n.subtree));
            lemma_leaves_turned(n.subtree);
            lemma_shuffled_members(b, c);
            assert(c.contains(b[j]));
            let k = choose|k: int| 0 <= k < c.len() && c[k] == b[j];
            let here = Plan { root: n.path, ..self };
            here.lemma_forest_painted(n.subtree, n.path, None);
        }
    }

    /// Leaves in another order are known as well.
    pub proof fn lemma_shuffled_kept(self, a: Seq<Node>, b: Seq<Node>)
        requires
            self.known(a),
            a.to_multiset() == b.to_multiset(),
        ensures
            self.known(b),
    {
        lemma_shuffled_members(b, a);
        assert(a.no_duplicates()) by {
            assert forall|i: int, j: int| 0 <= i < a.len() && 0 <= j < a.len() && i != j implies a[i] != a[j] by {
                assert(under(a[i].path, a[i].path));
                assert(!under(a[i].path, a[j].path));
            }
        }
        a.lemma_multiset_has_no_duplicates();
        b.lemma_multiset_has_no_duplicates_conv();
        assert forall|i: int| 0 <= i < b.len() implies under((#[trigger] b[i]).path, self.root) && b[i].path
            != self.root && b[i].subtree.len() == 0 by {
            assert(a.contains(b[i]));
            let p = choose|p: int| 0 <= p < a.len() && a[p] == b[i];
            assert(a[p].subtree.len() == 0);
        }
        assert forall|i: int, j: int| 0 <= i < b.len() && 0 <= j < b.len() && i != j implies !under(
            (#[trigger] b[i]).path,
            (#[trigger] b[j]).path,
        ) by {
            assert(b[i] != b[j]);
            assert(a.contains(b[i]) && a.contains(b[j]));
            let p = choose|p: int| 0 <= p < a.len() && a[p] == b[i];
            let q = choose|q: int| 0 <= q < a.len() && a[q] == b[j];
            assert(!under(a[p].path, a[q].path));
        }
        assert forall|i: int, j: int|
            0 <= i < b.len() && 0 <= j < b.len() && self.spot(#[trigger] b[i]) == self.spot(
                #[trigger] b[j],
            ) implies self.marks_of(b[i]) == self.marks_of(b[j]) by {
            assert(a.contains(b[i]) && a.contains(b[j]));
            let p = choose|p: int| 0 <= p < a.len() && a[p] == b[i];
            let q = choose|q: int| 0 <= q < a.len() && a[q] == b[j];
            assert(self.marks_of(a[p]) == self.marks_of(a[q]));
        }
    }
}

/// A forest that is built again from its leaves is the same, if none of them is
/// summed up.
pub proof fn rebuilding_changes_nothing(plan: Plan, f: Seq<(nat, Node)>)
    requires
        !plan.xray,
        is_forest(plan.colors, f, plan.root, None),
        plan.is_shallow(leaves_all(bare(f))),
    ensures
        forest_of(plan, leaves_all(bare(f))) == f,
{
    assert(under(plan.root, plan.root));
    plan.lemma_rebuilt(f, plan.root);
}

} // verus!
