//! What a forest of a scan is like, and how its leaves come back.
use vstd::prelude::*;
use crate::accounting::{
    lemma_sort_len, lemma_sum_if_at, lemma_sum_if_none, lemma_sum_if_or, lemma_sum_if_same, sum_if, w_size,
    Plan,
};
use crate::conservation::{holds_path, lemma_extension_listed};
use crate::entry::{bare, Node};
use crate::forest::{extensions_distinct, forest_of, group_node, groups};
use crate::growth::{agree, grown, lemma_grown, lemma_one_child, lemma_under_child, settled, tree_of, under};
use crate::ids::ordered;
use crate::keymap::Key;
use crate::leaves::{leaves_all, leaves_below, leaves_of};
use crate::lineage::{
    beyond, climb, dir_node, extensions_of, family, has_path, home, leaf_tag, place_of, summary_parent,
    summed_up,
};
use crate::path::PathView;
use crate::siblings::{insert_node, offsets, offsets_keep_entries, sort_nodes};
use crate::surgery::{adds_up, counted, lemma_sums_increase, sized};

verus! {

proof fn lemma_insert_members(s: Seq<Node>, n: Node)
    ensures
        insert_node(s, n).len() == s.len() + 1,
        forall|i: int|
            0 <= i <= s.len() ==> #[trigger] insert_node(s, n)[i] == n || s.contains(insert_node(s, n)[i]),
    decreases s.len(),
{
    if s.len() == 0 || crate::siblings::may_precede(s.last(), n) {
        assert forall|i: int| 0 <= i <= s.len() implies #[trigger] s.push(n)[i] == n || s.contains(
            s.push(n)[i],
        ) by {
            if i < s.len() {
                assert(s[i] == s.push(n)[i]);
            }
        }
    } else {
        let d = s.drop_last();
        let t = insert_node(d, n);
        lemma_insert_members(d, n);
        assert forall|i: int| 0 <= i <= s.len() implies #[trigger] t.push(s.last())[i] == n || s.contains(
            t.push(s.last())[i],
        ) by {
            if i < s.len() {
                assert(t.push(s.last())[i] == t[i]);
                if t[i] != n {
                    let k = choose|k: int| 0 <= k < d.len() && d[k] == t[i];
                    assert(s[k] == t[i]);
                }
            } else {
                assert(s[s.len() - 1] == s.last());
            }
        }
    }
}

pub proof fn lemma_sort_members(s: Seq<Node>)
    ensures
        sort_nodes(s).len() == s.len(),
        forall|i: int| 0 <= i < s.len() ==> s.contains(#[trigger] sort_nodes(s)[i]),
    decreases s.len(),
{
    if s.len() > 0 {
        let d = s.drop_last();
        let t = sort_nodes(d);
        lemma_sort_members(d);
        lemma_insert_members(t, s.last());
        assert forall|i: int| 0 <= i < s.len() implies s.contains(#[trigger] sort_nodes(s)[i]) by {
            let x = sort_nodes(s)[i];
            if x == s.last() {
                assert(s[s.len() - 1] == x);
            } else {
                let k = choose|k: int| 0 <= k < t.len() && t[k] == x;
                assert(d.contains(t[k]));
                let q = choose|q: int| 0 <= q < d.len() && d[q] == x;
                assert(s[q] == x);
            }
        }
    }
}

/// Entries that have a size, add up and have such entries below make such a
/// forest when they are sorted and laid out.
proof fn lemma_laid_sound(g: Seq<Node>)
    requires
        forall|i: int|
            0 <= i < g.len() ==> (#[trigger] g[i]).size > 0 && adds_up(g[i]) && counted(g[i].subtree)
                && sized(g[i].subtree) && ordered(g[i].subtree),
    ensures
        counted(offsets(sort_nodes(g))),
        sized(offsets(sort_nodes(g))),
        ordered(offsets(sort_nodes(g))),
{
    let s = sort_nodes(g);
    let f = offsets(s);
    lemma_sort_members(g);
    assert forall|i: int| 0 <= i < s.len() implies (#[trigger] s[i]).size > 0 && adds_up(s[i]) && counted(
        s[i].subtree,
    ) && sized(s[i].subtree) && ordered(s[i].subtree) by {
        assert(g.contains(s[i]));
        let k = choose|k: int| 0 <= k < g.len() && g[k] == s[i];
        assert(g[k].size > 0);
    }
    assert forall|i: int| 0 <= i < f.len() implies counted((#[trigger] f[i]).1.subtree) && adds_up(f[i].1)
        && f[i].1.size > 0 && sized(f[i].1.subtree) && ordered(f[i].1.subtree) by {
        assert(s[i].size > 0);
    }
    assert forall|i: int, j: int| 0 <= i < j < f.len() implies (#[trigger] f[i]).0 < (#[trigger] f[j]).0 by {
        lemma_sums_increase(s, i, j);
    }
}

/// No entry of a family has anything below it yet.
pub open spec fn all_bare(m: Map<Key, Seq<Node>>) -> bool {
    forall|k: Key, i: int| m.contains_key(k) && 0 <= i < m[k].len() ==> (#[trigger] m[k][i]).subtree.len() == 0
}

pub proof fn lemma_climb_bare(plan: Plan, m: Map<Key, Seq<Node>>, tag: Option<Seq<u8>>, n: Node)
    requires
        all_bare(m),
        n.subtree.len() == 0,
    ensures
        all_bare(climb(plan.colors, m, tag, n)),
    decreases n.path.comps.len(),
{
    if let Some(parent) = n.path.parent() {
        let k: Key = (parent, tag);
        let s = family(m, k);
        if !has_path(s, n.path) {
            let m2 = m.insert(k, s.push(n));
            assert forall|k2: Key, i: int| m2.contains_key(k2) && 0 <= i < m2[k2].len() implies (
            #[trigger] m2[k2][i]).subtree.len() == 0 by {
                if k2 != k || i < s.len() {
                    assert(m[k2][i] == m2[k2][i]);
                }
            }
            lemma_climb_bare(plan, m2, tag, dir_node(plan.colors, parent, tag));
        }
    }
}

/// Leaves of a scan as files are: of a size, and with nothing below them.
pub open spec fn are_files(leaves: Seq<Node>) -> bool {
    forall|i: int| 0 <= i < leaves.len() ==> (#[trigger] leaves[i]).size > 0 && leaves[i].subtree.len() == 0
}

impl Plan {
    pub proof fn lemma_families_bare(self, leaves: Seq<Node>)
        requires
            are_files(leaves),
        ensures
            all_bare(self.families(leaves)),
        decreases leaves.len(),
    {
        if leaves.len() > 0 {
            let d = leaves.drop_last();
            let leaf = leaves.last();
            assert(leaves[leaves.len() - 1] == leaf);
            assert forall|i: int| 0 <= i < d.len() implies (#[trigger] d[i]).size > 0 && d[i].subtree.len()
                == 0 by {
                assert(leaves[i] == d[i]);
            }
            self.lemma_families_bare(d);
            let m = self.families(d);
            let tag = leaf_tag(self.xray, leaf.path);
            if beyond(self.root, leaf.path) > self.depth {
                let parent = summary_parent(self.root, leaf.path, self.depth);
                let k: Key = (parent, tag);
                let s = family(m, k);
                let spot = home(self.root, self.depth, leaf.path);
                let m2 = m.insert(k, summed_up(s, spot, leaf));
                assert forall|k2: Key, i: int| m2.contains_key(k2) && 0 <= i < m2[k2].len() implies (
                #[trigger] m2[k2][i]).subtree.len() == 0 by {
                    if k2 != k || i < s.len() {
                        assert(m[k2][i].subtree.len() == 0);
                        if k2 == k && has_path(s, spot) {
                            assert(s[place_of(s, spot)].path == spot);
                        }
                    }
                }
                lemma_climb_bare(self, m2, tag, dir_node(self.colors, parent, tag));
            } else {
                lemma_climb_bare(self, m, tag, leaf);
            }
        }
    }

    pub proof fn lemma_sound_trees(
        self,
        m: Map<Key, Seq<Node>>,
        r: Map<Key, Seq<Node>>,
        path: PathView,
        tag: Option<Seq<u8>>,
        leaves: Seq<Node>,
    )
        requires
            self.is_scan(leaves),
            are_files(leaves),
            self.kept(m, leaves),
            all_bare(m),
            r.dom().finite(),
            agree(m, r, path, tag),
        ensures
            counted(tree_of(r, path, tag)),
            sized(tree_of(r, path, tag)),
            ordered(tree_of(r, path, tag)),
        decreases r.dom().len(),
    {
        let key: Key = (path, tag);
        assert(under(path, path));
        if m.contains_key(key) {
            let kids = m[key];
            let rest = r.remove(key);
            let g = grown(rest, kids, tag);
            lemma_grown(rest, kids, tag);
            assert forall|i: int| 0 <= i < g.len() implies (#[trigger] g[i]).size > 0 && adds_up(g[i])
                && counted(g[i].subtree) && sized(g[i].subtree) && ordered(g[i].subtree) by {
                let n = m[key][i];
                assert(n.subtree.len() == 0);
                assert(n.path.parent() == Some(path));
                assert forall|q: PathView| #[trigger] under(q, n.path) implies m.contains_key((q, tag))
                    == rest.contains_key((q, tag)) && (m.contains_key((q, tag)) ==> m[(q, tag)] == rest[(
                    q,
                    tag,
                )]) by {
                    lemma_under_child(q, n.path, path);
                    assert(under(q, path));
                }
                self.lemma_sound_trees(m, rest, n.path, tag, leaves);
                self.lemma_exact_kid(m, r, path, tag, leaves, i);
                self.lemma_kid_counts(m, r, path, tag, leaves, i);
                // Some leaf is counted here, and it has a size.
                assert(holds_path(m, n.path, tag));
                let j = choose|j: int|
                    0 <= j < leaves.len() && under(self.spot(#[trigger] leaves[j]), n.path) && self.label(
                        leaves[j],
                    ) == tag;
                lemma_sum_if_at(leaves, self.below(n.path, tag), w_size(), j);
                assert(leaves[j].size > 0);
            }
            lemma_laid_sound(g);
            assert(tree_of(r, path, tag) == offsets(sort_nodes(g)));
        }
    }

    /// A directory with entries below it has no counts of its own.
    proof fn lemma_kid_counts(
        self,
        m: Map<Key, Seq<Node>>,
        r: Map<Key, Seq<Node>>,
        path: PathView,
        tag: Option<Seq<u8>>,
        leaves: Seq<Node>,
        i: int,
    )
        requires
            self.is_scan(leaves),
            self.kept(m, leaves),
            all_bare(m),
            agree(m, r, path, tag),
            m.contains_key((path, tag)),
            0 <= i < m[(path, tag)].len(),
        ensures
            adds_up(
                settled(
                    m[(path, tag)][i],
                    tree_of(r.remove((path, tag)), m[(path, tag)][i].path, tag),
                ),
            ),
    {
        let key: Key = (path, tag);
        let n = m[key][i];
        let rest = r.remove(key);
        assert(n.subtree.len() == 0);
        assert(n.path.parent() == Some(path));
        if tree_of(rest, n.path, tag).len() > 0 {
            assert(under(n.path, n.path));
            lemma_under_child(n.path, n.path, path);
            assert(under(n.path, path));
            assert(m.contains_key((n.path, tag)));
            self.lemma_dir_is_bare(m, leaves, n.path, tag);
            self.lemma_nothing_at(leaves, n.path, tag);
            assert(self.just(m[key][i], tag, leaves));
        }
    }
}

/// In the forest of a scan every entry has a size, entries count what lies
/// below them, and the offsets of siblings increase, so that addresses lead to
/// one entry and pruning keeps the counts right.
pub proof fn forest_is_sound(plan: Plan, leaves: Seq<Node>)
    requires
        plan.is_scan(leaves),
        are_files(leaves),
    ensures
        counted(forest_of(plan, leaves)),
        sized(forest_of(plan, leaves)),
        ordered(forest_of(plan, leaves)),
{
    let m = plan.families(leaves);
    plan.lemma_kept(leaves);
    plan.lemma_families_bare(leaves);
    if plan.xray {
        let exts = extensions_of(true, leaves);
        let g = groups(plan.colors, plan.root, m, exts);
        assert forall|i: int| 0 <= i < g.len() implies (#[trigger] g[i]).size > 0 && adds_up(g[i])
            && counted(g[i].subtree) && sized(g[i].subtree) && ordered(g[i].subtree) by {
            let tag = Some(exts[i]);
            plan.lemma_sound_trees(m, m, plan.root, tag, leaves);
            plan.lemma_tag_conserved(leaves, tag);
            let j = lemma_extension_used(leaves, i);
            plan.lemma_spot(leaves[j]);
            lemma_sum_if_at(leaves, plan.below(plan.root, tag), w_size(), j);
            assert(leaves[j].size > 0);
        }
        lemma_laid_sound(g);
    } else {
        plan.lemma_sound_trees(m, m, plan.root, None, leaves);
    }
}

pub proof fn lemma_extension_used(leaves: Seq<Node>, i: int) -> (j: int)
    requires
        0 <= i < extensions_of(true, leaves).len(),
    ensures
        0 <= j < leaves.len(),
        leaf_tag(true, leaves[j].path) == Some(extensions_of(true, leaves)[i]),
    decreases leaves.len(),
{
    let d = leaves.drop_last();
    let before = extensions_of(true, d);
    if i < before.len() {
        assert(extensions_of(true, leaves)[i] == before[i]);
        let j = lemma_extension_used(d, i);
        assert(d[j] == leaves[j]);
        j
    } else {
        leaves.len() - 1
    }
}

/// The summed weight of a list.
spec fn weigh(s: Seq<Node>, w: spec_fn(Node) -> nat) -> nat
    decreases s.len(),
{
    if s.len() == 0 {
        0
    } else {
        weigh(s.drop_last(), w) + w(s.last())
    }
}

/// The summed weight of the leaves of a list of trees.
spec fn heft(s: Seq<Node>, w: spec_fn(Node) -> nat) -> nat
    decreases s.len(),
{
    if s.len() == 0 {
        0
    } else {
        heft(s.drop_last(), w) + weigh(leaves_of(s.last()), w)
    }
}

proof fn lemma_weigh_add(a: Seq<Node>, b: Seq<Node>, w: spec_fn(Node) -> nat)
    ensures
        weigh(a + b, w) == weigh(a, w) + weigh(b, w),
    decreases b.len(),
{
    if b.len() == 0 {
        assert(a + b =~= a);
    } else {
        lemma_weigh_add(a, b.drop_last(), w);
        assert((a + b).drop_last() =~= a + b.drop_last());
    }
}

proof fn lemma_heft_add(a: Seq<Node>, b: Seq<Node>, w: spec_fn(Node) -> nat)
    ensures
        heft(a + b, w) == heft(a, w) + heft(b, w),
    decreases b.len(),
{
    if b.len() == 0 {
        assert(a + b =~= a);
    } else {
        lemma_heft_add(a, b.drop_last(), w);
        assert((a + b).drop_last() =~= a + b.drop_last());
    }
}

proof fn lemma_weigh_all(s: Seq<Node>, w: spec_fn(Node) -> nat)
    ensures
        weigh(leaves_all(s), w) == heft(s, w),
    decreases s.len(),
{
    if s.len() > 0 {
        lemma_weigh_all(s.skip(1), w);
        lemma_weigh_add(leaves_of(s[0]), leaves_all(s.skip(1)), w);
        assert(s =~= seq![s[0]] + s.skip(1));
        lemma_heft_add(seq![s[0]], s.skip(1), w);
        assert(seq![s[0]].drop_last() =~= Seq::empty());
        assert(heft(seq![s[0]], w) == heft(seq![s[0]].drop_last(), w) + weigh(leaves_of(s[0]), w));
    }
}

proof fn lemma_weigh_below(f: Seq<(nat, Node)>, w: spec_fn(Node) -> nat)
    ensures
        weigh(leaves_below(f), w) == heft(bare(f), w),
    decreases f.len(),
{
    if f.len() > 0 {
        let d = f.drop_last();
        lemma_weigh_below(d, w);
        lemma_weigh_add(leaves_of(f.last().1), leaves_below(d), w);
        assert(bare(f).drop_last() =~= bare(d));
        assert(bare(f).last() == f.last().1);
        assert(leaves_below(f) == leaves_of(f.last().1) + leaves_below(d));
    }
}

proof fn lemma_heft_push(s: Seq<Node>, n: Node, w: spec_fn(Node) -> nat)
    ensures
        heft(s.push(n), w) == heft(s, w) + weigh(leaves_of(n), w),
{
    assert(s.push(n).drop_last() =~= s);
}

proof fn lemma_heft_insert(s: Seq<Node>, n: Node, w: spec_fn(Node) -> nat)
    ensures
        heft(insert_node(s, n), w) == heft(s, w) + weigh(leaves_of(n), w),
    decreases s.len(),
{
    lemma_heft_push(s, n, w);
    if s.len() > 0 {
        lemma_heft_insert(s.drop_last(), n, w);
        lemma_heft_push(insert_node(s.drop_last(), n), s.last(), w);
    }
}

proof fn lemma_heft_sort(s: Seq<Node>, w: spec_fn(Node) -> nat)
    ensures
        heft(sort_nodes(s), w) == heft(s, w),
    decreases s.len(),
{
    if s.len() > 0 {
        lemma_heft_sort(s.drop_last(), w);
        lemma_heft_insert(sort_nodes(s.drop_last()), s.last(), w);
    }
}

/// A leaf as a forest holds it: it counts as one.
pub open spec fn as_leaf(n: Node) -> Node {
    Node { leaves: 1, ..n }
}

/// Leaves as a forest holds them.
pub open spec fn as_leaves(s: Seq<Node>) -> Seq<Node> {
    s.map_values(|n: Node| as_leaf(n))
}

spec fn leaf_weight(w: spec_fn(Node) -> nat) -> spec_fn(Node) -> nat {
    |n: Node| w(as_leaf(n))
}

/// Where one entry alone is counted, the sum is its own.
pub proof fn lemma_sum_if_single(s: Seq<Node>, p: spec_fn(Node) -> bool, w: spec_fn(Node) -> nat, j: int)
    requires
        0 <= j < s.len(),
        p(s[j]),
        forall|i: int| 0 <= i < s.len() && i != j ==> !p(#[trigger] s[i]),
    ensures
        sum_if(s, p, w) == w(s[j]),
    decreases s.len(),
{
    let d = s.drop_last();
    if j == s.len() - 1 {
        assert forall|i: int| 0 <= i < d.len() implies !p(#[trigger] d[i]) by {
            assert(d[i] == s[i]);
        }
        lemma_sum_if_none(d, p, w);
    } else {
        assert forall|i: int| 0 <= i < d.len() && i != j implies !p(#[trigger] d[i]) by {
            assert(d[i] == s[i]);
        }
        lemma_sum_if_single(d, p, w, j);
        assert(!p(s[s.len() - 1]));
    }
}

/// Every entry at which a leaf is counted is that leaf.
spec fn holds_leaves(plan: Plan, m: Map<Key, Seq<Node>>, leaves: Seq<Node>) -> bool {
    forall|k: Key, i: int|
        m.contains_key(k) && 0 <= i < m[k].len() && plan.at_home(leaves, (#[trigger] m[k][i]).path, k.1)
            ==> leaves.contains(m[k][i])
}

proof fn lemma_climb_holds(
    plan: Plan,
    m: Map<Key, Seq<Node>>,
    tag: Option<Seq<u8>>,
    n: Node,
    leaves: Seq<Node>,
)
    requires
        holds_leaves(plan, m, leaves),
        plan.at_home(leaves, n.path, tag) ==> leaves.contains(n),
        forall|c: PathView| #[trigger] under(n.path, c) && c != n.path ==> !plan.at_home(leaves, c, tag),
    ensures
        holds_leaves(plan, climb(plan.colors, m, tag, n), leaves),
    decreases n.path.comps.len(),
{
    if let Some(parent) = n.path.parent() {
        let k: Key = (parent, tag);
        let s = family(m, k);
        if !has_path(s, n.path) {
            let m2 = m.insert(k, s.push(n));
            assert forall|k2: Key, i: int|
                m2.contains_key(k2) && 0 <= i < m2[k2].len() && plan.at_home(
                    leaves,
                    (#[trigger] m2[k2][i]).path,
                    k2.1,
                ) implies leaves.contains(m2[k2][i]) by {
                if k2 != k || i < s.len() {
                    assert(m[k2][i] == m2[k2][i]);
                }
            }
            assert(under(parent, parent));
            lemma_prefix_of_child(n.path, parent);
            assert(!plan.at_home(leaves, parent, tag));
            assert forall|c: PathView| #[trigger] under(parent, c) && c != parent implies !plan.at_home(
                leaves,
                c,
                tag,
            ) by {
                lemma_prefix_of_child(n.path, c);
                assert(under(n.path, c));
            }
            lemma_climb_holds(plan, m2, tag, dir_node(plan.colors, parent, tag), leaves);
        }
    }
}

proof fn lemma_prefix_of_child(path: PathView, c: PathView)
    requires
        path.comps.len() > 0,
        under(path.parent()->0, c),
    ensures
        under(path, c),
        c != path,
{
    assert(c.comps =~= path.comps.take(c.comps.len() as int));
}

impl Plan {
    /// No leaf lies deeper than what is kept.
    pub open spec fn is_shallow(self, leaves: Seq<Node>) -> bool {
        forall|i: int| 0 <= i < leaves.len() ==> beyond(self.root, (#[trigger] leaves[i]).path) <= self.depth
    }

    proof fn lemma_holds_leaves(self, leaves: Seq<Node>)
        requires
            self.is_scan(leaves),
            self.is_shallow(leaves),
        ensures
            holds_leaves(self, self.families(leaves), leaves),
        decreases leaves.len(),
    {
        if leaves.len() > 0 {
            let d = leaves.drop_last();
            let e = leaves.len() - 1;
            let leaf = leaves[e];
            let tag = self.label(leaf);
            let spot = self.spot(leaf);
            let m = self.families(d);
            assert(leaves =~= d.push(leaf));
            assert forall|i: int| 0 <= i < d.len() implies under((#[trigger] d[i]).path, self.root) && d[i].path
                != self.root && beyond(self.root, d[i].path) <= self.depth by {
                assert(leaves[i] == d[i]);
            }
            assert forall|i: int, j: int| 0 <= i < d.len() && 0 <= j < d.len() && i != j implies !under(
                (#[trigger] d[i]).path,
                (#[trigger] d[j]).path,
            ) by {
                assert(leaves[i] == d[i] && leaves[j] == d[j]);
            }
            self.lemma_holds_leaves(d);
            self.lemma_kept(d);
            assert(!holds_path(m, spot, tag)) by {
                if holds_path(m, spot, tag) {
                    let j = choose|j: int|
                        0 <= j < d.len() && under(self.spot(#[trigger] d[j]), spot) && self.label(d[j])
                            == tag;
                    assert(leaves[j] == d[j]);
                    self.lemma_spots(leaves, j, e);
                }
            }
            assert forall|k: Key, i: int|
                m.contains_key(k) && 0 <= i < m[k].len() && self.at_home(
                    leaves,
                    (#[trigger] m[k][i]).path,
                    k.1,
                ) implies leaves.contains(m[k][i]) by {
                let n = m[k][i];
                assert(n.path.parent() == Some(k.0));
                assert(holds_path(m, n.path, k.1));
                let j = choose|j: int| 0 <= j < leaves.len() && (self.at(n.path, k.1))(#[trigger] leaves[j]);
                if j < e {
                    assert(d[j] == leaves[j]);
                    assert(self.at_home(d, n.path, k.1));
                    assert(d.contains(n));
                    let q = choose|q: int| 0 <= q < d.len() && d[q] == n;
                    assert(leaves[q] == n);
                }
            }
            assert forall|c: PathView| #[trigger] under(leaf.path, c) && c != leaf.path implies !self.at_home(
                leaves,
                c,
                tag,
            ) by {
                if self.at_home(leaves, c, tag) {
                    let j = choose|j: int| 0 <= j < leaves.len() && (self.at(c, tag))(#[trigger] leaves[j]);
                    if j != e {
                        self.lemma_spots(leaves, e, j);
                    }
                }
            }
            lemma_climb_holds(self, m, tag, leaf, leaves);
        }
    }

    proof fn lemma_kids_heft(
        self,
        g: Seq<Node>,
        kids: Seq<Node>,
        path: PathView,
        tag: Option<Seq<u8>>,
        leaves: Seq<Node>,
        w: spec_fn(Node) -> nat,
    )
        requires
            g.len() == kids.len(),
            forall|i: int| 0 <= i < kids.len() ==> (#[trigger] kids[i]).path.parent() == Some(path),
            forall|i: int, j: int|
                0 <= i < j < kids.len() ==> (#[trigger] kids[i]).path != (#[trigger] kids[j]).path,
            forall|i: int|
                0 <= i < g.len() ==> weigh(leaves_of(#[trigger] g[i]), w) == sum_if(
                    leaves,
                    self.below(kids[i].path, tag),
                    leaf_weight(w),
                ),
        ensures
            heft(g, w) == sum_if(leaves, self.below_any(kids, tag), leaf_weight(w)),
        decreases kids.len(),
    {
        let all = self.below_any(kids, tag);
        let lw = leaf_weight(w);
        if kids.len() == 0 {
            lemma_sum_if_none(leaves, all, lw);
        } else {
            let d = kids.drop_last();
            let gd = g.drop_last();
            let n = kids.len() - 1;
            assert forall|i: int| 0 <= i < gd.len() implies weigh(leaves_of(#[trigger] gd[i]), w) == sum_if(
                leaves,
                self.below(d[i].path, tag),
                lw,
            ) by {
                assert(g[i] == gd[i]);
            }
            self.lemma_kids_heft(gd, d, path, tag, leaves, w);
            let before = self.below_any(d, tag);
            let last = self.below(kids[n].path, tag);
            assert forall|j: int| 0 <= j < leaves.len() implies all(#[trigger] leaves[j]) == (before(
                leaves[j],
            ) || last(leaves[j])) && !(before(leaves[j]) && last(leaves[j])) by {
                let x = leaves[j];
                if all(x) {
                    let i = choose|i: int|
                        0 <= i < kids.len() && (self.below((#[trigger] kids[i]).path, tag))(x);
                    if i < n {
                        assert(d[i] == kids[i]);
                    }
                }
                if before(x) {
                    let i = choose|i: int| 0 <= i < d.len() && (self.below((#[trigger] d[i]).path, tag))(x);
                    assert(kids[i] == d[i]);
                    if last(x) {
                        lemma_one_child(self.spot(x), kids[i].path, kids[n].path, path);
                    }
                }
            }
            lemma_sum_if_or(leaves, before, last, all, lw);
            assert(weigh(leaves_of(g[n]), w) == sum_if(leaves, last, lw));
        }
    }

    proof fn lemma_leaves_back(
        self,
        m: Map<Key, Seq<Node>>,
        r: Map<Key, Seq<Node>>,
        path: PathView,
        tag: Option<Seq<u8>>,
        leaves: Seq<Node>,
        w: spec_fn(Node) -> nat,
    )
        requires
            self.is_scan(leaves),
            self.is_shallow(leaves),
            self.kept(m, leaves),
            all_bare(m),
            holds_leaves(self, m, leaves),
            r.dom().finite(),
            agree(m, r, path, tag),
            m.contains_key((path, tag)),
        ensures
            tree_of(r, path, tag).len() > 0,
            heft(bare(tree_of(r, path, tag)), w) == sum_if(
                leaves,
                self.below(path, tag),
                leaf_weight(w),
            ),
        decreases r.dom().len(),
    {
        let key: Key = (path, tag);
        let lw = leaf_weight(w);
        assert(under(path, path));
        let kids = m[key];
        let rest = r.remove(key);
        let g = grown(rest, kids, tag);
        lemma_grown(rest, kids, tag);
        self.lemma_dir_is_bare(m, leaves, path, tag);
        assert forall|i: int| 0 <= i < kids.len() implies (#[trigger] kids[i]).path.parent() == Some(path) by {
            assert(m[key][i].path.parent() == Some(path));
        }
        assert forall|i: int, j: int| 0 <= i < j < kids.len() implies (#[trigger] kids[i]).path != (
        #[trigger] kids[j]).path by {
            assert(m[key][i].path != m[key][j].path);
        }
        assert forall|i: int| 0 <= i < g.len() implies weigh(leaves_of(#[trigger] g[i]), w) == sum_if(
            leaves,
            self.below(kids[i].path, tag),
            lw,
        ) by {
            let n = m[key][i];
            let sub = tree_of(rest, n.path, tag);
            assert(n.subtree.len() == 0);
            assert(n.path.parent() == Some(path));
            assert forall|q: PathView| #[trigger] under(q, n.path) implies m.contains_key((q, tag))
                == rest.contains_key((q, tag)) && (m.contains_key((q, tag)) ==> m[(q, tag)] == rest[(q, tag)]) by {
                lemma_under_child(q, n.path, path);
                assert(under(q, path));
            }
            assert(under(n.path, n.path));
            if m.contains_key((n.path, tag)) {
                self.lemma_leaves_back(m, rest, n.path, tag, leaves, w);
                lemma_weigh_below(sub, w);
                assert(leaves_of(g[i]) == leaves_below(sub));
            } else {
                assert(sub.len() == 0);
                assert(g[i] == as_leaf(n));
                assert(holds_path(m, n.path, tag));
                let j = choose|j: int|
                    0 <= j < leaves.len() && under(self.spot(#[trigger] leaves[j]), n.path) && self.label(
                        leaves[j],
                    ) == tag;
                if self.spot(leaves[j]) != n.path {
                    let c = self.lemma_next(m, leaves, n.path, j);
                }
                assert((self.at(n.path, tag))(leaves[j]));
                assert(self.at_home(leaves, n.path, tag));
                assert(leaves.contains(m[key][i]));
                let q = choose|q: int| 0 <= q < leaves.len() && leaves[q] == n;
                // The entry is the leaf that is counted at its path.
                self.lemma_spot(leaves[q]);
                self.lemma_spot(leaves[j]);
                if q != j {
                    assert(under(self.spot(leaves[j]), self.spot(leaves[q])));
                    self.lemma_spots(leaves, j, q);
                }
                assert forall|k: int| 0 <= k < leaves.len() && k != j implies !(self.below(n.path, tag))(
                    #[trigger] leaves[k],
                ) by {
                    if (self.below(n.path, tag))(leaves[k]) {
                        self.lemma_spots(leaves, k, j);
                    }
                }
                lemma_sum_if_single(leaves, self.below(n.path, tag), lw, j);
                assert(leaves_of(g[i]) =~= seq![g[i]]);
                assert(seq![g[i]].drop_last() =~= Seq::empty());
                assert(weigh(seq![g[i]], w) == weigh(seq![g[i]].drop_last(), w) + w(g[i]));
            }
        }
        self.lemma_kids_heft(g, kids, path, tag, leaves, w);
        assert forall|j: int| 0 <= j < leaves.len() implies (self.below_any(kids, tag))(
            #[trigger] leaves[j],
        ) == (self.below(path, tag))(leaves[j]) by {
            let x = leaves[j];
            if (self.below_any(kids, tag))(x) {
                let i = choose|i: int|
                    0 <= i < kids.len() && (self.below((#[trigger] kids[i]).path, tag))(x);
                lemma_under_child(self.spot(x), kids[i].path, path);
            }
            if (self.below(path, tag))(x) {
                if self.spot(x) == path {
                    assert((self.at(path, tag))(x));
                }
                let c = self.lemma_next(m, leaves, path, j);
                let i = choose|i: int| 0 <= i < m[key].len() && (#[trigger] m[key][i]).path == c;
                assert((self.below(kids[i].path, tag))(x));
            }
        }
        lemma_sum_if_same(leaves, self.below_any(kids, tag), self.below(path, tag), lw);
        lemma_heft_sort(g, w);
        offsets_keep_entries(sort_nodes(g));
        lemma_sort_len(g);
        assert(tree_of(r, path, tag) == offsets(sort_nodes(g)));
    }

    proof fn lemma_tag_back(self, leaves: Seq<Node>, tag: Option<Seq<u8>>, w: spec_fn(Node) -> nat)
        requires
            self.is_scan(leaves),
            self.is_shallow(leaves),
            are_files(leaves),
        ensures
            heft(bare(tree_of(self.families(leaves), self.root, tag)), w) == sum_if(
                leaves,
                self.below(self.root, tag),
                leaf_weight(w),
            ),
            (exists|j: int|
                0 <= j < leaves.len() && self.label(#[trigger] leaves[j]) == tag) ==> tree_of(
                self.families(leaves),
                self.root,
                tag,
            ).len() > 0,
    {
        let m = self.families(leaves);
        self.lemma_kept(leaves);
        self.lemma_families_bare(leaves);
        self.lemma_holds_leaves(leaves);
        if m.contains_key((self.root, tag)) {
            self.lemma_leaves_back(m, m, self.root, tag, leaves, w);
        } else {
            assert(bare(tree_of(m, self.root, tag)) =~= Seq::empty());
            assert forall|j: int| 0 <= j < leaves.len() implies self.label(#[trigger] leaves[j]) != tag by {
                self.lemma_spot(leaves[j]);
                if self.label(leaves[j]) == tag {
                    let c = self.lemma_next(m, leaves, self.root, j);
                }
            }
            lemma_sum_if_none(leaves, self.below(self.root, tag), leaf_weight(w));
        }
    }

    proof fn lemma_groups_back(self, leaves: Seq<Node>, exts: Seq<Seq<u8>>, w: spec_fn(Node) -> nat)
        requires
            self.is_scan(leaves),
            self.is_shallow(leaves),
            are_files(leaves),
            self.xray,
            exts.no_duplicates(),
            forall|i: int|
                0 <= i < exts.len() ==> exists|j: int|
                    0 <= j < leaves.len() && self.label(#[trigger] leaves[j]) == Some(#[trigger] exts[i]),
        ensures
            heft(groups(self.colors, self.root, self.families(leaves), exts), w) == sum_if(
                leaves,
                self.tagged_any(exts),
                leaf_weight(w),
            ),
        decreases exts.len(),
    {
        let m = self.families(leaves);
        let g = groups(self.colors, self.root, m, exts);
        let lw = leaf_weight(w);
        let all = self.tagged_any(exts);
        if exts.len() == 0 {
            lemma_sum_if_none(leaves, all, lw);
        } else {
            let d = exts.drop_last();
            let n = exts.len() - 1;
            assert forall|i: int| 0 <= i < d.len() implies exists|j: int|
                0 <= j < leaves.len() && self.label(#[trigger] leaves[j]) == Some(#[trigger] d[i]) by {
                assert(exts[i] == d[i]);
            }
            self.lemma_groups_back(leaves, d, w);
            assert(g.drop_last() =~= groups(self.colors, self.root, m, d));
            let before = self.tagged_any(d);
            let tag = Some(exts[n]);
            let last = |x: Node| leaf_tag(self.xray, x.path) == tag;
            assert forall|j: int| 0 <= j < leaves.len() implies !(before(#[trigger] leaves[j]) && last(
                leaves[j],
            )) && all(leaves[j]) == (before(leaves[j]) || last(leaves[j])) by {
                let x = leaves[j];
                if before(x) {
                    let i = choose|i: int|
                        0 <= i < d.len() && leaf_tag(self.xray, x.path) == Some(#[trigger] d[i]);
                    assert(exts[i] == d[i]);
                    assert(exts[i] != exts[n]);
                }
                if all(x) {
                    let i = choose|i: int|
                        0 <= i < exts.len() && leaf_tag(self.xray, x.path) == Some(#[trigger] exts[i]);
                    if i < n {
                        assert(d[i] == exts[i]);
                    }
                }
            }
            lemma_sum_if_or(leaves, before, last, all, lw);
            assert(exists|j: int| 0 <= j < leaves.len() && self.label(#[trigger] leaves[j]) == Some(exts[n]));
            self.lemma_tag_back(leaves, tag, w);
            assert forall|j: int| 0 <= j < leaves.len() implies last(#[trigger] leaves[j]) == (self.below(
                self.root,
                tag,
            ))(leaves[j]) by {
                self.lemma_spot(leaves[j]);
            }
            lemma_sum_if_same(leaves, last, self.below(self.root, tag), lw);
            let below = tree_of(m, self.root, tag);
            assert(g.last() == group_node(self.colors, self.root, exts[n], below));
            lemma_weigh_below(below, w);
            assert(leaves_of(g.last()) == leaves_below(below));
        }
    }
}

/// Weighs an entry one and all others nothing.
spec fn counter(v: Node) -> spec_fn(Node) -> nat {
    |n: Node| if n == v { 1nat } else { 0nat }
}

proof fn lemma_weigh_count(s: Seq<Node>, v: Node)
    ensures
        weigh(s, counter(v)) == s.to_multiset().count(v),
    decreases s.len(),
{
    s.to_multiset_ensures();
    if s.len() > 0 {
        let d = s.drop_last();
        lemma_weigh_count(d, v);
        d.to_multiset_ensures();
        assert(s =~= d.push(s.last()));
    }
}

proof fn lemma_all_weigh(s: Seq<Node>, p: spec_fn(Node) -> bool, w: spec_fn(Node) -> nat)
    requires
        forall|i: int| 0 <= i < s.len() ==> p(#[trigger] s[i]),
    ensures
        sum_if(s, p, leaf_weight(w)) == weigh(as_leaves(s), w),
    decreases s.len(),
{
    let t = as_leaves(s);
    if s.len() > 0 {
        let d = s.drop_last();
        assert forall|i: int| 0 <= i < d.len() implies p(#[trigger] d[i]) by {
            assert(d[i] == s[i]);
        }
        lemma_all_weigh(d, p, w);
        assert(t.drop_last() =~= as_leaves(d));
        assert(p(s[s.len() - 1]));
    }
}

/// The leaves of the forest of a scan are the leaves of the scan, if none lies
/// deeper than what is kept: each comes back once, in some order, and counts
/// as one leaf.
pub proof fn leaves_come_back(plan: Plan, leaves: Seq<Node>)
    requires
        plan.is_scan(leaves),
        plan.is_shallow(leaves),
        are_files(leaves),
    ensures
        leaves_all(bare(forest_of(plan, leaves))).to_multiset() == as_leaves(leaves).to_multiset(),
{
    let m = plan.families(leaves);
    let f = forest_of(plan, leaves);
    let back = leaves_all(bare(f));
    let want = as_leaves(leaves);
    assert forall|v: Node| #[trigger] back.to_multiset().count(v) == want.to_multiset().count(v) by {
        let w = counter(v);
        lemma_weigh_count(back, v);
        lemma_weigh_count(want, v);
        lemma_weigh_all(bare(f), w);
        if plan.xray {
            let exts = extensions_of(true, leaves);
            let g = groups(plan.colors, plan.root, m, exts);
            extensions_distinct(true, leaves);
            assert forall|i: int| 0 <= i < exts.len() implies exists|j: int|
                0 <= j < leaves.len() && plan.label(#[trigger] leaves[j]) == Some(#[trigger] exts[i]) by {
                let j = lemma_extension_used(leaves, i);
                assert(plan.label(leaves[j]) == Some(exts[i]));
            }
            plan.lemma_groups_back(leaves, exts, w);
            lemma_heft_sort(g, w);
            offsets_keep_entries(sort_nodes(g));
            assert forall|j: int| 0 <= j < leaves.len() implies (plan.tagged_any(exts))(
                #[trigger] leaves[j],
            ) by {
                lemma_extension_listed(leaves, j);
                let ext = leaf_tag(true, leaves[j].path)->0;
                let i = choose|i: int| 0 <= i < exts.len() && exts[i] == ext;
                assert(leaf_tag(plan.xray, leaves[j].path) == Some(exts[i]));
            }
            lemma_all_weigh(leaves, plan.tagged_any(exts), w);
        } else {
            plan.lemma_tag_back(leaves, None, w);
            assert forall|j: int| 0 <= j < leaves.len() implies (plan.below(plan.root, None))(
                #[trigger] leaves[j],
            ) by {
                plan.lemma_spot(leaves[j]);
            }
            lemma_all_weigh(leaves, plan.below(plan.root, None), w);
        }
    }
    assert(back.to_multiset() =~= want.to_multiset());
}

} // verus!
