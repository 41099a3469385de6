//! What the counts of a tree add up to.
use vstd::prelude::*;
use crate::colors::ColorScheme;
use crate::entry::{bare, lemma_sum_push, sum_leaves, sum_nfiles, sum_size, Node};
use crate::growth::{
    agree, grown, growth_fits, kid_fits, lemma_grown, lemma_one_child, lemma_under_child, settled, tree_of,
    under,
};
use crate::keymap::Key;
use crate::lineage::{
    beyond, climb, dir_node, family, has_path, home, leaf_tag, plant, plant_all, related, summary_parent,
    summed_up,
};
use crate::path::PathView;
use crate::siblings::{insert_node, offsets, offsets_keep_entries, sort_nodes};

verus! {

/// The summed weight of the entries that a condition picks.
pub open spec fn sum_if(s: Seq<Node>, p: spec_fn(Node) -> bool, w: spec_fn(Node) -> nat) -> nat
    decreases s.len(),
{
    if s.len() == 0 {
        0
    } else {
        sum_if(s.drop_last(), p, w) + if p(s.last()) {
            w(s.last())
        } else {
            0
        }
    }
}

pub proof fn lemma_sum_if_le(
    s: Seq<Node>,
    p: spec_fn(Node) -> bool,
    q: spec_fn(Node) -> bool,
    w: spec_fn(Node) -> nat,
)
    requires
        forall|i: int| 0 <= i < s.len() && p(#[trigger] s[i]) ==> q(s[i]),
    ensures
        sum_if(s, p, w) <= sum_if(s, q, w),
    decreases s.len(),
{
    if s.len() > 0 {
        let d = s.drop_last();
        assert forall|i: int| 0 <= i < d.len() && p(#[trigger] d[i]) implies q(d[i]) by {
            assert(d[i] == s[i]);
        }
        lemma_sum_if_le(d, p, q, w);
        assert(s.last() == s[s.len() - 1]);
    }
}

pub proof fn lemma_sum_if_same(
    s: Seq<Node>,
    p: spec_fn(Node) -> bool,
    q: spec_fn(Node) -> bool,
    w: spec_fn(Node) -> nat,
)
    requires
        forall|i: int| 0 <= i < s.len() ==> p(#[trigger] s[i]) == q(s[i]),
    ensures
        sum_if(s, p, w) == sum_if(s, q, w),
{
    lemma_sum_if_le(s, p, q, w);
    lemma_sum_if_le(s, q, p, w);
}

pub proof fn lemma_sum_if_or(
    s: Seq<Node>,
    p: spec_fn(Node) -> bool,
    q: spec_fn(Node) -> bool,
    both: spec_fn(Node) -> bool,
    w: spec_fn(Node) -> nat,
)
    requires
        forall|i: int| 0 <= i < s.len() ==> !(p(#[trigger] s[i]) && q(s[i])),
        forall|i: int| 0 <= i < s.len() ==> both(#[trigger] s[i]) == (p(s[i]) || q(s[i])),
    ensures
        sum_if(s, both, w) == sum_if(s, p, w) + sum_if(s, q, w),
    decreases s.len(),
{
    if s.len() > 0 {
        let d = s.drop_last();
        assert forall|i: int| 0 <= i < d.len() implies !(p(#[trigger] d[i]) && q(d[i])) && both(d[i])
            == (p(d[i]) || q(d[i])) by {
            assert(d[i] == s[i]);
        }
        lemma_sum_if_or(d, p, q, both, w);
        assert(s.last() == s[s.len() - 1]);
    }
}

pub proof fn lemma_sum_if_at(s: Seq<Node>, p: spec_fn(Node) -> bool, w: spec_fn(Node) -> nat, j: int)
    requires
        0 <= j < s.len(),
        p(s[j]),
    ensures
        sum_if(s, p, w) >= w(s[j]),
    decreases s.len(),
{
    if j < s.len() - 1 {
        lemma_sum_if_at(s.drop_last(), p, w, j);
    }
}

pub proof fn lemma_sum_if_none(s: Seq<Node>, p: spec_fn(Node) -> bool, w: spec_fn(Node) -> nat)
    requires
        forall|i: int| 0 <= i < s.len() ==> !p(#[trigger] s[i]),
    ensures
        sum_if(s, p, w) == 0,
    decreases s.len(),
{
    if s.len() > 0 {
        let d = s.drop_last();
        assert forall|i: int| 0 <= i < d.len() implies !p(#[trigger] d[i]) by {
            assert(d[i] == s[i]);
        }
        lemma_sum_if_none(d, p, w);
        assert(s.last() == s[s.len() - 1]);
    }
}

pub open spec fn w_size() -> spec_fn(Node) -> nat {
    |n: Node| n.size
}

pub open spec fn w_nfiles() -> spec_fn(Node) -> nat {
    |n: Node| n.nfiles
}

pub open spec fn w_one() -> spec_fn(Node) -> nat {
    |n: Node| 1nat
}

pub proof fn lemma_sum_if_all(s: Seq<Node>, p: spec_fn(Node) -> bool)
    ensures
        sum_if(s, p, w_size()) <= sum_size(s),
        sum_if(s, p, w_nfiles()) <= sum_nfiles(s),
        sum_if(s, p, w_one()) <= s.len(),
        (forall|i: int| 0 <= i < s.len() ==> p(#[trigger] s[i])) ==> sum_if(s, p, w_size()) == sum_size(s)
            && sum_if(s, p, w_nfiles()) == sum_nfiles(s) && sum_if(s, p, w_one()) == s.len(),
    decreases s.len(),
{
    if s.len() > 0 {
        let d = s.drop_last();
        lemma_sum_if_all(d, p);
        if forall|i: int| 0 <= i < s.len() ==> p(#[trigger] s[i]) {
            assert forall|i: int| 0 <= i < d.len() implies p(#[trigger] d[i]) by {
                assert(d[i] == s[i]);
            }
            assert(s.last() == s[s.len() - 1]);
        }
    }
}

proof fn lemma_insert_sums(s: Seq<Node>, n: Node)
    ensures
        sum_size(insert_node(s, n)) == sum_size(s) + n.size,
        sum_nfiles(insert_node(s, n)) == sum_nfiles(s) + n.nfiles,
        sum_leaves(insert_node(s, n)) == sum_leaves(s) + n.leaves,
    decreases s.len(),
{
    lemma_sum_push(s, n);
    if s.len() > 0 {
        lemma_insert_sums(s.drop_last(), n);
        lemma_sum_push(insert_node(s.drop_last(), n), s.last());
    }
}

/// Sorting changes no sum.
pub proof fn sort_keeps_sums(s: Seq<Node>)
    ensures
        sum_size(sort_nodes(s)) == sum_size(s),
        sum_nfiles(sort_nodes(s)) == sum_nfiles(s),
        sum_leaves(sort_nodes(s)) == sum_leaves(s),
    decreases s.len(),
{
    if s.len() > 0 {
        sort_keeps_sums(s.drop_last());
        lemma_insert_sums(sort_nodes(s.drop_last()), s.last());
    }
}

/// How leaves are placed: below which root, to which depth, and by extension
/// or not.
pub struct Plan {
    pub colors: ColorScheme,
    pub root: PathView,
    pub depth: nat,
    pub xray: bool,
}

impl Plan {
    /// Picks the leaves that are counted at `path` in families of a tag.
    pub open spec fn at(self, path: PathView, tag: Option<Seq<u8>>) -> spec_fn(Node) -> bool {
        |x: Node|
            home(self.root, self.depth, x.path) == path && leaf_tag(self.xray, x.path) == tag
    }

    /// Picks the leaves that are counted at `path` or below it in families of a
    /// tag.
    pub open spec fn below(self, path: PathView, tag: Option<Seq<u8>>) -> spec_fn(Node) -> bool {
        |x: Node|
            under(home(self.root, self.depth, x.path), path) && leaf_tag(self.xray, x.path) == tag
    }

    /// The families of leaves.
    pub open spec fn families(self, leaves: Seq<Node>) -> Map<Key, Seq<Node>> {
        plant_all(self.colors, self.root, self.depth, self.xray, leaves)
    }

    /// No entry of a family counts more than the leaves at its path, and each
    /// has a family of its own or leaves at its path.
    pub open spec fn founded(self, m: Map<Key, Seq<Node>>, leaves: Seq<Node>) -> bool {
        &&& forall|k: Key| #[trigger] m.contains_key(k) ==> m[k].len() > 0
        &&& forall|k: Key, i: int|
            m.contains_key(k) && 0 <= i < m[k].len() ==> self.fair(#[trigger] m[k][i], k.1, leaves)
        &&& forall|k: Key, i: int|
            m.contains_key(k) && 0 <= i < m[k].len() ==> m.contains_key(
                ((#[trigger] m[k][i]).path, k.1),
            ) || self.at_home(leaves, m[k][i].path, k.1)
    }

    pub open spec fn at_home(self, leaves: Seq<Node>, path: PathView, tag: Option<Seq<u8>>) -> bool {
        exists|j: int| 0 <= j < leaves.len() && (self.at(path, tag))(#[trigger] leaves[j])
    }

    pub open spec fn fair(self, n: Node, tag: Option<Seq<u8>>, leaves: Seq<Node>) -> bool {
        &&& n.size <= sum_if(leaves, self.at(n.path, tag), w_size())
        &&& n.nfiles <= sum_if(leaves, self.at(n.path, tag), w_nfiles())
    }

    proof fn lemma_climb_founded(
        self,
        m: Map<Key, Seq<Node>>,
        tag: Option<Seq<u8>>,
        n: Node,
        leaves: Seq<Node>,
    )
        requires
            self.founded(m, leaves),
            self.fair(n, tag, leaves),
            m.contains_key((n.path, tag)) || self.at_home(leaves, n.path, tag),
        ensures
            self.founded(climb(self.colors, m, tag, n), leaves),
        decreases n.path.comps.len(),
    {
        if let Some(parent) = n.path.parent() {
            let k: Key = (parent, tag);
            let s = family(m, k);
            if !has_path(s, n.path) {
                let m2 = m.insert(k, s.push(n));
                assert forall|k2: Key, i: int|
                    m2.contains_key(k2) && 0 <= i < m2[k2].len() implies self.fair(
                    #[trigger] m2[k2][i],
                    k2.1,
                    leaves,
                ) && (m2.contains_key((m2[k2][i].path, k2.1)) || self.at_home(
                    leaves,
                    m2[k2][i].path,
                    k2.1,
                )) by {
                    if k2 != k || i < s.len() {
                        assert(m[k2][i] == m2[k2][i]);
                    }
                }
                self.lemma_climb_founded(m2, tag, dir_node(self.colors, parent, tag), leaves);
            }
        }
    }

    proof fn lemma_more_leaves(self, m: Map<Key, Seq<Node>>, leaves: Seq<Node>, leaf: Node)
        requires
            self.founded(m, leaves),
        ensures
            self.founded(m, leaves.push(leaf)),
    {
        let more = leaves.push(leaf);
        assert(more.drop_last() =~= leaves);
        assert forall|k: Key, i: int| m.contains_key(k) && 0 <= i < m[k].len() implies self.fair(
            #[trigger] m[k][i],
            k.1,
            more,
        ) && (m.contains_key((m[k][i].path, k.1)) || self.at_home(more, m[k][i].path, k.1)) by {
            if self.at_home(leaves, m[k][i].path, k.1) {
                let j = choose|j: int|
                    0 <= j < leaves.len() && (self.at(m[k][i].path, k.1))(#[trigger] leaves[j]);
                assert(more[j] == leaves[j]);
            }
        }
    }

    proof fn lemma_plant_founded(self, m: Map<Key, Seq<Node>>, leaves: Seq<Node>, leaf: Node)
        requires
            self.founded(m, leaves),
        ensures
            self.founded(
                plant(self.colors, self.root, self.depth, self.xray, m, leaf),
                leaves.push(leaf),
            ),
    {
        let more = leaves.push(leaf);
        let tag = leaf_tag(self.xray, leaf.path);
        let spot = home(self.root, self.depth, leaf.path);
        assert(more.drop_last() =~= leaves);
        assert(more[leaves.len() as int] == leaf);
        assert((self.at(spot, tag))(leaf));
        assert(self.at_home(more, spot, tag));
        self.lemma_more_leaves(m, leaves, leaf);
        if beyond(self.root, leaf.path) > self.depth {
            let parent = summary_parent(self.root, leaf.path, self.depth);
            let k: Key = (parent, tag);
            let s = family(m, k);
            let t = summed_up(s, spot, leaf);
            let m2 = m.insert(k, t);
            assert forall|k2: Key, i: int|
                m2.contains_key(k2) && 0 <= i < m2[k2].len() implies self.fair(
                #[trigger] m2[k2][i],
                k2.1,
                more,
            ) && (m2.contains_key((m2[k2][i].path, k2.1)) || self.at_home(
                more,
                m2[k2][i].path,
                k2.1,
            )) by {
                if k2 == k {
                    if has_path(s, spot) {
                        assert(self.fair(m[k][i], tag, leaves));
                        assert(self.fair(m[k][i], tag, more));
                    } else if i < s.len() {
                        assert(m[k][i] == m2[k][i]);
                    }
                } else {
                    assert(m[k2][i] == m2[k2][i]);
                }
            }
            assert(m2[k].len() > 0);
            self.lemma_climb_founded(m2, tag, dir_node(self.colors, parent, tag), more);
        } else {
            self.lemma_climb_founded(m, tag, leaf, more);
        }
    }

    pub proof fn lemma_founded(self, leaves: Seq<Node>)
        ensures
            self.founded(self.families(leaves), leaves),
        decreases leaves.len(),
    {
        if leaves.len() > 0 {
            self.lemma_founded(leaves.drop_last());
            assert(leaves =~= leaves.drop_last().push(leaves.last()));
            self.lemma_plant_founded(
                self.families(leaves.drop_last()),
                leaves.drop_last(),
                leaves.last(),
            );
        }
    }

    /// Picks the leaves that are counted at one of the kids or below it.
    pub open spec fn below_any(self, kids: Seq<Node>, tag: Option<Seq<u8>>) -> spec_fn(Node) -> bool {
        |x: Node|
            exists|i: int|
                0 <= i < kids.len() && (self.below((#[trigger] kids[i]).path, tag))(x)
    }

    /// What `g` counts is at most what the leaves at `path` and below count, or
    /// exactly that.
    pub open spec fn weighed(self, g: Node, path: PathView, tag: Option<Seq<u8>>, leaves: Seq<Node>, exact: bool) -> bool {
        let size = sum_if(leaves, self.below(path, tag), w_size());
        let nfiles = sum_if(leaves, self.below(path, tag), w_nfiles());
        let count = sum_if(leaves, self.below(path, tag), w_one());
        if exact {
            g.size == size && g.nfiles == nfiles
        } else {
            g.size <= size && g.nfiles <= nfiles && g.leaves <= count
        }
    }

    pub proof fn lemma_kids_sum(
        self,
        g: Seq<Node>,
        kids: Seq<Node>,
        path: PathView,
        tag: Option<Seq<u8>>,
        leaves: Seq<Node>,
        exact: bool,
    )
        requires
            g.len() == kids.len(),
            forall|i: int| 0 <= i < kids.len() ==> (#[trigger] kids[i]).path.parent() == Some(path),
            forall|i: int, j: int|
                0 <= i < j < kids.len() ==> (#[trigger] kids[i]).path != (#[trigger] kids[j]).path,
            forall|i: int|
                0 <= i < g.len() ==> self.weighed(#[trigger] g[i], kids[i].path, tag, leaves, exact),
        ensures
            !exact ==> sum_size(g) <= sum_if(leaves, self.below_any(kids, tag), w_size()),
            !exact ==> sum_nfiles(g) <= sum_if(leaves, self.below_any(kids, tag), w_nfiles()),
            !exact ==> sum_leaves(g) <= sum_if(leaves, self.below_any(kids, tag), w_one()),
            exact ==> sum_size(g) == sum_if(leaves, self.below_any(kids, tag), w_size()),
            exact ==> sum_nfiles(g) == sum_if(leaves, self.below_any(kids, tag), w_nfiles()),
        decreases kids.len(),
    {
        let all = self.below_any(kids, tag);
        if kids.len() == 0 {
            lemma_sum_if_none(leaves, all, w_size());
            lemma_sum_if_none(leaves, all, w_nfiles());
            lemma_sum_if_none(leaves, all, w_one());
        } else {
            let d = kids.drop_last();
            let gd = g.drop_last();
            let n = kids.len() - 1;
            assert forall|i: int| 0 <= i < gd.len() implies self.weighed(
                #[trigger] gd[i],
                d[i].path,
                tag,
                leaves,
                exact,
            ) by {
                assert(g[i] == gd[i]);
            }
            self.lemma_kids_sum(gd, d, path, tag, leaves, exact);
            let before = self.below_any(d, tag);
            let last = self.below(kids.last().path, tag);
            assert forall|j: int| 0 <= j < leaves.len() implies all(#[trigger] leaves[j]) == (before(
                leaves[j],
            ) || last(leaves[j])) by {
                let x = leaves[j];
                if all(x) {
                    let i = choose|i: int|
                        0 <= i < kids.len() && (self.below((#[trigger] kids[i]).path, tag))(x);
                    if i < n {
                        assert(d[i] == kids[i]);
                    }
                }
                if before(x) {
                    let i = choose|i: int| 0 <= i < d.len() && (self.below((#[trigger] d[i]).path, tag))(x);
                    assert(kids[i] == d[i]);
                }
                if last(x) {
                    assert(kids[n] == kids.last());
                }
            }
            assert forall|j: int| 0 <= j < leaves.len() implies !(before(#[trigger] leaves[j]) && last(
                leaves[j],
            )) by {
                let x = leaves[j];
                if before(x) && last(x) {
                    let i = choose|i: int| 0 <= i < d.len() && (self.below((#[trigger] d[i]).path, tag))(x);
                    assert(d[i] == kids[i]);
                    assert(kids[n] == kids.last());
                    lemma_one_child(
                        home(self.root, self.depth, x.path),
                        kids[i].path,
                        kids[n].path,
                        path,
                    );
                }
            }
            lemma_sum_if_or(leaves, before, last, all, w_size());
            lemma_sum_if_or(leaves, before, last, all, w_nfiles());
            lemma_sum_if_or(leaves, before, last, all, w_one());
            assert(self.weighed(g[n], kids[n].path, tag, leaves, exact));
        }
    }

    /// The trees below a path count at most what the leaves below it count.
    proof fn lemma_bound(
        self,
        m: Map<Key, Seq<Node>>,
        r: Map<Key, Seq<Node>>,
        path: PathView,
        tag: Option<Seq<u8>>,
        leaves: Seq<Node>,
    )
        requires
            related(m),
            self.founded(m, leaves),
            m.dom().finite(),
            r.dom().finite(),
            agree(m, r, path, tag),
        ensures
            sum_size(bare(tree_of(r, path, tag))) <= sum_if(leaves, self.below(path, tag), w_size()),
            sum_nfiles(bare(tree_of(r, path, tag))) <= sum_if(
                leaves,
                self.below(path, tag),
                w_nfiles(),
            ),
            sum_leaves(bare(tree_of(r, path, tag))) <= sum_if(leaves, self.below(path, tag), w_one()),
            m.contains_key((path, tag)) ==> tree_of(r, path, tag).len() > 0,
            sum_size(leaves) <= usize::MAX && sum_nfiles(leaves) <= usize::MAX && leaves.len()
                <= usize::MAX ==> growth_fits(r, path, tag),
        decreases r.dom().len(), 1nat,
    {
        let key: Key = (path, tag);
        assert(under(path, path));
        if m.contains_key(key) {
            let kids = m[key];
            let rest = r.remove(key);
            let g = grown(rest, kids, tag);
            lemma_grown(rest, kids, tag);
            assert forall|i: int| 0 <= i < kids.len() implies (#[trigger] kids[i]).path.parent()
                == Some(path) by {
                assert(m[key][i].path.parent() == Some(path));
            }
            assert forall|i: int, j: int| 0 <= i < j < kids.len() implies (#[trigger] kids[i]).path != (
            #[trigger] kids[j]).path by {
                assert(m[key][i].path != m[key][j].path);
            }
            let fit = sum_size(leaves) <= usize::MAX && sum_nfiles(leaves) <= usize::MAX
                && leaves.len() <= usize::MAX;
            assert forall|i: int| 0 <= i < kids.len() implies self.weighed(
                #[trigger] g[i],
                kids[i].path,
                tag,
                leaves,
                false,
            ) && (fit ==> kid_fits(kids[i], tree_of(rest, kids[i].path, tag)) && growth_fits(
                rest,
                kids[i].path,
                tag,
            )) by {
                self.lemma_kid_bound(m, r, path, tag, leaves, i);
            }
            self.lemma_kids_sum(g, kids, path, tag, leaves, false);
            assert forall|j: int| 0 <= j < leaves.len() && (self.below_any(kids, tag))(
                #[trigger] leaves[j],
            ) implies (self.below(path, tag))(leaves[j]) by {
                let i = choose|i: int|
                    0 <= i < kids.len() && (self.below((#[trigger] kids[i]).path, tag))(leaves[j]);
                lemma_under_child(
                    home(self.root, self.depth, leaves[j].path),
                    kids[i].path,
                    path,
                );
            }
            lemma_sum_if_le(leaves, self.below_any(kids, tag), self.below(path, tag), w_size());
            lemma_sum_if_le(leaves, self.below_any(kids, tag), self.below(path, tag), w_nfiles());
            lemma_sum_if_le(leaves, self.below_any(kids, tag), self.below(path, tag), w_one());
            sort_keeps_sums(g);
            offsets_keep_entries(sort_nodes(g));
            lemma_sort_len(g);
            assert(tree_of(r, path, tag) == offsets(sort_nodes(g)));
            if fit {
                lemma_sum_if_all(leaves, self.below(path, tag));
                assert forall|i: int| 0 <= i < r[key].len() implies kid_fits(
                    #[trigger] r[key][i],
                    tree_of(r.remove(key), r[key][i].path, tag),
                ) && growth_fits(r.remove(key), r[key][i].path, tag) by {
                    assert(self.weighed(g[i], kids[i].path, tag, leaves, false));
                }
            }
        } else {
            assert(bare(tree_of(r, path, tag)) =~= Seq::empty());
        }
    }

    proof fn lemma_kid_bound(
        self,
        m: Map<Key, Seq<Node>>,
        r: Map<Key, Seq<Node>>,
        path: PathView,
        tag: Option<Seq<u8>>,
        leaves: Seq<Node>,
        i: int,
    )
        requires
            related(m),
            self.founded(m, leaves),
            m.dom().finite(),
            r.dom().finite(),
            agree(m, r, path, tag),
            m.contains_key((path, tag)),
            r.contains_key((path, tag)),
            0 <= i < m[(path, tag)].len(),
        ensures
            ({
                let n = m[(path, tag)][i];
                let rest = r.remove((path, tag));
                let sub = tree_of(rest, n.path, tag);
                &&& self.weighed(settled(n, sub), n.path, tag, leaves, false)
                &&& sum_size(leaves) <= usize::MAX && sum_nfiles(leaves) <= usize::MAX && leaves.len()
                    <= usize::MAX ==> kid_fits(n, sub) && growth_fits(rest, n.path, tag)
            }),
        decreases r.dom().len(), 0nat,
    {
        let key: Key = (path, tag);
        let n = m[key][i];
        let rest = r.remove(key);
        let sub = tree_of(rest, n.path, tag);
        assert(n.path.parent() == Some(path));
        assert forall|q: PathView| #[trigger] under(q, n.path) implies m.contains_key((q, tag))
            == rest.contains_key((q, tag)) && (m.contains_key((q, tag)) ==> m[(q, tag)] == rest[(q, tag)]) by {
            lemma_under_child(q, n.path, path);
            assert(under(q, path));
        }
        assert(rest.dom() =~= r.dom().remove(key));
        self.lemma_bound(m, rest, n.path, tag, leaves);
        assert(self.fair(m[key][i], tag, leaves));
        let here = self.at(n.path, tag);
        let low = self.below(n.path, tag);
        assert forall|j: int| 0 <= j < leaves.len() && here(#[trigger] leaves[j]) implies low(leaves[j]) by {
            assert(under(n.path, n.path));
        }
        lemma_sum_if_le(leaves, here, low, w_size());
        lemma_sum_if_le(leaves, here, low, w_nfiles());
        if sub.len() == 0 {
            assert(self.at_home(leaves, n.path, tag));
            let j = choose|j: int| 0 <= j < leaves.len() && here(#[trigger] leaves[j]);
            lemma_sum_if_at(leaves, low, w_one(), j);
        }
        lemma_sum_if_all(leaves, low);
    }

    /// Picks the leaves whose tag is one of the extensions.
    pub open spec fn tagged_any(self, exts: Seq<Seq<u8>>) -> spec_fn(Node) -> bool {
        |x: Node|
            exists|i: int|
                0 <= i < exts.len() && leaf_tag(self.xray, x.path) == Some(#[trigger] exts[i])
    }

    /// No choice of leaves counts more than all of them.
    pub proof fn lemma_below_all(self, leaves: Seq<Node>, path: PathView, tag: Option<Seq<u8>>)
        ensures
            sum_if(leaves, self.below(path, tag), w_size()) <= sum_size(leaves),
            sum_if(leaves, self.below(path, tag), w_nfiles()) <= sum_nfiles(leaves),
            sum_if(leaves, self.below(path, tag), w_one()) <= leaves.len(),
    {
        lemma_sum_if_all(leaves, self.below(path, tag));
    }

    /// Groups of distinct extensions together count at most what the leaves
    /// count.
    pub proof fn lemma_groups_sum(self, g: Seq<Node>, exts: Seq<Seq<u8>>, leaves: Seq<Node>)
        requires
            g.len() == exts.len(),
            exts.no_duplicates(),
            forall|i: int|
                0 <= i < g.len() ==> (#[trigger] g[i]).size <= sum_if(
                    leaves,
                    self.below(self.root, Some(exts[i])),
                    w_size(),
                ),
        ensures
            sum_size(g) <= sum_size(leaves),
    {
        self.lemma_groups_part(g, exts, leaves);
        lemma_sum_if_all(leaves, self.tagged_any(exts));
    }

    proof fn lemma_groups_part(self, g: Seq<Node>, exts: Seq<Seq<u8>>, leaves: Seq<Node>)
        requires
            g.len() == exts.len(),
            exts.no_duplicates(),
            forall|i: int|
                0 <= i < g.len() ==> (#[trigger] g[i]).size <= sum_if(
                    leaves,
                    self.below(self.root, Some(exts[i])),
                    w_size(),
                ),
        ensures
            sum_size(g) <= sum_if(leaves, self.tagged_any(exts), w_size()),
        decreases g.len(),
    {
        if g.len() > 0 {
            let d = exts.drop_last();
            let n = exts.len() - 1;
            assert forall|i: int| 0 <= i < g.drop_last().len() implies (
            #[trigger] g.drop_last()[i]).size <= sum_if(
                leaves,
                self.below(self.root, Some(d[i])),
                w_size(),
            ) by {
                assert(g[i].size <= sum_if(leaves, self.below(self.root, Some(exts[i])), w_size()));
            }
            self.lemma_groups_part(g.drop_last(), d, leaves);
            let all = self.tagged_any(exts);
            let before = self.tagged_any(d);
            let last = |x: Node| leaf_tag(self.xray, x.path) == Some(exts[n]);
            assert forall|j: int| 0 <= j < leaves.len() implies !(before(#[trigger] leaves[j]) && last(
                leaves[j],
            )) && all(leaves[j]) == (before(leaves[j]) || last(leaves[j])) by {
                let x = leaves[j];
                if before(x) {
                    let i = choose|i: int|
                        0 <= i < d.len() && leaf_tag(self.xray, x.path) == Some(#[trigger] d[i]);
                    assert(exts[i] == d[i]);
                    assert(exts[i] != exts[n]);
                }
                if all(x) {
                    let i = choose|i: int|
                        0 <= i < exts.len() && leaf_tag(self.xray, x.path) == Some(#[trigger] exts[i]);
                    if i < n {
                        assert(d[i] == exts[i]);
                    }
                }
            }
            lemma_sum_if_or(leaves, before, last, all, w_size());
            assert(g[n].size <= sum_if(leaves, self.below(self.root, Some(exts[n])), w_size()));
            lemma_sum_if_le(leaves, self.below(self.root, Some(exts[n])), last, w_size());
        }
    }

    /// If the leaves together fit in a machine word, so does every count of the
    /// trees that grow from them.
    pub proof fn lemma_growth_fits(self, leaves: Seq<Node>, path: PathView, tag: Option<Seq<u8>>)
        requires
            related(self.families(leaves)),
            self.families(leaves).dom().finite(),
            sum_size(leaves) <= usize::MAX,
            sum_nfiles(leaves) <= usize::MAX,
            leaves.len() <= usize::MAX,
        ensures
            growth_fits(self.families(leaves), path, tag),
            sum_size(bare(tree_of(self.families(leaves), path, tag))) <= sum_if(
                leaves,
                self.below(path, tag),
                w_size(),
            ),
            sum_nfiles(bare(tree_of(self.families(leaves), path, tag))) <= sum_if(
                leaves,
                self.below(path, tag),
                w_nfiles(),
            ),
            sum_leaves(bare(tree_of(self.families(leaves), path, tag))) <= sum_if(
                leaves,
                self.below(path, tag),
                w_one(),
            ),
    {
        let m = self.families(leaves);
        self.lemma_founded(leaves);
        self.lemma_bound(m, m, path, tag, leaves);
    }
}

proof fn lemma_insert_len(s: Seq<Node>, n: Node)
    ensures
        insert_node(s, n).len() == s.len() + 1,
    decreases s.len(),
{
    if s.len() > 0 {
        lemma_insert_len(s.drop_last(), n);
    }
}

pub proof fn lemma_sort_len(s: Seq<Node>)
    ensures
        sort_nodes(s).len() == s.len(),
    decreases s.len(),
{
    if s.len() > 0 {
        lemma_sort_len(s.drop_last());
        lemma_insert_len(sort_nodes(s.drop_last()), s.last());
    }
}

} // verus!
