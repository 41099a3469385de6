//! A forest that is merged from the forests of some leaves and of others is the
//! forest of all of them.
use vstd::prelude::*;
use crate::accounting::{lemma_sum_if_none, sort_keeps_sums, sum_if, w_nfiles, w_size, Plan};
use crate::colors::ColorView;
use crate::conservation::{holds_path, lemma_prefix_step};
use crate::entry::{bare, sum_leaves, Node};
use crate::growth::{grown, lemma_agree, lemma_grown, lemma_under_child, settled, tree_of, under};
use crate::keymap::Key;
use crate::lineage::{
    beyond, climb, dir_node, family, has_path, leaf_tag, place_of, plant, summary_parent, summed_up,
};
use crate::matching::{
    lemma_sorted_members, lemma_with_key_add, lemma_with_key_one, merging_nothing_changes_nothing,
    order_does_not_matter, paths_differ,
};
use crate::merge::{
    children, fuse, fuse_group, key_of, keys_distinct, keys_of, lemma_all_keys, lemma_fuse_keys,
    lemma_has_key, merged, with_key,
};
use crate::path::PathView;
use crate::roundtrip::{all_bare, lemma_climb_bare};
use crate::siblings::{offsets, offsets_keep_entries, sort_nodes};

verus! {

/// What marks an entry besides its path and its counts.
pub open spec fn marks(n: Node) -> (Option<Seq<u8>>, ColorView, bool) {
    (n.tag, n.color, n.is_group)
}

/// The summed weight over two lists.
pub proof fn lemma_sum_if_add(a: Seq<Node>, b: Seq<Node>, p: spec_fn(Node) -> bool, w: spec_fn(Node) -> nat)
    ensures
        sum_if(a + b, p, w) == sum_if(a, p, w) + sum_if(b, p, w),
    decreases b.len(),
{
    if b.len() == 0 {
        assert(a + b =~= a);
    } else {
        let d = b.drop_last();
        lemma_sum_if_add(a, d, p, w);
        assert((a + b).drop_last() =~= a + d);
        assert((a + b).last() == b.last());
    }
}

impl Plan {
    /// What marks the entry at which a leaf is counted: the leaf's own marks, or
    /// those of a group.
    pub open spec fn marks_of(self, x: Node) -> (Option<Seq<u8>>, ColorView, bool) {
        if beyond(self.root, x.path) > self.depth {
            (None, x.color, true)
        } else {
            marks(x)
        }
    }

    /// Whether leaves that are counted at one place leave the same marks.
    pub open spec fn alike(self, leaves: Seq<Node>) -> bool {
        forall|i: int, j: int|
            0 <= i < leaves.len() && 0 <= j < leaves.len() && self.spot(#[trigger] leaves[i]) == self.spot(
                #[trigger] leaves[j],
            ) ==> self.marks_of(leaves[i]) == self.marks_of(leaves[j])
    }

    /// Whether an entry has the marks of the leaves that are counted at it, or
    /// those of a directory if there are none.
    pub open spec fn well_marked(self, n: Node, tag: Option<Seq<u8>>, leaves: Seq<Node>) -> bool {
        &&& forall|j: int|
            0 <= j < leaves.len() && (self.at(n.path, tag))(#[trigger] leaves[j]) ==> marks(n)
                == self.marks_of(leaves[j])
        &&& !self.at_home(leaves, n.path, tag) ==> marks(n) == marks(
            dir_node(self.colors, n.path, tag),
        )
    }

    /// Whether all entries of families have the right marks.
    pub open spec fn all_marked(self, m: Map<Key, Seq<Node>>, leaves: Seq<Node>) -> bool {
        forall|k: Key, i: int|
            m.contains_key(k) && 0 <= i < m[k].len() ==> self.well_marked(#[trigger] m[k][i], k.1, leaves)
    }

    proof fn lemma_climb_marked(self, m: Map<Key, Seq<Node>>, tag: Option<Seq<u8>>, n: Node, leaves: Seq<Node>)
        requires
            self.all_marked(m, leaves),
            self.well_marked(n, tag, leaves),
            forall|c: PathView| #[trigger]
                under(n.path, c) && c != n.path ==> !self.at_home(leaves, c, tag),
        ensures
            self.all_marked(climb(self.colors, m, tag, n), leaves),
        decreases n.path.comps.len(),
    {
        if let Some(parent) = n.path.parent() {
            let k: Key = (parent, tag);
            let s = family(m, k);
            if !has_path(s, n.path) {
                let m2 = m.insert(k, s.push(n));
                assert forall|k2: Key, i: int|
                    m2.contains_key(k2) && 0 <= i < m2[k2].len() implies self.well_marked(
                    #[trigger] m2[k2][i],
                    k2.1,
                    leaves,
                ) by {
                    if k2 != k || i < s.len() {
                        assert(m[k2][i] == m2[k2][i]);
                    }
                }
                assert(under(parent, parent));
                lemma_prefix_step(n.path, parent);
                assert(!self.at_home(leaves, parent, tag));
                assert forall|c: PathView| #[trigger] under(parent, c) && c != parent implies !self.at_home(
                    leaves,
                    c,
                    tag,
                ) by {
                    lemma_prefix_step(n.path, c);
                    assert(under(n.path, c));
                }
                self.lemma_climb_marked(m2, tag, dir_node(self.colors, parent, tag), leaves);
            }
        }
    }

    proof fn lemma_plant_marked(self, m: Map<Key, Seq<Node>>, leaves: Seq<Node>, leaf: Node)
        requires
            self.kept(m, leaves),
            self.all_marked(m, leaves),
            self.is_scan(leaves.push(leaf)),
            self.alike(leaves.push(leaf)),
        ensures
            self.all_marked(
                plant(self.colors, self.root, self.depth, self.xray, m, leaf),
                leaves.push(leaf),
            ),
    {
        let more = leaves.push(leaf);
        let e = leaves.len() as int;
        let tag = self.label(leaf);
        let spot = self.spot(leaf);
        assert(more[e] == leaf);
        self.lemma_spot(leaf);
        assert forall|c: PathView| #[trigger] under(spot, c) && c != spot implies !self.at_home(
            more,
            c,
            tag,
        ) by {
            if self.at_home(more, c, tag) {
                let j = choose|j: int| 0 <= j < more.len() && (self.at(c, tag))(#[trigger] more[j]);
                if j != e {
                    self.lemma_spots(more, e, j);
                }
            }
        }
        // What was there keeps its marks.
        assert forall|k: Key, i: int| m.contains_key(k) && 0 <= i < m[k].len() implies self.well_marked(
            #[trigger] m[k][i],
            k.1,
            more,
        ) by {
            let n = m[k][i];
            let c = n.path;
            assert(self.well_marked(m[k][i], k.1, leaves));
            assert(c.parent() == Some(k.0));
            assert(has_path(family(m, k), c));
            assert(holds_path(m, c, k.1));
            let w = choose|w: int|
                0 <= w < leaves.len() && under(self.spot(#[trigger] leaves[w]), c) && self.label(leaves[w])
                    == k.1;
            assert(more[w] == leaves[w]);
            assert forall|j: int| 0 <= j < more.len() && (self.at(c, k.1))(#[trigger] more[j]) implies marks(n)
                == self.marks_of(more[j]) by {
                if j < e {
                    assert(leaves[j] == more[j]);
                    assert((self.at(c, k.1))(leaves[j]));
                } else {
                    self.lemma_spots(more, w, e);
                    assert((self.at(c, k.1))(leaves[w]));
                    assert(marks(n) == self.marks_of(leaves[w]));
                    assert(self.spot(more[w]) == self.spot(more[j]));
                }
            }
            if !self.at_home(more, c, k.1) {
                if self.at_home(leaves, c, k.1) {
                    let j = choose|j: int| 0 <= j < leaves.len() && (self.at(c, k.1))(#[trigger] leaves[j]);
                    assert((self.at(c, k.1))(more[j]));
                }
            }
        }
        assert((self.at(spot, tag))(more[e]));
        if beyond(self.root, leaf.path) > self.depth {
            let parent = summary_parent(self.root, leaf.path, self.depth);
            let k: Key = (parent, tag);
            let s = family(m, k);
            let t = summed_up(s, spot, leaf);
            let m2 = m.insert(k, t);
            assert(spot.parent() == Some(parent));
            assert forall|k2: Key, i: int| m2.contains_key(k2) && 0 <= i < m2[k2].len() implies self.well_marked(
                #[trigger] m2[k2][i],
                k2.1,
                more,
            ) by {
                if k2 != k {
                    assert(m2[k2][i] == m[k2][i]);
                    assert(self.well_marked(m[k2][i], k2.1, more));
                } else if i < s.len() {
                    assert(s[i] == m[k][i]);
                    assert(self.well_marked(m[k][i], k.1, more));
                    if has_path(s, spot) {
                        assert(s[place_of(s, spot)].path == spot);
                    }
                    assert(marks(t[i]) == marks(s[i]) && t[i].path == s[i].path);
                } else {
                    assert(t[i].path == spot);
                    assert(marks(t[i]) == self.marks_of(leaf));
                    assert forall|j: int|
                        0 <= j < more.len() && (self.at(spot, tag))(#[trigger] more[j]) implies marks(t[i])
                        == self.marks_of(more[j]) by {
                        assert(self.spot(more[e]) == self.spot(more[j]));
                    }
                }
            }
            let dir = dir_node(self.colors, parent, tag);
            lemma_prefix_step(spot, parent);
            assert(under(parent, parent));
            assert(under(spot, parent));
            assert(parent != spot) by {
                assert(parent.comps.len() + 1 == spot.comps.len());
            }
            assert(!self.at_home(more, parent, tag));
            assert forall|c: PathView| #[trigger] under(dir.path, c) && c != dir.path implies !self.at_home(
                more,
                c,
                tag,
            ) by {
                lemma_prefix_step(spot, c);
                assert(under(spot, c));
                assert(c.comps.len() <= parent.comps.len());
            }
            self.lemma_climb_marked(m2, tag, dir, more);
        } else {
            assert(spot == leaf.path);
            assert forall|j: int|
                0 <= j < more.len() && (self.at(leaf.path, tag))(#[trigger] more[j]) implies marks(leaf)
                == self.marks_of(more[j]) by {
                assert(self.spot(more[e]) == self.spot(more[j]));
            }
            self.lemma_climb_marked(m, tag, leaf, more);
        }
    }

    /// What is known of the families of leaves.
    pub open spec fn known(self, leaves: Seq<Node>) -> bool {
        &&& self.is_scan(leaves)
        &&& self.alike(leaves)
        &&& forall|i: int| 0 <= i < leaves.len() ==> (#[trigger] leaves[i]).subtree.len() == 0
    }

    pub proof fn lemma_known_part(self, leaves: Seq<Node>, from: int, to: int)
        requires
            self.known(leaves),
            0 <= from <= to <= leaves.len(),
        ensures
            self.known(leaves.subrange(from, to)),
    {
        let part = leaves.subrange(from, to);
        assert forall|i: int| 0 <= i < part.len() implies under((#[trigger] part[i]).path, self.root)
            && part[i].path != self.root && part[i].subtree.len() == 0 by {
            assert(part[i] == leaves[from + i]);
        }
        assert forall|i: int, j: int| 0 <= i < part.len() && 0 <= j < part.len() && i != j implies !under(
            (#[trigger] part[i]).path,
            (#[trigger] part[j]).path,
        ) by {
            assert(part[i] == leaves[from + i] && part[j] == leaves[from + j]);
        }
        assert forall|i: int, j: int|
            0 <= i < part.len() && 0 <= j < part.len() && self.spot(#[trigger] part[i]) == self.spot(
                #[trigger] part[j],
            ) implies self.marks_of(part[i]) == self.marks_of(part[j]) by {
            assert(part[i] == leaves[from + i] && part[j] == leaves[from + j]);
        }
    }

    pub proof fn lemma_families_marked(self, leaves: Seq<Node>)
        requires
            self.known(leaves),
        ensures
            self.kept(self.families(leaves), leaves),
            self.all_marked(self.families(leaves), leaves),
            all_bare(self.families(leaves)),
        decreases leaves.len(),
    {
        self.lemma_kept(leaves);
        if leaves.len() > 0 {
            let d = leaves.drop_last();
            let leaf = leaves.last();
            assert(leaves[leaves.len() - 1] == leaf);
            assert(leaves =~= d.push(leaf));
            assert(d =~= leaves.subrange(0, leaves.len() - 1));
            self.lemma_known_part(leaves, 0, leaves.len() - 1);
            self.lemma_families_marked(d);
            self.lemma_plant_marked(self.families(d), d, leaf);
            self.lemma_planted_bare(self.families(d), leaf);
        }
    }

    proof fn lemma_planted_bare(self, m: Map<Key, Seq<Node>>, leaf: Node)
        requires
            leaf.subtree.len() == 0,
            all_bare(m),
        ensures
            all_bare(plant(self.colors, self.root, self.depth, self.xray, m, leaf)),
    {
        let tag = leaf_tag(self.xray, leaf.path);
        if beyond(self.root, leaf.path) > self.depth {
            let parent = summary_parent(self.root, leaf.path, self.depth);
            let k: Key = (parent, tag);
            let s = family(m, k);
            let spot = self.spot(leaf);
            let m1 = m.insert(k, summed_up(s, spot, leaf));
            assert forall|k2: Key, i: int| m1.contains_key(k2) && 0 <= i < m1[k2].len() implies (
            #[trigger] m1[k2][i]).subtree.len() == 0 by {
                if k2 != k || i < s.len() {
                    assert(m[k2][i].subtree.len() == 0);
                    if k2 == k && has_path(s, spot) {
                        assert(s[place_of(s, spot)].path == spot);
                    }
                }
            }
            lemma_climb_bare(self, m1, tag, dir_node(self.colors, parent, tag));
        } else {
            lemma_climb_bare(self, m, tag, leaf);
        }
    }

    /// The trees of leaves below a path.
    pub open spec fn tree(self, leaves: Seq<Node>, path: PathView, tag: Option<Seq<u8>>) -> Seq<(nat, Node)> {
        tree_of(self.families(leaves), path, tag)
    }

    /// The entries below a path, before they are sorted.
    pub open spec fn level(self, leaves: Seq<Node>, path: PathView, tag: Option<Seq<u8>>) -> Seq<Node> {
        let kids = family(self.families(leaves), (path, tag));
        kids.map_values(|n: Node| settled(n, self.tree(leaves, n.path, tag)))
    }

    pub proof fn lemma_level(self, leaves: Seq<Node>, path: PathView, tag: Option<Seq<u8>>)
        requires
            self.known(leaves),
        ensures
            self.tree(leaves, path, tag) == offsets(sort_nodes(self.level(leaves, path, tag))),
            paths_differ(self.level(leaves, path, tag)),
    {
        self.lemma_families_marked(leaves);
        let m = self.families(leaves);
        let key: Key = (path, tag);
        let g = self.level(leaves, path, tag);
        if m.contains_key(key) {
            let rest = m.remove(key);
            let kids = m[key];
            lemma_grown(rest, kids, tag);
            assert forall|i: int| 0 <= i < kids.len() implies grown(rest, kids, tag)[i] == g[i] by {
                let c = kids[i].path;
                assert(m[key][i].path.parent() == Some(path));
                assert forall|q: PathView| #[trigger] under(q, c) implies m.contains_key((q, tag))
                    == rest.contains_key((q, tag)) && (m.contains_key((q, tag)) ==> m[(q, tag)] == rest[(
                    q,
                    tag,
                )]) by {
                    lemma_under_child(q, c, path);
                }
                lemma_agree(m, rest, c, tag);
            }
            assert(grown(rest, kids, tag) =~= g);
            assert forall|i: int, j: int|
                0 <= i < g.len() && 0 <= j < g.len() && i != j implies (#[trigger] g[i]).path != (
            #[trigger] g[j]).path by {
                if i < j {
                    assert(m[key][i].path != m[key][j].path);
                } else {
                    assert(m[key][j].path != m[key][i].path);
                }
            }
        } else {
            assert(g =~= Seq::empty());
            assert(sort_nodes(g) =~= Seq::empty());
            assert(offsets(sort_nodes(g)) =~= Seq::empty());
        }
    }

    /// Whether an entry is the one at its path that the forest of leaves has
    /// below another path.
    pub open spec fn is_full(self, v: Node, leaves: Seq<Node>, path: PathView, tag: Option<Seq<u8>>) -> bool {
        &&& v.path.parent() == Some(path)
        &&& self.touched(leaves, v.path, tag)
        &&& self.well_marked(v, tag, leaves)
        &&& v.size == sum_if(leaves, self.below(v.path, tag), w_size())
        &&& v.nfiles == sum_if(leaves, self.below(v.path, tag), w_nfiles())
        &&& v.subtree == self.tree(leaves, v.path, tag)
        &&& v.leaves == if v.subtree.len() == 0 {
            1
        } else {
            sum_leaves(bare(v.subtree))
        }
    }

    pub proof fn lemma_level_full(self, leaves: Seq<Node>, path: PathView, tag: Option<Seq<u8>>)
        requires
            self.known(leaves),
        ensures
            forall|i: int|
                0 <= i < self.level(leaves, path, tag).len() ==> self.is_full(
                    #[trigger] self.level(leaves, path, tag)[i],
                    leaves,
                    path,
                    tag,
                ),
            forall|c: PathView|
                c.parent() == Some(path) && #[trigger] self.touched(leaves, c, tag) ==> has_path(
                    self.level(leaves, path, tag),
                    c,
                ),
    {
        self.lemma_families_marked(leaves);
        let m = self.families(leaves);
        let key: Key = (path, tag);
        let g = self.level(leaves, path, tag);
        let kids = family(m, key);
        assert forall|i: int| 0 <= i < g.len() implies self.is_full(#[trigger] g[i], leaves, path, tag) by {
            let n = m[key][i];
            let rest = m.remove(key);
            assert(n.path.parent() == Some(path));
            assert(self.well_marked(m[key][i], tag, leaves));
            assert(m[key][i].subtree.len() == 0);
            assert(has_path(family(m, key), n.path)) by {
                assert(kids[i].path == n.path);
            }
            assert(holds_path(m, n.path, tag));
            assert forall|q: PathView| #[trigger] under(q, n.path) implies m.contains_key((q, tag))
                == rest.contains_key((q, tag)) && (m.contains_key((q, tag)) ==> m[(q, tag)] == rest[(q, tag)]) by {
                lemma_under_child(q, n.path, path);
            }
            lemma_agree(m, rest, n.path, tag);
            self.lemma_exact_kid(m, m, path, tag, leaves, i);
            let below = self.tree(leaves, n.path, tag);
            if below.len() == 0 {
                assert(below =~= Seq::empty());
                assert(n.subtree =~= Seq::empty());
            }
        }
        assert forall|c: PathView|
            c.parent() == Some(path) && #[trigger] self.touched(leaves, c, tag) implies has_path(g, c) by {
            assert(holds_path(m, c, tag));
            let i = choose|i: int| 0 <= i < kids.len() && (#[trigger] kids[i]).path == c;
            assert(g[i].path == c);
        }
    }

    pub proof fn lemma_full_one(self, u: Node, v: Node, leaves: Seq<Node>, path: PathView, tag: Option<Seq<u8>>)
        requires
            self.is_full(u, leaves, path, tag),
            self.is_full(v, leaves, path, tag),
            u.path == v.path,
        ensures
            u == v,
    {
        assert(marks(u) == marks(v)) by {
            if self.at_home(leaves, u.path, tag) {
                let j = choose|j: int|
                    0 <= j < leaves.len() && (self.at(u.path, tag))(#[trigger] leaves[j]);
                assert(marks(u) == self.marks_of(leaves[j]));
                assert(marks(v) == self.marks_of(leaves[j]));
            }
        }
    }

    pub proof fn lemma_touched_add(self, a: Seq<Node>, b: Seq<Node>, c: PathView, tag: Option<Seq<u8>>)
        ensures
            self.touched(a + b, c, tag) == (self.touched(a, c, tag) || self.touched(b, c, tag)),
            self.at_home(a + b, c, tag) == (self.at_home(a, c, tag) || self.at_home(b, c, tag)),
    {
        let all = a + b;
        if self.touched(a, c, tag) {
            let j = choose|j: int|
                0 <= j < a.len() && under(self.spot(#[trigger] a[j]), c) && self.label(a[j]) == tag;
            assert(all[j] == a[j]);
        }
        if self.touched(b, c, tag) {
            let j = choose|j: int|
                0 <= j < b.len() && under(self.spot(#[trigger] b[j]), c) && self.label(b[j]) == tag;
            assert(all[a.len() + j] == b[j]);
        }
        if self.touched(all, c, tag) {
            let j = choose|j: int|
                0 <= j < all.len() && under(self.spot(#[trigger] all[j]), c) && self.label(all[j]) == tag;
            if j < a.len() {
                assert(a[j] == all[j]);
            } else {
                assert(b[j - a.len()] == all[j]);
            }
        }
        if self.at_home(a, c, tag) {
            let j = choose|j: int| 0 <= j < a.len() && (self.at(c, tag))(#[trigger] a[j]);
            assert((self.at(c, tag))(all[j]));
        }
        if self.at_home(b, c, tag) {
            let j = choose|j: int| 0 <= j < b.len() && (self.at(c, tag))(#[trigger] b[j]);
            assert((self.at(c, tag))(all[a.len() + j]));
        }
        if self.at_home(all, c, tag) {
            let j = choose|j: int| 0 <= j < all.len() && (self.at(c, tag))(#[trigger] all[j]);
            if j < a.len() {
                assert((self.at(c, tag))(a[j]));
            } else {
                assert((self.at(c, tag))(b[j - a.len()]));
            }
        }
    }

    /// Where no leaf is counted below a path, there is no tree.
    pub proof fn lemma_untouched(self, leaves: Seq<Node>, c: PathView, tag: Option<Seq<u8>>)
        requires
            self.known(leaves),
            !self.touched(leaves, c, tag),
        ensures
            self.tree(leaves, c, tag).len() == 0,
            sum_if(leaves, self.below(c, tag), w_size()) == 0,
            sum_if(leaves, self.below(c, tag), w_nfiles()) == 0,
    {
        self.lemma_families_marked(leaves);
        let m = self.families(leaves);
        if m.contains_key((c, tag)) {
            let d = m[(c, tag)][0].path;
            assert(m[(c, tag)][0].path.parent() == Some(c));
            assert(has_path(family(m, (c, tag)), d));
            assert(holds_path(m, d, tag));
            let j = choose|j: int|
                0 <= j < leaves.len() && under(self.spot(#[trigger] leaves[j]), d) && self.label(leaves[j])
                    == tag;
            lemma_under_child(self.spot(leaves[j]), d, c);
        }
        assert forall|j: int| 0 <= j < leaves.len() implies !(self.below(c, tag))(#[trigger] leaves[j]) by {
            if (self.below(c, tag))(leaves[j]) {
                assert(under(self.spot(leaves[j]), c) && self.label(leaves[j]) == tag);
            }
        }
        lemma_sum_if_none(leaves, self.below(c, tag), w_size());
        lemma_sum_if_none(leaves, self.below(c, tag), w_nfiles());
    }

    /// The marks of an entry of some leaves are those that it has for more
    /// leaves.
    proof fn lemma_marks_grow(self, v: Node, part: Seq<Node>, a: Seq<Node>, b: Seq<Node>, path: PathView, tag: Option<Seq<u8>>)
        requires
            self.known(a + b),
            part == a || part == b,
            self.is_full(v, part, path, tag),
        ensures
            self.well_marked(v, tag, a + b),
    {
        let all = a + b;
        let c = v.path;
        let shift = if part == a {
            0
        } else {
            a.len() as int
        };
        assert forall|j: int| 0 <= j < part.len() implies part[j] == all[shift + j] by {}
        let w = choose|w: int|
            0 <= w < part.len() && under(self.spot(#[trigger] part[w]), c) && self.label(part[w]) == tag;
        self.lemma_touched_add(a, b, c, tag);
        assert forall|j: int| 0 <= j < all.len() && (self.at(c, tag))(#[trigger] all[j]) implies marks(v)
            == self.marks_of(all[j]) by {
            let e = shift + w;
            assert(all[e] == part[w]);
            if e != j {
                self.lemma_spots(all, e, j);
            }
            assert(self.spot(all[e]) == self.spot(all[j]));
            assert((self.at(c, tag))(part[w]));
            assert(marks(v) == self.marks_of(part[w]));
        }
        if !self.at_home(all, c, tag) {
            assert(!self.at_home(part, c, tag));
        }
    }

    /// Merging the trees of some leaves and of others below a path gives the
    /// trees of all of them.
    pub proof fn lemma_trees_merge(self, a: Seq<Node>, b: Seq<Node>, path: PathView, tag: Option<Seq<u8>>, most: nat)
        requires
            self.known(a + b),
            forall|j: int|
                0 <= j < (a + b).len() ==> self.spot(#[trigger] (a + b)[j]).comps.len() <= most,
        ensures
            merged(self.tree(a, path, tag), self.tree(b, path, tag)) == self.tree(a + b, path, tag),
        decreases most - path.comps.len(), 1nat,
    {
        let all = a + b;
        self.lemma_known_part(all, 0, a.len() as int);
        self.lemma_known_part(all, a.len() as int, all.len() as int);
        assert(all.subrange(0, a.len() as int) =~= a);
        assert(all.subrange(a.len() as int, all.len() as int) =~= b);
        let ga = self.level(a, path, tag);
        let gb = self.level(b, path, tag);
        let gl = self.level(all, path, tag);
        self.lemma_level(a, path, tag);
        self.lemma_level(b, path, tag);
        self.lemma_level(all, path, tag);
        self.lemma_level_full(a, path, tag);
        self.lemma_level_full(b, path, tag);
        self.lemma_level_full(all, path, tag);
        let sa = sort_nodes(ga);
        let sb = sort_nodes(gb);
        lemma_sorted_members(ga);
        lemma_sorted_members(gb);
        offsets_keep_entries(sa);
        offsets_keep_entries(sb);
        let both = sa + sb;
        let fused = fuse(both);
        let keys = keys_of(both);
        lemma_fuse_keys(both, keys);
        // Every fused entry is the entry of all leaves at its path.
        assert forall|i: int| 0 <= i < fused.len() implies self.is_full(#[trigger] fused[i], all, path, tag)
            && key_of(fused[i]) == keys[i] by {
            lemma_has_key(both, i);
            self.lemma_group_full(a, b, sa, sb, path, tag, keys[i], most);
        }
        keys_distinct(both);
        assert forall|i: int, j: int|
            0 <= i < fused.len() && 0 <= j < fused.len() && i != j implies (#[trigger] fused[i]).path != (
        #[trigger] fused[j]).path by {
            if fused[i].path == fused[j].path {
                self.lemma_full_one(fused[i], fused[j], all, path, tag);
                assert(keys[i] == keys[j]);
            }
        }
        assert forall|v: Node| fused.contains(v) <==> #[trigger] gl.contains(v) by {
            if fused.contains(v) {
                let i = choose|i: int| 0 <= i < fused.len() && fused[i] == v;
                assert(self.is_full(fused[i], all, path, tag));
                assert(has_path(gl, v.path));
                let j = choose|j: int| 0 <= j < gl.len() && (#[trigger] gl[j]).path == v.path;
                self.lemma_full_one(gl[j], v, all, path, tag);
            }
            if gl.contains(v) {
                let j = choose|j: int| 0 <= j < gl.len() && gl[j] == v;
                assert(self.is_full(gl[j], all, path, tag));
                self.lemma_touched_add(a, b, v.path, tag);
                let i = self.lemma_found(a, b, sa, sb, v.path, path, tag);
                lemma_all_keys(both);
                assert(keys.contains(key_of(both[i])));
                let q = choose|q: int| 0 <= q < keys.len() && keys[q] == key_of(both[i]);
                assert(fused[q].path == v.path);
                self.lemma_full_one(fused[q], v, all, path, tag);
                assert(fused[q] == v);
            }
        }
        order_does_not_matter(fused, gl);
    }

    proof fn lemma_found(
        self,
        a: Seq<Node>,
        b: Seq<Node>,
        sa: Seq<Node>,
        sb: Seq<Node>,
        c: PathView,
        path: PathView,
        tag: Option<Seq<u8>>,
    ) -> (i: int)
        requires
            self.known(a),
            self.known(b),
            sa == sort_nodes(self.level(a, path, tag)),
            sb == sort_nodes(self.level(b, path, tag)),
            c.parent() == Some(path),
            self.touched(a, c, tag) || self.touched(b, c, tag),
        ensures
            0 <= i < (sa + sb).len(),
            (sa + sb)[i].path == c,
    {
        let both = sa + sb;
        if self.touched(a, c, tag) {
            let g = self.level(a, path, tag);
            self.lemma_level(a, path, tag);
            self.lemma_level_full(a, path, tag);
            assert(has_path(g, c));
            let j = choose|j: int| 0 <= j < g.len() && (#[trigger] g[j]).path == c;
            lemma_sorted_members(g);
            assert(g.contains(g[j]));
            assert(sa.contains(g[j]));
            let i = choose|i: int| 0 <= i < sa.len() && sa[i] == g[j];
            assert(both[i] == sa[i]);
            i
        } else {
            let g = self.level(b, path, tag);
            self.lemma_level(b, path, tag);
            self.lemma_level_full(b, path, tag);
            assert(has_path(g, c));
            let j = choose|j: int| 0 <= j < g.len() && (#[trigger] g[j]).path == c;
            lemma_sorted_members(g);
            assert(g.contains(g[j]));
            assert(sb.contains(g[j]));
            let i = choose|i: int| 0 <= i < sb.len() && sb[i] == g[j];
            assert(both[sa.len() + i] == sb[i]);
            sa.len() + i
        }
    }

    /// A sorted level holds full entries.
    proof fn lemma_sorted_full(self, leaves: Seq<Node>, path: PathView, tag: Option<Seq<u8>>, i: int)
        requires
            self.known(leaves),
            0 <= i < sort_nodes(self.level(leaves, path, tag)).len(),
        ensures
            self.is_full(sort_nodes(self.level(leaves, path, tag))[i], leaves, path, tag),
    {
        let g = self.level(leaves, path, tag);
        self.lemma_level(leaves, path, tag);
        self.lemma_level_full(leaves, path, tag);
        lemma_sorted_members(g);
        let s = sort_nodes(g);
        assert(s.contains(s[i]));
        assert(g.contains(s[i]));
        let j = choose|j: int| 0 <= j < g.len() && g[j] == s[i];
        assert(self.is_full(g[j], leaves, path, tag));
    }

    /// An entry of some leaves that no other leaf adds to is that of all of them.
    proof fn lemma_alone_full(self, x: Node, a: Seq<Node>, b: Seq<Node>, first: bool, path: PathView, tag: Option<Seq<u8>>)
        requires
            self.known(a + b),
            self.known(a),
            self.known(b),
            first ==> self.is_full(x, a, path, tag) && !self.touched(b, x.path, tag),
            !first ==> self.is_full(x, b, path, tag) && !self.touched(a, x.path, tag),
            merged(self.tree(a, x.path, tag), self.tree(b, x.path, tag)) == self.tree(a + b, x.path, tag),
        ensures
            self.is_full(x, a + b, path, tag),
    {
        let c = x.path;
        let part = if first {
            a
        } else {
            b
        };
        let other = if first {
            b
        } else {
            a
        };
        self.lemma_marks_grow(x, part, a, b, path, tag);
        self.lemma_touched_add(a, b, c, tag);
        lemma_sum_if_add(a, b, self.below(c, tag), w_size());
        lemma_sum_if_add(a, b, self.below(c, tag), w_nfiles());
        self.lemma_untouched(other, c, tag);
        assert(self.tree(other, c, tag) =~= Seq::<(nat, Node)>::empty());
        self.lemma_level(part, c, tag);
        merging_nothing_changes_nothing(self.level(part, c, tag));
    }

    /// The entries of some leaves and of others at a path make that of all of
    /// them.
    proof fn lemma_both_full(self, x: Node, y: Node, a: Seq<Node>, b: Seq<Node>, path: PathView, tag: Option<Seq<u8>>)
        requires
            self.known(a + b),
            self.is_full(x, a, path, tag),
            self.is_full(y, b, path, tag),
            x.path == y.path,
            merged(self.tree(a, x.path, tag), self.tree(b, x.path, tag)) == self.tree(a + b, x.path, tag),
        ensures
            self.is_full(fuse_group(seq![x, y]), a + b, path, tag),
            key_of(fuse_group(seq![x, y])) == key_of(x),
    {
        let c = x.path;
        self.lemma_marks_grow(x, a, a, b, path, tag);
        self.lemma_touched_add(a, b, c, tag);
        lemma_sum_if_add(a, b, self.below(c, tag), w_size());
        lemma_sum_if_add(a, b, self.below(c, tag), w_nfiles());
        lemma_fused_pair(x, y, self.tree(a + b, c, tag));
    }

    proof fn lemma_group_full(
        self,
        a: Seq<Node>,
        b: Seq<Node>,
        sa: Seq<Node>,
        sb: Seq<Node>,
        path: PathView,
        tag: Option<Seq<u8>>,
        k: Key,
        most: nat,
    )
        requires
            self.known(a + b),
            self.known(a),
            self.known(b),
            sa == sort_nodes(self.level(a, path, tag)),
            sb == sort_nodes(self.level(b, path, tag)),
            with_key(sa + sb, k).len() > 0,
            forall|j: int|
                0 <= j < (a + b).len() ==> self.spot(#[trigger] (a + b)[j]).comps.len() <= most,
        ensures
            self.is_full(fuse_group(with_key(sa + sb, k)), a + b, path, tag),
            key_of(fuse_group(with_key(sa + sb, k))) == k,
        decreases most - path.comps.len(), 0nat,
    {
        let c = k.0;
        let wa = with_key(sa, k);
        let wb = with_key(sb, k);
        let group = with_key(sa + sb, k);
        lemma_with_key_add(sa, sb, k);
        assert(group == wa + wb);
        self.lemma_own_group(a, path, tag, k);
        self.lemma_own_group(b, path, tag, k);
        assert(wa.len() > 0 || wb.len() > 0);
        self.lemma_touched_add(a, b, c, tag);
        self.lemma_deeper(a + b, path, c, tag, most);
        self.lemma_trees_merge(a, b, c, tag, most);
        if wa.len() > 0 && wb.len() > 0 {
            assert(group =~= seq![wa[0], wb[0]]);
            self.lemma_both_full(wa[0], wb[0], a, b, path, tag);
        } else if wa.len() > 0 {
            if self.touched(b, c, tag) {
                self.lemma_marked_alike(a, b, sa, sb, path, tag, k);
            }
            assert(group =~= seq![wa[0]]);
            self.lemma_alone_full(wa[0], a, b, true, path, tag);
        } else {
            if self.touched(a, c, tag) {
                self.lemma_marked_alike(a, b, sa, sb, path, tag, k);
            }
            assert(group =~= seq![wb[0]]);
            self.lemma_alone_full(wb[0], a, b, false, path, tag);
        }
    }

    /// A sorted level has at most one entry with a key.
    proof fn lemma_own_group(self, leaves: Seq<Node>, path: PathView, tag: Option<Seq<u8>>, k: Key)
        requires
            self.known(leaves),
        ensures
            ({
                let s = sort_nodes(self.level(leaves, path, tag));
                let w = with_key(s, k);
                &&& w.len() <= 1
                &&& (w.len() == 1) == (exists|i: int| 0 <= i < s.len() && key_of(#[trigger] s[i]) == k)
                &&& w.len() == 1 ==> self.is_full(w[0], leaves, path, tag) && key_of(w[0]) == k
            }),
    {
        let g = self.level(leaves, path, tag);
        let s = sort_nodes(g);
        self.lemma_level(leaves, path, tag);
        lemma_sorted_members(g);
        lemma_with_key_one(s, k);
        if exists|i: int| 0 <= i < s.len() && key_of(#[trigger] s[i]) == k {
            let i = choose|i: int| 0 <= i < s.len() && key_of(#[trigger] s[i]) == k;
            self.lemma_sorted_full(leaves, path, tag, i);
            assert(with_key(s, k) == seq![s[i]]);
        }
    }

    /// A path below which a leaf is counted lies no deeper than leaves are counted.
    pub proof fn lemma_deeper(self, leaves: Seq<Node>, path: PathView, c: PathView, tag: Option<Seq<u8>>, most: nat)
        requires
            c.parent() == Some(path),
            self.touched(leaves, c, tag),
            forall|j: int| 0 <= j < leaves.len() ==> self.spot(#[trigger] leaves[j]).comps.len() <= most,
        ensures
            c.comps.len() == path.comps.len() + 1,
            c.comps.len() <= most,
    {
        let w = choose|w: int|
            0 <= w < leaves.len() && under(self.spot(#[trigger] leaves[w]), c) && self.label(leaves[w]) == tag;
        assert(self.spot(leaves[w]).comps.len() >= c.comps.len());
    }

    /// Entries of both parts at one path have one key.
    proof fn lemma_marked_alike(
        self,
        a: Seq<Node>,
        b: Seq<Node>,
        sa: Seq<Node>,
        sb: Seq<Node>,
        path: PathView,
        tag: Option<Seq<u8>>,
        k: Key,
    )
        requires
            self.known(a + b),
            self.known(a),
            self.known(b),
            sa == sort_nodes(self.level(a, path, tag)),
            sb == sort_nodes(self.level(b, path, tag)),
            self.touched(a, k.0, tag),
            self.touched(b, k.0, tag),
            k.0.parent() == Some(path),
            (exists|i: int| 0 <= i < sa.len() && key_of(#[trigger] sa[i]) == k) || (exists|i: int|
                0 <= i < sb.len() && key_of(#[trigger] sb[i]) == k),
        ensures
            exists|i: int| 0 <= i < sa.len() && key_of(#[trigger] sa[i]) == k,
            exists|i: int| 0 <= i < sb.len() && key_of(#[trigger] sb[i]) == k,
    {
        let all = a + b;
        let ga = self.level(a, path, tag);
        let gb = self.level(b, path, tag);
        self.lemma_level(a, path, tag);
        self.lemma_level(b, path, tag);
        self.lemma_level_full(a, path, tag);
        self.lemma_level_full(b, path, tag);
        lemma_sorted_members(ga);
        lemma_sorted_members(gb);
        assert(has_path(ga, k.0));
        assert(has_path(gb, k.0));
        let x = choose|x: int| 0 <= x < ga.len() && (#[trigger] ga[x]).path == k.0;
        let y = choose|y: int| 0 <= y < gb.len() && (#[trigger] gb[y]).path == k.0;
        assert(ga.contains(ga[x]) && gb.contains(gb[y]));
        assert(sa.contains(ga[x]) && sb.contains(gb[y]));
        let i = choose|i: int| 0 <= i < sa.len() && sa[i] == ga[x];
        let j = choose|j: int| 0 <= j < sb.len() && sb[j] == gb[y];
        self.lemma_marks_grow(sa[i], a, a, b, path, tag);
        self.lemma_marks_grow(sb[j], b, a, b, path, tag);
        assert(marks(sa[i]) == marks(sb[j])) by {
            if self.at_home(all, k.0, tag) {
                let q = choose|q: int| 0 <= q < all.len() && (self.at(k.0, tag))(#[trigger] all[q]);
                assert(marks(sa[i]) == self.marks_of(all[q]));
                assert(marks(sb[j]) == self.marks_of(all[q]));
            }
        }
        assert(key_of(sa[i]) == key_of(sb[j]));
        if exists|i2: int| 0 <= i2 < sa.len() && key_of(#[trigger] sa[i2]) == k {
            let i2 = choose|i2: int| 0 <= i2 < sa.len() && key_of(#[trigger] sa[i2]) == k;
            if i2 != i {
                assert(sa[i2].path != sa[i].path);
            }
        } else {
            let j2 = choose|j2: int| 0 <= j2 < sb.len() && key_of(#[trigger] sb[j2]) == k;
            if j2 != j {
                assert(sb[j2].path != sb[j].path);
            }
        }
        assert(key_of(sa[i]) == k);
        assert(key_of(sb[j]) == k);
    }

    /// The trees of leaves are the same in whatever order the leaves come.
    pub proof fn lemma_trees_agree(self, a: Seq<Node>, b: Seq<Node>, path: PathView, tag: Option<Seq<u8>>, most: nat)
        requires
            self.known(a),
            self.known(b),
            a.to_multiset() == b.to_multiset(),
            forall|j: int| 0 <= j < a.len() ==> self.spot(#[trigger] a[j]).comps.len() <= most,
        ensures
            self.tree(a, path, tag) == self.tree(b, path, tag),
        decreases most - path.comps.len(),
    {
        let ga = self.level(a, path, tag);
        let gb = self.level(b, path, tag);
        self.lemma_level(a, path, tag);
        self.lemma_level(b, path, tag);
        self.lemma_level_full(a, path, tag);
        self.lemma_level_full(b, path, tag);
        lemma_shuffled_members(a, b);
        lemma_shuffled_members(b, a);
        assert forall|c: PathView| c.parent() == Some(path) && #[trigger] self.touched(a, c, tag) implies self.tree(
            a,
            c,
            tag,
        ) == self.tree(b, c, tag) by {
            self.lemma_deeper(a, path, c, tag, most);
            self.lemma_trees_agree(a, b, c, tag, most);
        }
        assert forall|v: Node| ga.contains(v) <==> #[trigger] gb.contains(v) by {
            if ga.contains(v) {
                let i = choose|i: int| 0 <= i < ga.len() && ga[i] == v;
                assert(self.is_full(ga[i], a, path, tag));
                self.lemma_shuffled_full(v, a, b, path, tag);
                assert(has_path(gb, v.path));
                let j = choose|j: int| 0 <= j < gb.len() && (#[trigger] gb[j]).path == v.path;
                self.lemma_full_one(gb[j], v, b, path, tag);
            }
            if gb.contains(v) {
                let i = choose|i: int| 0 <= i < gb.len() && gb[i] == v;
                assert(self.is_full(gb[i], b, path, tag));
                self.lemma_shuffled_touched(b, a, v.path, tag);
                self.lemma_shuffled_full(v, b, a, path, tag);
                assert(has_path(ga, v.path));
                let j = choose|j: int| 0 <= j < ga.len() && (#[trigger] ga[j]).path == v.path;
                self.lemma_full_one(ga[j], v, a, path, tag);
            }
        }
        order_does_not_matter(ga, gb);
    }

    pub proof fn lemma_shuffled_touched(self, a: Seq<Node>, b: Seq<Node>, c: PathView, tag: Option<Seq<u8>>)
        requires
            a.to_multiset() == b.to_multiset(),
        ensures
            self.touched(a, c, tag) ==> self.touched(b, c, tag),
            self.at_home(a, c, tag) ==> self.at_home(b, c, tag),
    {
        lemma_shuffled_members(a, b);
        if self.touched(a, c, tag) {
            let j = choose|j: int|
                0 <= j < a.len() && under(self.spot(#[trigger] a[j]), c) && self.label(a[j]) == tag;
            let i = choose|i: int| 0 <= i < b.len() && b[i] == a[j];
            assert(under(self.spot(b[i]), c));
        }
        if self.at_home(a, c, tag) {
            let j = choose|j: int| 0 <= j < a.len() && (self.at(c, tag))(#[trigger] a[j]);
            let i = choose|i: int| 0 <= i < b.len() && b[i] == a[j];
            assert((self.at(c, tag))(b[i]));
        }
    }

    proof fn lemma_shuffled_full(self, v: Node, a: Seq<Node>, b: Seq<Node>, path: PathView, tag: Option<Seq<u8>>)
        requires
            a.to_multiset() == b.to_multiset(),
            self.is_full(v, a, path, tag),
            self.tree(a, v.path, tag) == self.tree(b, v.path, tag),
        ensures
            self.is_full(v, b, path, tag),
    {
        let c = v.path;
        self.lemma_shuffled_touched(a, b, c, tag);
        self.lemma_shuffled_touched(b, a, c, tag);
        lemma_sum_if_shuffled(a, b, self.below(c, tag), w_size());
        lemma_sum_if_shuffled(a, b, self.below(c, tag), w_nfiles());
        lemma_shuffled_members(b, a);
        assert forall|j: int| 0 <= j < b.len() && (self.at(c, tag))(#[trigger] b[j]) implies marks(v)
            == self.marks_of(b[j]) by {
            let i = choose|i: int| 0 <= i < a.len() && a[i] == b[j];
            assert((self.at(c, tag))(a[i]));
        }
    }
}

/// What two entries in one are.
pub proof fn lemma_fused_pair(x: Node, y: Node, below: Seq<(nat, Node)>)
    requires
        merged(x.subtree, y.subtree) == below,
    ensures
        ({
            let n = fuse_group(seq![x, y]);
            &&& n.path == x.path
            &&& marks(n) == marks(x)
            &&& n.size == x.size + y.size
            &&& n.nfiles == x.nfiles + y.nfiles
            &&& n.subtree == below
            &&& n.leaves == if below.len() == 0 {
                1
            } else {
                sum_leaves(bare(below))
            }
        }),
{
    let s = seq![x, y];
    let one = seq![x];
    let none = Seq::<Node>::empty();
    assert(s.drop_last() =~= one);
    assert(one.drop_last() =~= none);
    assert(children(none) =~= none);
    assert(children(one) =~= bare(x.subtree)) by {
        assert(children(one) == children(none) + bare(x.subtree));
    }
    assert(children(s) == children(one) + bare(y.subtree));
    let c = children(s);
    assert(c =~= bare(x.subtree) + bare(y.subtree));
    let f = fuse(c);
    sort_keeps_sums(f);
    offsets_keep_entries(sort_nodes(f));
    crate::accounting::lemma_sort_len(f);
    crate::entry::lemma_sum_push(one, y);
    crate::entry::lemma_sum_one(x);
    assert(one.push(y) =~= s);
    assert(below == offsets(sort_nodes(f)));
    assert(below.len() == f.len());
}

pub proof fn lemma_shuffled_members(a: Seq<Node>, b: Seq<Node>)
    requires
        a.to_multiset() == b.to_multiset(),
    ensures
        a.len() == b.len(),
        forall|i: int| 0 <= i < a.len() ==> b.contains(#[trigger] a[i]),
{
    a.to_multiset_ensures();
    b.to_multiset_ensures();
    assert forall|i: int| 0 <= i < a.len() implies b.contains(#[trigger] a[i]) by {
        assert(a.contains(a[i]));
        assert(a.to_multiset().count(a[i]) > 0);
        assert(b.to_multiset().count(a[i]) > 0);
    }
}

pub proof fn lemma_sum_if_shuffled(a: Seq<Node>, b: Seq<Node>, p: spec_fn(Node) -> bool, w: spec_fn(Node) -> nat)
    requires
        a.to_multiset() == b.to_multiset(),
    ensures
        sum_if(a, p, w) == sum_if(b, p, w),
    decreases b.len(),
{
    lemma_shuffled_members(a, b);
    if b.len() > 0 {
        lemma_shuffled_members(b, a);
        let v = b.last();
        assert(b[b.len() - 1] == v);
        let i = choose|i: int| 0 <= i < a.len() && a[i] == v;
        let head = a.take(i);
        let tail = a.skip(i + 1);
        let one = seq![v];
        assert(a =~= head + one + tail);
        assert(a.remove(i) =~= head + tail);
        a.to_multiset_ensures();
        b.to_multiset_ensures();
        let d = b.drop_last();
        assert(d =~= b.remove(b.len() - 1));
        assert((head + tail).to_multiset() == d.to_multiset());
        lemma_sum_if_shuffled(head + tail, d, p, w);
        lemma_sum_if_add(head + one, tail, p, w);
        lemma_sum_if_add(head, one, p, w);
        lemma_sum_if_add(head, tail, p, w);
        assert(one.drop_last() =~= Seq::empty());
        lemma_sum_if_add(d, one, p, w);
        assert(b =~= d + one);
    }
}

} // verus!
