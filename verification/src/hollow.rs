//! Directories that are counted as leaves since nothing is left in them.
use vstd::prelude::*;
use crate::accounting::Plan;
use crate::conservation::{holds_path, lemma_climb_paths, lemma_climb_related, lemma_prefix_step};
use crate::entry::Node;
use crate::growth::{grown, lemma_grown, tree_of, under};
use crate::keymap::Key;
use crate::lineage::{beyond, climb, dir_node, family, has_path, related};
use crate::matching::{order_does_not_matter, paths_differ};
use crate::path::PathView;

verus! {

/// Whether a map holds families.
pub open spec fn are_families(m: Map<Key, Seq<Node>>) -> bool {
    &&& related(m)
    &&& m.dom().finite()
    &&& forall|k: Key| #[trigger] m.contains_key(k) ==> m[k].len() > 0
}

/// Whether families have the same members.
pub open spec fn same_families(a: Map<Key, Seq<Node>>, b: Map<Key, Seq<Node>>) -> bool {
    forall|k: Key, v: Node| #[trigger] family(a, k).contains(v) <==> family(b, k).contains(v)
}

proof fn lemma_families_differ(m: Map<Key, Seq<Node>>, k: Key)
    requires
        related(m),
    ensures
        paths_differ(family(m, k)),
{
    let s = family(m, k);
    assert forall|i: int, j: int| 0 <= i < s.len() && 0 <= j < s.len() && i != j implies (#[trigger] s[i]).path
        != (#[trigger] s[j]).path by {
        if i < j {
            assert(m[k][i].path != m[k][j].path);
        } else {
            assert(m[k][j].path != m[k][i].path);
        }
    }
}

proof fn lemma_removed(m: Map<Key, Seq<Node>>, key: Key)
    requires
        are_families(m),
    ensures
        are_families(m.remove(key)),
        forall|k: Key| #[trigger]
            family(m.remove(key), k) == if k == key {
                Seq::<Node>::empty()
            } else {
                family(m, k)
            },
{
    let r = m.remove(key);
    assert forall|k: Key, i: int| r.contains_key(k) && 0 <= i < r[k].len() implies (#[trigger] r[k][i]).path.parent()
        == Some(k.0) by {
        assert(r[k][i] == m[k][i]);
    }
    assert forall|k: Key, i: int, j: int| r.contains_key(k) && 0 <= i < j < r[k].len() implies (
    #[trigger] r[k][i]).path != (#[trigger] r[k][j]).path by {
        assert(r[k][i] == m[k][i] && r[k][j] == m[k][j]);
    }
}

/// Families with the same members make the same trees.
pub proof fn lemma_same_trees(a: Map<Key, Seq<Node>>, b: Map<Key, Seq<Node>>, path: PathView, tag: Option<Seq<u8>>)
    requires
        are_families(a),
        are_families(b),
        same_families(a, b),
    ensures
        tree_of(a, path, tag) == tree_of(b, path, tag),
    decreases a.dom().len(),
{
    let key: Key = (path, tag);
    if a.contains_key(key) {
        assert(family(a, key).contains(a[key][0]));
        assert(family(b, key).contains(a[key][0]));
        let ra = a.remove(key);
        let rb = b.remove(key);
        lemma_removed(a, key);
        lemma_removed(b, key);
        assert forall|k: Key, v: Node| #[trigger] family(ra, k).contains(v) <==> family(rb, k).contains(v) by {
            assert(family(a, k).contains(v) <==> family(b, k).contains(v));
        }
        let ka = a[key];
        let kb = b[key];
        lemma_grown(ra, ka, tag);
        lemma_grown(rb, kb, tag);
        let ga = grown(ra, ka, tag);
        let gb = grown(rb, kb, tag);
        lemma_families_differ(a, key);
        lemma_families_differ(b, key);
        assert forall|i: int, j: int| 0 <= i < ga.len() && 0 <= j < ga.len() && i != j implies (
        #[trigger] ga[i]).path != (#[trigger] ga[j]).path by {
            assert(family(a, key)[i].path != family(a, key)[j].path);
        }
        assert forall|i: int, j: int| 0 <= i < gb.len() && 0 <= j < gb.len() && i != j implies (
        #[trigger] gb[i]).path != (#[trigger] gb[j]).path by {
            assert(family(b, key)[i].path != family(b, key)[j].path);
        }
        assert forall|v: Node| ga.contains(v) <==> #[trigger] gb.contains(v) by {
            if ga.contains(v) {
                let i = choose|i: int| 0 <= i < ga.len() && ga[i] == v;
                assert(family(a, key).contains(ka[i]));
                let j = choose|j: int| 0 <= j < kb.len() && kb[j] == ka[i];
                lemma_same_trees(ra, rb, ka[i].path, tag);
                assert(gb[j] == v);
            }
            if gb.contains(v) {
                let j = choose|j: int| 0 <= j < gb.len() && gb[j] == v;
                assert(family(b, key).contains(kb[j]));
                assert(family(a, key).contains(kb[j]));
                let i = choose|i: int| 0 <= i < ka.len() && ka[i] == kb[j];
                lemma_same_trees(ra, rb, ka[i].path, tag);
                assert(ga[i] == v);
            }
        }
        order_does_not_matter(ga, gb);
    } else {
        if b.contains_key(key) {
            assert(family(b, key).contains(b[key][0]));
            assert(family(a, key).contains(b[key][0]));
        }
    }
}

impl Plan {
    /// Whether an entry is an empty directory.
    pub open spec fn is_hollow(self, x: Node) -> bool {
        x == dir_node(self.colors, x.path, None)
    }

    /// Whether leaves lie below the root, and nothing below those of them that are
    /// no directories.
    pub open spec fn is_loose(self, leaves: Seq<Node>) -> bool {
        &&& forall|i: int|
            0 <= i < leaves.len() ==> under((#[trigger] leaves[i]).path, self.root) && leaves[i].path != self.root
                && beyond(self.root, leaves[i].path) <= self.depth
        &&& forall|i: int, j: int|
            0 <= i < leaves.len() && 0 <= j < leaves.len() && i != j && !self.is_hollow(leaves[i]) ==> !under(
                (#[trigger] leaves[j]).path,
                (#[trigger] leaves[i]).path,
            )
    }

    /// Whether a leaf that is no directory has a path.
    pub open spec fn has_file(self, leaves: Seq<Node>, c: PathView) -> bool {
        exists|j: int| 0 <= j < leaves.len() && self.is_file_at(#[trigger] leaves[j], c)
    }

    pub open spec fn is_file_at(self, x: Node, c: PathView) -> bool {
        x.path == c && !self.is_hollow(x)
    }

    /// The entry that leaves have at a path: the leaf, or a directory.
    pub open spec fn entry_at(self, leaves: Seq<Node>, c: PathView) -> Node {
        if self.has_file(leaves, c) {
            leaves[choose|j: int| 0 <= j < leaves.len() && self.is_file_at(#[trigger] leaves[j], c)]
        } else {
            dir_node(self.colors, c, None)
        }
    }

    /// Whether families are those of loose leaves.
    pub open spec fn fits(self, m: Map<Key, Seq<Node>>, leaves: Seq<Node>) -> bool {
        &&& are_families(m)
        &&& forall|c: PathView, t: Option<Seq<u8>>| #[trigger]
            holds_path(m, c, t) <==> c.comps.len() > 0 && self.touched(leaves, c, t)
        &&& self.all_right(m, leaves)
    }

    pub open spec fn all_right(self, m: Map<Key, Seq<Node>>, leaves: Seq<Node>) -> bool {
        forall|k: Key, i: int|
            m.contains_key(k) && 0 <= i < m[k].len() ==> (#[trigger] m[k][i]) == self.entry_at(
                leaves,
                m[k][i].path,
            )
    }

    pub proof fn lemma_one_file(self, leaves: Seq<Node>, x: Node, c: PathView)
        requires
            self.is_loose(leaves),
            leaves.contains(x),
            self.is_file_at(x, c),
        ensures
            self.entry_at(leaves, c) == x,
    {
        let i = choose|i: int| 0 <= i < leaves.len() && leaves[i] == x;
        assert(self.is_file_at(leaves[i], c));
        let j = choose|j: int| 0 <= j < leaves.len() && self.is_file_at(#[trigger] leaves[j], c);
        if i != j {
            assert(under(c, c));
            assert(!under(leaves[j].path, leaves[i].path));
        }
    }

    proof fn lemma_climb_right(self, m: Map<Key, Seq<Node>>, n: Node, leaves: Seq<Node>)
        requires
            self.all_right(m, leaves),
            n == self.entry_at(leaves, n.path),
            forall|c: PathView| #[trigger] under(n.path, c) && c != n.path ==> !self.has_file(leaves, c),
        ensures
            self.all_right(climb(self.colors, m, None, n), leaves),
        decreases n.path.comps.len(),
    {
        if let Some(parent) = n.path.parent() {
            let k: Key = (parent, None);
            let s = family(m, k);
            if !has_path(s, n.path) {
                let m2 = m.insert(k, s.push(n));
                assert forall|k2: Key, i: int| m2.contains_key(k2) && 0 <= i < m2[k2].len() implies (
                #[trigger] m2[k2][i]) == self.entry_at(leaves, m2[k2][i].path) by {
                    if k2 != k || i < s.len() {
                        assert(m[k2][i] == m2[k2][i]);
                    }
                }
                assert(under(parent, parent));
                lemma_prefix_step(n.path, parent);
                assert forall|c: PathView| #[trigger] under(parent, c) && c != parent implies !self.has_file(
                    leaves,
                    c,
                ) by {
                    lemma_prefix_step(n.path, c);
                    assert(under(n.path, c));
                }
                self.lemma_climb_right(m2, dir_node(self.colors, parent, None), leaves);
            }
        }
    }

    /// The families of loose leaves hold at each path the entry that they have
    /// there.
    pub proof fn lemma_loose(self, leaves: Seq<Node>)
        requires
            !self.xray,
            self.is_loose(leaves),
        ensures
            self.fits(self.families(leaves), leaves),
        decreases leaves.len(),
    {
        let r = self.families(leaves);
        if leaves.len() == 0 {
            assert forall|c: PathView, t: Option<Seq<u8>>| #[trigger] holds_path(r, c, t) <==> c.comps.len() > 0
                && self.touched(leaves, c, t) by {
                assert(!r.contains_key((c.parent()->0, t)));
            }
        } else {
            let d = leaves.drop_last();
            let e = leaves.len() - 1;
            let x = leaves[e];
            let m = self.families(d);
            assert(leaves =~= d.push(x));
            assert forall|i: int| 0 <= i < d.len() implies under((#[trigger] d[i]).path, self.root) && d[i].path
                != self.root && beyond(self.root, d[i].path) <= self.depth by {
                assert(d[i] == leaves[i]);
            }
            assert forall|i: int, j: int|
                0 <= i < d.len() && 0 <= j < d.len() && i != j && !self.is_hollow(d[i]) implies !under(
                (#[trigger] d[j]).path,
                (#[trigger] d[i]).path,
            ) by {
                assert(d[i] == leaves[i] && d[j] == leaves[j]);
            }
            self.lemma_loose(d);
            assert(beyond(self.root, x.path) <= self.depth);
            assert(r == climb(self.colors, m, None, x));
            self.lemma_loose_step(m, d, x);
        }
    }

    proof fn lemma_loose_step(self, m: Map<Key, Seq<Node>>, d: Seq<Node>, x: Node)
        requires
            !self.xray,
            self.is_loose(d.push(x)),
            self.fits(m, d),
        ensures
            self.fits(climb(self.colors, m, None, x), d.push(x)),
    {
        let leaves = d.push(x);
        let e = d.len() as int;
        let r = climb(self.colors, m, None, x);
        assert(leaves[e] == x);
        self.lemma_spot(x);
        assert forall|c: PathView, t: Option<Seq<u8>>, b: PathView|
            #[trigger] holds_path(m, c, t) && c.comps.len() <= x.path.comps.len() && #[trigger] under(c, b)
                && b.comps.len() > 0 implies holds_path(m, b, t) by {
            let j = choose|j: int|
                0 <= j < d.len() && under(self.spot(#[trigger] d[j]), c) && self.label(d[j]) == t;
            assert(b.comps =~= self.spot(d[j]).comps.take(b.comps.len() as int));
            assert(under(self.spot(d[j]), b));
            assert(self.touched(d, b, t));
        }
        lemma_climb_paths(self, m, None, x);
        lemma_climb_related(self, m, None, x);
        assert forall|c: PathView, t: Option<Seq<u8>>| #[trigger] holds_path(r, c, t) <==> c.comps.len() > 0
            && self.touched(leaves, c, t) by {
            self.lemma_touched_push(d, x, c, t);
        }
        // What is there stays right.
        assert forall|k: Key, i: int| m.contains_key(k) && 0 <= i < m[k].len() implies (#[trigger] m[k][i])
            == self.entry_at(leaves, m[k][i].path) by {
            let n = m[k][i];
            let c = n.path;
            assert(n == self.entry_at(d, c));
            assert(n.path.parent() == Some(k.0));
            assert(has_path(family(m, k), c));
            assert(holds_path(m, c, k.1));
            if self.has_file(d, c) {
                let j = choose|j: int| 0 <= j < d.len() && self.is_file_at(#[trigger] d[j], c);
                assert(leaves[j] == d[j]);
                assert(leaves.contains(d[j]));
                self.lemma_one_file(leaves, d[j], c);
            } else if self.has_file(leaves, c) {
                let j = choose|j: int| 0 <= j < leaves.len() && self.is_file_at(#[trigger] leaves[j], c);
                if j < e {
                    assert(d[j] == leaves[j]);
                } else {
                    let w = choose|w: int|
                        0 <= w < d.len() && under(self.spot(#[trigger] d[w]), c) && self.label(d[w]) == k.1;
                    assert(leaves[w] == d[w]);
                    self.lemma_spot(leaves[w]);
                }
            }
        }
        // So is what is new.
        assert(leaves.contains(x));
        assert(x == self.entry_at(leaves, x.path)) by {
            if self.is_hollow(x) {
                if self.has_file(leaves, x.path) {
                    let j = choose|j: int| 0 <= j < leaves.len() && self.is_file_at(#[trigger] leaves[j], x.path);
                    assert(under(x.path, x.path));
                    assert(!under(leaves[e].path, leaves[j].path));
                }
            } else {
                self.lemma_one_file(leaves, x, x.path);
            }
        }
        assert forall|c: PathView| #[trigger] under(x.path, c) && c != x.path implies !self.has_file(leaves, c) by {
            if self.has_file(leaves, c) {
                let j = choose|j: int| 0 <= j < leaves.len() && self.is_file_at(#[trigger] leaves[j], c);
                assert(!under(leaves[e].path, leaves[j].path));
            }
        }
        self.lemma_climb_right(m, x, leaves);
    }

    /// Loose leaves make the same trees if they have the same files, and lie in
    /// the same directories.
    pub proof fn lemma_loose_trees(self, a: Seq<Node>, b: Seq<Node>, path: PathView)
        requires
            !self.xray,
            self.is_loose(a),
            self.is_loose(b),
            forall|c: PathView| #[trigger] self.entry_at(a, c) == self.entry_at(b, c),
            forall|c: PathView, t: Option<Seq<u8>>| #[trigger] self.touched(a, c, t) == self.touched(b, c, t),
        ensures
            self.tree(a, path, None) == self.tree(b, path, None),
    {
        let ma = self.families(a);
        let mb = self.families(b);
        self.lemma_loose(a);
        self.lemma_loose(b);
        assert forall|k: Key, v: Node| #[trigger] family(ma, k).contains(v) <==> family(mb, k).contains(v) by {
            if family(ma, k).contains(v) {
                self.lemma_member_shared(ma, mb, a, b, k, v);
            }
            if family(mb, k).contains(v) {
                assert forall|c: PathView| #[trigger] self.entry_at(b, c) == self.entry_at(a, c) by {
                    assert(self.entry_at(a, c) == self.entry_at(b, c));
                }
                assert forall|c: PathView, t: Option<Seq<u8>>| #[trigger] self.touched(b, c, t) == self.touched(
                    a,
                    c,
                    t,
                ) by {
                    assert(self.touched(a, c, t) == self.touched(b, c, t));
                }
                self.lemma_member_shared(mb, ma, b, a, k, v);
            }
        }
        lemma_same_trees(ma, mb, path, None);
    }

    proof fn lemma_member_shared(
        self,
        ma: Map<Key, Seq<Node>>,
        mb: Map<Key, Seq<Node>>,
        a: Seq<Node>,
        b: Seq<Node>,
        k: Key,
        v: Node,
    )
        requires
            self.fits(ma, a),
            self.fits(mb, b),
            forall|c: PathView| #[trigger] self.entry_at(a, c) == self.entry_at(b, c),
            forall|c: PathView, t: Option<Seq<u8>>| #[trigger] self.touched(a, c, t) == self.touched(b, c, t),
            family(ma, k).contains(v),
        ensures
            family(mb, k).contains(v),
    {
        let s = family(ma, k);
        let i = choose|i: int| 0 <= i < s.len() && s[i] == v;
        assert(ma[k][i] == v);
        assert(ma[k][i].path.parent() == Some(k.0));
        assert(ma[k][i] == self.entry_at(a, v.path));
        assert(has_path(family(ma, k), v.path));
        assert(holds_path(ma, v.path, k.1));
        assert(self.touched(b, v.path, k.1));
        assert(holds_path(mb, v.path, k.1));
        let t = family(mb, k);
        let j = choose|j: int| 0 <= j < t.len() && (#[trigger] t[j]).path == v.path;
        assert(mb[k][j] == self.entry_at(b, v.path));
        assert(t[j] == v);
    }
}

} // verus!
