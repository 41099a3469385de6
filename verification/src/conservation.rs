//! A scan loses nothing: what its forest counts is what its leaves count.
use vstd::prelude::*;
use crate::accounting::{
    lemma_sort_len, lemma_sum_if_all, lemma_sum_if_none, lemma_sum_if_or, lemma_sum_if_same,
    sort_keeps_sums, sum_if, w_nfiles, w_size, Plan,
};
use crate::entry::{bare, sum_nfiles, sum_size, Node};
use crate::growth::{agree, grown, lemma_grown, lemma_under_child, settled, tree_of, under};
use crate::forest::{extensions_distinct, forest_of, group_node, groups};
use crate::keymap::Key;
use crate::lineage::{
    beyond, climb, dir_node, extensions_of, family, has_path, home, leaf_tag, place_of, plant, related,
    summary_name, summary_parent, summed_up,
};
use crate::path::PathView;
use crate::siblings::{offsets, offsets_keep_entries, sort_nodes};

verus! {

/// Whether the families hold an entry at a path.
pub open spec fn holds_path(m: Map<Key, Seq<Node>>, path: PathView, tag: Option<Seq<u8>>) -> bool {
    path.comps.len() > 0 && has_path(family(m, (path.parent()->0, tag)), path)
}

/// Whether the families hold the directories above every entry that is not
/// longer than `len`.
pub open spec fn closed_to(m: Map<Key, Seq<Node>>, len: nat) -> bool {
    forall|c: PathView, t: Option<Seq<u8>>, b: PathView|
        #[trigger] holds_path(m, c, t) && c.comps.len() <= len && #[trigger] under(c, b)
            && b.comps.len() > 0 ==> holds_path(m, b, t)
}

proof fn lemma_added(m: Map<Key, Seq<Node>>, tag: Option<Seq<u8>>, n: Node, c: PathView, t: Option<Seq<u8>>)
    requires
        n.path.comps.len() > 0,
    ensures
        ({
            let k: Key = (n.path.parent()->0, tag);
            holds_path(m.insert(k, family(m, k).push(n)), c, t) == (holds_path(m, c, t) || (c == n.path
                && t == tag))
        }),
{
    let k: Key = (n.path.parent()->0, tag);
    let s = family(m, k);
    let m2 = m.insert(k, s.push(n));
    if c.comps.len() > 0 {
        let kc: Key = (c.parent()->0, t);
        let a = family(m, kc);
        let b = family(m2, kc);
        if kc == k {
            if has_path(a, c) {
                let i = choose|i: int| 0 <= i < a.len() && (#[trigger] a[i]).path == c;
                assert(b[i].path == c);
            }
            if has_path(b, c) {
                let i = choose|i: int| 0 <= i < b.len() && (#[trigger] b[i]).path == c;
                if i < a.len() {
                    assert(a[i].path == c);
                }
            }
            if c == n.path {
                assert(b[s.len() as int].path == c);
            }
        }
    }
}

pub proof fn lemma_climb_paths(
    plan: Plan,
    m: Map<Key, Seq<Node>>,
    tag: Option<Seq<u8>>,
    n: Node,
)
    requires
        closed_to(m, n.path.comps.len()),
    ensures
        forall|c: PathView, t: Option<Seq<u8>>| #[trigger]
            holds_path(climb(plan.colors, m, tag, n), c, t) <==> holds_path(m, c, t) || (t == tag
                && under(n.path, c) && c.comps.len() > 0),
    decreases n.path.comps.len(),
{
    if let Some(parent) = n.path.parent() {
        let k: Key = (parent, tag);
        let s = family(m, k);
        if has_path(s, n.path) {
            assert(holds_path(m, n.path, tag));
        } else {
            let m2 = m.insert(k, s.push(n));
            assert forall|c: PathView, t: Option<Seq<u8>>| #[trigger] holds_path(m2, c, t) == (holds_path(
                m,
                c,
                t,
            ) || (c == n.path && t == tag)) by {
                lemma_added(m, tag, n, c, t);
            }
            let d = dir_node(plan.colors, parent, tag);
            assert(closed_to(m2, d.path.comps.len()));
            lemma_climb_paths(plan, m2, tag, d);
            let r = climb(plan.colors, m2, tag, d);
            assert forall|c: PathView, t: Option<Seq<u8>>| #[trigger] holds_path(r, c, t) <==> holds_path(
                m,
                c,
                t,
            ) || (t == tag && under(n.path, c) && c.comps.len() > 0) by {
                lemma_prefix_step(n.path, c);
                assert(holds_path(m2, c, t) == (holds_path(m, c, t) || (c == n.path && t == tag)));
            }
        }
    }
}

/// A path lies at or above another just if it is the other or lies at or above
/// its parent.
pub proof fn lemma_prefix_step(path: PathView, c: PathView)
    requires
        path.comps.len() > 0,
    ensures
        under(path, c) <==> c == path || under(path.parent()->0, c),
{
    let parent = path.parent()->0;
    if under(path, c) && c != path {
        if c.comps.len() == path.comps.len() {
            assert(c.comps =~= path.comps);
        }
        assert(c.comps =~= parent.comps.take(c.comps.len() as int));
    }
    if under(parent, c) {
        assert(c.comps =~= path.comps.take(c.comps.len() as int));
    }
}

pub proof fn lemma_climb_related(plan: Plan, m: Map<Key, Seq<Node>>, tag: Option<Seq<u8>>, n: Node)
    requires
        related(m),
        m.dom().finite(),
        forall|k: Key| #[trigger] m.contains_key(k) ==> m[k].len() > 0,
    ensures
        related(climb(plan.colors, m, tag, n)),
        climb(plan.colors, m, tag, n).dom().finite(),
        forall|k: Key| #[trigger]
            climb(plan.colors, m, tag, n).contains_key(k) ==> climb(plan.colors, m, tag, n)[k].len() > 0,
    decreases n.path.comps.len(),
{
    if let Some(parent) = n.path.parent() {
        let k: Key = (parent, tag);
        let s = family(m, k);
        if !has_path(s, n.path) {
            let m2 = m.insert(k, s.push(n));
            assert forall|k2: Key, i: int| m2.contains_key(k2) && 0 <= i < m2[k2].len() implies (
            #[trigger] m2[k2][i]).path.parent() == Some(k2.0) by {
                if k2 != k || i < s.len() {
                    assert(m[k2][i] == m2[k2][i]);
                }
            }
            assert forall|k2: Key, i: int, j: int|
                m2.contains_key(k2) && 0 <= i < j < m2[k2].len() implies (#[trigger] m2[k2][i]).path != (
            #[trigger] m2[k2][j]).path by {
                if k2 != k || j < s.len() {
                    assert(m[k2][i] == m2[k2][i]);
                    assert(m[k2][j] == m2[k2][j]);
                } else {
                    assert(s[i] == m2[k][i]);
                }
            }
            lemma_climb_related(plan, m2, tag, dir_node(plan.colors, parent, tag));
        }
    }
}

impl Plan {
    /// The leaves of a scan: each lies below the root, and none is another or
    /// lies below it.
    pub open spec fn is_scan(self, leaves: Seq<Node>) -> bool {
        &&& forall|i: int|
            0 <= i < leaves.len() ==> under((#[trigger] leaves[i]).path, self.root) && leaves[i].path
                != self.root
        &&& forall|i: int, j: int|
            0 <= i < leaves.len() && 0 <= j < leaves.len() && i != j ==> !under(
                (#[trigger] leaves[i]).path,
                (#[trigger] leaves[j]).path,
            )
    }

    pub open spec fn spot(self, x: Node) -> PathView {
        home(self.root, self.depth, x.path)
    }

    pub open spec fn label(self, x: Node) -> Option<Seq<u8>> {
        leaf_tag(self.xray, x.path)
    }

    pub proof fn lemma_spot(self, x: Node)
        requires
            under(x.path, self.root),
            x.path != self.root,
        ensures
            ({
                let n = self.root.comps.len() + self.depth;
                if beyond(self.root, x.path) > self.depth {
                    &&& self.spot(x).absolute == self.root.absolute
                    &&& self.spot(x).comps == x.path.comps.take(n as int).push(summary_name(x.path))
                    &&& x.path.comps.len() > n
                    &&& self.spot(x).parent() == Some(
                        summary_parent(self.root, x.path, self.depth),
                    )
                } else {
                    self.spot(x) == x.path && x.path.comps.len() <= n
                }
            }),
            under(self.spot(x), self.root),
            self.spot(x) != self.root,
    {
        let n = self.root.comps.len() + self.depth;
        assert(x.path.comps.len() > self.root.comps.len()) by {
            if x.path.comps.len() == self.root.comps.len() {
                assert(x.path.comps =~= self.root.comps);
            }
        }
        if beyond(self.root, x.path) > self.depth {
            let p = summary_parent(self.root, x.path, self.depth);
            assert(p.comps =~= x.path.comps.take(n as int));
            assert(self.spot(x).comps.drop_last() =~= p.comps);
        }
    }

    /// No leaf is counted above where another is, and two are counted at one
    /// place only if both lie deep.
    pub proof fn lemma_spots(self, leaves: Seq<Node>, i: int, j: int)
        requires
            self.is_scan(leaves),
            0 <= i < leaves.len(),
            0 <= j < leaves.len(),
            i != j,
        ensures
            under(self.spot(leaves[i]), self.spot(leaves[j])) ==> self.spot(leaves[i]) == self.spot(
                leaves[j],
            ),
            self.spot(leaves[i]) == self.spot(leaves[j]) ==> beyond(self.root, leaves[i].path)
                > self.depth && beyond(self.root, leaves[j].path) > self.depth,
    {
        let a = leaves[i];
        let b = leaves[j];
        self.lemma_spot(a);
        self.lemma_spot(b);
        let n = (self.root.comps.len() + self.depth) as int;
        if under(self.spot(a), self.spot(b)) {
            if self.spot(a).comps.len() == self.spot(b).comps.len() {
                assert(self.spot(a).comps =~= self.spot(b).comps);
            } else if beyond(self.root, b.path) <= self.depth {
                assert(under(a.path, b.path)) by {
                    if beyond(self.root, a.path) > self.depth {
                        assert forall|k: int| 0 <= k < b.path.comps.len() implies b.path.comps[k]
                            == a.path.comps[k] by {
                            assert(b.path.comps[k] == self.spot(a).comps[k]);
                        }
                        assert(b.path.comps =~= a.path.comps.take(b.path.comps.len() as int));
                    }
                }
            }
        }
        if self.spot(a) == self.spot(b) {
            assert(under(self.spot(a), self.spot(b)));
            assert(under(a.path, a.path));
        }
    }

    /// Whether a leaf is counted at a path or below it, in families of a tag.
    pub open spec fn touched(self, leaves: Seq<Node>, path: PathView, tag: Option<Seq<u8>>) -> bool {
        exists|j: int|
            0 <= j < leaves.len() && under(self.spot(#[trigger] leaves[j]), path) && self.label(leaves[j])
                == tag
    }

    /// Every entry counts just what the leaves at its path count.
    pub open spec fn exact(self, m: Map<Key, Seq<Node>>, leaves: Seq<Node>) -> bool {
        forall|k: Key, i: int|
            m.contains_key(k) && 0 <= i < m[k].len() ==> self.just(#[trigger] m[k][i], k.1, leaves)
    }

    pub open spec fn just(self, n: Node, tag: Option<Seq<u8>>, leaves: Seq<Node>) -> bool {
        &&& n.size == sum_if(leaves, self.at(n.path, tag), w_size())
        &&& n.nfiles == sum_if(leaves, self.at(n.path, tag), w_nfiles())
    }

    /// The families hold the places where leaves are counted and the
    /// directories above those, and nothing else.
    pub open spec fn kept(self, m: Map<Key, Seq<Node>>, leaves: Seq<Node>) -> bool {
        &&& related(m)
        &&& m.dom().finite()
        &&& forall|k: Key| #[trigger] m.contains_key(k) ==> m[k].len() > 0
        &&& forall|c: PathView, t: Option<Seq<u8>>| #[trigger]
            holds_path(m, c, t) <==> c.comps.len() > 0 && self.touched(leaves, c, t)
        &&& self.exact(m, leaves)
    }

    proof fn lemma_climb_exact(
        self,
        m: Map<Key, Seq<Node>>,
        tag: Option<Seq<u8>>,
        n: Node,
        leaves: Seq<Node>,
    )
        requires
            self.exact(m, leaves),
            self.just(n, tag, leaves),
            forall|c: PathView| #[trigger]
                under(n.path, c) && c != n.path ==> !self.at_home(leaves, c, tag),
        ensures
            self.exact(climb(self.colors, m, tag, n), leaves),
        decreases n.path.comps.len(),
    {
        if let Some(parent) = n.path.parent() {
            let k: Key = (parent, tag);
            let s = family(m, k);
            if !has_path(s, n.path) {
                let m2 = m.insert(k, s.push(n));
                assert forall|k2: Key, i: int|
                    m2.contains_key(k2) && 0 <= i < m2[k2].len() implies self.just(
                    #[trigger] m2[k2][i],
                    k2.1,
                    leaves,
                ) by {
                    if k2 != k || i < s.len() {
                        assert(m[k2][i] == m2[k2][i]);
                    }
                }
                let d = dir_node(self.colors, parent, tag);
                assert(under(parent, parent));
                lemma_prefix_step(n.path, parent);
                assert(!self.at_home(leaves, parent, tag));
                self.lemma_nothing_at(leaves, parent, tag);
                assert forall|c: PathView| #[trigger] under(parent, c) && c != parent implies !self.at_home(
                    leaves,
                    c,
                    tag,
                ) by {
                    lemma_prefix_step(n.path, c);
                    assert(under(n.path, c));
                }
                self.lemma_climb_exact(m2, tag, d, leaves);
            }
        }
    }

    pub proof fn lemma_nothing_at(self, leaves: Seq<Node>, path: PathView, tag: Option<Seq<u8>>)
        requires
            !self.at_home(leaves, path, tag),
        ensures
            sum_if(leaves, self.at(path, tag), w_size()) == 0,
            sum_if(leaves, self.at(path, tag), w_nfiles()) == 0,
    {
        lemma_sum_if_none(leaves, self.at(path, tag), w_size());
        lemma_sum_if_none(leaves, self.at(path, tag), w_nfiles());
    }

    pub proof fn lemma_touched_push(self, leaves: Seq<Node>, leaf: Node, c: PathView, t: Option<Seq<u8>>)
        ensures
            self.touched(leaves.push(leaf), c, t) == (self.touched(leaves, c, t) || (under(
                self.spot(leaf),
                c,
            ) && self.label(leaf) == t)),
    {
        let more = leaves.push(leaf);
        if self.touched(leaves, c, t) {
            let j = choose|j: int|
                0 <= j < leaves.len() && under(self.spot(#[trigger] leaves[j]), c) && self.label(leaves[j])
                    == t;
            assert(more[j] == leaves[j]);
        }
        if self.touched(more, c, t) {
            let j = choose|j: int|
                0 <= j < more.len() && under(self.spot(#[trigger] more[j]), c) && self.label(more[j]) == t;
            if j < leaves.len() {
                assert(leaves[j] == more[j]);
            }
        }
        if under(self.spot(leaf), c) && self.label(leaf) == t {
            assert(more[leaves.len() as int] == leaf);
        }
    }

    proof fn lemma_closed(self, m: Map<Key, Seq<Node>>, leaves: Seq<Node>, len: nat)
        requires
            self.kept(m, leaves),
        ensures
            closed_to(m, len),
    {
        assert forall|c: PathView, t: Option<Seq<u8>>, b: PathView|
            #[trigger] holds_path(m, c, t) && c.comps.len() <= len && #[trigger] under(c, b)
                && b.comps.len() > 0 implies holds_path(m, b, t) by {
            let j = choose|j: int|
                0 <= j < leaves.len() && under(self.spot(#[trigger] leaves[j]), c) && self.label(leaves[j])
                    == t;
            assert(b.comps =~= self.spot(leaves[j]).comps.take(b.comps.len() as int));
            assert(under(self.spot(leaves[j]), b));
            assert(self.touched(leaves, b, t));
        }
    }

    proof fn lemma_plant_kept(self, m: Map<Key, Seq<Node>>, leaves: Seq<Node>, leaf: Node)
        requires
            self.kept(m, leaves),
            self.is_scan(leaves.push(leaf)),
        ensures
            self.kept(
                plant(self.colors, self.root, self.depth, self.xray, m, leaf),
                leaves.push(leaf),
            ),
    {
        let more = leaves.push(leaf);
        let e = leaves.len() as int;
        let tag = self.label(leaf);
        let spot = self.spot(leaf);
        let r = plant(self.colors, self.root, self.depth, self.xray, m, leaf);
        assert(more[e] == leaf);
        assert(more.drop_last() =~= leaves);
        self.lemma_spot(leaf);
        assert((self.at(spot, tag))(leaf));
        // No leaf is counted at a proper prefix of the new spot.
        assert forall|c: PathView| #[trigger] under(spot, c) && c != spot implies !self.at_home(
            more,
            c,
            tag,
        ) by {
            if self.at_home(more, c, tag) {
                let j = choose|j: int| 0 <= j < more.len() && (self.at(c, tag))(#[trigger] more[j]);
                if j != e {
                    self.lemma_spots(more, e, j);
                }
            }
        }
        self.lemma_closed(m, leaves, spot.comps.len());
        // Entries at other places count what they counted.
        assert forall|k: Key, i: int|
            m.contains_key(k) && 0 <= i < m[k].len() && !((#[trigger] m[k][i]).path == spot && k.1
                == tag) implies self.just(m[k][i], k.1, more) by {
            assert(self.just(m[k][i], k.1, leaves));
            assert(!(self.at(m[k][i].path, k.1))(leaf));
        }
        if beyond(self.root, leaf.path) > self.depth {
            let parent = summary_parent(self.root, leaf.path, self.depth);
            let k: Key = (parent, tag);
            let s = family(m, k);
            let t = summed_up(s, spot, leaf);
            let m2 = m.insert(k, t);
            assert(spot.parent() == Some(parent));
            if !has_path(s, spot) {
                assert(!holds_path(m, spot, tag));
                assert(!self.touched(leaves, spot, tag));
                if self.at_home(leaves, spot, tag) {
                    let j = choose|j: int|
                        0 <= j < leaves.len() && (self.at(spot, tag))(#[trigger] leaves[j]);
                    assert(under(self.spot(leaves[j]), spot));
                }
                self.lemma_nothing_at(leaves, spot, tag);
            }
            assert forall|k2: Key, i: int| m2.contains_key(k2) && 0 <= i < m2[k2].len() implies self.just(
                #[trigger] m2[k2][i],
                k2.1,
                more,
            ) && m2[k2][i].path.parent() == Some(k2.0) by {
                if k2 == k {
                    if has_path(s, spot) {
                        let p = place_of(s, spot);
                        assert(s[p].path == spot);
                        assert(m[k][i].path.parent() == Some(parent));
                        assert(self.just(m[k][i], tag, leaves));
                        if i != p {
                            assert(m[k][i].path != m[k][p].path);
                            assert(m2[k][i] == m[k][i]);
                        }
                    } else if i < s.len() {
                        assert(m[k][i] == m2[k][i]);
                        assert(s[i].path != spot);
                    }
                } else {
                    assert(m[k2][i] == m2[k2][i]);
                    if m[k2][i].path == spot && k2.1 == tag {
                        assert(m[k2][i].path.parent() == Some(k2.0));
                    }
                }
            }
            assert forall|k2: Key, i: int, j: int|
                m2.contains_key(k2) && 0 <= i < j < m2[k2].len() implies (#[trigger] m2[k2][i]).path != (
            #[trigger] m2[k2][j]).path by {
                if k2 == k {
                    if has_path(s, spot) {
                        assert(m[k][i].path != m[k][j].path);
                    } else if j < s.len() {
                        assert(m[k][i].path != m[k][j].path);
                    } else {
                        assert(s[i].path != spot);
                    }
                } else {
                    assert(m[k2][i].path != m[k2][j].path);
                }
            }
            assert(m2[k].len() > 0);
            assert forall|c: PathView, q: Option<Seq<u8>>| #[trigger] holds_path(m2, c, q) == (holds_path(
                m,
                c,
                q,
            ) || (c == spot && q == tag)) by {
                self.lemma_summed_paths(m, tag, leaf, c, q);
            }
            let d = dir_node(self.colors, parent, tag);
            assert(closed_to(m2, parent.comps.len()));
            lemma_climb_paths(self, m2, tag, d);
            lemma_climb_related(self, m2, tag, d);
            assert(under(parent, parent));
            lemma_prefix_step(spot, parent);
            self.lemma_nothing_at(more, parent, tag);
            assert forall|c: PathView| #[trigger] under(parent, c) && c != parent implies !self.at_home(
                more,
                c,
                tag,
            ) by {
                lemma_prefix_step(spot, c);
                assert(under(spot, c));
                assert(c.comps.len() <= parent.comps.len());
            }
            self.lemma_climb_exact(m2, tag, d, more);
            assert forall|c: PathView, q: Option<Seq<u8>>| #[trigger] holds_path(r, c, q) <==> c.comps.len()
                > 0 && self.touched(more, c, q) by {
                self.lemma_touched_push(leaves, leaf, c, q);
                lemma_prefix_step(spot, c);
                assert(holds_path(m2, c, q) == (holds_path(m, c, q) || (c == spot && q == tag)));
            }
        } else {
            assert(spot == leaf.path);
            // No entry is there yet.
            if holds_path(m, spot, tag) {
                let j = choose|j: int|
                    0 <= j < leaves.len() && under(self.spot(#[trigger] leaves[j]), spot) && self.label(
                        leaves[j],
                    ) == tag;
                assert(more[j] == leaves[j]);
                self.lemma_spots(more, j, e);
            }
            assert(!self.at_home(leaves, spot, tag)) by {
                if self.at_home(leaves, spot, tag) {
                    let j = choose|j: int|
                        0 <= j < leaves.len() && (self.at(spot, tag))(#[trigger] leaves[j]);
                    assert(more[j] == leaves[j]);
                    assert(under(spot, spot));
                    self.lemma_spots(more, j, e);
                }
            }
            self.lemma_nothing_at(leaves, spot, tag);
            assert(self.just(leaf, tag, more));
            assert forall|k: Key, i: int| m.contains_key(k) && 0 <= i < m[k].len() implies self.just(
                #[trigger] m[k][i],
                k.1,
                more,
            ) by {
                if m[k][i].path == spot && k.1 == tag {
                    assert(m[k][i].path.parent() == Some(k.0));
                    assert(holds_path(m, spot, tag));
                }
            }
            lemma_climb_paths(self, m, tag, leaf);
            lemma_climb_related(self, m, tag, leaf);
            self.lemma_climb_exact(m, tag, leaf, more);
            assert forall|c: PathView, q: Option<Seq<u8>>| #[trigger] holds_path(r, c, q) <==> c.comps.len()
                > 0 && self.touched(more, c, q) by {
                self.lemma_touched_push(leaves, leaf, c, q);
            }
        }
    }

    proof fn lemma_summed_paths(
        self,
        m: Map<Key, Seq<Node>>,
        tag: Option<Seq<u8>>,
        leaf: Node,
        c: PathView,
        q: Option<Seq<u8>>,
    )
        requires
            self.spot(leaf).comps.len() > 0,
        ensures
            ({
                let spot = self.spot(leaf);
                let k: Key = (spot.parent()->0, tag);
                holds_path(m.insert(k, summed_up(family(m, k), spot, leaf)), c, q) == (holds_path(m, c, q)
                    || (c == spot && q == tag))
            }),
    {
        let spot = self.spot(leaf);
        let k: Key = (spot.parent()->0, tag);
        let s = family(m, k);
        let t = summed_up(s, spot, leaf);
        let m2 = m.insert(k, t);
        if c.comps.len() > 0 {
            let kc: Key = (c.parent()->0, q);
            let a = family(m, kc);
            let b = family(m2, kc);
            if kc == k {
                assert forall|i: int| 0 <= i < s.len() implies (#[trigger] t[i]).path == s[i].path by {
                    if has_path(s, spot) {
                        assert(s[place_of(s, spot)].path == spot);
                    }
                }
                if has_path(a, c) {
                    let i = choose|i: int| 0 <= i < a.len() && (#[trigger] a[i]).path == c;
                    assert(b[i].path == c);
                }
                if has_path(b, c) {
                    let i = choose|i: int| 0 <= i < b.len() && (#[trigger] b[i]).path == c;
                    if i < a.len() {
                        assert(a[i].path == c);
                    }
                }
                if c == spot {
                    if has_path(s, spot) {
                        assert(t[place_of(s, spot)].path == spot);
                    } else {
                        assert(t[s.len() as int].path == spot);
                    }
                }
            }
        }
    }

    pub proof fn lemma_kept(self, leaves: Seq<Node>)
        requires
            self.is_scan(leaves),
        ensures
            self.kept(self.families(leaves), leaves),
        decreases leaves.len(),
    {
        if leaves.len() == 0 {
            let m = self.families(leaves);
            assert forall|c: PathView, t: Option<Seq<u8>>| #[trigger] holds_path(m, c, t) <==> c.comps.len()
                > 0 && self.touched(leaves, c, t) by {
                assert(family(m, (c.parent()->0, t)).len() == 0);
            }
        } else {
            let d = leaves.drop_last();
            assert(leaves =~= d.push(leaves.last()));
            assert(self.is_scan(d)) by {
                assert forall|i: int| 0 <= i < d.len() implies under((#[trigger] d[i]).path, self.root)
                    && d[i].path != self.root by {
                    assert(leaves[i] == d[i]);
                }
                assert forall|i: int, j: int|
                    0 <= i < d.len() && 0 <= j < d.len() && i != j implies !under(
                    (#[trigger] d[i]).path,
                    (#[trigger] d[j]).path,
                ) by {
                    assert(leaves[i] == d[i] && leaves[j] == d[j]);
                }
            }
            self.lemma_kept(d);
            self.lemma_plant_kept(self.families(d), d, leaves.last());
        }
    }

    /// No leaf is counted at a directory that has a family.
    pub proof fn lemma_dir_is_bare(self, m: Map<Key, Seq<Node>>, leaves: Seq<Node>, path: PathView, tag: Option<Seq<u8>>)
        requires
            self.is_scan(leaves),
            self.kept(m, leaves),
            m.contains_key((path, tag)),
        ensures
            !self.at_home(leaves, path, tag),
    {
        let c = m[(path, tag)][0].path;
        assert(m[(path, tag)][0].path.parent() == Some(path));
        assert(holds_path(m, c, tag));
        let j = choose|j: int|
            0 <= j < leaves.len() && under(self.spot(#[trigger] leaves[j]), c) && self.label(leaves[j])
                == tag;
        lemma_under_child(self.spot(leaves[j]), c, path);
        if self.at_home(leaves, path, tag) {
            let i = choose|i: int| 0 <= i < leaves.len() && (self.at(path, tag))(#[trigger] leaves[i]);
            if i != j {
                self.lemma_spots(leaves, j, i);
            }
        }
    }

    /// The child of a directory on the way to where a leaf is counted.
    pub proof fn lemma_next(self, m: Map<Key, Seq<Node>>, leaves: Seq<Node>, path: PathView, j: int) -> (c: PathView)
        requires
            self.kept(m, leaves),
            0 <= j < leaves.len(),
            under(self.spot(leaves[j]), path),
            self.spot(leaves[j]) != path,
        ensures
            c.parent() == Some(path),
            under(self.spot(leaves[j]), c),
            m.contains_key((path, self.label(leaves[j]))),
            has_path(m[(path, self.label(leaves[j]))], c),
    {
        let h = self.spot(leaves[j]);
        let n = path.comps.len() as int;
        if h.comps.len() == n {
            assert(h.comps =~= path.comps);
        }
        let c = PathView { absolute: h.absolute, comps: h.comps.take(n + 1) };
        assert(c.comps.drop_last() =~= path.comps);
        assert(c.parent() == Some(path));
        assert(under(h, c));
        assert(self.touched(leaves, c, self.label(leaves[j])));
        assert(holds_path(m, c, self.label(leaves[j])));
        c
    }

    /// The trees below a directory count just what the leaves below it count.
    proof fn lemma_exact_trees(
        self,
        m: Map<Key, Seq<Node>>,
        r: Map<Key, Seq<Node>>,
        path: PathView,
        tag: Option<Seq<u8>>,
        leaves: Seq<Node>,
    )
        requires
            self.is_scan(leaves),
            self.kept(m, leaves),
            r.dom().finite(),
            agree(m, r, path, tag),
            m.contains_key((path, tag)),
        ensures
            tree_of(r, path, tag).len() > 0,
            sum_size(bare(tree_of(r, path, tag))) == sum_if(leaves, self.below(path, tag), w_size()),
            sum_nfiles(bare(tree_of(r, path, tag))) == sum_if(
                leaves,
                self.below(path, tag),
                w_nfiles(),
            ),
        decreases r.dom().len(), 1nat,
    {
        let key: Key = (path, tag);
        assert(under(path, path));
        let kids = m[key];
        let rest = r.remove(key);
        let g = grown(rest, kids, tag);
        lemma_grown(rest, kids, tag);
        self.lemma_dir_is_bare(m, leaves, path, tag);
        assert forall|i: int| 0 <= i < kids.len() implies (#[trigger] kids[i]).path.parent() == Some(path) by {
            assert(m[key][i].path.parent() == Some(path));
        }
        assert forall|i: int, j: int| 0 <= i < j < kids.len() implies (#[trigger] kids[i]).path != (
        #[trigger] kids[j]).path by {
            assert(m[key][i].path != m[key][j].path);
        }
        assert forall|i: int| 0 <= i < kids.len() implies self.weighed(
            #[trigger] g[i],
            kids[i].path,
            tag,
            leaves,
            true,
        ) by {
            self.lemma_exact_kid(m, r, path, tag, leaves, i);
        }
        self.lemma_kids_sum(g, kids, path, tag, leaves, true);
        assert forall|j: int| 0 <= j < leaves.len() implies (self.below_any(kids, tag))(
            #[trigger] leaves[j],
        ) == (self.below(path, tag))(leaves[j]) by {
            let x = leaves[j];
            if (self.below_any(kids, tag))(x) {
                let i = choose|i: int|
                    0 <= i < kids.len() && (self.below((#[trigger] kids[i]).path, tag))(x);
                lemma_under_child(self.spot(x), kids[i].path, path);
            }
            if (self.below(path, tag))(x) {
                assert(self.spot(x) != path) by {
                    if self.spot(x) == path {
                        assert((self.at(path, tag))(x));
                    }
                }
                let c = self.lemma_next(m, leaves, path, j);
                let i = choose|i: int| 0 <= i < m[key].len() && (#[trigger] m[key][i]).path == c;
                assert((self.below(kids[i].path, tag))(x));
            }
        }
        lemma_sum_if_same(leaves, self.below_any(kids, tag), self.below(path, tag), w_size());
        lemma_sum_if_same(leaves, self.below_any(kids, tag), self.below(path, tag), w_nfiles());
        sort_keeps_sums(g);
        offsets_keep_entries(sort_nodes(g));
        lemma_sort_len(g);
        assert(tree_of(r, path, tag) == offsets(sort_nodes(g)));
    }

    pub proof fn lemma_exact_kid(
        self,
        m: Map<Key, Seq<Node>>,
        r: Map<Key, Seq<Node>>,
        path: PathView,
        tag: Option<Seq<u8>>,
        leaves: Seq<Node>,
        i: int,
    )
        requires
            self.is_scan(leaves),
            self.kept(m, leaves),
            r.dom().finite(),
            agree(m, r, path, tag),
            m.contains_key((path, tag)),
            r.contains_key((path, tag)),
            0 <= i < m[(path, tag)].len(),
        ensures
            self.weighed(
                settled(
                    m[(path, tag)][i],
                    tree_of(r.remove((path, tag)), m[(path, tag)][i].path, tag),
                ),
                m[(path, tag)][i].path,
                tag,
                leaves,
                true,
            ),
        decreases r.dom().len(), 0nat,
    {
        let key: Key = (path, tag);
        let n = m[key][i];
        let rest = r.remove(key);
        let sub = tree_of(rest, n.path, tag);
        assert(n.path.parent() == Some(path));
        assert forall|q: PathView| #[trigger] under(q, n.path) implies m.contains_key((q, tag))
            == rest.contains_key((q, tag)) && (m.contains_key((q, tag)) ==> m[(q, tag)] == rest[(q, tag)]) by {
            lemma_under_child(q, n.path, path);
            assert(under(q, path));
        }
        assert(under(n.path, n.path));
        assert(self.just(m[key][i], tag, leaves));
        if m.contains_key((n.path, tag)) {
            self.lemma_exact_trees(m, rest, n.path, tag, leaves);
            self.lemma_dir_is_bare(m, leaves, n.path, tag);
            self.lemma_nothing_at(leaves, n.path, tag);
        } else {
            assert(sub.len() == 0);
            assert forall|j: int| 0 <= j < leaves.len() implies (self.at(n.path, tag))(
                #[trigger] leaves[j],
            ) == (self.below(n.path, tag))(leaves[j]) by {
                if (self.below(n.path, tag))(leaves[j]) && self.spot(leaves[j]) != n.path {
                    let c = self.lemma_next(m, leaves, n.path, j);
                }
            }
            lemma_sum_if_same(leaves, self.at(n.path, tag), self.below(n.path, tag), w_size());
            lemma_sum_if_same(leaves, self.at(n.path, tag), self.below(n.path, tag), w_nfiles());
        }
    }

    /// The trees of a tag count just what the leaves of that tag count.
    pub proof fn lemma_tag_conserved(self, leaves: Seq<Node>, tag: Option<Seq<u8>>)
        requires
            self.is_scan(leaves),
        ensures
            sum_size(bare(tree_of(self.families(leaves), self.root, tag))) == sum_if(
                leaves,
                self.below(self.root, tag),
                w_size(),
            ),
            sum_nfiles(bare(tree_of(self.families(leaves), self.root, tag))) == sum_if(
                leaves,
                self.below(self.root, tag),
                w_nfiles(),
            ),
    {
        let m = self.families(leaves);
        self.lemma_kept(leaves);
        if m.contains_key((self.root, tag)) {
            self.lemma_exact_trees(m, m, self.root, tag, leaves);
        } else {
            assert(bare(tree_of(m, self.root, tag)) =~= Seq::empty());
            assert forall|j: int| 0 <= j < leaves.len() implies !(self.below(self.root, tag))(
                #[trigger] leaves[j],
            ) by {
                self.lemma_spot(leaves[j]);
                if (self.below(self.root, tag))(leaves[j]) {
                    let c = self.lemma_next(m, leaves, self.root, j);
                }
            }
            lemma_sum_if_none(leaves, self.below(self.root, tag), w_size());
            lemma_sum_if_none(leaves, self.below(self.root, tag), w_nfiles());
        }
    }
}

/// The forest of a scan counts what its leaves count: nothing is lost, and
/// nothing is counted twice, whatever the depth that is kept.
pub proof fn forest_conserves(plan: Plan, leaves: Seq<Node>)
    requires
        plan.is_scan(leaves),
    ensures
        sum_size(bare(forest_of(plan, leaves))) == sum_size(leaves),
        sum_nfiles(bare(forest_of(plan, leaves))) == sum_nfiles(leaves),
{
    let m = plan.families(leaves);
    if plan.xray {
        let exts = extensions_of(true, leaves);
        let g = groups(plan.colors, plan.root, m, exts);
        extensions_distinct(true, leaves);
        plan.lemma_groups_conserve(leaves, exts);
        let any = plan.tagged_any(exts);
        assert forall|j: int| 0 <= j < leaves.len() implies any(#[trigger] leaves[j]) by {
            lemma_extension_listed(leaves, j);
            let ext = leaf_tag(true, leaves[j].path)->0;
            let i = choose|i: int| 0 <= i < exts.len() && exts[i] == ext;
            assert(leaf_tag(plan.xray, leaves[j].path) == Some(exts[i]));
        }
        lemma_sum_if_all(leaves, any);
        sort_keeps_sums(g);
        offsets_keep_entries(sort_nodes(g));
    } else {
        plan.lemma_tag_conserved(leaves, None);
        assert forall|j: int| 0 <= j < leaves.len() implies (plan.below(plan.root, None))(
            #[trigger] leaves[j],
        ) by {
            plan.lemma_spot(leaves[j]);
        }
        lemma_sum_if_all(leaves, plan.below(plan.root, None));
    }
}

pub proof fn lemma_extension_listed(leaves: Seq<Node>, j: int)
    requires
        0 <= j < leaves.len(),
    ensures
        extensions_of(true, leaves).contains(leaf_tag(true, leaves[j].path)->0),
    decreases leaves.len(),
{
    let d = leaves.drop_last();
    let before = extensions_of(true, d);
    let ext = leaf_tag(true, leaves[j].path)->0;
    if j < d.len() {
        lemma_extension_listed(d, j);
        assert(d[j] == leaves[j]);
    }
    if before.contains(ext) {
        let i = choose|i: int| 0 <= i < before.len() && before[i] == ext;
        assert(extensions_of(true, leaves)[i] == ext);
    } else {
        assert(extensions_of(true, leaves)[before.len() as int] == ext);
    }
}

impl Plan {
    proof fn lemma_groups_conserve(self, leaves: Seq<Node>, exts: Seq<Seq<u8>>)
        requires
            self.is_scan(leaves),
            exts.no_duplicates(),
        ensures
            ({
                let g = groups(self.colors, self.root, self.families(leaves), exts);
                &&& sum_size(g) == sum_if(leaves, self.tagged_any(exts), w_size())
                &&& sum_nfiles(g) == sum_if(leaves, self.tagged_any(exts), w_nfiles())
            }),
        decreases exts.len(),
    {
        let m = self.families(leaves);
        let g = groups(self.colors, self.root, m, exts);
        let all = self.tagged_any(exts);
        if exts.len() == 0 {
            lemma_sum_if_none(leaves, all, w_size());
            lemma_sum_if_none(leaves, all, w_nfiles());
        } else {
            let d = exts.drop_last();
            let n = exts.len() - 1;
            self.lemma_groups_conserve(leaves, d);
            assert(g.drop_last() =~= groups(self.colors, self.root, m, d));
            let before = self.tagged_any(d);
            let last = |x: Node| leaf_tag(self.xray, x.path) == Some(exts[n]);
            assert forall|j: int| 0 <= j < leaves.len() implies !(before(#[trigger] leaves[j]) && last(
                leaves[j],
            )) && all(leaves[j]) == (before(leaves[j]) || last(leaves[j])) by {
                let x = leaves[j];
                if before(x) {
                    let i = choose|i: int|
                        0 <= i < d.len() && leaf_tag(self.xray, x.path) == Some(#[trigger] d[i]);
                    assert(exts[i] == d[i]);
                    assert(exts[i] != exts[n]);
                }
                if all(x) {
                    let i = choose|i: int|
                        0 <= i < exts.len() && leaf_tag(self.xray, x.path) == Some(#[trigger] exts[i]);
                    if i < n {
                        assert(d[i] == exts[i]);
                    }
                }
            }
            lemma_sum_if_or(leaves, before, last, all, w_size());
            lemma_sum_if_or(leaves, before, last, all, w_nfiles());
            self.lemma_tag_conserved(leaves, Some(exts[n]));
            assert forall|j: int| 0 <= j < leaves.len() implies last(#[trigger] leaves[j]) == (self.below(
                self.root,
                Some(exts[n]),
            ))(leaves[j]) by {
                self.lemma_spot(leaves[j]);
            }
            lemma_sum_if_same(leaves, last, self.below(self.root, Some(exts[n])), w_size());
            lemma_sum_if_same(leaves, last, self.below(self.root, Some(exts[n])), w_nfiles());
            assert(g.last() == group_node(
                self.colors,
                self.root,
                exts[n],
                tree_of(m, self.root, Some(exts[n])),
            ));
        }
    }
}

} // verus!
