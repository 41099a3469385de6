//! What deflating and expanding a directory make of the forest.
use vstd::prelude::*;
use crate::accounting::{lemma_sum_if_all, Plan};
use crate::assembly::marks;
use crate::colors::ColorScheme;
use crate::entry::{bare, sum_nfiles, sum_size, Node};
use crate::graft::{
    grafting_regrows, is_way, laid_out, lemma_laid_differ, regrown, replaced, replacing_keeps_the_layout,
    siblings_differ,
};
use crate::growth::{lemma_one_child, lemma_under_child, under};
use crate::ids::{has_id, index_of_id, ordered};
use crate::leaves::{leaves_all, leaves_are_leaves, leaves_below, leaves_conserve, leaves_of};
use crate::lineage::{beyond, dir_node, has_path, leaf_tag, summary_name};
use crate::matching::lemma_sorted_members;
use crate::merge::merged;
use crate::path::PathView;
use crate::roundtrip::{are_files, lemma_sort_members};
use crate::shape::lemma_summary_type;
use crate::sharing::{deepest, lemma_deepest};
use crate::siblings::{offsets_keep_entries, sort_nodes};
use crate::surgery::{adds_up, counted, counted_covers, nats, pruned, resolve, sized};

verus! {

broadcast use crate::ids::lemma_index_of_id;

/// Whether an entry below a path is one of its directory, and has the colours of
/// a scan: a leaf of one file type, or a directory.
pub open spec fn grown_at(colors: ColorScheme, n: Node, path: PathView, tag: Option<Seq<u8>>) -> bool {
    &&& n.path.parent() == Some(path)
    &&& n.subtree.len() == 0 ==> is_painted(colors, n) && has_type(tag, n)
    &&& n.subtree.len() > 0 ==> marks(n) == marks(dir_node(colors, n.path, tag))
}

/// Whether a forest is that of a directory: every entry lies in the directory of
/// the one above, and has the colours of a scan.
pub open spec fn is_grown(colors: ColorScheme, f: Seq<(nat, Node)>, path: PathView, tag: Option<Seq<u8>>) -> bool
    decreases f,
{
    forall|i: int|
        0 <= i < f.len() ==> grown_at(colors, (#[trigger] f[i]).1, path, tag) && is_grown(
            colors,
            f[i].1.subtree,
            f[i].1.path,
            tag,
        )
}

/// Whether an entry is a leaf that has the colour of its file type.
pub open spec fn is_painted(colors: ColorScheme, n: Node) -> bool {
    &&& n.color == colors.spec_file_color(n.path)
    &&& n.tag is None
    &&& n.leaves == 1
    &&& n.subtree.len() == 0
}

/// Whether an entry is of a file type, if one is asked for.
pub open spec fn has_type(tag: Option<Seq<u8>>, n: Node) -> bool {
    tag is Some ==> leaf_tag(true, n.path) == tag
}

/// Whether leaves lie below a path, none below another, and have the colours of a
/// scan.
pub open spec fn are_spread(colors: ColorScheme, leaves: Seq<Node>, path: PathView, tag: Option<Seq<u8>>) -> bool {
    &&& forall|i: int|
        0 <= i < leaves.len() ==> under((#[trigger] leaves[i]).path, path) && is_painted(colors, leaves[i])
            && has_type(tag, leaves[i])
    &&& forall|i: int, j: int|
        0 <= i < leaves.len() && 0 <= j < leaves.len() && i != j ==> !under(
            (#[trigger] leaves[i]).path,
            (#[trigger] leaves[j]).path,
        )
}

proof fn lemma_spread_add(
    colors: ColorScheme,
    a: Seq<Node>,
    b: Seq<Node>,
    at: PathView,
    path: PathView,
    tag: Option<Seq<u8>>,
)
    requires
        at.parent() == Some(path),
        are_spread(colors, a, at, tag),
        are_spread(colors, b, path, tag),
        forall|i: int|
            0 <= i < b.len() ==> !under((#[trigger] b[i]).path, at) && !under(at, b[i].path),
    ensures
        are_spread(colors, a + b, path, tag),
        are_spread(colors, b + a, path, tag),
{
    lemma_spread_sum(colors, a, b, at, path, tag);
    let s = a + b;
    let t = b + a;
    assert forall|i: int| 0 <= i < t.len() implies under((#[trigger] t[i]).path, path) && is_painted(
        colors,
        t[i],
    ) && has_type(tag, t[i]) by {
        if i < b.len() {
            assert(s[a.len() + i] == t[i]);
        } else {
            assert(s[i - b.len()] == t[i]);
        }
    }
    assert forall|i: int, j: int| 0 <= i < t.len() && 0 <= j < t.len() && i != j implies !under(
        (#[trigger] t[i]).path,
        (#[trigger] t[j]).path,
    ) by {
        let x = if i < b.len() {
            a.len() + i
        } else {
            i - b.len()
        };
        let y = if j < b.len() {
            a.len() + j
        } else {
            j - b.len()
        };
        assert(s[x] == t[i] && s[y] == t[j]);
    }
}

proof fn lemma_spread_sum(
    colors: ColorScheme,
    a: Seq<Node>,
    b: Seq<Node>,
    at: PathView,
    path: PathView,
    tag: Option<Seq<u8>>,
)
    requires
        at.parent() == Some(path),
        are_spread(colors, a, at, tag),
        are_spread(colors, b, path, tag),
        forall|i: int|
            0 <= i < b.len() ==> !under((#[trigger] b[i]).path, at) && !under(at, b[i].path),
    ensures
        are_spread(colors, a + b, path, tag),
{
    let s = a + b;
    assert forall|i: int| 0 <= i < s.len() implies under((#[trigger] s[i]).path, path) && is_painted(
        colors,
        s[i],
    ) && has_type(tag, s[i]) by {
        if i < a.len() {
            assert(s[i] == a[i]);
            lemma_under_child(a[i].path, at, path);
        } else {
            assert(s[i] == b[i - a.len()]);
        }
    }
    assert forall|i: int, j: int| 0 <= i < s.len() && 0 <= j < s.len() && i != j implies !under(
        (#[trigger] s[i]).path,
        (#[trigger] s[j]).path,
    ) by {
        if i < a.len() && j < a.len() {
            assert(s[i] == a[i] && s[j] == a[j]);
        } else if i >= a.len() && j >= a.len() {
            assert(s[i] == b[i - a.len()] && s[j] == b[j - a.len()]);
        } else if i < a.len() {
            assert(s[i] == a[i] && s[j] == b[j - a.len()]);
            if under(a[i].path, b[j - a.len()].path) {
                lemma_prefixes_meet(a[i].path, at, b[j - a.len()].path);
            }
        } else {
            assert(s[i] == b[i - a.len()] && s[j] == a[j]);
            if under(b[i - a.len()].path, a[j].path) {
                lemma_under_through(b[i - a.len()].path, a[j].path, at);
            }
        }
    }
}

/// Of two paths that a path lies below, one lies below the other.
proof fn lemma_prefixes_meet(q: PathView, a: PathView, b: PathView)
    requires
        under(q, a),
        under(q, b),
    ensures
        under(a, b) || under(b, a),
{
    if a.comps.len() >= b.comps.len() {
        assert(b.comps =~= a.comps.take(b.comps.len() as int));
    } else {
        assert(a.comps =~= b.comps.take(a.comps.len() as int));
    }
}

pub proof fn lemma_under_through(q: PathView, a: PathView, b: PathView)
    requires
        under(q, a),
        under(a, b),
    ensures
        under(q, b),
{
    assert(b.comps =~= q.comps.take(b.comps.len() as int));
}

proof fn lemma_spread_of(colors: ColorScheme, n: Node, path: PathView, tag: Option<Seq<u8>>)
    requires
        grown_at(colors, n, path, tag),
        is_grown(colors, n.subtree, n.path, tag),
        siblings_differ(n.subtree),
    ensures
        are_spread(colors, leaves_of(n), n.path, tag),
    decreases n, 0nat,
{
    assert(under(n.path, n.path));
    if n.subtree.len() > 0 {
        lemma_spread_below(colors, n.subtree, n.path, tag);
    }
}

/// The leaves of a directory's forest are spread, and each lies in one of the
/// entries.
proof fn lemma_spread_below(colors: ColorScheme, f: Seq<(nat, Node)>, path: PathView, tag: Option<Seq<u8>>)
    requires
        is_grown(colors, f, path, tag),
        siblings_differ(f),
    ensures
        are_spread(colors, leaves_below(f), path, tag),
        forall|j: int| 0 <= j < leaves_below(f).len() ==> lies_in(#[trigger] leaves_below(f)[j], bare(f)),
    decreases f, f.len(),
{
    if f.len() > 0 {
        let d = f.drop_last();
        let n = f.last().1;
        assert(f[f.len() - 1] == f.last());
        assert(decreases_to!(f => d));
        assert(decreases_to!(f => n));
        assert forall|i: int| 0 <= i < d.len() implies grown_at(colors, (#[trigger] d[i]).1, path, tag)
            && is_grown(colors, d[i].1.subtree, d[i].1.path, tag) && siblings_differ(d[i].1.subtree) by {
            assert(d[i] == f[i]);
        }
        assert forall|i: int, j: int| 0 <= i < bare(d).len() && 0 <= j < bare(d).len() && i != j implies (
        #[trigger] bare(d)[i]).path != (#[trigger] bare(d)[j]).path by {
            assert(bare(d)[i] == bare(f)[i] && bare(d)[j] == bare(f)[j]);
        }
        lemma_spread_below(colors, d, path, tag);
        lemma_spread_of(colors, n, path, tag);
        let a = leaves_of(n);
        let b = leaves_below(d);
        assert forall|i: int| 0 <= i < b.len() implies !under((#[trigger] b[i]).path, n.path) && !under(
            n.path,
            b[i].path,
        ) by {
            assert(lies_in(b[i], bare(d)));
            let k = choose|k: int| 0 <= k < bare(d).len() && under(b[i].path, (#[trigger] bare(d)[k]).path);
            assert(bare(d)[k] == d[k].1);
            lemma_beside(b[i].path, d[k].1.path, n.path, path);
            assert(bare(f)[k].path != bare(f)[f.len() - 1].path);
        }
        lemma_spread_add(colors, a, b, n.path, path, tag);
        assert(leaves_below(f) == a + b);
        assert forall|j: int| 0 <= j < leaves_below(f).len() implies lies_in(
            #[trigger] leaves_below(f)[j],
            bare(f),
        ) by {
            if j < a.len() {
                assert(leaves_below(f)[j] == a[j]);
                assert(under(a[j].path, bare(f)[f.len() - 1].path));
            } else {
                assert(leaves_below(f)[j] == b[j - a.len()]);
                assert(lies_in(b[j - a.len()], bare(d)));
                let k = choose|k: int|
                    0 <= k < bare(d).len() && under(b[j - a.len()].path, (#[trigger] bare(d)[k]).path);
                assert(bare(f)[k] == bare(d)[k]);
            }
        }
    }
}

/// Whether a leaf lies in one of the entries of a list, or is one.
pub open spec fn lies_in(leaf: Node, s: Seq<Node>) -> bool {
    exists|k: int| 0 <= k < s.len() && under(leaf.path, (#[trigger] s[k]).path)
}

/// What lies in one of two directories beside each other has nothing to do with
/// the other.
pub proof fn lemma_beside(q: PathView, a: PathView, b: PathView, path: PathView)
    requires
        a.parent() == Some(path),
        b.parent() == Some(path),
        under(q, a),
        a != b,
    ensures
        !under(q, b),
        !under(b, q),
{
    if under(q, b) {
        lemma_one_child(q, a, b, path);
    }
    if under(b, q) {
        lemma_under_through(b, q, a);
        assert(under(b, b));
        lemma_one_child(b, a, b, path);
    }
}

/// The leaves of a directory's forest are spread.
pub proof fn lemma_spread_all(colors: ColorScheme, f: Seq<(nat, Node)>, path: PathView, tag: Option<Seq<u8>>)
    requires
        is_grown(colors, f, path, tag),
        siblings_differ(f),
    ensures
        are_spread(colors, leaves_all(bare(f)), path, tag),
        forall|j: int|
            0 <= j < leaves_all(bare(f)).len() ==> lies_in(#[trigger] leaves_all(bare(f))[j], bare(f)),
    decreases f.len(),
{
    if f.len() > 0 {
        let d = f.skip(1);
        let n = f[0].1;
        assert forall|i: int| 0 <= i < d.len() implies grown_at(colors, (#[trigger] d[i]).1, path, tag)
            && is_grown(colors, d[i].1.subtree, d[i].1.path, tag) && siblings_differ(d[i].1.subtree) by {
            assert(d[i] == f[i + 1]);
        }
        assert forall|i: int, j: int| 0 <= i < bare(d).len() && 0 <= j < bare(d).len() && i != j implies (
        #[trigger] bare(d)[i]).path != (#[trigger] bare(d)[j]).path by {
            assert(bare(d)[i] == bare(f)[i + 1] && bare(d)[j] == bare(f)[j + 1]);
        }
        lemma_spread_all(colors, d, path, tag);
        assert(grown_at(colors, f[0].1, path, tag));
        lemma_spread_of(colors, n, path, tag);
        let a = leaves_of(n);
        let b = leaves_all(bare(d));
        assert forall|i: int| 0 <= i < b.len() implies !under((#[trigger] b[i]).path, n.path) && !under(
            n.path,
            b[i].path,
        ) by {
            assert(lies_in(b[i], bare(d)));
            let k = choose|k: int| 0 <= k < bare(d).len() && under(b[i].path, (#[trigger] bare(d)[k]).path);
            assert(bare(d)[k] == d[k].1);
            lemma_beside(b[i].path, d[k].1.path, n.path, path);
            assert(bare(f)[k + 1].path != bare(f)[0].path);
        }
        lemma_spread_add(colors, a, b, n.path, path, tag);
        assert(bare(f).skip(1) =~= bare(d));
        assert(bare(f)[0] == n);
        assert(leaves_all(bare(f)) == a + b);
        assert forall|j: int| 0 <= j < leaves_all(bare(f)).len() implies lies_in(
            #[trigger] leaves_all(bare(f))[j],
            bare(f),
        ) by {
            if j < a.len() {
                assert(leaves_all(bare(f))[j] == a[j]);
                assert(under(a[j].path, bare(f)[0].path));
            } else {
                assert(leaves_all(bare(f))[j] == b[j - a.len()]);
                assert(lies_in(b[j - a.len()], bare(d)));
                let k = choose|k: int|
                    0 <= k < bare(d).len() && under(b[j - a.len()].path, (#[trigger] bare(d)[k]).path);
                assert(bare(f)[k + 1] == bare(d)[k]);
            }
        }
    }
}

/// What lies at an address of a directory's forest lies in the directory.
pub proof fn lemma_resolved_under(colors: ColorScheme, f: Seq<(nat, Node)>, addr: Seq<usize>, path: PathView, tag: Option<Seq<u8>>)
    requires
        is_grown(colors, f, path, tag),
        resolve(f, nats(addr)) is Some,
    ensures
        ({
            let i = index_of_id(f, addr[0] as nat);
            let gone = resolve(f, nats(addr))->0;
            &&& 0 <= i < f.len()
            &&& under(gone.path, f[i].1.path)
            &&& gone.path.comps.len() == path.comps.len() + addr.len()
            &&& under(gone.path, path)
            &&& addr.len() > 1 ==> f[i].1.subtree.len() > 0 && resolve(f[i].1.subtree, nats(addr.skip(1)))
                == Some(gone)
        }),
    decreases addr.len(),
{
    let i = index_of_id(f, addr[0] as nat);
    let n = f[i].1;
    assert(nats(addr)[0] == addr[0] as nat);
    assert(nats(addr).skip(1) =~= nats(addr.skip(1)));
    assert(has_id(f, addr[0] as nat));
    assert(grown_at(colors, f[i].1, path, tag));
    assert(under(n.path, n.path));
    if addr.len() > 1 {
        let gone = resolve(f, nats(addr))->0;
        assert(resolve(n.subtree, nats(addr.skip(1))) == Some(gone));
        lemma_resolved_under(colors, n.subtree, addr.skip(1), n.path, tag);
        assert(has_id(n.subtree, nats(addr.skip(1))[0]));
        lemma_under_child(gone.path, n.path, path);
    } else {
        lemma_under_child(n.path, n.path, path);
    }
}

/// The entry that a forest leads to which has one entry at each level.
pub open spec fn way_end(t: Seq<(nat, Node)>, n: nat) -> Node
    decreases n,
{
    if n <= 1 {
        t[0].1
    } else {
        way_end(t[0].1.subtree, (n - 1) as nat)
    }
}

impl Plan {
    /// Whether all leaves are counted below a path, in families of a tag.
    pub open spec fn all_below(self, leaves: Seq<Node>, path: PathView, tag: Option<Seq<u8>>) -> bool {
        forall|j: int|
            0 <= j < leaves.len() ==> under(self.spot(#[trigger] leaves[j]), path) && self.spot(leaves[j])
                != path && self.label(leaves[j]) == tag
    }

    /// Above the directory that all leaves are counted in, there is nothing but
    /// the way to it.
    proof fn lemma_single(self, leaves: Seq<Node>, q: PathView, c: PathView, p: PathView, tag: Option<Seq<u8>>)
        requires
            self.known(leaves),
            leaves.len() > 0,
            self.all_below(leaves, p, tag),
            c.parent() == Some(q),
            under(p, c),
        ensures
            ({
                let t = self.tree(leaves, q, tag);
                let v = t[0].1;
                &&& t.len() == 1
                &&& self.is_full(v, leaves, q, tag)
                &&& v.path == c
                &&& v.size == sum_size(leaves)
                &&& v.nfiles == sum_nfiles(leaves)
                &&& marks(v) == marks(dir_node(self.colors, c, tag))
            }),
    {
        let g = self.level(leaves, q, tag);
        self.lemma_level(leaves, q, tag);
        self.lemma_level_full(leaves, q, tag);
        assert forall|j: int| 0 <= j < leaves.len() implies under(self.spot(#[trigger] leaves[j]), c)
            && self.spot(leaves[j]) != c by {
            lemma_under_through(self.spot(leaves[j]), p, c);
            if self.spot(leaves[j]) == c {
                assert(p.comps =~= c.comps);
            }
        }
        assert(under(self.spot(leaves[0]), c));
        assert(self.touched(leaves, c, tag));
        assert(has_path(g, c));
        let at = choose|at: int| 0 <= at < g.len() && (#[trigger] g[at]).path == c;
        assert forall|i: int| 0 <= i < g.len() implies (#[trigger] g[i]).path == c by {
            assert(self.is_full(g[i], leaves, q, tag));
            let w = choose|w: int|
                0 <= w < leaves.len() && under(self.spot(#[trigger] leaves[w]), g[i].path) && self.label(
                    leaves[w],
                ) == tag;
            lemma_one_child(self.spot(leaves[w]), g[i].path, c, q);
        }
        assert(g.len() == 1) by {
            if g.len() > 1 {
                assert(g[0].path != g[1].path);
            }
        }
        let s = sort_nodes(g);
        lemma_sort_members(g);
        assert(g.contains(s[0]));
        assert(s[0] == g[0]);
        offsets_keep_entries(s);
        let v = g[0];
        assert(self.is_full(g[0], leaves, q, tag));
        assert(self.tree(leaves, q, tag)[0].1 == v);
        assert forall|j: int| 0 <= j < leaves.len() implies (self.below(c, tag))(#[trigger] leaves[j]) by {}
        lemma_sum_if_all(leaves, self.below(c, tag));
        assert(!self.at_home(leaves, c, tag)) by {
            if self.at_home(leaves, c, tag) {
                let j = choose|j: int| 0 <= j < leaves.len() && (self.at(c, tag))(#[trigger] leaves[j]);
                assert(self.spot(leaves[j]) == c);
            }
        }
    }

    /// The forest of leaves that all lie in a directory is the way to it.
    proof fn lemma_way(self, leaves: Seq<Node>, f: Seq<(nat, Node)>, addr: Seq<usize>, q: PathView, tag: Option<Seq<u8>>)
        requires
            self.known(leaves),
            leaves.len() > 0,
            is_grown(self.colors, f, q, tag),
            resolve(f, nats(addr)) is Some,
            (resolve(f, nats(addr))->0).subtree.len() > 0,
            self.all_below(leaves, (resolve(f, nats(addr))->0).path, tag),
        ensures
            ({
                let t = self.tree(leaves, q, tag);
                let m = way_end(t, addr.len());
                let p = (resolve(f, nats(addr))->0).path;
                &&& is_way(t, f, addr, m)
                &&& m.path == p
                &&& self.is_full(m, leaves, p.parent()->0, tag)
                &&& m.size == sum_size(leaves)
                &&& m.nfiles == sum_nfiles(leaves)
                &&& marks(m) == marks(dir_node(self.colors, p, tag))
            }),
        decreases addr.len(),
    {
        let gone = resolve(f, nats(addr))->0;
        let p = gone.path;
        let i = index_of_id(f, addr[0] as nat);
        let n = f[i].1;
        assert(nats(addr)[0] == addr[0] as nat);
        assert(nats(addr).skip(1) =~= nats(addr.skip(1)));
        lemma_resolved_under(self.colors, f, addr, q, tag);
        assert(grown_at(self.colors, f[i].1, q, tag));
        self.lemma_single(leaves, q, n.path, p, tag);
        let t = self.tree(leaves, q, tag);
        let v = t[0].1;
        if addr.len() > 1 {
            self.lemma_way(leaves, n.subtree, addr.skip(1), n.path, tag);
            assert(v.subtree == self.tree(leaves, n.path, tag));
        }
    }
}

/// Whether a forest is what a scan makes of a directory: laid out by size, with
/// counts that add up, and with every entry in its directory.
pub open spec fn is_forest(colors: ColorScheme, f: Seq<(nat, Node)>, path: PathView, tag: Option<Seq<u8>>) -> bool {
    &&& is_grown(colors, f, path, tag)
    &&& laid_out(f)
    &&& ordered(f)
    &&& counted(f)
    &&& sized(f)
}

pub proof fn lemma_resolved_forest(colors: ColorScheme, f: Seq<(nat, Node)>, addr: Seq<usize>, path: PathView, tag: Option<Seq<u8>>)
    requires
        is_forest(colors, f, path, tag),
        resolve(f, nats(addr)) is Some,
    ensures
        ({
            let n = resolve(f, nats(addr))->0;
            &&& is_forest(colors, n.subtree, n.path, tag)
            &&& adds_up(n)
            &&& n.size > 0
            &&& n.path.comps.len() > 0
            &&& grown_at(colors, n, n.path.parent()->0, tag)
        }),
    decreases addr.len(),
{
    let i = index_of_id(f, addr[0] as nat);
    let n = f[i].1;
    assert(nats(addr)[0] == addr[0] as nat);
    assert(nats(addr).skip(1) =~= nats(addr.skip(1)));
    assert(has_id(f, addr[0] as nat));
    assert(grown_at(colors, f[i].1, path, tag));
    assert(laid_out(f[i].1.subtree) && ordered(f[i].1.subtree) && counted(f[i].1.subtree) && sized(
        f[i].1.subtree,
    ));
    if addr.len() > 1 {
        lemma_resolved_forest(colors, n.subtree, addr.skip(1), n.path, tag);
    }
}

impl Plan {
    /// The trees of leaves are laid out, and every entry is in its directory.
    proof fn lemma_tree_grown(self, leaves: Seq<Node>, q: PathView, tag: Option<Seq<u8>>, most: nat)
        requires
            self.known(leaves),
            forall|j: int|
                0 <= j < leaves.len() ==> self.spot(#[trigger] leaves[j]).comps.len() <= most && is_painted(
                    self.colors,
                    leaves[j],
                ),
        ensures
            is_grown(self.colors, self.tree(leaves, q, tag), q, tag),
            laid_out(self.tree(leaves, q, tag)),
        decreases most - q.comps.len(),
    {
        let t = self.tree(leaves, q, tag);
        let g = self.level(leaves, q, tag);
        let s = sort_nodes(g);
        self.lemma_level(leaves, q, tag);
        self.lemma_level_full(leaves, q, tag);
        lemma_sorted_members(g);
        offsets_keep_entries(s);
        assert forall|i: int| 0 <= i < t.len() implies grown_at(self.colors, (#[trigger] t[i]).1, q, tag)
            && is_grown(self.colors, t[i].1.subtree, t[i].1.path, tag) && laid_out(t[i].1.subtree) by {
            let v = t[i].1;
            assert(v == bare(t)[i]);
            assert(s.contains(s[i]));
            assert(g.contains(v));
            let k = choose|k: int| 0 <= k < g.len() && g[k] == v;
            assert(self.is_full(g[k], leaves, q, tag));
            self.lemma_full_grown(leaves, v, q, tag);
            self.lemma_deeper(leaves, q, v.path, tag, most);
            self.lemma_tree_grown(leaves, v.path, tag, most);
        }
    }

    /// The full entry at a path is a leaf where leaves are counted, else a
    /// directory.
    pub proof fn lemma_full_grown(self, leaves: Seq<Node>, v: Node, q: PathView, tag: Option<Seq<u8>>)
        requires
            self.known(leaves),
            self.is_full(v, leaves, q, tag),
            forall|j: int| 0 <= j < leaves.len() ==> is_painted(self.colors, #[trigger] leaves[j]),
        ensures
            grown_at(self.colors, v, q, tag),
            v.subtree.len() == 0 <==> self.at_home(leaves, v.path, tag),
    {
        let c = v.path;
        let w = choose|w: int|
            0 <= w < leaves.len() && under(self.spot(#[trigger] leaves[w]), c) && self.label(leaves[w]) == tag;
        self.lemma_families_marked(leaves);
        let m = self.families(leaves);
        if self.at_home(leaves, c, tag) {
            let j = choose|j: int| 0 <= j < leaves.len() && (self.at(c, tag))(#[trigger] leaves[j]);
            assert(marks(v) == self.marks_of(leaves[j]));
            self.lemma_spot(leaves[j]);
            if beyond(self.root, leaves[j].path) > self.depth {
                lemma_summary_type(c.parent()->0, leaves[j].path);
                assert(c == c.parent()->0.child(summary_name(leaves[j].path))) by {
                    assert(c.comps =~= (c.parent()->0).comps.push(summary_name(leaves[j].path)));
                }
            }
            assert(v.color == self.colors.spec_file_color(c)) by {
                assert(leaf_tag(true, c) == leaf_tag(true, leaves[j].path));
            }
            if v.subtree.len() > 0 {
                self.lemma_tree_touched(leaves, c, tag);
                let x = choose|x: int|
                    0 <= x < leaves.len() && under(self.spot(#[trigger] leaves[x]), c) && self.spot(leaves[x])
                        != c && self.label(leaves[x]) == tag;
                self.lemma_spots(leaves, x, j);
            }
        } else {
            assert(self.spot(leaves[w]) != c) by {
                if self.spot(leaves[w]) == c {
                    assert((self.at(c, tag))(leaves[w]));
                }
            }
            let d = self.lemma_next(m, leaves, c, w);
            self.lemma_level(leaves, c, tag);
            let g = self.level(leaves, c, tag);
            assert(g.len() > 0);
            lemma_sorted_members(g);
            offsets_keep_entries(sort_nodes(g));
        }
    }

    /// Where there is a tree below a path, a leaf is counted below it.
    pub proof fn lemma_tree_touched(self, leaves: Seq<Node>, c: PathView, tag: Option<Seq<u8>>)
        requires
            self.known(leaves),
            self.tree(leaves, c, tag).len() > 0,
        ensures
            exists|x: int|
                0 <= x < leaves.len() && under(self.spot(#[trigger] leaves[x]), c) && self.spot(leaves[x]) != c
                    && self.label(leaves[x]) == tag,
    {
        let g = self.level(leaves, c, tag);
        self.lemma_level(leaves, c, tag);
        self.lemma_level_full(leaves, c, tag);
        lemma_sorted_members(g);
        offsets_keep_entries(sort_nodes(g));
        assert(g.len() > 0);
        assert(self.is_full(g[0], leaves, c, tag));
        let x = choose|x: int|
            0 <= x < leaves.len() && under(self.spot(#[trigger] leaves[x]), g[0].path) && self.label(leaves[x])
                == tag;
        lemma_under_child(self.spot(leaves[x]), g[0].path, c);
    }

    /// What a scan makes of a directory.
    pub proof fn lemma_tree_forest(self, leaves: Seq<Node>, q: PathView, tag: Option<Seq<u8>>)
        requires
            self.known(leaves),
            are_files(leaves),
            forall|j: int| 0 <= j < leaves.len() ==> is_painted(self.colors, #[trigger] leaves[j]),
        ensures
            is_forest(self.colors, self.tree(leaves, q, tag), q, tag),
    {
        let most = deepest(self, leaves);
        assert forall|j: int| 0 <= j < leaves.len() implies self.spot(#[trigger] leaves[j]).comps.len() <= most by {
            lemma_deepest(self, leaves, j);
        }
        self.lemma_tree_grown(leaves, q, tag, most);
        self.lemma_families_marked(leaves);
        let m = self.families(leaves);
        self.lemma_sound_trees(m, m, q, tag, leaves);
    }
}

/// Putting an entry that counts the same in the place of one keeps a forest what
/// a scan makes of a directory.
pub proof fn lemma_replaced_forest(colors: ColorScheme, f: Seq<(nat, Node)>, addr: Seq<usize>, m: Node, path: PathView, tag: Option<Seq<u8>>)
    requires
        is_forest(colors, f, path, tag),
        resolve(f, nats(addr)) is Some,
        m.path == (resolve(f, nats(addr))->0).path,
        m.size == (resolve(f, nats(addr))->0).size,
        m.nfiles == (resolve(f, nats(addr))->0).nfiles,
        is_forest(colors, m.subtree, m.path, tag),
        adds_up(m),
        m.path.comps.len() > 0,
        grown_at(colors, m, m.path.parent()->0, tag),
    ensures
        is_forest(colors, replaced(f, addr, m), path, tag),
{
    replacing_keeps_the_layout(f, addr, m);
    lemma_replaced_grown(colors, f, addr, m, path, tag);
}

pub proof fn lemma_replaced_grown(colors: ColorScheme, f: Seq<(nat, Node)>, addr: Seq<usize>, m: Node, path: PathView, tag: Option<Seq<u8>>)
    requires
        is_grown(colors, f, path, tag),
        sized(f),
        resolve(f, nats(addr)) is Some,
        m.path == (resolve(f, nats(addr))->0).path,
        m.size == (resolve(f, nats(addr))->0).size,
        is_grown(colors, m.subtree, m.path, tag),
        sized(m.subtree),
        m.path.comps.len() > 0,
        grown_at(colors, m, m.path.parent()->0, tag),
    ensures
        is_grown(colors, replaced(f, addr, m), path, tag),
        sized(replaced(f, addr, m)),
        replaced(f, addr, m).len() == f.len(),
    decreases addr.len(),
{
    let g = replaced(f, addr, m);
    let i = index_of_id(f, addr[0] as nat);
    let n = f[i].1;
    assert(nats(addr)[0] == addr[0] as nat);
    assert(nats(addr).skip(1) =~= nats(addr.skip(1)));
    lemma_resolved_under(colors, f, addr, path, tag);
    assert(grown_at(colors, f[i].1, path, tag));
    assert(f[i].1.size > 0 && sized(f[i].1.subtree));
    if addr.len() > 1 {
        lemma_replaced_grown(colors, n.subtree, addr.skip(1), m, n.path, tag);
    }
    assert forall|a: int| 0 <= a < g.len() implies grown_at(colors, (#[trigger] g[a]).1, path, tag) && is_grown(
        colors,
        g[a].1.subtree,
        g[a].1.path,
        tag,
    ) && g[a].1.size > 0 && sized(g[a].1.subtree) by {
        if a != i {
            assert(g[a] == f[a]);
            assert(grown_at(colors, f[a].1, path, tag));
        }
    }
}

pub proof fn lemma_way_forest(colors: ColorScheme, t: Seq<(nat, Node)>, f: Seq<(nat, Node)>, addr: Seq<usize>, m: Node, path: PathView, tag: Option<Seq<u8>>)
    requires
        is_forest(colors, t, path, tag),
        is_way(t, f, addr, m),
    ensures
        is_forest(colors, m.subtree, m.path, tag),
        adds_up(m),
        m.path.comps.len() > 0,
        grown_at(colors, m, m.path.parent()->0, tag),
    decreases addr.len(),
{
    let v = t[0].1;
    assert(grown_at(colors, t[0].1, path, tag));
    assert(laid_out(t[0].1.subtree) && ordered(t[0].1.subtree) && counted(t[0].1.subtree) && adds_up(t[0].1)
        && sized(t[0].1.subtree));
    if addr.len() > 1 {
        lemma_way_forest(
            colors,
            v.subtree,
            f[index_of_id(f, addr[0] as nat)].1.subtree,
            addr.skip(1),
            m,
            v.path,
            tag,
        );
    }
}

impl Plan {
    /// Whether leaves are those of a scan, with the colours of files.
    pub open spec fn are_painted(self, leaves: Seq<Node>) -> bool {
        &&& self.is_scan(leaves)
        &&& are_files(leaves)
        &&& forall|j: int| 0 <= j < leaves.len() ==> is_painted(self.colors, #[trigger] leaves[j])
    }

    /// Merging what stays of a forest without a directory with the trees of leaves
    /// that all lie in that directory puts what they make of it in its place.
    pub proof fn lemma_regrown_by(self, f: Seq<(nat, Node)>, addr: Seq<usize>, leaves: Seq<Node>, tag: Option<Seq<u8>>)
        requires
            is_forest(self.colors, f, self.root, tag),
            resolve(f, nats(addr)) is Some,
            (resolve(f, nats(addr))->0).subtree.len() > 0,
            self.are_painted(leaves),
            leaves.len() > 0,
            self.all_below(leaves, (resolve(f, nats(addr))->0).path, tag),
        ensures
            ({
                let t = self.tree(leaves, self.root, tag);
                let m = way_end(t, addr.len());
                let gone = resolve(f, nats(addr))->0;
                &&& pruned(f, addr) is Some
                &&& merged((pruned(f, addr)->0).0, t) == regrown(f, addr, m)
                &&& is_way(t, f, addr, m)
                &&& m.path == gone.path
                &&& m.size == sum_size(leaves)
                &&& m.nfiles == sum_nfiles(leaves)
                &&& self.is_full(m, leaves, m.path.parent()->0, tag)
                &&& is_forest(self.colors, m.subtree, m.path, tag)
                &&& adds_up(m)
                &&& m.path.comps.len() > 0
                &&& m.subtree.len() > 0
                &&& grown_at(self.colors, m, m.path.parent()->0, tag)
            }),
    {
        let t = self.tree(leaves, self.root, tag);
        let m = way_end(t, addr.len());
        self.lemma_painted_found(leaves);
        self.lemma_way(leaves, f, addr, self.root, tag);
        lemma_laid_differ(f);
        counted_covers(f);
        grafting_regrows(f, addr, t, m);
        self.lemma_tree_forest(leaves, self.root, tag);
        lemma_way_forest(self.colors, t, f, addr, m, self.root, tag);
        self.lemma_full_grown(leaves, m, m.path.parent()->0, tag);
        if self.at_home(leaves, m.path, tag) {
            let j = choose|j: int| 0 <= j < leaves.len() && (self.at(m.path, tag))(#[trigger] leaves[j]);
            assert(self.spot(leaves[j]) == m.path);
        }
    }

    /// The leaves below an entry of a forest are those of a scan.
    pub proof fn lemma_leaves_painted(self, f: Seq<(nat, Node)>, addr: Seq<usize>, tag: Option<Seq<u8>>)
        requires
            is_forest(self.colors, f, self.root, tag),
            resolve(f, nats(addr)) is Some,
            (resolve(f, nats(addr))->0).subtree.len() > 0,
        ensures
            ({
                let gone = resolve(f, nats(addr))->0;
                let leaves = leaves_all(bare(gone.subtree));
                &&& self.are_painted(leaves)
                &&& leaves.len() > 0
                &&& sum_size(leaves) == gone.size
                &&& sum_nfiles(leaves) == gone.nfiles
                &&& forall|j: int|
                    0 <= j < leaves.len() ==> under((#[trigger] leaves[j]).path, gone.path) && leaves[j].path
                        != gone.path
                &&& forall|j: int| 0 <= j < leaves.len() ==> has_type(tag, #[trigger] leaves[j])
                &&& under(gone.path, self.root)
                &&& gone.path.comps.len() == self.root.comps.len() + addr.len()
            }),
    {
        let gone = resolve(f, nats(addr))->0;
        let leaves = leaves_all(bare(gone.subtree));
        lemma_resolved_forest(self.colors, f, addr, self.root, tag);
        lemma_resolved_under(self.colors, f, addr, self.root, tag);
        lemma_laid_differ(gone.subtree);
        lemma_spread_all(self.colors, gone.subtree, gone.path, tag);
        leaves_conserve(gone.subtree);
        leaves_are_leaves(bare(gone.subtree));
        lemma_sized_all(bare(gone.subtree));
        assert forall|j: int| 0 <= j < leaves.len() implies under((#[trigger] leaves[j]).path, gone.path)
            && leaves[j].path != gone.path && under(leaves[j].path, self.root) && leaves[j].path != self.root by {
            assert(lies_in(leaves[j], bare(gone.subtree)));
            let k = choose|k: int|
                0 <= k < bare(gone.subtree).len() && under(
                    leaves[j].path,
                    (#[trigger] bare(gone.subtree)[k]).path,
                );
            assert(bare(gone.subtree)[k] == gone.subtree[k].1);
            assert(grown_at(self.colors, gone.subtree[k].1, gone.path, tag));
            lemma_under_child(leaves[j].path, gone.subtree[k].1.path, gone.path);
            lemma_under_through(leaves[j].path, gone.path, self.root);
        }
    }
}

/// Leaves of entries that have a size have one.
pub proof fn lemma_sized_all(s: Seq<Node>)
    requires
        forall|i: int| 0 <= i < s.len() ==> (#[trigger] s[i]).size > 0 && sized(s[i].subtree),
    ensures
        forall|i: int| 0 <= i < leaves_all(s).len() ==> (#[trigger] leaves_all(s)[i]).size > 0,
    decreases s.len(),
{
    if s.len() > 0 {
        let d = s.skip(1);
        assert forall|i: int| 0 <= i < d.len() implies (#[trigger] d[i]).size > 0 && sized(d[i].subtree) by {
            assert(d[i] == s[i + 1]);
        }
        lemma_sized_all(d);
        lemma_sized_of(s[0]);
        let a = leaves_of(s[0]);
        assert forall|i: int| 0 <= i < leaves_all(s).len() implies (#[trigger] leaves_all(s)[i]).size > 0 by {
            if i < a.len() {
                assert(leaves_all(s)[i] == a[i]);
            } else {
                assert(leaves_all(s)[i] == leaves_all(d)[i - a.len()]);
            }
        }
    }
}

proof fn lemma_sized_of(n: Node)
    requires
        n.size > 0,
        sized(n.subtree),
    ensures
        forall|i: int| 0 <= i < leaves_of(n).len() ==> (#[trigger] leaves_of(n)[i]).size > 0,
    decreases n, 0nat,
{
    if n.subtree.len() > 0 {
        lemma_sized_below(n.subtree);
    }
}

proof fn lemma_sized_below(f: Seq<(nat, Node)>)
    requires
        sized(f),
    ensures
        forall|i: int| 0 <= i < leaves_below(f).len() ==> (#[trigger] leaves_below(f)[i]).size > 0,
    decreases f, f.len(),
{
    if f.len() > 0 {
        let d = f.drop_last();
        assert(decreases_to!(f => d));
        assert(f[f.len() - 1] == f.last());
        assert forall|i: int| 0 <= i < d.len() implies (#[trigger] d[i]).1.size > 0 && sized(d[i].1.subtree) by {
            assert(d[i] == f[i]);
        }
        lemma_sized_below(d);
        lemma_sized_of(f.last().1);
        let a = leaves_of(f.last().1);
        assert forall|i: int| 0 <= i < leaves_below(f).len() implies (#[trigger] leaves_below(f)[i]).size > 0 by {
            if i < a.len() {
                assert(leaves_below(f)[i] == a[i]);
            } else {
                assert(leaves_below(f)[i] == leaves_below(d)[i - a.len()]);
            }
        }
    }
}

} // verus!
