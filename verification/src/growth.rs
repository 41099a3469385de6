//! Trees grown from families.
use vstd::prelude::*;
use crate::cli::Args;
use crate::colors::bytes_view;
use crate::entry::{
    bare, forest, lemma_sum_take, node, nodes, sum_leaves, sum_nfiles, sum_size, Entry, Forest, Node,
    TreeSlice,
};
use crate::keymap::Key;
use crate::lineage::{lineage, related, LineageMap};
use crate::path::{PathBuf, PathView};
use crate::siblings::{cumsum_size, offsets, offsets_keep_entries, sort_largest, sort_nodes};

verus! {

/// An entry above the trees below it. Counts that it has not got come from
/// them; without trees below it is a leaf.
pub open spec fn settled(n: Node, below: Seq<(nat, Node)>) -> Node {
    if below.len() == 0 {
        Node { leaves: 1, ..n }
    } else {
        Node {
            size: if n.size == 0 {
                sum_size(bare(below))
            } else {
                n.size
            },
            nfiles: if n.nfiles == 0 {
                sum_nfiles(bare(below))
            } else {
                n.nfiles
            },
            leaves: sum_leaves(bare(below)),
            subtree: below,
            ..n
        }
    }
}

/// The trees below a path: its family, each above the trees below it, in the
/// order of siblings.
pub open spec fn tree_of(m: Map<Key, Seq<Node>>, path: PathView, tag: Option<Seq<u8>>) -> Seq<
    (nat, Node),
>
    decreases m.dom().len(), 0nat,
{
    if m.dom().finite() && m.contains_key((path, tag)) {
        offsets(sort_nodes(grown(m.remove((path, tag)), m[(path, tag)], tag)))
    } else {
        Seq::empty()
    }
}

/// Entries, each above the trees below it.
pub open spec fn grown(m: Map<Key, Seq<Node>>, kids: Seq<Node>, tag: Option<Seq<u8>>) -> Seq<Node>
    decreases m.dom().len(), kids.len() + 1,
{
    if kids.len() == 0 {
        Seq::empty()
    } else {
        grown(m, kids.drop_last(), tag).push(
            settled(kids.last(), tree_of(m, kids.last().path, tag)),
        )
    }
}

/// Each of the grown entries is one of the kids, above the trees below it.
pub proof fn lemma_grown(m: Map<Key, Seq<Node>>, kids: Seq<Node>, tag: Option<Seq<u8>>)
    ensures
        grown(m, kids, tag).len() == kids.len(),
        forall|i: int|
            0 <= i < kids.len() ==> #[trigger] grown(m, kids, tag)[i] == settled(
                kids[i],
                tree_of(m, kids[i].path, tag),
            ),
    decreases kids.len(),
{
    if kids.len() > 0 {
        lemma_grown(m, kids.drop_last(), tag);
        let d = kids.drop_last();
        assert forall|i: int| 0 <= i < kids.len() implies #[trigger] grown(m, kids, tag)[i] == settled(
            kids[i],
            tree_of(m, kids[i].path, tag),
        ) by {
            if i < d.len() {
                assert(grown(m, d, tag)[i] == settled(d[i], tree_of(m, d[i].path, tag)));
            }
        }
    }
}

/// Whether a family is one of those that the trees below a path are made of.
pub open spec fn reaches(m: Map<Key, Seq<Node>>, path: PathView, tag: Option<Seq<u8>>, k: Key) -> bool
    decreases m.dom().len(),
{
    m.dom().finite() && m.contains_key((path, tag)) && (k == (path, tag) || exists|i: int|
        0 <= i < m[(path, tag)].len() && reaches(
            m.remove((path, tag)),
            (#[trigger] m[(path, tag)][i]).path,
            tag,
            k,
        ))
}

/// The counts of the trees below a path fit in a machine word.
pub open spec fn growth_fits(m: Map<Key, Seq<Node>>, path: PathView, tag: Option<Seq<u8>>) -> bool
    decreases m.dom().len(),
{
    m.dom().finite() && m.contains_key((path, tag)) ==> {
        &&& sum_size(bare(tree_of(m, path, tag))) <= usize::MAX
        &&& forall|i: int|
            0 <= i < m[(path, tag)].len() ==> kid_fits(
                #[trigger] m[(path, tag)][i],
                tree_of(m.remove((path, tag)), m[(path, tag)][i].path, tag),
            ) && growth_fits(m.remove((path, tag)), m[(path, tag)][i].path, tag)
    }
}

pub open spec fn kid_fits(n: Node, below: Seq<(nat, Node)>) -> bool {
    &&& n.nfiles == 0 ==> sum_nfiles(bare(below)) <= usize::MAX
    &&& sum_leaves(bare(below)) <= usize::MAX
}

/// Whether a path is `base` or lies below it.
pub open spec fn under(path: PathView, base: PathView) -> bool {
    path.absolute == base.absolute && base.comps.is_prefix_of(path.comps)
}

/// Two maps have the same families at a path and below.
pub open spec fn agree(
    a: Map<Key, Seq<Node>>,
    b: Map<Key, Seq<Node>>,
    path: PathView,
    tag: Option<Seq<u8>>,
) -> bool {
    forall|q: PathView| #[trigger]
        under(q, path) ==> a.contains_key((q, tag)) == b.contains_key((q, tag)) && (a.contains_key((q, tag))
            ==> a[(q, tag)] == b[(q, tag)])
}

/// What lies below a child lies below its parent.
pub proof fn lemma_under_child(q: PathView, child: PathView, parent: PathView)
    requires
        child.parent() == Some(parent),
        under(q, child),
    ensures
        under(q, parent),
        q != parent,
{
}

pub proof fn lemma_agree(
    a: Map<Key, Seq<Node>>,
    b: Map<Key, Seq<Node>>,
    path: PathView,
    tag: Option<Seq<u8>>,
)
    requires
        a.dom().finite(),
        b.dom().finite(),
        related(a),
        agree(a, b, path, tag),
    ensures
        tree_of(a, path, tag) == tree_of(b, path, tag),
        growth_fits(a, path, tag) == growth_fits(b, path, tag),
        forall|k: Key| #[trigger] reaches(a, path, tag, k) == reaches(b, path, tag, k),
    decreases a.dom().len(),
{
    let key: Key = (path, tag);
    assert(under(path, path));
    if a.contains_key(key) {
        let ra = a.remove(key);
        let rb = b.remove(key);
        assert forall|i: int| 0 <= i < a[key].len() implies tree_of(ra, (#[trigger] a[key][i]).path, tag)
            == tree_of(rb, a[key][i].path, tag) && growth_fits(ra, a[key][i].path, tag) == growth_fits(
            rb,
            a[key][i].path,
            tag,
        ) && (forall|k: Key| #[trigger]
            reaches(ra, a[key][i].path, tag, k) == reaches(rb, a[key][i].path, tag, k)) by {
            let c = a[key][i].path;
            assert forall|q: PathView| #[trigger] under(q, c) implies ra.contains_key((q, tag))
                == rb.contains_key((q, tag)) && (ra.contains_key((q, tag)) ==> ra[(q, tag)] == rb[(q, tag)]) by {
                lemma_under_child(q, c, path);
                assert(under(q, path));
            }
            lemma_agree(ra, rb, c, tag);
        }
        lemma_grown(ra, a[key], tag);
        lemma_grown(rb, b[key], tag);
        assert(grown(ra, a[key], tag) =~= grown(rb, b[key], tag));
        assert forall|k: Key| #[trigger] reaches(a, path, tag, k) == reaches(b, path, tag, k) by {
            if k != key {
                if reaches(a, path, tag, k) {
                    let i = choose|i: int|
                        0 <= i < a[key].len() && reaches(ra, (#[trigger] a[key][i]).path, tag, k);
                    assert(reaches(rb, b[key][i].path, tag, k));
                }
                if reaches(b, path, tag, k) {
                    let i = choose|i: int|
                        0 <= i < b[key].len() && reaches(rb, (#[trigger] b[key][i]).path, tag, k);
                    assert(reaches(ra, a[key][i].path, tag, k));
                }
            }
        }
    }
}

/// What is reached from a path lies at it or below, in families of its tag.
pub proof fn lemma_reaches_under(
    m: Map<Key, Seq<Node>>,
    path: PathView,
    tag: Option<Seq<u8>>,
    k: Key,
)
    requires
        related(m),
        reaches(m, path, tag, k),
    ensures
        k.1 == tag,
        under(k.0, path),
        m.contains_key(k),
    decreases m.dom().len(),
{
    let key: Key = (path, tag);
    if k != key {
        let i = choose|i: int|
            0 <= i < m[key].len() && reaches(m.remove(key), (#[trigger] m[key][i]).path, tag, k);
        lemma_reaches_under(m.remove(key), m[key][i].path, tag, k);
        lemma_under_child(k.0, m[key][i].path, path);
    }
}

/// The summed sizes of a stretch of siblings.
pub fn total_size(f: TreeSlice) -> (r: usize)
    requires
        sum_size(bare(forest(f@))) <= usize::MAX,
    ensures
        r == sum_size(bare(forest(f@))),
{
    let ghost s = bare(forest(f@));
    let mut r: usize = 0;
    let mut i: usize = 0;
    assert(s.take(0) =~= Seq::empty());
    while i < f.len()
        invariant
            s == bare(forest(f@)),
            i <= f@.len(),
            sum_size(s) <= usize::MAX,
            r == sum_size(s.take(i as int)),
        decreases f.len() - i,
    {
        proof {
            lemma_sum_take(s, i as int);
            lemma_sum_take(s, i + 1);
            assert(s[i as int] == node(f@[i as int].1));
        }
        r += f[i].1.size;
        i += 1;
    }
    assert(s.take(i as int) =~= s);
    r
}

/// The summed numbers of files of a stretch of siblings.
pub fn total_nfiles(f: TreeSlice) -> (r: usize)
    requires
        sum_nfiles(bare(forest(f@))) <= usize::MAX,
    ensures
        r == sum_nfiles(bare(forest(f@))),
{
    let ghost s = bare(forest(f@));
    let mut r: usize = 0;
    let mut i: usize = 0;
    assert(s.take(0) =~= Seq::empty());
    while i < f.len()
        invariant
            s == bare(forest(f@)),
            i <= f@.len(),
            sum_nfiles(s) <= usize::MAX,
            r == sum_nfiles(s.take(i as int)),
        decreases f.len() - i,
    {
        proof {
            lemma_sum_take(s, i as int);
            lemma_sum_take(s, i + 1);
            assert(s[i as int] == node(f@[i as int].1));
        }
        r += f[i].1.nfiles;
        i += 1;
    }
    assert(s.take(i as int) =~= s);
    r
}

/// The summed numbers of leaves of a stretch of siblings.
pub fn total_leaves(f: TreeSlice) -> (r: usize)
    requires
        sum_leaves(bare(forest(f@))) <= usize::MAX,
    ensures
        r == sum_leaves(bare(forest(f@))),
{
    let ghost s = bare(forest(f@));
    let mut r: usize = 0;
    let mut i: usize = 0;
    assert(s.take(0) =~= Seq::empty());
    while i < f.len()
        invariant
            s == bare(forest(f@)),
            i <= f@.len(),
            sum_leaves(s) <= usize::MAX,
            r == sum_leaves(s.take(i as int)),
        decreases f.len() - i,
    {
        proof {
            lemma_sum_take(s, i as int);
            lemma_sum_take(s, i + 1);
            assert(s[i as int] == node(f@[i as int].1));
        }
        r += f[i].1.leaves;
        i += 1;
    }
    assert(s.take(i as int) =~= s);
    r
}

/// Puts an entry above the trees below it.
fn settle(it: Entry, below: Forest) -> (r: Entry)
    requires
        it.size == 0 ==> sum_size(bare(forest(below@))) <= usize::MAX,
        it.nfiles == 0 ==> sum_nfiles(bare(forest(below@))) <= usize::MAX,
        sum_leaves(bare(forest(below@))) <= usize::MAX,
    ensures
        node(r) == settled(node(it), forest(below@)),
{
    let mut it = it;
    assert(forest(below@).len() == below@.len());
    if below.len() > 0 {
        if it.size == 0 {
            it.size = total_size(below.as_slice());
        }
        if it.nfiles == 0 {
            it.nfiles = total_nfiles(below.as_slice());
        }
        it.leaves = total_leaves(below.as_slice());
        it.subtree = below;
    } else {
        it.leaves = 1;
    }
    it
}

/// Grows the trees below a path. The families that they are made of leave the
/// map.
pub fn treeify(_args: &Args, kidding: &mut LineageMap, path: &PathBuf, ext: &Option<Vec<u8>>) -> (r: Forest)
    requires
        old(kidding).wf(),
        related(lineage(old(kidding)@)),
        growth_fits(lineage(old(kidding)@), path@, bytes_view(*ext)),
    ensures
        final(kidding).wf(),
        forest(r@) == tree_of(lineage(old(kidding)@), path@, bytes_view(*ext)),
        forall|k: Key| #[trigger]
            final(kidding)@.contains_key(k) <==> old(kidding)@.contains_key(k) && !reaches(
                lineage(old(kidding)@),
                path@,
                bytes_view(*ext),
                k,
            ),
        forall|k: Key| #[trigger]
            final(kidding)@.contains_key(k) ==> final(kidding)@[k] == old(kidding)@[k],
    decreases old(kidding)@.dom().len(),
{
    let ghost m = lineage(kidding@);
    let ghost tag = bytes_view(*ext);
    let ghost key: Key = (path@, tag);
    proof {
        kidding.lemma_finite();
        assert(m.dom() =~= kidding@.dom());
    }
    let entries = match kidding.take(path, ext) {
        Some(entries) => entries,
        None => {
            let none: Forest = Vec::new();
            assert(forest(none@) =~= Seq::empty());
            return none;
        },
    };
    let ghost kids = nodes(entries@);
    let ghost rest = m.remove(key);
    let ghost rest_exec = kidding@;
    let ghost total = entries@.len();
    proof {
        assert(kids == m[key]);
        assert(rest =~= lineage(kidding@));
        assert(related(rest)) by {
            assert forall|k: Key, i: int| rest.contains_key(k) && 0 <= i < rest[k].len() implies (
            #[trigger] rest[k][i]).path.parent() == Some(k.0) by {
                assert(m[k][i] == rest[k][i]);
            }
            assert forall|k: Key, i: int, j: int|
                rest.contains_key(k) && 0 <= i < j < rest[k].len() implies (#[trigger] rest[k][i]).path
                != (#[trigger] rest[k][j]).path by {
                assert(m[k][i] == rest[k][i]);
                assert(m[k][j] == rest[k][j]);
            }
        }
        assert(tree_of(m, path@, tag) == offsets(sort_nodes(grown(rest, kids, tag))));
    }
    let mut queue: Vec<Entry> = entries;
    let mut waiting: Vec<Entry> = Vec::with_capacity(queue.len());
    while queue.len() > 0
        invariant
            queue@.len() + waiting@.len() == total,
            total == entries@.len(),
            forall|j: int| 0 <= j < queue@.len() ==> #[trigger] queue@[j] == entries@[j],
            forall|j: int| 0 <= j < waiting@.len() ==> #[trigger] waiting@[j] == entries@[total - 1 - j],
        decreases queue.len(),
    {
        if let Some(e) = queue.pop() {
            waiting.push(e);
        }
    }
    let mut done: Vec<Entry> = Vec::with_capacity(waiting.len());
    while waiting.len() > 0
        invariant
            kidding.wf(),
            total == entries@.len(),
            kids == nodes(entries@),
            kids == m[key],
            m.contains_key(key),
            m.dom().finite(),
            related(m),
            related(rest),
            rest == m.remove(key),
            rest == lineage(rest_exec),
            key == (path@, tag),
            tag == bytes_view(*ext),
            growth_fits(m, path@, tag),
            old(kidding)@.dom() == m.dom(),
            old(kidding)@.dom().finite(),
            done@.len() + waiting@.len() == total,
            forall|j: int| 0 <= j < waiting@.len() ==> #[trigger] waiting@[j] == entries@[total - 1 - j],
            forall|j: int|
                0 <= j < done@.len() ==> node(#[trigger] done@[j]) == settled(
                    kids[j],
                    tree_of(rest, kids[j].path, tag),
                ),
            forall|k: Key| #[trigger]
                kidding@.contains_key(k) <==> rest_exec.contains_key(k) && !(exists|j: int|
                    0 <= j < done@.len() && reaches(rest, (#[trigger] kids[j]).path, tag, k)),
            forall|k: Key| #[trigger] kidding@.contains_key(k) ==> kidding@[k] == rest_exec[k],
        decreases waiting.len(),
    {
        if let Some(e) = waiting.pop() {
            let ghost i = done@.len() as int;
            let ghost before = kidding@;
            let ghost now = lineage(kidding@);
            let ghost done_before = done@;
            proof {
                assert(node(e) == kids[i]);
                kidding.lemma_finite();
                assert(now.dom() =~= kidding@.dom());
                assert(rest.dom() =~= rest_exec.dom());
                assert(related(now)) by {
                    assert forall|k: Key, j: int| now.contains_key(k) && 0 <= j < now[k].len() implies (
                    #[trigger] now[k][j]).path.parent() == Some(k.0) by {
                        assert(kidding@.contains_key(k));
                        assert(rest[k][j] == now[k][j]);
                    }
                    assert forall|k: Key, a: int, b: int|
                        now.contains_key(k) && 0 <= a < b < now[k].len() implies (
                    #[trigger] now[k][a]).path != (#[trigger] now[k][b]).path by {
                        assert(kidding@.contains_key(k));
                        assert(rest[k][a] == now[k][a]);
                        assert(rest[k][b] == now[k][b]);
                    }
                }
                assert(agree(rest, now, kids[i].path, tag)) by {
                    assert forall|q: PathView| #[trigger] under(q, kids[i].path) implies rest.contains_key(
                        (q, tag),
                    ) == now.contains_key((q, tag)) && (rest.contains_key((q, tag)) ==> rest[(q, tag)] == now[(q, tag)]) by {
                        let k: Key = (q, tag);
                        if exists|j: int| 0 <= j < i && reaches(rest, (#[trigger] kids[j]).path, tag, k) {
                            let j = choose|j: int|
                                0 <= j < i && reaches(rest, (#[trigger] kids[j]).path, tag, k);
                            lemma_reaches_under(rest, kids[j].path, tag, k);
                            assert(m[key][j].path.parent() == Some(path@));
                            assert(m[key][i].path.parent() == Some(path@));
                            lemma_one_child(q, kids[i].path, kids[j].path, path@);
                            assert(m[key][j].path != m[key][i].path);
                        }
                        assert(kidding@.contains_key(k) == now.contains_key(k));
                        assert(rest_exec.contains_key(k) == rest.contains_key(k));
                    }
                }
                lemma_agree(rest, now, kids[i].path, tag);
                assert(growth_fits(rest, m[key][i].path, tag));
                assert(kid_fits(m[key][i], tree_of(rest, m[key][i].path, tag)));
                lemma_level_fits(rest, kids[i].path, tag);
                assert(now.dom().subset_of(rest.dom()));
                vstd::set_lib::lemma_len_subset(now.dom(), rest.dom());
                assert(rest.dom() =~= m.dom().remove(key));
            }
            let below = treeify(_args, kidding, &e.path, ext);
            let it = settle(e, below);
            done.push(it);
            proof {
                assert forall|k: Key| #[trigger] kidding@.contains_key(k) <==> rest_exec.contains_key(k)
                    && !(exists|j: int|
                    0 <= j < done@.len() && reaches(rest, (#[trigger] kids[j]).path, tag, k)) by {
                    assert(reaches(rest, kids[i].path, tag, k) == reaches(now, kids[i].path, tag, k));
                    assert(before.contains_key(k) <==> rest_exec.contains_key(k) && !(exists|j: int|
                        0 <= j < i && reaches(rest, (#[trigger] kids[j]).path, tag, k)));
                    if exists|j: int| 0 <= j < i + 1 && reaches(rest, (#[trigger] kids[j]).path, tag, k) {
                        let j = choose|j: int|
                            0 <= j < i + 1 && reaches(rest, (#[trigger] kids[j]).path, tag, k);
                        if j < i {
                            assert(exists|j: int|
                                0 <= j < i && reaches(rest, (#[trigger] kids[j]).path, tag, k));
                        }
                    }
                }
                assert forall|k: Key| #[trigger] kidding@.contains_key(k) implies kidding@[k]
                    == rest_exec[k] by {
                    assert(before.contains_key(k));
                }
            }
        }
    }
    proof {
        lemma_grown(rest, kids, tag);
        assert(nodes(done@) =~= grown(rest, kids, tag));
        assert forall|k: Key| #[trigger] kidding@.contains_key(k) <==> m.contains_key(k) && !reaches(
            m,
            path@,
            tag,
            k,
        ) by {
            if k != key {
                if exists|j: int| 0 <= j < total && reaches(rest, (#[trigger] kids[j]).path, tag, k) {
                    let j = choose|j: int|
                        0 <= j < total && reaches(rest, (#[trigger] kids[j]).path, tag, k);
                    assert(reaches(rest, m[key][j].path, tag, k));
                }
            }
        }
    }
    let sorted = sort_largest(done);
    proof {
        offsets_keep_entries(nodes(sorted@));
    }
    cumsum_size(sorted)
}

pub proof fn lemma_one_child(q: PathView, a: PathView, b: PathView, parent: PathView)
    requires
        a.parent() == Some(parent),
        b.parent() == Some(parent),
        under(q, a),
        under(q, b),
    ensures
        a == b,
{
    assert(a.comps =~= b.comps) by {
        let n = parent.comps.len() as int;
        assert(a.comps.drop_last() == parent.comps);
        assert(b.comps.drop_last() == parent.comps);
        assert(a.comps.len() == n + 1 && b.comps.len() == n + 1);
        assert(a.comps[n] == q.comps[n]);
        assert(b.comps[n] == q.comps[n]);
        assert forall|i: int| 0 <= i < n implies a.comps[i] == b.comps[i] by {
            assert(a.comps.drop_last()[i] == b.comps.drop_last()[i]);
        }
    }
}

/// The summed size of the trees below a path fits wherever their growth does.
proof fn lemma_level_fits(m: Map<Key, Seq<Node>>, path: PathView, tag: Option<Seq<u8>>)
    requires
        growth_fits(m, path, tag),
        m.dom().finite(),
    ensures
        sum_size(bare(tree_of(m, path, tag))) <= usize::MAX,
{
    if !m.contains_key((path, tag)) {
        assert(bare(tree_of(m, path, tag)) =~= Seq::empty());
    }
}

} // verus!
