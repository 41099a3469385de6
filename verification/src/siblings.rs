//! The order of siblings and their offsets.
use vstd::prelude::*;
use crate::entry::{bare, forest, lemma_sum_take, node, nodes, sum_size, Entry, Forest, Node};
use crate::order::{path_before, path_lt, path_lt_irreflexive, path_lt_total, path_lt_transitive};

verus! {

/// Whether `a` may stand before `b`: it is larger, or as large and not later
/// in the order of paths.
pub open spec fn may_precede(a: Node, b: Node) -> bool {
    a.size > b.size || (a.size == b.size && !path_lt(b.path, a.path))
}

proof fn lemma_may_precede(a: Node, b: Node, c: Node)
    ensures
        may_precede(a, b) || may_precede(b, a),
        may_precede(a, b) && may_precede(b, c) ==> may_precede(a, c),
{
    path_lt_total(a.path, b.path);
    path_lt_total(b.path, c.path);
    if path_lt(a.path, b.path) && path_lt(b.path, a.path) {
        path_lt_transitive(a.path, b.path, a.path);
        path_lt_irreflexive(a.path);
    }
    if may_precede(a, b) && may_precede(b, c) && !may_precede(a, c) {
        if path_lt(a.path, b.path) {
            path_lt_transitive(c.path, a.path, b.path);
        } else {
            assert(a.path == b.path);
        }
    }
}

/// All paths of a list are well formed.
pub open spec fn paths_valid(s: Seq<Node>) -> bool {
    forall|i: int| 0 <= i < s.len() ==> (#[trigger] s[i]).path.valid()
}

/// The list with `n` after every entry that may precede it.
pub open spec fn insert_node(s: Seq<Node>, n: Node) -> Seq<Node>
    decreases s.len(),
{
    if s.len() == 0 || may_precede(s.last(), n) {
        s.push(n)
    } else {
        insert_node(s.drop_last(), n).push(s.last())
    }
}

/// The list with the largest first and ties in the order of paths.
pub open spec fn sort_nodes(s: Seq<Node>) -> Seq<Node>
    decreases s.len(),
{
    if s.len() == 0 {
        s
    } else {
        insert_node(sort_nodes(s.drop_last()), s.last())
    }
}

/// Two ordered lists in one, those of `p` before equals in `q`.
spec fn blend(p: Seq<Node>, q: Seq<Node>) -> Seq<Node>
    decreases p.len() + q.len(),
{
    if q.len() == 0 {
        p
    } else if p.len() == 0 {
        q
    } else if may_precede(p.last(), q.last()) {
        blend(p, q.drop_last()).push(q.last())
    } else {
        blend(p.drop_last(), q).push(p.last())
    }
}

proof fn lemma_insert_valid(s: Seq<Node>, n: Node)
    requires
        paths_valid(s),
        n.path.valid(),
    ensures
        paths_valid(insert_node(s, n)),
        insert_node(s, n).len() == s.len() + 1,
    decreases s.len(),
{
    if s.len() > 0 && !may_precede(s.last(), n) {
        lemma_insert_valid(s.drop_last(), n);
    }
}

proof fn lemma_sort_valid(s: Seq<Node>)
    requires
        paths_valid(s),
    ensures
        paths_valid(sort_nodes(s)),
        sort_nodes(s).len() == s.len(),
    decreases s.len(),
{
    if s.len() > 0 {
        lemma_sort_valid(s.drop_last());
        lemma_insert_valid(sort_nodes(s.drop_last()), s.last());
    }
}

proof fn lemma_blend_insert(p: Seq<Node>, q: Seq<Node>, x: Node)
    requires
        paths_valid(p),
        paths_valid(q),
        x.path.valid(),
    ensures
        blend(p, insert_node(q, x)) == insert_node(blend(p, q), x),
    decreases p.len() + q.len(),
{
    let t = insert_node(q, x);
    let m = blend(p, q);
    lemma_insert_valid(q, x);
    if p.len() == 0 {
        assert(m =~= q);
        assert(blend(p, t) == t);
    } else if q.len() == 0 {
        assert(t == q.push(x));
        assert(t.drop_last() =~= q);
        assert(t.last() == x);
        if may_precede(p.last(), x) {
            assert(blend(p, t) == p.push(x));
        } else {
            lemma_blend_insert(p.drop_last(), q, x);
            assert(blend(p, t) == blend(p.drop_last(), t).push(p.last()));
            assert(blend(p.drop_last(), q) == p.drop_last());
            assert(insert_node(p, x) == insert_node(p.drop_last(), x).push(p.last()));
        }
    } else {
        let pl = p.last();
        let ql = q.last();
        lemma_may_precede(pl, ql, x);
        lemma_may_precede(ql, pl, x);
        lemma_may_precede(ql, x, pl);
        lemma_may_precede(x, ql, pl);
        lemma_may_precede(pl, x, ql);
        if may_precede(ql, x) {
            assert(t == q.push(x));
            assert(t.drop_last() =~= q);
            assert(t.last() == x);
            if may_precede(pl, x) {
                assert(m.last() == pl || m.last() == ql);
                assert(m.len() > 0);
                assert(blend(p, t) == m.push(x));
                assert(insert_node(m, x) == m.push(x));
            } else {
                lemma_blend_insert(p.drop_last(), q, x);
                assert(blend(p, t) == blend(p.drop_last(), t).push(pl));
                assert(m == blend(p.drop_last(), q).push(pl));
                assert(m.drop_last() =~= blend(p.drop_last(), q));
                assert(insert_node(m, x) == insert_node(m.drop_last(), x).push(pl));
            }
        } else {
            assert(t == insert_node(q.drop_last(), x).push(ql));
            assert(t.drop_last() =~= insert_node(q.drop_last(), x));
            assert(t.last() == ql);
            if may_precede(pl, ql) {
                lemma_blend_insert(p, q.drop_last(), x);
                assert(blend(p, t) == blend(p, t.drop_last()).push(ql));
                assert(m.drop_last() =~= blend(p, q.drop_last()));
                assert(m.last() == ql);
                assert(insert_node(m, x) == insert_node(m.drop_last(), x).push(ql));
            } else {
                lemma_blend_insert(p.drop_last(), q, x);
                assert(blend(p, t) == blend(p.drop_last(), t).push(pl));
                assert(m.drop_last() =~= blend(p.drop_last(), q));
                assert(m.last() == pl);
                assert(insert_node(m, x) == insert_node(m.drop_last(), x).push(pl));
            }
        }
    }
}

proof fn lemma_sort_add(a: Seq<Node>, b: Seq<Node>)
    requires
        paths_valid(a),
        paths_valid(b),
    ensures
        sort_nodes(a + b) == blend(sort_nodes(a), sort_nodes(b)),
    decreases b.len(),
{
    if b.len() == 0 {
        assert(a + b =~= a);
    } else {
        assert((a + b).drop_last() =~= a + b.drop_last());
        lemma_sort_add(a, b.drop_last());
        lemma_sort_valid(a);
        lemma_sort_valid(b.drop_last());
        lemma_blend_insert(sort_nodes(a), sort_nodes(b.drop_last()), b.last());
    }
}

/// Sorting keeps every entry, and makes each one's successors ones that it may
/// precede.
pub proof fn sort_is_ordered(s: Seq<Node>)
    ensures
        sort_nodes(s).to_multiset() == s.to_multiset(),
        sort_nodes(s).len() == s.len(),
        forall|i: int, j: int|
            0 <= i < j < s.len() ==> may_precede(#[trigger] sort_nodes(s)[i], #[trigger] sort_nodes(s)[j]),
    decreases s.len(),
{
    if s.len() > 0 {
        sort_is_ordered(s.drop_last());
        let t = sort_nodes(s.drop_last());
        lemma_insert_ordered(t, s.last());
        assert(s =~= s.drop_last().push(s.last()));
        s.drop_last().to_multiset_ensures();
        t.to_multiset_ensures();
    }
}

proof fn lemma_insert_ordered(s: Seq<Node>, n: Node)
    requires
        forall|i: int, j: int|
            0 <= i < j < s.len() ==> may_precede(#[trigger] s[i], #[trigger] s[j]),
    ensures
        insert_node(s, n).len() == s.len() + 1,
        insert_node(s, n).to_multiset() == s.to_multiset().insert(n),
        forall|i: int, j: int|
            0 <= i < j < s.len() + 1 ==> may_precede(
                #[trigger] insert_node(s, n)[i],
                #[trigger] insert_node(s, n)[j],
            ),
        forall|i: int|
            0 <= i < s.len() + 1 ==> (#[trigger] insert_node(s, n)[i] == n || s.contains(
                insert_node(s, n)[i],
            )),
    decreases s.len(),
{
    s.to_multiset_ensures();
    if s.len() == 0 || may_precede(s.last(), n) {
        assert forall|i: int, j: int| 0 <= i < j < s.len() + 1 implies may_precede(
            #[trigger] s.push(n)[i],
            #[trigger] s.push(n)[j],
        ) by {
            if j == s.len() && i < s.len() - 1 {
                lemma_may_precede(s[i], s.last(), n);
            }
        }
        assert forall|i: int| 0 <= i < s.len() + 1 implies (#[trigger] s.push(n)[i] == n
            || s.contains(s.push(n)[i])) by {
            if i < s.len() {
                assert(s[i] == s.push(n)[i]);
            }
        }
    } else {
        let d = s.drop_last();
        let t = insert_node(d, n);
        lemma_insert_ordered(d, n);
        assert(s =~= d.push(s.last()));
        d.to_multiset_ensures();
        t.to_multiset_ensures();
        lemma_may_precede(s.last(), n, n);
        assert(t.push(s.last()).to_multiset() =~= s.to_multiset().insert(n));
        assert forall|i: int, j: int| 0 <= i < j < s.len() + 1 implies may_precede(
            #[trigger] t.push(s.last())[i],
            #[trigger] t.push(s.last())[j],
        ) by {
            if j == s.len() {
                assert(t.push(s.last())[i] == t[i]);
                if t[i] != n {
                    let k = choose|k: int| 0 <= k < d.len() && d[k] == t[i];
                    assert(s[k] == t[i]);
                    assert(s[s.len() - 1] == s.last());
                }
            } else {
                assert(t.push(s.last())[i] == t[i]);
                assert(t.push(s.last())[j] == t[j]);
            }
        }
        assert forall|i: int| 0 <= i < s.len() + 1 implies (#[trigger] t.push(s.last())[i] == n
            || s.contains(t.push(s.last())[i])) by {
            if i < s.len() {
                assert(t.push(s.last())[i] == t[i]);
                if t[i] != n {
                    let k = choose|k: int| 0 <= k < d.len() && d[k] == t[i];
                    assert(s[k] == t[i]);
                }
            } else {
                assert(s[s.len() - 1] == s.last());
            }
        }
    }
}

/// The entries with their offsets: the summed size of those before.
pub open spec fn offsets(s: Seq<Node>) -> Seq<(nat, Node)> {
    Seq::new(s.len(), |i: int| (sum_size(s.take(i)), s[i]))
}

/// Giving offsets changes no entry.
pub proof fn offsets_keep_entries(s: Seq<Node>)
    ensures
        bare(offsets(s)) == s,
{
    assert(bare(offsets(s)) =~= s);
}

/// Whether an entry may stand before another.
fn precedes(a: &Entry, b: &Entry) -> (r: bool)
    ensures
        r == may_precede(node(*a), node(*b)),
{
    a.size > b.size || (a.size == b.size && !path_before(&b.path, &a.path))
}

/// The paths of entries are well formed.
pub fn reveal_paths(s: &Vec<Entry>)
    ensures
        paths_valid(nodes(s@)),
{
    let mut i: usize = 0;
    while i < s.len()
        invariant
            i <= s@.len(),
            forall|j: int| 0 <= j < i ==> (#[trigger] nodes(s@)[j]).path.valid(),
        decreases s.len() - i,
    {
        s[i].path.reveal_valid();
        i += 1;
    }
}

/// The entries in reverse.
pub fn reversed(v: Vec<Entry>) -> (r: Vec<Entry>)
    ensures
        nodes(r@) == nodes(v@).reverse(),
{
    let mut v = v;
    let ghost whole = v@;
    let mut r: Vec<Entry> = Vec::with_capacity(v.len());
    while v.len() > 0
        invariant
            v@.len() <= whole.len(),
            v@ == whole.take(v@.len() as int),
            r@ == whole.skip(v@.len() as int).reverse(),
        decreases v.len(),
    {
        let ghost before = v@;
        match v.pop() {
            Some(e) => {
                r.push(e);
                assert(r@ =~= whole.skip(v@.len() as int).reverse());
                assert(v@ =~= whole.take(v@.len() as int));
            },
            None => {},
        }
    }
    assert(nodes(r@) =~= nodes(whole).reverse());
    r
}

proof fn lemma_blend_len(p: Seq<Node>, q: Seq<Node>)
    ensures
        blend(p, q).len() == p.len() + q.len(),
    decreases p.len() + q.len(),
{
    if p.len() > 0 && q.len() > 0 {
        if may_precede(p.last(), q.last()) {
            lemma_blend_len(p, q.drop_last());
        } else {
            lemma_blend_len(p.drop_last(), q);
        }
    }
}

fn blended(p: Vec<Entry>, q: Vec<Entry>) -> (r: Vec<Entry>)
    ensures
        nodes(r@) == blend(nodes(p@), nodes(q@)),
{
    let mut p = p;
    let mut q = q;
    let ghost whole = blend(nodes(p@), nodes(q@));
    let mut tail: Vec<Entry> = Vec::new();
    while p.len() > 0 || q.len() > 0
        invariant
            blend(nodes(p@), nodes(q@)) + nodes(tail@).reverse() == whole,
        decreases p.len() + q.len(),
    {
        let ghost bp = p@;
        let ghost bq = q@;
        let ghost bt = tail@;
        let from_left = if q.len() == 0 {
            true
        } else if p.len() == 0 {
            false
        } else {
            !precedes(&p[p.len() - 1], &q[q.len() - 1])
        };
        let taken = if from_left {
            p.pop()
        } else {
            q.pop()
        };
        if let Some(e) = taken {
            tail.push(e);
            proof {
                assert(nodes(bp).len() == bp.len());
                if from_left {
                    assert(nodes(p@) =~= nodes(bp).drop_last());
                    assert(node(e) == nodes(bp).last());
                } else {
                    assert(nodes(q@) =~= nodes(bq).drop_last());
                    assert(node(e) == nodes(bq).last());
                }
                assert(blend(nodes(bp), nodes(bq)) =~= blend(nodes(p@), nodes(q@)).push(node(e)));
                assert(nodes(tail@).reverse() =~= seq![node(e)] + nodes(bt).reverse());
                assert(blend(nodes(p@), nodes(q@)) + nodes(tail@).reverse() =~= blend(
                    nodes(bp),
                    nodes(bq),
                ) + nodes(bt).reverse());
            }
        }
    }
    assert(blend(nodes(p@), nodes(q@)) + nodes(tail@).reverse() =~= nodes(tail@).reverse());
    reversed(tail)
}

/// Sorts largest entries first. Ties broken by lexical order.
pub fn sort_largest(entries: Vec<Entry>) -> (r: Vec<Entry>)
    ensures
        nodes(r@) == sort_nodes(nodes(entries@)),
        paths_valid(nodes(entries@)),
        r@.len() == entries@.len(),
    decreases entries.len(),
{
    reveal_paths(&entries);
    proof {
        lemma_sort_valid(nodes(entries@));
        assert(nodes(entries@).len() == entries@.len());
    }
    if entries.len() <= 1 {
        proof {
            if entries@.len() == 1 {
                let s = nodes(entries@);
                assert(s.drop_last() =~= Seq::empty());
                assert(sort_nodes(s) =~= s) by {
                    reveal_with_fuel(sort_nodes, 2);
                }
            }
        }
        return entries;
    }
    let mut left = entries;
    let ghost whole = left@;
    let half: usize = left.len() / 2;
    let right = left.split_off(half);
    proof {
        assert(nodes(whole) =~= nodes(left@) + nodes(right@));
        assert(nodes(left@) =~= nodes(whole).take(half as int));
        assert(nodes(right@) =~= nodes(whole).skip(half as int));
        lemma_sort_add(nodes(left@), nodes(right@));
    }
    let left = sort_largest(left);
    let right = sort_largest(right);
    let r = blended(left, right);
    assert(nodes(r@).len() == r@.len());
    r
}

/// Transform list of entries, tagging each with cumulative size of preceding siblings.
pub fn cumsum_size(entries: Vec<Entry>) -> (r: Forest)
    requires
        sum_size(nodes(entries@)) <= usize::MAX,
    ensures
        forest(r@) == offsets(nodes(entries@)),
        r@.len() == entries@.len(),
{
    let ghost s = nodes(entries@);
    let mut rest = reversed(entries);
    assert(nodes(rest@).len() == s.len());
    let mut r: Forest = Vec::with_capacity(rest.len());
    let mut acc: usize = 0;
    while rest.len() > 0
        invariant
            sum_size(s) <= usize::MAX,
            r@.len() + rest@.len() == s.len(),
            nodes(rest@) == s.skip(r@.len() as int).reverse(),
            acc == sum_size(s.take(r@.len() as int)),
            forall|j: int| 0 <= j < r@.len() ==> #[trigger] forest(r@)[j] == offsets(s)[j],
        decreases rest.len(),
    {
        let ghost k = r@.len() as int;
        let ghost before = rest@;
        let ghost rb = r@;
        match rest.pop() {
            Some(e) => {
                proof {
                    assert(nodes(before).len() == before.len());
                    assert(node(e) == nodes(before).last());
                    assert(nodes(before).last() == s[k]);
                    lemma_sum_take(s, k);
                    lemma_sum_take(s, k + 1);
                    assert forall|j: int| 0 <= j < rest@.len() implies #[trigger] nodes(rest@)[j]
                        == s.skip(k + 1).reverse()[j] by {
                        assert(nodes(rest@)[j] == nodes(before)[j]);
                        assert(s.skip(k).reverse()[j] == s[s.len() - 1 - j]);
                    }
                    assert(nodes(rest@) =~= s.skip(k + 1).reverse());
                }
                let size = e.size;
                r.push((acc, e));
                acc += size;
                assert forall|j: int| 0 <= j < r@.len() implies #[trigger] forest(r@)[j] == offsets(s)[j] by {
                    if j < k {
                        assert(forest(rb)[j] == offsets(s)[j]);
                        assert(r@[j] == rb[j]);
                    }
                }
            },
            None => {},
        }
    }
    assert(forest(r@) =~= offsets(s));
    r
}

/// Of two siblings the larger one stands first, and of two of one size the one
/// that comes first in the order of paths.
pub proof fn larger_siblings_come_first(s: Seq<Node>, i: int, j: int)
    requires
        0 <= i < sort_nodes(s).len(),
        0 <= j < sort_nodes(s).len(),
    ensures
        sort_nodes(s)[i].size > sort_nodes(s)[j].size ==> i < j,
        sort_nodes(s)[i].size == sort_nodes(s)[j].size && path_lt(
            sort_nodes(s)[i].path,
            sort_nodes(s)[j].path,
        ) ==> i < j,
        sort_nodes(s).len() == s.len(),
{
    let t = sort_nodes(s);
    sort_is_ordered(s);
    path_lt_irreflexive(t[i].path);
    if j < i {
        assert(may_precede(t[j], t[i]));
    }
}

/// Each sibling has the sizes of those before it together as its id.
pub proof fn ids_are_offsets(s: Seq<Node>, i: int)
    requires
        0 <= i < s.len(),
    ensures
        offsets(s).len() == s.len(),
        offsets(s)[0].0 == 0,
        i + 1 < s.len() ==> offsets(s)[i + 1].0 == offsets(s)[i].0 + s[i].size,
        offsets(s)[i].1 == s[i],
{
    lemma_sum_take(s, i);
    assert(s.take(0) =~= Seq::empty());
}

} // verus!
