//! What becomes of a forest when a part of it is taken out and put back in
//! another form.
use vstd::prelude::*;
use crate::accounting::lemma_sort_len;
use crate::assembly::{lemma_fused_pair, marks};
use crate::entry::{bare, sum_leaves, sum_nfiles, sum_size, Node};
use crate::ids::{has_id, index_of_id, ordered};
use crate::keymap::Key;
use crate::matching::{
    lemma_nothing_to_fuse, lemma_sorted_stays, lemma_with_key_add, lemma_with_key_one,
    order_does_not_matter, paths_differ,
};
use crate::merge::{
    fuse, fuse_group, key_of, keys_distinct, keys_of, lemma_all_keys, lemma_fuse_keys, lemma_has_key,
    merged, with_key,
};
use crate::siblings::{may_precede, offsets, offsets_keep_entries, sort_is_ordered, sort_nodes};
use crate::surgery::{
    adds_up, counted, counted_covers, covers, lemma_covered, lemma_same_sizes, nats,
    prune_takes_the_selected, pruned, resolve,
};

verus! {

broadcast use crate::ids::lemma_index_of_id;

/// Whether the entries of a forest are sorted and laid out, and no two siblings
/// have one path, at every level.
pub open spec fn laid_out(f: Seq<(nat, Node)>) -> bool
    decreases f,
{
    &&& paths_differ(bare(f))
    &&& f == offsets(sort_nodes(bare(f)))
    &&& forall|i: int| 0 <= i < f.len() ==> laid_out((#[trigger] f[i]).1.subtree)
}

/// The forest with another entry in the place of the one at an address. The
/// entries above it count its leaves.
pub open spec fn replaced(f: Seq<(nat, Node)>, addr: Seq<usize>, m: Node) -> Seq<(nat, Node)>
    decreases addr.len(),
{
    let i = index_of_id(f, addr[0] as nat);
    let n = f[i].1;
    if addr.len() <= 1 {
        f.update(i, (f[i].0, m))
    } else {
        let below = replaced(n.subtree, addr.skip(1), m);
        f.update(i, (f[i].0, Node { leaves: sum_leaves(bare(below)), subtree: below, ..n }))
    }
}

/// The forest with another entry in the place of the one at an address, sorted and
/// laid out again. The entries above it count what it counts.
pub open spec fn regrown(f: Seq<(nat, Node)>, addr: Seq<usize>, m: Node) -> Seq<(nat, Node)>
    decreases addr.len(),
{
    let i = index_of_id(f, addr[0] as nat);
    let n = f[i].1;
    let gone = resolve(f, nats(addr))->0;
    let new = if addr.len() <= 1 {
        m
    } else {
        let below = regrown(n.subtree, addr.skip(1), m);
        Node {
            size: (n.size - gone.size + m.size) as nat,
            nfiles: (n.nfiles - gone.nfiles + m.nfiles) as nat,
            leaves: sum_leaves(bare(below)),
            subtree: below,
            ..n
        }
    };
    offsets(sort_nodes(bare(f).update(i, new)))
}

/// Whether a forest is nothing but the way to an entry: it has one entry at each
/// level, which another forest has on the way of an address.
pub open spec fn is_way(t: Seq<(nat, Node)>, f: Seq<(nat, Node)>, addr: Seq<usize>, m: Node) -> bool
    decreases addr.len(),
{
    let n = f[index_of_id(f, addr[0] as nat)].1;
    &&& addr.len() > 0
    &&& t.len() == 1
    &&& key_of(t[0].1) == key_of(n)
    &&& t[0].1.size == m.size
    &&& t[0].1.nfiles == m.nfiles
    &&& if addr.len() == 1 {
        t[0].1 == m
    } else {
        is_way(t[0].1.subtree, n.subtree, addr.skip(1), m)
    }
}

proof fn lemma_update_laid(f: Seq<(nat, Node)>, i: int, m: Node)
    requires
        laid_out(f),
        0 <= i < f.len(),
        m.path == f[i].1.path,
        m.size == f[i].1.size,
    ensures
        ({
            let u = bare(f).update(i, m);
            &&& paths_differ(u)
            &&& offsets(sort_nodes(u)) == f.update(i, (f[i].0, m))
            &&& bare(f.update(i, (f[i].0, m))) == u
        }),
{
    let s = bare(f);
    let u = s.update(i, m);
    let sorted = sort_nodes(s);
    offsets_keep_entries(sorted);
    assert(sorted == s);
    sort_is_ordered(s);
    assert forall|a: int, b: int| 0 <= a < u.len() && 0 <= b < u.len() && a != b implies (#[trigger] u[a]).path
        != (#[trigger] u[b]).path by {
        assert(s[a].path != s[b].path);
    }
    assert forall|a: int, b: int| 0 <= a < b < u.len() implies may_precede(#[trigger] u[a], #[trigger] u[b]) by {
        assert(may_precede(sorted[a], sorted[b]));
    }
    lemma_sorted_stays(u);
    let g = f.update(i, (f[i].0, m));
    assert(bare(g) =~= u);
    assert forall|a: int| 0 <= a < u.len() implies #[trigger] offsets(u)[a] == g[a] by {
        assert(f[a] == offsets(s)[a]);
        lemma_same_sizes(s.take(a), u.take(a));
    }
    assert(offsets(u) =~= g);
}

/// Whether an entry stands where another list has the entry with a key.
spec fn stands_for(s: Seq<Node>, u: Seq<Node>, k: Key, v: Node) -> bool {
    exists|a: int| 0 <= a < s.len() && key_of(#[trigger] s[a]) == k && v == u[a]
}

/// Fusing one more entry that has the key of another puts the two in one.
proof fn lemma_fuse_one(s: Seq<Node>, t: Node, i: int)
    requires
        paths_differ(s),
        0 <= i < s.len(),
        key_of(t) == key_of(s[i]),
        fuse_group(seq![s[i], t]).path == s[i].path,
    ensures
        ({
            let u = s.update(i, fuse_group(seq![s[i], t]));
            &&& paths_differ(u)
            &&& sort_nodes(fuse(s + seq![t])) == sort_nodes(u)
        }),
{
    let one = seq![t];
    let both = s + one;
    let fused = fuse(both);
    let keys = keys_of(both);
    let u = s.update(i, fuse_group(seq![s[i], t]));
    lemma_fuse_keys(both, keys);
    lemma_all_keys(both);
    keys_distinct(both);
    assert forall|a: int, b: int| 0 <= a < u.len() && 0 <= b < u.len() && a != b implies (#[trigger] u[a]).path
        != (#[trigger] u[b]).path by {
        assert(s[a].path != s[b].path);
    }
    assert forall|a: int, b: int| 0 <= a < one.len() && 0 <= b < one.len() && a != b implies (
    #[trigger] one[a]).path != (#[trigger] one[b]).path by {}
    // What a key makes.
    assert forall|a: int| 0 <= a < s.len() implies fuse_group(with_key(both, key_of(s[a]))) == #[trigger] u[a] by {
        let k = key_of(s[a]);
        lemma_with_key_add(s, one, k);
        lemma_with_key_one(s, k);
        lemma_with_key_one(one, k);
        assert(with_key(s, k) == seq![s[a]]);
        if a == i {
            assert(key_of(one[0]) == k);
            assert(with_key(one, k) == seq![one[0]]);
            assert(with_key(both, k) =~= seq![s[a], t]);
        } else {
            assert(s[a].path != s[i].path);
            assert(key_of(one[0]) != k);
            assert(with_key(one, k) =~= Seq::empty());
            assert(with_key(both, k) =~= seq![s[a]]);
        }
    }
    assert forall|q: int| 0 <= q < fused.len() implies stands_for(s, u, keys[q], #[trigger] fused[q]) by {
        lemma_has_key(both, q);
        let at = lemma_at_key(both, keys[q]);
        if at < s.len() {
            assert(both[at] == s[at]);
            assert(fused[q] == fuse_group(with_key(both, keys[q])));
            assert(u[at] == fused[q]);
        } else {
            assert(both[at] == t);
            assert(key_of(s[i]) == keys[q]);
            assert(u[i] == fused[q]);
        }
    }
    assert forall|p: int, q: int| 0 <= p < fused.len() && 0 <= q < fused.len() && p != q implies (
    #[trigger] fused[p]).path != (#[trigger] fused[q]).path by {
        assert(stands_for(s, u, keys[p], fused[p]));
        assert(stands_for(s, u, keys[q], fused[q]));
        let a = choose|a: int| 0 <= a < s.len() && key_of(#[trigger] s[a]) == keys[p] && fused[p] == u[a];
        let b = choose|b: int| 0 <= b < s.len() && key_of(#[trigger] s[b]) == keys[q] && fused[q] == u[b];
        assert(keys[p] != keys[q]);
        assert(a != b);
        assert(u[a].path != u[b].path);
    }
    assert forall|v: Node| fused.contains(v) <==> #[trigger] u.contains(v) by {
        if fused.contains(v) {
            let q = choose|q: int| 0 <= q < fused.len() && fused[q] == v;
            assert(stands_for(s, u, keys[q], fused[q]));
            let a = choose|a: int| 0 <= a < s.len() && key_of(#[trigger] s[a]) == keys[q] && fused[q] == u[a];
            assert(u[a] == v);
        }
        if u.contains(v) {
            let a = choose|a: int| 0 <= a < u.len() && u[a] == v;
            assert(both[a] == s[a]);
            assert(keys.contains(key_of(both[a])));
            let q = choose|q: int| 0 <= q < keys.len() && keys[q] == key_of(s[a]);
            assert(fused[q] == fuse_group(with_key(both, keys[q])));
            assert(fused[q] == u[a]);
        }
    }
    order_does_not_matter(fused, u);
}

pub proof fn lemma_at_key(s: Seq<Node>, k: Key) -> (i: int)
    requires
        with_key(s, k).len() > 0,
    ensures
        0 <= i < s.len(),
        key_of(s[i]) == k,
    decreases s.len(),
{
    if key_of(s.last()) == k {
        s.len() - 1
    } else {
        let i = lemma_at_key(s.drop_last(), k);
        assert(s.drop_last()[i] == s[i]);
        i
    }
}

/// Whether no two siblings of a forest have one path, at every level.
pub open spec fn siblings_differ(f: Seq<(nat, Node)>) -> bool
    decreases f,
{
    &&& paths_differ(bare(f))
    &&& forall|i: int| 0 <= i < f.len() ==> siblings_differ((#[trigger] f[i]).1.subtree)
}

pub proof fn lemma_laid_differ(f: Seq<(nat, Node)>)
    requires
        laid_out(f),
    ensures
        siblings_differ(f),
    decreases f,
{
    assert forall|i: int| 0 <= i < f.len() implies siblings_differ((#[trigger] f[i]).1.subtree) by {
        lemma_laid_differ(f[i].1.subtree);
    }
}

/// Taking an entry out and merging what stays with the way to another form of it
/// puts that in its place: all else is as it was, but for the order of siblings
/// and what the entries above count.
pub proof fn grafting_regrows(f: Seq<(nat, Node)>, addr: Seq<usize>, t: Seq<(nat, Node)>, m: Node)
    requires
        siblings_differ(f),
        ordered(f),
        covers(f),
        resolve(f, nats(addr)) is Some,
        is_way(t, f, addr, m),
    ensures
        pruned(f, addr) is Some,
        merged((pruned(f, addr)->0).0, t) == regrown(f, addr, m),
        regrown(f, addr, m).len() == f.len(),
    decreases addr.len(),
{
    let gone = resolve(f, nats(addr))->0;
    let i = index_of_id(f, addr[0] as nat);
    let n = f[i].1;
    prune_takes_the_selected(f, addr);
    lemma_covered(f, addr);
    assert(nats(addr)[0] == addr[0] as nat);
    assert(nats(addr).skip(1) =~= nats(addr.skip(1)));
    let rest = (pruned(f, addr)->0).0;
    let way = t[0].1;
    assert(bare(t) =~= seq![way]);
    if addr.len() == 1 {
        assert(n == gone);
        assert(rest == f.remove(i));
        let u = bare(f).update(i, m);
        lemma_put_back(bare(f), i, m);
        assert(bare(rest) =~= bare(f).remove(i));
        lemma_sort_len(u);
    } else {
        assert(siblings_differ(n.subtree) && ordered(n.subtree) && covers(n.subtree));
        let more = addr.skip(1);
        grafting_regrows(n.subtree, more, way.subtree, m);
        let (sub, _) = pruned(n.subtree, more)->0;
        let below = regrown(n.subtree, more, m);
        let less = Node {
            size: (n.size - gone.size) as nat,
            nfiles: (n.nfiles - gone.nfiles) as nat,
            leaves: (n.leaves - gone.leaves) as nat,
            subtree: sub,
            ..n
        };
        assert(rest == f.update(i, (f[i].0, less)));
        let s = bare(rest);
        assert(s =~= bare(f).update(i, less));
        assert forall|a: int, b: int| 0 <= a < s.len() && 0 <= b < s.len() && a != b implies (
        #[trigger] s[a]).path != (#[trigger] s[b]).path by {
            assert(bare(f)[a].path != bare(f)[b].path);
        }
        assert(has_id(n.subtree, nats(more)[0]));
        lemma_fused_pair(less, way, below);
        let new = fuse_group(seq![less, way]);
        let want = Node {
            size: (n.size - gone.size + m.size) as nat,
            nfiles: (n.nfiles - gone.nfiles + m.nfiles) as nat,
            leaves: sum_leaves(bare(below)),
            subtree: below,
            ..n
        };
        assert(new == want) by {
            assert(marks(new) == marks(n));
        }
        lemma_fuse_one(s, way, i);
        assert(s.update(i, new) =~= bare(f).update(i, want));
        lemma_sort_len(s.update(i, new));
    }
}

/// Fusing siblings of an entry with another that has its path sorts that among
/// them.
proof fn lemma_put_back(whole: Seq<Node>, i: int, m: Node)
    requires
        paths_differ(whole),
        0 <= i < whole.len(),
        m.path == whole[i].path,
    ensures
        sort_nodes(fuse(whole.remove(i) + seq![m])) == sort_nodes(whole.update(i, m)),
{
    let s = whole.remove(i) + seq![m];
    let u = whole.update(i, m);
    assert forall|a: int, b: int| 0 <= a < u.len() && 0 <= b < u.len() && a != b implies (#[trigger] u[a]).path
        != (#[trigger] u[b]).path by {
        assert(whole[a].path != whole[b].path);
    }
    assert forall|a: int| 0 <= a < s.len() implies #[trigger] s[a] == u[came_from(s.len(), i, a)] by {}
    assert forall|a: int, b: int| 0 <= a < s.len() && 0 <= b < s.len() && a != b implies (#[trigger] s[a]).path
        != (#[trigger] s[b]).path by {
        let x = came_from(s.len(), i, a);
        let y = came_from(s.len(), i, b);
        assert(x != y);
        assert(u[x].path != u[y].path);
    }
    lemma_nothing_to_fuse(s);
    assert forall|v: Node| s.contains(v) <==> #[trigger] u.contains(v) by {
        if s.contains(v) {
            let a = choose|a: int| 0 <= a < s.len() && s[a] == v;
            assert(u[came_from(s.len(), i, a)] == v);
        }
        if u.contains(v) {
            let x = choose|x: int| 0 <= x < u.len() && u[x] == v;
            let a = if x < i {
                x
            } else if x > i {
                x - 1
            } else {
                s.len() - 1
            };
            assert(s[a] == v);
        }
    }
    order_does_not_matter(s, u);
}

/// Where an entry came from if the one at a place was moved to the end.
spec fn came_from(len: nat, i: int, a: int) -> int {
    if a < i {
        a
    } else if a < len - 1 {
        a + 1
    } else {
        i
    }
}

/// An entry that counts what the one counted whose place it takes leaves all
/// others where they were.
pub proof fn regrown_in_place(f: Seq<(nat, Node)>, addr: Seq<usize>, m: Node)
    requires
        laid_out(f),
        ordered(f),
        counted(f),
        resolve(f, nats(addr)) is Some,
        m.path == (resolve(f, nats(addr))->0).path,
        m.size == (resolve(f, nats(addr))->0).size,
        m.nfiles == (resolve(f, nats(addr))->0).nfiles,
    ensures
        regrown(f, addr, m) == replaced(f, addr, m),
    decreases addr.len(),
{
    let gone = resolve(f, nats(addr))->0;
    let i = index_of_id(f, addr[0] as nat);
    let n = f[i].1;
    assert(nats(addr)[0] == addr[0] as nat);
    assert(nats(addr).skip(1) =~= nats(addr.skip(1)));
    prune_takes_the_selected(f, addr);
    counted_covers(f);
    lemma_covered(f, addr);
    if addr.len() == 1 {
        lemma_update_laid(f, i, m);
    } else {
        assert(laid_out(n.subtree) && ordered(n.subtree) && counted(n.subtree));
        regrown_in_place(n.subtree, addr.skip(1), m);
        let below = replaced(n.subtree, addr.skip(1), m);
        lemma_update_laid(f, i, Node { leaves: sum_leaves(bare(below)), subtree: below, ..n });
    }
}

proof fn lemma_replaced_len(f: Seq<(nat, Node)>, addr: Seq<usize>, m: Node)
    requires
        has_id(f, addr[0] as nat),
    ensures
        replaced(f, addr, m).len() == f.len(),
        forall|i: int| 0 <= i < f.len() ==> (#[trigger] replaced(f, addr, m)[i]).0 == f[i].0,
{
    let i = index_of_id(f, addr[0] as nat);
    assert(0 <= i < f.len());
}

proof fn lemma_one_index(f: Seq<(nat, Node)>, g: Seq<(nat, Node)>, id: nat)
    requires
        ordered(f),
        f.len() == g.len(),
        forall|i: int| 0 <= i < f.len() ==> (#[trigger] g[i]).0 == f[i].0,
        has_id(f, id),
    ensures
        has_id(g, id),
        index_of_id(g, id) == index_of_id(f, id),
        0 <= index_of_id(f, id) < f.len(),
        f[index_of_id(f, id)].0 == id,
{
    let i = index_of_id(f, id);
    assert(g[i].0 == f[i].0);
    let j = index_of_id(g, id);
    assert(g[j].0 == f[j].0);
    if i < j {
        assert(f[i].0 < f[j].0);
    } else if j < i {
        assert(f[j].0 < f[i].0);
    }
}

/// What was put in the place of an entry is found at its address.
pub proof fn replacement_is_found(f: Seq<(nat, Node)>, addr: Seq<usize>, m: Node)
    requires
        ordered(f),
        resolve(f, nats(addr)) is Some,
    ensures
        resolve(replaced(f, addr, m), nats(addr)) == Some(m),
    decreases addr.len(),
{
    let g = replaced(f, addr, m);
    let i = index_of_id(f, addr[0] as nat);
    assert(nats(addr)[0] == addr[0] as nat);
    assert(nats(addr).skip(1) =~= nats(addr.skip(1)));
    lemma_replaced_len(f, addr, m);
    lemma_one_index(f, g, addr[0] as nat);
    if addr.len() > 1 {
        assert(ordered(f[i].1.subtree));
        replacement_is_found(f[i].1.subtree, addr.skip(1), m);
    }
}

/// Putting the entry back that another took the place of restores the forest.
pub proof fn replacing_back_restores(f: Seq<(nat, Node)>, addr: Seq<usize>, m: Node)
    requires
        ordered(f),
        counted(f),
        resolve(f, nats(addr)) is Some,
    ensures
        replaced(replaced(f, addr, m), addr, resolve(f, nats(addr))->0) == f,
    decreases addr.len(),
{
    let g = replaced(f, addr, m);
    let i = index_of_id(f, addr[0] as nat);
    let n = f[i].1;
    let gone = resolve(f, nats(addr))->0;
    assert(nats(addr)[0] == addr[0] as nat);
    assert(nats(addr).skip(1) =~= nats(addr.skip(1)));
    lemma_replaced_len(f, addr, m);
    lemma_one_index(f, g, addr[0] as nat);
    if addr.len() > 1 {
        assert(ordered(n.subtree) && counted(n.subtree) && adds_up(n));
        replacing_back_restores(n.subtree, addr.skip(1), m);
        assert(n.subtree.len() > 0);
        assert(g[i].1.subtree == replaced(n.subtree, addr.skip(1), m));
        assert(replaced(g[i].1.subtree, addr.skip(1), gone) == n.subtree);
    }
    assert(replaced(g, addr, gone) =~= f);
}

/// Replacing an entry by one that counts the same keeps a forest sorted, laid out
/// and adding up.
pub proof fn replacing_keeps_the_layout(f: Seq<(nat, Node)>, addr: Seq<usize>, m: Node)
    requires
        laid_out(f),
        ordered(f),
        counted(f),
        resolve(f, nats(addr)) is Some,
        m.path == (resolve(f, nats(addr))->0).path,
        m.size == (resolve(f, nats(addr))->0).size,
        m.nfiles == (resolve(f, nats(addr))->0).nfiles,
        laid_out(m.subtree),
        ordered(m.subtree),
        counted(m.subtree),
        adds_up(m),
    ensures
        laid_out(replaced(f, addr, m)),
        ordered(replaced(f, addr, m)),
        counted(replaced(f, addr, m)),
        sum_size(bare(replaced(f, addr, m))) == sum_size(bare(f)),
        sum_nfiles(bare(replaced(f, addr, m))) == sum_nfiles(bare(f)),
    decreases addr.len(),
{
    let g = replaced(f, addr, m);
    let i = index_of_id(f, addr[0] as nat);
    let n = f[i].1;
    assert(nats(addr)[0] == addr[0] as nat);
    assert(nats(addr).skip(1) =~= nats(addr.skip(1)));
    lemma_replaced_len(f, addr, m);
    lemma_one_index(f, g, addr[0] as nat);
    if addr.len() > 1 {
        assert(laid_out(n.subtree) && ordered(n.subtree) && counted(n.subtree) && adds_up(n));
        assert(resolve(f, nats(addr)) == resolve(n.subtree, nats(addr).skip(1)));
        assert(resolve(n.subtree, nats(addr.skip(1))) is Some);
        assert(has_id(n.subtree, nats(addr.skip(1))[0]));
        assert(nats(addr.skip(1))[0] == addr.skip(1)[0] as nat);
        replacing_keeps_the_layout(n.subtree, addr.skip(1), m);
        lemma_replaced_len(n.subtree, addr.skip(1), m);
    }
    let new = g[i].1;
    assert(new.path == n.path && new.size == n.size && new.nfiles == n.nfiles);
    lemma_update_laid(f, i, new);
    assert(g == f.update(i, (f[i].0, new)));
    assert forall|a: int| 0 <= a < g.len() implies laid_out((#[trigger] g[a]).1.subtree) && ordered(
        g[a].1.subtree,
    ) && counted(g[a].1.subtree) && adds_up(g[a].1) by {
        if a != i {
            assert(g[a] == f[a]);
            assert(laid_out(f[a].1.subtree) && ordered(f[a].1.subtree) && counted(f[a].1.subtree));
        }
    }
    offsets_keep_entries(sort_nodes(bare(g)));
    assert forall|a: int, b: int| 0 <= a < b < g.len() implies (#[trigger] g[a]).0 < (#[trigger] g[b]).0 by {
        assert(f[a].0 < f[b].0);
    }
    lemma_same_counts(bare(f), bare(g));
}

proof fn lemma_same_counts(a: Seq<Node>, b: Seq<Node>)
    requires
        a.len() == b.len(),
        forall|i: int| 0 <= i < a.len() ==> (#[trigger] a[i]).size == b[i].size && a[i].nfiles == b[i].nfiles,
    ensures
        sum_size(a) == sum_size(b),
        sum_nfiles(a) == sum_nfiles(b),
    decreases a.len(),
{
    if a.len() > 0 {
        assert(a[a.len() - 1].size == b[b.len() - 1].size);
        assert forall|i: int| 0 <= i < a.len() - 1 implies (#[trigger] a.drop_last()[i]).size
            == b.drop_last()[i].size && a.drop_last()[i].nfiles == b.drop_last()[i].nfiles by {
            assert(a[i].size == b[i].size);
        }
        lemma_same_counts(a.drop_last(), b.drop_last());
    }
}

} // verus!
