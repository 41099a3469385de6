//! Lists of entries that are the same up to their order.
use vstd::prelude::*;
use crate::entry::{bare, sum_nfiles, sum_size, Node};
use crate::keymap::Key;
use crate::merge::{
    children, fuse, fuse_group, fuse_keys, key_of, keys_of, lemma_fuse_keys, lemma_no_key, merged, with_key,
};
use crate::order::path_lt_total;
use crate::siblings::{may_precede, offsets, offsets_keep_entries, sort_is_ordered, sort_nodes};

verus! {

/// Whether no two entries have one path.
pub open spec fn paths_differ(s: Seq<Node>) -> bool {
    forall|i: int, j: int|
        0 <= i < s.len() && 0 <= j < s.len() && i != j ==> (#[trigger] s[i]).path != (#[trigger] s[j]).path
}

/// Whether two lists hold the same entries.
pub open spec fn same_members(s: Seq<Node>, t: Seq<Node>) -> bool {
    forall|v: Node| s.contains(v) <==> #[trigger] t.contains(v)
}

spec fn is_sorted(s: Seq<Node>) -> bool {
    forall|i: int, j: int| 0 <= i < j < s.len() ==> may_precede(#[trigger] s[i], #[trigger] s[j])
}

proof fn lemma_members_in(s: Seq<Node>, t: Seq<Node>)
    requires
        s.to_multiset() == t.to_multiset(),
    ensures
        same_members(s, t),
{
    s.to_multiset_ensures();
    t.to_multiset_ensures();
    assert forall|v: Node| s.contains(v) <==> #[trigger] t.contains(v) by {
        assert(s.contains(v) == (s.to_multiset().count(v) > 0));
        assert(t.contains(v) == (t.to_multiset().count(v) > 0));
    }
}

proof fn lemma_differ_dups(s: Seq<Node>)
    requires
        paths_differ(s),
    ensures
        s.no_duplicates(),
{
    assert forall|i: int, j: int| 0 <= i < s.len() && 0 <= j < s.len() && i != j implies s[i] != s[j] by {
        assert(s[i].path != s[j].path);
    }
}

proof fn lemma_differ_kept(s: Seq<Node>, t: Seq<Node>)
    requires
        paths_differ(s),
        s.to_multiset() == t.to_multiset(),
    ensures
        paths_differ(t),
{
    lemma_differ_dups(s);
    s.lemma_multiset_has_no_duplicates();
    t.lemma_multiset_has_no_duplicates_conv();
    lemma_members_in(s, t);
    assert forall|i: int, j: int| 0 <= i < t.len() && 0 <= j < t.len() && i != j implies (#[trigger] t[i]).path
        != (#[trigger] t[j]).path by {
        assert(t.contains(t[i]) && t.contains(t[j]));
        assert(s.contains(t[i]) && s.contains(t[j]));
        let a = choose|a: int| 0 <= a < s.len() && s[a] == t[i];
        let b = choose|b: int| 0 <= b < s.len() && s[b] == t[j];
        assert(t[i] != t[j]);
        assert(a != b);
        assert(s[a].path != s[b].path);
    }
}

proof fn lemma_same_multiset(s: Seq<Node>, t: Seq<Node>)
    requires
        paths_differ(s),
        paths_differ(t),
        same_members(s, t),
    ensures
        s.to_multiset() == t.to_multiset(),
{
    lemma_differ_dups(s);
    lemma_differ_dups(t);
    s.lemma_multiset_has_no_duplicates();
    t.lemma_multiset_has_no_duplicates();
    s.to_multiset_ensures();
    t.to_multiset_ensures();
    assert forall|v: Node| s.to_multiset().count(v) == t.to_multiset().count(v) by {
        assert(s.contains(v) == (s.to_multiset().count(v) > 0));
        assert(t.contains(v) == (t.to_multiset().count(v) > 0));
        assert(s.contains(v) == t.contains(v));
        if s.contains(v) {
            assert(s.to_multiset().contains(v));
            assert(t.to_multiset().contains(v));
        }
    }
    assert(s.to_multiset() =~= t.to_multiset());
}

proof fn lemma_one_order(s: Seq<Node>, t: Seq<Node>)
    requires
        paths_differ(s),
        is_sorted(s),
        is_sorted(t),
        s.to_multiset() == t.to_multiset(),
    ensures
        s == t,
    decreases s.len(),
{
    s.to_multiset_ensures();
    t.to_multiset_ensures();
    assert(s.len() == t.len());
    if s.len() > 0 {
        lemma_members_in(s, t);
        let n = s.len() - 1;
        let a = s[n];
        let b = t[n];
        assert(s.contains(a) && t.contains(b));
        assert(t.contains(a) && s.contains(b));
        let k = choose|k: int| 0 <= k < t.len() && t[k] == a;
        let l = choose|l: int| 0 <= l < s.len() && s[l] == b;
        assert(a == b) by {
            if a != b {
                assert(k != n && l != n);
                assert(may_precede(t[k], t[n]));
                assert(may_precede(s[l], s[n]));
                path_lt_total(a.path, b.path);
                assert(s[l].path != s[n].path);
            }
        }
        let ds = s.drop_last();
        let dt = t.drop_last();
        assert(s =~= ds.push(a));
        assert(t =~= dt.push(a));
        ds.to_multiset_ensures();
        dt.to_multiset_ensures();
        assert(ds.to_multiset() =~= s.to_multiset().remove(a));
        assert(dt.to_multiset() =~= t.to_multiset().remove(a));
        assert forall|i: int, j: int|
            0 <= i < ds.len() && 0 <= j < ds.len() && i != j implies (#[trigger] ds[i]).path != (
        #[trigger] ds[j]).path by {
            assert(ds[i] == s[i] && ds[j] == s[j]);
        }
        assert forall|i: int, j: int| 0 <= i < j < ds.len() implies may_precede(
            #[trigger] ds[i],
            #[trigger] ds[j],
        ) by {
            assert(ds[i] == s[i] && ds[j] == s[j]);
        }
        assert forall|i: int, j: int| 0 <= i < j < dt.len() implies may_precede(
            #[trigger] dt[i],
            #[trigger] dt[j],
        ) by {
            assert(dt[i] == t[i] && dt[j] == t[j]);
        }
        lemma_one_order(ds, dt);
    } else {
        assert(s =~= t);
    }
}

/// The order in which entries come does not matter to how they are sorted, as
/// long as no two have one path.
pub proof fn order_does_not_matter(s: Seq<Node>, t: Seq<Node>)
    requires
        paths_differ(s),
        paths_differ(t),
        same_members(s, t),
    ensures
        sort_nodes(s) == sort_nodes(t),
{
    lemma_same_multiset(s, t);
    sort_is_ordered(s);
    sort_is_ordered(t);
    lemma_differ_kept(s, sort_nodes(s));
    lemma_one_order(sort_nodes(s), sort_nodes(t));
}

/// Sorting leaves entries that are in order as they are.
pub proof fn lemma_sorted_stays(s: Seq<Node>)
    requires
        paths_differ(s),
        forall|i: int, j: int| 0 <= i < j < s.len() ==> may_precede(#[trigger] s[i], #[trigger] s[j]),
    ensures
        sort_nodes(s) == s,
{
    sort_is_ordered(s);
    lemma_differ_kept(s, sort_nodes(s));
    lemma_one_order(sort_nodes(s), s);
}

/// Sorting keeps entries, and that no two have one path.
pub proof fn lemma_sorted_members(s: Seq<Node>)
    requires
        paths_differ(s),
    ensures
        paths_differ(sort_nodes(s)),
        same_members(s, sort_nodes(s)),
        sort_nodes(sort_nodes(s)) == sort_nodes(s),
        sort_nodes(s).len() == s.len(),
{
    sort_is_ordered(s);
    lemma_differ_kept(s, sort_nodes(s));
    lemma_members_in(s, sort_nodes(s));
    order_does_not_matter(sort_nodes(s), s);
}

/// The entries of two lists that have a key.
pub proof fn lemma_with_key_add(a: Seq<Node>, b: Seq<Node>, k: Key)
    ensures
        with_key(a + b, k) == with_key(a, k) + with_key(b, k),
    decreases b.len(),
{
    if b.len() == 0 {
        assert(a + b =~= a);
        assert(with_key(a, k) + with_key(b, k) =~= with_key(a, k));
    } else {
        let d = b.drop_last();
        lemma_with_key_add(a, d, k);
        assert((a + b).drop_last() =~= a + d);
        assert((a + b).last() == b.last());
        assert(with_key(a + b, k) =~= with_key(a, k) + with_key(b, k));
    }
}

/// Where no two entries have one path, at most one has a key.
pub proof fn lemma_with_key_one(s: Seq<Node>, k: Key)
    requires
        paths_differ(s),
    ensures
        (forall|i: int| 0 <= i < s.len() ==> key_of(#[trigger] s[i]) != k) ==> with_key(s, k).len() == 0,
        forall|i: int| 0 <= i < s.len() && key_of(#[trigger] s[i]) == k ==> with_key(s, k) == seq![s[i]],
    decreases s.len(),
{
    if s.len() > 0 {
        let d = s.drop_last();
        let last = s.last();
        assert(last == s[s.len() - 1]);
        assert forall|i: int, j: int|
            0 <= i < d.len() && 0 <= j < d.len() && i != j implies (#[trigger] d[i]).path != (
        #[trigger] d[j]).path by {
            assert(d[i] == s[i] && d[j] == s[j]);
        }
        lemma_with_key_one(d, k);
        if key_of(last) == k {
            assert forall|i: int| 0 <= i < d.len() implies key_of(#[trigger] d[i]) != k by {
                assert(d[i] == s[i]);
                assert(s[i].path != s[s.len() - 1].path);
            }
            assert(with_key(s, k) =~= seq![last]);
            assert forall|i: int| 0 <= i < s.len() && key_of(#[trigger] s[i]) == k implies with_key(s, k)
                == seq![s[i]] by {
                if i < d.len() {
                    assert(d[i] == s[i]);
                }
            }
        } else {
            assert forall|i: int| 0 <= i < s.len() && key_of(#[trigger] s[i]) == k implies with_key(s, k)
                == seq![s[i]] by {
                assert(d[i] == s[i]);
            }
            if forall|i: int| 0 <= i < s.len() ==> key_of(#[trigger] s[i]) != k {
                assert forall|i: int| 0 <= i < d.len() implies key_of(#[trigger] d[i]) != k by {
                    assert(d[i] == s[i]);
                }
            }
        }
    }
}

proof fn lemma_keys_differ(s: Seq<Node>)
    requires
        paths_differ(s),
    ensures
        keys_of(s).len() == s.len(),
        forall|i: int| 0 <= i < s.len() ==> #[trigger] keys_of(s)[i] == key_of(s[i]),
    decreases s.len(),
{
    if s.len() > 0 {
        let d = s.drop_last();
        assert forall|i: int, j: int|
            0 <= i < d.len() && 0 <= j < d.len() && i != j implies (#[trigger] d[i]).path != (
        #[trigger] d[j]).path by {
            assert(d[i] == s[i] && d[j] == s[j]);
        }
        lemma_keys_differ(d);
        let before = keys_of(d);
        assert(!before.contains(key_of(s.last()))) by {
            if before.contains(key_of(s.last())) {
                let i = choose|i: int| 0 <= i < before.len() && before[i] == key_of(s.last());
                assert(before[i] == key_of(d[i]));
                assert(d[i] == s[i]);
                assert(s[i].path != s[s.len() - 1].path);
            }
        }
        assert forall|i: int| 0 <= i < s.len() implies #[trigger] keys_of(s)[i] == key_of(s[i]) by {
            if i < d.len() {
                assert(keys_of(d)[i] == key_of(d[i]));
            }
        }
    }
}

/// Where no two entries have one path, nothing is fused.
pub proof fn lemma_nothing_to_fuse(s: Seq<Node>)
    requires
        paths_differ(s),
    ensures
        fuse(s) == s,
{
    let keys = keys_of(s);
    lemma_keys_differ(s);
    lemma_fuse_keys(s, keys);
    assert forall|i: int| 0 <= i < s.len() implies fuse_keys(s, keys)[i] == s[i] by {
        lemma_with_key_one(s, keys[i]);
        assert(keys_of(s)[i] == key_of(s[i]));
        assert(with_key(s, keys[i]) == seq![s[i]]);
    }
    assert(fuse(s) =~= s);
}

/// Merging a forest that is laid out in order with nothing keeps it as it is.
pub proof fn merging_nothing_changes_nothing(g: Seq<Node>)
    requires
        paths_differ(g),
    ensures
        ({
            let f = offsets(sort_nodes(g));
            let none = Seq::<(nat, Node)>::empty();
            merged(f, none) == f && merged(none, f) == f
        }),
{
    let s = sort_nodes(g);
    let f = offsets(s);
    let none = Seq::<(nat, Node)>::empty();
    offsets_keep_entries(s);
    lemma_sorted_members(g);
    lemma_nothing_to_fuse(s);
    assert(bare(none) =~= Seq::empty());
    assert(s + bare(none) =~= s);
    assert(bare(none) + s =~= s);
}

proof fn lemma_fused(a: Seq<(nat, Node)>, b: Seq<(nat, Node)>, k: Key)
    requires
        with_key(bare(a) + bare(b), k).len() > 0,
    ensures
        bare(merged(a, b)).contains(fuse_group(with_key(bare(a) + bare(b), k))),
{
    let s = bare(a) + bare(b);
    let keys = keys_of(s);
    if !keys.contains(k) {
        lemma_no_key(s, k);
    }
    let i = choose|i: int| 0 <= i < keys.len() && keys[i] == k;
    lemma_fuse_keys(s, keys);
    let fused = fuse(s);
    let x = fuse_group(with_key(s, k));
    assert(fused[i] == x);
    sort_is_ordered(fused);
    fused.to_multiset_ensures();
    sort_nodes(fused).to_multiset_ensures();
    assert(fused.contains(x));
    assert(fused.to_multiset().count(x) > 0);
    assert(sort_nodes(fused).to_multiset().count(x) > 0);
    offsets_keep_entries(sort_nodes(fused));
}

/// Merging forests keeps an entry as it is if the other forest has none with its
/// path and tag.
pub proof fn merging_keeps_what_is_alone(a: Seq<(nat, Node)>, b: Seq<(nat, Node)>, i: int)
    requires
        paths_differ(bare(a)),
        paths_differ(bare(b)),
        0 <= i < a.len(),
        forall|j: int| 0 <= j < b.len() ==> (#[trigger] b[j]).1.path != a[i].1.path || b[j].1.tag != a[i].1.tag,
    ensures
        bare(merged(a, b)).contains(a[i].1),
        bare(merged(b, a)).contains(a[i].1),
{
    let k = key_of(a[i].1);
    assert(bare(a)[i] == a[i].1);
    assert forall|j: int| 0 <= j < bare(b).len() implies key_of(#[trigger] bare(b)[j]) != k by {
        assert(bare(b)[j] == b[j].1);
    }
    lemma_with_key_one(bare(a), k);
    lemma_with_key_one(bare(b), k);
    lemma_with_key_add(bare(a), bare(b), k);
    lemma_with_key_add(bare(b), bare(a), k);
    assert(with_key(bare(a), k) =~= seq![a[i].1]);
    assert(with_key(bare(b), k) =~= Seq::empty());
    assert(with_key(bare(a) + bare(b), k) =~= seq![a[i].1]);
    assert(with_key(bare(b) + bare(a), k) =~= seq![a[i].1]);
    lemma_fused(a, b, k);
    lemma_fused(b, a, k);
}

/// Merging forests makes one entry of two that have one path and one tag. It
/// counts what both count, and is like the first but for that.
pub proof fn merging_joins_what_belongs_together(a: Seq<(nat, Node)>, b: Seq<(nat, Node)>, i: int, j: int) -> (m: Node)
    requires
        paths_differ(bare(a)),
        paths_differ(bare(b)),
        0 <= i < a.len(),
        0 <= j < b.len(),
        a[i].1.path == b[j].1.path,
        a[i].1.tag == b[j].1.tag,
    ensures
        bare(merged(a, b)).contains(m),
        m.path == a[i].1.path,
        m.tag == a[i].1.tag,
        m.color == a[i].1.color,
        m.is_group == a[i].1.is_group,
        m.size == a[i].1.size + b[j].1.size,
        m.nfiles == a[i].1.nfiles + b[j].1.nfiles,
        bare(m.subtree) == bare(merged(a[i].1.subtree, b[j].1.subtree)),
{
    let x = a[i].1;
    let y = b[j].1;
    let k = key_of(x);
    assert(bare(a)[i] == x);
    assert(bare(b)[j] == y);
    lemma_with_key_one(bare(a), k);
    lemma_with_key_one(bare(b), k);
    lemma_with_key_add(bare(a), bare(b), k);
    assert(with_key(bare(a), k) == seq![x]);
    assert(with_key(bare(b), k) == seq![y]);
    let s = seq![x, y];
    assert(with_key(bare(a) + bare(b), k) =~= s);
    lemma_fused(a, b, k);
    assert(s.drop_last() =~= seq![x]);
    assert(seq![x].drop_last() =~= Seq::empty());
    assert(children(s) =~= bare(x.subtree) + bare(y.subtree)) by {
        assert(children(Seq::empty()) =~= Seq::empty());
        assert(children(seq![x]) =~= bare(x.subtree));
    }
    assert(sum_size(seq![x]) == x.size && sum_nfiles(seq![x]) == x.nfiles) by {
        assert(sum_size(Seq::empty()) == 0 && sum_nfiles(Seq::empty()) == 0);
    }
    fuse_group(s)
}

} // verus!
