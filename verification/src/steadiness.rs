//! What merging and pruning keep of forests even where entries have become
//! empty: that the ids of siblings never fall, and that no entry is smaller than
//! what lies below it.
use vstd::prelude::*;
use crate::accounting::{lemma_sort_len, sort_keeps_sums};
use crate::entry::{bare, lemma_sum_add, lemma_sum_take, sum_leaves, sum_nfiles, sum_size, Node};
use crate::ids::{in_order, index_of_id, ordered_is_in_order};
use crate::keymap::Key;
use crate::leaves::census_all;
use crate::merge::{
    children, fuse, fuse_group, fuse_keys, keys_of, lemma_census_children, lemma_census_with_key,
    lemma_fuse_keys, lemma_fuse_size, lemma_has_key, merged, with_key,
};
use crate::roundtrip::lemma_sort_members;
use crate::siblings::{offsets, offsets_keep_entries, sort_nodes};
use crate::soundness::{ample, ample_covers, holds_below, sound};
use crate::surgery::{covers, lemma_covered, lemma_sum_remove, lemma_sum_update, pruned};

verus! {

broadcast use crate::ids::lemma_index_of_id;

/// Whether a forest is steady: entries can be found in it by their ids, and taken
/// out of it.
pub open spec fn steady(f: Seq<(nat, Node)>) -> bool {
    in_order(f) && ample(f)
}

/// Whether an entry can stand in a steady forest.
pub open spec fn is_steady(n: Node) -> bool {
    steady(n.subtree) && holds_below(n)
}

/// A sound forest is steady.
pub proof fn soundness_is_steady(f: Seq<(nat, Node)>)
    requires
        sound(f),
    ensures
        steady(f),
        covers(f),
{
    ordered_is_in_order(f);
    ample_covers(f);
}

proof fn lemma_entries_steady(f: Seq<(nat, Node)>)
    requires
        steady(f),
    ensures
        forall|i: int| 0 <= i < bare(f).len() ==> is_steady(#[trigger] bare(f)[i]),
{
    assert forall|i: int| 0 <= i < bare(f).len() implies is_steady(#[trigger] bare(f)[i]) by {
        assert(bare(f)[i] == f[i].1);
        assert(in_order(f[i].1.subtree));
        assert(ample(f[i].1.subtree) && holds_below(f[i].1));
    }
}

proof fn lemma_laid_out_steady(s: Seq<Node>)
    requires
        forall|i: int| 0 <= i < s.len() ==> is_steady(#[trigger] s[i]),
    ensures
        steady(offsets(s)),
{
    let f = offsets(s);
    assert forall|i: int, j: int| 0 <= i < j < f.len() implies (#[trigger] f[i]).0 <= (#[trigger] f[j]).0 by {
        assert(s.take(i) =~= s.take(j).take(i));
        lemma_sum_take(s.take(j), i);
    }
    assert forall|i: int| 0 <= i < f.len() implies in_order((#[trigger] f[i]).1.subtree) by {
        assert(is_steady(s[i]));
    }
    assert forall|i: int| 0 <= i < f.len() implies ample((#[trigger] f[i]).1.subtree) && holds_below(
        f[i].1,
    ) by {
        assert(is_steady(s[i]));
    }
}

proof fn lemma_sorted_steady(s: Seq<Node>)
    requires
        forall|i: int| 0 <= i < s.len() ==> is_steady(#[trigger] s[i]),
    ensures
        steady(offsets(sort_nodes(s))),
{
    lemma_sort_members(s);
    lemma_sort_len(s);
    let t = sort_nodes(s);
    assert forall|i: int| 0 <= i < t.len() implies is_steady(#[trigger] t[i]) by {
        assert(t.contains(t[i]));
        assert(s.contains(t[i]));
        let j = choose|j: int| 0 <= j < s.len() && s[j] == t[i];
        assert(is_steady(s[j]));
    }
    lemma_laid_out_steady(t);
}

proof fn lemma_children_steady(s: Seq<Node>)
    requires
        forall|i: int| 0 <= i < s.len() ==> is_steady(#[trigger] s[i]),
    ensures
        forall|i: int| 0 <= i < children(s).len() ==> is_steady(#[trigger] children(s)[i]),
        sum_size(children(s)) <= sum_size(s),
        sum_nfiles(children(s)) <= sum_nfiles(s),
    decreases s.len(),
{
    if s.len() > 0 {
        let d = s.drop_last();
        let n = s.last();
        assert(n == s[s.len() - 1]);
        assert forall|i: int| 0 <= i < d.len() implies is_steady(#[trigger] d[i]) by {
            assert(d[i] == s[i]);
        }
        lemma_children_steady(d);
        lemma_entries_steady(n.subtree);
        lemma_sum_add(children(d), bare(n.subtree));
        let c = children(s);
        assert(c == children(d) + bare(n.subtree));
        assert forall|i: int| 0 <= i < c.len() implies is_steady(#[trigger] c[i]) by {
            if i < children(d).len() {
                assert(c[i] == children(d)[i]);
            } else {
                assert(c[i] == bare(n.subtree)[i - children(d).len()]);
            }
        }
    }
}

proof fn lemma_with_key_steady(s: Seq<Node>, k: Key)
    requires
        forall|i: int| 0 <= i < s.len() ==> is_steady(#[trigger] s[i]),
    ensures
        forall|i: int| 0 <= i < with_key(s, k).len() ==> is_steady(#[trigger] with_key(s, k)[i]),
    decreases s.len(),
{
    if s.len() > 0 {
        let d = s.drop_last();
        assert(s.last() == s[s.len() - 1]);
        assert forall|i: int| 0 <= i < d.len() implies is_steady(#[trigger] d[i]) by {
            assert(d[i] == s[i]);
        }
        lemma_with_key_steady(d, k);
        let w = with_key(s, k);
        assert forall|i: int| 0 <= i < w.len() implies is_steady(#[trigger] w[i]) by {
            if i < with_key(d, k).len() {
                assert(w[i] == with_key(d, k)[i]);
            }
        }
    }
}

proof fn lemma_fuse_steady(s: Seq<Node>)
    requires
        forall|i: int| 0 <= i < s.len() ==> is_steady(#[trigger] s[i]),
    ensures
        forall|i: int| 0 <= i < fuse(s).len() ==> is_steady(#[trigger] fuse(s)[i]),
    decreases census_all(s), 1nat,
{
    let keys = keys_of(s);
    lemma_fuse_keys(s, keys);
    assert(fuse(s) == fuse_keys(s, keys));
    assert forall|i: int| 0 <= i < fuse(s).len() implies is_steady(#[trigger] fuse(s)[i]) by {
        let group = with_key(s, keys[i]);
        lemma_has_key(s, i);
        lemma_with_key_steady(s, keys[i]);
        lemma_census_with_key(s, keys[i]);
        lemma_group_steady(group);
        assert(fuse_keys(s, keys)[i] == fuse_group(group));
    }
}

proof fn lemma_group_steady(s: Seq<Node>)
    requires
        s.len() > 0,
        forall|i: int| 0 <= i < s.len() ==> is_steady(#[trigger] s[i]),
    ensures
        is_steady(fuse_group(s)),
    decreases census_all(s), 0nat,
{
    assert(is_steady(s[0]));
    if s.len() > 1 {
        let c = children(s);
        lemma_children_steady(s);
        lemma_census_children(s);
        lemma_fuse_steady(c);
        let below = fuse(c);
        lemma_sorted_steady(below);
        lemma_fuse_size(c);
        sort_keeps_sums(below);
        offsets_keep_entries(sort_nodes(below));
        let n = fuse_group(s);
        assert(n.subtree == offsets(sort_nodes(below)));
        if below.len() == 0 {
            assert(sum_leaves(below) == 0);
        }
    }
}

/// Merging steady forests gives a steady forest, whether their entries have a
/// size or not.
pub proof fn merging_keeps_steadiness(a: Seq<(nat, Node)>, b: Seq<(nat, Node)>)
    requires
        steady(a),
        steady(b),
    ensures
        steady(merged(a, b)),
        covers(merged(a, b)),
{
    lemma_entries_steady(a);
    lemma_entries_steady(b);
    let both = bare(a) + bare(b);
    assert forall|i: int| 0 <= i < both.len() implies is_steady(#[trigger] both[i]) by {
        if i < bare(a).len() {
            assert(both[i] == bare(a)[i]);
        } else {
            assert(both[i] == bare(b)[i - bare(a).len()]);
        }
    }
    lemma_fuse_steady(both);
    lemma_sorted_steady(fuse(both));
    ample_covers(merged(a, b));
}

/// Taking an entry out of a steady forest leaves a steady forest.
pub proof fn pruning_keeps_steadiness(f: Seq<(nat, Node)>, addr: Seq<usize>)
    requires
        steady(f),
        pruned(f, addr) is Some,
    ensures
        ({
            let (rest, gone) = pruned(f, addr)->0;
            &&& steady(rest)
            &&& steady(gone.subtree)
            &&& sum_size(bare(rest)) + gone.size == sum_size(bare(f))
            &&& sum_nfiles(bare(rest)) + gone.nfiles == sum_nfiles(bare(f))
            &&& sum_leaves(bare(rest)) + gone.leaves == sum_leaves(bare(f))
        }),
    decreases addr.len(),
{
    let i = index_of_id(f, addr[0] as nat);
    let (rest, gone) = pruned(f, addr)->0;
    ample_covers(f);
    lemma_covered(f, addr);
    assert(in_order(f[i].1.subtree));
    assert(ample(f[i].1.subtree) && holds_below(f[i].1));
    match pruned(f[i].1.subtree, addr.skip(1)) {
        None => {
            lemma_sum_remove(f, i);
            assert forall|j: int| 0 <= j < rest.len() implies in_order((#[trigger] rest[j]).1.subtree)
                && ample(rest[j].1.subtree) && holds_below(rest[j].1) by {
                if j < i {
                    assert(rest[j] == f[j]);
                } else {
                    assert(rest[j] == f[j + 1]);
                }
            }
        },
        Some((sub, _)) => {
            pruning_keeps_steadiness(f[i].1.subtree, addr.skip(1));
            lemma_sum_update(f, i, rest[i]);
            assert forall|j: int| 0 <= j < rest.len() implies in_order((#[trigger] rest[j]).1.subtree)
                && ample(rest[j].1.subtree) && holds_below(rest[j].1) by {
                if j != i {
                    assert(rest[j] == f[j]);
                }
            }
        },
    }
    assert forall|j: int| 0 <= j < rest.len() implies in_order((#[trigger] rest[j]).1.subtree) by {}
    assert forall|j: int| 0 <= j < rest.len() implies ample((#[trigger] rest[j]).1.subtree) && holds_below(
        rest[j].1,
    ) by {}
}

} // verus!
