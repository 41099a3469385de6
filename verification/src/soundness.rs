//! What merging keeps of forests: that their ids increase, that no entry is
//! empty, and that no entry is smaller than what lies below it.
use vstd::prelude::*;
use crate::accounting::{lemma_sort_len, sort_keeps_sums, Plan};
use crate::entry::{bare, lemma_sum_add, lemma_sum_take, sum_leaves, sum_nfiles, sum_size, Node};
use crate::forest::forest_of;
use crate::ids::ordered;
use crate::keymap::Key;
use crate::leaves::census_all;
use crate::merge::{
    children, fuse, fuse_group, fuse_keys, keys_of, lemma_census_children, lemma_census_with_key,
    lemma_fuse_keys, lemma_fuse_size, lemma_has_key, merged, with_key,
};
use crate::parallel::{merge_round, reduced};
use crate::roundtrip::{are_files, forest_is_sound, lemma_sort_members};
use crate::siblings::{offsets, offsets_keep_entries, sort_nodes};
use crate::surgery::{adds_up, counted, covers, lemma_sums_increase, sized};

verus! {

/// Whether an entry has at least the counts of all entries below it together.
pub open spec fn holds_below(n: Node) -> bool {
    &&& n.size >= sum_size(bare(n.subtree))
    &&& n.nfiles >= sum_nfiles(bare(n.subtree))
    &&& n.leaves >= sum_leaves(bare(n.subtree))
}

/// Whether each entry of a forest has at least the counts of all entries below
/// it together.
pub open spec fn ample(f: Seq<(nat, Node)>) -> bool
    decreases f,
{
    forall|i: int| 0 <= i < f.len() ==> ample((#[trigger] f[i]).1.subtree) && holds_below(f[i].1)
}

/// Whether a forest is sound.
pub open spec fn sound(f: Seq<(nat, Node)>) -> bool {
    ordered(f) && sized(f) && ample(f)
}

/// Whether an entry can stand in a sound forest.
pub open spec fn is_sound(n: Node) -> bool {
    n.size > 0 && sound(n.subtree) && holds_below(n)
}

/// A forest whose counts add up has enough on every level.
pub proof fn counted_is_ample(f: Seq<(nat, Node)>)
    requires
        counted(f),
    ensures
        ample(f),
    decreases f,
{
    assert forall|i: int| 0 <= i < f.len() implies ample((#[trigger] f[i]).1.subtree) && holds_below(
        f[i].1,
    ) by {
        let n = f[i].1;
        assert(counted(n.subtree) && adds_up(n));
        counted_is_ample(n.subtree);
        if n.subtree.len() == 0 {
            assert(bare(n.subtree) =~= Seq::empty());
        }
    }
}

/// Where entries have at least the counts of all entries below them together,
/// they have at least those of each.
pub proof fn ample_covers(f: Seq<(nat, Node)>)
    requires
        ample(f),
    ensures
        covers(f),
    decreases f,
{
    assert forall|i: int| 0 <= i < f.len() implies {
        &&& covers((#[trigger] f[i]).1.subtree)
        &&& forall|j: int|
            0 <= j < f[i].1.subtree.len() ==> f[i].1.size >= (#[trigger] f[i].1.subtree[j]).1.size
                && f[i].1.nfiles >= f[i].1.subtree[j].1.nfiles && f[i].1.leaves
                >= f[i].1.subtree[j].1.leaves
    } by {
        let n = f[i].1;
        ample_covers(n.subtree);
        let s = bare(n.subtree);
        assert forall|j: int| 0 <= j < n.subtree.len() implies n.size >= (#[trigger] n.subtree[j]).1.size
            && n.nfiles >= n.subtree[j].1.nfiles && n.leaves >= n.subtree[j].1.leaves by {
            lemma_sum_take(s, j);
            lemma_sum_take(s, j + 1);
            assert(s[j] == n.subtree[j].1);
        }
    }
}

proof fn lemma_entries_sound(f: Seq<(nat, Node)>)
    requires
        sound(f),
    ensures
        forall|i: int| 0 <= i < bare(f).len() ==> is_sound(#[trigger] bare(f)[i]),
{
    assert forall|i: int| 0 <= i < bare(f).len() implies is_sound(#[trigger] bare(f)[i]) by {
        assert(bare(f)[i] == f[i].1);
        assert(ordered(f[i].1.subtree));
        assert(f[i].1.size > 0 && sized(f[i].1.subtree));
        assert(ample(f[i].1.subtree) && holds_below(f[i].1));
    }
}

proof fn lemma_laid_out_sound(s: Seq<Node>)
    requires
        forall|i: int| 0 <= i < s.len() ==> is_sound(#[trigger] s[i]),
    ensures
        sound(offsets(s)),
{
    let f = offsets(s);
    assert forall|i: int, j: int| 0 <= i < j < f.len() implies (#[trigger] f[i]).0 < (#[trigger] f[j]).0 by {
        lemma_sums_increase(s, i, j);
    }
    assert forall|i: int| 0 <= i < f.len() implies ordered((#[trigger] f[i]).1.subtree) by {
        assert(is_sound(s[i]));
    }
    assert forall|i: int| 0 <= i < f.len() implies (#[trigger] f[i]).1.size > 0 && sized(f[i].1.subtree) by {
        assert(is_sound(s[i]));
    }
    assert forall|i: int| 0 <= i < f.len() implies ample((#[trigger] f[i]).1.subtree) && holds_below(
        f[i].1,
    ) by {
        assert(is_sound(s[i]));
    }
}

proof fn lemma_sorted_sound(s: Seq<Node>)
    requires
        forall|i: int| 0 <= i < s.len() ==> is_sound(#[trigger] s[i]),
    ensures
        sound(offsets(sort_nodes(s))),
{
    lemma_sort_members(s);
    lemma_sort_len(s);
    let t = sort_nodes(s);
    assert forall|i: int| 0 <= i < t.len() implies is_sound(#[trigger] t[i]) by {
        assert(t.contains(t[i]));
        assert(s.contains(t[i]));
        let j = choose|j: int| 0 <= j < s.len() && s[j] == t[i];
        assert(is_sound(s[j]));
    }
    lemma_laid_out_sound(t);
}

proof fn lemma_children_sound(s: Seq<Node>)
    requires
        forall|i: int| 0 <= i < s.len() ==> is_sound(#[trigger] s[i]),
    ensures
        forall|i: int| 0 <= i < children(s).len() ==> is_sound(#[trigger] children(s)[i]),
        sum_size(children(s)) <= sum_size(s),
        sum_nfiles(children(s)) <= sum_nfiles(s),
    decreases s.len(),
{
    if s.len() > 0 {
        let d = s.drop_last();
        let n = s.last();
        assert(n == s[s.len() - 1]);
        assert forall|i: int| 0 <= i < d.len() implies is_sound(#[trigger] d[i]) by {
            assert(d[i] == s[i]);
        }
        lemma_children_sound(d);
        lemma_entries_sound(n.subtree);
        lemma_sum_add(children(d), bare(n.subtree));
        let c = children(s);
        assert(c == children(d) + bare(n.subtree));
        assert forall|i: int| 0 <= i < c.len() implies is_sound(#[trigger] c[i]) by {
            if i < children(d).len() {
                assert(c[i] == children(d)[i]);
            } else {
                assert(c[i] == bare(n.subtree)[i - children(d).len()]);
            }
        }
    }
}

proof fn lemma_with_key_sound(s: Seq<Node>, k: Key)
    requires
        forall|i: int| 0 <= i < s.len() ==> is_sound(#[trigger] s[i]),
    ensures
        forall|i: int| 0 <= i < with_key(s, k).len() ==> is_sound(#[trigger] with_key(s, k)[i]),
    decreases s.len(),
{
    if s.len() > 0 {
        let d = s.drop_last();
        assert(s.last() == s[s.len() - 1]);
        assert forall|i: int| 0 <= i < d.len() implies is_sound(#[trigger] d[i]) by {
            assert(d[i] == s[i]);
        }
        lemma_with_key_sound(d, k);
        let w = with_key(s, k);
        assert forall|i: int| 0 <= i < w.len() implies is_sound(#[trigger] w[i]) by {
            if i < with_key(d, k).len() {
                assert(w[i] == with_key(d, k)[i]);
            }
        }
    }
}

proof fn lemma_fuse_sound(s: Seq<Node>)
    requires
        forall|i: int| 0 <= i < s.len() ==> is_sound(#[trigger] s[i]),
    ensures
        forall|i: int| 0 <= i < fuse(s).len() ==> is_sound(#[trigger] fuse(s)[i]),
    decreases census_all(s), 1nat,
{
    let keys = keys_of(s);
    lemma_fuse_keys(s, keys);
    assert(fuse(s) == fuse_keys(s, keys));
    assert forall|i: int| 0 <= i < fuse(s).len() implies is_sound(#[trigger] fuse(s)[i]) by {
        let group = with_key(s, keys[i]);
        lemma_has_key(s, i);
        lemma_with_key_sound(s, keys[i]);
        lemma_census_with_key(s, keys[i]);
        lemma_group_sound(group);
        assert(fuse_keys(s, keys)[i] == fuse_group(group));
    }
}

proof fn lemma_group_sound(s: Seq<Node>)
    requires
        s.len() > 0,
        forall|i: int| 0 <= i < s.len() ==> is_sound(#[trigger] s[i]),
    ensures
        is_sound(fuse_group(s)),
    decreases census_all(s), 0nat,
{
    assert(is_sound(s[0]));
    if s.len() > 1 {
        let c = children(s);
        lemma_children_sound(s);
        lemma_census_children(s);
        lemma_fuse_sound(c);
        let below = fuse(c);
        lemma_sorted_sound(below);
        lemma_fuse_size(c);
        sort_keeps_sums(below);
        offsets_keep_entries(sort_nodes(below));
        let n = fuse_group(s);
        assert(n.subtree == offsets(sort_nodes(below)));
        lemma_sum_take(s, 0);
        lemma_sum_take(s, 1);
        assert(sum_size(s) >= s[0].size) by {
            assert(s.take(0) =~= Seq::empty());
        }
        if below.len() == 0 {
            assert(sum_leaves(below) == 0);
        }
    }
}

/// Merging sound forests gives a sound forest.
pub proof fn merging_keeps_soundness(a: Seq<(nat, Node)>, b: Seq<(nat, Node)>)
    requires
        sound(a),
        sound(b),
    ensures
        sound(merged(a, b)),
        covers(merged(a, b)),
{
    lemma_entries_sound(a);
    lemma_entries_sound(b);
    let both = bare(a) + bare(b);
    assert forall|i: int| 0 <= i < both.len() implies is_sound(#[trigger] both[i]) by {
        if i < bare(a).len() {
            assert(both[i] == bare(a)[i]);
        } else {
            assert(both[i] == bare(b)[i - bare(a).len()]);
        }
    }
    lemma_fuse_sound(both);
    lemma_sorted_sound(fuse(both));
    ample_covers(merged(a, b));
}

/// The forest of scanned files is sound.
pub proof fn scans_are_sound(plan: Plan, leaves: Seq<Node>)
    requires
        plan.is_scan(leaves),
        are_files(leaves),
    ensures
        sound(forest_of(plan, leaves)),
        covers(forest_of(plan, leaves)),
{
    forest_is_sound(plan, leaves);
    counted_is_ample(forest_of(plan, leaves));
    ample_covers(forest_of(plan, leaves));
}

/// Merging sound forests pair by pair until one is left gives a sound forest.
pub proof fn reducing_keeps_soundness(s: Seq<Seq<(nat, Node)>>)
    requires
        forall|i: int| 0 <= i < s.len() ==> sound(#[trigger] s[i]),
    ensures
        sound(reduced(s)),
    decreases s.len(),
{
    if s.len() > 1 {
        let t = merge_round(s);
        assert forall|i: int| 0 <= i < t.len() implies sound(#[trigger] t[i]) by {
            assert(sound(s[2 * i]));
            if 2 * i + 1 < s.len() {
                assert(sound(s[2 * i + 1]));
                merging_keeps_soundness(s[2 * i], s[2 * i + 1]);
            }
        }
        reducing_keeps_soundness(t);
    } else if s.len() == 1 {
        assert(sound(s[0]));
    }
}

} // verus!
