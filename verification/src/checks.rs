//! Tests of a forest for what its users need of it.
use vstd::prelude::*;
use crate::entry::{
    bare, forest, lemma_sum_take, node, sum_leaves, sum_nfiles, sum_size, sums_fit, Entry, Forest,
    TreeSlice,
};
use crate::ids::{in_order, rising};
use crate::surgery::{covers, sizes_fit};

verus! {

/// Whether the ids of a forest never fall, on every level.
pub fn is_ordered(f: &Forest) -> (r: bool)
    ensures
        r == in_order(forest(f@)),
    decreases f,
{
    let ghost g = forest(f@);
    let mut i: usize = 0;
    while i < f.len()
        invariant
            i <= f@.len(),
            g == forest(f@),
            forall|j: int, k: int| 0 <= j < k < i ==> (#[trigger] g[j]).0 <= (#[trigger] g[k]).0,
            forall|j: int| 0 <= j < i ==> in_order((#[trigger] g[j]).1.subtree),
        decreases f.len() - i,
    {
        assert(g[i as int] == (f@[i as int].0 as nat, node(f@[i as int].1)));
        if i > 0 && f[i - 1].0 > f[i].0 {
            assert(g[i - 1].0 > g[i as int].0);
            return false;
        }
        assert(decreases_to!(f => f@[i as int].1));
        assert(decreases_to!(f@[i as int].1 => f@[i as int].1.subtree));
        if !is_ordered(&f[i].1.subtree) {
            assert(!in_order(g[i as int].1.subtree));
            return false;
        }
        proof {
            if i > 0 {
                assert(g[i - 1].0 <= g[i as int].0);
            }
        }
        i += 1;
    }
    assert(rising(g));
    true
}

fn covers_one(entry: &Entry) -> (r: bool)
    ensures
        r == forall|j: int|
            0 <= j < node(*entry).subtree.len() ==> node(*entry).size >= (#[trigger] node(
                *entry,
            ).subtree[j]).1.size && node(*entry).nfiles >= node(*entry).subtree[j].1.nfiles && node(
                *entry,
            ).leaves >= node(*entry).subtree[j].1.leaves,
{
    let ghost n = node(*entry);
    let mut j: usize = 0;
    while j < entry.subtree.len()
        invariant
            j <= entry.subtree@.len(),
            n == node(*entry),
            forall|k: int|
                0 <= k < j ==> n.size >= (#[trigger] n.subtree[k]).1.size && n.nfiles
                    >= n.subtree[k].1.nfiles && n.leaves >= n.subtree[k].1.leaves,
        decreases entry.subtree.len() - j,
    {
        let child = &entry.subtree[j].1;
        assert(n.subtree[j as int].1 == node(*child));
        if entry.size < child.size || entry.nfiles < child.nfiles || entry.leaves < child.leaves {
            return false;
        }
        j += 1;
    }
    true
}

/// Whether each entry of a forest has at least the counts of each entry below
/// it.
pub fn is_covered(f: &Forest) -> (r: bool)
    ensures
        r == covers(forest(f@)),
    decreases f,
{
    let ghost g = forest(f@);
    let mut i: usize = 0;
    while i < f.len()
        invariant
            i <= f@.len(),
            g == forest(f@),
            forall|j: int|
                0 <= j < i ==> {
                    &&& covers((#[trigger] g[j]).1.subtree)
                    &&& forall|k: int|
                        0 <= k < g[j].1.subtree.len() ==> g[j].1.size >= (#[trigger] g[j].1.subtree[k]).1.size
                            && g[j].1.nfiles >= g[j].1.subtree[k].1.nfiles && g[j].1.leaves
                            >= g[j].1.subtree[k].1.leaves
                },
        decreases f.len() - i,
    {
        assert(g[i as int] == (f@[i as int].0 as nat, node(f@[i as int].1)));
        assert(decreases_to!(f => f@[i as int].1));
        assert(decreases_to!(f@[i as int].1 => f@[i as int].1.subtree));
        if !covers_one(&f[i].1) || !is_covered(&f[i].1.subtree) {
            return false;
        }
        i += 1;
    }
    true
}

/// Whether an entry can be taken out of a forest.
pub fn prunable(f: &Forest) -> (r: bool)
    ensures
        r == (in_order(forest(f@)) && covers(forest(f@))),
{
    is_ordered(f) && is_covered(f)
}

/// Whether the counts of a forest add up within the machine's limits.
pub fn counts_fit(f: TreeSlice) -> (r: bool)
    ensures
        r == sums_fit(bare(forest(f@))),
{
    let ghost s = bare(forest(f@));
    let mut size: usize = 0;
    let mut nfiles: usize = 0;
    let mut leaves: usize = 0;
    let mut i: usize = 0;
    assert(s.take(0) =~= Seq::empty());
    while i < f.len()
        invariant
            i <= f@.len(),
            s == bare(forest(f@)),
            size == sum_size(s.take(i as int)),
            nfiles == sum_nfiles(s.take(i as int)),
            leaves == sum_leaves(s.take(i as int)),
        decreases f.len() - i,
    {
        proof {
            lemma_sum_take(s, i as int);
            lemma_sum_take(s, i + 1);
            assert(s[i as int] == node(f@[i as int].1));
        }
        if f[i].1.size > usize::MAX - size || f[i].1.nfiles > usize::MAX - nfiles || f[i].1.leaves
            > usize::MAX - leaves {
            return false;
        }
        size = size + f[i].1.size;
        nfiles = nfiles + f[i].1.nfiles;
        leaves = leaves + f[i].1.leaves;
        i += 1;
    }
    assert(s.take(i as int) =~= s);
    true
}

/// Whether the sizes of a forest add up within the machine's limits, on every
/// level.
pub fn all_sizes_fit(f: &Forest) -> (r: bool)
    ensures
        r == sizes_fit(forest(f@)),
    decreases f,
{
    let ghost g = forest(f@);
    let ghost s = bare(g);
    let mut size: usize = 0;
    let mut i: usize = 0;
    assert(s.take(0) =~= Seq::empty());
    while i < f.len()
        invariant
            i <= f@.len(),
            g == forest(f@),
            s == bare(g),
            size == sum_size(s.take(i as int)),
            forall|j: int| 0 <= j < i ==> sizes_fit((#[trigger] g[j]).1.subtree),
        decreases f.len() - i,
    {
        proof {
            lemma_sum_take(s, i as int);
            lemma_sum_take(s, i + 1);
            assert(s[i as int] == node(f@[i as int].1));
            assert(g[i as int].1 == s[i as int]);
            assert(decreases_to!(f => f@[i as int].1));
            assert(decreases_to!(f@[i as int].1 => f@[i as int].1.subtree));
        }
        if f[i].1.size > usize::MAX - size || !all_sizes_fit(&f[i].1.subtree) {
            return false;
        }
        size = size + f[i].1.size;
        i += 1;
    }
    assert(s.take(i as int) =~= s);
    true
}

} // verus!
