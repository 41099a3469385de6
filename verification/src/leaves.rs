//! The leaves of trees.
use std::collections::VecDeque;
use vstd::prelude::*;
use crate::entry::{
    bare, forest, lemma_sum_add, lemma_sum_one, node, nodes, sum_leaves, sum_nfiles, sum_size, Entry, Forest, Node,
};
use crate::surgery::{adds_up, counted};

verus! {

/// The leaves of a tree: the entries that have none below them, those of the
/// last sibling first.
pub open spec fn leaves_of(n: Node) -> Seq<Node>
    decreases n, 0nat,
{
    if n.subtree.len() == 0 {
        seq![n]
    } else {
        leaves_below(n.subtree)
    }
}

/// The leaves of siblings, those of the last one first.
pub open spec fn leaves_below(f: Seq<(nat, Node)>) -> Seq<Node>
    decreases f, f.len(),
{
    if f.len() == 0 {
        Seq::empty()
    } else {
        leaves_of(f.last().1) + leaves_below(f.drop_last())
    }
}

/// The leaves of a list of trees, those of the first one first.
pub open spec fn leaves_all(s: Seq<Node>) -> Seq<Node>
    decreases s.len(),
{
    if s.len() == 0 {
        Seq::empty()
    } else {
        leaves_of(s[0]) + leaves_all(s.skip(1))
    }
}

/// How many entries trees have.
pub open spec fn census(n: Node) -> nat
    decreases n, 0nat,
{
    1 + census_below(n.subtree)
}

pub open spec fn census_below(f: Seq<(nat, Node)>) -> nat
    decreases f, f.len(),
{
    if f.len() == 0 {
        0
    } else {
        census(f.last().1) + census_below(f.drop_last())
    }
}

pub open spec fn census_all(s: Seq<Node>) -> nat
    decreases s.len(),
{
    if s.len() == 0 {
        0
    } else {
        census(s[0]) + census_all(s.skip(1))
    }
}

proof fn lemma_leaves_some(n: Node)
    ensures
        leaves_of(n).len() > 0,
    decreases n,
{
    if n.subtree.len() > 0 {
        let t = n.subtree.last();
        assert(n.subtree[n.subtree.len() - 1] == t);
        lemma_leaves_some(t.1);
        assert(leaves_below(n.subtree) == leaves_of(t.1) + leaves_below(n.subtree.drop_last()));
    }
}

proof fn lemma_front(f: Seq<(nat, Node)>, i: int)
    requires
        0 <= i < f.len(),
    ensures
        leaves_below(f.take(i + 1)) == leaves_of(f[i].1) + leaves_below(f.take(i)),
        census_below(f.take(i + 1)) == census(f[i].1) + census_below(f.take(i)),
{
    assert(f.take(i + 1).drop_last() =~= f.take(i));
    assert(f.take(i + 1).last() == f[i]);
}

/// Hands out the leaves of trees one by one.
pub struct LeafIterator {
    entries: VecDeque<Entry>,
}

impl View for LeafIterator {
    type V = Seq<Node>;

    /// The leaves that are still to come.
    closed spec fn view(&self) -> Seq<Node> {
        leaves_all(nodes(self.entries@))
    }
}

/// The entries of a forest, the last one first.
fn reversed_entries(f: Forest) -> (r: Vec<Entry>)
    ensures
        nodes(r@) == bare(forest(f@)).reverse(),
{
    let mut f = f;
    let ghost whole = f@;
    let mut r: Vec<Entry> = Vec::with_capacity(f.len());
    while f.len() > 0
        invariant
            f@.len() + r@.len() == whole.len(),
            forall|j: int| 0 <= j < f@.len() ==> #[trigger] f@[j] == whole[j],
            forall|j: int| 0 <= j < r@.len() ==> #[trigger] r@[j] == whole[whole.len() - 1 - j].1,
        decreases f.len(),
    {
        if let Some((_, e)) = f.pop() {
            r.push(e);
        }
    }
    assert(nodes(r@) =~= bare(forest(whole)).reverse());
    r
}

impl LeafIterator {
    /// The next leaf.
    pub fn next(&mut self) -> (r: Option<Entry>)
        ensures
            match r {
                Some(e) => old(self)@.len() > 0 && node(e) == old(self)@[0] && final(self)@
                    == old(self)@.skip(1),
                None => old(self)@.len() == 0 && final(self)@.len() == 0,
            },
    {
        loop
            invariant
                self@ == old(self)@,
            decreases census_all(nodes(self.entries@)),
        {
            let ghost q = nodes(self.entries@);
            let ghost before = self.entries@;
            match self.entries.pop_front() {
                None => {
                    assert(q.len() == 0);
                    return None;
                },
                Some(entry) => {
                    let ghost rest = nodes(self.entries@);
                    proof {
                        assert(q[0] == node(entry));
                        assert(rest =~= q.skip(1));
                        assert(forest(entry.subtree@).len() == entry.subtree@.len());
                    }
                    if entry.subtree.len() == 0 {
                        assert(leaves_all(q) == seq![node(entry)] + leaves_all(rest));
                        assert(self@ =~= old(self)@.skip(1));
                        return Some(entry);
                    }
                    let ghost f = forest(entry.subtree@);
                    let mut queue = reversed_entries(entry.subtree);
                    let ghost mut i: int = 0;
                    proof {
                        assert(nodes(queue@).len() == queue@.len());
                        assert(f.take(0) =~= Seq::empty());
                        assert(leaves_below(f.take(0)) + leaves_all(rest) =~= leaves_all(rest));
                        assert(bare(f).skip(0) =~= bare(f));
                    }
                    while queue.len() > 0
                        invariant
                            0 <= i <= f.len(),
                            i + queue@.len() == f.len(),
                            nodes(queue@) == bare(f).skip(i).reverse(),
                            leaves_all(nodes(self.entries@)) == leaves_below(f.take(i)) + leaves_all(
                                rest,
                            ),
                            census_all(nodes(self.entries@)) == census_below(f.take(i)) + census_all(
                                rest,
                            ),
                        decreases queue.len(),
                    {
                        let ghost qb = queue@;
                        let ghost eb = self.entries@;
                        if let Some(it) = queue.pop() {
                            proof {
                                assert(nodes(qb).len() == qb.len());
                                assert(node(it) == nodes(qb).last());
                                assert(node(it) == f[i].1);
                                assert forall|j: int| 0 <= j < queue@.len() implies #[trigger] nodes(
                                    queue@,
                                )[j] == bare(f).skip(i + 1).reverse()[j] by {
                                    assert(nodes(queue@)[j] == nodes(qb)[j]);
                                    assert(bare(f).skip(i).reverse()[j] == bare(f)[f.len() - 1 - j]);
                                }
                                assert(nodes(queue@) =~= bare(f).skip(i + 1).reverse());
                            }
                            self.entries.push_front(it);
                            proof {
                                let s = nodes(self.entries@);
                                assert(s[0] == f[i].1);
                                assert(s.skip(1) =~= nodes(eb));
                                lemma_front(f, i);
                                assert(leaves_all(s) == leaves_of(s[0]) + leaves_all(nodes(eb)));
                                assert(leaves_all(s) =~= leaves_below(f.take(i + 1)) + leaves_all(rest));
                                i = i + 1;
                            }
                        }
                    }
                    proof {
                        assert(f.take(i) =~= f);
                        assert(leaves_all(q) == leaves_of(q[0]) + leaves_all(rest));
                        assert(leaves_of(q[0]) == leaves_below(f));
                        assert(census(q[0]) == 1 + census_below(f));
                    }
                },
            }
            proof {
                if q.len() == 0 {
                    assert(before.len() == 0);
                }
            }
        }
    }

    /// All leaves that are still to come.
    pub fn collect_vec(self) -> (r: Vec<Entry>)
        ensures
            nodes(r@) == self@,
    {
        let mut it = self;
        let mut r: Vec<Entry> = Vec::new();
        let ghost all = it@;
        assert(nodes(r@) + it@ =~= all);
        loop
            invariant
                nodes(r@) + it@ == all,
            ensures
                nodes(r@) == all,
            decreases it@.len(),
        {
            let ghost rest = it@;
            let ghost done = r@;
            match it.next() {
                Some(e) => {
                    r.push(e);
                    assert(nodes(r@) =~= nodes(done).push(node(e)));
                    assert(nodes(r@) + it@ =~= nodes(done) + rest);
                },
                None => {
                    assert(nodes(r@) + rest =~= nodes(r@));
                    break;
                },
            }
        }
        r
    }
}

/// The leaves of a list of trees.
pub fn into_leaves(entries: Vec<Entry>) -> (r: LeafIterator)
    ensures
        r@ == leaves_all(nodes(entries@)),
{
    let ghost all = entries@;
    let mut rest = entries;
    let mut queue: VecDeque<Entry> = VecDeque::new();
    while rest.len() > 0
        invariant
            rest@ == all.take(rest@.len() as int),
            rest@.len() <= all.len(),
            queue@ == all.skip(rest@.len() as int),
        decreases rest.len(),
    {
        let ghost qb = queue@;
        if let Some(e) = rest.pop() {
            queue.push_front(e);
            assert(queue@ =~= all.skip(rest@.len() as int));
            assert(rest@ =~= all.take(rest@.len() as int));
        }
    }
    assert(queue@ =~= all);
    LeafIterator { entries: queue }
}

/// The leaves of a forest.
pub fn deforest(trees: Forest) -> (r: LeafIterator)
    ensures
        r@ == leaves_all(bare(forest(trees@))),
{
    let mut rest = trees;
    let ghost all = bare(forest(rest@));
    let ghost whole = rest@;
    let mut queue: VecDeque<Entry> = VecDeque::new();
    while rest.len() > 0
        invariant
            all == bare(forest(whole)),
            rest@ == whole.take(rest@.len() as int),
            rest@.len() + queue@.len() == whole.len(),
            nodes(queue@) == all.skip(rest@.len() as int),
        decreases rest.len(),
    {
        let ghost qb = queue@;
        if let Some((_, e)) = rest.pop() {
            let ghost k = rest@.len() as int;
            queue.push_front(e);
            assert(all[k] == node(e));
            assert forall|j: int| 0 <= j < queue@.len() implies #[trigger] nodes(queue@)[j] == all.skip(
                k,
            )[j] by {
                if j > 0 {
                    assert(nodes(queue@)[j] == nodes(qb)[j - 1]);
                    assert(all.skip(k + 1)[j - 1] == all[k + j]);
                }
            }
            assert(nodes(queue@) =~= all.skip(k));
            assert(rest@ =~= whole.take(k));
        }
    }
    assert(all.skip(0) =~= all);
    LeafIterator { entries: queue }
}

pub proof fn lemma_leaf_sums(n: Node)
    requires
        adds_up(n),
        counted(n.subtree),
    ensures
        sum_size(leaves_of(n)) == n.size,
        sum_nfiles(leaves_of(n)) == n.nfiles,
        sum_leaves(leaves_of(n)) == n.leaves,
    decreases n, 0nat,
{
    if n.subtree.len() == 0 {
        lemma_sum_one(n);
    } else {
        lemma_leaf_sums_below(n.subtree);
    }
}

proof fn lemma_leaf_sums_below(f: Seq<(nat, Node)>)
    requires
        counted(f),
    ensures
        sum_size(leaves_below(f)) == sum_size(bare(f)),
        sum_nfiles(leaves_below(f)) == sum_nfiles(bare(f)),
        sum_leaves(leaves_below(f)) == sum_leaves(bare(f)),
    decreases f, f.len(),
{
    if f.len() > 0 {
        let d = f.drop_last();
        let t = f.last();
        assert(f[f.len() - 1] == t);
        assert(counted(t.1.subtree) && adds_up(t.1));
        assert forall|i: int| 0 <= i < d.len() implies counted((#[trigger] d[i]).1.subtree) && adds_up(
            d[i].1,
        ) by {
            assert(f[i] == d[i]);
        }
        assert(decreases_to!(f => d));
        lemma_leaf_sums_below(d);
        lemma_leaf_sums(t.1);
        lemma_sum_add(leaves_of(t.1), leaves_below(d));
        assert(leaves_below(f) == leaves_of(t.1) + leaves_below(d));
        assert(bare(f).drop_last() =~= bare(d));
    }
}

/// The leaves of a forest count together what its trees count.
pub proof fn leaves_conserve(f: Seq<(nat, Node)>)
    requires
        counted(f),
    ensures
        sum_size(leaves_all(bare(f))) == sum_size(bare(f)),
        sum_nfiles(leaves_all(bare(f))) == sum_nfiles(bare(f)),
        sum_leaves(leaves_all(bare(f))) == sum_leaves(bare(f)),
    decreases f.len(),
{
    if f.len() > 0 {
        let g = f.skip(1);
        assert(f[0] == f.first());
        assert(counted(f[0].1.subtree) && adds_up(f[0].1));
        assert forall|i: int| 0 <= i < g.len() implies counted((#[trigger] g[i]).1.subtree) && adds_up(
            g[i].1,
        ) by {
            assert(f[i + 1] == g[i]);
        }
        leaves_conserve(g);
        lemma_leaf_sums(f[0].1);
        assert(bare(f).skip(1) =~= bare(g));
        assert(bare(f)[0] == f[0].1);
        lemma_sum_add(leaves_of(f[0].1), leaves_all(bare(g)));
        assert(bare(f) =~= seq![f[0].1] + bare(g));
        lemma_sum_add(seq![f[0].1], bare(g));
        lemma_sum_one(f[0].1);
    }
}

/// Every tree has a leaf, and no leaf has anything below it.
pub proof fn leaves_are_leaves(s: Seq<Node>)
    ensures
        s.len() > 0 ==> leaves_all(s).len() > 0,
        forall|i: int| 0 <= i < leaves_all(s).len() ==> (#[trigger] leaves_all(s)[i]).subtree.len() == 0,
    decreases s.len(),
{
    if s.len() > 0 {
        leaves_are_leaves(s.skip(1));
        lemma_leaves_some(s[0]);
        lemma_bare_leaves(s[0]);
        assert forall|i: int| 0 <= i < leaves_all(s).len() implies (#[trigger] leaves_all(
            s,
        )[i]).subtree.len() == 0 by {
            let a = leaves_of(s[0]);
            if i < a.len() {
                assert(leaves_all(s)[i] == a[i]);
            } else {
                assert(leaves_all(s)[i] == leaves_all(s.skip(1))[i - a.len()]);
            }
        }
    }
}

proof fn lemma_bare_leaves(n: Node)
    ensures
        forall|i: int| 0 <= i < leaves_of(n).len() ==> (#[trigger] leaves_of(n)[i]).subtree.len() == 0,
    decreases n, 0nat,
{
    if n.subtree.len() > 0 {
        lemma_bare_leaves_below(n.subtree);
    }
}

proof fn lemma_bare_leaves_below(f: Seq<(nat, Node)>)
    ensures
        forall|i: int| 0 <= i < leaves_below(f).len() ==> (#[trigger] leaves_below(f)[i]).subtree.len() == 0,
    decreases f, f.len(),
{
    if f.len() > 0 {
        let d = f.drop_last();
        assert(decreases_to!(f => d));
        assert(f[f.len() - 1] == f.last());
        lemma_bare_leaves_below(d);
        lemma_bare_leaves(f.last().1);
        let a = leaves_of(f.last().1);
        assert forall|i: int| 0 <= i < leaves_below(f).len() implies (#[trigger] leaves_below(
            f,
        )[i]).subtree.len() == 0 by {
            if i < a.len() {
                assert(leaves_below(f)[i] == a[i]);
            } else {
                assert(leaves_below(f)[i] == leaves_below(d)[i - a.len()]);
            }
        }
    }
}

} // verus!
