//! Forests that several workers make.
use vstd::prelude::*;
use crate::cli::Args;
use crate::colors::ColorScheme;
use crate::entry::{
    bare, forest, nodes, sum_nfiles, sum_size, Entry, Forest, MaybePair, Node, ENTRY_CHUNK_SIZE,
};
use crate::forest::{forest_of, make_forest, plan_of};
use crate::path::PathBuf;
use crate::merge::{fuse_fits, merge_conserves, merge_forests, merged};
use crate::room::merge_fits;

verus! {

/// How many workers build a forest: one for each ten chunks that are expected,
/// at most one for each core; as many as there are cores if nothing is known.
pub open spec fn spec_num_threads(est_count: Option<usize>, num_cores: usize) -> int {
    match est_count {
        Some(count) => if count as int / 5000 / 10 <= num_cores {
            count as int / 5000 / 10
        } else {
            num_cores as int
        },
        None => num_cores as int,
    }
}

/// How many workers build a forest.
pub fn num_threads(est_count: Option<usize>, num_cores: usize) -> (r: usize)
    ensures
        r == spec_num_threads(est_count, num_cores),
{
    match est_count {
        Some(count) => {
            let wanted: usize = count / ENTRY_CHUNK_SIZE / 10;
            if wanted <= num_cores {
                wanted
            } else {
                num_cores
            }
        },
        None => num_cores,
    }
}

/// What forests are.
pub open spec fn forests(s: Seq<Forest>) -> Seq<Seq<(nat, Node)>> {
    s.map_values(|f: Forest| forest(f@))
}

/// What the two or one of a kind are.
pub open spec fn pair_view(p: MaybePair<Forest>) -> Seq<Seq<(nat, Node)>> {
    match p {
        MaybePair::One(a) => seq![forest(a@)],
        MaybePair::Two(a, b) => seq![forest(a@), forest(b@)],
    }
}

/// Whether jobs are the neighbours of a list, two by two, with the last alone
/// if their number is odd.
pub open spec fn are_pairs(jobs: Seq<MaybePair<Forest>>, s: Seq<Seq<(nat, Node)>>) -> bool {
    &&& jobs.len() == (s.len() + 1) / 2
    &&& forall|i: int|
        0 <= i < jobs.len() ==> pair_view(#[trigger] jobs[i]) == if 2 * i + 1 < s.len() {
            seq![s[2 * i], s[2 * i + 1]]
        } else {
            seq![s[2 * i]]
        }
}

/// Pairs neighbours, for one round of merging.
pub fn pair_up(results: Vec<Forest>) -> (r: Vec<MaybePair<Forest>>)
    ensures
        are_pairs(r@, forests(results@)),
{
    let ghost s = results@;
    let n: usize = results.len();
    let mut rest = results;
    let mut jobs: Vec<MaybePair<Forest>> = Vec::new();
    let mut odd: bool = n % 2 == 1;
    let count: usize = n / 2 + n % 2;
    while rest.len() > 0
        invariant
            n == s.len(),
            count == (n + 1) / 2,
            rest@.len() <= n,
            rest@ == s.take(rest@.len() as int),
            jobs@.len() <= count,
            odd ==> n % 2 == 1 && rest@.len() == n && jobs@.len() == 0,
            !odd ==> rest@.len() == 2 * (count - jobs@.len()),
            forall|j: int|
                0 <= j < jobs@.len() ==> pair_view(#[trigger] jobs@[j]) == if 2 * (count - 1 - j) + 1
                    < n {
                    seq![
                        forest(s[2 * (count - 1 - j)]@),
                        forest(s[2 * (count - 1 - j) + 1]@),
                    ]
                } else {
                    seq![forest(s[2 * (count - 1 - j)]@)]
                },
        decreases rest.len(),
    {
        let ghost k = rest@.len() as int;
        if odd {
            if let Some(last) = rest.pop() {
                assert(last == s[n - 1]);
                jobs.push(MaybePair::One(last));
                assert(rest@ =~= s.take(rest@.len() as int));
            }
            odd = false;
        } else {
            if let Some(second) = rest.pop() {
                assert(second == s[k - 1]);
                if let Some(first) = rest.pop() {
                    assert(first == s[k - 2]);
                    jobs.push(MaybePair::Two(first, second));
                    assert(rest@ =~= s.take(rest@.len() as int));
                }
            }
        }
    }
    let mut r: Vec<MaybePair<Forest>> = Vec::with_capacity(jobs.len());
    let ghost made = jobs@;
    while jobs.len() > 0
        invariant
            jobs@.len() + r@.len() == made.len(),
            jobs@ == made.take(jobs@.len() as int),
            forall|i: int| 0 <= i < r@.len() ==> #[trigger] r@[i] == made[made.len() - 1 - i],
        decreases jobs.len(),
    {
        if let Some(job) = jobs.pop() {
            r.push(job);
            assert(jobs@ =~= made.take(jobs@.len() as int));
        }
    }
    proof {
        let fs = forests(s);
        assert(made.len() == count);
        assert forall|i: int| 0 <= i < r@.len() implies pair_view(#[trigger] r@[i]) == if 2 * i + 1
            < fs.len() {
            seq![fs[2 * i], fs[2 * i + 1]]
        } else {
            seq![fs[2 * i]]
        } by {
            assert(r@[i] == made[count - 1 - i]);
        }
    }
    r
}

/// The forests after one round of merging neighbours.
pub open spec fn merge_round(s: Seq<Seq<(nat, Node)>>) -> Seq<Seq<(nat, Node)>> {
    Seq::new(
        (s.len() + 1) / 2,
        |i: int|
            if 2 * i + 1 < s.len() {
                merged(s[2 * i], s[2 * i + 1])
            } else {
                s[2 * i]
            },
    )
}

/// Forests in one: neighbours are merged until one is left.
pub open spec fn reduced(s: Seq<Seq<(nat, Node)>>) -> Seq<(nat, Node)>
    decreases s.len(),
{
    if s.len() == 0 {
        Seq::empty()
    } else if s.len() == 1 {
        s[0]
    } else {
        reduced(merge_round(s))
    }
}

/// Whether the counts that merging neighbours makes fit in a machine word, in
/// every round.
pub open spec fn rounds_fit(s: Seq<Seq<(nat, Node)>>) -> bool
    decreases s.len(),
{
    s.len() <= 1 || (round_fits(s) && rounds_fit(merge_round(s)))
}

/// Whether the counts that merging neighbours makes fit in a machine word, in
/// one round.
pub open spec fn round_fits(s: Seq<Seq<(nat, Node)>>) -> bool {
    forall|i: int|
        0 <= i < (s.len() + 1) / 2 && 2 * i + 1 < s.len() ==> #[trigger] pair_fits(s, i)
}

/// Whether the counts that merging two neighbours makes fit in a machine word.
pub open spec fn pair_fits(s: Seq<Seq<(nat, Node)>>, i: int) -> bool {
    fuse_fits(bare(s[2 * i]) + bare(s[2 * i + 1]))
}

/// Merges neighbours until one forest is left. Nothing comes out if the counts
/// do not fit in a machine word.
pub fn reduce_forests(results: Vec<Forest>) -> (r: Option<Forest>)
    ensures
        r is Some == rounds_fit(forests(results@)),
        r matches Some(f) ==> forest(f@) == reduced(forests(results@)),
{
    let ghost all = forests(results@);
    let mut queue = results;
    loop
        invariant
            all == forests(results@),
            reduced(forests(queue@)) == reduced(all),
            rounds_fit(forests(queue@)) == rounds_fit(all),
        decreases queue.len(),
    {
        let ghost s = forests(queue@);
        assert(s.len() == queue@.len());
        if queue.len() <= 1 {
            let out = match queue.pop() {
                Some(f) => f,
                None => Vec::new(),
            };
            assert(forest(out@) =~= reduced(s));
            return Some(out);
        }
        let mut jobs = pair_up(queue);
        let ghost made = jobs@;
        let mut back: Vec<Forest> = Vec::with_capacity(jobs.len());
        while jobs.len() > 0
            invariant
                all == forests(results@),
                are_pairs(made, s),
                jobs@.len() + back@.len() == made.len(),
                jobs@ == made.take(jobs@.len() as int),
                s.len() > 1,
                rounds_fit(s) == rounds_fit(all),
                forall|i: int|
                    0 <= i < back@.len() ==> forest((#[trigger] back@[i])@) == merge_round(
                        s,
                    )[made.len() - 1 - i],
                forall|i: int|
                    jobs@.len() <= i < made.len() && 2 * i + 1 < s.len() ==> #[trigger] pair_fits(s, i),
            decreases jobs.len(),
        {
            let ghost i = jobs@.len() - 1;
            if let Some(job) = jobs.pop() {
                proof {
                    assert(job == made[i]);
                    assert(jobs@ =~= made.take(jobs@.len() as int));
                    let v = pair_view(made[i]);
                    if 2 * i + 1 < s.len() {
                        assert(v.len() == 2);
                        assert(v[0] == s[2 * i] && v[1] == s[2 * i + 1]);
                    } else {
                        assert(v.len() == 1);
                        assert(v[0] == s[2 * i]);
                    }
                }
                match job {
                    MaybePair::One(only) => {
                        back.push(only);
                    },
                    MaybePair::Two(left, right) => {
                        if !merge_fits(&left, &right) {
                            assert(!pair_fits(s, i));
                            return None;
                        }
                        assert(pair_fits(s, i));
                        back.push(merge_forests(left, right));
                    },
                }
            }
        }
        let mut next: Vec<Forest> = Vec::with_capacity(back.len());
        let ghost found = back@;
        while back.len() > 0
            invariant
                back@.len() + next@.len() == found.len(),
                back@ == found.take(back@.len() as int),
                forall|i: int| 0 <= i < next@.len() ==> #[trigger] next@[i] == found[found.len() - 1 - i],
            decreases back.len(),
        {
            if let Some(f) = back.pop() {
                next.push(f);
                assert(back@ =~= found.take(back@.len() as int));
            }
        }
        proof {
            assert(forests(next@) =~= merge_round(s)) by {
                assert forall|i: int| 0 <= i < next@.len() implies #[trigger] forests(next@)[i]
                    == merge_round(s)[i] by {
                    assert(next@[i] == found[found.len() - 1 - i]);
                }
            }
        }
        queue = next;
    }
}

/// The summed size of forests.
pub open spec fn total_of(s: Seq<Seq<(nat, Node)>>) -> nat
    decreases s.len(),
{
    if s.len() == 0 {
        0
    } else {
        total_of(s.drop_last()) + sum_size(bare(s.last()))
    }
}

proof fn lemma_round_total(s: Seq<Seq<(nat, Node)>>)
    ensures
        total_of(merge_round(s)) == total_of(s),
    decreases s.len(),
{
    let r = merge_round(s);
    if s.len() == 0 {
        assert(r.len() == 0);
    } else if s.len() == 1 {
        assert(r =~= s);
    } else if s.len() > 1 {
        if s.len() % 2 == 1 {
            let d = s.drop_last();
            lemma_round_total(d);
            assert(r.drop_last() =~= merge_round(d));
            assert(r.last() == s.last());
            assert(total_of(r) == total_of(r.drop_last()) + sum_size(bare(r.last())));
        } else {
            let d = s.drop_last();
            let dd = d.drop_last();
            lemma_round_total(dd);
            assert(r.drop_last() =~= merge_round(dd));
            assert(r.last() == merged(d.last(), s.last()));
            merge_conserves(d.last(), s.last());
            assert(total_of(r) == total_of(r.drop_last()) + sum_size(bare(r.last())));
            assert(total_of(d) == total_of(dd) + sum_size(bare(d.last())));
        }
    }
}

/// Merging in rounds conserves size.
pub proof fn reduction_conserves(s: Seq<Seq<(nat, Node)>>)
    ensures
        sum_size(bare(reduced(s))) == total_of(s),
    decreases s.len(),
{
    if s.len() == 0 {
        assert(bare(reduced(s)) =~= Seq::empty());
    } else if s.len() == 1 {
        assert(total_of(s.drop_last()) == 0);
        assert(s.last() == s[0]);
    } else {
        lemma_round_total(s);
        reduction_conserves(merge_round(s));
    }
}

/// What the shares of leaves that workers got are.
pub open spec fn shares_view(shares: Seq<Vec<Entry>>) -> Seq<Seq<Node>> {
    shares.map_values(|v: Vec<Entry>| nodes(v@))
}

/// The forest of leaves that are shared out among workers, whichever share
/// each of them got.
pub fn par_forest(colors: &ColorScheme, args: &Args, root: &PathBuf, shares: Vec<Vec<Entry>>) -> (r: Option<
    Forest,
>)
    requires
        forall|i: int|
            0 <= i < shares@.len() ==> sum_size(#[trigger] shares_view(shares@)[i]) <= usize::MAX
                && sum_nfiles(shares_view(shares@)[i]) <= usize::MAX,
    ensures
        ({
            let plan = plan_of(*colors, *args, root@);
            let fs = shares_view(shares@).map_values(|leaves: Seq<Node>| forest_of(plan, leaves));
            &&& r is Some == rounds_fit(fs)
            &&& r matches Some(f) ==> forest(f@) == reduced(fs)
        }),
{
    let ghost plan = plan_of(*colors, *args, root@);
    let ghost view = shares_view(shares@);
    let ghost fs = view.map_values(|leaves: Seq<Node>| forest_of(plan, leaves));
    let ghost given = shares@;
    let mut shares = shares;
    let mut back: Vec<Forest> = Vec::with_capacity(shares.len());
    while shares.len() > 0
        invariant
            plan == plan_of(*colors, *args, root@),
            view == shares_view(given),
            fs == view.map_values(|leaves: Seq<Node>| forest_of(plan, leaves)),
            shares@.len() + back@.len() == given.len(),
            shares@ == given.take(shares@.len() as int),
            forall|i: int|
                0 <= i < given.len() ==> sum_size(#[trigger] view[i]) <= usize::MAX && sum_nfiles(view[i])
                    <= usize::MAX,
            forall|i: int|
                0 <= i < back@.len() ==> forest((#[trigger] back@[i])@) == fs[given.len() - 1 - i],
        decreases shares.len(),
    {
        let ghost i = shares@.len() - 1;
        if let Some(leaves) = shares.pop() {
            proof {
                assert(leaves == given[i]);
                assert(view[i] == nodes(leaves@));
                assert(shares@ =~= given.take(shares@.len() as int));
            }
            back.push(make_forest(colors, args, root, leaves));
        }
    }
    let mut results: Vec<Forest> = Vec::with_capacity(back.len());
    let ghost found = back@;
    while back.len() > 0
        invariant
            back@.len() + results@.len() == found.len(),
            back@ == found.take(back@.len() as int),
            forall|i: int| 0 <= i < results@.len() ==> #[trigger] results@[i] == found[found.len() - 1 - i],
        decreases back.len(),
    {
        if let Some(f) = back.pop() {
            results.push(f);
            assert(back@ =~= found.take(back@.len() as int));
        }
    }
    proof {
        assert(forests(results@) =~= fs) by {
            assert forall|i: int| 0 <= i < results@.len() implies #[trigger] forests(results@)[i] == fs[i] by {
                assert(results@[i] == found[found.len() - 1 - i]);
            }
        }
    }
    reduce_forests(results)
}

/// There are no more workers than cores, and no more than one for each fifty
/// thousand leaves that are expected. Of these there are as many as the cores
/// allow.
pub proof fn workers_are_worth_it(count: usize, num_cores: usize, k: int)
    requires
        0 <= k <= num_cores,
    ensures
        spec_num_threads(Some(count), num_cores) <= num_cores,
        spec_num_threads(Some(count), num_cores) >= k <==> count >= 50000 * k,
        spec_num_threads(None, num_cores) == num_cores,
{
}

} // verus!
