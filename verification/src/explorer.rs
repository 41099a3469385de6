//! The navigator: an outline of a forest.
use vstd::prelude::*;
use crate::entry::{bare, forest, node, sum_leaves, Entry, Node, StackAddr, TreeSlice, ENTRY_CHUNK_SIZE};
use crate::growth::total_leaves;
use crate::leaves::{census, census_below};
use crate::parallel::spec_num_threads;
use crate::show::{nav_text, show_nav};
use crate::surgery::{leads, nats};

verus! {

/// An entry of the navigator.
#[derive(Debug)]
pub struct NavItem {
    pub id: usize,
    pub text: String,
    pub children: Vec<NavItem>,
}

/// What an entry of the navigator is.
#[verifier::ext_equal]
pub struct Nav {
    pub id: nat,
    pub text: Seq<char>,
    pub children: Seq<Nav>,
}

/// What an entry of the navigator is.
pub open spec fn nav(item: NavItem) -> Nav
    decreases item,
{
    Nav { id: item.id as nat, text: item.text@, children: navs(item.children@) }
}

/// What entries of the navigator are.
pub open spec fn navs(items: Seq<NavItem>) -> Seq<Nav>
    decreases items,
{
    Seq::new(
        items.len(),
        |i: int|
            if 0 <= i < items.len() {
                nav(items[i])
            } else {
                arbitrary()
            },
    )
}

/// The outline of an entry.
pub open spec fn nav_of(t: (nat, Node)) -> Nav
    decreases t,
{
    Nav { id: t.0, text: nav_text(t.1), children: navs_of(t.1.subtree) }
}

/// The outline of a forest.
pub open spec fn navs_of(f: Seq<(nat, Node)>) -> Seq<Nav>
    decreases f,
{
    Seq::new(
        f.len(),
        |i: int|
            if 0 <= i < f.len() {
                nav_of(f[i])
            } else {
                arbitrary()
            },
    )
}

/// How many workers outline a forest: one for each ten chunks of leaves, at
/// most one for each core.
pub fn nav_threads(num_leaves: usize, num_cores: usize) -> (r: usize)
    ensures
        r == if num_leaves as int / 5000 / 10 <= num_cores {
            num_leaves as int / 5000 / 10
        } else {
            num_cores as int
        },
        r == spec_num_threads(Some(num_leaves), num_cores),
{
    let wanted: usize = num_leaves / ENTRY_CHUNK_SIZE / 10;
    if wanted <= num_cores {
        wanted
    } else {
        num_cores
    }
}

/// Outlines an entry.
pub fn enty_to_nav(id: usize, entry: &Entry) -> (r: NavItem)
    ensures
        nav(r) == nav_of((id as nat, node(*entry))),
    decreases entry,
{
    let text = show_nav(entry);
    let children = outline(&entry.subtree);
    NavItem { id, text, children }
}

fn outline(entries: &Vec<(usize, Entry)>) -> (r: Vec<NavItem>)
    ensures
        navs(r@) == navs_of(forest(entries@)),
    decreases entries,
{
    let ghost f = forest(entries@);
    let mut r: Vec<NavItem> = Vec::with_capacity(entries.len());
    let mut i: usize = 0;
    while i < entries.len()
        invariant
            i <= entries@.len(),
            f == forest(entries@),
            r@.len() == i,
            forall|j: int| 0 <= j < i ==> nav(#[trigger] r@[j]) == nav_of(f[j]),
        decreases entries.len() - i,
    {
        assert(decreases_to!(entries => entries@[i as int].1));
        r.push(enty_to_nav(entries[i].0, &entries[i].1));
        i += 1;
    }
    assert(navs(r@) =~= navs_of(f));
    r
}

/// Outlines a forest.
pub fn tree_items(entries: TreeSlice) -> (r: Vec<NavItem>)
    ensures
        navs(r@) == navs_of(forest(entries@)),
{
    let ghost f = forest(entries@);
    let mut r: Vec<NavItem> = Vec::with_capacity(entries.len());
    let mut i: usize = 0;
    while i < entries.len()
        invariant
            i <= entries@.len(),
            f == forest(entries@),
            r@.len() == i,
            forall|j: int| 0 <= j < i ==> nav(#[trigger] r@[j]) == nav_of(f[j]),
        decreases entries.len() - i,
    {
        r.push(enty_to_nav(entries[i].0, &entries[i].1));
        i += 1;
    }
    assert(navs(r@) =~= navs_of(f));
    r
}

/// The largest number of leaves that one job takes is below this.
pub const JOB_LEAVES: usize = 20000;

/// The jobs that an entry is outlined in: itself, or those of the entries below
/// it if it has too many leaves. Each comes with its address.
pub open spec fn jobs_of(t: (nat, Node), above: Seq<nat>) -> Seq<(Seq<nat>, Node)>
    decreases t, 0nat,
{
    if t.1.leaves < JOB_LEAVES {
        seq![(above.push(t.0), t.1)]
    } else {
        jobs_below(t.1.subtree, above.push(t.0))
    }
}

/// The jobs that a forest is outlined in.
pub open spec fn jobs_below(f: Seq<(nat, Node)>, above: Seq<nat>) -> Seq<(Seq<nat>, Node)>
    decreases f, f.len(),
{
    if f.len() == 0 {
        Seq::empty()
    } else {
        jobs_below(f.drop_last(), above) + jobs_of(f.last(), above)
    }
}

/// What jobs are.
pub open spec fn job_views(jobs: Seq<(Vec<usize>, &Entry)>) -> Seq<(Seq<nat>, Node)> {
    jobs.map_values(|j: (Vec<usize>, &Entry)| (nats(j.0@), node(*j.1)))
}

fn split_tree<'a>(jobs: &mut Vec<(Vec<usize>, &'a Entry)>, addr: &StackAddr, id: usize, entry: &'a Entry)
    ensures
        job_views(final(jobs)@) == job_views(old(jobs)@) + jobs_of(
            (id as nat, node(*entry)),
            nats(addr.ids().reverse()),
        ),
    decreases entry,
{
    let ghost before = job_views(jobs@);
    let ghost above = nats(addr.ids().reverse());
    let here = addr.push(id);
    assert(nats(here.ids().reverse()) =~= above.push(id as nat));
    if entry.leaves < JOB_LEAVES {
        jobs.push((here.address(), entry));
        assert(job_views(jobs@) =~= before + seq![(above.push(id as nat), node(*entry))]);
        return ;
    }
    let ghost f = forest(entry.subtree@);
    let ghost way = above.push(id as nat);
    let mut i: usize = 0;
    proof {
        assert(f.take(0) =~= Seq::empty());
        assert(before + jobs_below(f.take(0), way) =~= before);
    }
    while i < entry.subtree.len()
        invariant
            i <= entry.subtree@.len(),
            f == forest(entry.subtree@),
            way == nats(here.ids().reverse()),
            job_views(jobs@) == before + jobs_below(f.take(i as int), way),
        decreases entry.subtree.len() - i,
    {
        proof {
            assert(f.take(i + 1).drop_last() =~= f.take(i as int));
            assert(f.take(i + 1).last() == f[i as int]);
            assert(decreases_to!(entry => entry.subtree@[i as int].1));
        }
        split_tree(jobs, &here, entry.subtree[i].0, &entry.subtree[i].1);
        assert(job_views(jobs@) =~= before + jobs_below(f.take(i + 1), way));
        i += 1;
    }
    assert(f.take(i as int) =~= f);
}

/// The jobs that a forest is outlined in, each with its address.
pub fn split_jobs<'a>(entries: TreeSlice<'a>) -> (r: Vec<(Vec<usize>, &'a Entry)>)
    ensures
        job_views(r@) == jobs_below(forest(entries@), Seq::empty()),
{
    let ghost f = forest(entries@);
    let addr = StackAddr::root();
    let mut jobs: Vec<(Vec<usize>, &'a Entry)> = Vec::new();
    let mut i: usize = 0;
    proof {
        assert(nats(addr.ids().reverse()) =~= Seq::empty());
        assert(f.take(0) =~= Seq::empty());
        assert(job_views(jobs@) =~= Seq::empty());
    }
    while i < entries.len()
        invariant
            i <= entries@.len(),
            f == forest(entries@),
            nats(addr.ids().reverse()) == Seq::<nat>::empty(),
            job_views(jobs@) == jobs_below(f.take(i as int), Seq::empty()),
        decreases entries.len() - i,
    {
        proof {
            assert(f.take(i + 1).drop_last() =~= f.take(i as int));
            assert(f.take(i + 1).last() == f[i as int]);
        }
        split_tree(&mut jobs, &addr, entries[i].0, &entries[i].1);
        i += 1;
    }
    assert(f.take(i as int) =~= f);
    jobs
}

/// The outlines that the jobs of an entry make.
pub open spec fn job_navs_of(t: (nat, Node)) -> Seq<Nav>
    decreases t, 0nat,
{
    if t.1.leaves < JOB_LEAVES {
        seq![nav_of(t)]
    } else {
        job_navs_below(t.1.subtree)
    }
}

/// The outlines that the jobs of a forest make.
pub open spec fn job_navs_below(f: Seq<(nat, Node)>) -> Seq<Nav>
    decreases f, f.len(),
{
    if f.len() == 0 {
        Seq::empty()
    } else {
        job_navs_below(f.drop_last()) + job_navs_of(f.last())
    }
}

/// The outline that a job makes.
pub open spec fn job_nav(job: (Seq<nat>, Node)) -> Nav {
    nav_of((job.0.last(), job.1))
}

/// The outlines of the jobs of a forest are those that they are combined from.
pub proof fn jobs_make_outlines(f: Seq<(nat, Node)>, above: Seq<nat>)
    ensures
        jobs_below(f, above).map_values(|j: (Seq<nat>, Node)| job_nav(j)) == job_navs_below(f),
    decreases f, f.len(),
{
    if f.len() > 0 {
        let d = f.drop_last();
        let t = f.last();
        assert(decreases_to!(f => d));
        assert(f[f.len() - 1] == t);
        jobs_make_outlines(d, above);
        let own = jobs_of(t, above);
        assert(own.map_values(|j: (Seq<nat>, Node)| job_nav(j)) =~= job_navs_of(t)) by {
            if t.1.leaves >= JOB_LEAVES {
                jobs_make_outlines(t.1.subtree, above.push(t.0));
            } else {
                assert(above.push(t.0).last() == t.0);
            }
        }
        assert(jobs_below(f, above).map_values(|j: (Seq<nat>, Node)| job_nav(j)) =~= jobs_below(
            d,
            above,
        ).map_values(|j: (Seq<nat>, Node)| job_nav(j)) + own.map_values(
            |j: (Seq<nat>, Node)| job_nav(j),
        ));
    }
}

/// Outlines an entry from what its jobs made, which lies last at the end of a
/// list.
fn combine_entry(id: usize, entry: &Entry, items: &mut Vec<NavItem>, Ghost(rest): Ghost<Seq<Nav>>) -> (r:
    NavItem)
    requires
        navs(old(items)@) == rest + job_navs_of((id as nat, node(*entry))).reverse(),
    ensures
        navs(final(items)@) == rest,
        nav(r) == nav_of((id as nat, node(*entry))),
    decreases entry, 1nat,
{
    let ghost t = (id as nat, node(*entry));
    let ghost before = items@;
    if entry.leaves < JOB_LEAVES {
        proof {
            assert(job_navs_of(t).reverse() =~= seq![nav_of(t)]);
            assert(navs(before).len() == before.len());
            assert(navs(before).last() == nav_of(t));
            assert(navs(before)[before.len() - 1] == nav(before[before.len() - 1]));
        }
        match items.pop() {
            Some(item) => {
                assert(navs(items@) =~= rest) by {
                    assert forall|j: int| 0 <= j < items@.len() implies navs(items@)[j] == rest[j] by {
                        assert(navs(before)[j] == nav(before[j]));
                    }
                }
                return item;
            },
            None => {},
        }
    }
    let text = show_nav(entry);
    let children = combine_below(entry.subtree.as_slice(), items, Ghost(rest));
    NavItem { id, text, children }
}

fn combine_below(entries: TreeSlice, items: &mut Vec<NavItem>, Ghost(rest): Ghost<Seq<Nav>>) -> (r:
    Vec<NavItem>)
    requires
        navs(old(items)@) == rest + job_navs_below(forest(entries@)).reverse(),
    ensures
        navs(final(items)@) == rest,
        navs(r@) == navs_of(forest(entries@)),
    decreases entries@, 0nat,
{
    let ghost f = forest(entries@);
    let mut r: Vec<NavItem> = Vec::with_capacity(entries.len());
    let mut i: usize = 0;
    assert(f.skip(0) =~= f);
    while i < entries.len()
        invariant
            i <= entries@.len(),
            f == forest(entries@),
            r@.len() == i,
            forall|j: int| 0 <= j < i ==> nav(#[trigger] r@[j]) == nav_of(f[j]),
            navs(items@) == rest + job_navs_below(f.skip(i as int)).reverse(),
        decreases entries.len() - i,
    {
        let ghost later = job_navs_below(f.skip(i + 1));
        let ghost own = job_navs_of(f[i as int]);
        proof {
            lemma_first_jobs(f.skip(i as int));
            assert(f.skip(i as int)[0] == f[i as int]);
            assert(f.skip(i as int).skip(1) =~= f.skip(i + 1));
            assert((own + later).reverse() =~= later.reverse() + own.reverse());
            assert(rest + (later.reverse() + own.reverse()) =~= (rest + later.reverse()) + own.reverse());
            assert(decreases_to!(entries@ => entries@[i as int]));
            assert(decreases_to!(entries@[i as int] => entries@[i as int].1));
        }
        r.push(
            combine_entry(entries[i].0, &entries[i].1, items, Ghost(rest + later.reverse())),
        );
        i += 1;
    }
    proof {
        assert(f.skip(i as int).len() == 0);
        assert(job_navs_below(f.skip(i as int)) =~= Seq::empty());
        assert(rest + job_navs_below(f.skip(i as int)).reverse() =~= rest);
        assert(navs(r@) =~= navs_of(f));
    }
    r
}

proof fn lemma_first_jobs(f: Seq<(nat, Node)>)
    requires
        f.len() > 0,
    ensures
        job_navs_below(f) == job_navs_of(f[0]) + job_navs_below(f.skip(1)),
    decreases f.len(),
{
    let d = f.drop_last();
    if f.len() == 1 {
        assert(d =~= Seq::empty());
        assert(f.skip(1) =~= Seq::empty());
        assert(job_navs_below(d) =~= Seq::empty());
        assert(job_navs_below(f.skip(1)) =~= Seq::empty());
        assert(f.last() == f[0]);
        assert(job_navs_below(f) == job_navs_below(d) + job_navs_of(f.last()));
        assert(job_navs_of(f[0]) + job_navs_below(f.skip(1)) =~= job_navs_of(f[0]));
    } else {
        lemma_first_jobs(d);
        assert(f.skip(1).drop_last() =~= d.skip(1));
        assert(f.skip(1).last() == f.last());
        assert((job_navs_of(f[0]) + job_navs_below(d.skip(1))) + job_navs_of(f.last()) =~= job_navs_of(f[0])
            + (job_navs_below(d.skip(1)) + job_navs_of(f.last())));
    }
}

/// Outlines a forest from what its jobs made, in the order of the jobs. The
/// outline is the same as that of one worker.
pub fn combine_shards(entries: TreeSlice, shards: Vec<NavItem>) -> (r: Vec<NavItem>)
    requires
        navs(shards@) == job_navs_below(forest(entries@)),
    ensures
        navs(r@) == navs_of(forest(entries@)),
{
    let ghost given = shards@;
    let mut shards = shards;
    let mut items: Vec<NavItem> = Vec::with_capacity(shards.len());
    while shards.len() > 0
        invariant
            shards@.len() + items@.len() == given.len(),
            shards@ == given.take(shards@.len() as int),
            forall|j: int| 0 <= j < items@.len() ==> #[trigger] items@[j] == given[given.len() - 1 - j],
        decreases shards.len(),
    {
        if let Some(item) = shards.pop() {
            items.push(item);
            assert(shards@ =~= given.take(shards@.len() as int));
        }
    }
    proof {
        let all = navs(given);
        assert(navs(items@) =~= all.reverse()) by {
            assert forall|j: int| 0 <= j < items@.len() implies navs(items@)[j] == all.reverse()[j] by {
                assert(items@[j] == given[given.len() - 1 - j]);
            }
        }
        assert(Seq::<Nav>::empty() + all.reverse() =~= all.reverse());
    }
    combine_below(entries, &mut items, Ghost(Seq::empty()))
}

/// The outline that a job makes.
pub fn outline_job(job: &(Vec<usize>, &Entry)) -> (r: NavItem)
    requires
        job.0@.len() > 0,
    ensures
        nav(r) == job_nav((nats(job.0@), node(*job.1))),
{
    let id: usize = job.0[job.0.len() - 1];
    assert(nats(job.0@).last() == id as nat);
    enty_to_nav(id, job.1)
}

proof fn lemma_jobs_addressed(f: Seq<(nat, Node)>, above: Seq<nat>)
    ensures
        forall|i: int| 0 <= i < jobs_below(f, above).len() ==> (#[trigger] jobs_below(f, above)[i]).0.len() > 0,
    decreases f, f.len(),
{
    if f.len() > 0 {
        let d = f.drop_last();
        let t = f.last();
        assert(decreases_to!(f => d));
        assert(f[f.len() - 1] == t);
        lemma_jobs_addressed(d, above);
        let own = jobs_of(t, above);
        assert(forall|i: int| 0 <= i < own.len() ==> (#[trigger] own[i]).0.len() > 0) by {
            if t.1.leaves >= JOB_LEAVES {
                lemma_jobs_addressed(t.1.subtree, above.push(t.0));
                assert(own == jobs_below(t.1.subtree, above.push(t.0)));
            } else {
                assert(own == seq![(above.push(t.0), t.1)]);
            }
        }
        assert(jobs_below(f, above) == jobs_below(d, above) + own);
    }
}

/// Outlines a forest. A large one is split into jobs, whose outlines are then
/// combined.
pub fn build_nav_tree(entries: TreeSlice, num_cores: usize) -> (r: Vec<NavItem>)
    requires
        sum_leaves(bare(forest(entries@))) <= usize::MAX,
    ensures
        navs(r@) == navs_of(forest(entries@)),
{
    if nav_threads(total_leaves(entries), num_cores) <= 1 {
        return tree_items(entries);
    }
    let ghost f = forest(entries@);
    let jobs = split_jobs(entries);
    let ghost views = job_views(jobs@);
    proof {
        lemma_jobs_addressed(f, Seq::empty());
        jobs_make_outlines(f, Seq::empty());
    }
    let mut shards: Vec<NavItem> = Vec::with_capacity(jobs.len());
    let mut i: usize = 0;
    while i < jobs.len()
        invariant
            i <= jobs@.len(),
            views == job_views(jobs@),
            forall|j: int| 0 <= j < views.len() ==> (#[trigger] views[j]).0.len() > 0,
            shards@.len() == i,
            forall|j: int| 0 <= j < i ==> nav(#[trigger] shards@[j]) == job_nav(views[j]),
        decreases jobs.len() - i,
    {
        assert(views[i as int].0.len() > 0);
        shards.push(outline_job(&jobs[i]));
        i += 1;
    }
    assert(navs(shards@) =~= job_navs_below(f)) by {
        assert(job_navs_below(f) == views.map_values(|j: (Seq<nat>, Node)| job_nav(j)));
    }
    combine_shards(entries, shards)
}

/// How many items an outline has, on all levels.
pub open spec fn item_count(v: Seq<Nav>) -> nat
    decreases v, v.len(),
{
    if v.len() == 0 {
        0
    } else {
        1 + item_count(v.last().children) + item_count(v.drop_last())
    }
}

/// Whether an address leads to an item of an outline: each id is that of an item
/// of the level that the ids before lead to.
pub open spec fn is_item_at(v: Seq<Nav>, addr: Seq<nat>, item: Nav) -> bool
    decreases addr.len(),
{
    addr.len() > 0 && exists|i: int|
        0 <= i < v.len() && (#[trigger] v[i]).id == addr[0] && if addr.len() == 1 {
            v[i] == item
        } else {
            is_item_at(v[i].children, addr.skip(1), item)
        }
}

/// Whether items stand for entries, one for each, in the same order.
pub open spec fn lists(v: Seq<Nav>, f: Seq<(nat, Node)>) -> bool {
    v.len() == f.len() && forall|i: int| 0 <= i < f.len() ==> (#[trigger] v[i]).id == f[i].0
}

/// The outline of a forest has as many items as the forest has entries.
pub proof fn outlines_show_all(f: Seq<(nat, Node)>)
    ensures
        item_count(navs_of(f)) == census_below(f),
        lists(navs_of(f), f),
    decreases f, f.len(),
{
    if f.len() > 0 {
        let d = f.drop_last();
        assert(decreases_to!(f => d));
        assert(f[f.len() - 1] == f.last());
        outlines_show_all(d);
        outlines_show_all(f.last().1.subtree);
        assert(navs_of(f).drop_last() =~= navs_of(d));
        assert(navs_of(f).last() == nav_of(f.last()));
        assert(navs_of(f).last().children == navs_of(f.last().1.subtree));
        assert(census(f.last().1) == 1 + census_below(f.last().1.subtree));
    }
}

/// Each entry of a forest, a group like a directory, has an item at its address
/// in the outline. The item has its id and text, and below it stand, in order,
/// the items of all that is in the entry.
pub proof fn entries_have_items(f: Seq<(nat, Node)>, addr: Seq<nat>, n: Node) -> (item: Nav)
    requires
        leads(f, addr, n),
    ensures
        is_item_at(navs_of(f), addr, item),
        item.id == addr.last(),
        item.text == nav_text(n),
        lists(item.children, n.subtree),
        item_count(item.children) == census_below(n.subtree),
    decreases addr.len(),
{
    let i = choose|i: int|
        0 <= i < f.len() && (#[trigger] f[i]).0 == addr[0] && if addr.len() == 1 {
            f[i].1 == n
        } else {
            leads(f[i].1.subtree, addr.skip(1), n)
        };
    let v = navs_of(f);
    assert(v[i] == nav_of(f[i]));
    if addr.len() == 1 {
        outlines_show_all(n.subtree);
        v[i]
    } else {
        assert(addr.skip(1).last() == addr.last());
        entries_have_items(f[i].1.subtree, addr.skip(1), n)
    }
}

/// Each item of an outline stands for an entry of the forest, which is at the
/// same address.
pub proof fn items_have_entries(f: Seq<(nat, Node)>, addr: Seq<nat>, item: Nav) -> (n: Node)
    requires
        is_item_at(navs_of(f), addr, item),
    ensures
        leads(f, addr, n),
        item.text == nav_text(n),
        lists(item.children, n.subtree),
    decreases addr.len(),
{
    let v = navs_of(f);
    let i = choose|i: int|
        0 <= i < v.len() && (#[trigger] v[i]).id == addr[0] && if addr.len() == 1 {
            v[i] == item
        } else {
            is_item_at(v[i].children, addr.skip(1), item)
        };
    assert(v[i] == nav_of(f[i]));
    assert(f[i].0 == addr[0]);
    if addr.len() == 1 {
        outlines_show_all(f[i].1.subtree);
        f[i].1
    } else {
        items_have_entries(f[i].1.subtree, addr.skip(1), item)
    }
}

} // verus!
