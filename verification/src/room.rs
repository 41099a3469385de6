//! Whether what forests count together fits in a machine word.
use vstd::prelude::*;
use crate::accounting::sort_keeps_sums;
use crate::assembly::lemma_shuffled_members;
use crate::colors::copy_optional;
use crate::entry::{
    bare, forest, lemma_sum_add, lemma_sum_push, lemma_sum_take, node, sum_leaves, sum_nfiles, sum_size,
    Entry, Forest, Node,
};
use crate::keymap::{Key, KeyMap};
use crate::leaves::census_all;
use crate::merge::{
    children, fuse, fuse_fits, fuse_group, fuse_keys, group_fits, key_of, keys_distinct, keys_of,
    lemma_all_keys, lemma_census_children, lemma_census_with_key, lemma_children_step, lemma_fuse_keys,
    lemma_fuse_size, lemma_has_key, lemma_no_key, merge_conserves, merged, with_key,
};
use crate::parallel::{merge_round, pair_fits, rounds_fit};
use crate::siblings::{insert_node, may_precede, offsets, offsets_keep_entries, sort_is_ordered, sort_nodes};

verus! {

/// What entries that are only looked at are.
pub open spec fn seen(s: Seq<&Entry>) -> Seq<Node> {
    s.map_values(|e: &Entry| node(*e))
}

/// Sorts entries into lists of one key each.
fn group_seen<'a>(entries: &Vec<&'a Entry>) -> (r: Vec<Vec<&'a Entry>>)
    ensures
        r@.len() == keys_of(seen(entries@)).len(),
        forall|i: int|
            0 <= i < r@.len() ==> seen((#[trigger] r@[i])@) == with_key(
                seen(entries@),
                keys_of(seen(entries@))[i],
            ),
{
    let ghost all = seen(entries@);
    let mut r: Vec<Vec<&'a Entry>> = Vec::new();
    let mut places: KeyMap<usize> = KeyMap::new();
    let mut done: usize = 0;
    assert(all.take(0) =~= Seq::empty());
    while done < entries.len()
        invariant
            done <= entries@.len(),
            all == seen(entries@),
            places.wf(),
            r@.len() == keys_of(all.take(done as int)).len(),
            forall|i: int|
                0 <= i < r@.len() ==> seen((#[trigger] r@[i])@) == with_key(
                    all.take(done as int),
                    keys_of(all.take(done as int))[i],
                ),
            forall|i: int|
                0 <= i < r@.len() ==> places@.contains_key(#[trigger] keys_of(all.take(done as int))[i])
                    && places@[keys_of(all.take(done as int))[i]] == i,
            forall|k: Key| #[trigger]
                places@.contains_key(k) ==> places@[k] < r@.len() && keys_of(
                    all.take(done as int),
                )[places@[k] as int] == k,
        decreases entries.len() - done,
    {
        let ghost part = all.take(done as int);
        let ghost next = all.take(done + 1);
        let ghost before = keys_of(part);
        let ghost rb = r@;
        let e: &'a Entry = entries[done];
        let ghost k = key_of(node(*e));
        proof {
            assert(node(*e) == all[done as int]);
            assert(next.drop_last() =~= part);
            assert(next.last() == node(*e));
            keys_distinct(part);
            keys_distinct(next);
        }
        match places.get(&e.path, &e.tag) {
            Some(i) => {
                let i: usize = *i;
                assert(before[i as int] == k);
                r[i].push(e);
                assert forall|j: int| 0 <= j < r@.len() implies seen((#[trigger] r@[j])@) == with_key(
                    next,
                    keys_of(next)[j],
                ) by {
                    assert(seen(rb[j]@) == with_key(part, before[j]));
                    if j == i {
                        assert(seen(r@[j]@) =~= seen(rb[j]@).push(node(*e)));
                    } else {
                        assert(before[j] != before[i as int]);
                    }
                }
            },
            None => {
                let n: usize = r.len();
                proof {
                    if before.contains(k) {
                        let j = choose|j: int| 0 <= j < before.len() && before[j] == k;
                        assert(places@.contains_key(before[j]));
                    }
                    lemma_no_key(part, k);
                    assert(keys_of(next) == before.push(k));
                }
                places.put(e.path.clone(), copy_optional(&e.tag), n);
                let mut list: Vec<&'a Entry> = Vec::new();
                list.push(e);
                assert(seen(list@) =~= seq![node(*e)]);
                assert(with_key(part, k) =~= Seq::empty());
                assert(with_key(next, k) =~= seq![node(*e)]);
                r.push(list);
                assert forall|j: int| 0 <= j < r@.len() implies seen((#[trigger] r@[j])@) == with_key(
                    next,
                    keys_of(next)[j],
                ) by {
                    if j < n {
                        assert(rb[j] == r@[j]);
                        assert(seen(rb[j]@) == with_key(part, before[j]));
                        assert(before[j] != k);
                    }
                }
                assert forall|j: int| 0 <= j < r@.len() implies places@.contains_key(
                    #[trigger] keys_of(next)[j],
                ) && places@[keys_of(next)[j]] == j by {
                    if j < n {
                        assert(keys_of(next)[j] == before[j]);
                        assert(before[j] != k);
                    }
                }
                assert forall|q: Key| #[trigger] places@.contains_key(q) implies places@[q] < r@.len()
                    && keys_of(next)[places@[q] as int] == q by {
                    if q != k {
                        assert(keys_of(next)[places@[q] as int] == before[places@[q] as int]);
                    }
                }
            },
        }
        done += 1;
    }
    assert(all.take(done as int) =~= all);
    r
}

/// Puts the entries of a forest behind those of a list.
fn see_all<'a>(list: &mut Vec<&'a Entry>, f: &'a Forest)
    ensures
        seen(final(list)@) == seen(old(list)@) + bare(forest(f@)),
{
    let ghost before = list@;
    let mut i: usize = 0;
    while i < f.len()
        invariant
            i <= f@.len(),
            seen(list@) == seen(before) + bare(forest(f@)).take(i as int),
        decreases f.len() - i,
    {
        let ghost b = list@;
        list.push(&f[i].1);
        proof {
            assert(seen(list@) =~= seen(b).push(node(f@[i as int].1)));
            assert(bare(forest(f@))[i as int] == node(f@[i as int].1));
            assert(seen(list@) =~= seen(before) + bare(forest(f@)).take(i + 1));
        }
        i += 1;
    }
    assert(bare(forest(f@)).take(i as int) =~= bare(forest(f@)));
}

/// A number of leaves that may not fit in a machine word.
pub open spec fn word(n: nat) -> Option<usize> {
    if n <= usize::MAX {
        Some(n as usize)
    } else {
        None
    }
}

/// Whether the counts that fusing entries of one key makes fit in a machine
/// word, and how many leaves the fused entry has if they do.
fn weigh_group(list: &Vec<&Entry>) -> (r: Option<usize>)
    requires
        list@.len() > 0,
    ensures
        r is Some == (list@.len() > 1 ==> group_fits(seen(list@)) && fuse_fits(
            children(seen(list@)),
        )),
        r matches Some(n) ==> n == fuse_group(seen(list@)).leaves,
    decreases census_all(seen(list@)), 0nat,
{
    let ghost s = seen(list@);
    assert(s.len() == list@.len());
    if list.len() == 1 {
        return Some(list[0].leaves);
    }
    let mut size: usize = 0;
    let mut nfiles: usize = 0;
    let mut below: Vec<&Entry> = Vec::new();
    let mut i: usize = 0;
    proof {
        assert(s.take(0) =~= Seq::empty());
        assert(seen(below@) =~= children(s.take(0)));
    }
    while i < list.len()
        invariant
            i <= list@.len(),
            s == seen(list@),
            s.len() == list@.len(),
            s.len() > 1,
            size == sum_size(s.take(i as int)),
            nfiles == sum_nfiles(s.take(i as int)),
            seen(below@) == children(s.take(i as int)),
        decreases list.len() - i,
    {
        proof {
            lemma_sum_take(s, i as int);
            lemma_sum_take(s, i + 1);
            lemma_children_step(s, i as int);
            assert(s[i as int] == node(*list@[i as int]));
        }
        if list[i].size > usize::MAX - size || list[i].nfiles > usize::MAX - nfiles {
            return None;
        }
        size += list[i].size;
        nfiles += list[i].nfiles;
        see_all(&mut below, &list[i].subtree);
        i += 1;
    }
    proof {
        assert(s.take(i as int) =~= s);
        lemma_census_children(s);
        lemma_fuse_keys(seen(below@), keys_of(seen(below@)));
        assert(seen(below@).len() == below@.len());
    }
    match weigh(&below) {
        Some(Some(n)) => {
            if below.len() == 0 {
                Some(1)
            } else {
                proof {
                    lemma_all_keys(seen(below@));
                    assert(keys_of(seen(below@)).contains(key_of(seen(below@)[0])));
                }
                Some(n)
            }
        },
        _ => None,
    }
}

/// Whether the counts that fusing a list makes fit in a machine word, and how
/// many leaves the fused entries have if they do.
fn weigh(list: &Vec<&Entry>) -> (r: Option<Option<usize>>)
    ensures
        r is Some == fuse_fits(seen(list@)),
        r matches Some(n) ==> n == word(sum_leaves(fuse(seen(list@)))),
    decreases census_all(seen(list@)), 1nat,
{
    let ghost s = seen(list@);
    let ghost keys = keys_of(s);
    assert(s.len() == list@.len());
    let mut size: usize = 0;
    let mut i: usize = 0;
    assert(s.take(0) =~= Seq::empty());
    while i < list.len()
        invariant
            i <= list@.len(),
            s == seen(list@),
            s.len() == list@.len(),
            size == sum_size(s.take(i as int)),
        decreases list.len() - i,
    {
        proof {
            lemma_sum_take(s, i as int);
            lemma_sum_take(s, i + 1);
            assert(s[i as int] == node(*list@[i as int]));
        }
        if list[i].size > usize::MAX - size {
            return None;
        }
        size += list[i].size;
        i += 1;
    }
    assert(s.take(i as int) =~= s);
    let groups = group_seen(list);
    let mut leaves: Option<usize> = Some(0);
    let mut k: usize = 0;
    proof {
        assert(keys.take(0) =~= Seq::empty());
        assert(fuse_keys(s, keys.take(0)) =~= Seq::empty());
    }
    while k < groups.len()
        invariant
            k <= groups@.len(),
            s == seen(list@),
            keys == keys_of(s),
            groups@.len() == keys.len(),
            sum_size(s) <= usize::MAX,
            forall|j: int|
                0 <= j < groups@.len() ==> seen((#[trigger] groups@[j])@) == with_key(s, keys[j]),
            forall|j: int|
                0 <= j < k && with_key(s, #[trigger] keys[j]).len() > 1 ==> group_fits(
                    with_key(s, keys[j]),
                ) && fuse_fits(children(with_key(s, keys[j]))),
            leaves == word(sum_leaves(fuse_keys(s, keys.take(k as int)))),
        decreases groups.len() - k,
    {
        proof {
            assert(seen(groups@[k as int]@) == with_key(s, keys[k as int]));
            assert(seen(groups@[k as int]@).len() == groups@[k as int]@.len());
            lemma_has_key(s, k as int);
            lemma_census_with_key(s, keys[k as int]);
            let now = keys.take(k + 1);
            assert(now.drop_last() =~= keys.take(k as int));
            assert(now.last() == keys[k as int]);
            lemma_sum_push(
                fuse_keys(s, keys.take(k as int)),
                fuse_group(with_key(s, keys[k as int])),
            );
        }
        match weigh_group(&groups[k]) {
            None => {
                assert(!fuse_fits(s));
                return None;
            },
            Some(n) => {
                leaves = match leaves {
                    Some(sum) => if n <= usize::MAX - sum {
                        Some(sum + n)
                    } else {
                        None
                    },
                    None => None,
                };
            },
        }
        k += 1;
    }
    proof {
        assert(keys.take(k as int) =~= keys);
        assert forall|q: Key| (#[trigger] with_key(s, q)).len() > 1 implies group_fits(with_key(s, q))
            && fuse_fits(children(with_key(s, q))) by {
            if !keys.contains(q) {
                lemma_no_key(s, q);
            }
            let j = choose|j: int| 0 <= j < keys.len() && keys[j] == q;
            assert(with_key(s, keys[j]).len() > 1);
        }
    }
    Some(leaves)
}

/// Whether the counts that merging two forests makes fit in a machine word.
pub fn merge_fits(left: &Forest, right: &Forest) -> (r: bool)
    ensures
        r == fuse_fits(bare(forest(left@)) + bare(forest(right@))),
{
    let mut all: Vec<&Entry> = Vec::with_capacity(left.len());
    assert(seen(all@) =~= Seq::empty());
    see_all(&mut all, left);
    assert(seen(all@) =~= bare(forest(left@)));
    see_all(&mut all, right);
    weigh(&all).is_some()
}

/// Whether an entry has at least the size and the number of files that those
/// below it have together, and so on below it.
pub open spec fn roomy(n: Node) -> bool
    decreases n,
{
    &&& n.size >= sum_size(bare(n.subtree))
    &&& n.nfiles >= sum_nfiles(bare(n.subtree))
    &&& forall|i: int| 0 <= i < n.subtree.len() ==> roomy((#[trigger] n.subtree[i]).1)
}

/// Whether all entries of a list have.
pub open spec fn all_roomy(s: Seq<Node>) -> bool {
    forall|i: int| 0 <= i < s.len() ==> roomy(#[trigger] s[i])
}

/// How many leaves an entry can come to count: those that it counts, those that
/// entries below it can, and one at least.
pub open spec fn reach(n: Node) -> nat
    decreases n, 0nat,
{
    let below = reach_below(n.subtree);
    let most = if n.leaves >= below {
        n.leaves
    } else {
        below
    };
    if most >= 1 {
        most
    } else {
        1
    }
}

/// How many leaves the entries of a forest can come to count.
pub open spec fn reach_below(f: Seq<(nat, Node)>) -> nat
    decreases f, f.len(),
{
    if f.len() == 0 {
        0
    } else {
        reach_below(f.drop_last()) + reach(f.last().1)
    }
}

/// How many leaves the entries of a list can come to count.
pub open spec fn reach_all(s: Seq<Node>) -> nat
    decreases s.len(),
{
    if s.len() == 0 {
        0
    } else {
        reach_all(s.drop_last()) + reach(s.last())
    }
}

pub proof fn lemma_reach_push(s: Seq<Node>, n: Node)
    ensures
        reach_all(s.push(n)) == reach_all(s) + reach(n),
{
    assert(s.push(n).drop_last() =~= s);
}

pub proof fn lemma_reach_add(a: Seq<Node>, b: Seq<Node>)
    ensures
        reach_all(a + b) == reach_all(a) + reach_all(b),
    decreases b.len(),
{
    if b.len() == 0 {
        assert(a + b =~= a);
    } else {
        lemma_reach_add(a, b.drop_last());
        assert((a + b).drop_last() =~= a + b.drop_last());
    }
}

pub proof fn lemma_reach_below(f: Seq<(nat, Node)>)
    ensures
        reach_below(f) == reach_all(bare(f)),
    decreases f.len(),
{
    if f.len() > 0 {
        lemma_reach_below(f.drop_last());
        assert(bare(f).drop_last() =~= bare(f.drop_last()));
    }
}

pub proof fn lemma_reach_leaves(s: Seq<Node>)
    ensures
        sum_leaves(s) <= reach_all(s),
        s.len() <= reach_all(s),
    decreases s.len(),
{
    if s.len() > 0 {
        lemma_reach_leaves(s.drop_last());
    }
}

proof fn lemma_reach_insert(s: Seq<Node>, n: Node)
    ensures
        reach_all(insert_node(s, n)) == reach_all(s) + reach(n),
    decreases s.len(),
{
    if s.len() == 0 || may_precede(s.last(), n) {
        lemma_reach_push(s, n);
    } else {
        lemma_reach_insert(s.drop_last(), n);
        lemma_reach_push(insert_node(s.drop_last(), n), s.last());
    }
}

pub proof fn lemma_reach_sorted(s: Seq<Node>)
    ensures
        reach_all(sort_nodes(s)) == reach_all(s),
    decreases s.len(),
{
    if s.len() > 0 {
        lemma_reach_sorted(s.drop_last());
        lemma_reach_insert(sort_nodes(s.drop_last()), s.last());
    }
}

proof fn lemma_roomy_add(a: Seq<Node>, b: Seq<Node>)
    requires
        all_roomy(a),
        all_roomy(b),
    ensures
        all_roomy(a + b),
{
    assert forall|i: int| 0 <= i < (a + b).len() implies roomy(#[trigger] (a + b)[i]) by {
        if i < a.len() {
            assert((a + b)[i] == a[i]);
        } else {
            assert((a + b)[i] == b[i - a.len()]);
        }
    }
}

proof fn lemma_roomy_below(n: Node)
    requires
        roomy(n),
    ensures
        all_roomy(bare(n.subtree)),
{
    assert forall|i: int| 0 <= i < bare(n.subtree).len() implies roomy(#[trigger] bare(n.subtree)[i]) by {
        assert(roomy(n.subtree[i].1));
    }
}

proof fn lemma_roomy_children(s: Seq<Node>)
    requires
        all_roomy(s),
    ensures
        all_roomy(children(s)),
        sum_size(children(s)) <= sum_size(s),
        sum_nfiles(children(s)) <= sum_nfiles(s),
        reach_all(children(s)) <= reach_all(s),
    decreases s.len(),
{
    if s.len() > 0 {
        let d = s.drop_last();
        assert(forall|i: int| 0 <= i < d.len() ==> #[trigger] d[i] == s[i]);
        lemma_roomy_children(d);
        assert(roomy(s[s.len() - 1]));
        lemma_roomy_below(s.last());
        lemma_roomy_add(children(d), bare(s.last().subtree));
        lemma_sum_add(children(d), bare(s.last().subtree));
        lemma_reach_add(children(d), bare(s.last().subtree));
        lemma_reach_below(s.last().subtree);
    }
}

proof fn lemma_roomy_key(s: Seq<Node>, k: Key)
    requires
        all_roomy(s),
    ensures
        all_roomy(with_key(s, k)),
        sum_size(with_key(s, k)) <= sum_size(s),
        sum_nfiles(with_key(s, k)) <= sum_nfiles(s),
        reach_all(with_key(s, k)) <= reach_all(s),
    decreases s.len(),
{
    if s.len() > 0 {
        let d = s.drop_last();
        assert(forall|i: int| 0 <= i < d.len() ==> #[trigger] d[i] == s[i]);
        lemma_roomy_key(d, k);
        assert(roomy(s[s.len() - 1]));
        lemma_sum_push(with_key(d, k), s.last());
        lemma_reach_push(with_key(d, k), s.last());
        if key_of(s.last()) == k {
            let g = with_key(d, k);
            assert forall|i: int| 0 <= i < g.push(s.last()).len() implies roomy(
                #[trigger] g.push(s.last())[i],
            ) by {
                if i < g.len() {
                    assert(roomy(g[i]));
                }
            }
        }
    }
}

/// How many leaves the entries of a list that have one of the keys can come to
/// count.
spec fn keyed_reach(s: Seq<Node>, keys: Seq<Key>) -> nat
    decreases keys.len(),
{
    if keys.len() == 0 {
        0
    } else {
        keyed_reach(s, keys.drop_last()) + reach_all(with_key(s, keys.last()))
    }
}

proof fn lemma_keyed_step(s: Seq<Node>, keys: Seq<Key>)
    requires
        s.len() > 0,
        keys.no_duplicates(),
    ensures
        keyed_reach(s, keys) <= keyed_reach(s.drop_last(), keys) + reach(s.last()),
        !keys.contains(key_of(s.last())) ==> keyed_reach(s, keys) == keyed_reach(s.drop_last(), keys),
    decreases keys.len(),
{
    let k = key_of(s.last());
    if keys.len() > 0 {
        let d = keys.drop_last();
        lemma_keyed_step(s, d);
        lemma_reach_push(with_key(s.drop_last(), k), s.last());
        if keys.last() == k {
            if d.contains(k) {
                let i = choose|i: int| 0 <= i < d.len() && d[i] == k;
                assert(keys[i] == k);
                assert(keys[i] != keys[keys.len() - 1]);
            }
        }
        if !keys.contains(k) {
            assert(keys[keys.len() - 1] != k);
            if d.contains(k) {
                let i = choose|i: int| 0 <= i < d.len() && d[i] == k;
                assert(keys[i] == k);
            }
        }
    }
}

proof fn lemma_keyed_reach(s: Seq<Node>, keys: Seq<Key>)
    requires
        keys.no_duplicates(),
    ensures
        keyed_reach(s, keys) <= reach_all(s),
    decreases s.len(), keys.len(),
{
    if s.len() == 0 {
        if keys.len() > 0 {
            lemma_keyed_reach(s, keys.drop_last());
        }
    } else {
        lemma_keyed_reach(s.drop_last(), keys);
        lemma_keyed_step(s, keys);
    }
}

/// Fused entries have at least the counts of those below them, and can come to
/// count no more leaves.
proof fn lemma_fused_roomy(s: Seq<Node>)
    requires
        all_roomy(s),
    ensures
        all_roomy(fuse(s)),
        reach_all(fuse(s)) <= reach_all(s),
    decreases census_all(s), 1nat, 0nat,
{
    let keys = keys_of(s);
    keys_distinct(s);
    assert forall|i: int| 0 <= i < keys.len() implies with_key(s, #[trigger] keys[i]).len() > 0 by {
        lemma_has_key(s, i);
    }
    lemma_fused_keys(s, keys);
    lemma_keyed_reach(s, keys);
}

proof fn lemma_fused_keys(s: Seq<Node>, keys: Seq<Key>)
    requires
        all_roomy(s),
        forall|i: int| 0 <= i < keys.len() ==> with_key(s, #[trigger] keys[i]).len() > 0,
    ensures
        all_roomy(fuse_keys(s, keys)),
        reach_all(fuse_keys(s, keys)) <= keyed_reach(s, keys),
    decreases census_all(s), 0nat, keys.len(),
{
    if keys.len() > 0 {
        let d = keys.drop_last();
        assert forall|i: int| 0 <= i < d.len() implies with_key(s, #[trigger] d[i]).len() > 0 by {
            assert(with_key(s, keys[i]).len() > 0);
        }
        lemma_fused_keys(s, d);
        let group = with_key(s, keys.last());
        assert(with_key(s, keys[keys.len() - 1]).len() > 0);
        lemma_census_with_key(s, keys.last());
        lemma_census_children(group);
        lemma_roomy_key(s, keys.last());
        lemma_roomy_children(group);
        let below = fuse(children(group));
        lemma_fused_roomy(children(group));
        let one = fuse_group(group);
        if group.len() == 1 {
            assert(group =~= Seq::empty().push(group[0]));
            lemma_reach_push(Seq::empty(), group[0]);
        } else {
            lemma_fuse_size(children(group));
            lemma_sorted_roomy(below);
            lemma_reach_below(one.subtree);
            lemma_reach_leaves(below);
            lemma_reach_leaves(group);
            assert forall|i: int| 0 <= i < one.subtree.len() implies roomy((#[trigger] one.subtree[i]).1) by {
                assert(bare(one.subtree)[i] == one.subtree[i].1);
            }
        }
        assert(roomy(one));
        lemma_reach_push(fuse_keys(s, d), one);
        assert forall|i: int| 0 <= i < keys.len() implies roomy(#[trigger] fuse_keys(s, keys)[i]) by {
            lemma_fuse_keys(s, keys);
            lemma_fuse_keys(s, d);
            if i < d.len() {
                assert(fuse_keys(s, keys)[i] == fuse_keys(s, d)[i]);
            }
        }
        lemma_fuse_keys(s, keys);
    }
}

proof fn lemma_sorted_roomy(s: Seq<Node>)
    requires
        all_roomy(s),
    ensures
        all_roomy(bare(offsets(sort_nodes(s)))),
        sum_size(bare(offsets(sort_nodes(s)))) == sum_size(s),
        sum_nfiles(bare(offsets(sort_nodes(s)))) == sum_nfiles(s),
        reach_all(bare(offsets(sort_nodes(s)))) == reach_all(s),
{
    offsets_keep_entries(sort_nodes(s));
    sort_keeps_sums(s);
    lemma_reach_sorted(s);
    sort_is_ordered(s);
    let t = sort_nodes(s);
    assert forall|i: int| 0 <= i < t.len() implies roomy(#[trigger] t[i]) by {
        lemma_shuffled_members(t, s);
        let j = choose|j: int| 0 <= j < s.len() && s[j] == t[i];
        assert(roomy(s[j]));
    }
}

/// Where entries have at least the counts of those below them, merging needs no
/// more room than their sums: if these fit in a machine word, so does all that
/// fusing counts.
pub proof fn sums_are_enough(s: Seq<Node>)
    requires
        all_roomy(s),
        sum_size(s) <= usize::MAX,
        sum_nfiles(s) <= usize::MAX,
        reach_all(s) <= usize::MAX,
    ensures
        fuse_fits(s),
    decreases census_all(s),
{
    assert forall|k: Key| (#[trigger] with_key(s, k)).len() > 1 implies group_fits(with_key(s, k))
        && fuse_fits(children(with_key(s, k))) by {
        let group = with_key(s, k);
        lemma_roomy_key(s, k);
        lemma_roomy_children(group);
        lemma_census_with_key(s, k);
        lemma_census_children(group);
        lemma_fused_roomy(children(group));
        lemma_reach_leaves(fuse(children(group)));
        sums_are_enough(children(group));
    }
}

/// Whether the entries of each forest have at least the counts of those below
/// them.
pub open spec fn forests_roomy(s: Seq<Seq<(nat, Node)>>) -> bool {
    forall|i: int| 0 <= i < s.len() ==> all_roomy(bare(#[trigger] s[i]))
}

/// The size and the number of files that forests have together, and how many
/// leaves they can come to count.
pub open spec fn room_of(s: Seq<Seq<(nat, Node)>>) -> (nat, nat, nat)
    decreases s.len(),
{
    if s.len() == 0 {
        (0, 0, 0)
    } else {
        let before = room_of(s.drop_last());
        let last = bare(s.last());
        (before.0 + sum_size(last), before.1 + sum_nfiles(last), before.2 + reach_all(last))
    }
}

/// Whether what forests count together fits in a machine word.
pub open spec fn has_room(s: Seq<Seq<(nat, Node)>>) -> bool {
    room_of(s).0 <= usize::MAX && room_of(s).1 <= usize::MAX && room_of(s).2 <= usize::MAX
}

proof fn lemma_room_part(s: Seq<Seq<(nat, Node)>>, n: int)
    requires
        0 <= n <= s.len(),
    ensures
        room_of(s.take(n)).0 <= room_of(s).0,
        room_of(s.take(n)).1 <= room_of(s).1,
        room_of(s.take(n)).2 <= room_of(s).2,
    decreases s.len() - n,
{
    if n < s.len() {
        assert(s.take(n + 1).drop_last() =~= s.take(n));
        lemma_room_part(s, n + 1);
    } else {
        assert(s.take(n) =~= s);
    }
}

proof fn lemma_merged_room(a: Seq<(nat, Node)>, b: Seq<(nat, Node)>)
    requires
        all_roomy(bare(a)),
        all_roomy(bare(b)),
    ensures
        all_roomy(bare(merged(a, b))),
        sum_size(bare(merged(a, b))) == sum_size(bare(a)) + sum_size(bare(b)),
        sum_nfiles(bare(merged(a, b))) == sum_nfiles(bare(a)) + sum_nfiles(bare(b)),
        reach_all(bare(merged(a, b))) <= reach_all(bare(a)) + reach_all(bare(b)),
{
    let s = bare(a) + bare(b);
    lemma_roomy_add(bare(a), bare(b));
    lemma_sum_add(bare(a), bare(b));
    lemma_reach_add(bare(a), bare(b));
    lemma_fused_roomy(s);
    lemma_sorted_roomy(fuse(s));
    merge_conserves(a, b);
}

proof fn lemma_round_roomy(s: Seq<Seq<(nat, Node)>>)
    requires
        forests_roomy(s),
    ensures
        forests_roomy(merge_round(s)),
{
    let r = merge_round(s);
    assert forall|i: int| 0 <= i < r.len() implies all_roomy(bare(#[trigger] r[i])) by {
        assert(all_roomy(bare(s[2 * i])));
        if 2 * i + 1 < s.len() {
            assert(all_roomy(bare(s[2 * i + 1])));
            lemma_merged_room(s[2 * i], s[2 * i + 1]);
        }
    }
}

proof fn lemma_room_push(s: Seq<Seq<(nat, Node)>>, f: Seq<(nat, Node)>)
    ensures
        room_of(s.push(f)).0 == room_of(s).0 + sum_size(bare(f)),
        room_of(s.push(f)).1 == room_of(s).1 + sum_nfiles(bare(f)),
        room_of(s.push(f)).2 == room_of(s).2 + reach_all(bare(f)),
{
    assert(s.push(f).drop_last() =~= s);
}

proof fn lemma_round_room(s: Seq<Seq<(nat, Node)>>)
    requires
        forests_roomy(s),
    ensures
        room_of(merge_round(s)).0 == room_of(s).0,
        room_of(merge_round(s)).1 == room_of(s).1,
        room_of(merge_round(s)).2 <= room_of(s).2,
    decreases s.len(),
{
    let r = merge_round(s);
    if s.len() == 0 {
        assert(r =~= s);
    } else if s.len() == 1 {
        assert(r =~= s);
    } else {
        let d = s.drop_last();
        assert forall|i: int| 0 <= i < d.len() implies all_roomy(bare(#[trigger] d[i])) by {
            assert(all_roomy(bare(s[i])));
        }
        assert(all_roomy(bare(s[s.len() - 1])));
        assert(s =~= d.push(s.last()));
        lemma_room_push(d, s.last());
        if s.len() % 2 == 1 {
            lemma_round_room(d);
            assert(r =~= merge_round(d).push(s.last()));
            lemma_room_push(merge_round(d), s.last());
        } else {
            let dd = d.drop_last();
            assert forall|i: int| 0 <= i < dd.len() implies all_roomy(bare(#[trigger] dd[i])) by {
                assert(all_roomy(bare(d[i])));
            }
            assert(all_roomy(bare(d[d.len() - 1])));
            lemma_round_room(dd);
            assert(d =~= dd.push(d.last()));
            lemma_room_push(dd, d.last());
            let both = merged(d.last(), s.last());
            assert(r =~= merge_round(dd).push(both));
            lemma_room_push(merge_round(dd), both);
            lemma_merged_room(d.last(), s.last());
        }
    }
}

/// Where entries have at least the counts of those below them, merging forests
/// in rounds needs no more room than what they have together.
pub proof fn rounds_have_room(s: Seq<Seq<(nat, Node)>>)
    requires
        forests_roomy(s),
        has_room(s),
    ensures
        rounds_fit(s),
    decreases s.len(),
{
    if s.len() > 1 {
        assert forall|i: int| 0 <= i < (s.len() + 1) / 2 && 2 * i + 1 < s.len() implies #[trigger] pair_fits(
            s,
            i,
        ) by {
            let a = bare(s[2 * i]);
            let b = bare(s[2 * i + 1]);
            assert(all_roomy(a) && all_roomy(b));
            lemma_room_part(s, 2 * i + 2);
            let two = s.take(2 * i + 2);
            let one = two.drop_last();
            assert(one.last() == s[2 * i] && two.last() == s[2 * i + 1]);
            assert(room_of(one).0 >= sum_size(a));
            lemma_roomy_add(a, b);
            lemma_sum_add(a, b);
            lemma_reach_add(a, b);
            sums_are_enough(a + b);
        }
        lemma_round_room(s);
        lemma_round_roomy(s);
        rounds_have_room(merge_round(s));
    }
}

} // verus!
