//! Forests of one scan in one.
use vstd::prelude::*;
use crate::colors::{bytes_view, copy_optional};
use crate::entry::{
    bare, forest, lemma_sum_add, lemma_sum_one, lemma_sum_push, lemma_sum_take, node, nodes, sum_leaves,
    sum_nfiles, sum_size, Entry, Forest, Node,
};
use crate::growth::total_leaves;
use crate::keymap::{Key, KeyMap};
use crate::leaves::{census, census_all, census_below};
use crate::siblings::{cumsum_size, offsets, offsets_keep_entries, reversed, sort_largest, sort_nodes};

verus! {

/// What entries of several forests are matched by.
pub open spec fn key_of(n: Node) -> Key {
    (n.path, n.tag)
}

/// The entries of a list that have a key.
pub open spec fn with_key(s: Seq<Node>, k: Key) -> Seq<Node>
    decreases s.len(),
{
    if s.len() == 0 {
        Seq::empty()
    } else if key_of(s.last()) == k {
        with_key(s.drop_last(), k).push(s.last())
    } else {
        with_key(s.drop_last(), k)
    }
}

/// The keys of a list, each once, in the order of first use.
pub open spec fn keys_of(s: Seq<Node>) -> Seq<Key>
    decreases s.len(),
{
    if s.len() == 0 {
        Seq::empty()
    } else {
        let before = keys_of(s.drop_last());
        if before.contains(key_of(s.last())) {
            before
        } else {
            before.push(key_of(s.last()))
        }
    }
}

/// The entries directly below those of a list.
pub open spec fn children(s: Seq<Node>) -> Seq<Node>
    decreases s.len(),
{
    if s.len() == 0 {
        Seq::empty()
    } else {
        children(s.drop_last()) + bare(s.last().subtree)
    }
}

proof fn lemma_census_add(a: Seq<Node>, b: Seq<Node>)
    ensures
        census_all(a + b) == census_all(a) + census_all(b),
    decreases a.len(),
{
    if a.len() == 0 {
        assert(a + b =~= b);
    } else {
        assert((a + b).skip(1) =~= a.skip(1) + b);
        lemma_census_add(a.skip(1), b);
    }
}

proof fn lemma_census_push(s: Seq<Node>, n: Node)
    ensures
        census_all(s.push(n)) == census_all(s) + census(n),
{
    lemma_census_add(s, seq![n]);
    assert(s.push(n) =~= s + seq![n]);
    assert(seq![n].skip(1) =~= Seq::empty());
    assert(census_all(seq![n]) == census(n) + census_all(seq![n].skip(1)));
}

proof fn lemma_census_below(f: Seq<(nat, Node)>)
    ensures
        census_below(f) == census_all(bare(f)),
    decreases f.len(),
{
    if f.len() > 0 {
        lemma_census_below(f.drop_last());
        assert(bare(f) =~= bare(f.drop_last()).push(f.last().1));
        lemma_census_push(bare(f.drop_last()), f.last().1);
    }
}

pub proof fn lemma_census_children(s: Seq<Node>)
    ensures
        census_all(children(s)) + s.len() == census_all(s),
    decreases s.len(),
{
    if s.len() > 0 {
        let d = s.drop_last();
        lemma_census_children(d);
        lemma_census_add(children(d), bare(s.last().subtree));
        lemma_census_below(s.last().subtree);
        assert(s =~= d.push(s.last()));
        lemma_census_push(d, s.last());
    }
}

pub proof fn lemma_census_with_key(s: Seq<Node>, k: Key)
    ensures
        census_all(with_key(s, k)) <= census_all(s),
    decreases s.len(),
{
    if s.len() > 0 {
        let d = s.drop_last();
        lemma_census_with_key(d, k);
        assert(s =~= d.push(s.last()));
        lemma_census_push(d, s.last());
        lemma_census_push(with_key(d, k), s.last());
    }
}

/// The entries of a list with those of one key in one.
pub open spec fn fuse(s: Seq<Node>) -> Seq<Node>
    decreases census_all(s), 2nat, 0nat,
{
    fuse_keys(s, keys_of(s))
}

/// For each key the entries of a list that have it, in one.
pub open spec fn fuse_keys(s: Seq<Node>, keys: Seq<Key>) -> Seq<Node>
    decreases census_all(s), 1nat, keys.len(),
    via fuse_keys_ends
{
    if keys.len() == 0 {
        Seq::empty()
    } else {
        fuse_keys(s, keys.drop_last()).push(fuse_group(with_key(s, keys.last())))
    }
}

#[via_fn]
proof fn fuse_keys_ends(s: Seq<Node>, keys: Seq<Key>) {
    if keys.len() > 0 {
        lemma_census_with_key(s, keys.last());
    }
}

/// Entries of one key in one: the first with the counts of all, above all that
/// is below them. A single entry stays as it is.
pub open spec fn fuse_group(s: Seq<Node>) -> Node
    decreases census_all(s), 0nat, 0nat,
    via fuse_group_ends
{
    if s.len() <= 1 {
        s[0]
    } else {
        let below = fuse(children(s));
        Node {
            size: sum_size(s),
            nfiles: sum_nfiles(s),
            leaves: if below.len() == 0 {
                1
            } else {
                sum_leaves(below)
            },
            subtree: offsets(sort_nodes(below)),
            ..s[0]
        }
    }
}

#[via_fn]
proof fn fuse_group_ends(s: Seq<Node>) {
    lemma_census_children(s);
}

/// Two forests in one.
pub open spec fn merged(a: Seq<(nat, Node)>, b: Seq<(nat, Node)>) -> Seq<(nat, Node)> {
    offsets(sort_nodes(fuse(bare(a) + bare(b))))
}

/// The counts that fusing a list makes fit in a machine word.
pub open spec fn fuse_fits(s: Seq<Node>) -> bool
    decreases census_all(s),
    via fuse_fits_ends
{
    &&& sum_size(s) <= usize::MAX
    &&& forall|k: Key| (#[trigger] with_key(s, k)).len() > 1 ==> group_fits(with_key(s, k))
        && fuse_fits(children(with_key(s, k)))
}

#[via_fn]
proof fn fuse_fits_ends(s: Seq<Node>) {
    assert forall|k: Key| (#[trigger] with_key(s, k)).len() > 1 implies census_all(
        children(with_key(s, k)),
    ) < census_all(s) by {
        lemma_census_with_key(s, k);
        lemma_census_children(with_key(s, k));
    }
}

/// The counts of entries of one key fit in a machine word.
pub open spec fn group_fits(s: Seq<Node>) -> bool {
    &&& sum_size(s) <= usize::MAX
    &&& sum_nfiles(s) <= usize::MAX
    &&& sum_leaves(fuse(children(s))) <= usize::MAX
}

pub proof fn lemma_no_key(s: Seq<Node>, k: Key)
    requires
        !keys_of(s).contains(k),
    ensures
        with_key(s, k).len() == 0,
    decreases s.len(),
{
    if s.len() > 0 {
        let before = keys_of(s.drop_last());
        if before.contains(k) {
            let i = choose|i: int| 0 <= i < before.len() && before[i] == k;
            assert(keys_of(s)[i] == k);
        }
        if key_of(s.last()) == k {
            if !before.contains(k) {
                assert(keys_of(s)[before.len() as int] == k);
            }
        }
        lemma_no_key(s.drop_last(), k);
    }
}

/// No key is listed twice.
pub proof fn keys_distinct(s: Seq<Node>)
    ensures
        keys_of(s).no_duplicates(),
    decreases s.len(),
{
    if s.len() > 0 {
        keys_distinct(s.drop_last());
    }
}

/// Sorts entries into lists of one key each.
fn group_entries(entries: Vec<Entry>) -> (r: Vec<Vec<Entry>>)
    ensures
        r@.len() == keys_of(nodes(entries@)).len(),
        forall|i: int|
            0 <= i < r@.len() ==> nodes((#[trigger] r@[i])@) == with_key(
                nodes(entries@),
                keys_of(nodes(entries@))[i],
            ),
{
    let ghost all = nodes(entries@);
    let mut queue = reversed(entries);
    let mut r: Vec<Vec<Entry>> = Vec::new();
    let mut places: KeyMap<usize> = KeyMap::new();
    let ghost mut done: int = 0;
    proof {
        assert(nodes(queue@).len() == queue@.len());
        assert(all.take(0) =~= Seq::empty());
    }
    while queue.len() > 0
        invariant
            0 <= done,
            done + queue@.len() == all.len(),
            nodes(queue@) == all.skip(done).reverse(),
            places.wf(),
            r@.len() == keys_of(all.take(done)).len(),
            forall|i: int|
                0 <= i < r@.len() ==> nodes((#[trigger] r@[i])@) == with_key(
                    all.take(done),
                    keys_of(all.take(done))[i],
                ),
            forall|i: int|
                0 <= i < r@.len() ==> places@.contains_key(#[trigger] keys_of(all.take(done))[i])
                    && places@[keys_of(all.take(done))[i]] == i,
            forall|k: Key| #[trigger]
                places@.contains_key(k) ==> places@[k] < r@.len() && keys_of(
                    all.take(done),
                )[places@[k] as int] == k,
        decreases queue.len(),
    {
        let ghost qb = queue@;
        let ghost part = all.take(done);
        let ghost next = all.take(done + 1);
        let ghost before = keys_of(part);
        let ghost rb = r@;
        if let Some(e) = queue.pop() {
            let ghost k = key_of(node(e));
            proof {
                assert(nodes(qb).len() == qb.len());
                assert(node(e) == nodes(qb).last());
                assert(node(e) == all[done]);
                assert(next.drop_last() =~= part);
                assert(next.last() == node(e));
                assert forall|j: int| 0 <= j < queue@.len() implies #[trigger] nodes(queue@)[j]
                    == all.skip(done + 1).reverse()[j] by {
                    assert(nodes(queue@)[j] == nodes(qb)[j]);
                    assert(all.skip(done).reverse()[j] == all[all.len() - 1 - j]);
                }
                assert(nodes(queue@) =~= all.skip(done + 1).reverse());
                keys_distinct(part);
                keys_distinct(next);
            }
            match places.get(&e.path, &e.tag) {
                Some(i) => {
                    let i: usize = *i;
                    assert(before[i as int] == k);
                    r[i].push(e);
                    assert forall|j: int| 0 <= j < r@.len() implies nodes((#[trigger] r@[j])@)
                        == with_key(next, keys_of(next)[j]) by {
                        assert(nodes(rb[j]@) == with_key(part, before[j]));
                        if j == i {
                            assert(nodes(r@[j]@) =~= nodes(rb[j]@).push(node(e)));
                        } else {
                            assert(before[j] != before[i as int]);
                        }
                    }
                },
                None => {
                    let n: usize = r.len();
                    proof {
                        if before.contains(k) {
                            let j = choose|j: int| 0 <= j < before.len() && before[j] == k;
                            assert(places@.contains_key(before[j]));
                        }
                        lemma_no_key(part, k);
                        assert(keys_of(next) == before.push(k));
                    }
                    places.put(e.path.clone(), copy_optional(&e.tag), n);
                    let ghost single = e;
                    let mut list: Vec<Entry> = Vec::new();
                    list.push(e);
                    assert(nodes(list@) =~= seq![node(single)]);
                    assert(with_key(part, k) =~= Seq::empty());
                    assert(with_key(next, k) =~= seq![node(single)]);
                    r.push(list);
                    assert forall|j: int| 0 <= j < r@.len() implies nodes((#[trigger] r@[j])@)
                        == with_key(next, keys_of(next)[j]) by {
                        if j < n {
                            assert(rb[j] == r@[j]);
                            assert(nodes(rb[j]@) == with_key(part, before[j]));
                            assert(before[j] != k);
                        }
                    }
                    assert forall|j: int| 0 <= j < r@.len() implies places@.contains_key(
                        #[trigger] keys_of(next)[j],
                    ) && places@[keys_of(next)[j]] == j by {
                        if j < n {
                            assert(keys_of(next)[j] == before[j]);
                            assert(before[j] != k);
                        }
                    }
                    assert forall|q: Key| #[trigger] places@.contains_key(q) implies places@[q] < r@.len()
                        && keys_of(next)[places@[q] as int] == q by {
                        if q != k {
                            assert(keys_of(next)[places@[q] as int] == before[places@[q] as int]);
                        }
                    }
                },
            }
            proof {
                done = done + 1;
            }
        }
    }
    assert(all.take(done) =~= all);
    r
}

pub proof fn lemma_children_step(s: Seq<Node>, i: int)
    requires
        0 <= i < s.len(),
    ensures
        children(s.take(i + 1)) == children(s.take(i)) + bare(s[i].subtree),
{
    assert(s.take(i + 1).drop_last() =~= s.take(i));
}

/// Fuses entries of one key.
fn fuse_list(list: Vec<Entry>) -> (r: Entry)
    requires
        list@.len() > 0,
        list@.len() > 1 ==> group_fits(nodes(list@)) && fuse_fits(children(nodes(list@))),
    ensures
        node(r) == fuse_group(nodes(list@)),
    decreases census_all(nodes(list@)), 0nat,
{
    let ghost s = nodes(list@);
    let single = list.len() == 1;
    let mut queue = reversed(list);
    assert(nodes(queue@).len() == queue@.len());
    let mut first = Entry::default();
    if let Some(e) = queue.pop() {
        assert(node(e) == s.reverse().last());
        first = e;
    }
    if single {
        return first;
    }
    let mut size: usize = first.size;
    let mut nfiles: usize = first.nfiles;
    let mut subtree: Forest = Vec::new();
    std::mem::swap(&mut subtree, &mut first.subtree);
    let ghost head = first;
    let mut below: Vec<Entry> = entries_of(subtree);
    let ghost mut done: int = 1;
    proof {
        assert(s.take(1).drop_last() =~= Seq::empty());
        lemma_sum_take(s, 0);
        assert(s.take(0) =~= Seq::empty());
        lemma_children_step(s, 0);
        assert(nodes(below@) =~= children(s.take(1)));
        assert forall|j: int| 0 <= j < queue@.len() implies #[trigger] nodes(queue@)[j] == s.skip(
            1,
        ).reverse()[j] by {
            assert(s.reverse()[j] == s[s.len() - 1 - j]);
        }
        assert(nodes(queue@) =~= s.skip(1).reverse());
    }
    while queue.len() > 0
        invariant
            1 <= done,
            done + queue@.len() == s.len(),
            nodes(queue@) == s.skip(done).reverse(),
            sum_size(s) <= usize::MAX,
            sum_nfiles(s) <= usize::MAX,
            size == sum_size(s.take(done)),
            nfiles == sum_nfiles(s.take(done)),
            nodes(below@) == children(s.take(done)),
        decreases queue.len(),
    {
        let ghost qb = queue@;
        let ghost bb = below@;
        if let Some(e) = queue.pop() {
            proof {
                assert(nodes(qb).len() == qb.len());
                assert(node(e) == nodes(qb).last());
                assert(node(e) == s[done]);
                assert forall|j: int| 0 <= j < queue@.len() implies #[trigger] nodes(queue@)[j]
                    == s.skip(done + 1).reverse()[j] by {
                    assert(nodes(queue@)[j] == nodes(qb)[j]);
                    assert(s.skip(done).reverse()[j] == s[s.len() - 1 - j]);
                }
                assert(nodes(queue@) =~= s.skip(done + 1).reverse());
                lemma_sum_take(s, done);
                lemma_sum_take(s, done + 1);
                lemma_children_step(s, done);
            }
            size += e.size;
            nfiles += e.nfiles;
            let mut more = entries_of(e.subtree);
            let ghost added = more@;
            below.append(&mut more);
            proof {
                assert(nodes(below@) =~= nodes(bb) + nodes(added));
                done = done + 1;
            }
        }
    }
    proof {
        assert(s.take(done) =~= s);
        lemma_census_children(s);
    }
    let ghost under = children(s);
    let fused = fuse_entries(below);
    first.size = size;
    first.nfiles = nfiles;
    proof {
        crate::accounting::sort_keeps_sums(fuse(under));
        assert(nodes(fused@).len() == fused@.len());
        lemma_fuse_size(under);
    }
    let empty = fused.len() == 0;
    let sorted = sort_largest(fused);
    proof {
        offsets_keep_entries(nodes(sorted@));
    }
    let laid = cumsum_size(sorted);
    first.leaves = if empty {
        1
    } else {
        total_leaves(laid.as_slice())
    };
    first.subtree = laid;
    assert(node(first) == fuse_group(s));
    first
}

/// The entries of a forest, without their offsets.
fn entries_of(f: Forest) -> (r: Vec<Entry>)
    ensures
        nodes(r@) == bare(forest(f@)),
{
    let mut f = f;
    let ghost whole = f@;
    let mut r: Vec<Entry> = Vec::with_capacity(f.len());
    while f.len() > 0
        invariant
            f@.len() + r@.len() == whole.len(),
            forall|j: int| 0 <= j < f@.len() ==> #[trigger] f@[j] == whole[j],
            forall|j: int| 0 <= j < r@.len() ==> #[trigger] r@[j] == whole[whole.len() - 1 - j].1,
        decreases f.len(),
    {
        if let Some((_, e)) = f.pop() {
            r.push(e);
        }
    }
    let r2 = reversed(r);
    assert(nodes(r2@) =~= bare(forest(whole)));
    r2
}

/// Fuses the entries of a list that have one key.
fn fuse_entries(entries: Vec<Entry>) -> (r: Vec<Entry>)
    requires
        fuse_fits(nodes(entries@)),
    ensures
        nodes(r@) == fuse(nodes(entries@)),
    decreases census_all(nodes(entries@)), 1nat,
{
    let ghost s = nodes(entries@);
    let ghost keys = keys_of(s);
    let mut groups = group_entries(entries);
    let ghost lists = groups@;
    let mut r: Vec<Entry> = Vec::with_capacity(groups.len());
    let ghost n = groups@.len() as int;
    while groups.len() > 0
        invariant
            census_all(s) == census_all(nodes(entries@)),
            fuse_fits(s),
            keys == keys_of(s),
            n == keys.len(),
            lists.len() == n,
            groups@.len() + r@.len() == n,
            groups@ == lists.take(groups@.len() as int),
            forall|i: int|
                0 <= i < n ==> nodes((#[trigger] lists[i])@) == with_key(s, keys[i]),
            forall|i: int|
                0 <= i < r@.len() ==> node(#[trigger] r@[i]) == fuse_group(
                    with_key(s, keys[n - 1 - i]),
                ),
        decreases groups.len(),
    {
        let ghost i = groups@.len() - 1;
        if let Some(list) = groups.pop() {
            proof {
                assert(list == lists[i]);
                assert(nodes(list@) == with_key(s, keys[i]));
                lemma_has_key(s, i);
                lemma_census_with_key(s, keys[i]);
                assert(groups@ =~= lists.take(groups@.len() as int));
                assert(nodes(list@).len() == list@.len());
            }
            r.push(fuse_list(list));
        }
    }
    let out = reversed(r);
    proof {
        lemma_fuse_keys(s, keys);
        assert(nodes(out@) =~= fuse(s)) by {
            assert(nodes(r@).len() == r@.len());
            assert forall|i: int| 0 <= i < n implies #[trigger] nodes(out@)[i] == fuse(s)[i] by {
                assert(nodes(r@)[n - 1 - i] == node(r@[n - 1 - i]));
            }
        }
    }
    out
}

pub proof fn lemma_has_key(s: Seq<Node>, i: int)
    requires
        0 <= i < keys_of(s).len(),
    ensures
        with_key(s, keys_of(s)[i]).len() > 0,
    decreases s.len(),
{
    let before = keys_of(s.drop_last());
    if i < before.len() {
        assert(keys_of(s)[i] == before[i]);
        lemma_has_key(s.drop_last(), i);
    }
}

pub proof fn lemma_fuse_keys(s: Seq<Node>, keys: Seq<Key>)
    ensures
        fuse_keys(s, keys).len() == keys.len(),
        forall|i: int|
            0 <= i < keys.len() ==> #[trigger] fuse_keys(s, keys)[i] == fuse_group(
                with_key(s, keys[i]),
            ),
    decreases keys.len(),
{
    if keys.len() > 0 {
        let d = keys.drop_last();
        lemma_fuse_keys(s, d);
        assert forall|i: int| 0 <= i < keys.len() implies #[trigger] fuse_keys(s, keys)[i]
            == fuse_group(with_key(s, keys[i])) by {
            if i < d.len() {
                assert(fuse_keys(s, d)[i] == fuse_group(with_key(s, d[i])));
            }
        }
    }
}

proof fn lemma_group_counts(s: Seq<Node>)
    requires
        s.len() > 0,
    ensures
        fuse_group(s).size == sum_size(s),
        fuse_group(s).nfiles == sum_nfiles(s),
{
    if s.len() == 1 {
        assert(s =~= seq![s[0]]);
        lemma_sum_one(s[0]);
    }
}

/// The counts of fused entries without those of one entry.
proof fn lemma_drop_one(s: Seq<Node>, keys: Seq<Key>)
    requires
        s.len() > 0,
        keys.no_duplicates(),
    ensures
        keyed_size(s, keys) == keyed_size(s.drop_last(), keys) + if keys.contains(key_of(s.last())) {
            s.last().size
        } else {
            0
        },
        keyed_nfiles(s, keys) == keyed_nfiles(s.drop_last(), keys) + if keys.contains(
            key_of(s.last()),
        ) {
            s.last().nfiles
        } else {
            0
        },
    decreases keys.len(),
{
    let k = key_of(s.last());
    if keys.len() > 0 {
        let d = keys.drop_last();
        lemma_drop_one(s, d);
        lemma_sum_push(with_key(s.drop_last(), k), s.last());
        if d.contains(k) {
            let i = choose|i: int| 0 <= i < d.len() && d[i] == k;
            assert(keys[i] == k);
            assert(keys[i] != keys[keys.len() - 1]);
        }
        if keys.contains(k) {
            let i = choose|i: int| 0 <= i < keys.len() && keys[i] == k;
            if i < d.len() {
                assert(d[i] == k);
            }
        } else {
            assert(keys[keys.len() - 1] != k);
        }
    }
}

/// The summed size of the entries of a list that have one of the keys.
spec fn keyed_size(s: Seq<Node>, keys: Seq<Key>) -> nat
    decreases keys.len(),
{
    if keys.len() == 0 {
        0
    } else {
        keyed_size(s, keys.drop_last()) + sum_size(with_key(s, keys.last()))
    }
}

/// The summed number of files of the entries of a list that have one of the
/// keys.
spec fn keyed_nfiles(s: Seq<Node>, keys: Seq<Key>) -> nat
    decreases keys.len(),
{
    if keys.len() == 0 {
        0
    } else {
        keyed_nfiles(s, keys.drop_last()) + sum_nfiles(with_key(s, keys.last()))
    }
}

proof fn lemma_keyed_all(s: Seq<Node>, keys: Seq<Key>)
    requires
        keys.no_duplicates(),
        forall|i: int| 0 <= i < s.len() ==> keys.contains(key_of(#[trigger] s[i])),
    ensures
        keyed_size(s, keys) == sum_size(s),
        keyed_nfiles(s, keys) == sum_nfiles(s),
    decreases s.len(),
{
    if s.len() == 0 {
        lemma_keyed_none(s, keys);
    } else {
        assert(keys.contains(key_of(s[s.len() - 1])));
        assert forall|i: int| 0 <= i < s.drop_last().len() implies keys.contains(
            key_of(#[trigger] s.drop_last()[i]),
        ) by {
            assert(keys.contains(key_of(s[i])));
        }
        lemma_keyed_all(s.drop_last(), keys);
        lemma_drop_one(s, keys);
    }
}

proof fn lemma_keyed_none(s: Seq<Node>, keys: Seq<Key>)
    requires
        s.len() == 0,
    ensures
        keyed_size(s, keys) == 0,
        keyed_nfiles(s, keys) == 0,
    decreases keys.len(),
{
    if keys.len() > 0 {
        lemma_keyed_none(s, keys.drop_last());
    }
}

pub proof fn lemma_all_keys(s: Seq<Node>)
    ensures
        forall|i: int| 0 <= i < s.len() ==> keys_of(s).contains(key_of(#[trigger] s[i])),
    decreases s.len(),
{
    if s.len() > 0 {
        let d = s.drop_last();
        lemma_all_keys(d);
        let before = keys_of(d);
        assert forall|i: int| 0 <= i < s.len() implies keys_of(s).contains(key_of(#[trigger] s[i])) by {
            let k = key_of(s[i]);
            if i < d.len() {
                assert(before.contains(key_of(d[i])));
            } else if !before.contains(k) {
                assert(keys_of(s)[before.len() as int] == k);
            }
            if before.contains(k) {
                let j = choose|j: int| 0 <= j < before.len() && before[j] == k;
                assert(keys_of(s)[j] == k);
            }
        }
    }
}

proof fn lemma_fuse_keys_sums(s: Seq<Node>, keys: Seq<Key>)
    requires
        forall|i: int| 0 <= i < keys.len() ==> with_key(s, #[trigger] keys[i]).len() > 0,
    ensures
        sum_size(fuse_keys(s, keys)) == keyed_size(s, keys),
        sum_nfiles(fuse_keys(s, keys)) == keyed_nfiles(s, keys),
    decreases keys.len(),
{
    if keys.len() > 0 {
        let d = keys.drop_last();
        assert forall|i: int| 0 <= i < d.len() implies with_key(s, #[trigger] d[i]).len() > 0 by {
            assert(with_key(s, keys[i]).len() > 0);
        }
        lemma_fuse_keys_sums(s, d);
        assert(with_key(s, keys[keys.len() - 1]).len() > 0);
        lemma_group_counts(with_key(s, keys.last()));
        lemma_sum_push(fuse_keys(s, d), fuse_group(with_key(s, keys.last())));
    }
}

/// Fusing changes no total.
pub proof fn lemma_fuse_size(s: Seq<Node>)
    ensures
        sum_size(fuse(s)) == sum_size(s),
        sum_nfiles(fuse(s)) == sum_nfiles(s),
{
    let keys = keys_of(s);
    assert forall|i: int| 0 <= i < keys.len() implies with_key(s, #[trigger] keys[i]).len() > 0 by {
        lemma_has_key(s, i);
    }
    lemma_fuse_keys_sums(s, keys);
    keys_distinct(s);
    lemma_all_keys(s);
    lemma_keyed_all(s, keys);
}

/// Combine subtrees of two entries with the same path & tag
pub fn merge_entries(left: Entry, right: Entry) -> (r: Entry)
    requires
        left.path@ == right.path@,
        bytes_view(left.tag) == bytes_view(right.tag),
        group_fits(seq![node(left), node(right)]),
        fuse_fits(children(seq![node(left), node(right)])),
    ensures
        node(r) == fuse_group(seq![node(left), node(right)]),
{
    let ghost pair = seq![node(left), node(right)];
    let mut list: Vec<Entry> = Vec::with_capacity(2);
    list.push(left);
    list.push(right);
    assert(nodes(list@) =~= pair);
    fuse_list(list)
}

/// Combines two forests: entries with the same path and tag become one.
pub fn merge_forests(left: Forest, right: Forest) -> (r: Forest)
    requires
        fuse_fits(bare(forest(left@)) + bare(forest(right@))),
    ensures
        forest(r@) == merged(forest(left@), forest(right@)),
{
    let ghost s = bare(forest(left@)) + bare(forest(right@));
    let mut all = entries_of(left);
    let ghost first = all@;
    let mut more = entries_of(right);
    let ghost second = more@;
    all.append(&mut more);
    assert(nodes(all@) =~= nodes(first) + nodes(second));
    proof {
        lemma_fuse_size(s);
        crate::accounting::sort_keeps_sums(fuse(s));
    }
    cumsum_size(sort_largest(fuse_entries(all)))
}

/// Merging conserves size and number of files.
pub proof fn merge_conserves(a: Seq<(nat, Node)>, b: Seq<(nat, Node)>)
    ensures
        sum_size(bare(merged(a, b))) == sum_size(bare(a)) + sum_size(bare(b)),
        sum_nfiles(bare(merged(a, b))) == sum_nfiles(bare(a)) + sum_nfiles(bare(b)),
{
    let s = bare(a) + bare(b);
    lemma_fuse_size(s);
    crate::accounting::sort_keeps_sums(fuse(s));
    offsets_keep_entries(sort_nodes(fuse(s)));
    lemma_sum_add(bare(a), bare(b));
}

} // verus!
