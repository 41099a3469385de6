//! Entries grouped by extension.
use vstd::prelude::*;
use crate::entry::{bare, blank, lemma_sum_push, node, nodes, sum_leaves, sum_nfiles, sum_size, Entry, Node};
use crate::growth::{total_leaves, total_nfiles, total_size};
use crate::lineage::byte_strings;
use crate::path::{copy_bytes, parse_path, same_bytes, PathBuf, PathView};
use crate::siblings::{cumsum_size, offsets, offsets_keep_entries, reversed, sort_largest, sort_nodes};
use crate::text::{lossy_text, utf8_lossy};

verus! {

/// The kind of an entry: its extension, or else its name, or nothing.
pub open spec fn kind_of(p: PathView) -> Seq<u8> {
    match p.extension() {
        Some(ext) => ext,
        None => match p.file_name() {
            Some(name) => name,
            None => Seq::empty(),
        },
    }
}

/// The kinds of entries, each once, in the order of first use.
pub open spec fn kinds_of(s: Seq<Node>) -> Seq<Seq<u8>>
    decreases s.len(),
{
    if s.len() == 0 {
        Seq::empty()
    } else {
        let before = kinds_of(s.drop_last());
        if before.contains(kind_of(s.last().path)) {
            before
        } else {
            before.push(kind_of(s.last().path))
        }
    }
}

/// The entries of a kind.
pub open spec fn of_kind(s: Seq<Node>, kind: Seq<u8>) -> Seq<Node>
    decreases s.len(),
{
    if s.len() == 0 {
        Seq::empty()
    } else if kind_of(s.last().path) == kind {
        of_kind(s.drop_last(), kind).push(s.last())
    } else {
        of_kind(s.drop_last(), kind)
    }
}

/// Entries of a kind under one: a single entry stays as it is.
pub open spec fn kind_group(kind: Seq<u8>, s: Seq<Node>) -> Node {
    if s.len() == 1 {
        s[0]
    } else {
        Node {
            size: sum_size(s),
            nfiles: sum_nfiles(s),
            leaves: sum_leaves(s),
            subtree: offsets(s),
            color: s[0].color,
            is_group: true,
            ..blank(parse_path(vstd::utf8::encode_utf8("*."@ + utf8_lossy(kind))))
        }
    }
}

/// For each kind its entries under one.
pub open spec fn kind_groups(s: Seq<Node>) -> Seq<Node> {
    kinds_of(s).map_values(|kind: Seq<u8>| kind_group(kind, of_kind(s, kind)))
}

fn exec_kind(p: &PathBuf) -> (r: Vec<u8>)
    ensures
        r@ == kind_of(p@),
{
    match p.extension() {
        Some(ext) => ext,
        None => match p.file_name() {
            Some(name) => copy_bytes(name),
            None => {
                let none: Vec<u8> = Vec::new();
                assert(none@ =~= Seq::empty());
                none
            },
        },
    }
}

fn position_of(kinds: &Vec<Vec<u8>>, kind: &Vec<u8>) -> (r: Option<usize>)
    ensures
        match r {
            Some(i) => i < kinds@.len() && kinds@[i as int]@ == kind@,
            None => !byte_strings(kinds@).contains(kind@),
        },
{
    let mut i: usize = 0;
    while i < kinds.len()
        invariant
            i <= kinds@.len(),
            forall|j: int| 0 <= j < i ==> (#[trigger] kinds@[j])@ != kind@,
        decreases kinds.len() - i,
    {
        if same_bytes(kinds[i].as_slice(), kind.as_slice()) {
            return Some(i);
        }
        i += 1;
    }
    assert forall|j: int| 0 <= j < kinds@.len() implies byte_strings(kinds@)[j] != kind@ by {
        assert(kinds@[j]@ != kind@);
    }
    None
}

proof fn lemma_kinds_distinct(s: Seq<Node>)
    ensures
        kinds_of(s).no_duplicates(),
        forall|i: int| 0 <= i < kinds_of(s).len() ==> of_kind(s, #[trigger] kinds_of(s)[i]).len() > 0,
    decreases s.len(),
{
    if s.len() > 0 {
        let d = s.drop_last();
        lemma_kinds_distinct(d);
        assert forall|i: int| 0 <= i < kinds_of(s).len() implies of_kind(s, #[trigger] kinds_of(s)[i]).len()
            > 0 by {
            if i < kinds_of(d).len() {
                assert(kinds_of(s)[i] == kinds_of(d)[i]);
            }
        }
    }
}

proof fn lemma_no_kind(s: Seq<Node>, kind: Seq<u8>)
    requires
        !kinds_of(s).contains(kind),
    ensures
        of_kind(s, kind).len() == 0,
    decreases s.len(),
{
    if s.len() > 0 {
        let before = kinds_of(s.drop_last());
        if before.contains(kind) {
            let i = choose|i: int| 0 <= i < before.len() && before[i] == kind;
            assert(kinds_of(s)[i] == kind);
        }
        if kind_of(s.last().path) == kind && !before.contains(kind) {
            assert(kinds_of(s)[before.len() as int] == kind);
        }
        lemma_no_kind(s.drop_last(), kind);
    }
}

proof fn lemma_of_kind_sums(s: Seq<Node>, kind: Seq<u8>)
    ensures
        sum_size(of_kind(s, kind)) <= sum_size(s),
        sum_nfiles(of_kind(s, kind)) <= sum_nfiles(s),
        sum_leaves(of_kind(s, kind)) <= sum_leaves(s),
    decreases s.len(),
{
    if s.len() > 0 {
        lemma_of_kind_sums(s.drop_last(), kind);
        lemma_sum_push(of_kind(s.drop_last(), kind), s.last());
    }
}

/// Sorts entries into lists of one kind each.
fn split_kinds(entries: Vec<Entry>) -> (r: (Vec<Vec<u8>>, Vec<Vec<Entry>>))
    ensures
        byte_strings(r.0@) == kinds_of(nodes(entries@)),
        r.1@.len() == r.0@.len(),
        forall|i: int|
            0 <= i < r.1@.len() ==> nodes((#[trigger] r.1@[i])@) == of_kind(
                nodes(entries@),
                kinds_of(nodes(entries@))[i],
            ),
{
    let ghost all = nodes(entries@);
    let mut queue = reversed(entries);
    let mut kinds: Vec<Vec<u8>> = Vec::new();
    let mut lists: Vec<Vec<Entry>> = Vec::new();
    let ghost mut done: int = 0;
    proof {
        assert(nodes(queue@).len() == queue@.len());
        assert(all.take(0) =~= Seq::empty());
        assert(byte_strings(kinds@) =~= Seq::empty());
    }
    while queue.len() > 0
        invariant
            0 <= done,
            done + queue@.len() == all.len(),
            nodes(queue@) == all.skip(done).reverse(),
            byte_strings(kinds@) == kinds_of(all.take(done)),
            lists@.len() == kinds@.len(),
            forall|i: int|
                0 <= i < lists@.len() ==> nodes((#[trigger] lists@[i])@) == of_kind(
                    all.take(done),
                    kinds_of(all.take(done))[i],
                ),
        decreases queue.len(),
    {
        let ghost qb = queue@;
        let ghost part = all.take(done);
        let ghost next = all.take(done + 1);
        let ghost before = kinds_of(part);
        let ghost lb = lists@;
        let ghost kb = kinds@;
        if let Some(e) = queue.pop() {
            proof {
                assert(nodes(qb).len() == qb.len());
                assert(node(e) == nodes(qb).last());
                assert(node(e) == all[done]);
                assert(next.drop_last() =~= part);
                assert(next.last() == node(e));
                assert forall|j: int| 0 <= j < queue@.len() implies #[trigger] nodes(queue@)[j]
                    == all.skip(done + 1).reverse()[j] by {
                    assert(nodes(queue@)[j] == nodes(qb)[j]);
                    assert(all.skip(done).reverse()[j] == all[all.len() - 1 - j]);
                }
                assert(nodes(queue@) =~= all.skip(done + 1).reverse());
                lemma_kinds_distinct(part);
                lemma_kinds_distinct(next);
                assert(before.len() == kb.len());
            }
            let kind = exec_kind(&e.path);
            match position_of(&kinds, &kind) {
                Some(i) => {
                    assert(before[i as int] == kind@);
                    lists[i].push(e);
                    assert forall|j: int| 0 <= j < lists@.len() implies nodes((#[trigger] lists@[j])@)
                        == of_kind(next, kinds_of(next)[j]) by {
                        assert(nodes(lb[j]@) == of_kind(part, before[j]));
                        if j == i {
                            assert(nodes(lists@[j]@) =~= nodes(lb[j]@).push(node(e)));
                        } else {
                            assert(before[j] != before[i as int]);
                        }
                    }
                },
                None => {
                    let ghost k = kind@;
                    let ghost n = lists@.len();
                    proof {
                        lemma_no_kind(part, k);
                        assert(kinds_of(next) == before.push(k));
                    }
                    kinds.push(kind);
                    assert(byte_strings(kinds@) =~= before.push(k));
                    let ghost single = e;
                    let mut list: Vec<Entry> = Vec::new();
                    list.push(e);
                    assert(nodes(list@) =~= seq![node(single)]);
                    assert(of_kind(part, k) =~= Seq::empty());
                    assert(of_kind(next, k) =~= seq![node(single)]);
                    lists.push(list);
                    assert forall|j: int| 0 <= j < lists@.len() implies nodes((#[trigger] lists@[j])@)
                        == of_kind(next, kinds_of(next)[j]) by {
                        if j < n {
                            assert(lb[j] == lists@[j]);
                            assert(nodes(lb[j]@) == of_kind(part, before[j]));
                            assert(before[j] != k);
                        }
                    }
                },
            }
            proof {
                done = done + 1;
            }
        }
    }
    assert(all.take(done) =~= all);
    (kinds, lists)
}

/// Puts entries of a kind under one.
fn make_kind_group(kind: &Vec<u8>, list: Vec<Entry>) -> (r: Entry)
    requires
        list@.len() > 0,
        sum_size(nodes(list@)) <= usize::MAX,
        sum_nfiles(nodes(list@)) <= usize::MAX,
        sum_leaves(nodes(list@)) <= usize::MAX,
    ensures
        node(r) == kind_group(kind@, nodes(list@)),
{
    let ghost s = nodes(list@);
    let mut list = list;
    assert(s.len() == list@.len());
    if list.len() == 1 {
        if let Some(e) = list.pop() {
            return e;
        }
    }
    assert(nodes(list@) == s);
    let color = list[0].color.clone();
    let text = lossy_text(kind.as_slice());
    let label = "*.".to_owned().concat(text.as_str());
    let subtree = cumsum_size(list);
    proof {
        offsets_keep_entries(s);
    }
    let mut r = Entry::bare(PathBuf::from_text(label.as_str()));
    r.size = total_size(subtree.as_slice());
    r.nfiles = total_nfiles(subtree.as_slice());
    r.leaves = total_leaves(subtree.as_slice());
    r.subtree = subtree;
    r.color = color;
    r.is_group = true;
    r
}

/// Groups entries by extension, or by name where there is none.
pub fn regroup(entries: Vec<Entry>) -> (r: Vec<Entry>)
    requires
        sum_size(nodes(entries@)) <= usize::MAX,
        sum_nfiles(nodes(entries@)) <= usize::MAX,
        sum_leaves(nodes(entries@)) <= usize::MAX,
    ensures
        nodes(r@) == sort_nodes(kind_groups(nodes(entries@))),
{
    let ghost s = nodes(entries@);
    let ghost names = kinds_of(s);
    let (kinds, lists) = split_kinds(entries);
    let ghost whole = lists@;
    let mut kinds = kinds;
    let mut lists = lists;
    let ghost kinds_all = kinds@;
    let ghost n = lists@.len() as int;
    let mut r: Vec<Entry> = Vec::with_capacity(lists.len());
    proof {
        lemma_kinds_distinct(s);
        assert(names.len() == n);
    }
    while lists.len() > 0
        invariant
            sum_size(s) <= usize::MAX,
            sum_nfiles(s) <= usize::MAX,
            sum_leaves(s) <= usize::MAX,
            names == kinds_of(s),
            names.len() == n,
            n == whole.len(),
            byte_strings(kinds_all) == names,
            lists@.len() == kinds@.len(),
            lists@.len() + r@.len() == n,
            lists@ == whole.take(lists@.len() as int),
            kinds@ == kinds_all.take(kinds@.len() as int),
            forall|i: int| 0 <= i < n ==> nodes((#[trigger] whole[i])@) == of_kind(s, names[i]),
            forall|i: int| 0 <= i < n ==> of_kind(s, #[trigger] names[i]).len() > 0,
            forall|i: int|
                0 <= i < r@.len() ==> node(#[trigger] r@[i]) == kind_group(
                    names[n - 1 - i],
                    of_kind(s, names[n - 1 - i]),
                ),
        decreases lists.len(),
    {
        let ghost i = lists@.len() - 1;
        if let (Some(kind), Some(list)) = (kinds.pop(), lists.pop()) {
            proof {
                assert(list == whole[i]);
                assert(kind == kinds_all[i]);
                assert(kind@ == byte_strings(kinds_all)[i]);
                assert(nodes(list@) == of_kind(s, names[i]));
                assert(nodes(list@).len() == list@.len());
                lemma_of_kind_sums(s, names[i]);
                assert(lists@ =~= whole.take(lists@.len() as int));
                assert(kinds@ =~= kinds_all.take(kinds@.len() as int));
            }
            r.push(make_kind_group(&kind, list));
        }
    }
    let out = reversed(r);
    proof {
        assert(nodes(r@).len() == r@.len());
        assert(nodes(out@) =~= kind_groups(s)) by {
            assert forall|i: int| 0 <= i < n implies #[trigger] nodes(out@)[i] == kind_groups(s)[i] by {
                assert(nodes(r@)[n - 1 - i] == node(r@[n - 1 - i]));
            }
        }
    }
    sort_largest(out)
}

proof fn lemma_kinds(s: Seq<Node>)
    ensures
        kinds_of(s).no_duplicates(),
        forall|i: int| 0 <= i < s.len() ==> kinds_of(s).contains(kind_of((#[trigger] s[i]).path)),
        forall|k: int|
            0 <= k < kinds_of(s).len() ==> exists|i: int|
                0 <= i < s.len() && kind_of((#[trigger] s[i]).path) == #[trigger] kinds_of(s)[k],
    decreases s.len(),
{
    if s.len() > 0 {
        let d = s.drop_last();
        let kind = kind_of(s.last().path);
        let before = kinds_of(d);
        let after = kinds_of(s);
        lemma_kinds(d);
        assert forall|i: int| 0 <= i < s.len() implies after.contains(kind_of((#[trigger] s[i]).path)) by {
            if i < d.len() {
                assert(before.contains(kind_of(d[i].path)));
                let j = choose|j: int| 0 <= j < before.len() && before[j] == kind_of(d[i].path);
                assert(after[j] == kind_of(d[i].path));
            } else if !before.contains(kind) {
                assert(after[before.len() as int] == kind);
            }
        }
        assert forall|k: int| 0 <= k < after.len() implies exists|i: int|
            0 <= i < s.len() && kind_of((#[trigger] s[i]).path) == #[trigger] after[k] by {
            if k < before.len() {
                assert(after[k] == before[k]);
                let i = choose|i: int| 0 <= i < d.len() && kind_of((#[trigger] d[i]).path) == before[k];
                assert(s[i] == d[i]);
            } else {
                assert(kind_of(s[s.len() - 1].path) == after[k]);
            }
        }
        if !before.contains(kind) {
            assert(after.no_duplicates());
        }
    }
}

proof fn lemma_of_kind(s: Seq<Node>, kind: Seq<u8>)
    ensures
        forall|i: int| 0 <= i < of_kind(s, kind).len() ==> kind_of((#[trigger] of_kind(s, kind)[i]).path) == kind,
        forall|i: int|
            0 <= i < s.len() && kind_of((#[trigger] s[i]).path) == kind ==> of_kind(s, kind).contains(s[i]),
    decreases s.len(),
{
    if s.len() > 0 {
        let d = s.drop_last();
        lemma_of_kind(d, kind);
        let before = of_kind(d, kind);
        let after = of_kind(s, kind);
        assert forall|i: int| 0 <= i < s.len() && kind_of((#[trigger] s[i]).path) == kind implies after.contains(s[i]) by {
            if i < d.len() {
                assert(before.contains(d[i]));
                let j = choose|j: int| 0 <= j < before.len() && before[j] == d[i];
                assert(after[j] == d[i]);
            } else {
                assert(after[before.len() as int] == s[i]);
            }
        }
    }
}

proof fn lemma_sum_replaced(s: Seq<Node>, i: int, n: Node)
    requires
        0 <= i < s.len(),
    ensures
        sum_size(s.update(i, n)) + s[i].size == sum_size(s) + n.size,
        sum_nfiles(s.update(i, n)) + s[i].nfiles == sum_nfiles(s) + n.nfiles,
        sum_leaves(s.update(i, n)) + s[i].leaves == sum_leaves(s) + n.leaves,
    decreases s.len(),
{
    let u = s.update(i, n);
    if i == s.len() - 1 {
        assert(u.drop_last() =~= s.drop_last());
    } else {
        lemma_sum_replaced(s.drop_last(), i, n);
        assert(u.drop_last() =~= s.drop_last().update(i, n));
        assert(u.last() == s.last());
    }
}

proof fn lemma_group_counts(kind: Seq<u8>, s: Seq<Node>)
    requires
        s.len() > 0,
    ensures
        kind_group(kind, s).size == sum_size(s),
        kind_group(kind, s).nfiles == sum_nfiles(s),
        kind_group(kind, s).leaves == sum_leaves(s),
{
    if s.len() == 1 {
        assert(s.drop_last() =~= Seq::empty());
        assert(sum_size(s.drop_last()) == 0 && sum_nfiles(s.drop_last()) == 0 && sum_leaves(s.drop_last()) == 0);
    }
}

/// The groups of entries count together what the entries count.
pub proof fn groups_conserve(s: Seq<Node>)
    ensures
        sum_size(kind_groups(s)) == sum_size(s),
        sum_nfiles(kind_groups(s)) == sum_nfiles(s),
        sum_leaves(kind_groups(s)) == sum_leaves(s),
    decreases s.len(),
{
    let g = kind_groups(s);
    if s.len() == 0 {
        assert(g.len() == 0);
    } else {
        let d = s.drop_last();
        let x = s.last();
        let kind = kind_of(x.path);
        let before = kinds_of(d);
        let h = kind_groups(d);
        groups_conserve(d);
        lemma_kinds(d);
        if before.contains(kind) {
            let j = choose|j: int| 0 <= j < before.len() && before[j] == kind;
            assert(g =~= h.update(j, g[j])) by {
                assert forall|i: int| 0 <= i < g.len() && i != j implies g[i] == h[i] by {
                    assert(before[i] != kind);
                    assert(of_kind(s, before[i]) == of_kind(d, before[i]));
                }
            }
            lemma_sum_replaced(h, j, g[j]);
            let old = of_kind(d, kind);
            assert(old.len() > 0) by {
                let i = choose|i: int| 0 <= i < d.len() && kind_of((#[trigger] d[i]).path) == before[j];
                lemma_of_kind(d, kind);
                assert(old.contains(d[i]));
            }
            assert(of_kind(s, kind) == old.push(x));
            lemma_group_counts(kind, old);
            lemma_group_counts(kind, old.push(x));
            assert(old.push(x).drop_last() =~= old);
            assert(h[j] == kind_group(kind, old));
            assert(g[j] == kind_group(kind, old.push(x)));
        } else {
            assert(of_kind(d, kind).len() == 0) by {
                lemma_of_kind(d, kind);
                if of_kind(d, kind).len() > 0 {
                    lemma_of_kind_from(d, kind, 0);
                }
            }
            let own = of_kind(s, kind);
            assert(own =~= seq![x]);
            assert(kinds_of(s) == before.push(kind));
            assert(g =~= h.push(kind_group(kind, own))) by {
                assert forall|i: int| 0 <= i < h.len() implies g[i] == h[i] by {
                    assert(kinds_of(s)[i] == before[i]);
                    assert(before.contains(before[i]));
                    assert(of_kind(s, before[i]) == of_kind(d, before[i]));
                }
            }
            assert(g.drop_last() =~= h);
            assert(g.last() == x);
        }
    }
}

/// What is of a kind is one of the entries.
proof fn lemma_of_kind_from(s: Seq<Node>, kind: Seq<u8>, i: int)
    requires
        0 <= i < of_kind(s, kind).len(),
    ensures
        s.contains(of_kind(s, kind)[i]),
        kinds_of(s).contains(kind),
    decreases s.len(),
{
    lemma_kinds(s);
    if s.len() > 0 {
        let d = s.drop_last();
        let before = of_kind(d, kind);
        if i < before.len() {
            assert(of_kind(s, kind)[i] == before[i]);
            lemma_of_kind_from(d, kind, i);
            let j = choose|j: int| 0 <= j < d.len() && d[j] == before[i];
            assert(s[j] == before[i]);
            lemma_of_kind(d, kind);
            assert(kind_of(s[j].path) == kind);
        } else {
            assert(of_kind(s, kind)[i] == s[s.len() - 1]);
            assert(kind_of(s[s.len() - 1].path) == kind);
        }
    }
}

/// There is one group for each kind of entry: the entries of the kind, and no
/// others, are in it. An entry that is alone of its kind stays as it is.
pub proof fn groups_go_by_kind(s: Seq<Node>, i: int)
    requires
        0 <= i < s.len(),
    ensures
        ({
            let kind = kind_of(s[i].path);
            let own = of_kind(s, kind);
            &&& kinds_of(s).no_duplicates()
            &&& kind_groups(s).contains(kind_group(kind, own))
            &&& kind_groups(s).len() == kinds_of(s).len()
            &&& own.contains(s[i])
            &&& forall|j: int| 0 <= j < own.len() ==> kind_of((#[trigger] own[j]).path) == kind
            &&& own.len() == 1 ==> kind_group(kind, own) == s[i]
            &&& own.len() > 1 ==> kind_group(kind, own).is_group && bare(kind_group(kind, own).subtree) == own
        }),
{
    let kind = kind_of(s[i].path);
    let own = of_kind(s, kind);
    lemma_kinds(s);
    lemma_of_kind(s, kind);
    let k = choose|k: int| 0 <= k < kinds_of(s).len() && kinds_of(s)[k] == kind;
    assert(kind_groups(s)[k] == kind_group(kind, own));
    offsets_keep_entries(own);
}

/// The kind of an entry is its extension. One without an extension is of its own
/// kind, that of its name.
pub proof fn kinds_are_extensions(p: PathView)
    ensures
        p.extension() matches Some(ext) ==> kind_of(p) == ext,
        p.extension() is None && p.file_name() is Some ==> kind_of(p) == p.file_name()->0,
{
}

} // verus!
