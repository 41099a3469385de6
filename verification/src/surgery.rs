//! Finding, removing and re-laying entries of a forest.
use vstd::prelude::*;
use crate::entry::{
    bare, forest, lemma_sum_add, lemma_sum_push, lemma_sum_take, node, sum_leaves, sum_nfiles, sum_size,
    Either, Entry, Forest, Node, StackAddr, TreeSlice,
};
use crate::ids::{has_id, in_order, index_of_id, ordered, rising};
use crate::path::{same_bytes, PathBuf, PathView};

verus! {

broadcast use crate::ids::lemma_index_of_id;

/// The forest with every offset the summed size of the siblings before.
pub open spec fn relaid(f: Seq<(nat, Node)>) -> Seq<(nat, Node)>
    decreases f,
{
    Seq::new(
        f.len(),
        |i: int|
            if 0 <= i < f.len() {
                (
                    sum_size(bare(f).take(i)),
                    Node { subtree: relaid(f[i].1.subtree), ..f[i].1 },
                )
            } else {
                arbitrary()
            },
    )
}

/// The summed sizes of siblings fit in a machine word, at every level.
pub open spec fn sizes_fit(f: Seq<(nat, Node)>) -> bool
    decreases f,
{
    &&& sum_size(bare(f)) <= usize::MAX
    &&& forall|i: int| 0 <= i < f.len() ==> sizes_fit((#[trigger] f[i]).1.subtree)
}

/// Recursively recalculates cumulative size start offsets (`start`) for all entries in a `Forest`.
///
/// After pruning or removing an entry from a level, this function updates each entry's `start`
/// offset to match the new running sum of preceding sibling sizes.
pub fn recumsum_forest(f: &mut Forest)
    requires
        sizes_fit(forest(old(f)@)),
    ensures
        forest(final(f)@) == relaid(forest(old(f)@)),
    decreases *old(f),
{
    let ghost fo = *f;
    let ghost before = forest(fo@);
    let ghost s = bare(before);
    let ghost goal = relaid(before);
    let mut acc: usize = 0;
    let mut i: usize = 0;
    assert(s.take(0) =~= Seq::empty());
    while i < f.len()
        invariant
            fo == *old(f),
            before == forest(fo@),
            s == bare(before),
            goal == relaid(before),
            sizes_fit(before),
            i <= f@.len(),
            f@.len() == fo@.len(),
            acc == sum_size(s.take(i as int)),
            forall|j: int| i <= j < f@.len() ==> #[trigger] f@[j] == fo@[j],
            forall|j: int| 0 <= j < i ==> #[trigger] forest(f@)[j] == goal[j],
        decreases f.len() - i,
    {
        let ghost now = f@;
        assert(f@[i as int] == fo@[i as int]);
        assert(before[i as int].1.subtree == forest(fo@[i as int].1.subtree@));
        assert(sizes_fit(before[i as int].1.subtree));
        assert(decreases_to!(fo => fo@[i as int].1.subtree));
        f[i].0 = acc;
        recumsum_forest(&mut f[i].1.subtree);
        proof {
            lemma_sum_take(s, i as int);
            lemma_sum_take(s, i + 1);
            assert(s[i as int] == node(fo@[i as int].1));
        }
        acc += f[i].1.size;
        assert forall|j: int| 0 <= j < i + 1 implies #[trigger] forest(f@)[j] == goal[j] by {
            if j < i {
                assert(f@[j] == now[j]);
                assert(forest(now)[j] == goal[j]);
            }
        }
        i += 1;
    }
    assert(forest(f@) =~= goal);
}

/// Looks for an id among siblings, by halves. What is found has the id; where
/// ids never fall, an id that is there is found where it comes first.
pub fn find_id(level: TreeSlice, id: usize) -> (r: Option<usize>)
    ensures
        r matches Some(i) ==> i < level@.len() && level@[i as int].0 == id,
        rising(forest(level@)) ==> (r is Some <==> has_id(forest(level@), id as nat)),
        rising(forest(level@)) ==> (r matches Some(i) ==> i == index_of_id(forest(level@), id as nat)),
{
    let ghost f = forest(level@);
    let mut low: usize = 0;
    let mut high: usize = level.len();
    while low < high
        invariant
            f == forest(level@),
            low <= high <= level@.len(),
            rising(f) ==> forall|j: int| 0 <= j < low ==> (#[trigger] f[j]).0 < id,
            rising(f) ==> forall|j: int| high <= j < f.len() ==> (#[trigger] f[j]).0 >= id,
        decreases high - low,
    {
        let mid: usize = low + (high - low) / 2;
        let at: usize = level[mid].0;
        assert(f[mid as int].0 == at);
        if at < id {
            low = mid + 1;
        } else {
            high = mid;
        }
    }
    if low < level.len() && level[low].0 == id {
        proof {
            assert(f[low as int].0 == id);
            assert(has_id(f, id as nat));
            if rising(f) {
                let c = index_of_id(f, id as nat);
                assert(f[c].0 == id);
            }
        }
        return Some(low);
    }
    proof {
        if rising(f) && has_id(f, id as nat) {
            let c = index_of_id(f, id as nat);
            assert(f[c].0 == id);
            assert(f[low as int].0 >= id);
        }
    }
    None
}

/// What is left of a forest without the entry at an address, and that entry.
/// An address is followed as far as it goes; the counts of the entries above
/// the one that leaves go down by its counts.
pub open spec fn pruned(f: Seq<(nat, Node)>, addr: Seq<usize>) -> Option<(Seq<(nat, Node)>, Node)>
    decreases addr.len(),
{
    if addr.len() == 0 || !has_id(f, addr[0] as nat) {
        None
    } else {
        let i = index_of_id(f, addr[0] as nat);
        match pruned(f[i].1.subtree, addr.skip(1)) {
            None => Some((f.remove(i), f[i].1)),
            Some((rest, gone)) => Some(
                (
                    f.update(
                        i,
                        (
                            f[i].0,
                            Node {
                                size: (f[i].1.size - gone.size) as nat,
                                nfiles: (f[i].1.nfiles - gone.nfiles) as nat,
                                leaves: (f[i].1.leaves - gone.leaves) as nat,
                                subtree: rest,
                                ..f[i].1
                            },
                        ),
                    ),
                    gone,
                ),
            ),
        }
    }
}

/// No entry counts less than one below it.
pub open spec fn covers(f: Seq<(nat, Node)>) -> bool
    decreases f,
{
    forall|i: int|
        0 <= i < f.len() ==> {
            &&& covers((#[trigger] f[i]).1.subtree)
            &&& forall|j: int|
                0 <= j < f[i].1.subtree.len() ==> f[i].1.size >= (#[trigger] f[i].1.subtree[j]).1.size
                    && f[i].1.nfiles >= f[i].1.subtree[j].1.nfiles && f[i].1.leaves
                    >= f[i].1.subtree[j].1.leaves
        }
}

pub proof fn lemma_covered(f: Seq<(nat, Node)>, addr: Seq<usize>)
    requires
        covers(f),
        pruned(f, addr) is Some,
    ensures
        ({
            let i = index_of_id(f, addr[0] as nat);
            let gone = (pruned(f, addr)->0).1;
            f[i].1.size >= gone.size && f[i].1.nfiles >= gone.nfiles && f[i].1.leaves >= gone.leaves
        }),
    decreases addr.len(),
{
    let i = index_of_id(f, addr[0] as nat);
    assert(covers(f[i].1.subtree));
    if let Some((rest, gone)) = pruned(f[i].1.subtree, addr.skip(1)) {
        lemma_covered(f[i].1.subtree, addr.skip(1));
        let j = index_of_id(f[i].1.subtree, addr.skip(1)[0] as nat);
        assert(f[i].1.size >= f[i].1.subtree[j].1.size);
    }
}

/// Whether the entries above the one at an address count at least what it does,
/// so that it can be taken out.
pub open spec fn can_lose(f: Seq<(nat, Node)>, addr: Seq<usize>) -> bool
    decreases addr.len(),
{
    addr.len() > 0 && has_id(f, addr[0] as nat) ==> {
        let n = f[index_of_id(f, addr[0] as nat)].1;
        &&& can_lose(n.subtree, addr.skip(1))
        &&& pruned(n.subtree, addr.skip(1)) matches Some((_, gone)) ==> n.size >= gone.size && n.nfiles
            >= gone.nfiles && n.leaves >= gone.leaves
    }
}

/// If no entry counts less than one below it, any entry can be taken out.
pub proof fn covers_can_lose(f: Seq<(nat, Node)>, addr: Seq<usize>)
    requires
        covers(f),
    ensures
        can_lose(f, addr),
    decreases addr.len(),
{
    if addr.len() > 0 && has_id(f, addr[0] as nat) {
        let i = index_of_id(f, addr[0] as nat);
        assert(covers(f[i].1.subtree));
        covers_can_lose(f[i].1.subtree, addr.skip(1));
        if pruned(f[i].1.subtree, addr.skip(1)) is Some {
            lemma_covered(f, addr);
        }
    }
}

fn prune_at(f: &mut Forest, addr: &[usize], at: usize) -> (r: Option<Entry>)
    requires
        at <= addr@.len(),
        in_order(forest(old(f)@)),
        can_lose(forest(old(f)@), addr@.skip(at as int)),
    ensures
        match pruned(forest(old(f)@), addr@.skip(at as int)) {
            None => r is None && forest(final(f)@) == forest(old(f)@),
            Some((rest, gone)) => r is Some && node(r->0) == gone && forest(final(f)@) == rest,
        },
    decreases addr@.len() - at,
{
    let ghost fo = f@;
    let ghost before = forest(f@);
    let ghost way = addr@.skip(at as int);
    if at >= addr.len() {
        return None;
    }
    assert(way[0] == addr@[at as int]);
    match find_id(f.as_slice(), addr[at]) {
        None => None,
        Some(i) => {
            proof {
                assert(i == index_of_id(before, way[0] as nat));
                assert(before[i as int].1.subtree == forest(fo[i as int].1.subtree@));
                assert(in_order(before[i as int].1.subtree));
                assert(way.skip(1) =~= addr@.skip(at + 1));
                assert(can_lose(before[i as int].1.subtree, way.skip(1)));
            }
            match prune_at(&mut f[i].1.subtree, addr, at + 1) {
                None => {
                    let ghost mid = f@;
                    let (_, gone) = f.remove(i);
                    proof {
                        assert(forest(mid) =~= before) by {
                            assert forall|j: int| 0 <= j < mid.len() implies forest(mid)[j] == before[j] by {
                                if j != i {
                                    assert(mid[j] == fo[j]);
                                }
                            }
                        }
                        assert(node(gone) == forest(mid)[i as int].1);
                        assert(forest(f@) =~= before.remove(i as int)) by {
                            assert forall|j: int| 0 <= j < f@.len() implies #[trigger] forest(f@)[j]
                                == before.remove(i as int)[j] by {
                                if j < i {
                                    assert(f@[j] == mid[j]);
                                    assert(forest(mid)[j] == before[j]);
                                } else {
                                    assert(f@[j] == mid[j + 1]);
                                    assert(forest(mid)[j + 1] == before[j + 1]);
                                }
                            }
                        }
                    }
                    Some(gone)
                },
                Some(gone) => {
                    f[i].1.size = f[i].1.size - gone.size;
                    f[i].1.nfiles = f[i].1.nfiles - gone.nfiles;
                    f[i].1.leaves = f[i].1.leaves - gone.leaves;
                    proof {
                        let rest = (pruned(before, way)->0).0;
                        assert(forest(f@) =~= rest) by {
                            assert forall|j: int| 0 <= j < f@.len() implies #[trigger] forest(f@)[j]
                                == rest[j] by {
                                if j != i {
                                    assert(f@[j] == fo[j]);
                                }
                            }
                        }
                    }
                    Some(gone)
                },
            }
        },
    }
}

/// Takes the entry at an address out of a forest, and its counts out of those
/// above it. If not even the first id is there, the whole forest comes out.
pub fn prune_entry(trees: &mut Forest, view_addr: &[usize]) -> (r: Either<Entry, Forest>)
    requires
        in_order(forest(old(trees)@)),
        can_lose(forest(old(trees)@), view_addr@),
    ensures
        match pruned(forest(old(trees)@), view_addr@) {
            Some((rest, gone)) => r is Left && node(r->Left_0) == gone && forest(final(trees)@) == rest,
            None => r is Right && forest((r->Right_0)@) == forest(old(trees)@) && final(trees)@.len() == 0,
        },
{
    assert(view_addr@.skip(0) =~= view_addr@);
    match prune_at(trees, view_addr, 0) {
        Some(entry) => Either::Left(entry),
        None => {
            let mut whole: Forest = Vec::new();
            std::mem::swap(&mut whole, trees);
            Either::Right(whole)
        },
    }
}

/// Whether an entry is the one that is looked for. Tags are compared if both
/// are there.
pub open spec fn is_wanted(n: Node, path: PathView, tag: Option<Seq<u8>>) -> bool {
    n.path == path && (tag is Some && n.tag is Some ==> tag == n.tag)
}

/// The address of the first wanted entry, each entry before those below it.
pub open spec fn address_of(f: Seq<(nat, Node)>, path: PathView, tag: Option<Seq<u8>>) -> Option<Seq<nat>>
    decreases f, f.len(),
{
    if f.len() == 0 {
        None
    } else {
        match address_of(f.drop_last(), path, tag) {
            Some(found) => Some(found),
            None => address_in(f.last(), path, tag),
        }
    }
}

/// The address of the first wanted entry that is a tree's top or below it.
pub open spec fn address_in(t: (nat, Node), path: PathView, tag: Option<Seq<u8>>) -> Option<Seq<nat>>
    decreases t, 0nat,
{
    if is_wanted(t.1, path, tag) {
        Some(seq![t.0])
    } else {
        match address_of(t.1.subtree, path, tag) {
            Some(found) => Some(seq![t.0] + found),
            None => None,
        }
    }
}

/// The numbers that machine words hold.
pub open spec fn nats(s: Seq<usize>) -> Seq<nat> {
    s.map_values(|x: usize| x as nat)
}

fn found_here(entry: &Entry, path: &PathBuf, tag: Option<&[u8]>) -> (r: bool)
    ensures
        r == is_wanted(
            node(*entry),
            path@,
            match tag {
                Some(t) => Some(t@),
                None => None,
            },
        ),
{
    if !entry.path.same(path) {
        return false;
    }
    match (tag, &entry.tag) {
        (Some(wanted), Some(own)) => same_bytes(wanted, own.as_slice()),
        _ => true,
    }
}

proof fn lemma_address_step(f: Seq<(nat, Node)>, path: PathView, tag: Option<Seq<u8>>, i: int)
    requires
        0 <= i < f.len(),
    ensures
        address_of(f.take(i + 1), path, tag) == match address_of(f.take(i), path, tag) {
            Some(found) => Some(found),
            None => address_in(f[i], path, tag),
        },
{
    assert(f.take(i + 1).drop_last() =~= f.take(i));
    assert(f.take(i + 1).last() == f[i]);
}

proof fn lemma_address_kept(f: Seq<(nat, Node)>, path: PathView, tag: Option<Seq<u8>>, i: int)
    requires
        0 <= i <= f.len(),
        address_of(f.take(i), path, tag) is Some,
    ensures
        address_of(f, path, tag) == address_of(f.take(i), path, tag),
    decreases f.len() - i,
{
    if i < f.len() {
        lemma_address_step(f, path, tag, i);
        lemma_address_kept(f, path, tag, i + 1);
    } else {
        assert(f.take(i) =~= f);
    }
}

// Items are sorted by size rather than path so we need to do a linear scan.
// This can be rather slow with wide trees, especially in X-ray mode with
// a large number of extensions and top-level directories.
/// The address of the first wanted entry of a forest, behind an address that
/// leads to the forest.
pub fn tree_find_path(tree: TreeSlice, path: &PathBuf, tag: Option<&[u8]>, addr: &StackAddr) -> (r:
    Option<Vec<usize>>)
    ensures
        ({
            let wanted = match tag {
                Some(t) => Some(t@),
                None => None,
            };
            match address_of(forest(tree@), path@, wanted) {
                Some(found) => r is Some && nats((r->0)@) == nats(addr.ids().reverse()) + found,
                None => r is None,
            }
        }),
    decreases tree@,
{
    let ghost f = forest(tree@);
    let ghost wanted = match tag {
        Some(t) => Some(t@),
        None => None,
    };
    let mut i: usize = 0;
    assert(address_of(f.take(0), path@, wanted) is None);
    while i < tree.len()
        invariant
            i <= tree@.len(),
            f == forest(tree@),
            wanted == (match tag {
                Some(t) => Some(t@),
                None => None::<Seq<u8>>,
            }),
            address_of(f.take(i as int), path@, wanted) is None,
        decreases tree.len() - i,
    {
        let id: usize = tree[i].0;
        let entry = &tree[i].1;
        let here = addr.push(id);
        proof {
            lemma_address_step(f, path@, wanted, i as int);
            assert(f[i as int] == (id as nat, node(*entry)));
            assert(nats(here.ids().reverse()) =~= nats(addr.ids().reverse()).push(id as nat));
        }
        if found_here(entry, path, tag) {
            proof {
                lemma_address_kept(f, path@, wanted, i + 1);
                assert(nats(here.ids().reverse()) =~= nats(addr.ids().reverse()) + seq![id as nat]);
            }
            return Some(here.address());
        }
        assert(decreases_to!(tree@ => tree@[i as int].1.subtree@));
        if let Some(result) = tree_find_path(entry.subtree.as_slice(), path, tag, &here) {
            proof {
                lemma_address_kept(f, path@, wanted, i + 1);
                let found = address_of(forest(entry.subtree@), path@, wanted)->0;
                assert(nats(here.ids().reverse()) + found =~= nats(addr.ids().reverse()) + (seq![
                    id as nat,
                ] + found));
            }
            return Some(result);
        }
        i += 1;
    }
    assert(f.take(i as int) =~= f);
    None
}

/// The entry at an address, if the address leads to one.
pub open spec fn resolve(f: Seq<(nat, Node)>, addr: Seq<nat>) -> Option<Node>
    decreases addr.len(),
{
    if addr.len() == 0 || !has_id(f, addr[0]) {
        None
    } else {
        let n = f[index_of_id(f, addr[0])].1;
        if addr.len() == 1 {
            Some(n)
        } else {
            resolve(n.subtree, addr.skip(1))
        }
    }
}

/// Whether an address leads to an entry: each id is that of an entry of the
/// level that the ids before lead to.
pub open spec fn leads(f: Seq<(nat, Node)>, addr: Seq<nat>, n: Node) -> bool
    decreases addr.len(),
{
    addr.len() > 0 && exists|i: int|
        0 <= i < f.len() && (#[trigger] f[i]).0 == addr[0] && if addr.len() == 1 {
            f[i].1 == n
        } else {
            leads(f[i].1.subtree, addr.skip(1), n)
        }
}

fn select_from<'a>(selection: &[usize], at: usize, level: TreeSlice<'a>) -> (r: Option<&'a Entry>)
    requires
        at <= selection@.len(),
    ensures
        r matches Some(e) ==> leads(
            forest(level@),
            nats(selection@.skip(at as int)),
            node(*e),
        ),
        in_order(forest(level@)) ==> match resolve(
            forest(level@),
            nats(selection@.skip(at as int)),
        ) {
            Some(n) => r is Some && node(*(r->0)) == n,
            None => r is None,
        },
    decreases selection@.len() - at,
{
    let ghost f = forest(level@);
    let ghost way = nats(selection@.skip(at as int));
    if at >= selection.len() {
        return None;
    }
    assert(way[0] == selection@[at as int]);
    match find_id(level, selection[at]) {
        Some(i) => {
            let entry = &level[i].1;
            assert(f[i as int] == (way[0], node(*entry)));
            assert(in_order(f) ==> in_order(f[i as int].1.subtree));
            if at + 1 == selection.len() {
                return Some(entry);
            }
            assert(way.skip(1) =~= nats(selection@.skip(at + 1)));
            select_from(selection, at + 1, entry.subtree.as_slice())
        },
        None => None,
    }
}

/// The entry at an address.
pub fn get_selection<'a>(selection: &[usize], level: TreeSlice<'a>) -> (r: Option<&'a Entry>)
    ensures
        r matches Some(e) ==> leads(forest(level@), nats(selection@), node(*e)),
        in_order(forest(level@)) ==> match resolve(forest(level@), nats(selection@)) {
            Some(n) => r is Some && node(*(r->0)) == n,
            None => r is None,
        },
{
    assert(selection@.skip(0) =~= selection@);
    select_from(selection, 0, level)
}

/// Where ids increase, an address leads to one entry only: the one that it
/// resolves to.
pub proof fn address_is_unique(f: Seq<(nat, Node)>, addr: Seq<nat>, n: Node)
    requires
        ordered(f),
        leads(f, addr, n),
    ensures
        resolve(f, addr) == Some(n),
    decreases addr.len(),
{
    let i = choose|i: int|
        0 <= i < f.len() && (#[trigger] f[i]).0 == addr[0] && if addr.len() == 1 {
            f[i].1 == n
        } else {
            leads(f[i].1.subtree, addr.skip(1), n)
        };
    assert(has_id(f, addr[0]));
    let c = index_of_id(f, addr[0]);
    assert(f[c].0 == addr[0]);
    assert(c == i);
    assert(ordered(f[i].1.subtree));
    if addr.len() > 1 {
        address_is_unique(f[i].1.subtree, addr.skip(1), n);
    }
}

/// The address that a search finds leads to an entry that was wanted.
pub proof fn found_address_leads(f: Seq<(nat, Node)>, path: PathView, tag: Option<Seq<u8>>)
    requires
        address_of(f, path, tag) is Some,
    ensures
        exists|n: Node|
            leads(f, address_of(f, path, tag)->0, n) && #[trigger] is_wanted(n, path, tag),
    decreases f, f.len(),
{
    let d = f.drop_last();
    let found = address_of(f, path, tag)->0;
    if address_of(d, path, tag) is Some {
        assert(decreases_to!(f => d));
        found_address_leads(d, path, tag);
        let n = choose|n: Node| leads(d, found, n) && #[trigger] is_wanted(n, path, tag);
        let i = choose|i: int|
            0 <= i < d.len() && (#[trigger] d[i]).0 == found[0] && if found.len() == 1 {
                d[i].1 == n
            } else {
                leads(d[i].1.subtree, found.skip(1), n)
            };
        assert(f[i] == d[i]);
        assert(leads(f, found, n));
    } else {
        let t = f.last();
        assert(f[f.len() - 1] == t);
        assert(address_of(f, path, tag) == address_in(t, path, tag));
        if is_wanted(t.1, path, tag) {
            assert(leads(f, found, t.1));
        } else {
            let rest = address_of(t.1.subtree, path, tag)->0;
            found_address_leads(t.1.subtree, path, tag);
            let n = choose|n: Node|
                leads(t.1.subtree, rest, n) && #[trigger] is_wanted(n, path, tag);
            assert(found.skip(1) =~= rest);
            assert(leads(f, found, n));
        }
    }
}

/// A search misses nothing: if an address leads to a wanted entry, the search
/// finds one.
pub proof fn search_is_complete(
    f: Seq<(nat, Node)>,
    path: PathView,
    tag: Option<Seq<u8>>,
    addr: Seq<nat>,
    n: Node,
)
    requires
        leads(f, addr, n),
        is_wanted(n, path, tag),
    ensures
        address_of(f, path, tag) is Some,
    decreases addr.len(),
{
    let i = choose|i: int|
        0 <= i < f.len() && (#[trigger] f[i]).0 == addr[0] && if addr.len() == 1 {
            f[i].1 == n
        } else {
            leads(f[i].1.subtree, addr.skip(1), n)
        };
    if addr.len() > 1 {
        search_is_complete(f[i].1.subtree, path, tag, addr.skip(1), n);
    }
    assert(address_in(f[i], path, tag) is Some);
    lemma_address_step(f, path, tag, i);
    lemma_address_kept(f, path, tag, i + 1);
}

/// Selecting the address that a search finds gives an entry that was wanted.
pub proof fn found_is_selected(f: Seq<(nat, Node)>, path: PathView, tag: Option<Seq<u8>>)
    requires
        ordered(f),
        address_of(f, path, tag) is Some,
    ensures
        resolve(f, address_of(f, path, tag)->0) is Some,
        is_wanted(resolve(f, address_of(f, path, tag)->0)->0, path, tag),
{
    found_address_leads(f, path, tag);
    let found = address_of(f, path, tag)->0;
    let n = choose|n: Node| leads(f, found, n) && #[trigger] is_wanted(n, path, tag);
    address_is_unique(f, found, n);
}

/// Whether every entry has a size.
pub open spec fn sized(f: Seq<(nat, Node)>) -> bool
    decreases f,
{
    forall|i: int| 0 <= i < f.len() ==> (#[trigger] f[i]).1.size > 0 && sized(f[i].1.subtree)
}

pub proof fn lemma_sums_increase(s: Seq<Node>, i: int, j: int)
    requires
        0 <= i < j <= s.len(),
        forall|k: int| 0 <= k < s.len() ==> (#[trigger] s[k]).size > 0,
    ensures
        sum_size(s.take(i)) < sum_size(s.take(j)),
    decreases j - i,
{
    lemma_sum_take(s, j - 1);
    if i < j - 1 {
        lemma_sums_increase(s, i, j - 1);
    }
    assert(s[j - 1].size > 0);
}

/// Offsets of entries that have a size increase, so they identify siblings.
pub proof fn relaid_is_ordered(f: Seq<(nat, Node)>)
    requires
        sized(f),
    ensures
        ordered(relaid(f)),
    decreases f,
{
    let g = relaid(f);
    assert forall|i: int| 0 <= i < g.len() implies ordered((#[trigger] g[i]).1.subtree) by {
        assert(f[i].1.size > 0 && sized(f[i].1.subtree));
        relaid_is_ordered(f[i].1.subtree);
    }
    assert forall|i: int, j: int| 0 <= i < j < g.len() implies (#[trigger] g[i]).0 < (
    #[trigger] g[j]).0 by {
        assert forall|k: int| 0 <= k < bare(f).len() implies (#[trigger] bare(f)[k]).size > 0 by {
            assert(f[k].1.size > 0);
        }
        lemma_sums_increase(bare(f), i, j);
    }
}

/// Re-laying a forest that is laid out changes nothing.
pub proof fn relaid_twice(f: Seq<(nat, Node)>)
    ensures
        relaid(relaid(f)) == relaid(f),
    decreases f,
{
    let g = relaid(f);
    assert forall|i: int| 0 <= i < f.len() implies sum_size(#[trigger] bare(g).take(i)) == sum_size(
        bare(f).take(i),
    ) by {
        lemma_same_sizes(bare(g).take(i), bare(f).take(i));
    }
    assert forall|i: int| 0 <= i < f.len() implies #[trigger] relaid(g)[i] == g[i] by {
        relaid_twice(f[i].1.subtree);
        assert(g[i].1.subtree == relaid(f[i].1.subtree));
        assert(bare(g).take(i).len() == i);
    }
    assert(relaid(g) =~= g);
}

pub proof fn lemma_same_sizes(a: Seq<Node>, b: Seq<Node>)
    requires
        a.len() == b.len(),
        forall|i: int| 0 <= i < a.len() ==> (#[trigger] a[i]).size == b[i].size,
    ensures
        sum_size(a) == sum_size(b),
    decreases a.len(),
{
    if a.len() > 0 {
        assert(a[a.len() - 1].size == b[b.len() - 1].size);
        assert forall|i: int| 0 <= i < a.drop_last().len() implies (#[trigger] a.drop_last()[i]).size
            == b.drop_last()[i].size by {
            assert(a[i].size == b[i].size);
        }
        lemma_same_sizes(a.drop_last(), b.drop_last());
    }
}

/// Whether entries with entries below them count what those count together.
pub open spec fn counted(f: Seq<(nat, Node)>) -> bool
    decreases f,
{
    forall|i: int|
        0 <= i < f.len() ==> counted((#[trigger] f[i]).1.subtree) && adds_up(f[i].1)
}

/// Whether an entry with entries below it counts what those count together.
pub open spec fn adds_up(n: Node) -> bool {
    n.subtree.len() > 0 ==> {
        &&& n.size == sum_size(bare(n.subtree))
        &&& n.nfiles == sum_nfiles(bare(n.subtree))
        &&& n.leaves == sum_leaves(bare(n.subtree))
    }
}

proof fn lemma_sum_split(s: Seq<Node>, i: int)
    requires
        0 <= i < s.len(),
    ensures
        sum_size(s) == sum_size(s.take(i)) + s[i].size + sum_size(s.skip(i + 1)),
        sum_nfiles(s) == sum_nfiles(s.take(i)) + s[i].nfiles + sum_nfiles(s.skip(i + 1)),
        sum_leaves(s) == sum_leaves(s.take(i)) + s[i].leaves + sum_leaves(s.skip(i + 1)),
{
    assert(s =~= s.take(i).push(s[i]) + s.skip(i + 1));
    lemma_sum_add(s.take(i).push(s[i]), s.skip(i + 1));
    lemma_sum_push(s.take(i), s[i]);
}

pub proof fn lemma_sum_remove(f: Seq<(nat, Node)>, i: int)
    requires
        0 <= i < f.len(),
    ensures
        sum_size(bare(f)) == sum_size(bare(f.remove(i))) + f[i].1.size,
        sum_nfiles(bare(f)) == sum_nfiles(bare(f.remove(i))) + f[i].1.nfiles,
        sum_leaves(bare(f)) == sum_leaves(bare(f.remove(i))) + f[i].1.leaves,
{
    let s = bare(f);
    lemma_sum_split(s, i);
    assert(bare(f.remove(i)) =~= s.take(i) + s.skip(i + 1));
    lemma_sum_add(s.take(i), s.skip(i + 1));
}

pub proof fn lemma_sum_update(f: Seq<(nat, Node)>, i: int, t: (nat, Node))
    requires
        0 <= i < f.len(),
    ensures
        sum_size(bare(f)) + t.1.size == sum_size(bare(f.update(i, t))) + f[i].1.size,
        sum_nfiles(bare(f)) + t.1.nfiles == sum_nfiles(bare(f.update(i, t))) + f[i].1.nfiles,
        sum_leaves(bare(f)) + t.1.leaves == sum_leaves(bare(f.update(i, t))) + f[i].1.leaves,
{
    let g = f.update(i, t);
    lemma_sum_split(bare(f), i);
    lemma_sum_split(bare(g), i);
    assert(bare(f).take(i) =~= bare(g).take(i));
    assert(bare(f).skip(i + 1) =~= bare(g).skip(i + 1));
}

/// Entries that count what lies below them count no less than any of it.
pub proof fn counted_covers(f: Seq<(nat, Node)>)
    requires
        counted(f),
    ensures
        covers(f),
    decreases f,
{
    assert forall|i: int| 0 <= i < f.len() implies covers((#[trigger] f[i]).1.subtree) && forall|j: int|
        0 <= j < f[i].1.subtree.len() ==> f[i].1.size >= (#[trigger] f[i].1.subtree[j]).1.size
            && f[i].1.nfiles >= f[i].1.subtree[j].1.nfiles && f[i].1.leaves
            >= f[i].1.subtree[j].1.leaves by {
        let sub = f[i].1.subtree;
        assert(counted(sub) && adds_up(f[i].1));
        counted_covers(sub);
        assert forall|j: int| 0 <= j < sub.len() implies f[i].1.size >= (#[trigger] sub[j]).1.size
            && f[i].1.nfiles >= sub[j].1.nfiles && f[i].1.leaves >= sub[j].1.leaves by {
            lemma_sum_split(bare(sub), j);
        }
    }
}

/// What leaves a forest and what stays count together what the forest counted,
/// and every entry above the one that left counts what it has left.
pub proof fn prune_subtracts(f: Seq<(nat, Node)>, addr: Seq<usize>)
    requires
        counted(f),
        pruned(f, addr) is Some,
    ensures
        ({
            let (rest, gone) = pruned(f, addr)->0;
            &&& sum_size(bare(rest)) + gone.size == sum_size(bare(f))
            &&& sum_nfiles(bare(rest)) + gone.nfiles == sum_nfiles(bare(f))
            &&& sum_leaves(bare(rest)) + gone.leaves == sum_leaves(bare(f))
            &&& counted(rest)
        }),
    decreases addr.len(),
{
    let i = index_of_id(f, addr[0] as nat);
    let (rest, gone) = pruned(f, addr)->0;
    counted_covers(f);
    lemma_covered(f, addr);
    assert(counted(f[i].1.subtree) && adds_up(f[i].1));
    match pruned(f[i].1.subtree, addr.skip(1)) {
        None => {
            lemma_sum_remove(f, i);
            assert forall|j: int| 0 <= j < rest.len() implies counted((#[trigger] rest[j]).1.subtree)
                && adds_up(rest[j].1) by {
                if j < i {
                    assert(rest[j] == f[j]);
                } else {
                    assert(rest[j] == f[j + 1]);
                }
            }
        },
        Some((sub, _)) => {
            prune_subtracts(f[i].1.subtree, addr.skip(1));
            lemma_sum_update(f, i, rest[i]);
            assert forall|j: int| 0 <= j < rest.len() implies counted((#[trigger] rest[j]).1.subtree)
                && adds_up(rest[j].1) by {
                if j != i {
                    assert(rest[j] == f[j]);
                }
            }
        },
    }
}

/// A forest whose ids increase keeps that when an entry leaves it.
pub proof fn prune_keeps_order(f: Seq<(nat, Node)>, addr: Seq<usize>)
    requires
        ordered(f),
        pruned(f, addr) is Some,
    ensures
        ordered((pruned(f, addr)->0).0),
    decreases addr.len(),
{
    let i = index_of_id(f, addr[0] as nat);
    let (rest, gone) = pruned(f, addr)->0;
    assert(ordered(f[i].1.subtree));
    match pruned(f[i].1.subtree, addr.skip(1)) {
        None => {
            assert forall|j: int| 0 <= j < rest.len() implies ordered((#[trigger] rest[j]).1.subtree) by {
                if j < i {
                    assert(rest[j] == f[j]);
                } else {
                    assert(rest[j] == f[j + 1]);
                }
            }
        },
        Some((sub, _)) => {
            prune_keeps_order(f[i].1.subtree, addr.skip(1));
            assert forall|j: int| 0 <= j < rest.len() implies ordered((#[trigger] rest[j]).1.subtree) by {
                if j != i {
                    assert(rest[j] == f[j]);
                }
            }
        },
    }
}

/// The address of an entry takes just that entry out.
pub proof fn prune_takes_the_selected(f: Seq<(nat, Node)>, addr: Seq<usize>)
    requires
        resolve(f, nats(addr)) is Some,
    ensures
        pruned(f, addr) is Some,
        (pruned(f, addr)->0).1 == resolve(f, nats(addr))->0,
    decreases addr.len(),
{
    let i = index_of_id(f, addr[0] as nat);
    assert(nats(addr)[0] == addr[0] as nat);
    assert(nats(addr).skip(1) =~= nats(addr.skip(1)));
    if addr.len() > 1 {
        prune_takes_the_selected(f[i].1.subtree, addr.skip(1));
    }
}

/// A search finds the first wanted entry, and an entry before what lies below it.
pub proof fn the_first_is_found(f: Seq<(nat, Node)>, i: int, path: PathView, tag: Option<Seq<u8>>)
    requires
        0 <= i < f.len(),
        forall|addr: Seq<nat>, n: Node| #[trigger] leads(f.take(i), addr, n) ==> !is_wanted(n, path, tag),
    ensures
        is_wanted(f[i].1, path, tag) ==> address_of(f, path, tag) == Some(seq![f[i].0]),
        !is_wanted(f[i].1, path, tag) && address_of(f[i].1.subtree, path, tag) is Some ==> address_of(f, path, tag)
            == Some(seq![f[i].0] + address_of(f[i].1.subtree, path, tag)->0),
{
    let before = f.take(i);
    if address_of(before, path, tag) is Some {
        found_address_leads(before, path, tag);
    }
    assert(f.take(i + 1).drop_last() =~= before);
    assert(f.take(i + 1).last() == f[i]);
    if address_in(f[i], path, tag) is Some {
        lemma_address_kept(f, path, tag, i + 1);
    }
}

/// Tags matter to a search only where both sides have one.
pub proof fn tags_are_compared_if_there(n: Node, tag: Seq<u8>)
    ensures
        is_wanted(n, n.path, None),
        n.tag is None ==> is_wanted(n, n.path, Some(tag)),
        n.tag is Some ==> (is_wanted(n, n.path, Some(tag)) <==> n.tag == Some(tag)),
{
}

/// Taking an entry out leaves all trees as they are that it is not in.
pub proof fn pruning_leaves_others_alone(f: Seq<(nat, Node)>, addr: Seq<usize>, j: int)
    requires
        ordered(f),
        resolve(f, nats(addr)) is Some,
        0 <= j < f.len(),
        f[j].0 != addr[0] as nat,
    ensures
        (pruned(f, addr)->0).0.contains(f[j]),
        addr.len() == 1 ==> (pruned(f, addr)->0).0.len() == f.len() - 1,
        addr.len() > 1 ==> (pruned(f, addr)->0).0.len() == f.len(),
{
    let i = index_of_id(f, addr[0] as nat);
    assert(nats(addr)[0] == addr[0] as nat);
    assert(nats(addr).skip(1) =~= nats(addr.skip(1)));
    let rest = (pruned(f, addr)->0).0;
    if addr.len() == 1 {
        assert(addr.skip(1) =~= Seq::empty());
        assert(pruned(f[i].1.subtree, addr.skip(1)) is None);
        if j < i {
            assert(rest[j] == f[j]);
        } else {
            assert(rest[j - 1] == f[j]);
        }
    } else {
        prune_takes_the_selected(f[i].1.subtree, addr.skip(1));
        assert(rest[j] == f[j]);
    }
}

/// Whether siblings start where the one before ends, the first at nothing, on
/// every level.
pub open spec fn starts_right(f: Seq<(nat, Node)>) -> bool
    decreases f,
{
    &&& f.len() > 0 ==> f[0].0 == 0
    &&& forall|i: int, j: int|
        0 <= i && j == i + 1 && j < f.len() ==> (#[trigger] f[j]).0 == (#[trigger] f[i]).0 + f[i].1.size
    &&& forall|i: int| 0 <= i < f.len() ==> starts_right((#[trigger] f[i]).1.subtree)
}

/// Whether forests differ in their ids at most.
pub open spec fn same_but_ids(f: Seq<(nat, Node)>, g: Seq<(nat, Node)>) -> bool
    decreases f,
{
    &&& f.len() == g.len()
    &&& forall|i: int|
        0 <= i < f.len() ==> (Node { subtree: (#[trigger] f[i]).1.subtree, ..g[i].1 }) == f[i].1 && same_but_ids(
            f[i].1.subtree,
            g[i].1.subtree,
        )
}

/// Laying a forest out anew gives every entry the place that its siblings leave it,
/// on every level, and changes nothing else.
pub proof fn laying_out_changes_ids_alone(f: Seq<(nat, Node)>)
    ensures
        starts_right(relaid(f)),
        same_but_ids(f, relaid(f)),
    decreases f,
{
    let g = relaid(f);
    if f.len() > 0 {
        assert(bare(f).take(0) =~= Seq::empty());
    }
    assert forall|i: int| 0 <= i < f.len() implies starts_right((#[trigger] g[i]).1.subtree) && same_but_ids(
        f[i].1.subtree,
        g[i].1.subtree,
    ) by {
        laying_out_changes_ids_alone(f[i].1.subtree);
    }
    assert forall|i: int, j: int| 0 <= i && j == i + 1 && j < g.len() implies (#[trigger] g[j]).0 == (
    #[trigger] g[i]).0 + g[i].1.size by {
        lemma_sum_take(bare(f), i);
        assert(bare(f)[i] == f[i].1);
    }
    assert forall|i: int| 0 <= i < f.len() implies (Node { subtree: (#[trigger] f[i]).1.subtree, ..g[i].1 }) == f[i].1
        && same_but_ids(f[i].1.subtree, g[i].1.subtree) by {
        assert(starts_right(g[i].1.subtree));
    }
}

} // verus!
