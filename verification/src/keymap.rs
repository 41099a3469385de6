//! A hash map from paths, each with an optional tag.
use std::collections::HashMap;
use vstd::prelude::*;
use crate::colors::bytes_view;
use crate::path::{same_bytes, PathBuf, PathView};

verus! {

broadcast use vstd::std_specs::hash::group_hash_axioms;

/// What entries are found by: a path, and perhaps a tag.
pub type Key = (PathView, Option<Seq<u8>>);

const SEED: u64 = 14695981039346656037;

const PRIME: u64 = 1099511628211;

spec fn mixed(h: u64, b: u8) -> u64 {
    (h ^ (b as u64)).wrapping_mul(PRIME)
}

spec fn bytes_hash(h: u64, b: Seq<u8>) -> u64
    decreases b.len(),
{
    if b.len() == 0 {
        mixed(h, 0)
    } else {
        mixed(bytes_hash(h, b.drop_last()), b.last())
    }
}

spec fn comps_hash(h: u64, comps: Seq<Seq<u8>>) -> u64
    decreases comps.len(),
{
    if comps.len() == 0 {
        h
    } else {
        bytes_hash(comps_hash(h, comps.drop_last()), comps.last())
    }
}

spec fn key_hash(k: Key) -> u64 {
    let h = comps_hash(SEED, k.0.comps);
    match k.1 {
        Some(tag) => bytes_hash(h, tag),
        None => h,
    }
}

fn mix_bytes(h: u64, b: &[u8]) -> (r: u64)
    ensures
        r == bytes_hash(h, b@),
{
    let mut r: u64 = (h ^ 0u64).wrapping_mul(PRIME);
    let mut i: usize = 0;
    assert(b@.take(0) =~= Seq::empty());
    while i < b.len()
        invariant
            i <= b@.len(),
            r == bytes_hash(h, b@.take(i as int)),
        decreases b.len() - i,
    {
        r = (r ^ (b[i] as u64)).wrapping_mul(PRIME);
        assert(b@.take(i + 1).drop_last() =~= b@.take(i as int));
        i += 1;
    }
    assert(b@.take(i as int) =~= b@);
    r
}

fn hash_key(path: &PathBuf, tag: &Option<Vec<u8>>) -> (r: u64)
    ensures
        r == key_hash((path@, bytes_view(*tag))),
{
    let mut h: u64 = SEED;
    let mut i: usize = 0;
    assert(path@.comps.take(0) =~= Seq::empty());
    while i < path.len()
        invariant
            i <= path@.comps.len(),
            h == comps_hash(SEED, path@.comps.take(i as int)),
        decreases path@.comps.len() - i,
    {
        h = mix_bytes(h, path.component(i));
        assert(path@.comps.take(i + 1).drop_last() =~= path@.comps.take(i as int));
        i += 1;
    }
    assert(path@.comps.take(i as int) =~= path@.comps);
    match tag {
        Some(t) => mix_bytes(h, t.as_slice()),
        None => h,
    }
}

/// Whether two optional tags are equal.
pub fn same_tag(a: &Option<Vec<u8>>, b: &Option<Vec<u8>>) -> (r: bool)
    ensures
        r == (bytes_view(*a) == bytes_view(*b)),
{
    match (a, b) {
        (Some(x), Some(y)) => same_bytes(x.as_slice(), y.as_slice()),
        (None, None) => true,
        _ => false,
    }
}

struct Slot<V> {
    path: PathBuf,
    tag: Option<Vec<u8>>,
    value: Option<V>,
}

spec fn slot_key<V>(s: Slot<V>) -> Key {
    (s.path@, bytes_view(s.tag))
}

/// A hash map from paths, each with an optional tag.
pub struct KeyMap<V> {
    index: HashMap<u64, Vec<usize>>,
    slots: Vec<Slot<V>>,
}

spec fn holds<V>(slots: Seq<Slot<V>>, k: Key, i: int) -> bool {
    0 <= i < slots.len() && slot_key(slots[i]) == k && slots[i].value is Some
}

impl<V> View for KeyMap<V> {
    type V = Map<Key, V>;

    closed spec fn view(&self) -> Map<Key, V> {
        Map::new(
            |k: Key| exists|i: int| holds(self.slots@, k, i),
            |k: Key| self.slots@[choose|i: int| holds(self.slots@, k, i)].value->0,
        )
    }
}

impl<V> KeyMap<V> {
    /// Every slot is listed under its hash, and no two have one key.
    pub closed spec fn wf(self) -> bool {
        &&& forall|h: u64, j: int| #![trigger self.index@[h]@[j]]
            self.index@.contains_key(h) && 0 <= j < self.index@[h]@.len()
                ==> self.index@[h]@[j] < self.slots@.len()
        &&& forall|i: int|
            0 <= i < self.slots@.len() ==> {
                &&& self.index@.contains_key(key_hash(slot_key(#[trigger] self.slots@[i])))
                &&& self.index@[key_hash(slot_key(self.slots@[i]))]@.contains(i as usize)
            }
        &&& forall|i: int, j: int|
            0 <= i < self.slots@.len() && 0 <= j < self.slots@.len() && slot_key(
                #[trigger] self.slots@[i],
            ) == slot_key(#[trigger] self.slots@[j]) ==> i == j
    }

    /// The map without entries.
    pub fn new() -> (r: Self)
        ensures
            r.wf(),
            r@ == Map::<Key, V>::empty(),
    {
        let r = KeyMap { index: HashMap::new(), slots: Vec::new() };
        assert(r@ =~= Map::<Key, V>::empty());
        r
    }

    fn find(&self, path: &PathBuf, tag: &Option<Vec<u8>>) -> (r: Option<usize>)
        requires
            self.wf(),
        ensures
            match r {
                Some(i) => i < self.slots@.len() && slot_key(self.slots@[i as int]) == (
                    path@,
                    bytes_view(*tag),
                ),
                None => forall|i: int|
                    0 <= i < self.slots@.len() ==> slot_key(#[trigger] self.slots@[i]) != (
                        path@,
                        bytes_view(*tag),
                    ),
            },
    {
        let ghost k: Key = (path@, bytes_view(*tag));
        let h: u64 = hash_key(path, tag);
        match self.index.get(&h) {
            Some(places) => {
                let mut j: usize = 0;
                while j < places.len()
                    invariant
                        self.wf(),
                        k == (path@, bytes_view(*tag)),
                        h == key_hash(k),
                        self.index@.contains_key(h),
                        places@ == self.index@[h]@,
                        j <= places@.len(),
                        forall|m: int|
                            0 <= m < j ==> slot_key(self.slots@[#[trigger] places@[m] as int]) != k,
                    decreases places.len() - j,
                {
                    let i: usize = places[j];
                    assert(self.index@[h]@[j as int] < self.slots@.len());
                    if self.slots[i].path.same(path) && same_tag(&self.slots[i].tag, tag) {
                        return Some(i);
                    }
                    j += 1;
                }
                let total: usize = self.slots.len();
                assert forall|i: int| 0 <= i < self.slots@.len() implies slot_key(
                    #[trigger] self.slots@[i],
                ) != k by {
                    assert(i < total);
                    if slot_key(self.slots@[i]) == k {
                        let m = choose|m: int| 0 <= m < places@.len() && places@[m] == i as usize;
                        assert(places@[m] == i as usize);
                    }
                }
                None
            },
            None => None,
        }
    }

    /// The value of a key.
    pub fn get(&self, path: &PathBuf, tag: &Option<Vec<u8>>) -> (r: Option<&V>)
        requires
            self.wf(),
        ensures
            match r {
                Some(v) => self@.contains_key((path@, bytes_view(*tag))) && self@[(
                    path@,
                    bytes_view(*tag),
                )] == *v,
                None => !self@.contains_key((path@, bytes_view(*tag))),
            },
    {
        match self.find(path, tag) {
            Some(i) => {
                let ghost k: Key = (path@, bytes_view(*tag));
                match &self.slots[i].value {
                    Some(v) => {
                        proof {
                            self.lemma_at(k, i as int);
                        }
                        Some(v)
                    },
                    None => None,
                }
            },
            None => None,
        }
    }

    /// A map holds finitely many keys.
    pub proof fn lemma_finite(&self)
        ensures
            self@.dom().finite(),
    {
        let keys = self.slots@.map_values(|s: Slot<V>| slot_key(s));
        vstd::seq_lib::seq_to_set_is_finite(keys);
        assert forall|k: Key| #[trigger] self@.dom().contains(k) implies keys.to_set().contains(k) by {
            let i = choose|i: int| holds(self.slots@, k, i);
            assert(keys[i] == k);
        }
        assert(self@.dom().subset_of(keys.to_set()));
        vstd::set_lib::lemma_set_subset_finite(keys.to_set(), self@.dom());
    }

    proof fn lemma_at(&self, k: Key, i: int)
        requires
            self.wf(),
            holds(self.slots@, k, i),
        ensures
            self@.contains_key(k),
            self@[k] == self.slots@[i].value->0,
    {
        let c = choose|c: int| holds(self.slots@, k, c);
        assert(holds(self.slots@, k, c));
        assert(slot_key(self.slots@[c]) == slot_key(self.slots@[i]));
    }

    /// Removes a key and hands out its value.
    pub fn take(&mut self, path: &PathBuf, tag: &Option<Vec<u8>>) -> (r: Option<V>)
        requires
            old(self).wf(),
        ensures
            final(self).wf(),
            final(self)@ == old(self)@.remove((path@, bytes_view(*tag))),
            match r {
                Some(v) => old(self)@.contains_key((path@, bytes_view(*tag))) && old(self)@[(
                    path@,
                    bytes_view(*tag),
                )] == v,
                None => !old(self)@.contains_key((path@, bytes_view(*tag))),
            },
    {
        let ghost k: Key = (path@, bytes_view(*tag));
        let ghost before = *self;
        match self.find(path, tag) {
            Some(i) => {
                let mut value: Option<V> = None;
                std::mem::swap(&mut value, &mut self.slots[i].value);
                proof {
                    lemma_replaced(before, *self, k, i as int);
                    if value is Some {
                        before.lemma_at(k, i as int);
                    } else {
                        assert(!before@.contains_key(k));
                    }
                }
                value
            },
            None => {
                assert(self@ =~= before@.remove(k));
                None
            },
        }
    }

    /// Gives a key a value.
    pub fn put(&mut self, path: PathBuf, tag: Option<Vec<u8>>, value: V)
        requires
            old(self).wf(),
        ensures
            final(self).wf(),
            final(self)@ == old(self)@.insert((path@, bytes_view(tag)), value),
    {
        let ghost k: Key = (path@, bytes_view(tag));
        let ghost before = *self;
        match self.find(&path, &tag) {
            Some(i) => {
                self.slots[i].value = Some(value);
                proof {
                    lemma_replaced(before, *self, k, i as int);
                }
            },
            None => {
                let h: u64 = hash_key(&path, &tag);
                let n: usize = self.slots.len();
                let mut places: Vec<usize> = match self.index.remove(&h) {
                    Some(places) => places,
                    None => Vec::new(),
                };
                let ghost was = places@;
                places.push(n);
                let ghost now = places@;
                self.index.insert(h, places);
                self.slots.push(Slot { path, tag, value: Some(value) });
                proof {
                    assert(self.index@[h]@ == was.push(n));
                    assert forall|h2: u64, j: int| #![trigger self.index@[h2]@[j]]
                        self.index@.contains_key(h2) && 0 <= j < self.index@[h2]@.len()
                        implies self.index@[h2]@[j] < self.slots@.len() by {
                        if h2 == h {
                            if j < was.len() {
                                assert(before.index@[h]@[j] < before.slots@.len());
                            }
                        } else {
                            assert(before.index@[h2]@[j] < before.slots@.len());
                        }
                    }
                    assert forall|i: int| 0 <= i < self.slots@.len() implies {
                        &&& self.index@.contains_key(key_hash(slot_key(#[trigger] self.slots@[i])))
                        &&& self.index@[key_hash(slot_key(self.slots@[i]))]@.contains(i as usize)
                    } by {
                        if i < n {
                            let hi = key_hash(slot_key(before.slots@[i]));
                            assert(before.index@[hi]@.contains(i as usize));
                            if hi == h {
                                let m = choose|m: int|
                                    0 <= m < was.len() && was[m] == i as usize;
                                assert(now[m] == i as usize);
                            }
                        } else {
                            assert(now[was.len() as int] == i as usize);
                        }
                    }
                    assert forall|k2: Key| self@.contains_key(k2) == #[trigger] before@.insert(
                        k,
                        value,
                    ).contains_key(k2) by {
                        if exists|i: int| holds(before.slots@, k2, i) {
                            let i = choose|i: int| holds(before.slots@, k2, i);
                            assert(holds(self.slots@, k2, i));
                        }
                        if k2 == k {
                            assert(holds(self.slots@, k, n as int));
                        }
                        if exists|i: int| holds(self.slots@, k2, i) {
                            let i = choose|i: int| holds(self.slots@, k2, i);
                            if i < n {
                                assert(holds(before.slots@, k2, i));
                            }
                        }
                    }
                    assert forall|k2: Key| #[trigger] self@.contains_key(k2) implies self@[k2]
                        == before@.insert(k, value)[k2] by {
                        if k2 == k {
                            self.lemma_at(k, n as int);
                        } else {
                            let i = choose|i: int| holds(self.slots@, k2, i);
                            assert(holds(before.slots@, k2, i));
                            self.lemma_at(k2, i);
                            before.lemma_at(k2, i);
                        }
                    }
                    assert(self@ =~= before@.insert(k, value));
                }
            },
        }
    }
}

proof fn lemma_replaced<V>(before: KeyMap<V>, after: KeyMap<V>, k: Key, i: int)
    requires
        before.wf(),
        0 <= i < before.slots@.len(),
        slot_key(before.slots@[i]) == k,
        after.index == before.index,
        after.slots@.len() == before.slots@.len(),
        slot_key(after.slots@[i]) == k,
        forall|j: int| 0 <= j < before.slots@.len() && j != i ==> after.slots@[j] == before.slots@[j],
    ensures
        after.wf(),
        after@ == match after.slots@[i].value {
            Some(v) => before@.insert(k, v),
            None => before@.remove(k),
        },
{
    assert forall|j: int| 0 <= j < after.slots@.len() implies #[trigger] slot_key(after.slots@[j])
        == slot_key(before.slots@[j]) by {}
    assert(after.wf());
    let want = match after.slots@[i].value {
        Some(v) => before@.insert(k, v),
        None => before@.remove(k),
    };
    assert forall|k2: Key| after@.contains_key(k2) == #[trigger] want.contains_key(k2) by {
        if k2 != k {
            if exists|j: int| holds(before.slots@, k2, j) {
                let j = choose|j: int| holds(before.slots@, k2, j);
                assert(holds(after.slots@, k2, j));
            }
            if exists|j: int| holds(after.slots@, k2, j) {
                let j = choose|j: int| holds(after.slots@, k2, j);
                assert(holds(before.slots@, k2, j));
            }
        } else {
            if after.slots@[i].value is Some {
                assert(holds(after.slots@, k, i));
            } else if exists|j: int| holds(after.slots@, k, j) {
                let j = choose|j: int| holds(after.slots@, k, j);
                assert(slot_key(after.slots@[j]) == slot_key(after.slots@[i]));
            }
        }
    }
    assert forall|k2: Key| #[trigger] after@.contains_key(k2) implies after@[k2] == want[k2] by {
        if k2 == k {
            let j = choose|j: int| holds(after.slots@, k, j);
            assert(slot_key(after.slots@[j]) == slot_key(after.slots@[i]));
            after.lemma_at(k, i);
        } else {
            let j = choose|j: int| holds(after.slots@, k2, j);
            assert(holds(before.slots@, k2, j));
            after.lemma_at(k2, j);
            before.lemma_at(k2, j);
        }
    }
    assert(after@ =~= want);
}

} // verus!
