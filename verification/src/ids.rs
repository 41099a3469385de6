//! The ids of siblings.
use vstd::prelude::*;
use crate::entry::Node;

verus! {

/// Whether the ids of siblings increase.
pub open spec fn increasing(f: Seq<(nat, Node)>) -> bool {
    forall|i: int, j: int| 0 <= i < j < f.len() ==> (#[trigger] f[i]).0 < (#[trigger] f[j]).0
}

/// Whether the ids of siblings increase, at every level.
pub open spec fn ordered(f: Seq<(nat, Node)>) -> bool
    decreases f,
{
    &&& increasing(f)
    &&& forall|i: int| 0 <= i < f.len() ==> ordered((#[trigger] f[i]).1.subtree)
}

/// Whether the ids of siblings never fall.
pub open spec fn rising(f: Seq<(nat, Node)>) -> bool {
    forall|i: int, j: int| 0 <= i < j < f.len() ==> (#[trigger] f[i]).0 <= (#[trigger] f[j]).0
}

/// Whether the ids of siblings never fall, at every level.
pub open spec fn in_order(f: Seq<(nat, Node)>) -> bool
    decreases f,
{
    &&& rising(f)
    &&& forall|i: int| 0 <= i < f.len() ==> in_order((#[trigger] f[i]).1.subtree)
}

/// Ids that increase never fall.
pub proof fn ordered_is_in_order(f: Seq<(nat, Node)>)
    requires
        ordered(f),
    ensures
        in_order(f),
    decreases f,
{
    assert forall|i: int| 0 <= i < f.len() implies in_order((#[trigger] f[i]).1.subtree) by {
        assert(ordered(f[i].1.subtree));
        ordered_is_in_order(f[i].1.subtree);
    }
}

/// Whether siblings have an entry with an id.
pub open spec fn has_id(f: Seq<(nat, Node)>, id: nat) -> bool {
    exists|i: int| 0 <= i < f.len() && (#[trigger] f[i]).0 == id
}

/// Whether siblings have their first entry with an id at a place.
pub open spec fn is_first(f: Seq<(nat, Node)>, id: nat, i: int) -> bool {
    0 <= i < f.len() && f[i].0 == id && forall|j: int| 0 <= j < i ==> (#[trigger] f[j]).0 != id
}

/// Where siblings have their first entry with an id.
pub open spec fn index_of_id(f: Seq<(nat, Node)>, id: nat) -> int {
    choose|i: int| is_first(f, id, i)
}

proof fn lemma_first_before(f: Seq<(nat, Node)>, id: nat, i: int) -> (k: int)
    requires
        0 <= i < f.len(),
        f[i].0 == id,
    ensures
        is_first(f, id, k),
    decreases i,
{
    if exists|j: int| 0 <= j < i && (#[trigger] f[j]).0 == id {
        let j = choose|j: int| 0 <= j < i && (#[trigger] f[j]).0 == id;
        lemma_first_before(f, id, j)
    } else {
        i
    }
}

/// An id that is there has a first place.
pub broadcast proof fn lemma_index_of_id(f: Seq<(nat, Node)>, id: nat)
    requires
        has_id(f, id),
    ensures
        is_first(f, id, #[trigger] index_of_id(f, id)),
{
    let i = choose|i: int| 0 <= i < f.len() && (#[trigger] f[i]).0 == id;
    let k = lemma_first_before(f, id, i);
}

} // verus!
