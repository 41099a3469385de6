//! The order of paths: component by component, the root before everything.
use vstd::prelude::*;
use crate::path::{here, up, PathBuf, PathView};

verus! {

/// The first `k` bytes agree, and there the first string ends or is smaller.
pub open spec fn bytes_part(a: Seq<u8>, b: Seq<u8>, k: int) -> bool {
    &&& 0 <= k <= a.len()
    &&& k < b.len()
    &&& forall|j: int| 0 <= j < k ==> a[j] == b[j]
    &&& k == a.len() || a[k] < b[k]
}

/// Byte strings in dictionary order.
pub open spec fn bytes_lt(a: Seq<u8>, b: Seq<u8>) -> bool {
    exists|k: int| bytes_part(a, b, k)
}

/// `.` comes before `..`, and both before ordinary names.
pub open spec fn rank(c: Seq<u8>) -> int {
    if c == here() {
        0
    } else if c == up() {
        1
    } else {
        2
    }
}

/// The order of components.
pub open spec fn comp_lt(a: Seq<u8>, b: Seq<u8>) -> bool {
    rank(a) < rank(b) || (rank(a) == rank(b) && bytes_lt(a, b))
}

/// The first `k` components agree, and there the first list ends or is smaller.
pub open spec fn comps_part(a: Seq<Seq<u8>>, b: Seq<Seq<u8>>, k: int) -> bool {
    &&& 0 <= k <= a.len()
    &&& k < b.len()
    &&& forall|j: int| 0 <= j < k ==> a[j] == b[j]
    &&& k == a.len() || comp_lt(a[k], b[k])
}

/// Lists of components in dictionary order.
pub open spec fn comps_lt(a: Seq<Seq<u8>>, b: Seq<Seq<u8>>) -> bool {
    exists|k: int| comps_part(a, b, k)
}

/// The order of paths. The root counts as a first component before all others.
pub open spec fn path_lt(a: PathView, b: PathView) -> bool {
    if a.absolute == b.absolute {
        comps_lt(a.comps, b.comps)
    } else if a.absolute {
        b.comps.len() > 0
    } else {
        a.comps.len() == 0
    }
}

proof fn lemma_bytes_trans(a: Seq<u8>, b: Seq<u8>, c: Seq<u8>)
    requires
        bytes_lt(a, b),
        bytes_lt(b, c),
    ensures
        bytes_lt(a, c),
{
    let k = choose|k: int| bytes_part(a, b, k);
    let m = choose|k: int| bytes_part(b, c, k);
    let n = if k < m {
        k
    } else {
        m
    };
    assert(bytes_part(a, c, n));
}

proof fn lemma_bytes_total(a: Seq<u8>, b: Seq<u8>, k: int)
    requires
        0 <= k <= a.len(),
        k <= b.len(),
        forall|j: int| 0 <= j < k ==> a[j] == b[j],
    ensures
        bytes_lt(a, b) || bytes_lt(b, a) || a == b,
    decreases a.len() - k,
{
    if k == a.len() {
        if k < b.len() {
            assert(bytes_part(a, b, k));
        } else {
            assert(a =~= b);
        }
    } else if k == b.len() {
        assert(bytes_part(b, a, k));
    } else if a[k] < b[k] {
        assert(bytes_part(a, b, k));
    } else if a[k] > b[k] {
        assert(bytes_part(b, a, k));
    } else {
        lemma_bytes_total(a, b, k + 1);
    }
}

proof fn lemma_bytes_irreflexive(a: Seq<u8>)
    ensures
        !bytes_lt(a, a),
{
}

proof fn lemma_comps_trans(a: Seq<Seq<u8>>, b: Seq<Seq<u8>>, c: Seq<Seq<u8>>)
    requires
        comps_lt(a, b),
        comps_lt(b, c),
    ensures
        comps_lt(a, c),
{
    let k = choose|k: int| comps_part(a, b, k);
    let m = choose|k: int| comps_part(b, c, k);
    let n = if k < m {
        k
    } else {
        m
    };
    if k == m && k < a.len() && rank(a[k]) == rank(b[k]) && rank(b[k]) == rank(c[k]) {
        lemma_bytes_trans(a[k], b[k], c[k]);
    }
    assert(comps_part(a, c, n));
}

proof fn lemma_comps_total(a: Seq<Seq<u8>>, b: Seq<Seq<u8>>, k: int)
    requires
        0 <= k <= a.len(),
        k <= b.len(),
        forall|j: int| 0 <= j < k ==> a[j] == b[j],
    ensures
        comps_lt(a, b) || comps_lt(b, a) || a == b,
    decreases a.len() - k,
{
    if k == a.len() {
        if k < b.len() {
            assert(comps_part(a, b, k));
        } else {
            assert(a =~= b);
        }
    } else if k == b.len() {
        assert(comps_part(b, a, k));
    } else {
        lemma_bytes_total(a[k], b[k], 0);
        if comp_lt(a[k], b[k]) {
            assert(comps_part(a, b, k));
        } else if comp_lt(b[k], a[k]) {
            assert(comps_part(b, a, k));
        } else {
            lemma_comps_total(a, b, k + 1);
        }
    }
}

proof fn lemma_comps_irreflexive(a: Seq<Seq<u8>>)
    ensures
        !comps_lt(a, a),
{
    if comps_lt(a, a) {
        let k = choose|k: int| comps_part(a, a, k);
        lemma_bytes_irreflexive(a[k]);
    }
}

/// No path comes before itself.
pub proof fn path_lt_irreflexive(a: PathView)
    ensures
        !path_lt(a, a),
{
    lemma_comps_irreflexive(a.comps);
}

/// The order of paths is transitive.
pub proof fn path_lt_transitive(a: PathView, b: PathView, c: PathView)
    requires
        path_lt(a, b),
        path_lt(b, c),
    ensures
        path_lt(a, c),
{
    if a.absolute == b.absolute && b.absolute == c.absolute {
        lemma_comps_trans(a.comps, b.comps, c.comps);
    } else if !a.absolute && !c.absolute {
        assert(comps_part(a.comps, c.comps, 0));
    }
}

/// Of two paths that differ, one comes before the other.
pub proof fn path_lt_total(a: PathView, b: PathView)
    ensures
        path_lt(a, b) || path_lt(b, a) || a == b,
{
    if a.absolute == b.absolute {
        lemma_comps_total(a.comps, b.comps, 0);
        if a.comps == b.comps {
            assert(a =~= b);
        }
    }
}

fn bytes_before(a: &[u8], b: &[u8]) -> (r: bool)
    ensures
        r == bytes_lt(a@, b@),
{
    let mut i: usize = 0;
    while i < a.len() && i < b.len()
        invariant
            i <= a.len(),
            i <= b.len(),
            forall|j: int| 0 <= j < i ==> a@[j] == b@[j],
        decreases a.len() - i,
    {
        if a[i] != b[i] {
            proof {
                if a@[i as int] < b@[i as int] {
                    assert(bytes_part(a@, b@, i as int));
                }
            }
            return a[i] < b[i];
        }
        i += 1;
    }
    proof {
        if i < b.len() {
            assert(bytes_part(a@, b@, i as int));
        }
    }
    i < b.len()
}

fn rank_of(c: &[u8]) -> (r: u8)
    ensures
        r == rank(c@),
{
    if c.len() == 1 && c[0] == crate::path::DOT {
        assert(c@ =~= here());
        0
    } else if c.len() == 2 && c[0] == crate::path::DOT && c[1] == crate::path::DOT {
        assert(c@ =~= up());
        1
    } else {
        2
    }
}

fn comp_before(a: &[u8], b: &[u8]) -> (r: bool)
    ensures
        r == comp_lt(a@, b@),
{
    let ra = rank_of(a);
    let rb = rank_of(b);
    ra < rb || (ra == rb && bytes_before(a, b))
}

/// Whether the first path comes before the second.
pub fn path_before(a: &PathBuf, b: &PathBuf) -> (r: bool)
    ensures
        r == path_lt(a@, b@),
{
    if a.is_absolute() != b.is_absolute() {
        return if a.is_absolute() {
            b.len() > 0
        } else {
            a.len() == 0
        };
    }
    let mut i: usize = 0;
    while i < a.len() && i < b.len()
        invariant
            a@.absolute == b@.absolute,
            i <= a@.comps.len(),
            i <= b@.comps.len(),
            forall|j: int| 0 <= j < i ==> a@.comps[j] == b@.comps[j],
        decreases a@.comps.len() - i,
    {
        let ca = a.component(i);
        let cb = b.component(i);
        if comp_before(ca, cb) {
            assert(comps_part(a@.comps, b@.comps, i as int));
            return true;
        }
        if comp_before(cb, ca) {
            proof {
                assert(comps_part(b@.comps, a@.comps, i as int));
                if comps_lt(a@.comps, b@.comps) {
                    lemma_comps_trans(a@.comps, b@.comps, a@.comps);
                    lemma_comps_irreflexive(a@.comps);
                }
            }
            return false;
        }
        proof {
            lemma_bytes_total(ca@, cb@, 0);
        }
        i += 1;
    }
    let r = i < b.len();
    proof {
        if r {
            assert(comps_part(a@.comps, b@.comps, i as int));
        }
    }
    r
}

/// A directory comes before what is in it.
pub proof fn directories_come_first(p: PathView, name: Seq<u8>)
    ensures
        path_lt(p, p.child(name)),
        !path_lt(p.child(name), p),
{
    assert(comps_part(p.comps, p.child(name).comps, p.comps.len() as int));
    path_lt_total(p, p.child(name));
    if path_lt(p.child(name), p) {
        path_lt_transitive(p, p.child(name), p);
        path_lt_irreflexive(p);
    }
}

/// Of two names in a directory the one comes first that is smaller in the first
/// byte in which they differ, or that the other begins with. What lies in them
/// comes in the same order.
pub proof fn names_come_in_order(p: PathView, a: Seq<u8>, b: Seq<u8>, in_a: Seq<Seq<u8>>, in_b: Seq<Seq<u8>>, k: int)
    requires
        a != here() && a != up(),
        b != here() && b != up(),
        0 <= k < b.len(),
        k <= a.len(),
        a.take(k) == b.take(k),
        k < a.len() ==> a[k] < b[k],
    ensures
        path_lt(
            PathView { absolute: p.absolute, comps: p.child(a).comps + in_a },
            PathView { absolute: p.absolute, comps: p.child(b).comps + in_b },
        ),
{
    assert forall|j: int| 0 <= j < k implies a[j] == b[j] by {
        assert(a.take(k)[j] == a[j]);
        assert(b.take(k)[j] == b[j]);
    }
    assert(bytes_part(a, b, k));
    assert(bytes_lt(a, b));
    let x = p.child(a).comps + in_a;
    let y = p.child(b).comps + in_b;
    let n = p.comps.len() as int;
    assert(x[n] == a && y[n] == b);
    assert(comps_part(x, y, n));
}

} // verus!
