//! Splitting a stretch of siblings in two of about one size.
use std::ops::Range;
use vstd::prelude::*;
use crate::entry::{forest, lemma_sum_take, MaybePair, Node, TreeSlice};
use crate::siblings::offsets;

verus! {

/// The offsets that siblings cover: from the first one's to where the last one
/// ends.
pub open spec fn span_of(f: Seq<(nat, Node)>) -> (nat, nat) {
    (f[0].0, f.last().0 + f.last().1.size)
}

/// The span of siblings fits in a machine word.
pub open spec fn span_fits(f: Seq<(nat, Node)>) -> bool {
    f.len() > 0 ==> span_of(f).1 <= usize::MAX
}

/// Whether the offsets of siblings do not decrease.
pub open spec fn ascending(f: Seq<(nat, Node)>) -> bool {
    forall|i: int, j: int| 0 <= i <= j < f.len() ==> (#[trigger] f[i]).0 <= (#[trigger] f[j]).0
}

/// How many offsets lie before a mark.
pub open spec fn count_before(f: Seq<(nat, Node)>, mark: nat) -> int
    decreases f.len(),
{
    if f.len() == 0 {
        0
    } else {
        count_before(f.drop_last(), mark) + if f.last().0 < mark {
            1int
        } else {
            0
        }
    }
}

/// Where two or more siblings are split: at the middle of their span, or after
/// the first one where that would leave too little on a side.
pub open spec fn split_point(f: Seq<(nat, Node)>) -> int {
    let idx = count_before(f, (span_of(f).0 + span_of(f).1) / 2);
    if 0 < idx < f.len() - 1 {
        idx
    } else {
        1
    }
}

proof fn lemma_count_before(f: Seq<(nat, Node)>, mark: nat, n: int)
    requires
        0 <= n <= f.len(),
        forall|i: int| 0 <= i < n ==> (#[trigger] f[i]).0 < mark,
        forall|i: int| n <= i < f.len() ==> (#[trigger] f[i]).0 >= mark,
    ensures
        count_before(f, mark) == n,
    decreases f.len(),
{
    if f.len() > 0 {
        let d = f.drop_last();
        assert(f[f.len() - 1] == f.last());
        assert forall|i: int| 0 <= i < d.len() implies #[trigger] d[i] == f[i] by {}
        if n == f.len() {
            lemma_count_before(d, mark, n - 1);
        } else {
            lemma_count_before(d, mark, n);
        }
    }
}

/// The range of offsets that siblings cover.
pub fn key_range(whole: TreeSlice) -> (r: Option<Range<usize>>)
    requires
        span_fits(forest(whole@)),
    ensures
        match r {
            Some(range) => whole@.len() > 0 && range.start == span_of(forest(whole@)).0 && range.end
                == span_of(forest(whole@)).1,
            None => whole@.len() == 0,
        },
{
    if whole.len() == 0 {
        return None;
    }
    let start: usize = whole[0].0;
    let last = &whole[whole.len() - 1];
    assert(forest(whole@).last() == forest(whole@)[whole@.len() - 1]);
    let end: usize = last.0 + last.1.size;
    Some(start..end)
}

/// Splits siblings in two, unless there is only one.
pub fn partition<'a>(whole: TreeSlice<'a>) -> (r: MaybePair<TreeSlice<'a>>)
    requires
        span_fits(forest(whole@)),
        whole@.len() > 1 ==> span_of(forest(whole@)).0 + span_of(forest(whole@)).1 <= usize::MAX,
    ensures
        match r {
            MaybePair::One(all) => whole@.len() <= 1 && all@ == whole@,
            MaybePair::Two(left, right) => whole@.len() > 1 && left@ + right@ == whole@ && left@.len()
                > 0 && right@.len() > 0 && (ascending(forest(whole@)) ==> left@.len() == split_point(
                forest(whole@),
            )),
        },
{
    if whole.len() <= 1 {
        return MaybePair::One(whole);
    }
    let ghost f = forest(whole@);
    let half: usize = match key_range(whole) {
        Some(range) => (range.start + range.end) / 2,
        None => 0,
    };
    let mut low: usize = 0;
    let mut high: usize = whole.len();
    while low < high
        invariant
            f == forest(whole@),
            low <= high <= whole@.len(),
            ascending(f) ==> forall|i: int| 0 <= i < low ==> (#[trigger] f[i]).0 < half,
            ascending(f) ==> forall|i: int| high <= i < f.len() ==> (#[trigger] f[i]).0 >= half,
        decreases high - low,
    {
        let mid: usize = low + (high - low) / 2;
        assert(f[mid as int].0 == whole@[mid as int].0);
        if whole[mid].0 < half {
            low = mid + 1;
        } else {
            high = mid;
        }
    }
    proof {
        if ascending(f) {
            lemma_count_before(f, half as nat, low as int);
        }
    }
    let at: usize = if low > 0 && low < whole.len() - 1 {
        low
    } else {
        1
    };
    let (left, right) = whole.split_at(at);
    assert(left@ + right@ =~= whole@);
    MaybePair::Two(left, right)
}

/// Whether each sibling starts where the one before it ends.
pub open spec fn laid_out(f: Seq<(nat, Node)>) -> bool {
    forall|i: int, j: int|
        0 <= i && j == i + 1 && j < f.len() ==> (#[trigger] f[i]).0 + f[i].1.size == (#[trigger] f[j]).0
}

/// Offsets lay siblings out.
pub proof fn offsets_lay_out(s: Seq<Node>)
    ensures
        laid_out(offsets(s)),
{
    let f = offsets(s);
    assert forall|i: int, j: int| 0 <= i && j == i + 1 && j < f.len() implies (#[trigger] f[i]).0
        + f[i].1.size == (#[trigger] f[j]).0 by {
        lemma_sum_take(s, i);
    }
}

proof fn lemma_laid_out_ascends(f: Seq<(nat, Node)>, i: int, j: int)
    requires
        laid_out(f),
        0 <= i <= j < f.len(),
    ensures
        f[i].0 <= f[j].0,
    decreases j - i,
{
    if i < j {
        lemma_laid_out_ascends(f, i, j - 1);
        assert(f[j - 1].0 + f[j - 1].1.size == f[j].0);
    }
}

/// The parts of siblings that are laid out are laid out, and the second starts
/// where the first ends: together they cover what the whole covers.
pub proof fn parts_cover_the_whole(f: Seq<(nat, Node)>, k: int)
    requires
        laid_out(f),
        0 < k < f.len(),
    ensures
        ascending(f),
        laid_out(f.take(k)),
        laid_out(f.skip(k)),
        span_of(f.take(k)).0 == span_of(f).0,
        span_of(f.take(k)).1 == span_of(f.skip(k)).0,
        span_of(f.skip(k)).1 == span_of(f).1,
{
    assert forall|i: int, j: int| 0 <= i <= j < f.len() implies (#[trigger] f[i]).0 <= (
    #[trigger] f[j]).0 by {
        lemma_laid_out_ascends(f, i, j);
    }
    assert(f.take(k).last() == f[k - 1]);
    assert(f.skip(k)[0] == f[k]);
    assert(f[k - 1].0 + f[k - 1].1.size == f[k].0);
    assert forall|i: int, j: int| 0 <= i && j == i + 1 && j < f.take(k).len() implies (
    #[trigger] f.take(k)[i]).0 + f.take(k)[i].1.size == (#[trigger] f.take(k)[j]).0 by {
        assert(f[i].0 + f[i].1.size == f[j].0);
    }
    assert forall|i: int, j: int| 0 <= i && j == i + 1 && j < f.skip(k).len() implies (
    #[trigger] f.skip(k)[i]).0 + f.skip(k)[i].1.size == (#[trigger] f.skip(k)[j]).0 by {
        assert(f[i + k].0 + f[i + k].1.size == f[j + k].0);
    }
}

/// How many offsets lie before a mark tells where the mark is, if they ascend.
proof fn lemma_counted(f: Seq<(nat, Node)>, mark: nat)
    requires
        ascending(f),
    ensures
        0 <= count_before(f, mark) <= f.len(),
        forall|i: int| 0 <= i < count_before(f, mark) ==> (#[trigger] f[i]).0 < mark,
        forall|i: int| count_before(f, mark) <= i < f.len() ==> (#[trigger] f[i]).0 >= mark,
    decreases f.len(),
{
    if f.len() > 0 {
        let d = f.drop_last();
        assert forall|i: int, j: int| 0 <= i <= j < d.len() implies (#[trigger] d[i]).0 <= (#[trigger] d[j]).0 by {
            assert(f[i].0 <= f[j].0);
        }
        lemma_counted(d, mark);
        let n = count_before(d, mark);
        let last = f[f.len() - 1];
        assert(f.last() == last);
        assert forall|i: int| 0 <= i < d.len() implies #[trigger] f[i] == d[i] by {}
        if last.0 < mark {
            assert(n == d.len()) by {
                if n < d.len() {
                    assert(f[n].0 <= f[f.len() - 1].0);
                    assert(d[n].0 >= mark);
                }
            }
        }
        assert forall|i: int| 0 <= i < count_before(f, mark) implies (#[trigger] f[i]).0 < mark by {
            if i < d.len() {
                assert(d[i].0 < mark);
            }
        }
        assert forall|i: int| count_before(f, mark) <= i < f.len() implies (#[trigger] f[i]).0 >= mark by {
            if i < d.len() {
                assert(d[i].0 >= mark);
            }
        }
    }
}

/// Siblings are split in two parts of which none is empty, at the middle of what
/// they cover: all of the first part start before it, and all of the second part
/// from it on. Where one part would get all but one, or nothing, the first sibling
/// stands alone.
pub proof fn siblings_are_split_in_the_middle(f: Seq<(nat, Node)>)
    requires
        f.len() >= 2,
        ascending(f),
    ensures
        ({
            let k = split_point(f);
            let middle = (span_of(f).0 + span_of(f).1) / 2;
            &&& 0 < k < f.len()
            &&& k > 1 ==> k < f.len() - 1
            &&& k > 1 ==> forall|i: int| 0 <= i < k ==> (#[trigger] f[i]).0 < middle
            &&& k > 1 ==> forall|i: int| k <= i < f.len() ==> (#[trigger] f[i]).0 >= middle
            &&& k == 1 ==> f[1].0 >= middle || f[f.len() - 2].0 < middle
        }),
{
    lemma_counted(f, (span_of(f).0 + span_of(f).1) / 2);
}

} // verus!
