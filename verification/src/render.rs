//! What is drawn of a forest, and where a click on it leads.
use vstd::prelude::*;
use crate::area::{shares_all_inside, Position, Rect};
use crate::colors::Color;
use crate::config::DirStyle;
use crate::entry::{forest, node, Entry, MaybePair, Node, StackAddr, TreeSlice};
use crate::partition::{ascending, key_range, partition, span_of, split_point};
use crate::show::{human_size, name_of, show_name, size_text};
use crate::state::{AppState, StateView};
use crate::text::utf8_lossy;

verus! {

/// How the entries of a forest are drawn in an area.
#[derive(Debug)]
pub enum Plot<'a> {
    /// There is nothing to draw.
    Nothing,
    /// The area is too small for several entries: it is filled with the colour
    /// of the first one. Whether one of them is selected decides with what.
    Tiny { id: usize, color: &'a Color, marked: bool },
    /// The area is for one entry.
    One { id: usize, entry: &'a Entry },
    /// The area is shared between two parts, in proportion to their sizes.
    Split {
        left: TreeSlice<'a>,
        right: TreeSlice<'a>,
        left_size: usize,
        right_size: usize,
        horizontal: bool,
    },
}

/// Whether an area is too small to draw several entries in it.
pub open spec fn is_tiny(area: Rect) -> bool {
    area.height < 2 || area.width <= 2
}

/// Whether an area is wide: characters are about twice as high as they are wide.
pub open spec fn is_wide(area: Rect) -> bool {
    area.width > area.height * 2
}

/// Whether one of the entries is the first one on the way to the selection.
pub open spec fn holds_head(f: Seq<(nat, Node)>, selection: Seq<usize>) -> bool {
    selection.len() > 0 && exists|i: int| 0 <= i < f.len() && (#[trigger] f[i]).0 == selection[0]
}

fn has_head(tree: TreeSlice, selection: &[usize]) -> (r: bool)
    ensures
        r == holds_head(forest(tree@), selection@),
{
    if selection.len() == 0 {
        return false;
    }
    let ghost f = forest(tree@);
    let mut i: usize = 0;
    while i < tree.len()
        invariant
            i <= tree@.len(),
            f == forest(tree@),
            selection@.len() > 0,
            forall|j: int| 0 <= j < i ==> (#[trigger] f[j]).0 != selection@[0],
        decreases tree.len() - i,
    {
        assert(f[i as int].0 == tree@[i as int].0);
        if tree[i].0 == selection[0] {
            return true;
        }
        i += 1;
    }
    false
}

/// Whether a forest can be laid out: its entries come in the order of their ids,
/// and where they end is within the machine's limits.
pub open spec fn is_drawable(f: Seq<(nat, Node)>) -> bool {
    &&& ascending(f)
    &&& forall|i: int| 0 <= i < f.len() ==> (#[trigger] f[i]).0 + f[i].1.size <= usize::MAX
    &&& f.len() > 1 ==> span_of(f).0 + span_of(f).1 <= usize::MAX
}

/// Whether a forest can be laid out.
pub fn can_render(tree: TreeSlice) -> (r: bool)
    ensures
        r == is_drawable(forest(tree@)),
{
    let ghost f = forest(tree@);
    let mut i: usize = 0;
    while i < tree.len()
        invariant
            i <= tree@.len(),
            f == forest(tree@),
            forall|j: int, k: int| 0 <= j <= k < i ==> (#[trigger] f[j]).0 <= (#[trigger] f[k]).0,
            forall|j: int| 0 <= j < i ==> (#[trigger] f[j]).0 + f[j].1.size <= usize::MAX,
        decreases tree.len() - i,
    {
        assert(f[i as int] == (tree@[i as int].0 as nat, node(tree@[i as int].1)));
        if tree[i].1.size > usize::MAX - tree[i].0 {
            return false;
        }
        if i > 0 && tree[i - 1].0 > tree[i].0 {
            assert(f[i - 1].0 > f[i as int].0);
            return false;
        }
        proof {
            if i > 0 {
                assert(f[i - 1].0 <= f[i as int].0);
            }
        }
        i += 1;
    }
    if tree.len() > 1 {
        let last = &tree[tree.len() - 1];
        assert(f.last() == (last.0 as nat, node(last.1)));
        assert(f[f.len() - 1].0 + f[f.len() - 1].1.size <= usize::MAX);
        let end: usize = last.0 + last.1.size;
        assert(f[0].0 == tree@[0].0);
        return tree[0].0 <= usize::MAX - end;
    }
    true
}

/// How much a part weighs against another, of the largest weight for both.
pub open spec fn weight(part: nat, other: nat) -> nat {
    if part + other == 0 {
        0
    } else {
        part * 65535 / (part + other)
    }
}

/// The areas of two parts are proportional to their sizes, but for what gets lost
/// in rounding down.
pub proof fn weights_are_proportional(part: nat, other: nat)
    requires
        part + other > 0,
    ensures
        weight(part, other) * (part + other) <= part * 65535,
        part * 65535 < (weight(part, other) + 1) * (part + other),
        weight(part, other) <= 65535,
{
    let total = part + other;
    let w = weight(part, other);
    vstd::arithmetic::div_mod::lemma_fundamental_div_mod((part * 65535) as int, total as int);
    vstd::arithmetic::div_mod::lemma_mod_bound((part * 65535) as int, total as int);
    assert(w * total <= part * 65535 && part * 65535 < (w + 1) * total) by (nonlinear_arith)
        requires
            part * 65535 == total * w + (part * 65535) % total,
            0 <= (part * 65535) % total < total,
    ;
    assert(w <= 65535) by (nonlinear_arith)
        requires
            w * total <= part * 65535,
            part <= total,
            total > 0,
    ;
}

/// How much two parts weigh against each other.
pub fn weights(left: usize, right: usize) -> (r: (u16, u16))
    ensures
        r.0 == weight(left as nat, right as nat),
        r.1 == weight(right as nat, left as nat),
{
    let total: u128 = left as u128 + right as u128;
    if total == 0 {
        return (0, 0);
    }
    proof {
        weights_are_proportional(left as nat, right as nat);
        weights_are_proportional(right as nat, left as nat);
    }
    let l: u128 = left as u128 * 65535 / total;
    let r: u128 = right as u128 * 65535 / total;
    (l as u16, r as u16)
}

/// Decides how the entries of a forest are drawn in an area.
pub fn render_subtree<'a>(tree: TreeSlice<'a>, area: Rect, selection: &[usize]) -> (r: Plot<'a>)
    requires
        is_drawable(forest(tree@)),
    ensures
        match r {
            Plot::Nothing => tree@.len() == 0,
            Plot::Tiny { id, color, marked } => {
                &&& tree@.len() > 1 && is_tiny(area)
                &&& id == tree@[0].0
                &&& color@ == node(tree@[0].1).color
                &&& marked == holds_head(forest(tree@), selection@)
            },
            Plot::One { id, entry } => {
                &&& tree@.len() == 1
                &&& id == tree@[0].0
                &&& *entry == tree@[0].1
            },
            Plot::Split { left, right, left_size, right_size, horizontal } => {
                &&& tree@.len() > 1 && !is_tiny(area)
                &&& left@ + right@ == tree@
                &&& left@.len() == split_point(forest(tree@))
                &&& 0 < left@.len() < tree@.len()
                &&& left_size == span_of(forest(left@)).1 - span_of(forest(left@)).0
                &&& right_size == span_of(forest(right@)).1 - span_of(forest(right@)).0
                &&& horizontal == is_wide(area)
            },
        },
{
    if tree.len() == 0 {
        return Plot::Nothing;
    }
    if tree.len() > 1 && (area.height < 2 || area.width <= 2) {
        return Plot::Tiny {
            id: tree[0].0,
            color: &tree[0].1.color,
            marked: has_head(tree, selection),
        };
    }
    if tree.len() == 1 {
        return Plot::One { id: tree[0].0, entry: &tree[0].1 };
    }
    let ghost f = forest(tree@);
    assert(f[f.len() - 1].0 + f[f.len() - 1].1.size <= usize::MAX);
    match partition(tree) {
        MaybePair::One(_) => Plot::Nothing,
        MaybePair::Two(left, right) => {
            proof {
                let k = left@.len() as int;
                assert(forest(left@) =~= f.take(k)) by {
                    assert forall|i: int| 0 <= i < k implies forest(left@)[i] == f.take(k)[i] by {
                        assert(tree@[i] == left@[i]);
                    }
                }
                assert(forest(right@) =~= f.skip(k)) by {
                    assert forall|i: int| 0 <= i < right@.len() implies forest(right@)[i] == f.skip(k)[i] by {
                        assert(tree@[k + i] == right@[i]);
                    }
                }
                let last = k - 1;
                assert(left@.last() == tree@[last]);
                assert(f[last] == (tree@[last].0 as nat, node(tree@[last].1)));
                assert(f[0].0 <= f[last].0);
                assert(f[k].0 <= f[f.len() - 1].0);
                assert(right@.last() == tree@[tree@.len() - 1]);
                assert(forest(left@)[0] == f[0]);
                assert(forest(right@)[0] == f[k]);
                assert(forest(left@).last() == f[last]);
                assert(forest(right@).last() == f[f.len() - 1]);
            }
            let left_size: usize = match key_range(left) {
                Some(range) => range.end - range.start,
                None => 0,
            };
            let right_size: usize = match key_range(right) {
                Some(range) => range.end - range.start,
                None => 0,
            };
            let horizontal = area.width as u32 > area.height as u32 * 2;
            Plot::Split { left, right, left_size, right_size, horizontal }
        },
    }
}

/// Whether the second of two areas got nothing, so that the areas have to be
/// shared another way.
pub fn is_lost(second: Rect) -> (r: bool)
    ensures
        r == (second.width == 0 || second.height == 0),
{
    second.width == 0 || second.height == 0
}

/// The state after something was drawn in an area: if the last click lies in it,
/// and it lies in the area that was clicked on so far, it is what was clicked
/// on.
pub open spec fn click_noted(s: StateView, addr: Seq<usize>, area: Rect) -> StateView {
    match s.click_pos {
        Some(at) => if area.holds(at) && s.click_area.overlap(area) == area {
            StateView { click_area: area, click_addr: addr, ..s }
        } else {
            s
        },
        None => s,
    }
}

/// Notes whether what is drawn in an area was clicked on.
pub fn note_click(state: &mut AppState, addr: &StackAddr, area: Rect)
    ensures
        final(state)@ == click_noted(old(state)@, addr.ids().reverse(), area),
{
    if let Some(at) = state.click_pos {
        if area.contains(at) && state.click_area.intersection(area) == area {
            state.click_area = area;
            state.click_addr = addr.address();
        }
    }
}

/// Of two areas of which the second lies in the first, a click in both leads to
/// what is drawn in the second.
pub proof fn inner_click_wins(
    s: StateView,
    at: Position,
    outer: Rect,
    outer_addr: Seq<usize>,
    inner: Rect,
    inner_addr: Seq<usize>,
)
    requires
        s.click_pos == Some(at),
        outer.holds(at),
        outer.inside(s.click_area),
        inner.holds(at),
        inner.inside(outer),
    ensures
        click_noted(click_noted(s, outer_addr, outer), inner_addr, inner).click_addr == inner_addr,
        click_noted(click_noted(s, outer_addr, outer), inner_addr, inner).click_area == inner,
{
    shares_all_inside(outer, s.click_area);
    shares_all_inside(inner, outer);
}

/// What lies beside the click is not clicked on.
pub proof fn click_beside_is_no_click(s: StateView, addr: Seq<usize>, area: Rect)
    requires
        s.click_pos matches Some(at) ==> !area.holds(at),
    ensures
        click_noted(s, addr, area) == s,
{
}

/// The kinds of borders.
#[derive(Clone, Copy, Debug, PartialEq, Eq, Structural)]
pub enum Border {
    Plain,
    Thick,
    QuadrantInside,
    Double,
    LightDoubleDashed,
}

/// What is drawn within the border of an entry.
#[derive(Clone, Copy, Debug, PartialEq, Eq, Structural)]
pub enum Content {
    /// The area is filled. Whether the entry is selected decides with what.
    Filled(bool),
    /// The entries below are drawn.
    Below,
    /// There is no room to draw the entries below.
    Nothing,
}

/// How an entry is drawn.
#[derive(Debug)]
pub struct Look {
    pub title: String,
    /// The size, if there is a line for it.
    pub size: Option<String>,
    pub selected: bool,
    pub border: Border,
}

/// Whether an entry lies on the way to the selection.
pub open spec fn is_selected(addr: Seq<usize>, selection: Seq<usize>) -> bool {
    selection.len() > 0 && selection[0] == addr[0]
}

/// The border of an entry.
pub open spec fn border_of(style: DirStyle, n: Node, selected: bool) -> Border {
    if selected {
        Border::QuadrantInside
    } else if n.is_group {
        Border::Double
    } else if n.subtree.len() == 0 && n.nfiles == 1 {
        Border::LightDoubleDashed
    } else if style == DirStyle::Thick {
        Border::Thick
    } else {
        Border::Plain
    }
}

/// Decides how an entry is drawn in an area.
pub fn render_entry(style: DirStyle, entry: &Entry, addr: &StackAddr, area: Rect, selection: &[usize]) -> (r:
    Look)
    requires
        addr.ids().len() > 0,
    ensures
        r.title@ == utf8_lossy(name_of(node(*entry).path)),
        match r.size {
            Some(text) => area.height > 1 && text@ == size_text(node(*entry).size),
            None => area.height <= 1,
        },
        r.selected == is_selected(addr.ids(), selection@),
        r.border == border_of(style, node(*entry), r.selected),
{
    let title = show_name(&entry.path);
    let selected = if selection.len() > 0 {
        match addr.head() {
            Some(head) => selection[0] == *head,
            None => false,
        }
    } else {
        false
    };
    let size = if area.height > 1 {
        Some(human_size(entry.size))
    } else {
        None
    };
    let border = if selected {
        Border::QuadrantInside
    } else if entry.is_group {
        Border::Double
    } else if entry.subtree.len() == 0 && entry.nfiles == 1 {
        Border::LightDoubleDashed
    } else if style == DirStyle::Thick {
        Border::Thick
    } else {
        Border::Plain
    };
    Look { title, size, selected, border }
}

/// The way to the selection from below an entry.
pub fn selection_below(selected: bool, selection: &[usize]) -> (r: Vec<usize>)
    requires
        selected ==> selection@.len() > 0,
    ensures
        r@ == if selected {
            selection@.skip(1)
        } else {
            Seq::empty()
        },
{
    if selected {
        let r = crate::state::copy_ids(selection, 1, selection.len());
        assert(r@ =~= selection@.skip(1));
        r
    } else {
        let r: Vec<usize> = Vec::new();
        assert(r@ =~= Seq::empty());
        r
    }
}

/// What is drawn within the border of an entry.
pub open spec fn content_of(n: Node, inner: Rect, selected: bool) -> Content {
    if n.subtree.len() == 0 {
        Content::Filled(selected)
    } else if inner.height > 2 || inner.width > 2 {
        Content::Below
    } else {
        Content::Nothing
    }
}

/// Decides what is drawn within the border of an entry.
pub fn render_content(entry: &Entry, inner: Rect, selected: bool) -> (r: Content)
    ensures
        r == content_of(node(*entry), inner, selected),
{
    if entry.subtree.len() == 0 {
        Content::Filled(selected)
    } else if inner.height > 2 || inner.width > 2 {
        Content::Below
    } else {
        Content::Nothing
    }
}

/// What is selected has a border of its own. Else groups, files and directories
/// have borders that differ, and the style of directories is theirs alone.
pub proof fn borders_tell_kinds_apart(style: DirStyle, n: Node, m: Node)
    ensures
        border_of(style, n, true) == border_of(style, m, true),
        border_of(style, n, false) != border_of(style, m, true),
        n.is_group && !m.is_group ==> border_of(style, n, false) != border_of(style, m, false),
        !n.is_group && !m.is_group && n.subtree.len() == 0 && n.nfiles == 1 && m.subtree.len() > 0 ==> border_of(
            style,
            n,
            false,
        ) != border_of(style, m, false),
        n.is_group || (n.subtree.len() == 0 && n.nfiles == 1) ==> border_of(style, n, false) == border_of(
            DirStyle::Plain,
            n,
            false,
        ),
        !n.is_group && n.subtree.len() > 0 ==> border_of(DirStyle::Thick, n, false) != border_of(
            DirStyle::Plain,
            n,
            false,
        ),
{
}

/// What has nothing below it is filled, and shows whether it is selected. What has
/// is drawn where there is room for more than two rows or columns.
pub proof fn room_decides_what_is_drawn(n: Node, inner: Rect, selected: bool)
    ensures
        n.subtree.len() == 0 <==> content_of(n, inner, selected) is Filled,
        n.subtree.len() == 0 ==> content_of(n, inner, selected) == Content::Filled(selected),
        content_of(n, inner, selected) == Content::Below <==> n.subtree.len() > 0 && !(inner.height <= 2
            && inner.width <= 2),
{
}

/// An area with room for more keeps it when it grows. Areas that are turned are not
/// both wide.
pub proof fn larger_areas_have_more_room(a: Rect, b: Rect)
    requires
        a.width <= b.width,
        a.height <= b.height,
    ensures
        !is_tiny(a) ==> !is_tiny(b),
        is_tiny(a) <==> !(a.height >= 2 && a.width >= 3),
        is_wide(a) ==> !is_wide(Rect { width: a.height, height: a.width, ..a }),
        is_wide(a) <==> a.width as int > 2 * a.height,
{
}

/// Of siblings one at most lies on the way to the selection, and none does if
/// nothing is selected.
pub proof fn one_sibling_is_selected(a: usize, b: usize, above: Seq<usize>, selection: Seq<usize>)
    requires
        is_selected(seq![a] + above, selection),
    ensures
        selection.len() > 0,
        is_selected(seq![b] + above, selection) <==> a == b,
        !is_selected(seq![a] + above, Seq::empty()),
{
}

/// An entry on the way to the selection is among entries if and only if they hold
/// the head of the way.
pub proof fn heads_are_selected(f: Seq<(nat, Node)>, i: int, above: Seq<usize>, selection: Seq<usize>)
    requires
        0 <= i < f.len(),
        f[i].0 <= usize::MAX,
        is_selected(seq![f[i].0 as usize] + above, selection),
    ensures
        holds_head(f, selection),
{
}

} // verus!
