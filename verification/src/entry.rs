//! Entries, the trees that they form, and addresses in those trees.
use vstd::prelude::*;
use crate::colors::{bytes_view, copy_optional, Color, ColorScheme, ColorView};
use crate::path::{PathBuf, PathView};

verus! {

/// How many entries are handed to a worker at a time.
pub const ENTRY_CHUNK_SIZE: usize = 5000;

/// Sibling entries, each with the summed size of the siblings before it.
pub type Forest = Vec<(usize, Entry)>;

/// A stretch of siblings.
pub type TreeSlice<'a> = &'a [(usize, Entry)];

/// One or two of a kind.
#[derive(Debug, Clone)]
pub enum MaybePair<T> {
    One(T),
    Two(T, T),
}

/// One of two things.
#[derive(Debug)]
pub enum Either<L, R> {
    Left(L),
    Right(R),
}

impl<L, R> Either<L, R> {
    /// Whether this is the first of the two.
    pub fn is_left(&self) -> (r: bool)
        ensures
            r == (self is Left),
    {
        match self {
            Either::Left(_) => true,
            Either::Right(_) => false,
        }
    }
}

/// A file, a directory, or a group of files.
#[derive(Debug)]
pub struct Entry {
    pub path: PathBuf,
    pub tag: Option<Vec<u8>>,
    pub size: usize,
    pub nfiles: usize,
    pub leaves: usize,
    pub subtree: Forest,
    pub color: Color,
    pub is_group: bool,
}

/// What an entry is.
#[verifier::ext_equal]
pub struct Node {
    pub path: PathView,
    pub tag: Option<Seq<u8>>,
    pub size: nat,
    pub nfiles: nat,
    pub leaves: nat,
    pub subtree: Seq<(nat, Node)>,
    pub color: ColorView,
    pub is_group: bool,
}

/// What an entry is.
pub open spec fn node(e: Entry) -> Node
    decreases e,
{
    Node {
        path: e.path@,
        tag: bytes_view(e.tag),
        size: e.size as nat,
        nfiles: e.nfiles as nat,
        leaves: e.leaves as nat,
        subtree: forest(e.subtree@),
        color: e.color@,
        is_group: e.is_group,
    }
}

/// What a stretch of siblings is.
pub open spec fn forest(f: Seq<(usize, Entry)>) -> Seq<(nat, Node)>
    decreases f,
{
    Seq::new(
        f.len(),
        |i: int|
            if 0 <= i < f.len() {
                (f[i].0 as nat, node(f[i].1))
            } else {
                arbitrary()
            },
    )
}

/// What a list of entries is.
pub open spec fn nodes(s: Seq<Entry>) -> Seq<Node> {
    s.map_values(|e: Entry| node(e))
}

impl View for Entry {
    type V = Node;

    open spec fn view(&self) -> Node {
        node(*self)
    }
}

/// The entries of a forest, without their offsets.
pub open spec fn bare(f: Seq<(nat, Node)>) -> Seq<Node> {
    f.map_values(|x: (nat, Node)| x.1)
}

/// The summed size of a list of entries.
pub open spec fn sum_size(s: Seq<Node>) -> nat
    decreases s.len(),
{
    if s.len() == 0 {
        0
    } else {
        sum_size(s.drop_last()) + s.last().size
    }
}

/// The summed number of files of a list of entries.
pub open spec fn sum_nfiles(s: Seq<Node>) -> nat
    decreases s.len(),
{
    if s.len() == 0 {
        0
    } else {
        sum_nfiles(s.drop_last()) + s.last().nfiles
    }
}

/// The summed number of leaves of a list of entries.
pub open spec fn sum_leaves(s: Seq<Node>) -> nat
    decreases s.len(),
{
    if s.len() == 0 {
        0
    } else {
        sum_leaves(s.drop_last()) + s.last().leaves
    }
}

/// The three sums of a list fit in a machine word.
pub open spec fn sums_fit(s: Seq<Node>) -> bool {
    &&& sum_size(s) <= usize::MAX
    &&& sum_nfiles(s) <= usize::MAX
    &&& sum_leaves(s) <= usize::MAX
}

pub proof fn lemma_sum_push(s: Seq<Node>, n: Node)
    ensures
        sum_size(s.push(n)) == sum_size(s) + n.size,
        sum_nfiles(s.push(n)) == sum_nfiles(s) + n.nfiles,
        sum_leaves(s.push(n)) == sum_leaves(s) + n.leaves,
{
    assert(s.push(n).drop_last() =~= s);
}

pub proof fn lemma_sum_one(n: Node)
    ensures
        sum_size(seq![n]) == n.size,
        sum_nfiles(seq![n]) == n.nfiles,
        sum_leaves(seq![n]) == n.leaves,
{
    let none = Seq::<Node>::empty();
    assert(seq![n] =~= none.push(n));
    lemma_sum_push(none, n);
    assert(sum_size(none) == 0 && sum_nfiles(none) == 0 && sum_leaves(none) == 0);
}

pub proof fn lemma_sum_take(s: Seq<Node>, i: int)
    requires
        0 <= i <= s.len(),
    ensures
        sum_size(s.take(i)) <= sum_size(s),
        sum_nfiles(s.take(i)) <= sum_nfiles(s),
        sum_leaves(s.take(i)) <= sum_leaves(s),
        i < s.len() ==> sum_size(s.take(i + 1)) == sum_size(s.take(i)) + s[i].size,
        i < s.len() ==> sum_nfiles(s.take(i + 1)) == sum_nfiles(s.take(i)) + s[i].nfiles,
        i < s.len() ==> sum_leaves(s.take(i + 1)) == sum_leaves(s.take(i)) + s[i].leaves,
    decreases s.len() - i,
{
    if i < s.len() {
        assert(s.take(i + 1) =~= s.take(i).push(s[i]));
        lemma_sum_push(s.take(i), s[i]);
        lemma_sum_take(s, i + 1);
    } else {
        assert(s.take(i) =~= s);
    }
}

pub proof fn lemma_sum_add(a: Seq<Node>, b: Seq<Node>)
    ensures
        sum_size(a + b) == sum_size(a) + sum_size(b),
        sum_nfiles(a + b) == sum_nfiles(a) + sum_nfiles(b),
        sum_leaves(a + b) == sum_leaves(a) + sum_leaves(b),
    decreases b.len(),
{
    if b.len() == 0 {
        assert(a + b =~= a);
    } else {
        lemma_sum_add(a, b.drop_last());
        assert((a + b).drop_last() =~= a + b.drop_last());
    }
}

impl Default for Entry {
    fn default() -> (r: Self)
        ensures
            node(r) == blank(PathView { absolute: false, comps: Seq::empty() }),
    {
        Entry::bare(PathBuf::empty())
    }
}

/// An entry with a path and nothing else.
pub open spec fn blank(path: PathView) -> Node {
    Node {
        path,
        tag: None,
        size: 0,
        nfiles: 0,
        leaves: 0,
        subtree: Seq::empty(),
        color: ColorView::Reset,
        is_group: false,
    }
}

/// One file of a size.
pub open spec fn leaf_node(path: PathView, size: nat, colors: ColorScheme) -> Node {
    Node { size, nfiles: 1, leaves: 1, color: colors.spec_file_color(path), ..blank(path) }
}

impl Entry {
    /// An entry with a path and nothing else.
    pub fn bare(path: PathBuf) -> (r: Self)
        ensures
            node(r) == blank(path@),
    {
        let r = Entry {
            path,
            tag: None,
            size: 0,
            nfiles: 0,
            leaves: 0,
            subtree: Vec::new(),
            color: Color::Reset,
            is_group: false,
        };
        assert(forest(r.subtree@) =~= Seq::empty());
        r
    }

    /// One file.
    pub fn new_leaf(path: PathBuf, size: usize, colors: &ColorScheme) -> (r: Self)
        ensures
            node(r) == leaf_node(path@, size as nat, *colors),
    {
        let color = colors.file_color(&path);
        let mut r = Entry::bare(path);
        r.size = size;
        r.nfiles = 1;
        r.leaves = 1;
        r.color = color;
        r
    }
}

impl Clone for Entry {
    fn clone(&self) -> (r: Self)
        ensures
            node(r) == node(*self),
        decreases self,
    {
        Entry {
            path: self.path.clone(),
            tag: copy_optional(&self.tag),
            size: self.size,
            nfiles: self.nfiles,
            leaves: self.leaves,
            subtree: copy_forest(&self.subtree),
            color: self.color.clone(),
            is_group: self.is_group,
        }
    }
}

/// A copy of a forest.
pub fn copy_forest(f: &Forest) -> (r: Forest)
    ensures
        forest(r@) == forest(f@),
    decreases f,
{
    let mut r: Forest = Vec::with_capacity(f.len());
    let mut i: usize = 0;
    while i < f.len()
        invariant
            i <= f.len(),
            r@.len() == i,
            forall|j: int| 0 <= j < i ==> forest(r@)[j] == #[trigger] forest(f@)[j],
        decreases f.len() - i,
    {
        let ghost before = r@;
        assert(decreases_to!(f => f@[i as int].1));
        let copy = f[i].1.clone();
        r.push((f[i].0, copy));
        assert forall|j: int| 0 <= j < i + 1 implies forest(r@)[j] == #[trigger] forest(f@)[j] by {
            if j < i {
                assert(r@[j] == before[j]);
                assert(forest(before)[j] == forest(f@)[j]);
            }
        }
        i += 1;
    }
    assert(forest(r@) =~= forest(f@));
    r
}

/// What is shown of an entry.
#[derive(Debug)]
pub struct EntryInfo {
    pub path: PathBuf,
    pub tag: Option<Vec<u8>>,
    pub size: usize,
    pub nfiles: usize,
    pub leaves: usize,
}

/// What is shown of an entry.
#[verifier::ext_equal]
pub struct InfoView {
    pub path: PathView,
    pub tag: Option<Seq<u8>>,
    pub size: nat,
    pub nfiles: nat,
    pub leaves: nat,
}

impl View for EntryInfo {
    type V = InfoView;

    open spec fn view(&self) -> InfoView {
        InfoView {
            path: self.path@,
            tag: bytes_view(self.tag),
            size: self.size as nat,
            nfiles: self.nfiles as nat,
            leaves: self.leaves as nat,
        }
    }
}

/// What is shown of an entry.
pub open spec fn info_of(n: Node) -> InfoView {
    InfoView { path: n.path, tag: n.tag, size: n.size, nfiles: n.nfiles, leaves: n.leaves }
}

impl EntryInfo {
    /// What is shown of an entry.
    pub fn of(value: &Entry) -> (r: Self)
        ensures
            r@ == info_of(node(*value)),
    {
        EntryInfo {
            path: value.path.clone(),
            tag: copy_optional(&value.tag),
            size: value.size,
            nfiles: value.nfiles,
            leaves: value.leaves,
        }
    }
}

impl Clone for EntryInfo {
    fn clone(&self) -> (r: Self)
        ensures
            r@ == self@,
    {
        EntryInfo {
            path: self.path.clone(),
            tag: copy_optional(&self.tag),
            size: self.size,
            nfiles: self.nfiles,
            leaves: self.leaves,
        }
    }
}

/// A list of ids stored across stack frames, the latest first.
#[derive(Clone, Default, Debug)]
pub struct StackAddr<'a>(pub Option<(usize, &'a StackAddr<'a>)>);

impl<'a> StackAddr<'a> {
    /// The ids, the latest first.
    pub open spec fn ids(self) -> Seq<usize>
        decreases self,
    {
        match self.0 {
            Some((id, rest)) => seq![id] + rest.ids(),
            None => Seq::empty(),
        }
    }

    /// The list without ids.
    pub fn root() -> (r: Self)
        ensures
            r.ids() == Seq::<usize>::empty(),
    {
        StackAddr(None)
    }

    /// The list with one more id in front.
    pub fn push(&'a self, data: usize) -> (r: Self)
        ensures
            r.ids() == seq![data] + self.ids(),
    {
        StackAddr(Some((data, self)))
    }

    /// The latest id.
    pub fn head(&self) -> (r: Option<&usize>)
        ensures
            self.ids().len() == 0 ==> r is None,
            self.ids().len() > 0 ==> r == Some(&self.ids()[0]),
    {
        match &self.0 {
            Some((id, _)) => Some(id),
            None => None,
        }
    }

    /// The ids, the latest first.
    pub fn collect_vec(&self) -> (r: Vec<usize>)
        ensures
            r@ == self.ids(),
    {
        let mut r: Vec<usize> = Vec::new();
        let mut cursor: &StackAddr = self;
        loop
            invariant
                r@ + cursor.ids() == self.ids(),
            ensures
                r@ == self.ids(),
            decreases *cursor,
        {
            match &cursor.0 {
                Some((id, rest)) => {
                    let ghost before = r@;
                    let ghost old_cursor = *cursor;
                    r.push(*id);
                    cursor = *rest;
                    assert(before + old_cursor.ids() =~= r@ + cursor.ids());
                },
                None => {
                    assert(r@ + cursor.ids() =~= r@);
                    break;
                },
            }
        }
        r
    }

    /// The ids, the earliest first.
    pub fn address(&self) -> (r: Vec<usize>)
        ensures
            r@ == self.ids().reverse(),
    {
        let ids = self.collect_vec();
        let mut r: Vec<usize> = Vec::with_capacity(ids.len());
        let mut i: usize = ids.len();
        while i > 0
            invariant
                i <= ids@.len(),
                r@ == ids@.skip(i as int).reverse(),
            decreases i,
        {
            r.push(ids[i - 1]);
            assert(r@ =~= ids@.skip(i - 1).reverse());
            i -= 1;
        }
        assert(ids@.skip(0) =~= ids@);
        r
    }
}

/// A file counts as one file and one leaf, has no tag and nothing below it, and is
/// no group. It has the colour of its type.
pub proof fn files_count_once(path: PathView, size: nat, colors: ColorScheme)
    ensures
        ({
            let n = leaf_node(path, size, colors);
            &&& n.path == path
            &&& n.size == size
            &&& n.nfiles == 1
            &&& n.leaves == 1
            &&& n.tag is None
            &&& n.subtree.len() == 0
            &&& !n.is_group
            &&& n.color == colors.spec_file_color(path)
            &&& sum_size(seq![n]) == size
            &&& sum_nfiles(seq![n]) == 1
            &&& sum_leaves(seq![n]) == 1
        }),
{
    let n = leaf_node(path, size, colors);
    assert(seq![n].drop_last() =~= Seq::empty());
    assert(sum_size(Seq::empty()) == 0 && sum_nfiles(Seq::empty()) == 0 && sum_leaves(Seq::empty()) == 0);
}

/// Nothing that is shown of an entry is changed.
pub proof fn summaries_are_true(n: Node)
    ensures
        info_of(n).path == n.path,
        info_of(n).tag == n.tag,
        info_of(n).size == n.size,
        info_of(n).nfiles == n.nfiles,
        info_of(n).leaves == n.leaves,
{
}

} // verus!
