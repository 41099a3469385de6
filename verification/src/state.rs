//! What the user sees of a forest: the view, the selection, the last click.
use vstd::prelude::*;
use crate::area::{Position, Rect};
use crate::colors::bytes_view;
use crate::entry::{forest, node, Entry, EntryInfo, Forest, InfoView, Node};
use crate::ids::in_order;
use crate::path::{PathBuf, PathView, DOT};
use crate::show::{show_title_tail, title_bytes};
use crate::surgery::{get_selection, nats, resolve};

verus! {

/// How the forest is built.
#[derive(Clone, Copy, Debug, PartialEq, Eq, Structural)]
pub enum AppMode {
    /// By directory.
    Normal,
    /// By file type, then by directory.
    Xray,
}

impl Default for AppMode {
    fn default() -> (r: Self)
        ensures
            r == AppMode::Normal,
    {
        AppMode::Normal
    }
}

/// What has to be done before the next frame is drawn.
#[derive(Clone, Copy, Debug, PartialEq, Eq, Structural)]
pub enum AppAction {
    Noop,
    SwitchMode(AppMode),
    Deflate,
    Expand,
    ForceRescan,
    PromptDelete,
    ConfirmDelete,
    CancelDelete,
}

impl Default for AppAction {
    fn default() -> (r: Self)
        ensures
            r == AppAction::Noop,
    {
        AppAction::Noop
    }
}

/// The state of the navigator.
#[derive(Debug)]
pub struct TreeState {
    /// The address of the selected entry.
    pub selected: Vec<usize>,
    /// The addresses of the entries that are opened in the next frame.
    pub opened: Vec<Vec<usize>>,
}

/// The addresses in a list.
pub open spec fn addresses(s: Seq<Vec<usize>>) -> Seq<Seq<usize>> {
    s.map_values(|a: Vec<usize>| a@)
}

/// What the state of the navigator is.
#[verifier::ext_equal]
pub struct TreeStateView {
    pub selected: Seq<usize>,
    pub opened: Seq<Seq<usize>>,
}

impl TreeStateView {
    /// Nothing selected, nothing opened.
    pub open spec fn blank() -> Self {
        TreeStateView { selected: Seq::empty(), opened: Seq::empty() }
    }

    /// After an entry was selected.
    pub open spec fn select(self, addr: Seq<usize>) -> Self {
        TreeStateView { selected: addr, ..self }
    }

    /// After an entry was opened. The forest itself always is, and an entry is
    /// opened once.
    pub open spec fn open_at(self, addr: Seq<usize>) -> Self {
        if addr.len() == 0 || self.opened.contains(addr) {
            self
        } else {
            TreeStateView { opened: self.opened.push(addr), ..self }
        }
    }

    /// After the entries on the way to an address were opened, as far as the
    /// first `n` steps.
    pub open spec fn open_way(self, addr: Seq<usize>, n: nat) -> Self
        decreases n,
    {
        if n == 0 {
            self
        } else {
            self.open_way(addr, (n - 1) as nat).open_at(addr.take(n - 1))
        }
    }

    /// After the entries above an address were opened and it was selected.
    pub open spec fn show(self, addr: Seq<usize>) -> Self {
        self.open_way(addr, addr.len()).select(addr)
    }
}

impl View for TreeState {
    type V = TreeStateView;

    open spec fn view(&self) -> TreeStateView {
        TreeStateView { selected: self.selected@, opened: addresses(self.opened@) }
    }
}

impl Default for TreeState {
    fn default() -> (r: Self)
        ensures
            r@ == TreeStateView::blank(),
    {
        let r = TreeState { selected: Vec::new(), opened: Vec::new() };
        assert(r@ =~= TreeStateView::blank());
        r
    }
}

/// A copy of the first ids of an address.
pub fn copy_ids(ids: &[usize], from: usize, to: usize) -> (r: Vec<usize>)
    requires
        from <= to <= ids@.len(),
    ensures
        r@ == ids@.subrange(from as int, to as int),
{
    let mut r: Vec<usize> = Vec::new();
    let mut i: usize = from;
    while i < to
        invariant
            from <= i <= to <= ids@.len(),
            r@ == ids@.subrange(from as int, i as int),
        decreases to - i,
    {
        r.push(ids[i]);
        assert(r@ =~= ids@.subrange(from as int, i + 1));
        i += 1;
    }
    r
}

/// Whether two addresses are the same.
pub fn same_ids(a: &Vec<usize>, b: &Vec<usize>) -> (r: bool)
    ensures
        r == (a@ == b@),
{
    if a.len() != b.len() {
        return false;
    }
    let mut i: usize = 0;
    while i < a.len()
        invariant
            i <= a@.len(),
            a@.len() == b@.len(),
            forall|j: int| 0 <= j < i ==> a@[j] == b@[j],
        decreases a.len() - i,
    {
        if a[i] != b[i] {
            return false;
        }
        i += 1;
    }
    assert(a@ =~= b@);
    true
}

fn has_address(list: &Vec<Vec<usize>>, addr: &Vec<usize>) -> (r: bool)
    ensures
        r == addresses(list@).contains(addr@),
{
    let mut i: usize = 0;
    while i < list.len()
        invariant
            i <= list@.len(),
            forall|j: int| 0 <= j < i ==> (#[trigger] list@[j])@ != addr@,
        decreases list.len() - i,
    {
        if same_ids(&list[i], addr) {
            assert(addresses(list@)[i as int] == addr@);
            return true;
        }
        i += 1;
    }
    proof {
        if addresses(list@).contains(addr@) {
            let j = choose|j: int|
                0 <= j < addresses(list@).len() && addresses(list@)[j] == addr@;
            assert(list@[j]@ == addr@);
        }
    }
    false
}

impl TreeState {
    /// Selects an entry, and says whether that changed the selection.
    pub fn select(&mut self, addr: Vec<usize>) -> (r: bool)
        ensures
            final(self)@ == old(self)@.select(addr@),
            r == (old(self)@.selected != addr@),
    {
        let r = !same_ids(&self.selected, &addr);
        self.selected = addr;
        r
    }

    /// Opens an entry.
    pub fn open(&mut self, addr: Vec<usize>)
        ensures
            final(self)@ == old(self)@.open_at(addr@),
    {
        if addr.len() > 0 && !has_address(&self.opened, &addr) {
            let ghost before = addresses(self.opened@);
            self.opened.push(addr);
            assert(addresses(self.opened@) =~= before.push(addr@));
        }
    }
}

/// What the user sees of a forest.
#[derive(Debug)]
pub struct AppState {
    pub root: PathBuf,
    pub mode: AppMode,
    pub action: AppAction,
    pub diagnostic: bool,
    pub view_info: Option<EntryInfo>,
    pub title: Option<Vec<u8>>,
    /// The address of the entry whose content is shown.
    pub skip_view: Vec<usize>,
    pub tree_state: TreeState,
    pub tag: Option<Vec<u8>>,
    pub click_pos: Option<Position>,
    pub click_area: Rect,
    pub click_addr: Vec<usize>,
    pub pending_delete: Option<EntryInfo>,
    pub status_msg: Option<String>,
}

/// What an optional summary says.
pub open spec fn info_view(info: Option<EntryInfo>) -> Option<InfoView> {
    match info {
        Some(it) => Some(it@),
        None => None,
    }
}

/// The characters of an optional text.
pub open spec fn text_view(text: Option<String>) -> Option<Seq<char>> {
    match text {
        Some(it) => Some(it@),
        None => None,
    }
}

/// What the state of the view is.
#[verifier::ext_equal]
pub struct StateView {
    pub root: PathView,
    pub mode: AppMode,
    pub action: AppAction,
    pub diagnostic: bool,
    pub view_info: Option<InfoView>,
    pub title: Option<Seq<u8>>,
    pub skip_view: Seq<usize>,
    pub tree_state: TreeStateView,
    pub tag: Option<Seq<u8>>,
    pub click_pos: Option<Position>,
    pub click_area: Rect,
    pub click_addr: Seq<usize>,
    pub pending_delete: Option<InfoView>,
    pub status_msg: Option<Seq<char>>,
}

impl View for AppState {
    type V = StateView;

    open spec fn view(&self) -> StateView {
        StateView {
            root: self.root@,
            mode: self.mode,
            action: self.action,
            diagnostic: self.diagnostic,
            view_info: info_view(self.view_info),
            title: bytes_view(self.title),
            skip_view: self.skip_view@,
            tree_state: self.tree_state@,
            tag: bytes_view(self.tag),
            click_pos: self.click_pos,
            click_area: self.click_area,
            click_addr: self.click_addr@,
            pending_delete: info_view(self.pending_delete),
            status_msg: text_view(self.status_msg),
        }
    }
}

impl StateView {
    /// The state before anything was shown of a root.
    pub open spec fn blank(root: PathView, mode: AppMode) -> Self {
        StateView {
            root,
            mode,
            action: AppAction::Noop,
            diagnostic: false,
            view_info: None,
            title: None,
            skip_view: Seq::empty(),
            tree_state: TreeStateView::blank(),
            tag: None,
            click_pos: None,
            click_area: Rect { x: 0, y: 0, width: 0, height: 0 },
            click_addr: Seq::empty(),
            pending_delete: None,
            status_msg: None,
        }
    }

    /// The address of the selection within the whole forest.
    pub open spec fn qual_select(self) -> Seq<usize> {
        self.skip_view + self.tree_state.selected
    }

    /// After an entry of the view was selected and those above it were opened.
    pub open spec fn show_selection(self, addr: Seq<usize>) -> Self {
        StateView { tree_state: self.tree_state.show(addr), ..self }
    }
}

impl AppState {
    /// The state before anything was shown of a root.
    pub fn new(path: &PathBuf, mode: AppMode) -> (r: Self)
        ensures
            r@ == StateView::blank(path@, mode),
    {
        let r = AppState {
            root: path.clone(),
            mode,
            action: AppAction::default(),
            diagnostic: false,
            view_info: None,
            title: None,
            skip_view: Vec::new(),
            tree_state: TreeState::default(),
            tag: None,
            click_pos: None,
            click_area: Rect::default(),
            click_addr: Vec::new(),
            pending_delete: None,
            status_msg: None,
        };
        assert(r@ =~= StateView::blank(path@, mode));
        r
    }

    /// The address of the selection within the whole forest: that of the view,
    /// then that of the selection in the view.
    pub fn qual_select(&self) -> (r: Vec<usize>)
        ensures
            r@ == self@.qual_select(),
    {
        let mut r = copy_ids(self.skip_view.as_slice(), 0, self.skip_view.len());
        assert(r@ =~= self.skip_view@);
        let mut i: usize = 0;
        while i < self.tree_state.selected.len()
            invariant
                i <= self.tree_state.selected@.len(),
                r@ == self.skip_view@ + self.tree_state.selected@.take(i as int),
            decreases self.tree_state.selected.len() - i,
        {
            r.push(self.tree_state.selected[i]);
            assert(r@ =~= self.skip_view@ + self.tree_state.selected@.take(i + 1));
            i += 1;
        }
        assert(self.tree_state.selected@.take(i as int) =~= self.tree_state.selected@);
        r
    }

    /// Selects an entry of the view, and opens those above it.
    pub fn show_selection(&mut self, addr: &[usize])
        ensures
            final(self)@ == old(self)@.show_selection(addr@),
    {
        let ghost before = self@;
        let mut i: usize = 0;
        while i < addr.len()
            invariant
                i <= addr@.len(),
                self@ == (StateView { tree_state: before.tree_state.open_way(addr@, i as nat), ..before }),
            decreases addr.len() - i,
        {
            let way = copy_ids(addr, 0, i);
            assert(way@ =~= addr@.take(i as int));
            self.tree_state.open(way);
            assert(before.tree_state.open_way(addr@, (i + 1) as nat) == before.tree_state.open_way(
                addr@,
                i as nat,
            ).open_at(addr@.take(i as int)));
            i += 1;
        }
        let all = copy_ids(addr, 0, addr.len());
        assert(all@ =~= addr@);
        self.tree_state.select(all);
    }

    /// Shows a summary, and a title that is made of it.
    pub fn show_info(&mut self, info: EntryInfo)
        requires
            has_plain_tag(info@),
        ensures
            final(self)@ == (StateView {
                view_info: Some(info@),
                title: Some(title_bytes(info@)),
                ..old(self)@
            }),
    {
        let title = get_title(self, &info);
        self.title = Some(title);
        self.view_info = Some(info);
    }

    /// A button was pressed at a place. What was pressed before is forgotten.
    pub fn press(&mut self, at: Position)
        ensures
            final(self)@ == (StateView {
                click_pos: Some(at),
                click_addr: Seq::empty(),
                ..old(self)@
            }),
    {
        self.click_pos = Some(at);
        self.click_addr = Vec::new();
        assert(self.click_addr@ =~= Seq::empty());
    }
}

/// Whether the tag of a summary can end a file name.
pub open spec fn has_plain_tag(info: InfoView) -> bool {
    info.tag matches Some(tag) ==> !tag.contains(47u8)
}

/// Whether the tag of a summary can end a file name.
pub fn is_plain(info: &EntryInfo) -> (r: bool)
    ensures
        r == has_plain_tag(info@),
{
    match &info.tag {
        Some(tag) => {
            let mut i: usize = 0;
            while i < tag.len()
                invariant
                    i <= tag@.len(),
                    info@.tag == Some(tag@),
                    forall|j: int| 0 <= j < i ==> tag@[j] != 47u8,
                decreases tag.len() - i,
            {
                if tag[i] == 47u8 {
                    assert(tag@.contains(47u8));
                    return false;
                }
                i += 1;
            }
            true
        },
        None => true,
    }
}

/// The title of a view: what it shows, its size and its number of files.
pub fn get_title(state: &AppState, info: &EntryInfo) -> (r: Vec<u8>)
    requires
        has_plain_tag(info@),
    ensures
        r@ == title_bytes(info@),
{
    let mut title = match &info.tag {
        Some(tag) => {
            let mut name: Vec<u8> = Vec::new();
            name.push(42u8);
            name.push(42u8);
            if tag.len() > 0 {
                name.push(DOT);
                let mut i: usize = 0;
                while i < tag.len()
                    invariant
                        i <= tag@.len(),
                        name@ == seq![42u8, 42u8, DOT] + tag@.take(i as int),
                    decreases tag.len() - i,
                {
                    name.push(tag[i]);
                    assert(name@ =~= seq![42u8, 42u8, DOT] + tag@.take(i + 1));
                    i += 1;
                }
                assert(tag@.take(i as int) =~= tag@);
                assert(name@ =~= seq![42u8, 42u8, DOT] + tag@);
            } else {
                assert(name@ =~= seq![42u8, 42u8]);
            }
            info.path.child(name.as_slice()).to_bytes()
        },
        None => info.path.to_bytes(),
    };
    let tail = show_title_tail(info);
    let more = tail.as_str().as_bytes();
    let ghost start = title@;
    let mut i: usize = 0;
    while i < more.len()
        invariant
            i <= more@.len(),
            title@ == start + more@.take(i as int),
        decreases more.len() - i,
    {
        title.push(more[i]);
        assert(title@ =~= start + more@.take(i + 1));
        i += 1;
    }
    assert(more@.take(i as int) =~= more@);
    title
}

/// A forest, and the address of the entry in it that the user looks at.
#[derive(Debug)]
pub struct TreeFocus {
    pub tree: Forest,
    pub focus: Vec<usize>,
}

/// What a forest with a focus is.
#[verifier::ext_equal]
pub struct FocusView {
    pub tree: Seq<(nat, Node)>,
    pub focus: Seq<usize>,
}

impl FocusView {
    /// The entry that the user looks at.
    pub open spec fn at(self) -> Option<Node> {
        resolve(self.tree, nats(self.focus))
    }
}

impl View for TreeFocus {
    type V = FocusView;

    open spec fn view(&self) -> FocusView {
        FocusView { tree: forest(self.tree@), focus: self.focus@ }
    }
}

impl Default for TreeFocus {
    fn default() -> (r: Self)
        ensures
            r@ == (FocusView { tree: Seq::empty(), focus: Seq::empty() }),
    {
        let r = TreeFocus { tree: Vec::new(), focus: Vec::new() };
        assert(forest(r.tree@) =~= Seq::empty());
        assert(r.focus@ =~= Seq::empty());
        r
    }
}

impl TreeFocus {
    /// A forest that the user looks at nothing of.
    pub fn new(tree: Forest) -> (r: Self)
        ensures
            r@ == (FocusView { tree: forest(tree@), focus: Seq::empty() }),
    {
        let r = TreeFocus { tree, focus: Vec::new() };
        assert(r.focus@ =~= Seq::empty());
        r
    }

    /// Looks at the entry at an address.
    pub fn select(&mut self, selection: &[usize])
        ensures
            final(self)@ == (FocusView { focus: selection@, ..old(self)@ }),
    {
        self.focus = copy_ids(selection, 0, selection.len());
        assert(self.focus@ =~= selection@);
    }

    /// The entry that the user looks at.
    pub fn entry(&self) -> (r: Option<&Entry>)
        requires
            in_order(self@.tree),
        ensures
            match r {
                Some(e) => self@.at() == Some(node(*e)),
                None => self@.at() is None,
            },
    {
        get_selection(self.focus.as_slice(), self.tree.as_slice())
    }
}

/// Opening the way to an address opens its beginnings, and nothing else. What was
/// open stays so.
proof fn lemma_way_opened(t: TreeStateView, addr: Seq<usize>, n: nat)
    requires
        n <= addr.len(),
    ensures
        forall|k: int| 0 < k < n ==> t.open_way(addr, n).opened.contains(#[trigger] addr.take(k)),
        t.opened.is_prefix_of(t.open_way(addr, n).opened),
        forall|i: int|
            t.opened.len() <= i < t.open_way(addr, n).opened.len() ==> is_beginning(
                #[trigger] t.open_way(addr, n).opened[i],
                addr,
            ),
        t.open_way(addr, n).selected == t.selected,
    decreases n,
{
    if n > 0 {
        let before = t.open_way(addr, (n - 1) as nat);
        let after = t.open_way(addr, n);
        let last = addr.take(n - 1);
        lemma_way_opened(t, addr, (n - 1) as nat);
        assert(after == before.open_at(last));
        assert(before.opened.is_prefix_of(after.opened));
        assert(t.opened =~= after.opened.subrange(0, t.opened.len() as int)) by {
            assert(t.opened =~= before.opened.subrange(0, t.opened.len() as int));
        }
        assert forall|k: int| 0 < k < n implies after.opened.contains(#[trigger] addr.take(k)) by {
            if k < n - 1 {
                assert(before.opened.contains(addr.take(k)));
                let j = choose|j: int| 0 <= j < before.opened.len() && before.opened[j] == addr.take(k);
                assert(after.opened[j] == addr.take(k));
            } else if !before.opened.contains(last) {
                assert(after.opened[before.opened.len() as int] == last);
            }
        }
        assert forall|i: int| t.opened.len() <= i < after.opened.len() implies is_beginning(
            #[trigger] after.opened[i],
            addr,
        ) by {
            if i < before.opened.len() {
                assert(after.opened[i] == before.opened[i]);
            } else {
                assert(after.opened[i] == last);
                assert(last =~= addr.subrange(0, last.len() as int));
            }
        }
    }
}

/// Whether an address leads to an entry above another.
pub open spec fn is_beginning(above: Seq<usize>, addr: Seq<usize>) -> bool {
    0 < above.len() < addr.len() && above.is_prefix_of(addr)
}

/// Showing an entry selects it and opens all entries above it, and no other. What
/// was open stays so.
pub proof fn showing_opens_the_way(t: TreeStateView, addr: Seq<usize>)
    ensures
        t.show(addr).selected == addr,
        forall|k: int| 0 < k < addr.len() ==> t.show(addr).opened.contains(#[trigger] addr.take(k)),
        t.opened.is_prefix_of(t.show(addr).opened),
        forall|i: int|
            t.opened.len() <= i < t.show(addr).opened.len() ==> is_beginning(
                #[trigger] t.show(addr).opened[i],
                addr,
            ),
{
    lemma_way_opened(t, addr, addr.len());
}

/// No entry is opened twice.
pub proof fn nothing_is_opened_twice(t: TreeStateView, addr: Seq<usize>)
    requires
        t.opened.no_duplicates(),
    ensures
        t.open_at(addr).opened.no_duplicates(),
        addr.len() > 0 ==> t.open_at(addr).opened.contains(addr),
        t.open_at(addr).open_at(addr) == t.open_at(addr),
        t.open_at(addr).selected == t.selected,
{
    if addr.len() > 0 && !t.opened.contains(addr) {
        assert(t.open_at(addr).opened[t.opened.len() as int] == addr);
    }
}

} // verus!
