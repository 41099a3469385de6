//! The application: a forest, what the user sees of it, and what the keys do.
use vstd::prelude::*;
use crate::area::Position;
use crate::cli::{Args, ArgsView};
use crate::colors::ColorScheme;
use crate::entry::{
    bare, forest, info_of, node, nodes, sum_leaves, sum_nfiles, sum_size, sums_fit, Entry, EntryInfo,
    Forest, InfoView, Node, TreeSlice,
};
use crate::growth::{total_leaves, total_nfiles, total_size};
use crate::ids::{has_id, in_order, index_of_id};
use crate::path::{copy_bytes, PathView};
use crate::state::{copy_ids, AppAction, AppMode, AppState, FocusView, StateView, TreeFocus};
use crate::surgery::{find_id, get_selection, nats, resolve};

verus! {

broadcast use crate::ids::lemma_index_of_id;

/// A forest and what the user does with it.
#[derive(Debug)]
pub struct App {
    pub colors: ColorScheme,
    pub args: Args,
    pub exit: bool,
    pub entries: TreeFocus,
    /// The leaves that lie outside of an x-rayed view.
    pub reserve: Vec<Entry>,
    /// The address of the selection in the view, as it was last drawn.
    pub selection: Vec<usize>,
}

/// What the application is.
#[verifier::ext_equal]
pub struct AppView {
    pub colors: ColorScheme,
    pub args: ArgsView,
    pub exit: bool,
    pub entries: FocusView,
    pub reserve: Seq<Node>,
    pub selection: Seq<usize>,
}

impl View for App {
    type V = AppView;

    open spec fn view(&self) -> AppView {
        AppView {
            colors: self.colors,
            args: self.args@,
            exit: self.exit,
            entries: self.entries@,
            reserve: nodes(self.reserve@),
            selection: self.selection@,
        }
    }
}

/// A key.
#[derive(Clone, Copy, Debug, PartialEq, Eq, Structural)]
pub enum Key {
    Char(char),
    Left,
    Right,
    Down,
    Up,
    Esc,
    Home,
    End,
    PageDown,
    PageUp,
    Enter,
    Backspace,
    Other,
}

/// What the user did.
#[derive(Clone, Copy, Debug, PartialEq, Eq, Structural)]
pub enum Input {
    /// A key was pressed.
    Key(Key),
    /// The wheel was turned.
    ScrollDown,
    ScrollUp,
    /// A button was pressed at a place.
    Press(Position),
    /// A button was released.
    Release,
    /// The terminal has another size.
    Resize,
    Other,
}

/// What the navigator itself does. Only it knows which entries it shows.
#[derive(Clone, Copy, Debug, PartialEq, Eq, Structural)]
pub enum TreeCommand {
    ToggleSelected,
    CloseAll,
    KeyLeft,
    KeyRight,
    KeyDown,
    KeyUp,
    SelectFirst,
    SelectLast,
    ScrollDown(usize),
    ScrollUp(usize),
    /// Selects what is drawn at a place.
    ClickAt(Position),
}

/// What is left to do about an input.
#[derive(Clone, Copy, Debug, PartialEq, Eq, Structural)]
pub enum Outcome {
    /// Nothing. The flag says whether a frame has to be drawn.
    Done(bool),
    /// The navigator has its part to do, and says whether a frame has to be
    /// drawn.
    Navigate(TreeCommand),
    /// The navigator has its part to do, and a frame has to be drawn.
    Click(TreeCommand),
    /// The navigator has to be built again from the view, and a frame has to be
    /// drawn.
    Rebuild,
}

/// The entries that a view shows: for each id the entries below the one that
/// has it, if there are any.
pub open spec fn view_of(f: Seq<(nat, Node)>, skip: Seq<usize>) -> Seq<(nat, Node)>
    decreases skip.len(),
{
    if skip.len() == 0 {
        f
    } else {
        let id = skip[0] as nat;
        let below = f[index_of_id(f, id)].1.subtree;
        view_of(
            if has_id(f, id) && below.len() > 0 {
                below
            } else {
                f
            },
            skip.skip(1),
        )
    }
}

/// The last entry that the ids of a view lead to. An id that is not found is
/// passed over.
pub open spec fn last_met(f: Seq<(nat, Node)>, skip: Seq<usize>, before: Option<Node>) -> Option<Node>
    decreases skip.len(),
{
    if skip.len() == 0 {
        before
    } else {
        let id = skip[0] as nat;
        let n = f[index_of_id(f, id)].1;
        if has_id(f, id) {
            last_met(n.subtree, skip.skip(1), Some(n))
        } else {
            last_met(f, skip.skip(1), before)
        }
    }
}

/// The summary of a view: of the entry that it shows, or of the whole forest.
pub open spec fn view_info_of(f: Seq<(nat, Node)>, root: PathView, skip: Seq<usize>) -> InfoView {
    match last_met(f, skip, None) {
        Some(n) => info_of(n),
        None => InfoView {
            path: root,
            tag: None,
            size: sum_size(bare(f)),
            nfiles: sum_nfiles(bare(f)),
            leaves: sum_leaves(bare(f)),
        },
    }
}

/// The address of a view without what leads to entries that have nothing below
/// them.
pub open spec fn shown(f: Seq<(nat, Node)>, skip: Seq<usize>) -> Seq<usize>
    decreases skip.len(),
{
    if skip.len() == 0 {
        skip
    } else {
        match resolve(f, nats(skip)) {
            Some(n) => if n.subtree.len() == 0 {
                shown(f, skip.drop_last())
            } else {
                skip
            },
            None => skip,
        }
    }
}

/// The state after a view was brought in line with its address: the selection is
/// shown, and what was known of the view is forgotten.
pub open spec fn synced(f: Seq<(nat, Node)>, selection: Seq<usize>, s: StateView) -> StateView {
    StateView {
        skip_view: shown(f, s.skip_view),
        view_info: None,
        title: None,
        ..s.show_selection(selection)
    }
}

/// What a character does.
pub open spec fn char_pressed(a: AppView, s: StateView, c: char) -> (AppView, StateView) {
    if c == 'q' {
        (AppView { exit: true, ..a }, s)
    } else if c == '+' || c == '=' {
        (AppView { args: ArgsView { max_depth: a.args.max_depth + 1, ..a.args }, ..a }, s)
    } else if c == '-' || c == '_' {
        let depth = if a.args.max_depth > 1 {
            (a.args.max_depth - 1) as nat
        } else {
            a.args.max_depth
        };
        (AppView { args: ArgsView { max_depth: depth, ..a.args }, ..a }, s)
    } else if c == 'i' {
        (
            AppView { entries: FocusView { focus: s.qual_select(), ..a.entries }, ..a },
            StateView { diagnostic: !s.diagnostic, view_info: None, ..s },
        )
    } else if c == 'x' {
        let mode = match s.mode {
            AppMode::Normal => AppMode::Xray,
            AppMode::Xray => AppMode::Normal,
        };
        (a, StateView { action: AppAction::SwitchMode(mode), ..s })
    } else if c == 'e' {
        (a, StateView { action: AppAction::Expand, ..s })
    } else if c == 'E' {
        (a, StateView { action: AppAction::ForceRescan, ..s })
    } else if c == 'd' {
        (a, StateView { action: AppAction::Deflate, ..s })
    } else if c == '<' {
        (AppView { selection: Seq::empty(), ..a }, s)
    } else if c == '`' {
        (a, StateView { tree_state: s.tree_state.select(Seq::empty()), ..s })
    } else if c == '\\' {
        left_view(a, s)
    } else {
        (a, s)
    }
}

/// What a key does.
pub open spec fn key_pressed(a: AppView, s: StateView, key: Key) -> (AppView, StateView) {
    match key {
        Key::Char(c) => char_pressed(a, s, c),
        Key::Esc => (a, StateView { tree_state: s.tree_state.select(Seq::empty()), ..s }),
        Key::Enter => entered_view(a, s),
        Key::Backspace => left_view(a, s),
        _ => (a, s),
    }
}

/// After the selected entry became the view.
pub open spec fn entered_view(a: AppView, s: StateView) -> (AppView, StateView) {
    (
        AppView { selection: Seq::empty(), ..a },
        synced(
            a.entries.tree,
            Seq::empty(),
            StateView { skip_view: s.qual_select(), ..s },
        ),
    )
}

/// After the entry above became the view. The entry that was the view, and
/// nothing below it, is selected in it.
pub open spec fn left_view(a: AppView, s: StateView) -> (AppView, StateView) {
    if s.skip_view.len() == 0 {
        (a, synced(a.entries.tree, a.selection, s))
    } else {
        let selection = seq![s.skip_view.last()];
        (
            AppView { selection, ..a },
            synced(
                a.entries.tree,
                selection,
                StateView { skip_view: s.skip_view.drop_last(), ..s },
            ),
        )
    }
}

/// What is left to do after a character was typed.
pub open spec fn char_outcome(s: StateView, c: char) -> Outcome {
    if c == ' ' {
        Outcome::Navigate(TreeCommand::ToggleSelected)
    } else if c == '<' {
        Outcome::Navigate(TreeCommand::CloseAll)
    } else if c == '`' {
        Outcome::Done(s.tree_state.selected.len() > 0)
    } else if c == '\\' {
        Outcome::Rebuild
    } else {
        Outcome::Done(
            c == 'q' || c == '+' || c == '=' || c == '-' || c == '_' || c == 'i' || c == 'x' || c
                == 'e' || c == 'E' || c == 'd',
        )
    }
}

/// What is left to do after a key was pressed.
pub open spec fn key_outcome(s: StateView, key: Key) -> Outcome {
    match key {
        Key::Char(c) => char_outcome(s, c),
        Key::Left => Outcome::Navigate(TreeCommand::KeyLeft),
        Key::Right => Outcome::Navigate(TreeCommand::KeyRight),
        Key::Down => Outcome::Navigate(TreeCommand::KeyDown),
        Key::Up => Outcome::Navigate(TreeCommand::KeyUp),
        Key::Esc => Outcome::Done(s.tree_state.selected.len() > 0),
        Key::Home => Outcome::Navigate(TreeCommand::SelectFirst),
        Key::End => Outcome::Navigate(TreeCommand::SelectLast),
        Key::PageDown => Outcome::Navigate(TreeCommand::ScrollDown(3)),
        Key::PageUp => Outcome::Navigate(TreeCommand::ScrollUp(3)),
        Key::Enter => Outcome::Rebuild,
        Key::Backspace => Outcome::Rebuild,
        Key::Other => Outcome::Done(false),
    }
}

/// Whether a key makes the depth larger.
pub open spec fn deepens(key: Key) -> bool {
    key == Key::Char('+') || key == Key::Char('=')
}

/// What an input does.
pub open spec fn input_taken(a: AppView, s: StateView, input: Input) -> (AppView, StateView) {
    match input {
        Input::Key(key) => key_pressed(a, s, key),
        Input::Press(at) => (
            a,
            StateView { click_pos: Some(at), click_addr: Seq::empty(), ..s },
        ),
        _ => (a, s),
    }
}

/// What is left to do after an input.
pub open spec fn input_outcome(s: StateView, input: Input) -> Outcome {
    match input {
        Input::Key(key) => key_outcome(s, key),
        Input::ScrollDown => Outcome::Navigate(TreeCommand::ScrollDown(1)),
        Input::ScrollUp => Outcome::Navigate(TreeCommand::ScrollUp(1)),
        Input::Press(at) => Outcome::Click(TreeCommand::ClickAt(at)),
        Input::Release => Outcome::Done(true),
        Input::Resize => Outcome::Done(true),
        Input::Other => Outcome::Done(false),
    }
}

/// What is made of a click before a frame is drawn: what was clicked on in the
/// last frame is selected.
pub open spec fn click_taken(a: AppView, s: StateView) -> (AppView, StateView) {
    if s.click_addr.len() == 0 {
        (a, s)
    } else {
        (
            AppView {
                entries: FocusView { focus: s.skip_view + s.click_addr, ..a.entries },
                ..a
            },
            StateView {
                click_addr: Seq::empty(),
                click_pos: None,
                ..s.show_selection(s.click_addr)
            },
        )
    }
}

/// The application and the state that a frame is drawn of.
pub open spec fn frame_begun(a: AppView, s: StateView) -> (AppView, StateView) {
    let (b, t) = click_taken(a, s);
    (AppView { selection: t.tree_state.selected, ..b }, t)
}

/// The file type that an entry stands for: its tag, or for a file or a group the
/// extension of its name.
pub open spec fn type_of(n: Node) -> Option<Seq<u8>> {
    match n.tag {
        Some(tag) => Some(tag),
        None => if n.subtree.len() == 0 || n.is_group {
            match n.path.extension() {
                Some(ext) => Some(ext),
                None => Some(Seq::empty()),
            }
        } else {
            None
        },
    }
}

/// After an input was dealt with: the user looks at the selection, and its file
/// type is kept.
pub open spec fn input_settled(a: AppView, s: StateView) -> (AppView, StateView) {
    let b = AppView { entries: FocusView { focus: s.qual_select(), ..a.entries }, ..a };
    (
        b,
        match b.entries.at() {
            Some(n) => match type_of(n) {
                Some(tag) => StateView { tag: Some(tag), ..s },
                None => s,
            },
            None => s,
        },
    )
}

/// Adds ids at the end of an address.
pub fn extend_ids(to: &mut Vec<usize>, ids: &[usize])
    ensures
        final(to)@ == old(to)@ + ids@,
{
    let ghost start = to@;
    let mut i: usize = 0;
    assert(start + ids@.take(0) =~= start);
    while i < ids.len()
        invariant
            i <= ids@.len(),
            to@ == start + ids@.take(i as int),
        decreases ids.len() - i,
    {
        to.push(ids[i]);
        assert(to@ =~= start + ids@.take(i + 1));
        i += 1;
    }
    assert(ids@.take(i as int) =~= ids@);
}

impl App {
    /// An application that shows a forest.
    pub fn new(colors: ColorScheme, args: Args, entries: Forest) -> (r: Self)
        ensures
            r@ == (AppView {
                colors,
                args: args@,
                exit: false,
                entries: FocusView { tree: forest(entries@), focus: Seq::empty() },
                reserve: Seq::empty(),
                selection: Seq::empty(),
            }),
    {
        let r = App {
            colors,
            args,
            exit: false,
            entries: TreeFocus::new(entries),
            reserve: Vec::new(),
            selection: Vec::new(),
        };
        assert(nodes(r.reserve@) =~= Seq::empty());
        assert(r.selection@ =~= Seq::empty());
        r
    }

    /// The entries that the view shows.
    pub fn get_view(&self, state: &AppState) -> (r: TreeSlice)
        requires
            in_order(self@.entries.tree),
        ensures
            forest(r@) == view_of(self@.entries.tree, state@.skip_view),
            in_order(forest(r@)),
    {
        let ghost f = forest(self.entries.tree@);
        let ghost skip = state.skip_view@;
        let mut view: TreeSlice = self.entries.tree.as_slice();
        let mut i: usize = 0;
        assert(skip.skip(0) =~= skip);
        while i < state.skip_view.len()
            invariant
                i <= skip.len(),
                skip == state.skip_view@,
                in_order(forest(view@)),
                view_of(f, skip) == view_of(forest(view@), skip.skip(i as int)),
            decreases state.skip_view.len() - i,
        {
            assert(skip.skip(i as int).skip(1) =~= skip.skip(i + 1));
            assert(skip.skip(i as int)[0] == skip[i as int]);
            let ghost level = forest(view@);
            if let Some(idx) = find_id(view, state.skip_view[i]) {
                assert(level[idx as int].1.subtree == forest(view@[idx as int].1.subtree@));
                if view[idx].1.subtree.len() > 0 {
                    view = view[idx].1.subtree.as_slice();
                }
            }
            i += 1;
        }
        assert(skip.skip(i as int) =~= Seq::empty());
        view
    }

    /// The summary of the view.
    pub fn view_info(&self, state: &AppState) -> (r: EntryInfo)
        requires
            in_order(self@.entries.tree),
            sums_fit(bare(self@.entries.tree)),
        ensures
            r@ == view_info_of(self@.entries.tree, state@.root, state@.skip_view),
    {
        let ghost f = forest(self.entries.tree@);
        let ghost skip = state.skip_view@;
        let mut result: Option<&Entry> = None;
        let ghost mut met: Option<Node> = None;
        let mut cursor: TreeSlice = self.entries.tree.as_slice();
        let mut i: usize = 0;
        assert(skip.skip(0) =~= skip);
        while i < state.skip_view.len()
            invariant
                i <= skip.len(),
                skip == state.skip_view@,
                in_order(forest(cursor@)),
                met == match result {
                    Some(e) => Some(node(*e)),
                    None => None,
                },
                last_met(f, skip, None) == last_met(forest(cursor@), skip.skip(i as int), met),
            decreases state.skip_view.len() - i,
        {
            assert(skip.skip(i as int).skip(1) =~= skip.skip(i + 1));
            assert(skip.skip(i as int)[0] == skip[i as int]);
            let ghost level = forest(cursor@);
            if let Some(idx) = find_id(cursor, state.skip_view[i]) {
                proof {
                    assert(level[idx as int].1.subtree == forest(cursor@[idx as int].1.subtree@));
                    met = Some(level[idx as int].1);
                }
                result = Some(&cursor[idx].1);
                cursor = cursor[idx].1.subtree.as_slice();
            }
            i += 1;
        }
        assert(skip.skip(i as int) =~= Seq::empty());
        match result {
            Some(e) => EntryInfo::of(e),
            None => {
                let tree = self.entries.tree.as_slice();
                EntryInfo {
                    path: state.root.clone(),
                    tag: None,
                    size: total_size(tree),
                    nfiles: total_nfiles(tree),
                    leaves: total_leaves(tree),
                }
            },
        }
    }

    /// Brings the view in line with its address.
    pub fn sync_view(&mut self, state: &mut AppState)
        requires
            in_order(old(self)@.entries.tree),
        ensures
            final(self)@ == old(self)@,
            final(state)@ == synced(old(self)@.entries.tree, old(self)@.selection, old(state)@),
    {
        let ghost f = self@.entries.tree;
        let ghost before = state@;
        loop
            invariant
                f == self@.entries.tree,
                self@ == old(self)@,
                in_order(f),
                state@ == (StateView { skip_view: state@.skip_view, ..before }),
                shown(f, before.skip_view) == shown(f, state@.skip_view),
            ensures
                shown(f, before.skip_view) == state@.skip_view,
            decreases state.skip_view@.len(),
        {
            let leaf = match get_selection(
                state.skip_view.as_slice(),
                self.entries.tree.as_slice(),
            ) {
                Some(entry) => entry.subtree.len() == 0,
                None => false,
            };
            assert(state.skip_view@.len() == 0 ==> resolve(f, nats(state.skip_view@)) is None);
            if !leaf {
                break ;
            }
            let ghost way = state.skip_view@;
            let _ = state.skip_view.pop();
            assert(state.skip_view@ =~= way.drop_last());
        }
        state.show_selection(self.selection.as_slice());
        state.view_info = None;
        state.title = None;
        assert(state@ =~= synced(f, self@.selection, before));
    }

    fn enter_view(&mut self, state: &mut AppState)
        requires
            in_order(old(self)@.entries.tree),
        ensures
            (final(self)@, final(state)@) == entered_view(old(self)@, old(state)@),
    {
        extend_ids(&mut state.skip_view, state.tree_state.selected.as_slice());
        self.selection = Vec::new();
        assert(self.selection@ =~= Seq::empty());
        assert(self@ =~= (AppView { selection: Seq::empty(), ..old(self)@ }));
        assert(state@ =~= (StateView { skip_view: old(state)@.qual_select(), ..old(state)@ }));
        self.sync_view(state);
    }

    fn leave_view(&mut self, state: &mut AppState)
        requires
            in_order(old(self)@.entries.tree),
        ensures
            (final(self)@, final(state)@) == left_view(old(self)@, old(state)@),
    {
        if let Some(id) = state.skip_view.pop() {
            let mut selection: Vec<usize> = Vec::new();
            selection.push(id);
            assert(selection@ =~= seq![old(state)@.skip_view.last()]);
            self.selection = selection;
            assert(state.skip_view@ =~= old(state)@.skip_view.drop_last());
            assert(state@ =~= (StateView {
                skip_view: old(state)@.skip_view.drop_last(),
                ..old(state)@
            }));
        }
        self.sync_view(state);
    }

    fn set_depth(&mut self, depth: usize)
        ensures
            final(self)@ == (AppView {
                args: ArgsView { max_depth: depth as nat, ..old(self)@.args },
                ..old(self)@
            }),
    {
        self.args.max_depth = depth;
    }

    fn clear_selection(&mut self)
        ensures
            final(self)@ == (AppView { selection: Seq::empty(), ..old(self)@ }),
    {
        self.selection = Vec::new();
        assert(self.selection@ =~= Seq::empty());
    }

    fn toggle_diagnostic(&mut self, state: &mut AppState)
        ensures
            final(self)@ == (AppView {
                entries: FocusView { focus: old(state)@.qual_select(), ..old(self)@.entries },
                ..old(self)@
            }),
            final(state)@ == (StateView {
                diagnostic: !old(state)@.diagnostic,
                view_info: None,
                ..old(state)@
            }),
    {
        let selection = state.qual_select();
        self.entries.select(selection.as_slice());
        state.diagnostic = !state.diagnostic;
        state.view_info = None;
    }

    fn ask(state: &mut AppState, action: AppAction)
        ensures
            final(state)@ == (StateView { action, ..old(state)@ }),
    {
        state.action = action;
    }

    fn press_char(&mut self, state: &mut AppState, c: char) -> (r: Outcome)
        requires
            in_order(old(self)@.entries.tree),
            c == '+' || c == '=' ==> old(self)@.args.max_depth < usize::MAX,
        ensures
            (final(self)@, final(state)@) == char_pressed(old(self)@, old(state)@, c),
            r == char_outcome(old(state)@, c),
    {
        if c == 'q' {
            self.exit();
            Outcome::Done(true)
        } else if c == '+' || c == '=' {
            let depth: usize = self.args.max_depth + 1;
            self.set_depth(depth);
            Outcome::Done(true)
        } else if c == '-' || c == '_' {
            if self.args.max_depth > 1 {
                let depth: usize = self.args.max_depth - 1;
                self.set_depth(depth);
            }
            Outcome::Done(true)
        } else if c == 'i' {
            self.toggle_diagnostic(state);
            Outcome::Done(true)
        } else if c == 'x' {
            let mode = match state.mode {
                AppMode::Normal => AppMode::Xray,
                AppMode::Xray => AppMode::Normal,
            };
            Self::ask(state, AppAction::SwitchMode(mode));
            Outcome::Done(true)
        } else if c == 'e' {
            Self::ask(state, AppAction::Expand);
            Outcome::Done(true)
        } else if c == 'E' {
            Self::ask(state, AppAction::ForceRescan);
            Outcome::Done(true)
        } else if c == 'd' {
            Self::ask(state, AppAction::Deflate);
            Outcome::Done(true)
        } else if c == ' ' {
            Outcome::Navigate(TreeCommand::ToggleSelected)
        } else if c == '<' {
            self.clear_selection();
            Outcome::Navigate(TreeCommand::CloseAll)
        } else if c == '`' {
            Outcome::Done(Self::deselect(state))
        } else if c == '\\' {
            self.leave_view(state);
            Outcome::Rebuild
        } else {
            Outcome::Done(false)
        }
    }

    /// Does what a key asks for, and says what is left to do.
    pub fn handle_key_event(&mut self, state: &mut AppState, key: Key) -> (r: Outcome)
        requires
            in_order(old(self)@.entries.tree),
            deepens(key) ==> old(self)@.args.max_depth < usize::MAX,
        ensures
            (final(self)@, final(state)@) == key_pressed(old(self)@, old(state)@, key),
            r == key_outcome(old(state)@, key),
    {
        match key {
            Key::Char(c) => self.press_char(state, c),
            Key::Left => Outcome::Navigate(TreeCommand::KeyLeft),
            Key::Right => Outcome::Navigate(TreeCommand::KeyRight),
            Key::Down => Outcome::Navigate(TreeCommand::KeyDown),
            Key::Up => Outcome::Navigate(TreeCommand::KeyUp),
            Key::Esc => Outcome::Done(Self::deselect(state)),
            Key::Home => Outcome::Navigate(TreeCommand::SelectFirst),
            Key::End => Outcome::Navigate(TreeCommand::SelectLast),
            Key::PageDown => Outcome::Navigate(TreeCommand::ScrollDown(3)),
            Key::PageUp => Outcome::Navigate(TreeCommand::ScrollUp(3)),
            Key::Enter => {
                self.enter_view(state);
                Outcome::Rebuild
            },
            Key::Backspace => {
                self.leave_view(state);
                Outcome::Rebuild
            },
            Key::Other => Outcome::Done(false),
        }
    }

    /// Does what an input asks for, and says what is left to do.
    pub fn handle_event(&mut self, state: &mut AppState, input: Input) -> (r: Outcome)
        requires
            in_order(old(self)@.entries.tree),
            input matches Input::Key(key) && deepens(key) ==> old(self)@.args.max_depth < usize::MAX,
        ensures
            (final(self)@, final(state)@) == input_taken(old(self)@, old(state)@, input),
            r == input_outcome(old(state)@, input),
    {
        match input {
            Input::Key(key) => self.handle_key_event(state, key),
            Input::ScrollDown => Outcome::Navigate(TreeCommand::ScrollDown(1)),
            Input::ScrollUp => Outcome::Navigate(TreeCommand::ScrollUp(1)),
            Input::Press(at) => {
                state.press(at);
                Outcome::Click(TreeCommand::ClickAt(at))
            },
            Input::Release => Outcome::Done(true),
            Input::Resize => Outcome::Done(true),
            Input::Other => Outcome::Done(false),
        }
    }

    fn take_click(&mut self, state: &mut AppState)
        ensures
            (final(self)@, final(state)@) == click_taken(old(self)@, old(state)@),
    {
        if state.click_addr.len() == 0 {
            return ;
        }
        let mut addr: Vec<usize> = Vec::new();
        assert(addr@ =~= Seq::empty());
        std::mem::swap(&mut addr, &mut state.click_addr);
        let mut selection = copy_ids(state.skip_view.as_slice(), 0, state.skip_view.len());
        assert(selection@ =~= state.skip_view@);
        extend_ids(&mut selection, addr.as_slice());
        self.entries.select(selection.as_slice());
        state.show_selection(addr.as_slice());
        state.click_pos = None;
        assert(self@ =~= click_taken(old(self)@, old(state)@).0);
        assert(state@ =~= click_taken(old(self)@, old(state)@).1);
    }

    /// Prepares for a frame: deals with a click on the last one, and keeps the
    /// selection.
    pub fn begin_frame(&mut self, state: &mut AppState)
        ensures
            (final(self)@, final(state)@) == frame_begun(old(self)@, old(state)@),
    {
        self.take_click(state);
        self.selection = copy_ids(
            state.tree_state.selected.as_slice(),
            0,
            state.tree_state.selected.len(),
        );
        assert(self.selection@ =~= state@.tree_state.selected);
    }

    /// Looks at the selection after an input was dealt with, and keeps its file
    /// type.
    pub fn settle_input(&mut self, state: &mut AppState)
        requires
            in_order(old(self)@.entries.tree),
        ensures
            (final(self)@, final(state)@) == input_settled(old(self)@, old(state)@),
    {
        let selection = state.qual_select();
        self.entries.select(selection.as_slice());
        assert(self@ =~= input_settled(old(self)@, old(state)@).0);
        let tag: Option<Vec<u8>> = match self.entries.entry() {
            Some(entry) => match &entry.tag {
                Some(tag) => Some(copy_bytes(tag.as_slice())),
                None => if entry.subtree.len() == 0 || entry.is_group {
                    match entry.path.extension() {
                        Some(ext) => Some(ext),
                        None => {
                            let none: Vec<u8> = Vec::new();
                            assert(none@ =~= Seq::empty());
                            Some(none)
                        },
                    }
                } else {
                    None
                },
            },
            None => None,
        };
        if tag.is_some() {
            state.tag = tag;
        }
        assert(state@ =~= input_settled(old(self)@, old(state)@).1);
    }

    /// Ends the application with the next frame.
    fn exit(&mut self)
        ensures
            final(self)@ == (AppView { exit: true, ..old(self)@ }),
    {
        self.exit = true;
    }

    fn deselect(state: &mut AppState) -> (r: bool)
        ensures
            final(state)@ == (StateView {
                tree_state: old(state)@.tree_state.select(Seq::empty()),
                ..old(state)@
            }),
            r == (old(state)@.tree_state.selected.len() > 0),
    {
        let none: Vec<usize> = Vec::new();
        assert(none@ =~= Seq::empty());
        proof {
            if old(state)@.tree_state.selected.len() == 0 {
                assert(old(state)@.tree_state.selected =~= Seq::empty());
            }
        }
        state.tree_state.select(none)
    }
}

} // verus!
