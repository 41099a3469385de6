//! What is done to the forest before a frame is drawn: switching between
//! directories and file types, deflating and expanding.
use vstd::prelude::*;
use crate::accounting::Plan;
use crate::app::{view_info_of, App, AppView};
use crate::cli::{Args, ArgsView};
use crate::colors::{bytes_view, copy_optional};
use crate::entry::{
    bare, forest, node, nodes, sum_leaves, sum_nfiles, sum_size, sums_fit, Either, Entry, Forest, Node,
    StackAddr,
};
use crate::error::Failure;
use crate::forest::{forest_of, make_forest};
use crate::growth::total_leaves;
use crate::ids::in_order;
use crate::leaves::{deforest, leaves_all};
use crate::merge::{fuse_fits, merge_forests, merged};
use crate::path::{same_bytes, PathBuf, PathView};
use crate::room::merge_fits;
use crate::siblings::reversed;
use crate::state::{
    copy_ids, same_ids, AppAction, AppMode, AppState, FocusView, StateView, TreeFocus, TreeState,
    TreeStateView,
};
use crate::surgery::{
    address_of, can_lose, get_selection, nats, prune_entry, prune_takes_the_selected, pruned, resolve,
    tree_find_path,
};
use crate::walk::path_view;

verus! {

/// Numbers as ids.
pub open spec fn as_ids(s: Seq<nat>) -> Seq<usize> {
    s.map_values(|x: nat| x as usize)
}

/// What is left of an address after its first ids, or nothing if it has not so
/// many.
pub open spec fn beyond_ids(s: Seq<usize>, n: nat) -> Seq<usize> {
    if n <= s.len() {
        s.skip(n as int)
    } else {
        Seq::empty()
    }
}

fn skip_ids(s: &Vec<usize>, n: usize) -> (r: Vec<usize>)
    ensures
        r@ == beyond_ids(s@, n as nat),
{
    if n <= s.len() {
        let r = copy_ids(s.as_slice(), n, s.len());
        assert(r@ =~= s@.skip(n as int));
        r
    } else {
        let r: Vec<usize> = Vec::new();
        assert(r@ =~= Seq::empty());
        r
    }
}

/// What a switch to another mode needs once the forest is built again.
#[derive(Debug)]
pub struct Switch {
    pub mode: AppMode,
    /// The path of the view, unless it is the root's.
    pub restore_view: Option<PathBuf>,
    /// The path of the selected entry, for a group that above it.
    pub restore_path: Option<PathBuf>,
    pub restore_tag: Option<Vec<u8>>,
}

/// What a switch is.
#[verifier::ext_equal]
pub struct SwitchView {
    pub mode: AppMode,
    pub restore_view: Option<PathView>,
    pub restore_path: Option<PathView>,
    pub restore_tag: Option<Seq<u8>>,
}

impl View for Switch {
    type V = SwitchView;

    open spec fn view(&self) -> SwitchView {
        SwitchView {
            mode: self.mode,
            restore_view: path_view(self.restore_view),
            restore_path: path_view(self.restore_path),
            restore_tag: bytes_view(self.restore_tag),
        }
    }
}

/// An application that holds no forest.
pub open spec fn emptied(a: AppView) -> AppView {
    AppView { entries: FocusView { tree: Seq::empty(), focus: Seq::empty() }, ..a }
}

/// What has to be found again after a switch.
pub open spec fn to_restore(a: AppView, s: StateView, mode: AppMode, init_root: PathView) -> SwitchView {
    SwitchView {
        mode,
        restore_view: if s.skip_view.len() == 0 && init_root == s.root {
            None
        } else {
            Some(view_info_of(a.entries.tree, s.root, s.skip_view).path)
        },
        restore_path: match a.entries.at() {
            Some(n) => if n.is_group {
                n.path.parent()
            } else {
                Some(n.path)
            },
            None => None,
        },
        restore_tag: s.tag,
    }
}

/// The part of a forest that a view shows, and the rest.
pub open spec fn cut_out(f: Seq<(nat, Node)>, skip: Seq<usize>) -> (Seq<(nat, Node)>, Seq<(nat, Node)>) {
    match pruned(f, skip) {
        Some((rest, gone)) => (gone.subtree, rest),
        None => (f, Seq::empty()),
    }
}

/// The leaves that a switch builds the forest of.
pub open spec fn switch_leaves(a: AppView, s: StateView, mode: AppMode) -> Seq<Node> {
    match mode {
        AppMode::Normal => a.reserve + leaves_all(bare(a.entries.tree)),
        AppMode::Xray => leaves_all(bare(cut_out(a.entries.tree, s.skip_view).0)),
    }
}

/// How many leaves a switch is expected to build the forest of.
pub open spec fn switch_count(a: AppView, s: StateView, mode: AppMode) -> Option<nat> {
    match mode {
        AppMode::Normal => Some(a.reserve.len() + sum_leaves(bare(a.entries.tree))),
        AppMode::Xray => match s.view_info {
            Some(info) => Some(info.leaves),
            None => None,
        },
    }
}

/// The application without the leaves that a switch builds the forest of. Those
/// outside of an x-rayed view are kept for the way back.
pub open spec fn switch_begun(a: AppView, s: StateView, mode: AppMode) -> AppView {
    AppView {
        args: ArgsView { xray: mode == AppMode::Xray, ..a.args },
        reserve: match mode {
            AppMode::Normal => Seq::empty(),
            AppMode::Xray => leaves_all(bare(cut_out(a.entries.tree, s.skip_view).1)),
        },
        ..emptied(a)
    }
}

/// The root of the forest after a switch.
pub open spec fn switch_root(a: AppView, s: StateView, mode: AppMode, init_root: PathView) -> PathView {
    match mode {
        AppMode::Normal => a.args.path,
        AppMode::Xray => match to_restore(a, s, mode, init_root).restore_view {
            Some(path) => path,
            None => a.args.path,
        },
    }
}

/// The address of what has to be found again, if it was found.
pub open spec fn found_again(f: Seq<(nat, Node)>, path: Option<PathView>, tag: Option<Seq<u8>>) -> Option<
    Seq<usize>,
> {
    match path {
        Some(p) => match address_of(f, p, tag) {
            Some(addr) => Some(as_ids(addr)),
            None => None,
        },
        None => None,
    }
}

/// The state after a switch, before the view is brought in line: what was viewed
/// and selected is looked for in the new forest.
pub open spec fn switched_state(s: StateView, w: SwitchView, f: Seq<(nat, Node)>) -> StateView {
    let skip_view = match found_again(f, w.restore_view, w.restore_tag) {
        Some(addr) => addr,
        None => Seq::empty(),
    };
    StateView {
        tag: w.restore_tag,
        title: None,
        mode: w.mode,
        click_pos: None,
        click_addr: match found_again(f, w.restore_path, w.restore_tag) {
            Some(addr) => beyond_ids(addr, skip_view.len()),
            None => Seq::empty(),
        },
        tree_state: TreeStateView::blank(),
        skip_view,
        ..s
    }
}

/// The directory that is deflated or expanded.
#[verifier::ext_equal]
pub struct AimView {
    pub selection: Seq<usize>,
    pub path: PathView,
    pub tag: Option<Seq<u8>>,
}

/// The directory that is deflated or expanded.
#[derive(Debug)]
struct Aim {
    selection: Vec<usize>,
    path: PathBuf,
    tag: Option<Vec<u8>>,
}

impl View for Aim {
    type V = AimView;

    closed spec fn view(&self) -> AimView {
        AimView { selection: self.selection@, path: self.path@, tag: bytes_view(self.tag) }
    }
}

/// Whether the entry above the selection is meant, since nothing lies below the
/// selected one.
pub open spec fn is_lifted(e: FocusView, s: StateView) -> bool {
    &&& e.at() is Some
    &&& (e.at()->0).subtree.len() == 0
    &&& s.qual_select().len() > 0
    &&& resolve(e.tree, nats(s.qual_select().drop_last())) is Some
}

/// The directory that is deflated or expanded: the selected entry, or for a leaf
/// the entry above it. Groups and leaves are not.
pub open spec fn aim_of(e: FocusView, s: StateView) -> Option<AimView> {
    match e.at() {
        Some(n) => {
            let selection = if is_lifted(e, s) {
                s.qual_select().drop_last()
            } else {
                s.qual_select()
            };
            let m = if is_lifted(e, s) {
                resolve(e.tree, nats(selection))->0
            } else {
                n
            };
            if m.is_group || m.subtree.len() == 0 {
                None
            } else {
                Some(AimView { selection, path: m.path, tag: m.tag })
            }
        },
        None => None,
    }
}

/// The state after the directory was chosen: it is selected.
pub open spec fn aimed_state(e: FocusView, s: StateView) -> StateView {
    if is_lifted(e, s) {
        StateView {
            tree_state: s.tree_state.select(
                beyond_ids(s.qual_select().drop_last(), s.skip_view.len()),
            ),
            ..s
        }
    } else {
        s
    }
}

/// What became of a change to the forest.
#[derive(Clone, Copy, Debug, PartialEq, Eq, Structural)]
pub enum Change {
    /// Nothing.
    Nothing,
    /// The forest is another one, so the navigator has to be built again.
    Rebuild,
    /// The counts of the new forest are too large for the machine. The forest is
    /// gone.
    TooLarge,
}

/// How deep below the root a directory lies.
pub open spec fn depth_below(root: PathView, path: PathView) -> Option<nat> {
    match path.strip_prefix(root) {
        Some(rel) => Some(rel.depth()),
        None => None,
    }
}

/// How the leaves below a directory are summed up when it is deflated, below a
/// root.
pub open spec fn deflation_plan(a: AppView, s: StateView, root: PathView, aim: AimView) -> Plan {
    Plan {
        colors: a.colors,
        root,
        depth: depth_below(s.root, aim.path)->0,
        xray: a.args.xray,
    }
}

/// The forest of the summaries that a directory is deflated to, below a root.
pub open spec fn deflation(a: AppView, s: StateView, root: PathView, aim: AimView) -> Seq<(nat, Node)> {
    forest_of(deflation_plan(a, s, root, aim), deflated_leaves(a, aim))
}

/// The leaves below the directory that is deflated.
pub open spec fn deflated_leaves(a: AppView, aim: AimView) -> Seq<Node> {
    leaves_all(bare((pruned(a.entries.tree, aim.selection)->0).1.subtree))
}

/// The forest without the directory that is deflated or expanded.
pub open spec fn without_aim(a: AppView, aim: AimView) -> Seq<(nat, Node)> {
    (pruned(a.entries.tree, aim.selection)->0).0
}

/// The application and the state after a directory was deflated.
pub open spec fn deflated(a: AppView, s: StateView, root: PathView, aim: AimView) -> (AppView, StateView) {
    (
        AppView {
            entries: FocusView {
                tree: merged(without_aim(a, aim), deflation(a, s, root, aim)),
                focus: aim.selection,
            },
            ..a
        },
        StateView { view_info: None, ..aimed_state(a.entries, s) },
    )
}

/// The application and the state after a directory was expanded to a forest.
pub open spec fn expanded(a: AppView, s: StateView, e: ExpansionView, t: Seq<(nat, Node)>) -> (
    AppView,
    StateView,
) {
    (
        AppView { entries: FocusView { tree: merged(e.rest, t), focus: s.qual_select() }, ..a },
        StateView { view_info: None, ..s },
    )
}

/// Whether all counts of a deflation fit the machine.
pub open spec fn deflation_fits(a: AppView, s: StateView, root: PathView, aim: AimView) -> bool {
    &&& sum_size(deflated_leaves(a, aim)) <= usize::MAX
    &&& sum_nfiles(deflated_leaves(a, aim)) <= usize::MAX
    &&& fuse_fits(bare(without_aim(a, aim)) + bare(deflation(a, s, root, aim)))
}

/// Whether the user looks at what is selected.
pub open spec fn in_step(a: AppView, s: StateView) -> bool {
    a.entries.focus == s.qual_select()
}

/// Whether the sizes and the numbers of files of entries add up within the
/// machine's limits.
pub fn leaves_fit(leaves: &Vec<Entry>) -> (r: bool)
    ensures
        r == (sum_size(nodes(leaves@)) <= usize::MAX && sum_nfiles(nodes(leaves@)) <= usize::MAX),
{
    let ghost s = nodes(leaves@);
    let mut size: usize = 0;
    let mut nfiles: usize = 0;
    let mut i: usize = 0;
    assert(s.take(0) =~= Seq::empty());
    while i < leaves.len()
        invariant
            i <= leaves@.len(),
            s == nodes(leaves@),
            size == sum_size(s.take(i as int)),
            nfiles == sum_nfiles(s.take(i as int)),
        decreases leaves.len() - i,
    {
        proof {
            crate::entry::lemma_sum_take(s, i as int);
            crate::entry::lemma_sum_take(s, i + 1);
            assert(s[i as int] == node(leaves@[i as int]));
        }
        if leaves[i].size > usize::MAX - size || leaves[i].nfiles > usize::MAX - nfiles {
            return false;
        }
        size = size + leaves[i].size;
        nfiles = nfiles + leaves[i].nfiles;
        i += 1;
    }
    assert(s.take(i as int) =~= s);
    true
}

/// What an expansion needs once the directory is scanned again.
#[derive(Debug)]
pub struct Expansion {
    /// The directory.
    pub target: PathBuf,
    /// The only file type that is expanded, if there is one.
    pub tag: Option<Vec<u8>>,
    /// The arguments, with the depth to which the directory is expanded.
    pub args: Args,
    /// How many files are expected.
    pub est_count: usize,
    /// The forest without the directory.
    pub rest: Forest,
}

/// What an expansion is.
#[verifier::ext_equal]
pub struct ExpansionView {
    pub target: PathView,
    pub tag: Option<Seq<u8>>,
    pub args: ArgsView,
    pub est_count: nat,
    pub rest: Seq<(nat, Node)>,
}

impl View for Expansion {
    type V = ExpansionView;

    open spec fn view(&self) -> ExpansionView {
        ExpansionView {
            target: self.target@,
            tag: bytes_view(self.tag),
            args: self.args@,
            est_count: self.est_count as nat,
            rest: forest(self.rest@),
        }
    }
}

/// The expansion of a directory.
pub open spec fn expansion_of(a: AppView, s: StateView, aim: AimView) -> ExpansionView {
    ExpansionView {
        target: aim.path,
        tag: aim.tag,
        args: ArgsView {
            max_depth: depth_below(s.root, aim.path)->0 + a.args.max_depth,
            ..a.args
        },
        est_count: (pruned(a.entries.tree, aim.selection)->0).1.nfiles,
        rest: without_aim(a, aim),
    }
}

impl ExpansionView {
    /// Whether a scanned file belongs to the expansion: it lies below the
    /// directory, and is of the file type if there is one.
    pub open spec fn keeps(self, n: Node) -> bool {
        n.path.starts_with(self.target) && (self.tag matches Some(tag) ==> tag == match n.path.extension() {
            Some(ext) => ext,
            None => Seq::empty(),
        })
    }

    /// The scanned files that belong to the expansion.
    pub open spec fn kept(self, leaves: Seq<Node>) -> Seq<Node> {
        leaves.filter(|n: Node| self.keeps(n))
    }
}

impl Expansion {
    /// Whether a scanned file belongs to the expansion.
    pub fn keeps(&self, entry: &Entry) -> (r: bool)
        ensures
            r == self@.keeps(node(*entry)),
    {
        if !entry.path.starts_with(&self.target) {
            return false;
        }
        match &self.tag {
            Some(tag) => match entry.path.extension() {
                Some(ext) => same_bytes(tag.as_slice(), ext.as_slice()),
                None => {
                    assert(tag@.len() == 0 ==> tag@ =~= Seq::empty());
                    tag.len() == 0
                },
            },
            None => true,
        }
    }
}

impl Expansion {
    /// The scanned files that belong to the expansion.
    pub fn filter(&self, leaves: Vec<Entry>) -> (r: Vec<Entry>)
        ensures
            nodes(r@) == self@.kept(nodes(leaves@)),
    {
        let ghost given = nodes(leaves@);
        let ghost keep = |n: Node| self@.keeps(n);
        let mut back = reversed(leaves);
        let mut r: Vec<Entry> = Vec::new();
        let ghost mut i: int = 0;
        proof {
            reveal(Seq::filter);
            assert(given.take(0) =~= Seq::empty());
            assert(nodes(r@) =~= given.take(0).filter(keep));
            assert(nodes(back@).len() == back@.len());
            assert(given.reverse().len() == given.len());
            assert forall|j: int| 0 <= j < back@.len() implies node(#[trigger] back@[j])
                == given[given.len() - 1 - j] by {
                assert(nodes(back@)[j] == given.reverse()[j]);
            }
        }
        while back.len() > 0
            invariant
                0 <= i <= given.len(),
                back@.len() == given.len() - i,
                keep == (|n: Node| self@.keeps(n)),
                forall|j: int|
                    0 <= j < back@.len() ==> node(#[trigger] back@[j]) == given[given.len() - 1 - j],
                nodes(r@) == given.take(i).filter(keep),
            decreases back.len(),
        {
            let ghost last = back@[back@.len() - 1];
            let ghost kept = r@;
            proof {
                reveal(Seq::filter);
                assert(given.take(i + 1).drop_last() =~= given.take(i));
                assert(given.take(i + 1).last() == given[i]);
                assert(node(last) == given[i]);
            }
            if let Some(entry) = back.pop() {
                if self.keeps(&entry) {
                    r.push(entry);
                    assert(nodes(r@) =~= nodes(kept).push(given[i]));
                }
            }
            proof {
                i = i + 1;
            }
        }
        assert(given.take(i) =~= given);
        r
    }
}

/// What an expansion starts with.
#[derive(Debug)]
pub enum Expand {
    /// There is nothing to expand.
    Nothing,
    /// Nothing is selected, so the whole forest is scanned again.
    Root,
    /// A directory is scanned again.
    Selected(Expansion),
    /// The depth is too large for the machine.
    TooLarge,
}

impl App {
    /// Takes what has to be done.
    pub fn take_action(state: &mut AppState) -> (r: AppAction)
        ensures
            r == old(state)@.action,
            final(state)@ == (StateView { action: AppAction::Noop, ..old(state)@ }),
    {
        let r = state.action;
        state.action = AppAction::Noop;
        r
    }

    fn switch_of(&self, state: &AppState, mode: AppMode, init_root: &PathBuf) -> (r: Switch)
        requires
            in_order(self@.entries.tree),
            sums_fit(bare(self@.entries.tree)),
        ensures
            r@ == to_restore(self@, state@, mode, init_root@),
    {
        let restore_view = if state.skip_view.len() == 0 && init_root.same(&state.root) {
            None
        } else {
            Some(self.view_info(state).path)
        };
        let restore_path = match self.entries.entry() {
            Some(entry) => if entry.is_group {
                entry.path.parent()
            } else {
                Some(entry.path.clone())
            },
            None => None,
        };
        Switch { mode, restore_view, restore_path, restore_tag: copy_optional(&state.tag) }
    }

    fn take_tree(&mut self) -> (r: Forest)
        ensures
            forest(r@) == old(self)@.entries.tree,
            final(self)@ == emptied(old(self)@),
    {
        let mut entries = TreeFocus::default();
        std::mem::swap(&mut entries, &mut self.entries);
        entries.tree
    }

    /// Begins a switch to another mode: gives the leaves to build the forest of,
    /// how many are expected, and what has to be found again.
    pub fn begin_switch(&mut self, state: &mut AppState, mode: AppMode, init_root: &PathBuf) -> (r: (
        Vec<Entry>,
        Option<usize>,
        Switch,
    ))
        requires
            in_order(old(self)@.entries.tree),
            mode == AppMode::Xray ==> can_lose(old(self)@.entries.tree, old(state)@.skip_view),
            sums_fit(bare(old(self)@.entries.tree)),
            old(self)@.reserve.len() + sum_leaves(bare(old(self)@.entries.tree)) <= usize::MAX,
        ensures
            nodes(r.0@) == switch_leaves(old(self)@, old(state)@, mode),
            switch_count(old(self)@, old(state)@, mode) == match r.1 {
                Some(n) => Some(n as nat),
                None => None,
            },
            r.2@ == to_restore(old(self)@, old(state)@, mode, init_root@),
            final(self)@ == switch_begun(old(self)@, old(state)@, mode),
            final(state)@ == (StateView {
                root: switch_root(old(self)@, old(state)@, mode, init_root@),
                ..old(state)@
            }),
    {
        let ghost a = self@;
        let ghost s = state@;
        let switch = self.switch_of(state, mode, init_root);
        match mode {
            AppMode::Normal => {
                let count: usize = self.reserve.len() + total_leaves(self.entries.tree.as_slice());
                let tree = self.take_tree();
                let mut items: Vec<Entry> = Vec::new();
                std::mem::swap(&mut items, &mut self.reserve);
                assert(nodes(self.reserve@) =~= Seq::empty());
                self.args.xray = false;
                state.root = self.args.path.clone();
                let ghost kept = nodes(items@);
                let mut below = deforest(tree).collect_vec();
                let ghost second = below@;
                items.append(&mut below);
                assert(nodes(items@) =~= kept + nodes(second));
                assert(self@ =~= switch_begun(a, s, mode));
                (items, Some(count), switch)
            },
            AppMode::Xray => {
                let count: Option<usize> = match &state.view_info {
                    Some(info) => Some(info.leaves),
                    None => None,
                };
                let mut tree = self.take_tree();
                let cut: Forest = match prune_entry(&mut tree, state.skip_view.as_slice()) {
                    Either::Left(entry) => entry.subtree,
                    Either::Right(whole) => {
                        assert(forest(tree@) =~= Seq::empty());
                        whole
                    },
                };
                self.reserve = deforest(tree).collect_vec();
                self.args.xray = true;
                state.root = match &switch.restore_view {
                    Some(path) => path.clone(),
                    None => self.args.path.clone(),
                };
                let leaves = deforest(cut).collect_vec();
                assert(self@ =~= switch_begun(a, s, mode));
                (leaves, count, switch)
            },
        }
    }

    fn find_again(&self, path: &Option<PathBuf>, tag: &Option<Vec<u8>>) -> (r: Option<Vec<usize>>)
        ensures
            found_again(self@.entries.tree, path_view(*path), bytes_view(*tag)) == match r {
                Some(addr) => Some(addr@),
                None => None,
            },
    {
        match path {
            Some(p) => {
                let wanted: Option<&[u8]> = match tag {
                    Some(t) => Some(t.as_slice()),
                    None => None,
                };
                let root = StackAddr::root();
                let found = tree_find_path(self.entries.tree.as_slice(), p, wanted, &root);
                proof {
                    if found is Some {
                        let addr = found->0;
                        let way = address_of(self@.entries.tree, p@, bytes_view(*tag))->0;
                        assert(nats(root.ids().reverse()) =~= Seq::empty());
                        assert(nats(addr@) =~= way);
                        assert(as_ids(way) =~= addr@) by {
                            assert forall|i: int| 0 <= i < addr@.len() implies as_ids(way)[i] == addr@[i] by {
                                assert(nats(addr@)[i] == addr@[i] as nat);
                            }
                        }
                    }
                }
                found
            },
            None => None,
        }
    }

    /// Ends a switch to another mode: takes the new forest, finds what was
    /// viewed and selected again, and brings the view in line.
    pub fn finish_switch(&mut self, state: &mut AppState, switch: Switch, tree: Forest)
        requires
            in_order(forest(tree@)),
        ensures
            final(self)@ == (AppView {
                entries: FocusView { tree: forest(tree@), focus: Seq::empty() },
                selection: Seq::empty(),
                ..old(self)@
            }),
            final(state)@ == crate::app::synced(
                forest(tree@),
                Seq::empty(),
                switched_state(old(state)@, switch@, forest(tree@)),
            ),
    {
        let ghost f = forest(tree@);
        let ghost s = state@;
        self.entries = TreeFocus::new(tree);
        self.selection = Vec::new();
        assert(self.selection@ =~= Seq::empty());
        let skip_view = match self.find_again(&switch.restore_view, &switch.restore_tag) {
            Some(addr) => addr,
            None => Vec::new(),
        };
        let click_addr = match self.find_again(&switch.restore_path, &switch.restore_tag) {
            Some(addr) => skip_ids(&addr, skip_view.len()),
            None => Vec::new(),
        };
        proof {
            if found_again(f, switch@.restore_view, switch@.restore_tag) is None {
                assert(skip_view@ =~= Seq::empty());
            }
            if found_again(f, switch@.restore_path, switch@.restore_tag) is None {
                assert(click_addr@ =~= Seq::empty());
            }
        }
        state.tag = switch.restore_tag;
        state.title = None;
        state.mode = switch.mode;
        state.click_pos = None;
        state.click_addr = click_addr;
        state.tree_state = TreeState::default();
        state.skip_view = skip_view;
        assert(state@ =~= switched_state(s, switch@, f));
        self.sync_view(state);
    }

    fn aim(&self, state: &mut AppState) -> (r: Option<Aim>)
        requires
            in_order(self@.entries.tree),
        ensures
            aim_of(self@.entries, old(state)@) == match r {
                Some(aim) => Some(aim@),
                None => None,
            },
            final(state)@ == aimed_state(self@.entries, old(state)@),
    {
        let ghost s = state@;
        let selection = state.qual_select();
        let focus = match self.entries.entry() {
            Some(entry) => entry,
            None => {
                return None;
            },
        };
        if focus.subtree.len() == 0 {
            if selection.len() == 0 {
                return None;
            }
            let above = copy_ids(selection.as_slice(), 0, selection.len() - 1);
            assert(above@ =~= selection@.drop_last());
            match get_selection(above.as_slice(), self.entries.tree.as_slice()) {
                Some(entry) => {
                    let rel = skip_ids(&above, state.skip_view.len());
                    let _ = state.tree_state.select(rel);
                    assert(state@ =~= aimed_state(self@.entries, s));
                    if entry.is_group || entry.subtree.len() == 0 {
                        return None;
                    }
                    Some(
                        Aim {
                            selection: above,
                            path: entry.path.clone(),
                            tag: copy_optional(&entry.tag),
                        },
                    )
                },
                None => None,
            }
        } else {
            if focus.is_group {
                return None;
            }
            Some(
                Aim { selection, path: focus.path.clone(), tag: copy_optional(&focus.tag) },
            )
        }
    }

    /// Replaces what lies below the selected directory by summaries of its file
    /// types. Those are arranged below `root`: the root of the forest as the file
    /// system knows it.
    pub fn deflate(&mut self, state: &mut AppState, root: &PathBuf) -> (r: Result<Change, Failure>)
        requires
            in_order(old(self)@.entries.tree),
            aim_of(old(self)@.entries, old(state)@) matches Some(aim) ==> can_lose(
                old(self)@.entries.tree,
                aim.selection,
            ),
            in_step(old(self)@, old(state)@),
        ensures
            match aim_of(old(self)@.entries, old(state)@) {
                None => {
                    &&& r == Ok::<Change, Failure>(Change::Nothing)
                    &&& final(self)@ == old(self)@
                    &&& final(state)@ == aimed_state(old(self)@.entries, old(state)@)
                },
                Some(aim) => if depth_below(old(state)@.root, aim.path) is None || depth_below(
                    old(state)@.root,
                    aim.path,
                )->0 > usize::MAX {
                    &&& r == if depth_below(old(state)@.root, aim.path) is None {
                        Err::<Change, Failure>(Failure::Prefix)
                    } else {
                        Ok::<Change, Failure>(Change::TooLarge)
                    }
                    &&& final(self)@ == old(self)@
                    &&& final(state)@ == aimed_state(old(self)@.entries, old(state)@)
                } else if !deflation_fits(old(self)@, old(state)@, root@, aim) {
                    &&& r == Ok::<Change, Failure>(Change::TooLarge)
                    &&& final(self)@ == emptied(old(self)@)
                    &&& final(state)@ == aimed_state(old(self)@.entries, old(state)@)
                } else {
                    &&& r == Ok::<Change, Failure>(Change::Rebuild)
                    &&& final(self)@ == (AppView {
                        entries: FocusView {
                            tree: merged(
                                without_aim(old(self)@, aim),
                                deflation(old(self)@, old(state)@, root@, aim),
                            ),
                            focus: aim.selection,
                        },
                        ..old(self)@
                    })
                    &&& final(state)@ == (StateView {
                        view_info: None,
                        ..aimed_state(old(self)@.entries, old(state)@)
                    })
                    &&& (final(self)@, final(state)@) == deflated(old(self)@, old(state)@, root@, aim)
                },
            },
    {
        let ghost a = self@;
        let ghost s = state@;
        let aim = match self.aim(state) {
            Some(aim) => aim,
            None => {
                return Ok(Change::Nothing);
            },
        };
        let rel = match aim.path.strip_prefix(&state.root) {
            Some(rel) => rel,
            None => {
                return Err(Failure::Prefix);
            },
        };
        let steps: usize = rel.len();
        if rel.is_absolute() && steps == usize::MAX {
            return Ok(Change::TooLarge);
        }
        let depth: usize = rel.depth();
        let args = self.args.with_depth(depth);
        proof {
            prune_takes_the_selected(a.entries.tree, aim@.selection);
        }
        let mut rest = self.take_tree();
        let cut: Forest = match prune_entry(&mut rest, aim.selection.as_slice()) {
            Either::Left(entry) => entry.subtree,
            Either::Right(whole) => whole,
        };
        let leaves = deforest(cut).collect_vec();
        assert(nodes(leaves@) == deflated_leaves(a, aim@));
        if !leaves_fit(&leaves) {
            return Ok(Change::TooLarge);
        }
        let tree = make_forest(&self.colors, &args, root, leaves);
        assert(forest(tree@) == deflation(a, s, root@, aim@));
        if !merge_fits(&rest, &tree) {
            return Ok(Change::TooLarge);
        }
        let tree = merge_forests(rest, tree);
        self.entries = TreeFocus { tree, focus: aim.selection };
        state.view_info = None;
        Ok(Change::Rebuild)
    }

    fn expand(&mut self, root: &PathBuf, aim: Aim, depth: usize) -> (r: Expansion)
        requires
            in_order(old(self)@.entries.tree),
            can_lose(old(self)@.entries.tree, aim@.selection),
            pruned(old(self)@.entries.tree, aim@.selection) is Some,
            depth_below(root@, aim@.path) == Some(depth as nat),
            depth + old(self)@.args.max_depth <= usize::MAX,
        ensures
            forall|s: StateView|
                s.root == root@ ==> r@ == #[trigger] expansion_of(old(self)@, s, aim@),
            final(self)@ == emptied(old(self)@),
    {
        let ghost a = self@;
        let args = self.args.with_depth(depth + self.args.max_depth);
        let mut rest = self.take_tree();
        let est_count: usize = match prune_entry(&mut rest, aim.selection.as_slice()) {
            Either::Left(entry) => entry.nfiles,
            Either::Right(_) => 0,
        };
        let e = Expansion { target: aim.path, tag: aim.tag, args, est_count, rest };
        assert forall|s: StateView| s.root == root@ implies e@ == #[trigger] expansion_of(a, s, aim@) by {
            assert(e@ =~= expansion_of(a, s, aim@));
        }
        e
    }

    /// Begins an expansion: takes the selected directory out of the forest.
    pub fn begin_expand(&mut self, state: &mut AppState) -> (r: Result<Expand, Failure>)
        requires
            in_order(old(self)@.entries.tree),
            aim_of(old(self)@.entries, old(state)@) matches Some(aim) ==> can_lose(
                old(self)@.entries.tree,
                aim.selection,
            ),
            in_step(old(self)@, old(state)@),
        ensures
            if old(state)@.qual_select().len() == 0 {
                &&& r == Ok::<Expand, Failure>(Expand::Root)
                &&& final(self)@ == old(self)@
                &&& final(state)@ == old(state)@
            } else {
                &&& final(state)@ == aimed_state(old(self)@.entries, old(state)@)
                &&& match aim_of(old(self)@.entries, old(state)@) {
                    None => {
                        &&& r == Ok::<Expand, Failure>(Expand::Nothing)
                        &&& final(self)@ == old(self)@
                    },
                    Some(aim) => match depth_below(old(state)@.root, aim.path) {
                        None => {
                            &&& r == Err::<Expand, Failure>(Failure::Prefix)
                            &&& final(self)@ == old(self)@
                        },
                        Some(depth) => if depth + old(self)@.args.max_depth > usize::MAX {
                            &&& r == Ok::<Expand, Failure>(Expand::TooLarge)
                            &&& final(self)@ == old(self)@
                        } else {
                            &&& r matches Ok(Expand::Selected(e)) && e@ == expansion_of(
                                old(self)@,
                                old(state)@,
                                aim,
                            )
                            &&& final(self)@ == emptied(old(self)@)
                        },
                    },
                }
            },
    {
        let ghost a = self@;
        let ghost s = state@;
        if state.skip_view.len() == 0 && state.tree_state.selected.len() == 0 {
            return Ok(Expand::Root);
        }
        let aim = match self.aim(state) {
            Some(aim) => aim,
            None => {
                return Ok(Expand::Nothing);
            },
        };
        let rel = match aim.path.strip_prefix(&state.root) {
            Some(rel) => rel,
            None => {
                return Err(Failure::Prefix);
            },
        };
        let steps: usize = rel.len();
        if rel.is_absolute() && steps == usize::MAX {
            return Ok(Expand::TooLarge);
        }
        let depth: usize = rel.depth();
        if depth > usize::MAX - self.args.max_depth {
            return Ok(Expand::TooLarge);
        }
        proof {
            prune_takes_the_selected(a.entries.tree, aim@.selection);
        }
        Ok(Expand::Selected(self.expand(&state.root, aim, depth)))
    }

    /// Ends an expansion: merges what the directory was scanned to into the
    /// rest of the forest.
    pub fn finish_expand(&mut self, state: &mut AppState, expansion: Expansion, tree: Forest) -> (r:
        Change)
        ensures
            if !fuse_fits(bare(expansion@.rest) + bare(forest(tree@))) {
                &&& r == Change::TooLarge
                &&& final(self)@ == old(self)@
                &&& final(state)@ == old(state)@
            } else {
                &&& r == Change::Rebuild
                &&& final(self)@ == (AppView {
                    entries: FocusView {
                        tree: merged(expansion@.rest, forest(tree@)),
                        focus: old(state)@.qual_select(),
                    },
                    ..old(self)@
                })
                &&& final(state)@ == (StateView { view_info: None, ..old(state)@ })
                &&& (final(self)@, final(state)@) == expanded(
                    old(self)@,
                    old(state)@,
                    expansion@,
                    forest(tree@),
                )
            },
    {
        if !merge_fits(&expansion.rest, &tree) {
            return Change::TooLarge;
        }
        let tree = merge_forests(expansion.rest, tree);
        self.entries = TreeFocus { tree, focus: state.qual_select() };
        state.view_info = None;
        Change::Rebuild
    }

    /// Whether the whole forest is scanned again. The forest that the
    /// application began with is not: that is what starting it again is for.
    pub fn refresh_root(state: &AppState, init_root: &PathBuf) -> (r: bool)
        ensures
            r == (init_root@ != state@.root),
    {
        !init_root.same(&state.root)
    }

    /// Takes the forest that the root was scanned to.
    pub fn finish_refresh(&mut self, state: &mut AppState, tree: Forest)
        ensures
            final(self)@ == (AppView {
                entries: FocusView { tree: forest(tree@), focus: old(state)@.qual_select() },
                ..old(self)@
            }),
            final(state)@ == (StateView { view_info: None, ..old(state)@ }),
    {
        self.entries = TreeFocus { tree, focus: state.qual_select() };
        state.view_info = None;
    }

    /// Whether the user looks at what is selected.
    pub fn is_in_step(&self, state: &AppState) -> (r: bool)
        ensures
            r == in_step(self@, state@),
    {
        same_ids(&self.entries.focus, &state.qual_select())
    }
}

} // verus!
