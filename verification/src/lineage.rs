//! Families: the entries of a scan, each listed under the path of its parent.
use vstd::prelude::*;
use crate::cli::Args;
use crate::colors::{bytes_view, copy_optional, ColorScheme};
use crate::entry::{blank, lemma_sum_take, node, nodes, sum_nfiles, sum_size, Entry, Node};
use crate::keymap::{Key, KeyMap};
use crate::path::{
    copy_bytes, extensions_follow_the_last_dot, here, is_component, last_dot, name_extension, same_bytes, PathBuf,
    PathView, DOT, SEPARATOR,
};

verus! {

/// Entries by the path of their parent and the tag of their family.
pub type LineageMap = KeyMap<Vec<Entry>>;

/// What the families of a map are.
pub open spec fn lineage(m: Map<Key, Vec<Entry>>) -> Map<Key, Seq<Node>> {
    m.map_values(|v: Vec<Entry>| nodes(v@))
}

/// Every entry is listed under its parent, and once.
pub open spec fn related(m: Map<Key, Seq<Node>>) -> bool {
    &&& forall|k: Key, i: int|
        m.contains_key(k) && 0 <= i < m[k].len() ==> (#[trigger] m[k][i]).path.parent() == Some(k.0)
    &&& forall|k: Key, i: int, j: int|
        m.contains_key(k) && 0 <= i < j < m[k].len() ==> (#[trigger] m[k][i]).path != (
        #[trigger] m[k][j]).path
}

/// The family of a key.
pub open spec fn family(m: Map<Key, Seq<Node>>, k: Key) -> Seq<Node> {
    if m.contains_key(k) {
        m[k]
    } else {
        Seq::empty()
    }
}

/// Whether a family has an entry at `path`.
pub open spec fn has_path(s: Seq<Node>, path: PathView) -> bool {
    exists|i: int| 0 <= i < s.len() && (#[trigger] s[i]).path == path
}

/// Where a family has its entry at `path`.
pub open spec fn place_of(s: Seq<Node>, path: PathView) -> int {
    choose|i: int| 0 <= i < s.len() && (#[trigger] s[i]).path == path
}

/// The directory at `path`, before anything is known of what it holds.
pub open spec fn dir_node(colors: ColorScheme, path: PathView, tag: Option<Seq<u8>>) -> Node {
    Node { tag, color: colors.spec_dir_color(path), ..blank(path) }
}

/// The families with `n` and the directories above it, up to the first that is
/// there already. If `n` itself is there, nothing changes.
pub open spec fn climb(
    colors: ColorScheme,
    m: Map<Key, Seq<Node>>,
    tag: Option<Seq<u8>>,
    n: Node,
) -> Map<Key, Seq<Node>>
    decreases n.path.comps.len(),
{
    match n.path.parent() {
        None => m,
        Some(parent) => {
            let s = family(m, (parent, tag));
            if has_path(s, n.path) {
                m
            } else {
                climb(colors, m.insert((parent, tag), s.push(n)), tag, dir_node(colors, parent, tag))
            }
        },
    }
}

/// The name of the entry that stands for files below the depth that is kept.
pub open spec fn summary_name(path: PathView) -> Seq<u8> {
    match path.extension() {
        Some(ext) => if ext.len() == 0 {
            seq![42u8, 42u8]
        } else {
            seq![42u8, 42u8, DOT] + ext
        },
        None => seq![40u8, 110u8, 111u8, 110u8, 101u8, 41u8],
    }
}

/// How many components a path has beyond those of the root.
pub open spec fn beyond(root: PathView, path: PathView) -> int {
    path.depth() - root.depth()
}

/// The directory at the depth that is kept, on the way to `path`: the root
/// with the next `max_depth` components of `path`.
pub open spec fn summary_parent(root: PathView, path: PathView, max_depth: nat) -> PathView {
    if root.depth() > 0 {
        let skip = root.depth() - if path.absolute { 1int } else { 0int };
        PathView {
            absolute: root.absolute,
            comps: root.comps + path.comps.subrange(skip, skip + max_depth),
        }
    } else if path.absolute && max_depth > 0 {
        PathView { absolute: true, comps: path.comps.take(max_depth - 1) }
    } else {
        PathView { absolute: false, comps: path.comps.take(max_depth as int) }
    }
}

/// The family with the counts of `leaf` added to its entry at `path`, which is
/// a new group if there is none.
pub open spec fn summed_up(s: Seq<Node>, path: PathView, leaf: Node) -> Seq<Node> {
    if has_path(s, path) {
        let n = s[place_of(s, path)];
        s.update(
            place_of(s, path),
            Node { size: n.size + leaf.size, nfiles: n.nfiles + leaf.nfiles, ..n },
        )
    } else {
        s.push(
            Node {
                size: leaf.size,
                nfiles: leaf.nfiles,
                leaves: 1,
                color: leaf.color,
                is_group: true,
                ..blank(path)
            },
        )
    }
}

/// The tag of the families that a leaf goes to: its extension in x-ray mode.
pub open spec fn leaf_tag(xray: bool, path: PathView) -> Option<Seq<u8>> {
    if xray {
        Some(
            match path.extension() {
                Some(ext) => ext,
                None => Seq::empty(),
            },
        )
    } else {
        None
    }
}

/// The path at which a leaf is counted: its own, or that of the group that
/// stands for it.
pub open spec fn home(root: PathView, max_depth: nat, path: PathView) -> PathView {
    if beyond(root, path) > max_depth {
        summary_parent(root, path, max_depth).child(summary_name(path))
    } else {
        path
    }
}

/// The families with one more leaf.
pub open spec fn plant(
    colors: ColorScheme,
    root: PathView,
    max_depth: nat,
    xray: bool,
    m: Map<Key, Seq<Node>>,
    leaf: Node,
) -> Map<Key, Seq<Node>> {
    let tag = leaf_tag(xray, leaf.path);
    if beyond(root, leaf.path) > max_depth {
        let parent = summary_parent(root, leaf.path, max_depth);
        let s = summed_up(family(m, (parent, tag)), home(root, max_depth, leaf.path), leaf);
        climb(colors, m.insert((parent, tag), s), tag, dir_node(colors, parent, tag))
    } else {
        climb(colors, m, tag, leaf)
    }
}

/// The families of a list of leaves.
pub open spec fn plant_all(
    colors: ColorScheme,
    root: PathView,
    max_depth: nat,
    xray: bool,
    leaves: Seq<Node>,
) -> Map<Key, Seq<Node>>
    decreases leaves.len(),
{
    if leaves.len() == 0 {
        Map::empty()
    } else {
        plant(
            colors,
            root,
            max_depth,
            xray,
            plant_all(colors, root, max_depth, xray, leaves.drop_last()),
            leaves.last(),
        )
    }
}

/// The extensions of a list of leaves, each once, in the order of first use.
/// Without x-ray mode there are none.
pub open spec fn extensions_of(xray: bool, leaves: Seq<Node>) -> Seq<Seq<u8>>
    decreases leaves.len(),
{
    if leaves.len() == 0 {
        Seq::empty()
    } else {
        let before = extensions_of(xray, leaves.drop_last());
        match leaf_tag(xray, leaves.last().path) {
            Some(ext) => if before.contains(ext) {
                before
            } else {
                before.push(ext)
            },
            None => before,
        }
    }
}

proof fn lemma_last_dot(name: Seq<u8>)
    ensures
        -1 <= last_dot(name) < name.len(),
    decreases name.len(),
{
    if name.len() > 0 && name.last() != DOT {
        lemma_last_dot(name.drop_last());
    }
}

/// The name of a group can stand in a path.
pub proof fn lemma_summary_name(path: PathView)
    requires
        path.valid(),
    ensures
        is_component(summary_name(path)),
        summary_name(path) != here(),
{
    let s = summary_name(path);
    assert(s.len() >= 2);
    if let Some(ext) = path.extension() {
        let name = path.comps.last();
        assert(is_component(path.comps[path.comps.len() - 1]));
        lemma_last_dot(name);
        if s.contains(SEPARATOR) {
            let i = choose|i: int| 0 <= i < s.len() && s[i] == SEPARATOR;
            if i >= 3 {
                assert(name[last_dot(name) + 1 + (i - 3)] == SEPARATOR);
            }
        }
    }
}

fn group_name(path: &PathBuf) -> (r: Vec<u8>)
    ensures
        r@ == summary_name(path@),
        is_component(r@),
        r@ != here(),
{
    path.reveal_valid();
    proof {
        lemma_summary_name(path@);
    }
    match path.extension() {
        Some(ext) => {
            let mut name: Vec<u8> = vec![42u8, 42u8];
            if ext.len() > 0 {
                let mut ext = ext;
                name.push(DOT);
                name.append(&mut ext);
            }
            assert(name@ =~= summary_name(path@));
            name
        },
        None => {
            let name: Vec<u8> = vec![40u8, 110u8, 111u8, 110u8, 101u8, 41u8];
            assert(name@ =~= summary_name(path@));
            name
        },
    }
}

/// Whether a path has more than `max_depth` components beyond those of the root.
fn is_deep(root: &PathBuf, path: &PathBuf, max_depth: usize) -> (r: bool)
    ensures
        r == (beyond(root@, path@) > max_depth),
{
    let ours: usize = root.len();
    let theirs: usize = path.len();
    if root.is_absolute() == path.is_absolute() {
        theirs >= ours && theirs - ours > max_depth
    } else if path.is_absolute() {
        theirs >= ours && theirs - ours >= max_depth
    } else {
        theirs > ours && theirs - ours - 1 > max_depth
    }
}

/// The directory at the depth that is kept, on the way to `path`.
fn group_parent(root: &PathBuf, path: &PathBuf, max_depth: usize) -> (r: PathBuf)
    requires
        beyond(root@, path@) > max_depth,
    ensures
        r@ == summary_parent(root@, path@, max_depth as nat),
{
    path.reveal_valid();
    if root.is_empty() {
        if path.is_absolute() {
            if max_depth > 0 {
                path.up_to(max_depth - 1)
            } else {
                let r = PathBuf::empty();
                assert(path@.comps.take(0) =~= Seq::empty());
                r
            }
        } else {
            path.up_to(max_depth)
        }
    } else {
        let total: usize = path.len();
        let skip: usize = if root.is_absolute() == path.is_absolute() {
            root.len()
        } else if path.is_absolute() {
            root.len() - 1
        } else {
            root.len() + 1
        };
        let mut r = root.clone();
        let mut i: usize = 0;
        assert(root@.comps + path@.comps.subrange(skip as int, skip as int) =~= root@.comps);
        while i < max_depth
            invariant
                i <= max_depth,
                skip == root@.depth() - if path@.absolute { 1int } else { 0int },
                skip + max_depth <= total,
                total == path@.comps.len(),
                path@.valid(),
                root@.depth() > 0,
                r@.absolute == root@.absolute,
                r@.comps == root@.comps + path@.comps.subrange(skip as int, skip + i),
            decreases max_depth - i,
        {
            let c = path.component(skip + i);
            assert(is_component(path@.comps[skip + i]));
            r = r.child(c);
            assert(path@.comps.subrange(skip as int, skip + i + 1) =~= path@.comps.subrange(
                skip as int,
                skip + i,
            ).push(path@.comps[skip + i]));
            assert(r@.comps =~= root@.comps + path@.comps.subrange(skip as int, skip + i + 1));
            i += 1;
        }
        r
    }
}

/// Families under construction, with the place of each entry in its family.
struct Planting {
    families: LineageMap,
    places: KeyMap<usize>,
}

spec fn listed(m: Map<Key, Seq<Node>>, places: Map<Key, usize>) -> bool {
    &&& forall|k: Key, i: int|
        m.contains_key(k) && 0 <= i < m[k].len() ==> places.contains_key(
            ((#[trigger] m[k][i]).path, k.1),
        ) && places[(m[k][i].path, k.1)] == i
    &&& forall|q: Key| #[trigger]
        places.contains_key(q) ==> q.0.parent() is Some && m.contains_key((q.0.parent()->0, q.1))
            && places[q] < m[(q.0.parent()->0, q.1)].len() && m[(
            q.0.parent()->0,
            q.1,
        )][places[q] as int].path == q.0
}

/// No entry holds more than the given counts.
spec fn bounded(m: Map<Key, Seq<Node>>, size: nat, nfiles: nat) -> bool {
    forall|k: Key, i: int|
        m.contains_key(k) && 0 <= i < m[k].len() ==> (#[trigger] m[k][i]).size <= size
            && m[k][i].nfiles <= nfiles
}

impl Planting {
    spec fn map(self) -> Map<Key, Seq<Node>> {
        lineage(self.families@)
    }

    spec fn wf(self) -> bool {
        &&& self.families.wf()
        &&& self.places.wf()
        &&& related(self.map())
        &&& listed(self.map(), self.places@)
    }

    fn position(&self, path: &PathBuf, tag: &Option<Vec<u8>>) -> (r: Option<usize>)
        requires
            self.wf(),
            path@.parent() is Some,
        ensures
            ({
                let s = family(self.map(), (path@.parent()->0, bytes_view(*tag)));
                match r {
                    Some(i) => i < s.len() && s[i as int].path == path@ && has_path(s, path@)
                        && place_of(s, path@) == i,
                    None => !has_path(s, path@),
                }
            }),
    {
        let ghost k: Key = (path@.parent()->0, bytes_view(*tag));
        let ghost s = family(self.map(), k);
        match self.places.get(path, tag) {
            Some(i) => {
                proof {
                    let c = place_of(s, path@);
                    assert(s[*i as int].path == path@);
                    assert(self.map()[k][c].path == path@);
                }
                Some(*i)
            },
            None => {
                proof {
                    if has_path(s, path@) {
                        let c = place_of(s, path@);
                        assert(self.map()[k][c].path == path@);
                    }
                }
                None
            },
        }
    }

    /// Adds an entry to the family of its parent.
    fn add_child(&mut self, parent: PathBuf, tag: &Option<Vec<u8>>, e: Entry)
        requires
            old(self).wf(),
            e.path@.parent() == Some(parent@),
            !has_path(family(old(self).map(), (parent@, bytes_view(*tag))), e.path@),
        ensures
            final(self).wf(),
            final(self).map() == old(self).map().insert(
                (parent@, bytes_view(*tag)),
                family(old(self).map(), (parent@, bytes_view(*tag))).push(node(e)),
            ),
    {
        let ghost before = *self;
        let ghost k: Key = (parent@, bytes_view(*tag));
        let ghost s = family(before.map(), k);
        let mut kids = match self.families.take(&parent, tag) {
            Some(kids) => kids,
            None => Vec::new(),
        };
        assert(nodes(kids@) =~= s);
        let n: usize = kids.len();
        let path = e.path.clone();
        let ghost q: Key = (path@, bytes_view(*tag));
        let ghost was = kids@;
        kids.push(e);
        assert(nodes(kids@) =~= s.push(node(e)));
        self.families.put(parent, copy_optional(tag), kids);
        self.places.put(path, copy_optional(tag), n);
        proof {
            let m = self.map();
            assert(m =~= before.map().insert(k, s.push(node(e))));
            assert(s.push(node(e))[n as int] == node(e));
            assert forall|k2: Key, i: int|
                m.contains_key(k2) && 0 <= i < m[k2].len() implies (#[trigger] m[k2][i]).path.parent()
                == Some(k2.0) && self.places@.contains_key((m[k2][i].path, k2.1)) && self.places@[(
                m[k2][i].path,
                k2.1,
            )] == i by {
                if k2 == k {
                    if i < n {
                        assert(before.map()[k][i] == m[k][i]);
                        assert(s[i].path != path@);
                    }
                } else {
                    assert(before.map()[k2][i] == m[k2][i]);
                    assert((m[k2][i].path, k2.1) != q);
                }
            }
            assert forall|k2: Key, i: int, j: int|
                m.contains_key(k2) && 0 <= i < j < m[k2].len() implies (#[trigger] m[k2][i]).path != (
            #[trigger] m[k2][j]).path by {
                if k2 == k {
                    assert(before.map()[k][i] == m[k][i]);
                    if j < n {
                        assert(before.map()[k][j] == m[k][j]);
                    } else {
                        assert(s[i].path != path@);
                    }
                } else {
                    assert(before.map()[k2][i] == m[k2][i]);
                    assert(before.map()[k2][j] == m[k2][j]);
                }
            }
            assert forall|q2: Key| #[trigger] self.places@.contains_key(q2) implies q2.0.parent() is Some
                && m.contains_key((q2.0.parent()->0, q2.1)) && self.places@[q2] < m[(
                q2.0.parent()->0,
                q2.1,
            )].len() && m[(q2.0.parent()->0, q2.1)][self.places@[q2] as int].path == q2.0 by {
                if q2 != q {
                    assert(before.places@.contains_key(q2));
                    let k2: Key = (q2.0.parent()->0, q2.1);
                    assert(before.map()[k2][before.places@[q2] as int].path == q2.0);
                    if k2 == k {
                        assert(before.map()[k] == s);
                        assert(m[k][before.places@[q2] as int] == s[before.places@[q2] as int]);
                    }
                }
            }
        }
    }

    /// Adds an entry and the directories above it, up to the first that is
    /// there already.
    fn climb_from(&mut self, colors: &ColorScheme, tag: &Option<Vec<u8>>, e: Entry)
        requires
            old(self).wf(),
        ensures
            final(self).wf(),
            final(self).map() == climb(*colors, old(self).map(), bytes_view(*tag), node(e)),
    {
        let mut cursor = e;
        let ghost goal = climb(*colors, self.map(), bytes_view(*tag), node(e));
        loop
            invariant
                self.wf(),
                climb(*colors, self.map(), bytes_view(*tag), node(cursor)) == goal,
            ensures
                self.wf(),
                self.map() == goal,
            decreases cursor.path@.comps.len(),
        {
            let parent = match cursor.path.parent() {
                Some(parent) => parent,
                None => {
                    break;
                },
            };
            if self.position(&cursor.path, tag).is_some() {
                break;
            }
            let color = colors.dir_color(&parent);
            let above = parent.clone();
            self.add_child(parent, tag, cursor);
            cursor = Entry::bare(above);
            cursor.color = color;
            cursor.tag = copy_optional(tag);
            assert(node(cursor) == dir_node(*colors, cursor.path@, bytes_view(*tag)));
        }
    }

    /// Adds the counts of a leaf to the group at `path`.
    fn sum_up(&mut self, parent: PathBuf, path: PathBuf, tag: &Option<Vec<u8>>, leaf: &Entry, Ghost(
        size,
    ): Ghost<nat>, Ghost(nfiles): Ghost<nat>)
        requires
            old(self).wf(),
            path@.parent() == Some(parent@),
            bounded(old(self).map(), size, nfiles),
            size + leaf.size <= usize::MAX,
            nfiles + leaf.nfiles <= usize::MAX,
        ensures
            final(self).wf(),
            final(self).map() == old(self).map().insert(
                (parent@, bytes_view(*tag)),
                summed_up(
                    family(old(self).map(), (parent@, bytes_view(*tag))),
                    path@,
                    node(*leaf),
                ),
            ),
            bounded(final(self).map(), size + leaf.size as nat, nfiles + leaf.nfiles as nat),
    {
        let ghost before = *self;
        let ghost k: Key = (parent@, bytes_view(*tag));
        let ghost s = family(before.map(), k);
        match self.position(&path, tag) {
            Some(i) => {
                if let Some(kids) = self.families.take(&parent, tag) {
                    let mut kids = kids;
                    let ghost was = kids@;
                    assert(nodes(was) =~= s);
                    assert(before.map()[k][i as int].size <= size);
                    assert(nodes(was)[i as int] == node(was[i as int]));
                    kids[i].size = kids[i].size + leaf.size;
                    kids[i].nfiles = kids[i].nfiles + leaf.nfiles;
                    let ghost now = kids@;
                    self.families.put(parent, copy_optional(tag), kids);
                    proof {
                        assert(nodes(now) =~= summed_up(s, path@, node(*leaf)));
                        let m = self.map();
                        assert(m =~= before.map().insert(k, summed_up(s, path@, node(*leaf))));
                        lemma_same_paths(before.map(), m, k, before.places@);
                        assert forall|k2: Key, j: int|
                            m.contains_key(k2) && 0 <= j < m[k2].len() implies (#[trigger] m[k2][j]).size
                            <= size + leaf.size && m[k2][j].nfiles <= nfiles + leaf.nfiles by {
                            assert(before.map()[k2][j].size <= size);
                        }
                    }
                }
            },
            None => {
                let mut e = Entry::bare(path);
                e.color = leaf.color.clone();
                e.leaves = 1;
                e.is_group = true;
                e.nfiles = leaf.nfiles;
                e.size = leaf.size;
                self.add_child(parent, tag, e);
                proof {
                    let m = self.map();
                    assert(m[k] =~= summed_up(s, path@, node(*leaf)));
                    assert forall|k2: Key, j: int|
                        m.contains_key(k2) && 0 <= j < m[k2].len() implies (#[trigger] m[k2][j]).size
                        <= size + leaf.size && m[k2][j].nfiles <= nfiles + leaf.nfiles by {
                        if k2 != k || j < s.len() {
                            assert(before.map()[k2][j].size <= size);
                        }
                    }
                }
            },
        }
    }
}

proof fn lemma_same_paths(
    before: Map<Key, Seq<Node>>,
    after: Map<Key, Seq<Node>>,
    k: Key,
    places: Map<Key, usize>,
)
    requires
        related(before),
        listed(before, places),
        before.contains_key(k),
        after == before.insert(k, after[k]),
        after[k].len() == before[k].len(),
        forall|i: int| 0 <= i < after[k].len() ==> (#[trigger] after[k][i]).path == before[k][i].path,
    ensures
        related(after),
        listed(after, places),
{
    assert forall|k2: Key, i: int|
        after.contains_key(k2) && 0 <= i < after[k2].len() implies (#[trigger] after[k2][i]).path
        == before[k2][i].path by {}
    assert forall|k2: Key, i: int, j: int|
        after.contains_key(k2) && 0 <= i < j < after[k2].len() implies (#[trigger] after[k2][i]).path != (
    #[trigger] after[k2][j]).path by {
        assert(before[k2][i].path != before[k2][j].path);
    }
    assert forall|q: Key| #[trigger] places.contains_key(q) implies q.0.parent() is Some && after.contains_key(
        (q.0.parent()->0, q.1),
    ) && places[q] < after[(q.0.parent()->0, q.1)].len() && after[(q.0.parent()->0, q.1)][places[q] as int].path
        == q.0 by {
        assert(before[(q.0.parent()->0, q.1)][places[q] as int].path == q.0);
    }
}

proof fn lemma_climb_bounded(
    colors: ColorScheme,
    m: Map<Key, Seq<Node>>,
    tag: Option<Seq<u8>>,
    n: Node,
    size: nat,
    nfiles: nat,
)
    requires
        bounded(m, size, nfiles),
        n.size <= size,
        n.nfiles <= nfiles,
    ensures
        bounded(climb(colors, m, tag, n), size, nfiles),
    decreases n.path.comps.len(),
{
    if let Some(parent) = n.path.parent() {
        let k: Key = (parent, tag);
        let s = family(m, k);
        if !has_path(s, n.path) {
            let m2 = m.insert(k, s.push(n));
            assert forall|k2: Key, j: int|
                m2.contains_key(k2) && 0 <= j < m2[k2].len() implies (#[trigger] m2[k2][j]).size <= size
                && m2[k2][j].nfiles <= nfiles by {
                if k2 != k || j < s.len() {
                    assert(m[k2][j].size <= size);
                }
            }
            lemma_climb_bounded(colors, m2, tag, dir_node(colors, parent, tag), size, nfiles);
        }
    }
}

/// The byte strings that a list of owned byte strings holds.
pub open spec fn byte_strings(s: Seq<Vec<u8>>) -> Seq<Seq<u8>> {
    s.map_values(|b: Vec<u8>| b@)
}

fn add_extension(extensions: &mut Vec<Vec<u8>>, ext: &Vec<u8>)
    ensures
        byte_strings(final(extensions)@) == if byte_strings(old(extensions)@).contains(ext@) {
            byte_strings(old(extensions)@)
        } else {
            byte_strings(old(extensions)@).push(ext@)
        },
{
    let ghost before = byte_strings(extensions@);
    let mut i: usize = 0;
    while i < extensions.len()
        invariant
            i <= extensions@.len(),
            *extensions == *old(extensions),
            before == byte_strings(extensions@),
            forall|j: int| 0 <= j < i ==> #[trigger] before[j] != ext@,
        decreases extensions.len() - i,
    {
        if same_bytes(extensions[i].as_slice(), ext.as_slice()) {
            assert(before[i as int] == ext@);
            return ;
        }
        i += 1;
    }
    extensions.push(copy_bytes(ext.as_slice()));
    assert(byte_strings(extensions@) =~= before.push(ext@));
}

/// Lists leaves and the directories above them by parent. Leaves below
/// `max_depth` are counted in groups.
pub fn rehash(colors: &ColorScheme, args: &Args, root: &PathBuf, leaves: Vec<Entry>) -> (r: (
    LineageMap,
    Vec<Vec<u8>>,
))
    requires
        sum_size(nodes(leaves@)) <= usize::MAX,
        sum_nfiles(nodes(leaves@)) <= usize::MAX,
    ensures
        r.0.wf(),
        lineage(r.0@) == plant_all(
            *colors,
            root@,
            args.max_depth as nat,
            args.xray,
            nodes(leaves@),
        ),
        related(lineage(r.0@)),
        byte_strings(r.1@) == extensions_of(args.xray, nodes(leaves@)),
{
    let ghost all = nodes(leaves@);
    let ghost depth = args.max_depth as nat;
    let mut planting = Planting { families: KeyMap::new(), places: KeyMap::new() };
    let mut extensions: Vec<Vec<u8>> = Vec::new();
    let mut rest = leaves;
    let mut queue: Vec<Entry> = Vec::with_capacity(rest.len());
    proof {
        assert(planting.map() =~= Map::empty());
        assert(byte_strings(extensions@) =~= Seq::empty());
    }
    while rest.len() > 0
        invariant
            rest@.len() + queue@.len() == leaves@.len(),
            forall|j: int| 0 <= j < rest@.len() ==> #[trigger] rest@[j] == leaves@[j],
            forall|j: int| 0 <= j < queue@.len() ==> #[trigger] queue@[j] == leaves@[leaves@.len() - 1 - j],
        decreases rest.len(),
    {
        if let Some(e) = rest.pop() {
            queue.push(e);
        }
    }
    let ghost mut done: int = 0;
    assert(all.take(0) =~= Seq::empty());
    while queue.len() > 0
        invariant
            all == nodes(leaves@),
            depth == args.max_depth,
            sum_size(all) <= usize::MAX,
            sum_nfiles(all) <= usize::MAX,
            done + queue@.len() == leaves@.len(),
            0 <= done,
            forall|j: int| 0 <= j < queue@.len() ==> #[trigger] queue@[j] == leaves@[leaves@.len() - 1 - j],
            planting.wf(),
            planting.map() == plant_all(*colors, root@, depth, args.xray, all.take(done)),
            bounded(planting.map(), sum_size(all.take(done)), sum_nfiles(all.take(done))),
            byte_strings(extensions@) == extensions_of(args.xray, all.take(done)),
        decreases queue.len(),
    {
        if let Some(leaf) = queue.pop() {
            let ghost part = all.take(done);
            let ghost next = all.take(done + 1);
            proof {
                assert(node(leaf) == all[done]);
                assert(next.drop_last() =~= part);
                assert(next.last() == node(leaf));
                lemma_sum_take(all, done);
                lemma_sum_take(all, done + 1);
            }
            let tag: Option<Vec<u8>> = if args.xray {
                match leaf.path.extension() {
                    Some(ext) => Some(ext),
                    None => {
                        let none: Vec<u8> = Vec::new();
                        assert(none@ =~= Seq::empty());
                        Some(none)
                    },
                }
            } else {
                None
            };
            assert(bytes_view(tag) == leaf_tag(args.xray, leaf.path@));
            if let Some(ext) = &tag {
                add_extension(&mut extensions, ext);
            }
            if is_deep(root, &leaf.path, args.max_depth) {
                let parent = group_parent(root, &leaf.path, args.max_depth);
                let name = group_name(&leaf.path);
                let path = parent.child(name.as_slice());
                let mut dir = Entry::bare(parent.clone());
                dir.color = colors.dir_color(&parent);
                dir.tag = copy_optional(&tag);
                assert(path@.parent() == Some(parent@)) by {
                    assert(path@.comps.drop_last() =~= parent@.comps);
                }
                planting.sum_up(
                    parent,
                    path,
                    &tag,
                    &leaf,
                    Ghost(sum_size(part)),
                    Ghost(sum_nfiles(part)),
                );
                proof {
                    lemma_climb_bounded(
                        *colors,
                        planting.map(),
                        bytes_view(tag),
                        node(dir),
                        sum_size(next),
                        sum_nfiles(next),
                    );
                }
                planting.climb_from(colors, &tag, dir);
            } else {
                proof {
                    lemma_climb_bounded(
                        *colors,
                        planting.map(),
                        bytes_view(tag),
                        node(leaf),
                        sum_size(next),
                        sum_nfiles(next),
                    );
                }
                planting.climb_from(colors, &tag, leaf);
            }
            proof {
                done = done + 1;
            }
        }
    }
    assert(all.take(done) =~= all);
    (planting.families, extensions)
}

proof fn lemma_after_last_dot(name: Seq<u8>)
    ensures
        -1 <= last_dot(name) < name.len(),
        forall|i: int| last_dot(name) < i < name.len() ==> #[trigger] name[i] != DOT,
    decreases name.len(),
{
    if name.len() > 0 && name.last() != DOT {
        let d = name.drop_last();
        lemma_after_last_dot(d);
        assert forall|i: int| last_dot(name) < i < name.len() implies #[trigger] name[i] != DOT by {
            if i < d.len() {
                assert(d[i] != DOT);
            }
        }
    }
}

/// What stands for the files of a type below the depth is of that type itself, and
/// is not the name of a file without one.
pub proof fn summaries_are_of_their_type(path: PathView)
    ensures
        path.extension() matches Some(ext) ==> ext.len() > 0 ==> name_extension(summary_name(path)) == Some(ext),
        path.extension() is None ==> name_extension(summary_name(path)) is None,
        path.extension() == Some(Seq::<u8>::empty()) ==> name_extension(summary_name(path)) is None,
        summary_name(path).len() > 0,
{
    let stars = seq![42u8, 42u8];
    if let Some(ext) = path.extension() {
        let name = path.file_name()->0;
        lemma_after_last_dot(name);
        assert(!ext.contains(DOT)) by {
            if ext.contains(DOT) {
                let k = choose|k: int| 0 <= k < ext.len() && ext[k] == DOT;
                assert(name[last_dot(name) + 1 + k] == DOT);
            }
        }
        assert(!stars.contains(DOT));
        extensions_follow_the_last_dot(stars, ext, stars);
        assert(stars.push(DOT) + ext =~= seq![42u8, 42u8, DOT] + ext);
    } else {
        let plain = summary_name(path);
        assert(!plain.contains(DOT));
        extensions_follow_the_last_dot(stars, Seq::empty(), plain);
    }
}

/// A file is counted at its own path down to the depth, and below it in the
/// directory at the depth that it lies in.
pub proof fn homes_are_on_the_way(root: PathView, max_depth: nat, path: PathView)
    requires
        root.absolute == path.absolute,
        root.comps.is_prefix_of(path.comps),
        root.depth() > 0,
    ensures
        beyond(root, path) <= max_depth ==> home(root, max_depth, path) == path,
        beyond(root, path) > max_depth ==> {
            let h = home(root, max_depth, path);
            &&& beyond(root, h) == max_depth + 1
            &&& h.parent() matches Some(d) && d.absolute == path.absolute && d.comps.is_prefix_of(path.comps)
            &&& h.comps.last() == summary_name(path)
        },
{
    if beyond(root, path) > max_depth {
        let h = home(root, max_depth, path);
        let d = summary_parent(root, path, max_depth);
        let n = root.comps.len() + max_depth;
        assert(d.comps =~= path.comps.subrange(0, n as int)) by {
            assert forall|k: int| 0 <= k < n implies d.comps[k] == path.comps[k] by {
                if k < root.comps.len() {
                    assert(root.comps[k] == path.comps[k]);
                }
            }
        }
        assert(h.comps.drop_last() =~= d.comps);
    }
}

/// A directory begins with nothing in it, under its tag and in its colour.
pub proof fn directories_begin_empty(colors: ColorScheme, path: PathView, tag: Option<Seq<u8>>)
    ensures
        ({
            let n = dir_node(colors, path, tag);
            &&& n.path == path
            &&& n.tag == tag
            &&& n.color == colors.spec_dir_color(path)
            &&& n.size == 0
            &&& n.nfiles == 0
            &&& n.subtree.len() == 0
            &&& !n.is_group
        }),
{
}

} // verus!
