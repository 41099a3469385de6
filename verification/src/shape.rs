//! What the forest of a scan looks like: how deep it is, and where file types
//! are found in it.
use vstd::prelude::*;
use crate::accounting::Plan;
use crate::colors::ColorScheme;
use crate::entry::Node;
use crate::forest::{forest_of, groups};
use crate::growth::{grown, lemma_grown, settled, tree_of, under};
use crate::keymap::Key;
use crate::lineage::{
    beyond, climb, dir_node, extensions_of, family, has_path, home, leaf_tag, place_of, plant, summary_name,
    summary_parent, summed_up,
};
use crate::path::{last_dot, PathView, DOT};
use crate::roundtrip::{all_bare, lemma_climb_bare, lemma_sort_members};
use crate::siblings::{offsets, sort_nodes};

verus! {

/// What of an entry does not depend on what lies below it.
pub open spec fn label(n: Node) -> (PathView, Option<Seq<u8>>, bool) {
    (n.path, n.tag, n.is_group)
}

/// Whether something holds of every entry of families.
spec fn holds_in(
    m: Map<Key, Seq<Node>>,
    p: spec_fn(Option<Seq<u8>>, (PathView, Option<Seq<u8>>, bool)) -> bool,
) -> bool {
    forall|k: Key, i: int|
        m.contains_key(k) && 0 <= i < m[k].len() ==> p(k.1, label(#[trigger] m[k][i]))
}

/// Whether something holds of every entry of a forest.
spec fn holds_below(
    f: Seq<(nat, Node)>,
    tag: Option<Seq<u8>>,
    p: spec_fn(Option<Seq<u8>>, (PathView, Option<Seq<u8>>, bool)) -> bool,
) -> bool
    decreases f,
{
    forall|i: int|
        0 <= i < f.len() ==> p(tag, label((#[trigger] f[i]).1)) && holds_below(f[i].1.subtree, tag, p)
}

/// The path of the first components of a path.
spec fn start_of(path: PathView, n: int) -> PathView {
    PathView { absolute: path.absolute, comps: path.comps.take(n) }
}

proof fn lemma_climb_holds(
    colors: ColorScheme,
    m: Map<Key, Seq<Node>>,
    tag: Option<Seq<u8>>,
    n: Node,
    p: spec_fn(Option<Seq<u8>>, (PathView, Option<Seq<u8>>, bool)) -> bool,
)
    requires
        holds_in(m, p),
        p(tag, label(n)),
        forall|j: int|
            0 <= j < n.path.comps.len() ==> p(
                tag,
                label(dir_node(colors, #[trigger] start_of(n.path, j), tag)),
            ),
    ensures
        holds_in(climb(colors, m, tag, n), p),
    decreases n.path.comps.len(),
{
    if let Some(parent) = n.path.parent() {
        let k: Key = (parent, tag);
        let s = family(m, k);
        if !has_path(s, n.path) {
            let m2 = m.insert(k, s.push(n));
            assert forall|k2: Key, i: int| m2.contains_key(k2) && 0 <= i < m2[k2].len() implies p(
                k2.1,
                label(#[trigger] m2[k2][i]),
            ) by {
                if k2 != k || i < s.len() {
                    assert(m[k2][i] == m2[k2][i]);
                }
            }
            let last = n.path.comps.len() - 1;
            assert(start_of(n.path, last) == parent) by {
                assert(n.path.comps.take(last) =~= n.path.comps.drop_last());
            }
            assert forall|j: int| 0 <= j < parent.comps.len() implies p(
                tag,
                label(dir_node(colors, #[trigger] start_of(parent, j), tag)),
            ) by {
                assert(parent.comps.take(j) =~= n.path.comps.take(j));
                assert(start_of(parent, j) == start_of(n.path, j));
            }
            lemma_climb_holds(colors, m2, tag, dir_node(colors, parent, tag), p);
        }
    }
}

proof fn lemma_tree_holds(
    r: Map<Key, Seq<Node>>,
    path: PathView,
    tag: Option<Seq<u8>>,
    p: spec_fn(Option<Seq<u8>>, (PathView, Option<Seq<u8>>, bool)) -> bool,
)
    requires
        holds_in(r, p),
        all_bare(r),
    ensures
        holds_below(tree_of(r, path, tag), tag, p),
    decreases r.dom().len(),
{
    let key: Key = (path, tag);
    if r.dom().finite() && r.contains_key(key) {
        let rest = r.remove(key);
        let kids = r[key];
        let g = grown(rest, kids, tag);
        lemma_grown(rest, kids, tag);
        assert forall|k: Key, i: int| rest.contains_key(k) && 0 <= i < rest[k].len() implies p(
            k.1,
            label(#[trigger] rest[k][i]),
        ) by {
            assert(rest[k][i] == r[k][i]);
        }
        assert forall|k: Key, i: int| rest.contains_key(k) && 0 <= i < rest[k].len() implies (
        #[trigger] rest[k][i]).subtree.len() == 0 by {
            assert(rest[k][i] == r[k][i]);
        }
        let s = sort_nodes(g);
        lemma_sort_members(g);
        let f = offsets(s);
        assert forall|i: int| 0 <= i < f.len() implies p(tag, label((#[trigger] f[i]).1)) && holds_below(
            f[i].1.subtree,
            tag,
            p,
        ) by {
            assert(g.contains(s[i]));
            let j = choose|j: int| 0 <= j < g.len() && g[j] == s[i];
            assert(g[j] == settled(kids[j], tree_of(rest, kids[j].path, tag)));
            assert(kids[j] == r[key][j]);
            assert(p(key.1, label(r[key][j])));
            assert(label(g[j]) == label(kids[j]));
            lemma_tree_holds(rest, kids[j].path, tag, p);
            let below = tree_of(rest, kids[j].path, tag);
            if below.len() == 0 {
                assert(kids[j].subtree.len() == 0);
                assert(holds_below(g[j].subtree, tag, p));
            }
        }
        assert(tree_of(r, path, tag) == f);
    }
}

/// Whether an entry is not deeper than a forest may be: directories and files
/// down to the depth, and one level below it groups that stand for what is
/// deeper.
pub open spec fn in_depth(root: PathView, depth: nat, l: (PathView, Option<Seq<u8>>, bool)) -> bool {
    beyond(root, l.0) <= depth || (beyond(root, l.0) == depth + 1 && l.2)
}

/// Whether no entry of a forest is deeper than it may be.
pub open spec fn is_shallow(root: PathView, depth: nat, f: Seq<(nat, Node)>) -> bool
    decreases f,
{
    forall|i: int|
        0 <= i < f.len() ==> in_depth(root, depth, label((#[trigger] f[i]).1)) && is_shallow(
            root,
            depth,
            f[i].1.subtree,
        )
}

/// Whether an entry belongs to a file type: a directory is marked with it, and a
/// file or a group of files has it as extension.
pub open spec fn has_type(tag: Option<Seq<u8>>, l: (PathView, Option<Seq<u8>>, bool)) -> bool {
    l.1 == tag || (l.1 is None && leaf_tag(true, l.0) == tag)
}

/// Whether every entry of a forest belongs to a file type.
pub open spec fn is_typed(tag: Option<Seq<u8>>, f: Seq<(nat, Node)>) -> bool
    decreases f,
{
    forall|i: int|
        0 <= i < f.len() ==> has_type(tag, label((#[trigger] f[i]).1)) && is_typed(tag, f[i].1.subtree)
}

spec fn depth_rule(root: PathView, depth: nat) -> spec_fn(
    Option<Seq<u8>>,
    (PathView, Option<Seq<u8>>, bool),
) -> bool {
    |tag: Option<Seq<u8>>, l: (PathView, Option<Seq<u8>>, bool)| in_depth(root, depth, l)
}

spec fn type_rule() -> spec_fn(Option<Seq<u8>>, (PathView, Option<Seq<u8>>, bool)) -> bool {
    |tag: Option<Seq<u8>>, l: (PathView, Option<Seq<u8>>, bool)| has_type(tag, l)
}

proof fn lemma_no_dot(name: Seq<u8>, i: int)
    requires
        0 <= i,
        last_dot(name) < i < name.len(),
    ensures
        name[i] != DOT,
    decreases name.len(),
{
    if name.last() != DOT {
        if i < name.len() - 1 {
            lemma_no_dot(name.drop_last(), i);
        }
    }
}

proof fn lemma_dot_within(name: Seq<u8>)
    ensures
        -1 <= last_dot(name) < name.len(),
    decreases name.len(),
{
    if name.len() > 0 {
        lemma_dot_within(name.drop_last());
    }
}

proof fn lemma_last_dot(name: Seq<u8>, d: int)
    requires
        0 <= d < name.len(),
        name[d] == DOT,
        forall|i: int| d < i < name.len() ==> name[i] != DOT,
    ensures
        last_dot(name) == d,
    decreases name.len(),
{
    if d < name.len() - 1 {
        lemma_last_dot(name.drop_last(), d);
    }
}

proof fn lemma_dotless(name: Seq<u8>)
    requires
        forall|i: int| 0 <= i < name.len() ==> name[i] != DOT,
    ensures
        last_dot(name) == -1,
    decreases name.len(),
{
    if name.len() > 0 {
        lemma_dotless(name.drop_last());
    }
}

/// A group of files that are too deep has the extension of the files.
pub proof fn lemma_summary_type(parent: PathView, path: PathView)
    ensures
        leaf_tag(true, parent.child(summary_name(path))) == leaf_tag(true, path),
{
    let name = summary_name(path);
    let p = parent.child(name);
    assert(p.comps.last() == name);
    match path.extension() {
        Some(ext) => {
            let whole = path.file_name()->0;
            assert(ext == whole.skip(last_dot(whole) + 1));
            lemma_dot_within(whole);
            if ext.len() == 0 {
                lemma_dotless(name);
            } else {
                assert forall|i: int| 2 < i < name.len() implies name[i] != DOT by {
                    assert(name[i] == ext[i - 3]);
                    lemma_no_dot(whole, last_dot(whole) + 1 + (i - 3));
                }
                lemma_last_dot(name, 2);
                assert(name.skip(3) =~= ext);
            }
        },
        None => {
            lemma_dotless(name);
        },
    }
    assert(name.len() > 2 || name =~= seq![42u8, 42u8]);
    assert(name[0] != DOT);
}

/// Whether leaves are as a scan gives them: no file type is set, and nothing
/// lies below them.
pub open spec fn are_bare(leaves: Seq<Node>) -> bool {
    forall|i: int| 0 <= i < leaves.len() ==> (#[trigger] leaves[i]).tag is None && leaves[i].subtree.len() == 0
}

impl Plan {
    /// Whether every leaf lies below the root.
    pub open spec fn is_below(self, leaves: Seq<Node>) -> bool {
        forall|i: int|
            0 <= i < leaves.len() ==> under((#[trigger] leaves[i]).path, self.root) && leaves[i].path
                != self.root
    }

    proof fn lemma_plant_bare(self, m: Map<Key, Seq<Node>>, leaf: Node)
        requires
            leaf.subtree.len() == 0,
            all_bare(m),
        ensures
            all_bare(plant(self.colors, self.root, self.depth, self.xray, m, leaf)),
    {
        let tag = leaf_tag(self.xray, leaf.path);
        if beyond(self.root, leaf.path) > self.depth {
            let parent = summary_parent(self.root, leaf.path, self.depth);
            let k: Key = (parent, tag);
            let s = family(m, k);
            let spot = home(self.root, self.depth, leaf.path);
            let m1 = m.insert(k, summed_up(s, spot, leaf));
            assert forall|k2: Key, i: int| m1.contains_key(k2) && 0 <= i < m1[k2].len() implies (
            #[trigger] m1[k2][i]).subtree.len() == 0 by {
                if k2 != k || i < s.len() {
                    assert(m[k2][i].subtree.len() == 0);
                    if k2 == k && has_path(s, spot) {
                        assert(s[place_of(s, spot)].path == spot);
                    }
                }
            }
            lemma_climb_bare(self, m1, tag, dir_node(self.colors, parent, tag));
        } else {
            lemma_climb_bare(self, m, tag, leaf);
        }
    }

    proof fn lemma_plant_depth(self, m: Map<Key, Seq<Node>>, leaf: Node)
        requires
            under(leaf.path, self.root),
            leaf.path != self.root,
            holds_in(m, depth_rule(self.root, self.depth)),
        ensures
            holds_in(
                plant(self.colors, self.root, self.depth, self.xray, m, leaf),
                depth_rule(self.root, self.depth),
            ),
    {
        let p = depth_rule(self.root, self.depth);
        let tag = leaf_tag(self.xray, leaf.path);
        self.lemma_spot(leaf);
        if beyond(self.root, leaf.path) > self.depth {
            let parent = summary_parent(self.root, leaf.path, self.depth);
            let k: Key = (parent, tag);
            let s = family(m, k);
            let spot = home(self.root, self.depth, leaf.path);
            let t = summed_up(s, spot, leaf);
            let m1 = m.insert(k, t);
            assert(spot == self.spot(leaf));
            assert(beyond(self.root, spot) == self.depth + 1);
            assert forall|k2: Key, i: int| m1.contains_key(k2) && 0 <= i < m1[k2].len() implies p(
                k2.1,
                label(#[trigger] m1[k2][i]),
            ) by {
                if k2 != k {
                    assert(m1[k2][i] == m[k2][i]);
                } else if i < s.len() {
                    assert(s[i] == m[k][i]);
                    if has_path(s, spot) {
                        assert(s[place_of(s, spot)].path == spot);
                    }
                    assert(label(t[i]) == label(s[i]));
                }
            }
            let dir = dir_node(self.colors, parent, tag);
            assert(beyond(self.root, parent) == self.depth);
            assert forall|j: int| 0 <= j < parent.comps.len() implies p(
                tag,
                label(dir_node(self.colors, #[trigger] start_of(parent, j), tag)),
            ) by {}
            lemma_climb_holds(self.colors, m1, tag, dir, p);
        } else {
            assert forall|j: int| 0 <= j < leaf.path.comps.len() implies p(
                tag,
                label(dir_node(self.colors, #[trigger] start_of(leaf.path, j), tag)),
            ) by {}
            lemma_climb_holds(self.colors, m, tag, leaf, p);
        }
    }

    proof fn lemma_plant_type(self, m: Map<Key, Seq<Node>>, leaf: Node)
        requires
            self.xray,
            leaf.tag is None,
            holds_in(m, type_rule()),
        ensures
            holds_in(plant(self.colors, self.root, self.depth, self.xray, m, leaf), type_rule()),
    {
        let p = type_rule();
        let tag = leaf_tag(self.xray, leaf.path);
        if beyond(self.root, leaf.path) > self.depth {
            let parent = summary_parent(self.root, leaf.path, self.depth);
            let k: Key = (parent, tag);
            let s = family(m, k);
            let spot = home(self.root, self.depth, leaf.path);
            let t = summed_up(s, spot, leaf);
            let m1 = m.insert(k, t);
            lemma_summary_type(parent, leaf.path);
            assert forall|k2: Key, i: int| m1.contains_key(k2) && 0 <= i < m1[k2].len() implies p(
                k2.1,
                label(#[trigger] m1[k2][i]),
            ) by {
                if k2 != k {
                    assert(m1[k2][i] == m[k2][i]);
                } else if i < s.len() {
                    assert(s[i] == m[k][i]);
                    if has_path(s, spot) {
                        assert(s[place_of(s, spot)].path == spot);
                    }
                    assert(label(t[i]) == label(s[i]));
                }
            }
            lemma_climb_holds(self.colors, m1, tag, dir_node(self.colors, parent, tag), p);
        } else {
            lemma_climb_holds(self.colors, m, tag, leaf, p);
        }
    }

    proof fn lemma_families_shape(self, leaves: Seq<Node>)
        requires
            self.is_below(leaves),
            are_bare(leaves),
        ensures
            holds_in(self.families(leaves), depth_rule(self.root, self.depth)),
            self.xray ==> holds_in(self.families(leaves), type_rule()),
            all_bare(self.families(leaves)),
        decreases leaves.len(),
    {
        if leaves.len() > 0 {
            let d = leaves.drop_last();
            let leaf = leaves.last();
            assert(leaves[leaves.len() - 1] == leaf);
            assert forall|i: int| 0 <= i < d.len() implies under((#[trigger] d[i]).path, self.root) && d[i].path
                != self.root && d[i].tag is None && d[i].subtree.len() == 0 by {
                assert(leaves[i] == d[i]);
            }
            self.lemma_families_shape(d);
            let m = self.families(d);
            self.lemma_plant_depth(m, leaf);
            self.lemma_plant_bare(m, leaf);
            if self.xray {
                self.lemma_plant_type(m, leaf);
            }
        }
    }
}

proof fn lemma_shallow(root: PathView, depth: nat, tag: Option<Seq<u8>>, f: Seq<(nat, Node)>)
    requires
        holds_below(f, tag, depth_rule(root, depth)),
    ensures
        is_shallow(root, depth, f),
    decreases f,
{
    assert forall|i: int| 0 <= i < f.len() implies in_depth(root, depth, label((#[trigger] f[i]).1))
        && is_shallow(root, depth, f[i].1.subtree) by {
        assert(depth_rule(root, depth)(tag, label(f[i].1)));
        lemma_shallow(root, depth, tag, f[i].1.subtree);
    }
}

proof fn lemma_typed(tag: Option<Seq<u8>>, f: Seq<(nat, Node)>)
    requires
        holds_below(f, tag, type_rule()),
    ensures
        is_typed(tag, f),
    decreases f,
{
    assert forall|i: int| 0 <= i < f.len() implies has_type(tag, label((#[trigger] f[i]).1)) && is_typed(
        tag,
        f[i].1.subtree,
    ) by {
        assert(type_rule()(tag, label(f[i].1)));
        lemma_typed(tag, f[i].1.subtree);
    }
}

/// What lies below the maximum depth is replaced by groups, one level below it.
/// In x-ray mode this holds below each group of a file type.
pub proof fn depth_is_respected(plan: Plan, leaves: Seq<Node>)
    requires
        plan.is_below(leaves),
        are_bare(leaves),
    ensures
        !plan.xray ==> is_shallow(plan.root, plan.depth, forest_of(plan, leaves)),
        plan.xray ==> forall|i: int|
            0 <= i < forest_of(plan, leaves).len() ==> is_shallow(
                plan.root,
                plan.depth,
                (#[trigger] forest_of(plan, leaves)[i]).1.subtree,
            ),
{
    let m = plan.families(leaves);
    plan.lemma_families_shape(leaves);
    let p = depth_rule(plan.root, plan.depth);
    let f = forest_of(plan, leaves);
    if plan.xray {
        let exts = extensions_of(true, leaves);
        let g = groups(plan.colors, plan.root, m, exts);
        lemma_sort_members(g);
        assert forall|i: int| 0 <= i < f.len() implies is_shallow(
            plan.root,
            plan.depth,
            (#[trigger] f[i]).1.subtree,
        ) by {
            let s = sort_nodes(g);
            assert(g.contains(s[i]));
            let j = choose|j: int| 0 <= j < g.len() && g[j] == s[i];
            lemma_tree_holds(m, plan.root, Some(exts[j]), p);
            lemma_shallow(plan.root, plan.depth, Some(exts[j]), g[j].subtree);
        }
    } else {
        lemma_tree_holds(m, plan.root, None, p);
        lemma_shallow(plan.root, plan.depth, None, f);
    }
}

/// In x-ray mode files are grouped by type at the top level: each entry there is
/// a group, and all that lies below it belongs to one file type.
pub proof fn xray_groups_by_type(plan: Plan, leaves: Seq<Node>)
    requires
        plan.xray,
        plan.is_below(leaves),
        are_bare(leaves),
    ensures
        forall|i: int|
            0 <= i < forest_of(plan, leaves).len() ==> {
                &&& (#[trigger] forest_of(plan, leaves)[i]).1.is_group
                &&& exists|ext: Seq<u8>|
                    extensions_of(true, leaves).contains(ext) && #[trigger] is_typed(
                        Some(ext),
                        forest_of(plan, leaves)[i].1.subtree,
                    )
            },
{
    let m = plan.families(leaves);
    plan.lemma_families_shape(leaves);
    let f = forest_of(plan, leaves);
    let exts = extensions_of(true, leaves);
    let g = groups(plan.colors, plan.root, m, exts);
    lemma_sort_members(g);
    assert forall|i: int| 0 <= i < f.len() implies {
        &&& (#[trigger] f[i]).1.is_group
        &&& exists|ext: Seq<u8>|
            extensions_of(true, leaves).contains(ext) && #[trigger] is_typed(Some(ext), f[i].1.subtree)
    } by {
        let s = sort_nodes(g);
        assert(g.contains(s[i]));
        let j = choose|j: int| 0 <= j < g.len() && g[j] == s[i];
        lemma_tree_holds(m, plan.root, Some(exts[j]), type_rule());
        lemma_typed(Some(exts[j]), g[j].subtree);
        assert(exts.contains(exts[j]));
        assert(is_typed(Some(exts[j]), f[i].1.subtree));
    }
}

} // verus!
