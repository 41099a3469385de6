//! Forests in both modes.
use vstd::prelude::*;
use crate::accounting::Plan;
use crate::colors::ColorScheme;
use crate::detail::{
    grown_at, has_type, is_forest, is_grown, lemma_replaced_forest, lemma_replaced_grown,
    lemma_resolved_forest, lemma_resolved_under, way_end,
};
use crate::entry::{bare, lemma_sum_one, sum_nfiles, sum_size, Node};
use crate::forest::{forest_of, group_node};
use crate::graft::{
    grafting_regrows, is_way, laid_out, lemma_laid_differ, regrown, regrown_in_place, replaced,
    replacing_keeps_the_layout,
};
use crate::growth::under;
use crate::ids::{has_id, index_of_id, ordered};
use crate::leaves::leaves_all;
use crate::lineage::extensions_of;
use crate::matching::lemma_sorted_members;
use crate::merge::{key_of, merged};
use crate::path::PathView;
use crate::roundtrip::{forest_is_sound, lemma_sort_members};
use crate::sharing::group_path;
use crate::siblings::{offsets_keep_entries, sort_nodes};
use crate::surgery::{adds_up, counted, counted_covers, nats, pruned, resolve, sized};

verus! {

broadcast use crate::ids::lemma_index_of_id;

/// Whether an entry is the group of an extension, above a forest of that type.
pub open spec fn is_typed_group(colors: ColorScheme, n: Node, root: PathView, ext: Seq<u8>) -> bool {
    &&& n.path == group_path(root, ext)
    &&& n.tag is None
    &&& n.is_group
    &&& n.subtree.len() > 0
    &&& is_grown(colors, n.subtree, root, Some(ext))
}

/// Whether an entry is the group of some extension.
pub open spec fn is_any_group(colors: ColorScheme, n: Node, root: PathView) -> bool {
    exists|ext: Seq<u8>| #[trigger] is_typed_group(colors, n, root, ext)
}

/// Whether a forest is what a scan makes of a root: that of a directory, or in x-ray
/// mode a group for each file type, with the forest of a directory below.
pub open spec fn is_whole(colors: ColorScheme, f: Seq<(nat, Node)>, root: PathView, xray: bool) -> bool {
    if xray {
        &&& laid_out(f)
        &&& ordered(f)
        &&& counted(f)
        &&& sized(f)
        &&& forall|i: int| 0 <= i < f.len() ==> is_any_group(colors, (#[trigger] f[i]).1, root)
    } else {
        is_forest(colors, f, root, None)
    }
}

/// In x-ray mode an address leads through a group.
pub proof fn lemma_through_group(colors: ColorScheme, f: Seq<(nat, Node)>, addr: Seq<usize>, root: PathView) -> (ext: Seq<
    u8,
>)
    requires
        is_whole(colors, f, root, true),
        resolve(f, nats(addr)) is Some,
        !(resolve(f, nats(addr))->0).is_group,
    ensures
        ({
            let i = index_of_id(f, addr[0] as nat);
            let g = f[i].1;
            let gone = resolve(f, nats(addr))->0;
            &&& 0 <= i < f.len()
            &&& f[i].0 == addr[0] as nat
            &&& addr.len() > 1
            &&& is_typed_group(colors, g, root, ext)
            &&& is_forest(colors, g.subtree, root, Some(ext))
            &&& resolve(g.subtree, nats(addr.skip(1))) == Some(gone)
            &&& gone.subtree.len() > 0 ==> gone.tag == Some(ext)
        }),
{
    let i = index_of_id(f, addr[0] as nat);
    let g = f[i].1;
    assert(nats(addr)[0] == addr[0] as nat);
    assert(nats(addr).skip(1) =~= nats(addr.skip(1)));
    assert(has_id(f, addr[0] as nat));
    assert(is_any_group(colors, f[i].1, root));
    let ext = choose|ext: Seq<u8>| #[trigger] is_typed_group(colors, f[i].1, root, ext);
    assert(laid_out(f[i].1.subtree) && ordered(f[i].1.subtree) && counted(f[i].1.subtree) && sized(
        f[i].1.subtree,
    ));
    assert(addr.len() > 1);
    lemma_resolved_forest(colors, g.subtree, addr.skip(1), root, Some(ext));
    ext
}

/// The directory at an address lies below the root.
pub proof fn lemma_whole_under(colors: ColorScheme, f: Seq<(nat, Node)>, addr: Seq<usize>, root: PathView, xray: bool)
    requires
        is_whole(colors, f, root, xray),
        resolve(f, nats(addr)) is Some,
        !(resolve(f, nats(addr))->0).is_group,
    ensures
        under((resolve(f, nats(addr))->0).path, root),
        (resolve(f, nats(addr))->0).path.comps.len() > root.comps.len(),
{
    if xray {
        let ext = lemma_through_group(colors, f, addr, root);
        let g = f[index_of_id(f, addr[0] as nat)].1;
        lemma_resolved_under(colors, g.subtree, addr.skip(1), root, Some(ext));
    } else {
        lemma_resolved_under(colors, f, addr, root, None);
    }
}

/// The tag of a directory at an address goes by the mode.
pub proof fn lemma_whole_tag(colors: ColorScheme, f: Seq<(nat, Node)>, addr: Seq<usize>, root: PathView, xray: bool)
    requires
        is_whole(colors, f, root, xray),
        resolve(f, nats(addr)) is Some,
        !(resolve(f, nats(addr))->0).is_group,
        (resolve(f, nats(addr))->0).subtree.len() > 0,
    ensures
        (resolve(f, nats(addr))->0).tag is Some == xray,
{
    if xray {
        let ext = lemma_through_group(colors, f, addr, root);
    } else {
        lemma_resolved_forest(colors, f, addr, root, None);
    }
}

/// A forest in either mode is laid out, and its counts add up.
pub proof fn lemma_whole_laid(colors: ColorScheme, f: Seq<(nat, Node)>, root: PathView, xray: bool)
    requires
        is_whole(colors, f, root, xray),
    ensures
        laid_out(f),
        ordered(f),
        counted(f),
        sized(f),
{
}

proof fn lemma_one_extension(leaves: Seq<Node>, ext: Seq<u8>)
    requires
        leaves.len() > 0,
        forall|j: int| 0 <= j < leaves.len() ==> has_type(Some(ext), #[trigger] leaves[j]),
    ensures
        extensions_of(true, leaves) == seq![ext],
    decreases leaves.len(),
{
    let d = leaves.drop_last();
    assert(leaves[leaves.len() - 1] == leaves.last());
    assert(has_type(Some(ext), leaves[leaves.len() - 1]));
    if d.len() > 0 {
        assert forall|j: int| 0 <= j < d.len() implies has_type(Some(ext), #[trigger] d[j]) by {
            assert(d[j] == leaves[j]);
        }
        lemma_one_extension(d, ext);
        assert(extensions_of(true, d)[0] == ext);
    } else {
        assert(extensions_of(true, d) =~= Seq::empty());
        assert(extensions_of(true, leaves) =~= seq![ext]);
    }
}

impl Plan {
    /// The x-ray forest of leaves of one type has the group of that type.
    proof fn lemma_one_group(self, leaves: Seq<Node>, ext: Seq<u8>)
        requires
            self.xray,
            leaves.len() > 0,
            forall|j: int| 0 <= j < leaves.len() ==> self.label(#[trigger] leaves[j]) == Some(ext),
        ensures
            forest_of(self, leaves).len() == 1,
            forest_of(self, leaves)[0].1 == group_node(
                self.colors,
                self.root,
                ext,
                self.tree(leaves, self.root, Some(ext)),
            ),
    {
        assert forall|j: int| 0 <= j < leaves.len() implies has_type(Some(ext), #[trigger] leaves[j]) by {
            assert(self.label(leaves[j]) == Some(ext));
        }
        lemma_one_extension(leaves, ext);
        let g = self.all_groups(leaves);
        assert(extensions_of(true, leaves)[0] == ext);
        assert(g =~= seq![self.grouped(leaves, ext)]);
        lemma_sort_members(g);
        assert(g.contains(sort_nodes(g)[0]));
        offsets_keep_entries(sort_nodes(g));
    }

    /// Merging what stays of a forest without a directory with the forest of leaves
    /// that all lie in that directory puts what they make of it in its place.
    pub proof fn lemma_regrown_whole(self, f: Seq<(nat, Node)>, addr: Seq<usize>, leaves: Seq<Node>)
        requires
            is_whole(self.colors, f, self.root, self.xray),
            resolve(f, nats(addr)) is Some,
            (resolve(f, nats(addr))->0).subtree.len() > 0,
            !(resolve(f, nats(addr))->0).is_group,
            self.are_painted(leaves),
            leaves.len() > 0,
            self.all_below(leaves, (resolve(f, nats(addr))->0).path, (resolve(f, nats(addr))->0).tag),
        ensures
            ({
                let t = forest_of(self, leaves);
                let m = way_end(t, addr.len());
                let gone = resolve(f, nats(addr))->0;
                &&& pruned(f, addr) is Some
                &&& merged((pruned(f, addr)->0).0, t) == regrown(f, addr, m)
                &&& m.path == gone.path
                &&& m.size == sum_size(leaves)
                &&& m.nfiles == sum_nfiles(leaves)
                &&& m.path.comps.len() > 0
                &&& m.subtree.len() > 0
                &&& self.is_full(m, leaves, m.path.parent()->0, gone.tag)
                &&& is_forest(self.colors, m.subtree, m.path, gone.tag)
                &&& adds_up(m)
                &&& grown_at(self.colors, m, m.path.parent()->0, gone.tag)
            }),
    {
        let gone = resolve(f, nats(addr))->0;
        if self.xray {
            let ext = lemma_through_group(self.colors, f, addr, self.root);
            let i = index_of_id(f, addr[0] as nat);
            let g = f[i].1;
            let more = addr.skip(1);
            let tag = Some(ext);
            let t = forest_of(self, leaves);
            let below = self.tree(leaves, self.root, tag);
            let m = way_end(below, more.len());
            assert forall|j: int| 0 <= j < leaves.len() implies self.label(#[trigger] leaves[j]) == Some(ext) by {
                assert(under(self.spot(leaves[j]), gone.path));
            }
            self.lemma_one_group(leaves, ext);
            self.lemma_regrown_by(g.subtree, more, leaves, tag);
            assert(bare(below) =~= seq![below[0].1]);
            lemma_sum_one(below[0].1);
            assert(t[0].1.subtree == below);
            assert(way_end(t, addr.len()) == m);
            assert(key_of(t[0].1) == key_of(g));
            assert(is_way(t, f, addr, m));
            lemma_laid_differ(f);
            counted_covers(f);
            grafting_regrows(f, addr, t, m);
        } else {
            lemma_resolved_forest(self.colors, f, addr, self.root, None);
            self.lemma_regrown_by(f, addr, leaves, None);
        }
    }

    /// The same, where what takes the place of the directory counts the same.
    pub proof fn lemma_replaced_whole(self, f: Seq<(nat, Node)>, addr: Seq<usize>, leaves: Seq<Node>)
        requires
            is_whole(self.colors, f, self.root, self.xray),
            resolve(f, nats(addr)) is Some,
            (resolve(f, nats(addr))->0).subtree.len() > 0,
            !(resolve(f, nats(addr))->0).is_group,
            self.are_painted(leaves),
            leaves.len() > 0,
            self.all_below(leaves, (resolve(f, nats(addr))->0).path, (resolve(f, nats(addr))->0).tag),
            sum_size(leaves) == (resolve(f, nats(addr))->0).size,
            sum_nfiles(leaves) == (resolve(f, nats(addr))->0).nfiles,
        ensures
            ({
                let t = forest_of(self, leaves);
                let m = way_end(t, addr.len());
                &&& pruned(f, addr) is Some
                &&& merged((pruned(f, addr)->0).0, t) == replaced(f, addr, m)
                &&& is_whole(self.colors, replaced(f, addr, m), self.root, self.xray)
            }),
    {
        let gone = resolve(f, nats(addr))->0;
        let m = way_end(forest_of(self, leaves), addr.len());
        self.lemma_regrown_whole(f, addr, leaves);
        if self.xray {
            let ext = lemma_through_group(self.colors, f, addr, self.root);
            let i = index_of_id(f, addr[0] as nat);
            let g = f[i].1;
            let more = addr.skip(1);
            regrown_in_place(f, addr, m);
            replacing_keeps_the_layout(f, addr, m);
            lemma_replaced_grown(self.colors, g.subtree, more, m, self.root, Some(ext));
            let r = replaced(f, addr, m);
            let below = replaced(g.subtree, more, m);
            assert(r == f.update(i, r[i]));
            assert(r[i].1.subtree == below);
            assert forall|k: int| 0 <= k < r.len() implies is_any_group(self.colors, (#[trigger] r[k]).1, self.root)
                && r[k].1.size > 0 && sized(r[k].1.subtree) by {
                if k == i {
                    assert(f[i].1.size > 0);
                    assert(is_typed_group(self.colors, r[k].1, self.root, ext));
                } else {
                    assert(r[k] == f[k]);
                    assert(is_any_group(self.colors, f[k].1, self.root));
                }
            }
        } else {
            lemma_resolved_forest(self.colors, f, addr, self.root, None);
            regrown_in_place(f, addr, m);
            lemma_replaced_forest(self.colors, f, addr, m, self.root, None);
        }
    }

    /// The leaves below a directory of a forest are those of a scan.
    pub proof fn lemma_leaves_whole(self, f: Seq<(nat, Node)>, addr: Seq<usize>)
        requires
            is_whole(self.colors, f, self.root, self.xray),
            resolve(f, nats(addr)) is Some,
            (resolve(f, nats(addr))->0).subtree.len() > 0,
            !(resolve(f, nats(addr))->0).is_group,
        ensures
            ({
                let gone = resolve(f, nats(addr))->0;
                let leaves = leaves_all(bare(gone.subtree));
                &&& self.are_painted(leaves)
                &&& leaves.len() > 0
                &&& sum_size(leaves) == gone.size
                &&& sum_nfiles(leaves) == gone.nfiles
                &&& forall|j: int|
                    0 <= j < leaves.len() ==> under((#[trigger] leaves[j]).path, gone.path) && leaves[j].path
                        != gone.path && self.label(leaves[j]) == gone.tag
                &&& under(gone.path, self.root)
            }),
    {
        let gone = resolve(f, nats(addr))->0;
        let leaves = leaves_all(bare(gone.subtree));
        if self.xray {
            let ext = lemma_through_group(self.colors, f, addr, self.root);
            let g = f[index_of_id(f, addr[0] as nat)].1;
            self.lemma_leaves_painted(g.subtree, addr.skip(1), Some(ext));
            assert forall|j: int| 0 <= j < leaves.len() implies self.label(#[trigger] leaves[j]) == gone.tag by {
                assert(has_type(Some(ext), leaves[j]));
            }
        } else {
            self.lemma_leaves_painted(f, addr, None);
            lemma_resolved_forest(self.colors, f, addr, self.root, None);
        }
    }
}

/// The forest of a scan is one. In x-ray mode no two extensions may have one group.
pub proof fn scans_make_forests(plan: Plan, leaves: Seq<Node>)
    requires
        plan.are_painted(leaves),
        plan.groups_differ(leaves),
    ensures
        is_whole(plan.colors, forest_of(plan, leaves), plan.root, plan.xray),
{
    plan.lemma_painted_found(leaves);
    if plan.xray {
        let f = forest_of(plan, leaves);
        let g = plan.all_groups(leaves);
        forest_is_sound(plan, leaves);
        plan.lemma_groups(leaves);
        lemma_sorted_members(g);
        offsets_keep_entries(sort_nodes(g));
        assert forall|i: int| 0 <= i < f.len() implies is_any_group(plan.colors, (#[trigger] f[i]).1, plan.root)
            && laid_out(f[i].1.subtree) by {
            let v = f[i].1;
            assert(v == bare(f)[i]);
            assert(sort_nodes(g).contains(sort_nodes(g)[i]));
            assert(g.contains(v));
            let k = choose|k: int| 0 <= k < g.len() && g[k] == v;
            assert(plan.is_some_group(g[k], leaves));
            let ext = choose|ext: Seq<u8>| #[trigger] plan.is_group_of(g[k], leaves, ext);
            plan.lemma_tree_forest(leaves, plan.root, Some(ext));
            plan.lemma_uses_touched(leaves, ext);
            assert(is_typed_group(plan.colors, v, plan.root, ext));
        }
    } else {
        plan.lemma_tree_forest(leaves, plan.root, None);
    }
}

} // verus!
