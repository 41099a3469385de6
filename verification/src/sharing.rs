//! However the leaves of a scan are shared out, one forest comes out.
use vstd::prelude::*;
use crate::accounting::Plan;
use crate::assembly::{lemma_fused_pair, lemma_shuffled_members};
use crate::conservation::lemma_extension_listed;
use crate::entry::Node;
use crate::forest::{extensions_distinct, forest_of, group_label, group_node, groups};
use crate::graft::lemma_at_key;
use crate::growth::under;
use crate::keymap::Key;
use crate::lineage::{extensions_of, summary_name};
use crate::matching::{
    lemma_sorted_members, lemma_with_key_add, lemma_with_key_one, merging_nothing_changes_nothing,
    order_does_not_matter, paths_differ,
};
use crate::merge::{
    fuse, fuse_group, key_of, keys_distinct, keys_of, lemma_all_keys, lemma_fuse_keys, lemma_has_key,
    merge_conserves, merged, with_key,
};
use crate::parallel::{merge_round, reduced};
use crate::path::{parse_path, PathView};
use crate::roundtrip::lemma_extension_used;
use crate::siblings::{offsets, offsets_keep_entries, sort_nodes};

verus! {

/// The path of the group of an extension.
pub open spec fn group_path(root: PathView, ext: Seq<u8>) -> PathView {
    root.join(parse_path(vstd::utf8::encode_utf8(group_label(ext))))
}

/// Lists in one.
pub open spec fn joined(s: Seq<Seq<Node>>) -> Seq<Node>
    decreases s.len(),
{
    if s.len() == 0 {
        Seq::empty()
    } else {
        joined(s.drop_last()) + s.last()
    }
}

/// Lists with neighbours in one.
spec fn paired(s: Seq<Seq<Node>>) -> Seq<Seq<Node>> {
    Seq::new(
        (s.len() + 1) / 2,
        |i: int|
            if 2 * i + 1 < s.len() {
                s[2 * i] + s[2 * i + 1]
            } else {
                s[2 * i]
            },
    )
}

proof fn lemma_joined_paired(s: Seq<Seq<Node>>)
    ensures
        joined(paired(s)) == joined(s),
    decreases s.len(),
{
    let r = paired(s);
    if s.len() == 0 {
        assert(r.len() == 0);
    } else if s.len() == 1 {
        assert(r =~= s);
    } else if s.len() % 2 == 1 {
        let d = s.drop_last();
        lemma_joined_paired(d);
        assert(r.drop_last() =~= paired(d));
        assert(r.last() == s.last());
    } else {
        let d = s.drop_last();
        let dd = d.drop_last();
        lemma_joined_paired(dd);
        assert(r.drop_last() =~= paired(dd));
        assert(r.last() == d.last() + s.last());
        assert(joined(d) == joined(dd) + d.last());
        assert(joined(s) =~= joined(dd) + (d.last() + s.last()));
    }
}

/// Each list is a part of all lists in one.
proof fn lemma_joined_part(s: Seq<Seq<Node>>, i: int) -> (from: int)
    requires
        0 <= i < s.len(),
    ensures
        0 <= from <= from + s[i].len() <= joined(s).len(),
        joined(s).subrange(from, from + s[i].len()) == s[i],
    decreases s.len(),
{
    let d = s.drop_last();
    if i == s.len() - 1 {
        let from = joined(d).len() as int;
        assert(joined(s).subrange(from, from + s[i].len()) =~= s[i]);
        from
    } else {
        let from = lemma_joined_part(d, i);
        assert(d[i] == s[i]);
        assert(joined(s).subrange(from, from + s[i].len()) =~= joined(d).subrange(from, from + s[i].len()));
        from
    }
}

/// How deep the deepest leaf is counted.
pub open spec fn deepest(plan: Plan, leaves: Seq<Node>) -> nat
    decreases leaves.len(),
{
    if leaves.len() == 0 {
        0
    } else {
        let before = deepest(plan, leaves.drop_last());
        let here = plan.spot(leaves.last()).comps.len();
        if here > before {
            here
        } else {
            before
        }
    }
}

pub proof fn lemma_deepest(plan: Plan, leaves: Seq<Node>, j: int)
    requires
        0 <= j < leaves.len(),
    ensures
        plan.spot(leaves[j]).comps.len() <= deepest(plan, leaves),
    decreases leaves.len(),
{
    if j < leaves.len() - 1 {
        lemma_deepest(plan, leaves.drop_last(), j);
    }
}

pub proof fn lemma_summary_names(a: PathView, b: PathView)
    requires
        summary_name(a) == summary_name(b),
    ensures
        a.extension() == b.extension(),
{
    let x = summary_name(a);
    match (a.extension(), b.extension()) {
        (Some(p), Some(q)) => {
            if p.len() == 0 {
                assert(x.len() == 2);
                assert(q.len() == 0);
                assert(p =~= q);
            } else {
                assert(x.len() == 3 + p.len());
                assert(q.len() == p.len());
                assert forall|i: int| 0 <= i < p.len() implies p[i] == q[i] by {
                    assert(x[i + 3] == p[i]);
                    assert(summary_name(b)[i + 3] == q[i]);
                }
                assert(p =~= q);
            }
        },
        (Some(p), None) => {
            assert(x[0] == 42u8);
            assert(summary_name(b)[0] == 40u8);
        },
        (None, Some(q)) => {
            assert(x[0] == 40u8);
            assert(summary_name(b)[0] == 42u8);
        },
        (None, None) => {},
    }
}

impl Plan {
    /// Whether leaves are files of one scan: with nothing below them, none of
    /// them below another, and those of one extension of one colour.
    pub open spec fn are_found(self, leaves: Seq<Node>) -> bool {
        &&& self.is_scan(leaves)
        &&& forall|i: int| 0 <= i < leaves.len() ==> (#[trigger] leaves[i]).subtree.len() == 0
        &&& forall|i: int, j: int|
            0 <= i < leaves.len() && 0 <= j < leaves.len() && (#[trigger] leaves[i]).path.extension() == (
            #[trigger] leaves[j]).path.extension() ==> leaves[i].color == leaves[j].color
    }

    /// Whether the groups of an x-ray have different paths where their
    /// extensions differ.
    pub open spec fn groups_differ(self, leaves: Seq<Node>) -> bool {
        self.xray ==> forall|i: int, j: int|
            0 <= i < leaves.len() && 0 <= j < leaves.len() && group_path(
                self.root,
                self.label(#[trigger] leaves[i])->0,
            ) == group_path(self.root, self.label(#[trigger] leaves[j])->0) ==> self.label(leaves[i])
                == self.label(leaves[j])
    }

    pub proof fn lemma_found_known(self, leaves: Seq<Node>)
        requires
            self.are_found(leaves),
        ensures
            self.known(leaves),
    {
        assert forall|i: int, j: int|
            0 <= i < leaves.len() && 0 <= j < leaves.len() && self.spot(#[trigger] leaves[i]) == self.spot(
                #[trigger] leaves[j],
            ) implies self.marks_of(leaves[i]) == self.marks_of(leaves[j]) by {
            if i != j {
                self.lemma_spots(leaves, i, j);
                assert(under(self.spot(leaves[i]), self.spot(leaves[j])));
                self.lemma_spot(leaves[i]);
                self.lemma_spot(leaves[j]);
                assert(self.spot(leaves[i]).comps.last() == summary_name(leaves[i].path));
                assert(self.spot(leaves[j]).comps.last() == summary_name(leaves[j].path));
                lemma_summary_names(leaves[i].path, leaves[j].path);
            }
        }
    }

    /// Leaves of one scan that have the colours of files are files of it.
    pub proof fn lemma_painted_found(self, leaves: Seq<Node>)
        requires
            self.is_scan(leaves),
            forall|i: int|
                0 <= i < leaves.len() ==> (#[trigger] leaves[i]).color == self.colors.spec_file_color(
                    leaves[i].path,
                ) && leaves[i].subtree.len() == 0,
        ensures
            self.are_found(leaves),
            self.known(leaves),
    {
        self.lemma_found_known(leaves);
    }

    proof fn lemma_found_part(self, leaves: Seq<Node>, from: int, to: int)
        requires
            self.are_found(leaves),
            self.groups_differ(leaves),
            0 <= from <= to <= leaves.len(),
        ensures
            self.are_found(leaves.subrange(from, to)),
            self.groups_differ(leaves.subrange(from, to)),
    {
        let part = leaves.subrange(from, to);
        self.lemma_found_known(leaves);
        self.lemma_known_part(leaves, from, to);
        assert forall|i: int, j: int|
            0 <= i < part.len() && 0 <= j < part.len() && (#[trigger] part[i]).path.extension() == (
            #[trigger] part[j]).path.extension() implies part[i].color == part[j].color by {
            assert(part[i] == leaves[from + i] && part[j] == leaves[from + j]);
        }
        if self.xray {
            assert forall|i: int, j: int|
                0 <= i < part.len() && 0 <= j < part.len() && group_path(
                    self.root,
                    self.label(#[trigger] part[i])->0,
                ) == group_path(self.root, self.label(#[trigger] part[j])->0) implies self.label(part[i])
                == self.label(part[j]) by {
                assert(part[i] == leaves[from + i] && part[j] == leaves[from + j]);
            }
        }
    }

    /// The trees below the root merge.
    proof fn lemma_root_merge(self, a: Seq<Node>, b: Seq<Node>, tag: Option<Seq<u8>>)
        requires
            self.known(a + b),
        ensures
            merged(self.tree(a, self.root, tag), self.tree(b, self.root, tag)) == self.tree(
                a + b,
                self.root,
                tag,
            ),
    {
        let all = a + b;
        assert forall|j: int| 0 <= j < all.len() implies self.spot(#[trigger] all[j]).comps.len() <= deepest(
            self,
            all,
        ) by {
            lemma_deepest(self, all, j);
        }
        self.lemma_trees_merge(a, b, self.root, tag, deepest(self, all));
    }

    /// Whether a leaf has an extension.
    pub open spec fn uses(self, leaves: Seq<Node>, ext: Seq<u8>) -> bool {
        exists|j: int| 0 <= j < leaves.len() && self.label(#[trigger] leaves[j]) == Some(ext)
    }

    /// The group of an extension of leaves.
    pub open spec fn grouped(self, leaves: Seq<Node>, ext: Seq<u8>) -> Node {
        group_node(self.colors, self.root, ext, self.tree(leaves, self.root, Some(ext)))
    }

    /// Whether an entry is the group of an extension that leaves have.
    pub open spec fn is_group_of(self, v: Node, leaves: Seq<Node>, ext: Seq<u8>) -> bool {
        self.uses(leaves, ext) && v == self.grouped(leaves, ext)
    }

    /// Whether an entry is a group of leaves.
    pub open spec fn is_some_group(self, v: Node, leaves: Seq<Node>) -> bool {
        exists|ext: Seq<u8>| #[trigger] self.is_group_of(v, leaves, ext)
    }

    /// Whether an entry is the group of leaves that a key stands for.
    pub open spec fn is_keyed_group(self, v: Node, k: Key, leaves: Seq<Node>) -> bool {
        exists|ext: Seq<u8>| #[trigger]
            self.is_group_of(v, leaves, ext) && k == (group_path(self.root, ext), None::<Seq<u8>>)
    }

    /// The groups of leaves.
    pub open spec fn all_groups(self, leaves: Seq<Node>) -> Seq<Node> {
        groups(self.colors, self.root, self.families(leaves), extensions_of(true, leaves))
    }

    pub proof fn lemma_uses_touched(self, leaves: Seq<Node>, ext: Seq<u8>)
        requires
            self.known(leaves),
        ensures
            self.uses(leaves, ext) == self.touched(leaves, self.root, Some(ext)),
            self.uses(leaves, ext) == (self.tree(leaves, self.root, Some(ext)).len() > 0),
    {
        let tag = Some(ext);
        if self.uses(leaves, ext) {
            let j = choose|j: int| 0 <= j < leaves.len() && self.label(#[trigger] leaves[j]) == Some(ext);
            self.lemma_spot(leaves[j]);
            assert(self.touched(leaves, self.root, tag));
            self.lemma_families_marked(leaves);
            let m = self.families(leaves);
            let c = self.lemma_next(m, leaves, self.root, j);
            self.lemma_level(leaves, self.root, tag);
            let g = self.level(leaves, self.root, tag);
            assert(g.len() > 0);
            lemma_sorted_members(g);
            offsets_keep_entries(sort_nodes(g));
        } else {
            if self.touched(leaves, self.root, tag) {
                let j = choose|j: int|
                    0 <= j < leaves.len() && under(self.spot(#[trigger] leaves[j]), self.root) && self.label(
                        leaves[j],
                    ) == tag;
                assert(self.uses(leaves, ext));
            }
            self.lemma_untouched(leaves, self.root, tag);
        }
    }

    /// There is one group for each extension that leaves have.
    pub proof fn lemma_groups(self, leaves: Seq<Node>)
        requires
            self.xray,
            self.groups_differ(leaves),
        ensures
            paths_differ(self.all_groups(leaves)),
            forall|i: int|
                0 <= i < self.all_groups(leaves).len() ==> self.is_some_group(
                    #[trigger] self.all_groups(leaves)[i],
                    leaves,
                ),
            forall|ext: Seq<u8>| #[trigger]
                self.uses(leaves, ext) ==> self.all_groups(leaves).contains(self.grouped(leaves, ext)),
    {
        let exts = extensions_of(true, leaves);
        let g = self.all_groups(leaves);
        extensions_distinct(true, leaves);
        assert forall|i: int| 0 <= i < g.len() implies g[i] == self.grouped(leaves, exts[i]) && self.uses(
            leaves,
            exts[i],
        ) by {
            let j = lemma_extension_used(leaves, i);
            assert(self.label(leaves[j]) == Some(exts[i]));
        }
        assert forall|i: int| 0 <= i < g.len() implies self.is_some_group(#[trigger] g[i], leaves) by {
            assert(self.is_group_of(g[i], leaves, exts[i]));
        }
        assert forall|i: int, j: int| 0 <= i < g.len() && 0 <= j < g.len() && i != j implies (
        #[trigger] g[i]).path != (#[trigger] g[j]).path by {
            let p = lemma_extension_used(leaves, i);
            let q = lemma_extension_used(leaves, j);
            assert(self.label(leaves[p]) == Some(exts[i]));
            assert(self.label(leaves[q]) == Some(exts[j]));
            assert(exts[i] != exts[j]);
            assert(g[i].path == group_path(self.root, exts[i]));
            assert(g[j].path == group_path(self.root, exts[j]));
        }
        assert forall|ext: Seq<u8>| #[trigger] self.uses(leaves, ext) implies g.contains(
            self.grouped(leaves, ext),
        ) by {
            let j = choose|j: int| 0 <= j < leaves.len() && self.label(#[trigger] leaves[j]) == Some(ext);
            lemma_extension_listed(leaves, j);
            let i = choose|i: int| 0 <= i < exts.len() && exts[i] == ext;
            assert(g[i] == self.grouped(leaves, ext));
        }
    }

    proof fn lemma_one_ext(self, leaves: Seq<Node>, x: Seq<u8>, y: Seq<u8>)
        requires
            self.xray,
            self.groups_differ(leaves),
            self.uses(leaves, x),
            self.uses(leaves, y),
            group_path(self.root, x) == group_path(self.root, y),
        ensures
            x == y,
    {
        let i = choose|i: int| 0 <= i < leaves.len() && self.label(#[trigger] leaves[i]) == Some(x);
        let j = choose|j: int| 0 <= j < leaves.len() && self.label(#[trigger] leaves[j]) == Some(y);
        assert(self.label(leaves[i])->0 == x);
        assert(self.label(leaves[j])->0 == y);
    }

    proof fn lemma_uses_add(self, a: Seq<Node>, b: Seq<Node>, ext: Seq<u8>)
        ensures
            self.uses(a + b, ext) == (self.uses(a, ext) || self.uses(b, ext)),
    {
        let all = a + b;
        if self.uses(a, ext) {
            let j = choose|j: int| 0 <= j < a.len() && self.label(#[trigger] a[j]) == Some(ext);
            assert(all[j] == a[j]);
        }
        if self.uses(b, ext) {
            let j = choose|j: int| 0 <= j < b.len() && self.label(#[trigger] b[j]) == Some(ext);
            assert(all[a.len() + j] == b[j]);
        }
        if self.uses(all, ext) {
            let j = choose|j: int| 0 <= j < all.len() && self.label(#[trigger] all[j]) == Some(ext);
            if j < a.len() {
                assert(a[j] == all[j]);
            } else {
                assert(b[j - a.len()] == all[j]);
            }
        }
    }

    /// The sorted groups of leaves that have a key: the group of an extension,
    /// if leaves have it.
    proof fn lemma_keyed_group(self, leaves: Seq<Node>, whole: Seq<Node>, ext: Seq<u8>)
        requires
            self.xray,
            self.groups_differ(leaves),
            self.groups_differ(whole),
            self.uses(whole, ext),
            forall|e: Seq<u8>| #[trigger] self.uses(leaves, e) ==> self.uses(whole, e),
        ensures
            ({
                let k: Key = (group_path(self.root, ext), None);
                let w = with_key(sort_nodes(self.all_groups(leaves)), k);
                if self.uses(leaves, ext) {
                    w == seq![self.grouped(leaves, ext)]
                } else {
                    w == Seq::<Node>::empty()
                }
            }),
    {
        let g = self.all_groups(leaves);
        let s = sort_nodes(g);
        let k: Key = (group_path(self.root, ext), None);
        self.lemma_groups(leaves);
        lemma_sorted_members(g);
        lemma_with_key_one(s, k);
        if self.uses(leaves, ext) {
            let v = self.grouped(leaves, ext);
            assert(g.contains(v));
            assert(s.contains(v));
            let i = choose|i: int| 0 <= i < s.len() && s[i] == v;
            assert(key_of(s[i]) == k);
        } else {
            assert forall|i: int| 0 <= i < s.len() implies key_of(#[trigger] s[i]) != k by {
                assert(s.contains(s[i]));
                assert(g.contains(s[i]));
                let j = choose|j: int| 0 <= j < g.len() && g[j] == s[i];
                assert(self.is_some_group(g[j], leaves));
                let e = choose|e: Seq<u8>| #[trigger] self.is_group_of(g[j], leaves, e);
                if key_of(s[i]) == k {
                    assert(s[i].path == group_path(self.root, e));
                    self.lemma_one_ext(whole, e, ext);
                }
            }
            assert(with_key(s, k) =~= Seq::empty());
        }
    }

    /// The groups of an extension of some leaves and of others make that of all.
    proof fn lemma_groups_fuse(self, a: Seq<Node>, b: Seq<Node>, ext: Seq<u8>)
        requires
            self.xray,
            self.known(a + b),
            self.known(a),
            self.known(b),
            self.groups_differ(a + b),
            self.groups_differ(a),
            self.groups_differ(b),
            self.uses(a + b, ext),
        ensures
            ({
                let both = sort_nodes(self.all_groups(a)) + sort_nodes(self.all_groups(b));
                let k: Key = (group_path(self.root, ext), None);
                &&& with_key(both, k).len() > 0
                &&& fuse_group(with_key(both, k)) == self.grouped(a + b, ext)
            }),
    {
        let sa = sort_nodes(self.all_groups(a));
        let sb = sort_nodes(self.all_groups(b));
        let k: Key = (group_path(self.root, ext), None);
        let tag = Some(ext);
        let ta = self.tree(a, self.root, tag);
        let tb = self.tree(b, self.root, tag);
        let none = Seq::<(nat, Node)>::empty();
        assert forall|e: Seq<u8>| true implies #[trigger] self.uses(a + b, e) == (self.uses(a, e) || self.uses(
            b,
            e,
        )) by {
            self.lemma_uses_add(a, b, e);
        }
        assert forall|e: Seq<u8>| #[trigger] self.uses(a, e) implies self.uses(a + b, e) by {
            self.lemma_uses_add(a, b, e);
        }
        assert forall|e: Seq<u8>| #[trigger] self.uses(b, e) implies self.uses(a + b, e) by {
            self.lemma_uses_add(a, b, e);
        }
        lemma_with_key_add(sa, sb, k);
        self.lemma_keyed_group(a, a + b, ext);
        self.lemma_keyed_group(b, a + b, ext);
        self.lemma_uses_add(a, b, ext);
        self.lemma_root_merge(a, b, tag);
        self.lemma_uses_touched(a, ext);
        self.lemma_uses_touched(b, ext);
        self.lemma_uses_touched(a + b, ext);
        if self.uses(a, ext) && self.uses(b, ext) {
            let x = self.grouped(a, ext);
            let y = self.grouped(b, ext);
            assert(with_key(sa + sb, k) =~= seq![x, y]);
            lemma_fused_pair(x, y, self.tree(a + b, self.root, tag));
            merge_conserves(ta, tb);
        } else if self.uses(a, ext) {
            assert(with_key(sa + sb, k) =~= seq![self.grouped(a, ext)]);
            assert(tb =~= none);
            self.lemma_level(a, self.root, tag);
            merging_nothing_changes_nothing(self.level(a, self.root, tag));
        } else {
            assert(with_key(sa + sb, k) =~= seq![self.grouped(b, ext)]);
            assert(ta =~= none);
            self.lemma_level(b, self.root, tag);
            merging_nothing_changes_nothing(self.level(b, self.root, tag));
        }
    }

    /// An entry among sorted groups is the group of an extension.
    proof fn lemma_sorted_group(self, leaves: Seq<Node>, i: int) -> (ext: Seq<u8>)
        requires
            self.xray,
            self.groups_differ(leaves),
            0 <= i < sort_nodes(self.all_groups(leaves)).len(),
        ensures
            self.is_group_of(sort_nodes(self.all_groups(leaves))[i], leaves, ext),
    {
        let g = self.all_groups(leaves);
        let s = sort_nodes(g);
        self.lemma_groups(leaves);
        lemma_sorted_members(g);
        assert(s.contains(s[i]));
        assert(g.contains(s[i]));
        let j = choose|j: int| 0 <= j < g.len() && g[j] == s[i];
        assert(self.is_some_group(g[j], leaves));
        choose|e: Seq<u8>| #[trigger] self.is_group_of(g[j], leaves, e)
    }

    proof fn lemma_xrays_merge(self, a: Seq<Node>, b: Seq<Node>)
        requires
            self.xray,
            self.known(a + b),
            self.known(a),
            self.known(b),
            self.groups_differ(a + b),
            self.groups_differ(a),
            self.groups_differ(b),
        ensures
            merged(forest_of(self, a), forest_of(self, b)) == forest_of(self, a + b),
    {
        let all = a + b;
        let sa = sort_nodes(self.all_groups(a));
        let sb = sort_nodes(self.all_groups(b));
        let gl = self.all_groups(all);
        offsets_keep_entries(sa);
        offsets_keep_entries(sb);
        let both = sa + sb;
        let fused = fuse(both);
        let keys = keys_of(both);
        lemma_fuse_keys(both, keys);
        keys_distinct(both);
        lemma_all_keys(both);
        self.lemma_groups(all);
        assert forall|i: int| 0 <= i < fused.len() implies self.is_keyed_group(
            #[trigger] fused[i],
            keys[i],
            all,
        ) by {
            let q = self.lemma_key_owner(a, b, i);
            self.lemma_groups_fuse(a, b, q);
            assert(self.is_group_of(fused[i], all, q));
        }
        assert forall|i: int, j: int| 0 <= i < fused.len() && 0 <= j < fused.len() && i != j implies (
        #[trigger] fused[i]).path != (#[trigger] fused[j]).path by {
            assert(self.is_keyed_group(fused[i], keys[i], all));
            assert(self.is_keyed_group(fused[j], keys[j], all));
            assert(keys[i] != keys[j]);
        }
        assert forall|v: Node| fused.contains(v) <==> #[trigger] gl.contains(v) by {
            if fused.contains(v) {
                let i = choose|i: int| 0 <= i < fused.len() && fused[i] == v;
                assert(self.is_keyed_group(fused[i], keys[i], all));
                let x = choose|ext: Seq<u8>| #[trigger] self.is_group_of(fused[i], all, ext);
                assert(self.uses(all, x));
            }
            if gl.contains(v) {
                let j = choose|j: int| 0 <= j < gl.len() && gl[j] == v;
                assert(self.is_some_group(gl[j], all));
                let ext = choose|e: Seq<u8>| #[trigger] self.is_group_of(gl[j], all, e);
                self.lemma_groups_fuse(a, b, ext);
                let k: Key = (group_path(self.root, ext), None);
                let at = lemma_at_key(both, k);
                assert(keys.contains(key_of(both[at])));
                let i = choose|i: int| 0 <= i < keys.len() && keys[i] == k;
                assert(fused[i] == fuse_group(with_key(both, k)));
            }
        }
        order_does_not_matter(fused, gl);
    }

    /// Every key of the groups of some leaves and of others is that of an
    /// extension.
    proof fn lemma_key_owner(self, a: Seq<Node>, b: Seq<Node>, i: int) -> (ext: Seq<u8>)
        requires
            self.xray,
            self.groups_differ(a),
            self.groups_differ(b),
            0 <= i < keys_of(sort_nodes(self.all_groups(a)) + sort_nodes(self.all_groups(b))).len(),
        ensures
            self.uses(a + b, ext),
            keys_of(sort_nodes(self.all_groups(a)) + sort_nodes(self.all_groups(b)))[i] == (
                group_path(self.root, ext),
                None::<Seq<u8>>,
            ),
    {
        let sa = sort_nodes(self.all_groups(a));
        let sb = sort_nodes(self.all_groups(b));
        let both = sa + sb;
        let k = keys_of(both)[i];
        lemma_has_key(both, i);
        let at = lemma_at_key(both, k);
        if at < sa.len() {
            assert(both[at] == sa[at]);
            let ext = self.lemma_sorted_group(a, at);
            self.lemma_uses_add(a, b, ext);
            ext
        } else {
            assert(both[at] == sb[at - sa.len()]);
            let ext = self.lemma_sorted_group(b, at - sa.len());
            self.lemma_uses_add(a, b, ext);
            ext
        }
    }
}

/// The order in which the files of a scan are found makes no difference to
/// their forest, as long as no two extensions have one group.
pub proof fn order_makes_no_difference(plan: Plan, a: Seq<Node>, b: Seq<Node>)
    requires
        plan.are_found(a),
        plan.groups_differ(a),
        a.to_multiset() == b.to_multiset(),
    ensures
        forest_of(plan, a) == forest_of(plan, b),
{
    plan.lemma_shuffled_found(a, b);
    plan.lemma_found_known(a);
    plan.lemma_found_known(b);
    let most = deepest(plan, a);
    assert forall|j: int| 0 <= j < a.len() implies plan.spot(#[trigger] a[j]).comps.len() <= most by {
        lemma_deepest(plan, a, j);
    }
    if plan.xray {
        let ga = plan.all_groups(a);
        let gb = plan.all_groups(b);
        plan.lemma_groups(a);
        plan.lemma_groups(b);
        assert forall|ext: Seq<u8>| plan.grouped(a, ext) == #[trigger] plan.grouped(b, ext) by {
            plan.lemma_trees_agree(a, b, plan.root, Some(ext), most);
        }
        assert forall|v: Node| ga.contains(v) <==> #[trigger] gb.contains(v) by {
            if ga.contains(v) {
                let i = choose|i: int| 0 <= i < ga.len() && ga[i] == v;
                assert(plan.is_some_group(ga[i], a));
                let ext = choose|ext: Seq<u8>| #[trigger] plan.is_group_of(ga[i], a, ext);
                plan.lemma_shuffled_uses(a, b, ext);
                assert(plan.grouped(a, ext) == plan.grouped(b, ext));
            }
            if gb.contains(v) {
                let i = choose|i: int| 0 <= i < gb.len() && gb[i] == v;
                assert(plan.is_some_group(gb[i], b));
                let ext = choose|ext: Seq<u8>| #[trigger] plan.is_group_of(gb[i], b, ext);
                plan.lemma_shuffled_uses(b, a, ext);
                assert(plan.grouped(a, ext) == plan.grouped(b, ext));
            }
        }
        order_does_not_matter(ga, gb);
    } else {
        plan.lemma_trees_agree(a, b, plan.root, None, most);
    }
}

impl Plan {
    proof fn lemma_shuffled_uses(self, a: Seq<Node>, b: Seq<Node>, ext: Seq<u8>)
        requires
            a.to_multiset() == b.to_multiset(),
            self.uses(a, ext),
        ensures
            self.uses(b, ext),
    {
        lemma_shuffled_members(a, b);
        let j = choose|j: int| 0 <= j < a.len() && self.label(#[trigger] a[j]) == Some(ext);
        let i = choose|i: int| 0 <= i < b.len() && b[i] == a[j];
        assert(self.label(b[i]) == Some(ext));
    }

    pub proof fn lemma_shuffled_found(self, a: Seq<Node>, b: Seq<Node>)
        requires
            self.are_found(a),
            self.groups_differ(a),
            a.to_multiset() == b.to_multiset(),
        ensures
            self.are_found(b),
            self.groups_differ(b),
    {
        lemma_shuffled_members(b, a);
        assert(a.no_duplicates()) by {
            assert forall|i: int, j: int| 0 <= i < a.len() && 0 <= j < a.len() && i != j implies a[i] != a[j] by {
                assert(under(a[i].path, a[i].path));
                assert(!under(a[i].path, a[j].path));
            }
        }
        a.lemma_multiset_has_no_duplicates();
        b.lemma_multiset_has_no_duplicates_conv();
        assert forall|i: int| 0 <= i < b.len() implies exists|j: int| 0 <= j < a.len() && a[j] == #[trigger] b[i] by {
            assert(a.contains(b[i]));
        }
        assert forall|i: int, j: int| 0 <= i < b.len() && 0 <= j < b.len() && i != j implies !under(
            (#[trigger] b[i]).path,
            (#[trigger] b[j]).path,
        ) by {
            assert(b[i] != b[j]);
            let p = choose|p: int| 0 <= p < a.len() && a[p] == b[i];
            let q = choose|q: int| 0 <= q < a.len() && a[q] == b[j];
            assert(!under(a[p].path, a[q].path));
        }
        assert forall|i: int, j: int|
            0 <= i < b.len() && 0 <= j < b.len() && (#[trigger] b[i]).path.extension() == (
            #[trigger] b[j]).path.extension() implies b[i].color == b[j].color by {
            let p = choose|p: int| 0 <= p < a.len() && a[p] == b[i];
            let q = choose|q: int| 0 <= q < a.len() && a[q] == b[j];
            assert(a[p].color == a[q].color);
        }
        if self.xray {
            assert forall|i: int, j: int|
                0 <= i < b.len() && 0 <= j < b.len() && group_path(self.root, self.label(#[trigger] b[i])->0)
                    == group_path(self.root, self.label(#[trigger] b[j])->0) implies self.label(b[i])
                == self.label(b[j]) by {
                let p = choose|p: int| 0 <= p < a.len() && a[p] == b[i];
                let q = choose|q: int| 0 <= q < a.len() && a[q] == b[j];
                assert(self.label(a[p]) == self.label(a[q]));
            }
        }
    }
}

/// Merging the forests of some files of a scan and of the others gives the
/// forest of all of them, as long as no two extensions have one group.
pub proof fn parts_make_the_whole(plan: Plan, a: Seq<Node>, b: Seq<Node>)
    requires
        plan.are_found(a + b),
        plan.groups_differ(a + b),
    ensures
        merged(forest_of(plan, a), forest_of(plan, b)) == forest_of(plan, a + b),
{
    let all = a + b;
    plan.lemma_found_known(all);
    plan.lemma_found_part(all, 0, a.len() as int);
    plan.lemma_found_part(all, a.len() as int, all.len() as int);
    assert(all.subrange(0, a.len() as int) =~= a);
    assert(all.subrange(a.len() as int, all.len() as int) =~= b);
    plan.lemma_found_known(a);
    plan.lemma_found_known(b);
    if plan.xray {
        plan.lemma_xrays_merge(a, b);
    } else {
        plan.lemma_root_merge(a, b, None);
    }
}

proof fn lemma_shares_reduce(plan: Plan, shares: Seq<Seq<Node>>)
    requires
        plan.are_found(joined(shares)),
        plan.groups_differ(joined(shares)),
    ensures
        reduced(shares.map_values(|leaves: Seq<Node>| forest_of(plan, leaves))) == forest_of(
            plan,
            joined(shares),
        ),
    decreases shares.len(),
{
    let make = |leaves: Seq<Node>| forest_of(plan, leaves);
    let fs = shares.map_values(make);
    if shares.len() == 0 {
        let none = joined(shares);
        plan.lemma_found_known(none);
        plan.lemma_level(none, plan.root, None);
        assert(plan.level(none, plan.root, None) =~= Seq::empty());
        assert(plan.all_groups(none) =~= Seq::empty());
        assert(sort_nodes(Seq::<Node>::empty()) =~= Seq::empty());
        assert(offsets(Seq::<Node>::empty()) =~= Seq::empty());
    } else if shares.len() == 1 {
        assert(shares.drop_last() =~= Seq::empty());
        assert(joined(shares.drop_last()) =~= Seq::empty());
        assert(joined(shares) =~= shares[0]);
    } else {
        let next = paired(shares);
        lemma_joined_paired(shares);
        assert forall|i: int| 0 <= i < next.len() implies #[trigger] merge_round(fs)[i] == next.map_values(
            make,
        )[i] by {
            let from = lemma_joined_part(next, i);
            plan.lemma_found_part(joined(shares), from, from + next[i].len());
            if 2 * i + 1 < shares.len() {
                parts_make_the_whole(plan, shares[2 * i], shares[2 * i + 1]);
            }
        }
        assert(merge_round(fs) =~= next.map_values(make));
        lemma_shares_reduce(plan, next);
    }
}

/// However many workers the files of a scan are shared out among, and whichever
/// of them gets which file, merging what they make gives the forest of all
/// files, as long as no two extensions have one group.
pub proof fn sharing_makes_no_difference(plan: Plan, leaves: Seq<Node>, shares: Seq<Seq<Node>>)
    requires
        plan.are_found(leaves),
        plan.groups_differ(leaves),
        joined(shares).to_multiset() == leaves.to_multiset(),
    ensures
        reduced(shares.map_values(|share: Seq<Node>| forest_of(plan, share))) == forest_of(plan, leaves),
{
    plan.lemma_shuffled_found(leaves, joined(shares));
    lemma_shares_reduce(plan, shares);
    order_makes_no_difference(plan, leaves, joined(shares));
}

} // verus!
