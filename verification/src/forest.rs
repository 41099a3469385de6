//! Forests: the trees of a scan.
use vstd::prelude::*;
use crate::accounting::{sum_if, w_size, Plan};
use crate::cli::Args;
use crate::colors::ColorScheme;
use crate::entry::{bare, blank, forest, node, nodes, sum_leaves, sum_nfiles, sum_size, Entry, Forest, Node};
use crate::growth::{
    agree, lemma_agree, lemma_reaches_under, reaches, total_leaves, total_nfiles, total_size, tree_of,
    treeify, under,
};
use crate::keymap::Key;
use crate::lineage::{byte_strings, extensions_of, lineage, rehash, related};
use crate::path::{copy_bytes, parse_path, PathBuf, PathView};
use crate::siblings::{cumsum_size, offsets, sort_largest, sort_nodes};
use crate::text::{lossy_text, utf8_lossy};

verus! {

/// The label of the group of an extension.
pub open spec fn group_label(ext: Seq<u8>) -> Seq<char> {
    if ext.len() == 0 {
        "(none)"@
    } else {
        "**."@ + utf8_lossy(ext)
    }
}

/// The group of an extension above the trees of its files.
pub open spec fn group_node(
    colors: ColorScheme,
    root: PathView,
    ext: Seq<u8>,
    below: Seq<(nat, Node)>,
) -> Node {
    Node {
        size: sum_size(bare(below)),
        nfiles: sum_nfiles(bare(below)),
        leaves: sum_leaves(bare(below)),
        subtree: below,
        color: colors.spec_ext_color(ext),
        is_group: true,
        ..blank(root.join(parse_path(vstd::utf8::encode_utf8(group_label(ext)))))
    }
}

/// The groups of extensions.
pub open spec fn groups(
    colors: ColorScheme,
    root: PathView,
    m: Map<Key, Seq<Node>>,
    exts: Seq<Seq<u8>>,
) -> Seq<Node> {
    exts.map_values(|ext: Seq<u8>| group_node(colors, root, ext, tree_of(m, root, Some(ext))))
}

/// The forest of a list of leaves. In x-ray mode there is a group for each
/// extension, with a tree for each path below; else there is one such tree.
pub open spec fn forest_of(plan: Plan, leaves: Seq<Node>) -> Seq<(nat, Node)> {
    let m = plan.families(leaves);
    if plan.xray {
        offsets(sort_nodes(groups(plan.colors, plan.root, m, extensions_of(true, leaves))))
    } else {
        tree_of(m, plan.root, None)
    }
}

/// How leaves are placed by arguments.
pub open spec fn plan_of(colors: ColorScheme, args: Args, root: PathView) -> Plan {
    Plan { colors, root, depth: args.max_depth as nat, xray: args.xray }
}

/// No extension is listed twice.
pub proof fn extensions_distinct(xray: bool, leaves: Seq<Node>)
    ensures
        extensions_of(xray, leaves).no_duplicates(),
    decreases leaves.len(),
{
    if leaves.len() > 0 {
        extensions_distinct(xray, leaves.drop_last());
    }
}

/// Makes the group of an extension.
fn make_group(colors: &ColorScheme, root: &PathBuf, ext: &Vec<u8>, below: Forest) -> (r: Entry)
    requires
        sum_size(bare(forest(below@))) <= usize::MAX,
        sum_nfiles(bare(forest(below@))) <= usize::MAX,
        sum_leaves(bare(forest(below@))) <= usize::MAX,
    ensures
        node(r) == group_node(*colors, root@, ext@, forest(below@)),
{
    let size: usize = total_size(below.as_slice());
    let nfiles: usize = total_nfiles(below.as_slice());
    let leaves: usize = total_leaves(below.as_slice());
    let label = if ext.len() == 0 {
        "(none)".to_owned()
    } else {
        let text = lossy_text(ext.as_slice());
        "**.".to_owned().concat(text.as_str())
    };
    let mut r = Entry::bare(root.join(&PathBuf::from_text(label.as_str())));
    r.size = size;
    r.nfiles = nfiles;
    r.leaves = leaves;
    r.subtree = below;
    r.color = colors.ext_color(ext.as_slice());
    r.is_group = true;
    r
}

/// Arranges leaves below `root` as trees.
pub fn make_forest(colors: &ColorScheme, args: &Args, root: &PathBuf, leaves: Vec<Entry>) -> (r: Forest)
    requires
        sum_size(nodes(leaves@)) <= usize::MAX,
        sum_nfiles(nodes(leaves@)) <= usize::MAX,
    ensures
        forest(r@) == forest_of(plan_of(*colors, *args, root@), nodes(leaves@)),
{
    let ghost all = nodes(leaves@);
    let ghost plan = plan_of(*colors, *args, root@);
    let count: usize = leaves.len();
    assert(all.len() == count);
    let (kidding, extensions) = rehash(colors, args, root, leaves);
    let mut kidding = kidding;
    let ghost m = lineage(kidding@);
    let ghost first = kidding@;
    proof {
        kidding.lemma_finite();
        assert(m.dom() =~= kidding@.dom());
        assert(m == plan.families(all));
    }
    if args.xray {
        let ghost exts = extensions_of(true, all);
        let mut entries: Vec<Entry> = Vec::with_capacity(extensions.len());
        let mut i: usize = 0;
        proof {
            extensions_distinct(true, all);
        }
        while i < extensions.len()
            invariant
                i <= extensions@.len(),
                byte_strings(extensions@) == exts,
                exts.no_duplicates(),
                plan == plan_of(*colors, *args, root@),
                m == plan.families(all),
                m == lineage(first),
                m.dom().finite(),
                related(m),
                kidding.wf(),
                sum_size(all) <= usize::MAX,
                sum_nfiles(all) <= usize::MAX,
                all.len() <= usize::MAX,
                forall|k: Key| #[trigger] kidding@.contains_key(k) ==> first.contains_key(k) && kidding@[k]
                    == first[k],
                forall|k: Key|
                    first.contains_key(k) && (forall|j: int|
                        0 <= j < i ==> k.1 != Some(#[trigger] exts[j])) ==> #[trigger] kidding@.contains_key(k),
                entries@.len() == i,
                forall|j: int|
                    0 <= j < i ==> node(#[trigger] entries@[j]) == group_node(
                        *colors,
                        root@,
                        exts[j],
                        tree_of(m, root@, Some(exts[j])),
                    ) && node(entries@[j]).size <= sum_if(
                        all,
                        plan.below(root@, Some(exts[j])),
                        w_size(),
                    ),
            decreases extensions.len() - i,
        {
            let ext = copy_bytes(extensions[i].as_slice());
            let tag = Some(ext);
            let ghost now = lineage(kidding@);
            let ghost before = kidding@;
            proof {
                assert(exts[i as int] == ext@);
                kidding.lemma_finite();
                assert(now.dom() =~= kidding@.dom());
                lemma_part_related(first, kidding@);
                assert(agree(m, now, root@, Some(ext@))) by {
                    assert forall|q: PathView| #[trigger] under(q, root@) implies m.contains_key(
                        (q, Some(ext@)),
                    ) == now.contains_key((q, Some(ext@))) && (m.contains_key((q, Some(ext@)))
                        ==> m[(q, Some(ext@))] == now[(q, Some(ext@))]) by {
                        let k: Key = (q, Some(ext@));
                        assert forall|j: int| 0 <= j < i implies k.1 != Some(#[trigger] exts[j]) by {
                            assert(exts[j] != exts[i as int]);
                        }
                        assert(first.contains_key(k) == kidding@.contains_key(k));
                    }
                }
                lemma_agree(m, now, root@, Some(ext@));
                plan.lemma_growth_fits(all, root@, Some(ext@));
                plan.lemma_below_all(all, root@, Some(ext@));
            }
            let below = treeify(args, &mut kidding, root, &tag);
            proof {
                assert forall|k: Key|
                    first.contains_key(k) && (forall|j: int|
                        0 <= j < i + 1 ==> k.1 != Some(#[trigger] exts[j])) implies #[trigger] kidding@.contains_key(
                    k,
                ) by {
                    assert(k.1 != Some(exts[i as int]));
                    assert(before.contains_key(k)) by {
                        assert forall|j: int| 0 <= j < i implies k.1 != Some(#[trigger] exts[j]) by {}
                    }
                    if reaches(now, root@, Some(ext@), k) {
                        lemma_reaches_under(now, root@, Some(ext@), k);
                    }
                }
                assert forall|k: Key| #[trigger] kidding@.contains_key(k) implies first.contains_key(k)
                    && kidding@[k] == first[k] by {
                    assert(before.contains_key(k));
                }
            }
            entries.push(make_group(colors, root, &extensions[i], below));
            i += 1;
        }
        proof {
            assert(nodes(entries@) =~= groups(*colors, root@, m, exts));
            plan.lemma_groups_sum(nodes(entries@), exts, all);
            crate::accounting::sort_keeps_sums(nodes(entries@));
        }
        cumsum_size(sort_largest(entries))
    } else {
        proof {
            plan.lemma_growth_fits(all, root@, None);
        }
        treeify(args, &mut kidding, root, &None)
    }
}

proof fn lemma_part_related(whole: Map<Key, Vec<Entry>>, part: Map<Key, Vec<Entry>>)
    requires
        related(lineage(whole)),
        forall|k: Key| #[trigger] part.contains_key(k) ==> whole.contains_key(k) && part[k] == whole[k],
    ensures
        related(lineage(part)),
{
    let a = lineage(whole);
    let b = lineage(part);
    assert forall|k: Key, i: int| b.contains_key(k) && 0 <= i < b[k].len() implies (
    #[trigger] b[k][i]).path.parent() == Some(k.0) by {
        assert(part.contains_key(k));
        assert(a[k][i] == b[k][i]);
    }
    assert forall|k: Key, i: int, j: int| b.contains_key(k) && 0 <= i < j < b[k].len() implies (
    #[trigger] b[k][i]).path != (#[trigger] b[k][j]).path by {
        assert(part.contains_key(k));
        assert(a[k][i] == b[k][i]);
        assert(a[k][j] == b[k][j]);
    }
}

/// The group of a file type has its colour, counts what lies below it, and has no
/// tag. Files without a type have a group too.
pub proof fn groups_stand_for_their_type(
    colors: ColorScheme,
    root: PathView,
    ext: Seq<u8>,
    below: Seq<(nat, Node)>,
)
    ensures
        ({
            let n = group_node(colors, root, ext, below);
            &&& n.is_group
            &&& n.tag is None
            &&& n.color == colors.spec_ext_color(ext)
            &&& n.subtree == below
            &&& n.size == sum_size(bare(below))
            &&& n.nfiles == sum_nfiles(bare(below))
            &&& n.leaves == sum_leaves(bare(below))
        }),
        ext.len() > 0 ==> group_label(ext) == seq!['*', '*', '.'] + utf8_lossy(ext),
        ext.len() == 0 ==> group_label(ext) == seq!['(', 'n', 'o', 'n', 'e', ')'],
{
    reveal_strlit("**.");
    reveal_strlit("(none)");
    assert("**."@ =~= seq!['*', '*', '.']);
    assert("(none)"@ =~= seq!['(', 'n', 'o', 'n', 'e', ')']);
}

} // verus!
