//! Mathematical model of the layout tree.
//!
//! Every contract of the executable types speaks in terms of the ghost
//! structures defined here: a window's attributes as plain values, the
//! recursive node shape, and the tree with its id counter.

use vstd::prelude::*;

verus! {

use crate::tiler::{NodeType, SplitDirection};

/// Ghost form of a window's metadata: the text label as a character
/// sequence, and the plain attribute fields.
pub struct MetaModel {
    pub name: Seq<char>,
    pub id: usize,
    pub x: Option<usize>,
    pub y: Option<usize>,
    pub width: Option<usize>,
    pub height: Option<usize>,
    pub focus: bool,
    pub halted: bool,
}

/// Ghost form of a metadata record in its boundary shape: every field a
/// plain value, zero standing for an absent geometry preference.
pub struct CMetaModel {
    pub name: Seq<char>,
    pub id: usize,
    pub x: usize,
    pub y: usize,
    pub width: usize,
    pub height: usize,
    pub focus: bool,
    pub halted: bool,
}

/// An absent preference encodes as zero.
pub open spec fn opt_or_zero(v: Option<usize>) -> usize {
    match v {
        Some(n) => n,
        None => 0,
    }
}

/// Zero decodes as an absent preference.
pub open spec fn zero_opt(v: usize) -> Option<usize> {
    if v == 0 {
        None
    } else {
        Some(v)
    }
}

/// Metadata in boundary form.
pub open spec fn meta_to_c(m: MetaModel) -> CMetaModel {
    CMetaModel {
        name: m.name,
        id: m.id,
        x: opt_or_zero(m.x),
        y: opt_or_zero(m.y),
        width: opt_or_zero(m.width),
        height: opt_or_zero(m.height),
        focus: m.focus,
        halted: m.halted,
    }
}

/// Metadata recovered from boundary form.
pub open spec fn meta_from_c(c: CMetaModel) -> MetaModel {
    MetaModel {
        name: c.name,
        id: c.id,
        x: zero_opt(c.x),
        y: zero_opt(c.y),
        width: zero_opt(c.width),
        height: zero_opt(c.height),
        focus: c.focus,
        halted: c.halted,
    }
}

/// Ghost form of a node: its id, the back-reference to its parent, its
/// kind, its optional metadata and its ordered children.
#[verifier::ext_equal]
pub struct NodeModel {
    pub id: usize,
    pub parent: Option<usize>,
    pub kind: NodeType,
    pub meta: Option<MetaModel>,
    pub children: Seq<NodeModel>,
}

/// Ghost form of the whole tree: the root node and the id counter from
/// which every fresh id is minted.
#[verifier::ext_equal]
pub struct TreeModel {
    pub root: NodeModel,
    pub next_id: usize,
}

/// Number of nodes in the subtree rooted at `n`.
pub open spec fn node_size(n: NodeModel) -> nat
    decreases n,
{
    1 + node_size_seq(n.children)
}

/// Number of nodes in a forest.
pub open spec fn node_size_seq(cs: Seq<NodeModel>) -> nat
    decreases cs,
{
    if cs.len() == 0 {
        0
    } else {
        node_size(cs.first()) + node_size_seq(cs.drop_first())
    }
}

/// The ids of the subtree rooted at `n`, in preorder.
pub open spec fn id_seq(n: NodeModel) -> Seq<usize>
    decreases n,
{
    seq![n.id] + id_seq_seq(n.children)
}

/// The ids of a forest, in preorder.
pub open spec fn id_seq_seq(cs: Seq<NodeModel>) -> Seq<usize>
    decreases cs,
{
    if cs.len() == 0 {
        Seq::empty()
    } else {
        id_seq(cs.first()) + id_seq_seq(cs.drop_first())
    }
}

/// Whether the subtree rooted at `n` holds a node with id `x`.
pub open spec fn contains_id(n: NodeModel, x: usize) -> bool {
    id_seq(n).contains(x)
}

/// Every id in the subtree rooted at `n` is at most `bound`.
pub open spec fn ids_le(n: NodeModel, bound: usize) -> bool {
    forall|x: usize| #[trigger] contains_id(n, x) ==> x <= bound
}

/// Structural well-formedness of a node: ids are nonzero, a window is a
/// leaf, a split carries no metadata and at least two children, and every
/// child's back-reference names its parent.
pub open spec fn wf_node(n: NodeModel) -> bool
    decreases n,
{
    &&& 1 <= n.id
    &&& match n.kind {
        NodeType::Window => n.children.len() == 0,
        NodeType::Split(_) => n.children.len() >= 2 && n.meta is None,
    }
    &&& forall|i: int|
        0 <= i < n.children.len() ==> (#[trigger] n.children[i]).parent == Some(n.id)
            && wf_node(n.children[i])
}

/// Well-formedness of the whole tree: the root is well formed, has no
/// parent, ids are pairwise distinct, and no id exceeds the counter.
pub open spec fn wf_tree(t: TreeModel) -> bool {
    &&& wf_node(t.root)
    &&& t.root.parent is None
    &&& id_seq(t.root).no_duplicates()
    &&& ids_le(t.root, t.next_id)
}

/// How many nodes of the subtree carry no parent reference.
pub open spec fn parentless_count(n: NodeModel) -> nat
    decreases n,
{
    (if n.parent is None {
        1nat
    } else {
        0nat
    }) + parentless_count_seq(n.children)
}

/// `parentless_count` over a forest.
pub open spec fn parentless_count_seq(cs: Seq<NodeModel>) -> nat
    decreases cs,
{
    if cs.len() == 0 {
        0
    } else {
        parentless_count(cs.first()) + parentless_count_seq(cs.drop_first())
    }
}

/// Every split in the subtree holds at least two children.
pub open spec fn splits_wide(n: NodeModel) -> bool
    decreases n,
{
    &&& match n.kind {
        NodeType::Split(_) => n.children.len() >= 2,
        NodeType::Window => true,
    }
    &&& forall|i: int| 0 <= i < n.children.len() ==> splits_wide(#[trigger] n.children[i])
}

/// A fresh window leaf.
pub open spec fn new_leaf(id: usize, parent: usize, meta: Option<MetaModel>) -> NodeModel {
    NodeModel { id, parent: Some(parent), kind: NodeType::Window, meta, children: Seq::empty() }
}

/// Kind of the node with id `x` in the subtree rooted at `n`, if present.
pub open spec fn kind_of(n: NodeModel, x: usize) -> Option<NodeType>
    decreases n,
{
    if n.id == x {
        Some(n.kind)
    } else {
        kind_of_seq(n.children, x)
    }
}

/// Kind of the node with id `x` in a forest, if present; earlier trees win.
pub open spec fn kind_of_seq(cs: Seq<NodeModel>, x: usize) -> Option<NodeType>
    decreases cs,
{
    if cs.len() == 0 {
        None
    } else if kind_of(cs.first(), x) is Some {
        kind_of(cs.first(), x)
    } else {
        kind_of_seq(cs.drop_first(), x)
    }
}

/// How many fresh ids an addition under the node with id `pid` mints:
/// two when that node is a window (it is demoted into a split), one when
/// it is already a split.
pub open spec fn mint_count(n: NodeModel, pid: usize) -> nat {
    if kind_of(n, pid) == Some(NodeType::Window) {
        2
    } else {
        1
    }
}

/// The tree after a window has been added under the node with id `pid`,
/// with fresh ids minted above `next`. A window target is converted in
/// place to a split of two leaves: the first inherits the target's
/// metadata and its (empty) children under id `next + 1`, the second
/// carries the caller's metadata under id `next + 2`. A split target
/// gains one appended leaf under id `next + 1`. Subtrees without `pid`
/// are untouched.
pub open spec fn add_at(
    n: NodeModel,
    pid: usize,
    dir: SplitDirection,
    meta: Option<MetaModel>,
    next: usize,
) -> NodeModel
    decreases n,
{
    if n.id == pid {
        match n.kind {
            NodeType::Window => NodeModel {
                id: n.id,
                parent: n.parent,
                kind: NodeType::Split(dir),
                meta: None,
                children: seq![
                    NodeModel {
                        id: (next + 1) as usize,
                        parent: Some(n.id),
                        kind: NodeType::Window,
                        meta: n.meta,
                        children: n.children,
                    },
                    new_leaf((next + 2) as usize, n.id, meta),
                ],
            },
            NodeType::Split(_) => NodeModel {
                children: n.children.push(new_leaf((next + 1) as usize, n.id, meta)),
                ..n
            },
        }
    } else {
        NodeModel { children: add_at_seq(n.children, pid, dir, meta, next), ..n }
    }
}

/// `add_at`, mapped over a forest.
pub open spec fn add_at_seq(
    cs: Seq<NodeModel>,
    pid: usize,
    dir: SplitDirection,
    meta: Option<MetaModel>,
    next: usize,
) -> Seq<NodeModel>
    decreases cs,
{
    if cs.len() == 0 {
        cs
    } else {
        seq![add_at(cs.first(), pid, dir, meta, next)] + add_at_seq(
            cs.drop_first(),
            pid,
            dir,
            meta,
            next,
        )
    }
}

/// Index of the direct child with id `x`, or -1 when none matches.
pub open spec fn direct_child_index(cs: Seq<NodeModel>, x: usize) -> int
    decreases cs,
{
    if cs.len() == 0 {
        -1
    } else if cs.first().id == x {
        0
    } else {
        let r = direct_child_index(cs.drop_first(), x);
        if r == -1 {
            -1
        } else {
            r + 1
        }
    }
}

/// Whether `n` has a direct child with id `x`.
pub open spec fn has_direct_child(n: NodeModel, x: usize) -> bool {
    direct_child_index(n.children, x) >= 0
}

/// The tree after the subtree whose root has id `x` has been removed.
/// The node owning that subtree loses it; a split thereby reduced to one
/// child is replaced by that child (spliced up), which takes over the
/// collapsed split's parent reference. Subtrees without a direct child
/// `x` are mapped unchanged.
pub open spec fn remove_at(n: NodeModel, x: usize) -> NodeModel
    decreases n,
{
    if has_direct_child(n, x) {
        let cs = n.children.remove(direct_child_index(n.children, x));
        if n.kind is Split && cs.len() == 1 {
            NodeModel { parent: n.parent, ..cs[0] }
        } else {
            NodeModel { children: cs, ..n }
        }
    } else {
        NodeModel { children: remove_at_seq(n.children, x), ..n }
    }
}

/// `remove_at`, mapped over a forest.
pub open spec fn remove_at_seq(cs: Seq<NodeModel>, x: usize) -> Seq<NodeModel>
    decreases cs,
{
    if cs.len() == 0 {
        cs
    } else {
        seq![remove_at(cs.first(), x)] + remove_at_seq(cs.drop_first(), x)
    }
}

} // verus!

