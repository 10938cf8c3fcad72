//! The structural laws of the layout tree, stated and proved over the
//! ghost model: exactly one parentless node, no degenerate splits, and
//! the split-then-collapse inverse.

use vstd::prelude::*;

verus! {

use crate::lemmas::lemma_direct_child_index_at;
use crate::model::{
    MetaModel, NodeModel, TreeModel, add_at, new_leaf, parentless_count, parentless_count_seq,
    remove_at, splits_wide, wf_node, wf_tree,
};
use crate::tiler::{NodeType, SplitDirection};

/// Below a well-formed node, parentless nodes appear exactly where the
/// node itself lacks a parent.
proof fn lemma_parentless_below(n: NodeModel)
    requires
        wf_node(n),
    ensures
        parentless_count(n) == (if n.parent is None {
            1nat
        } else {
            0nat
        }),
    decreases n,
{
    assert forall|i: int| 0 <= i < n.children.len() implies wf_node(#[trigger] n.children[i])
        && n.children[i].parent is Some by {
        assert(n.children[i].parent == Some(n.id) && wf_node(n.children[i]));
    }
    lemma_parentless_seq(n.children);
}

/// A forest of well-formed nodes that all carry a parent reference holds
/// no parentless node.
proof fn lemma_parentless_seq(cs: Seq<NodeModel>)
    requires
        forall|i: int|
            0 <= i < cs.len() ==> wf_node(#[trigger] cs[i]) && cs[i].parent is Some,
    ensures
        parentless_count_seq(cs) == 0,
    decreases cs,
{
    if cs.len() == 0 {
    } else {
        assert(cs[0] == cs.first());
        lemma_parentless_below(cs.first());
        assert forall|i: int|
            0 <= i < cs.drop_first().len() implies wf_node(#[trigger] cs.drop_first()[i])
            && cs.drop_first()[i].parent is Some by {
            assert(cs.drop_first()[i] == cs[i + 1]);
        }
        lemma_parentless_seq(cs.drop_first());
    }
}

/// Root singularity: a well-formed tree has exactly one node with no
/// parent reference, the root.
pub proof fn lemma_root_singularity(t: TreeModel)
    requires
        wf_tree(t),
    ensures
        parentless_count(t.root) == 1,
{
    lemma_parentless_below(t.root);
}

/// No degenerate splits: in a well-formed tree, every split node holds
/// at least two children.
pub proof fn lemma_no_degenerate_splits(t: TreeModel)
    requires
        wf_tree(t),
    ensures
        splits_wide(t.root),
{
    lemma_splits_wide(t.root);
}

/// Well-formedness carries the split-width condition everywhere below.
proof fn lemma_splits_wide(n: NodeModel)
    requires
        wf_node(n),
    ensures
        splits_wide(n),
    decreases n,
{
    assert forall|i: int| 0 <= i < n.children.len() implies splits_wide(
        #[trigger] n.children[i],
    ) by {
        assert(n.children[i].parent == Some(n.id) && wf_node(n.children[i]));
        lemma_splits_wide(n.children[i]);
    }
}

/// Split-then-collapse inverse: adding a window under a window-only root
/// turns it into a split of two leaves, the first carrying the root's
/// metadata under id `next_id + 1`, the second carrying the caller's
/// under id `next_id + 2`; removing that second leaf collapses the split
/// back to a single window with the root's original metadata and kind.
pub proof fn lemma_split_then_collapse(t: TreeModel, dir: SplitDirection, meta: MetaModel)
    requires
        wf_tree(t),
        t.root.kind is Window,
        t.next_id + 2 <= usize::MAX,
    ensures
        ({
            let grown = add_at(t.root, t.root.id, dir, Some(meta), t.next_id);
            &&& grown.id == t.root.id
            &&& grown.kind == NodeType::Split(dir)
            &&& grown.children.len() == 2
            &&& grown.children[0] == (NodeModel {
                id: (t.next_id + 1) as usize,
                parent: Some(t.root.id),
                kind: NodeType::Window,
                meta: t.root.meta,
                children: t.root.children,
            })
            &&& grown.children[1] == new_leaf((t.next_id + 2) as usize, t.root.id, Some(meta))
            &&& remove_at(grown, (t.next_id + 2) as usize) == (NodeModel {
                id: (t.next_id + 1) as usize,
                parent: t.root.parent,
                kind: NodeType::Window,
                meta: t.root.meta,
                children: t.root.children,
            })
        }),
{
    let grown = add_at(t.root, t.root.id, dir, Some(meta), t.next_id);
    let c1 = grown.children[0];
    let c2 = grown.children[1];
    assert(c1.id == t.next_id + 1 && c2.id == t.next_id + 2);
    lemma_direct_child_index_at(grown.children, (t.next_id + 2) as usize, 1);
    let cs2 = grown.children.remove(1);
    assert(cs2 =~= seq![c1]);
    assert(remove_at(grown, (t.next_id + 2) as usize) == (NodeModel {
        parent: grown.parent,
        ..c1
    }));
}

} // verus!
