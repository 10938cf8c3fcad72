//! The boundary function surface: fixed-signature entry points that a
//! foreign caller drives. Each mutating call rebuilds an owned tree from
//! the last exported snapshot, mutates it, and overwrites the snapshot
//! with a fresh export. Error messages are fixed text constants.

use vstd::prelude::*;

verus! {

use crate::boundary::{export_tree, CLayoutTree};
use crate::model::{TreeModel, add_at, contains_id, meta_from_c, mint_count, remove_at, wf_tree};
use crate::tiler::{CMetadata, LayoutError, SplitDirection};

/// What a call to the window-adding entry point reports: success with
/// the fresh id, or failure with a fixed message.
pub struct AddWindowResult {
    pub success: bool,
    pub window_id: usize,
    pub error_message: Option<String>,
}

/// The fixed text for each error.
pub open spec fn error_text_model(e: LayoutError) -> Seq<char> {
    match e {
        LayoutError::NullArgument => "Metadata is null"@,
        LayoutError::InvalidDirection => "Invalid direction"@,
        LayoutError::ReconstructionFailure => "Failed to reconstruct LayoutTree"@,
        LayoutError::ParentNotFound => "Parent node not found"@,
        LayoutError::SplitDirectionRequired => "Split direction is required for splitting a window"@,
        LayoutError::RootRemovalForbidden => "Cannot remove the root node"@,
        LayoutError::WindowNotFound => "Window ID not found"@,
    }
}

/// The fixed message text of an error.
pub fn error_text(e: &LayoutError) -> (r: String)
    ensures
        r@ == error_text_model(*e),
{
    match e {
        LayoutError::NullArgument => "Metadata is null".to_string(),
        LayoutError::InvalidDirection => "Invalid direction".to_string(),
        LayoutError::ReconstructionFailure => "Failed to reconstruct LayoutTree".to_string(),
        LayoutError::ParentNotFound => "Parent node not found".to_string(),
        LayoutError::SplitDirectionRequired => "Split direction is required for splitting a window".to_string(),
        LayoutError::RootRemovalForbidden => "Cannot remove the root node".to_string(),
        LayoutError::WindowNotFound => "Window ID not found".to_string(),
    }
}

/// The direction a code names: 0 is horizontal, 1 is vertical.
pub open spec fn dir_of_code(code: u32) -> SplitDirection {
    if code == 0 {
        SplitDirection::Horizontal
    } else {
        SplitDirection::Vertical
    }
}

/// The fixed texts that the adding entry point can answer with are
/// pairwise distinct, so a message names its error unambiguously.
pub proof fn lemma_texts_distinct()
    ensures
        error_text_model(LayoutError::NullArgument) != error_text_model(
            LayoutError::InvalidDirection,
        ),
        error_text_model(LayoutError::NullArgument) != error_text_model(
            LayoutError::ReconstructionFailure,
        ),
        error_text_model(LayoutError::NullArgument) != error_text_model(
            LayoutError::ParentNotFound,
        ),
        error_text_model(LayoutError::InvalidDirection) != error_text_model(
            LayoutError::ReconstructionFailure,
        ),
        error_text_model(LayoutError::InvalidDirection) != error_text_model(
            LayoutError::ParentNotFound,
        ),
        error_text_model(LayoutError::ReconstructionFailure) != error_text_model(
            LayoutError::ParentNotFound,
        ),
{
    reveal_strlit("Metadata is null");
    reveal_strlit("Invalid direction");
    reveal_strlit("Failed to reconstruct LayoutTree");
    reveal_strlit("Parent node not found");
    assert(error_text_model(LayoutError::NullArgument).len() == 16);
    assert(error_text_model(LayoutError::InvalidDirection).len() == 17);
    assert(error_text_model(LayoutError::ReconstructionFailure).len() == 32);
    assert(error_text_model(LayoutError::ParentNotFound).len() == 21);
}

/// A failed result carrying the error's fixed message.
fn failure(e: LayoutError) -> (r: AddWindowResult)
    ensures
        !r.success,
        r.window_id == 0,
        r.error_message matches Some(msg) && msg@ == error_text_model(e),
{
    AddWindowResult { success: false, window_id: 0, error_message: Some(error_text(&e)) }
}

/// A fresh boundary tree over the given metadata; absent metadata gives
/// no tree.
pub fn layout_tree_new(cmetadata: Option<&CMetadata>) -> (r: Option<CLayoutTree>)
    ensures
        r is Some <==> cmetadata is Some,
        match r {
            Some(ct) => exists|tm: TreeModel|
                {
                    &&& wf_tree(tm)
                    &&& tm.root.kind == crate::tiler::NodeType::Window
                    &&& tm.root.meta == Some(meta_from_c(cmetadata->0.model()))
                    &&& tm.next_id == tm.root.id
                    &&& #[trigger] export_tree(tm) == ct.model()
                },
            None => true,
        },
{
    CLayoutTree::new(cmetadata)
}

/// Releases a boundary tree; an absent handle is a no-op.
pub fn layout_tree_free(tree: Option<CLayoutTree>) {
    CLayoutTree::free(tree);
}

/// Adds a window under `parent_id` in the exported tree: the snapshot is
/// imported, mutated and re-exported. Direction codes outside zero and
/// one are refused; a snapshot that is not a canonical export, or one
/// whose arenas or id counter leave no room for the two minted ids, is
/// reported as a reconstruction failure.
pub fn layout_tree_add_window(
    tree: &mut CLayoutTree,
    parent_id: usize,
    direction: u32,
    cmetadata: Option<&CMetadata>,
) -> (r: AddWindowResult)
    ensures
        !r.success ==> final(tree).model() == old(tree).model() && r.window_id == 0 && (
        r.error_message matches Some(msg)),
        r.success ==> cmetadata is Some && direction <= 1 && r.error_message is None && (exists|
            tm: TreeModel,
        |
            {
                &&& wf_tree(tm)
                &&& #[trigger] export_tree(tm) == old(tree).model()
                &&& contains_id(tm.root, parent_id)
                &&& tm.next_id + 2 <= usize::MAX
                &&& final(tree).model() == export_tree(
                    TreeModel {
                        root: add_at(
                            tm.root,
                            parent_id,
                            dir_of_code(direction),
                            Some(meta_from_c(cmetadata->0.model())),
                            tm.next_id,
                        ),
                        next_id: (tm.next_id + mint_count(tm.root, parent_id)) as usize,
                    },
                )
                &&& r.window_id == tm.next_id + mint_count(tm.root, parent_id)
            }),
        (r.error_message matches Some(msg) && msg@ == error_text_model(
            LayoutError::NullArgument,
        )) <==> cmetadata is None,
        (r.error_message matches Some(msg) && msg@ == error_text_model(
            LayoutError::InvalidDirection,
        )) <==> (cmetadata is Some && direction > 1),
        cmetadata is Some && direction <= 1 && (forall|tm: TreeModel|
            wf_tree(tm) ==> #[trigger] export_tree(tm) != old(tree).model()) ==> !r.success && (
        r.error_message matches Some(msg) && msg@ == error_text_model(
            LayoutError::ReconstructionFailure,
        )),
        (r.error_message matches Some(msg) && msg@ == error_text_model(
            LayoutError::ParentNotFound,
        )) ==> exists|tm: TreeModel|
            wf_tree(tm) && #[trigger] export_tree(tm) == old(tree).model() && !contains_id(
                tm.root,
                parent_id,
            ),
        (cmetadata is Some && direction <= 1 && old(tree).model().nodes.len() + 2 <= usize::MAX
            && old(tree).model().metas.len() + 1 <= usize::MAX && (exists|tm: TreeModel|
            wf_tree(tm) && #[trigger] export_tree(tm) == old(tree).model() && contains_id(
                tm.root,
                parent_id,
            ) && tm.next_id + 2 <= usize::MAX)) ==> r.success,
        (cmetadata is Some && direction <= 1 && old(tree).model().nodes.len() + 2 <= usize::MAX
            && old(tree).model().metas.len() + 1 <= usize::MAX && old(tree).model().next_id + 2
            <= usize::MAX && (exists|tm: TreeModel|
            wf_tree(tm) && #[trigger] export_tree(tm) == old(tree).model() && !contains_id(
                tm.root,
                parent_id,
            ))) ==> !r.success && (r.error_message matches Some(msg) && msg@ == error_text_model(
            LayoutError::ParentNotFound,
        )),
{
    let ghost g = old(tree).model();
    proof {
        lemma_texts_distinct();
        crate::boundary::lemma_meta_models_index(old(tree).metas@);
    }
    let cm = match cmetadata {
        None => {
            return failure(LayoutError::NullArgument);
        },
        Some(c) => c,
    };
    if direction > 1 {
        return failure(LayoutError::InvalidDirection);
    }
    let dir = if direction == 0 {
        SplitDirection::Horizontal
    } else {
        SplitDirection::Vertical
    };
    if tree.nodes.len() > usize::MAX - 2 || tree.metas.len() > usize::MAX - 1 {
        return failure(LayoutError::ReconstructionFailure);
    }
    let imported = CLayoutTree::from_c(tree);
    let mut t = match imported {
        None => {
            return failure(LayoutError::ReconstructionFailure);
        },
        Some(t) => t,
    };
    if t.get_id() > usize::MAX - 2 {
        return failure(LayoutError::ReconstructionFailure);
    }
    let ghost tm = t.model();
    proof {
        crate::boundary::lemma_export_len(tm.root, 0, 0, 0, None);
        assert(crate::model::node_size(tm.root) == g.nodes.len());
        assert(crate::boundary::meta_count(tm.root) == g.metas.len());
        assert forall|w: TreeModel|
            wf_tree(w) && #[trigger] export_tree(w) == g implies (w.next_id == tm.next_id
            && w.root.id == tm.root.id && (forall|x: usize| #[trigger]
            contains_id(w.root, x) <==> contains_id(tm.root, x))) by {
            assert(export_tree(w).nodes == crate::boundary::export_recs(w.root, 0, 0, 0, None));
            assert(export_tree(tm).nodes == crate::boundary::export_recs(tm.root, 0, 0, 0, None));
            crate::boundary::lemma_same_export_same_ids(w.root, tm.root);
        }
    }
    let meta = CMetadata::from_c(cm);
    match t.add_window(parent_id, dir, Some(&meta)) {
        Ok(id) => {
            proof {
                crate::boundary::lemma_add_size(
                    tm.root,
                    parent_id,
                    dir,
                    Some(meta_from_c(cm.model())),
                    tm.next_id,
                );
            }
            let nt = CLayoutTree::export(&t);
            tree.set_root(nt.nodes, nt.metas, nt.root);
            tree.set_next_id(nt.next_id);
            proof {
                assert(final(tree).model() =~= export_tree(t.model()));
            }
            AddWindowResult { success: true, window_id: id, error_message: None }
        },
        Err(e) => {
            proof {
                assert(e == LayoutError::ParentNotFound);
            }
            failure(e)
        },
    }
}

/// Removes the subtree whose root has id `window_id` from the exported
/// tree, by the same import, mutate and re-export round trip. Answers
/// false on a snapshot that is not a canonical export, on the root's id,
/// and on an id that no node carries.
pub fn layout_tree_remove_window(tree: &mut CLayoutTree, window_id: usize) -> (r: bool)
    ensures
        !r ==> final(tree).model() == old(tree).model(),
        r ==> exists|tm: TreeModel|
            {
                &&& wf_tree(tm)
                &&& #[trigger] export_tree(tm) == old(tree).model()
                &&& window_id != tm.root.id
                &&& contains_id(tm.root, window_id)
                &&& final(tree).model() == export_tree(
                    TreeModel { root: remove_at(tm.root, window_id), next_id: tm.next_id },
                )
            },
        (forall|tm: TreeModel| wf_tree(tm) ==> #[trigger] export_tree(tm) != old(tree).model())
            ==> !r,
        (exists|tm: TreeModel|
            wf_tree(tm) && #[trigger] export_tree(tm) == old(tree).model() && window_id
                != tm.root.id && contains_id(tm.root, window_id)) ==> r,
{
    let ghost g = old(tree).model();
    proof {
        crate::boundary::lemma_meta_models_index(old(tree).metas@);
        assert(vstd::std_specs::vec::spec_vec_len(&old(tree).nodes) == old(tree).nodes@.len());
        assert(vstd::std_specs::vec::spec_vec_len(&old(tree).metas) == old(tree).metas@.len());
    }
    let imported = CLayoutTree::from_c(tree);
    let mut t = match imported {
        None => {
            return false;
        },
        Some(t) => t,
    };
    let ghost tm = t.model();
    proof {
        crate::boundary::lemma_export_len(tm.root, 0, 0, 0, None);
        assert(crate::model::node_size(tm.root) == g.nodes.len());
        assert(crate::boundary::meta_count(tm.root) == g.metas.len());
        assert forall|w: TreeModel|
            wf_tree(w) && #[trigger] export_tree(w) == g implies (w.next_id == tm.next_id
            && w.root.id == tm.root.id && (forall|x: usize| #[trigger]
            contains_id(w.root, x) <==> contains_id(tm.root, x))) by {
            assert(export_tree(w).nodes == crate::boundary::export_recs(w.root, 0, 0, 0, None));
            assert(export_tree(tm).nodes == crate::boundary::export_recs(tm.root, 0, 0, 0, None));
            crate::boundary::lemma_same_export_same_ids(w.root, tm.root);
        }
    }
    match t.remove_window(window_id) {
        Ok(u) => {
            proof {
                crate::boundary::lemma_remove_size(tm.root, window_id);
            }
            let nt = CLayoutTree::export(&t);
            tree.set_root(nt.nodes, nt.metas, nt.root);
            tree.set_next_id(nt.next_id);
            proof {
                assert(final(tree).model() =~= export_tree(t.model()));
            }
            true
        },
        Err(e) => false,
    }
}

} // verus!
