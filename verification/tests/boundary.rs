use bobthetiler::boundary::{CContainerNode, CLayoutTree};
use bobthetiler::surface::{
    error_text, layout_tree_add_window, layout_tree_free, layout_tree_new,
    layout_tree_remove_window,
};
use bobthetiler::tiler::{CMetadata, LayoutError, LayoutTree, Metadata, SplitDirection};

fn meta(name: &str, id: usize) -> Metadata {
    Metadata::new(name.to_string(), id, None, None, None, None)
}

fn cmeta(name: &str, id: usize) -> CMetadata {
    CMetadata::to_c(&meta(name, id))
}

fn cmetas_equal(a: &CMetadata, b: &CMetadata) -> bool {
    a.name == b.name && a.id == b.id && a.x == b.x && a.y == b.y && a.width == b.width
        && a.height == b.height && a.focus == b.focus && a.halted == b.halted
}

#[test]
fn metadata_encoding_uses_zero_for_absent_geometry() {
    let m = Metadata::new("t".to_string(), 3, Some(7), None, Some(100), None);
    let c = CMetadata::to_c(&m);
    assert_eq!(c.x, 7);
    assert_eq!(c.y, 0);
    assert_eq!(c.width, 100);
    assert_eq!(c.height, 0);
    let back = CMetadata::from_c(&c);
    assert_eq!(back.x, Some(7));
    assert_eq!(back.y, None);
    assert_eq!(back.width, Some(100));
    assert_eq!(back.height, None);
    assert_eq!(back.name, "t");
}

#[test]
fn zero_geometry_normalizes_to_absent_on_decode() {
    let m = Metadata::new("t".to_string(), 1, Some(0), None, None, None);
    let c = CMetadata::to_c(&m);
    assert_eq!(c.x, 0);
    let back = CMetadata::from_c(&c);
    assert_eq!(back.x, None);
}

#[test]
fn metadata_reencoding_reproduces_the_record() {
    let c = CMetadata {
        name: "n".to_string(),
        id: 9,
        x: 0,
        y: 4,
        width: 0,
        height: 8,
        focus: false,
        halted: true,
    };
    let again = CMetadata::to_c(&CMetadata::from_c(&c));
    assert!(cmetas_equal(&c, &again));
}

#[test]
fn export_lays_records_out_in_preorder() {
    let mut t = LayoutTree::with_seed(5, &meta("orig", 0));
    t.add_window(5, SplitDirection::Horizontal, Some(&meta("a", 0)))
        .unwrap();
    let ct = CLayoutTree::export(&t);
    assert_eq!(ct.root, Some(0));
    assert_eq!(ct.next_id, 7);
    assert_eq!(ct.nodes.len(), 3);
    assert_eq!(ct.nodes[0].id, 5);
    assert_eq!(ct.nodes[0].parent_id, 0);
    assert_eq!(ct.nodes[0].node_type, 0);
    assert_eq!(ct.nodes[0].attrs, None);
    assert_eq!(ct.nodes[0].child, Some(1));
    assert_eq!(ct.nodes[0].next, None);
    assert_eq!(ct.nodes[1].id, 6);
    assert_eq!(ct.nodes[1].parent_id, 5);
    assert_eq!(ct.nodes[1].node_type, 2);
    assert_eq!(ct.nodes[1].attrs, Some(0));
    assert_eq!(ct.nodes[1].child, None);
    assert_eq!(ct.nodes[1].next, Some(2));
    assert_eq!(ct.nodes[2].id, 7);
    assert_eq!(ct.nodes[2].parent_id, 5);
    assert_eq!(ct.nodes[2].node_type, 2);
    assert_eq!(ct.nodes[2].attrs, Some(1));
    assert_eq!(ct.nodes[2].next, None);
    assert_eq!(ct.metas.len(), 2);
    assert_eq!(ct.metas[0].name, "orig");
    assert_eq!(ct.metas[1].name, "a");
}

#[test]
fn export_import_export_reproduces_the_boundary_graph() {
    let mut t = LayoutTree::with_seed(2, &meta("orig", 0));
    let a = t
        .add_window(2, SplitDirection::Horizontal, Some(&meta("a", 0)))
        .unwrap();
    t.add_window(a, SplitDirection::Vertical, Some(&meta("b", 0)))
        .unwrap();
    let first = CLayoutTree::export(&t);
    let imported = CLayoutTree::from_c(&first).unwrap();
    let second = CLayoutTree::export(&imported);
    assert_eq!(first.nodes, second.nodes);
    assert_eq!(first.root, second.root);
    assert_eq!(first.next_id, second.next_id);
    assert_eq!(first.metas.len(), second.metas.len());
    for (x, y) in first.metas.iter().zip(second.metas.iter()) {
        assert!(cmetas_equal(x, y));
    }
}

#[test]
fn import_rejects_an_absent_root() {
    let ct = CLayoutTree { nodes: Vec::new(), metas: Vec::new(), root: None, next_id: 1 };
    assert!(CLayoutTree::from_c(&ct).is_none());
}

#[test]
fn import_rejects_a_damaged_graph() {
    let rec = CContainerNode {
        id: 1,
        parent_id: 7,
        node_type: 2,
        attrs: None,
        child: None,
        next: None,
    };
    let ct = CLayoutTree { nodes: vec![rec], metas: Vec::new(), root: Some(0), next_id: 1 };
    assert!(CLayoutTree::from_c(&ct).is_none());
    let ct2 = CLayoutTree { nodes: Vec::new(), metas: Vec::new(), root: Some(0), next_id: 1 };
    assert!(CLayoutTree::from_c(&ct2).is_none());
}

#[test]
fn import_accepts_a_plain_window_record() {
    let rec = CContainerNode {
        id: 4,
        parent_id: 0,
        node_type: 2,
        attrs: None,
        child: None,
        next: None,
    };
    let ct = CLayoutTree { nodes: vec![rec], metas: Vec::new(), root: Some(0), next_id: 4 };
    let t = CLayoutTree::from_c(&ct).unwrap();
    assert_eq!(t.root.id, 4);
    assert_eq!(t.next_id, 4);
}

#[test]
fn surface_new_requires_metadata() {
    assert!(layout_tree_new(None).is_none());
    let ct = layout_tree_new(Some(&cmeta("root", 1))).unwrap();
    assert_eq!(ct.nodes.len(), 1);
    assert_eq!(ct.nodes[0].node_type, 2);
    assert_eq!(ct.root, Some(0));
    assert_eq!(ct.metas.len(), 1);
    layout_tree_free(Some(ct));
    layout_tree_free(None);
}

#[test]
fn surface_add_and_remove_round_trip() {
    let mut ct = layout_tree_new(Some(&cmeta("root", 1))).unwrap();
    let root_id = ct.nodes[0].id;
    let r = layout_tree_add_window(&mut ct, root_id, 0, Some(&cmeta("a", 2)));
    assert!(r.success);
    assert!(r.error_message.is_none());
    assert_eq!(r.window_id, ct.next_id);
    assert_eq!(ct.nodes.len(), 3);
    assert_eq!(ct.nodes[0].node_type, 0);
    let removed = layout_tree_remove_window(&mut ct, r.window_id);
    assert!(removed);
    assert_eq!(ct.nodes.len(), 1);
    assert_eq!(ct.nodes[0].node_type, 2);
    assert_eq!(ct.metas[0].name, "root");
}

#[test]
fn surface_add_rejects_bad_arguments() {
    let mut ct = layout_tree_new(Some(&cmeta("root", 1))).unwrap();
    let root_id = ct.nodes[0].id;
    let r = layout_tree_add_window(&mut ct, root_id, 7, Some(&cmeta("a", 2)));
    assert!(!r.success);
    assert_eq!(r.window_id, 0);
    assert_eq!(r.error_message.unwrap(), "Invalid direction");
    let r2 = layout_tree_add_window(&mut ct, root_id, 0, None);
    assert!(!r2.success);
    assert_eq!(r2.error_message.unwrap(), "Metadata is null");
    let r3 = layout_tree_add_window(&mut ct, 0, 1, Some(&cmeta("a", 2)));
    assert!(!r3.success);
    assert_eq!(r3.error_message.unwrap(), "Parent node not found");
    assert_eq!(ct.nodes.len(), 1);
}

#[test]
fn surface_add_reports_a_broken_snapshot() {
    let mut ct = layout_tree_new(Some(&cmeta("root", 1))).unwrap();
    ct.set_root(Vec::new(), Vec::new(), Some(0));
    let r = layout_tree_add_window(&mut ct, 1, 0, Some(&cmeta("a", 2)));
    assert!(!r.success);
    assert_eq!(r.error_message.unwrap(), "Failed to reconstruct LayoutTree");
}

#[test]
fn surface_remove_refuses_root_and_broken_input() {
    let mut ct = layout_tree_new(Some(&cmeta("root", 1))).unwrap();
    let root_id = ct.nodes[0].id;
    assert!(!layout_tree_remove_window(&mut ct, root_id));
    assert!(!layout_tree_remove_window(&mut ct, 0));
    ct.set_next_id(0);
    assert!(!layout_tree_remove_window(&mut ct, root_id));
}

#[test]
fn error_texts_match_the_taxonomy() {
    assert_eq!(error_text(&LayoutError::NullArgument), "Metadata is null");
    assert_eq!(error_text(&LayoutError::InvalidDirection), "Invalid direction");
    assert_eq!(
        error_text(&LayoutError::ReconstructionFailure),
        "Failed to reconstruct LayoutTree"
    );
    assert_eq!(error_text(&LayoutError::ParentNotFound), "Parent node not found");
    assert_eq!(
        error_text(&LayoutError::SplitDirectionRequired),
        "Split direction is required for splitting a window"
    );
    assert_eq!(error_text(&LayoutError::RootRemovalForbidden), "Cannot remove the root node");
    assert_eq!(error_text(&LayoutError::WindowNotFound), "Window ID not found");
}

#[test]
fn set_root_and_set_next_id_overwrite_the_snapshot() {
    let mut ct = layout_tree_new(Some(&cmeta("root", 1))).unwrap();
    let fresh = layout_tree_new(Some(&cmeta("other", 2))).unwrap();
    ct.set_root(fresh.nodes, fresh.metas, fresh.root);
    ct.set_next_id(99);
    assert_eq!(ct.metas[0].name, "other");
    assert_eq!(ct.next_id, 99);
}
