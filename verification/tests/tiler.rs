use bobthetiler::tiler::{
    ContainerNode, LayoutError, LayoutTree, Metadata, NodeType, SplitDirection,
};

fn meta(name: &str, id: usize) -> Metadata {
    Metadata::new(name.to_string(), id, None, None, None, None)
}

fn collect_ids(node: &ContainerNode, out: &mut Vec<usize>) {
    out.push(node.id);
    for child in &node.children {
        collect_ids(child, out);
    }
}

fn count_parentless(node: &ContainerNode) -> usize {
    let own = if node.parent_id.is_none() { 1 } else { 0 };
    let mut total = own;
    for child in &node.children {
        total += count_parentless(child);
    }
    total
}

fn splits_are_wide(node: &ContainerNode) -> bool {
    let own = match node.node_type {
        NodeType::Split(_) => node.children.len() >= 2,
        NodeType::Window => node.children.is_empty(),
    };
    own && node.children.iter().all(splits_are_wide)
}

#[test]
fn new_metadata_is_focused_and_running() {
    let m = meta("tab", 7);
    assert_eq!(m.id, 7);
    assert!(m.focus);
    assert!(!m.halted);
    assert_eq!(m.x, None);
}

#[test]
fn toggle_focus_flips_only_the_flag() {
    let mut m = meta("tab", 1);
    m.toggle_focus();
    assert!(!m.focus);
    assert!(!m.halted);
    m.toggle_focus();
    assert!(m.focus);
}

#[test]
fn with_seed_builds_a_single_window() {
    let t = LayoutTree::with_seed(1, &meta("root", 1));
    assert_eq!(t.root.id, 1);
    assert_eq!(t.next_id, 1);
    assert_eq!(t.root.node_type, NodeType::Window);
    assert!(t.root.parent_id.is_none());
    assert!(t.root.children.is_empty());
    assert_eq!(t.root.attrs.as_ref().unwrap().name, "root");
}

#[test]
fn new_seeds_root_and_counter_alike() {
    let t = LayoutTree::new(&meta("root", 1));
    assert_eq!(t.root.id, t.next_id);
    assert!(t.root.id >= 1);
    assert_eq!(t.root.node_type, NodeType::Window);
    assert!(t.root.parent_id.is_none());
}

#[test]
fn split_then_collapse_restores_the_original_window() {
    let mut t = LayoutTree::with_seed(1, &meta("original", 1));
    let id = t
        .add_window(1, SplitDirection::Horizontal, Some(&meta("fresh", 2)))
        .unwrap();
    assert_eq!(id, 3);
    assert_eq!(t.root.node_type, NodeType::Split(SplitDirection::Horizontal));
    assert_eq!(t.root.children.len(), 2);
    assert_eq!(t.root.children[0].id, 2);
    assert_eq!(t.root.children[0].attrs.as_ref().unwrap().name, "original");
    assert_eq!(t.root.children[1].id, 3);
    assert_eq!(t.root.children[1].attrs.as_ref().unwrap().name, "fresh");
    t.remove_window(3).unwrap();
    assert_eq!(t.root.node_type, NodeType::Window);
    assert_eq!(t.root.id, 2);
    assert!(t.root.parent_id.is_none());
    assert_eq!(t.root.attrs.as_ref().unwrap().name, "original");
    assert!(t.root.children.is_empty());
}

#[test]
fn scenario_two_splits_then_inner_collapse() {
    let r = 10;
    let mut t = LayoutTree::with_seed(r, &meta("orig", 0));
    let first = t
        .add_window(r, SplitDirection::Horizontal, Some(&meta("a", 0)))
        .unwrap();
    assert_eq!(first, r + 2);
    assert_eq!(t.root.node_type, NodeType::Split(SplitDirection::Horizontal));
    assert_eq!(t.root.children[0].attrs.as_ref().unwrap().name, "orig");
    assert_eq!(t.root.children[1].id, r + 2);
    assert_eq!(t.root.children[1].attrs.as_ref().unwrap().name, "a");
    let second = t
        .add_window(r + 2, SplitDirection::Vertical, Some(&meta("b", 0)))
        .unwrap();
    assert_eq!(second, r + 4);
    let inner = &t.root.children[1];
    assert_eq!(inner.node_type, NodeType::Split(SplitDirection::Vertical));
    assert_eq!(inner.children[0].id, r + 3);
    assert_eq!(inner.children[0].attrs.as_ref().unwrap().name, "a");
    assert_eq!(inner.children[1].id, r + 4);
    assert_eq!(inner.children[1].attrs.as_ref().unwrap().name, "b");
    t.remove_window(r + 3).unwrap();
    assert_eq!(t.root.children.len(), 2);
    assert_eq!(t.root.children[0].attrs.as_ref().unwrap().name, "orig");
    assert_eq!(t.root.children[1].id, r + 4);
    assert_eq!(t.root.children[1].node_type, NodeType::Window);
    assert_eq!(t.root.children[1].attrs.as_ref().unwrap().name, "b");
}

#[test]
fn adding_to_a_split_appends_a_window() {
    let mut t = LayoutTree::with_seed(1, &meta("orig", 0));
    t.add_window(1, SplitDirection::Horizontal, Some(&meta("a", 0)))
        .unwrap();
    let id = t
        .add_window(1, SplitDirection::Vertical, Some(&meta("c", 0)))
        .unwrap();
    assert_eq!(id, 4);
    assert_eq!(t.root.node_type, NodeType::Split(SplitDirection::Horizontal));
    assert_eq!(t.root.children.len(), 3);
    assert_eq!(t.root.children[2].id, 4);
    assert_eq!(t.root.children[2].attrs.as_ref().unwrap().name, "c");
}

#[test]
fn parent_not_found_on_unknown_id() {
    let mut t = LayoutTree::with_seed(1, &meta("orig", 0));
    let r = t.add_window(999, SplitDirection::Horizontal, Some(&meta("m", 0)));
    assert_eq!(r, Err(LayoutError::ParentNotFound));
    assert_eq!(t.next_id, 1);
    assert_eq!(t.root.node_type, NodeType::Window);
}

#[test]
fn root_removal_is_forbidden_on_any_shape() {
    let mut t = LayoutTree::with_seed(1, &meta("orig", 0));
    assert_eq!(t.remove_window(1), Err(LayoutError::RootRemovalForbidden));
    t.add_window(1, SplitDirection::Horizontal, Some(&meta("a", 0)))
        .unwrap();
    assert_eq!(t.remove_window(1), Err(LayoutError::RootRemovalForbidden));
}

#[test]
fn window_not_found_on_absent_id() {
    let mut t = LayoutTree::with_seed(1, &meta("orig", 0));
    t.add_window(1, SplitDirection::Horizontal, Some(&meta("a", 0)))
        .unwrap();
    assert_eq!(t.remove_window(42), Err(LayoutError::WindowNotFound));
}

#[test]
fn split_direction_is_required_for_a_window_target() {
    let mut t = LayoutTree::with_seed(1, &meta("orig", 0));
    let r = t.add_window_internal(1, None, Some(&meta("m", 0)));
    assert_eq!(r, Err(LayoutError::SplitDirectionRequired));
    assert_eq!(t.root.node_type, NodeType::Window);
}

#[test]
fn ids_stay_unique_through_mutations() {
    let mut t = LayoutTree::with_seed(1, &meta("orig", 0));
    let a = t
        .add_window(1, SplitDirection::Horizontal, Some(&meta("a", 0)))
        .unwrap();
    let b = t
        .add_window(a, SplitDirection::Vertical, Some(&meta("b", 0)))
        .unwrap();
    t.add_window(1, SplitDirection::Horizontal, Some(&meta("c", 0)))
        .unwrap();
    t.remove_window(b).unwrap();
    let mut ids = Vec::new();
    collect_ids(&t.root, &mut ids);
    let mut sorted = ids.clone();
    sorted.sort();
    sorted.dedup();
    assert_eq!(sorted.len(), ids.len());
}

#[test]
fn exactly_one_parentless_node_always() {
    let mut t = LayoutTree::with_seed(1, &meta("orig", 0));
    assert_eq!(count_parentless(&t.root), 1);
    let a = t
        .add_window(1, SplitDirection::Horizontal, Some(&meta("a", 0)))
        .unwrap();
    assert_eq!(count_parentless(&t.root), 1);
    t.add_window(a, SplitDirection::Vertical, Some(&meta("b", 0)))
        .unwrap();
    assert_eq!(count_parentless(&t.root), 1);
    t.remove_window(a).unwrap();
    assert_eq!(count_parentless(&t.root), 1);
}

#[test]
fn no_split_ever_drops_below_two_children() {
    let mut t = LayoutTree::with_seed(1, &meta("orig", 0));
    let a = t
        .add_window(1, SplitDirection::Horizontal, Some(&meta("a", 0)))
        .unwrap();
    let b = t
        .add_window(a, SplitDirection::Vertical, Some(&meta("b", 0)))
        .unwrap();
    assert!(splits_are_wide(&t.root));
    t.remove_window(b).unwrap();
    assert!(splits_are_wide(&t.root));
    t.add_window(1, SplitDirection::Horizontal, Some(&meta("c", 0)))
        .unwrap();
    assert!(splits_are_wide(&t.root));
}

#[test]
fn get_root_and_get_id_report_the_state() {
    let mut t = LayoutTree::with_seed(5, &meta("orig", 0));
    assert_eq!(t.get_id(), 5);
    assert_eq!(t.get_root().id, 5);
    let id = t
        .add_window(5, SplitDirection::Horizontal, Some(&meta("a", 0)))
        .unwrap();
    assert_eq!(t.get_id(), id);
}

#[test]
fn node_constructors_shape_their_nodes() {
    let s = ContainerNode::new_split(4, Some(2), SplitDirection::Vertical);
    assert_eq!(s.id, 4);
    assert_eq!(s.parent_id, Some(2));
    assert_eq!(s.node_type, NodeType::Split(SplitDirection::Vertical));
    assert!(s.attrs.is_none());
    assert!(s.children.is_empty());
    let m = meta("w", 9);
    let w = ContainerNode::new_window(6, Some(4), Some(&m));
    assert_eq!(w.node_type, NodeType::Window);
    assert_eq!(w.attrs.as_ref().unwrap().name, "w");
    let mut s2 = ContainerNode::new_split(4, None, SplitDirection::Horizontal);
    s2.add_child(w);
    assert_eq!(s2.children.len(), 1);
    assert_eq!(s2.children[0].id, 6);
}
