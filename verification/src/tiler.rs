//! Executable layout-tree types: split directions, node kinds and window
//! metadata, with their ghost models.

use vstd::prelude::*;

verus! {

use crate::lemmas::{
    lemma_add_absent, lemma_add_at_seq_index, lemma_contains_self, lemma_contains_unfold,
    lemma_direct_child_index, lemma_direct_child_index_at, lemma_forest_nodup_parts,
    lemma_kind_contains, lemma_kind_of_seq_at, lemma_nodup_concat, lemma_remove_absent,
    lemma_remove_at_seq_index, lemma_size_in_seq, lemma_tree_add, lemma_tree_remove,
};
use crate::model::{
    CMetaModel, MetaModel, NodeModel, TreeModel, add_at, add_at_seq, contains_id,
    has_direct_child, id_seq, id_seq_seq, kind_of, meta_from_c, meta_to_c, mint_count, new_leaf,
    node_size, node_size_seq, remove_at, remove_at_seq, wf_tree,
};

/// Direction along which a split subdivides its region.
#[derive(Clone, Copy, PartialEq, Eq, Structural, Debug)]
pub enum SplitDirection {
    Horizontal,
    Vertical,
}

/// Kind of a tree node: an inner split along a direction, or a leaf window.
#[derive(Clone, Copy, PartialEq, Eq, Structural, Debug)]
pub enum NodeType {
    Split(SplitDirection),
    Window,
}

/// Descriptive attributes of a window leaf: a text label, a numeric id,
/// optional geometry (absent meaning "no preference"), a focus flag and a
/// halted flag.
#[derive(Debug)]
pub struct Metadata {
    pub name: String,
    pub id: usize,
    pub x: Option<usize>,
    pub y: Option<usize>,
    pub width: Option<usize>,
    pub height: Option<usize>,
    pub focus: bool,
    pub halted: bool,
}

impl Metadata {
    /// Ghost form of these attributes.
    pub open spec fn model(&self) -> MetaModel {
        MetaModel {
            name: self.name@,
            id: self.id,
            x: self.x,
            y: self.y,
            width: self.width,
            height: self.height,
            focus: self.focus,
            halted: self.halted,
        }
    }

    /// Fresh attributes: focused, not halted.
    pub fn new(
        name: String,
        id: usize,
        x: Option<usize>,
        y: Option<usize>,
        width: Option<usize>,
        height: Option<usize>,
    ) -> (r: Self)
        ensures
            r.model() == (MetaModel { name: name@, id, x, y, width, height, focus: true, halted: false }),
    {
        Self { name, id, x, y, width, height, focus: true, halted: false }
    }

    /// Flips the focus flag and changes nothing else.
    pub fn toggle_focus(&mut self)
        ensures
            final(self).model() == (MetaModel { focus: !old(self).model().focus, ..old(self).model() }),
    {
        self.focus = !self.focus;
    }
}

impl Clone for Metadata {
    fn clone(&self) -> (r: Self)
        ensures
            r.model() == self.model(),
    {
        Self {
            name: self.name.clone(),
            id: self.id,
            x: self.x,
            y: self.y,
            width: self.width,
            height: self.height,
            focus: self.focus,
            halted: self.halted,
        }
    }
}

/// Metadata in its boundary shape: a fixed-size record whose geometry
/// fields use zero for "no preference".
#[derive(Debug)]
pub struct CMetadata {
    pub name: String,
    pub id: usize,
    pub x: usize,
    pub y: usize,
    pub width: usize,
    pub height: usize,
    pub focus: bool,
    pub halted: bool,
}

impl CMetadata {
    /// Ghost form of this record.
    pub open spec fn model(&self) -> CMetaModel {
        CMetaModel {
            name: self.name@,
            id: self.id,
            x: self.x,
            y: self.y,
            width: self.width,
            height: self.height,
            focus: self.focus,
            halted: self.halted,
        }
    }

    /// Encodes metadata for the boundary: absent geometry becomes zero.
    pub fn to_c(metadata: &Metadata) -> (r: Self)
        ensures
            r.model() == meta_to_c(metadata.model()),
    {
        Self {
            name: metadata.name.clone(),
            id: metadata.id,
            x: match metadata.x {
                Some(v) => v,
                None => 0,
            },
            y: match metadata.y {
                Some(v) => v,
                None => 0,
            },
            width: match metadata.width {
                Some(v) => v,
                None => 0,
            },
            height: match metadata.height {
                Some(v) => v,
                None => 0,
            },
            focus: metadata.focus,
            halted: metadata.halted,
        }
    }

    /// Decodes a boundary record into metadata: zero geometry becomes an
    /// absent preference.
    pub fn from_c(cmetadata: &CMetadata) -> (r: Metadata)
        ensures
            r.model() == meta_from_c(cmetadata.model()),
    {
        Metadata {
            name: cmetadata.name.clone(),
            id: cmetadata.id,
            x: if cmetadata.x == 0 {
                None
            } else {
                Some(cmetadata.x)
            },
            y: if cmetadata.y == 0 {
                None
            } else {
                Some(cmetadata.y)
            },
            width: if cmetadata.width == 0 {
                None
            } else {
                Some(cmetadata.width)
            },
            height: if cmetadata.height == 0 {
                None
            } else {
                Some(cmetadata.height)
            },
            focus: cmetadata.focus,
            halted: cmetadata.halted,
        }
    }
}

impl Clone for CMetadata {
    fn clone(&self) -> (r: Self)
        ensures
            r.model() == self.model(),
    {
        Self {
            name: self.name.clone(),
            id: self.id,
            x: self.x,
            y: self.y,
            width: self.width,
            height: self.height,
            focus: self.focus,
            halted: self.halted,
        }
    }
}

/// The errors of the mutation engine and of the boundary surface. All are
/// locally recoverable; none aborts.
#[derive(Clone, Copy, PartialEq, Eq, Structural, Debug)]
pub enum LayoutError {
    NullArgument,
    InvalidDirection,
    ReconstructionFailure,
    ParentNotFound,
    SplitDirectionRequired,
    RootRemovalForbidden,
    WindowNotFound,
}

/// Ghost form of an optional metadata argument.
pub open spec fn opt_meta_model(m: Option<&Metadata>) -> Option<MetaModel> {
    match m {
        Some(a) => Some(a.model()),
        None => None,
    }
}

/// The split direction, with horizontal standing in where none was given.
pub open spec fn dir_or_default(d: Option<SplitDirection>) -> SplitDirection {
    match d {
        Some(x) => x,
        None => SplitDirection::Horizontal,
    }
}

/// A node of the layout tree: a unique id, a parent back-reference (for
/// lookup only, never an ownership edge), the kind, metadata for window
/// leaves, and the ordered, exclusively owned children.
#[derive(Debug)]
pub struct ContainerNode {
    pub id: usize,
    pub parent_id: Option<usize>,
    pub node_type: NodeType,
    pub attrs: Option<Metadata>,
    pub children: Vec<ContainerNode>,
}

impl ContainerNode {
    /// Ghost form of the subtree rooted here.
    pub open spec fn model(self) -> NodeModel
        decreases self,
        via Self::model_decreases
    {
        NodeModel {
            id: self.id,
            parent: self.parent_id,
            kind: self.node_type,
            meta: match self.attrs {
                Some(m) => Some(m.model()),
                None => None,
            },
            children: Self::models(self.children@),
        }
    }

    #[via_fn]
    proof fn model_decreases(self) {
        assert(decreases_to!(self => self.children));
        assert(decreases_to!(self.children => self.children@));
    }

    /// Ghost form of a sequence of nodes.
    pub open spec fn models(cs: Seq<ContainerNode>) -> Seq<NodeModel>
        decreases cs,
    {
        if cs.len() == 0 {
            Seq::empty()
        } else {
            seq![cs.first().model()] + Self::models(cs.drop_first())
        }
    }

    /// `models` acts pointwise.
    pub proof fn lemma_models_index(cs: Seq<ContainerNode>)
        ensures
            Self::models(cs).len() == cs.len(),
            forall|i: int|
                0 <= i < cs.len() ==> #[trigger] Self::models(cs)[i] == cs[i].model(),
        decreases cs,
    {
        if cs.len() == 0 {
        } else {
            Self::lemma_models_index(cs.drop_first());
            assert forall|i: int|
                0 <= i < cs.len() implies #[trigger] Self::models(cs)[i] == cs[i].model() by {
                if i == 0 {
                    assert(cs[0] == cs.first());
                } else {
                    assert(cs.drop_first()[i - 1] == cs[i]);
                    assert(Self::models(cs)[i] == Self::models(cs.drop_first())[i - 1]);
                }
            }
        }
    }

    /// An empty split.
    pub fn new_split(id: usize, parent_id: Option<usize>, direction: SplitDirection) -> (r: Self)
        ensures
            r.model() == (NodeModel {
                id,
                parent: parent_id,
                kind: NodeType::Split(direction),
                meta: None,
                children: Seq::empty(),
            }),
    {
        let r = Self {
            id,
            parent_id,
            node_type: NodeType::Split(direction),
            attrs: None,
            children: Vec::new(),
        };
        proof {
            assert(r.model() =~= NodeModel {
                id,
                parent: parent_id,
                kind: NodeType::Split(direction),
                meta: None,
                children: Seq::empty(),
            });
        }
        r
    }

    /// A window leaf carrying a copy of the given metadata.
    pub fn new_window(id: usize, parent_id: Option<usize>, attrs: Option<&Metadata>) -> (r: Self)
        ensures
            r.model() == (NodeModel {
                id,
                parent: parent_id,
                kind: NodeType::Window,
                meta: opt_meta_model(attrs),
                children: Seq::empty(),
            }),
    {
        let owned: Option<Metadata> = match attrs {
            Some(m) => Some(m.clone()),
            None => None,
        };
        let r = Self {
            id,
            parent_id,
            node_type: NodeType::Window,
            attrs: owned,
            children: Vec::new(),
        };
        proof {
            assert(r.model() =~= NodeModel {
                id,
                parent: parent_id,
                kind: NodeType::Window,
                meta: opt_meta_model(attrs),
                children: Seq::empty(),
            });
        }
        r
    }

    /// Appends `child` at the end of the child sequence, taking ownership.
    pub fn add_child(&mut self, child: ContainerNode)
        ensures
            final(self).model() == (NodeModel {
                children: old(self).model().children.push(child.model()),
                ..old(self).model()
            }),
    {
        let ghost c = child.model();
        self.children.push(child);
        proof {
            Self::lemma_models_index(self.children@);
            Self::lemma_models_index(old(self).children@);
            assert(self.model().children =~= old(self).model().children.push(c));
            assert(self.model() =~= NodeModel {
                children: old(self).model().children.push(c),
                ..old(self).model()
            });
        }
    }
}

/// Searches the subtree for the node with id `parent_id` and performs the
/// addition there, minting ids above `next_id`. Returns the reworked
/// subtree and what happened: `None` when no node matches, the error when
/// a window target lacks a direction, or the freshly minted id.
#[verifier::loop_isolation(false)]
fn node_add(
    node: ContainerNode,
    parent_id: usize,
    direction: Option<SplitDirection>,
    attrs: Option<&Metadata>,
    next_id: usize,
) -> (res: (ContainerNode, Option<Result<usize, LayoutError>>))
    requires
        id_seq(node.model()).no_duplicates(),
        next_id + 2 <= usize::MAX,
    ensures
        ({
            let m = node.model();
            match res.1 {
                None => !contains_id(m, parent_id) && res.0.model() == m,
                Some(Err(e)) => e == LayoutError::SplitDirectionRequired && contains_id(
                    m,
                    parent_id,
                ) && kind_of(m, parent_id) == Some(NodeType::Window) && direction is None
                    && res.0.model() == m,
                Some(Ok(id)) => contains_id(m, parent_id) && !(kind_of(m, parent_id) == Some(
                    NodeType::Window,
                ) && direction is None) && res.0.model() == add_at(
                    m,
                    parent_id,
                    dir_or_default(direction),
                    opt_meta_model(attrs),
                    next_id,
                ) && id == next_id + mint_count(m, parent_id),
            }
        }),
    decreases node_size(node.model()),
{
    let ghost m = node.model();
    if node.id == parent_id {
        match node.node_type {
            NodeType::Window => {
                match direction {
                    None => {
                        proof {
                            lemma_contains_self(m);
                        }
                        (node, Some(Err(LayoutError::SplitDirectionRequired)))
                    },
                    Some(d) => {
                        let nid = node.id;
                        let npar = node.parent_id;
                        let first = ContainerNode {
                            id: next_id + 1,
                            parent_id: Some(nid),
                            node_type: NodeType::Window,
                            attrs: node.attrs,
                            children: node.children,
                        };
                        let second = ContainerNode::new_window(next_id + 2, Some(nid), attrs);
                        let ghost c1 = first.model();
                        let ghost c2 = second.model();
                        let mut kids: Vec<ContainerNode> = Vec::new();
                        kids.push(first);
                        kids.push(second);
                        let r = ContainerNode {
                            id: nid,
                            parent_id: npar,
                            node_type: NodeType::Split(d),
                            attrs: None,
                            children: kids,
                        };
                        proof {
                            lemma_contains_self(m);
                            ContainerNode::lemma_models_index(r.children@);
                            assert(r.model().children =~= seq![c1, c2]);
                            assert(c1 =~= NodeModel {
                                id: (next_id + 1) as usize,
                                parent: Some(m.id),
                                kind: NodeType::Window,
                                meta: m.meta,
                                children: m.children,
                            });
                            assert(c2 == new_leaf((next_id + 2) as usize, m.id, opt_meta_model(attrs)));
                            assert(r.model() =~= add_at(
                                m,
                                parent_id,
                                dir_or_default(direction),
                                opt_meta_model(attrs),
                                next_id,
                            ));
                        }
                        (r, Some(Ok(next_id + 2)))
                    },
                }
            },
            NodeType::Split(_) => {
                let nid = node.id;
                let leaf = ContainerNode::new_window(next_id + 1, Some(nid), attrs);
                let ghost lm = leaf.model();
                let mut node = node;
                node.add_child(leaf);
                proof {
                    lemma_contains_self(m);
                    assert(lm == new_leaf((next_id + 1) as usize, m.id, opt_meta_model(attrs)));
                    assert(node.model() =~= add_at(
                        m,
                        parent_id,
                        dir_or_default(direction),
                        opt_meta_model(attrs),
                        next_id,
                    ));
                }
                (node, Some(Ok(next_id + 1)))
            },
        }
    } else {
        let mut node = node;
        let num = node.children.len();
        proof {
            assert(id_seq(m) == seq![m.id] + id_seq_seq(m.children));
            lemma_nodup_concat(seq![m.id], id_seq_seq(m.children));
            lemma_forest_nodup_parts(m.children);
            ContainerNode::lemma_models_index(node.children@);
            assert(m.children.len() == num);
        }
        let mut i: usize = 0;
        while i < num
            invariant
                i <= num,
                node.children.len() == num,
                node.model() == m,
                forall|j: int| 0 <= j < i ==> !contains_id(#[trigger] m.children[j], parent_id),
            decreases num - i,
        {
            let ghost pre = node.children@;
            proof {
                ContainerNode::lemma_models_index(pre);
            }
            let child = node.children.remove(i);
            let ghost cm = child.model();
            proof {
                assert(cm == m.children[i as int]);
                lemma_size_in_seq(m.children, i as int);
                assert(node_size(m) == 1 + node_size_seq(m.children));
            }
            let (child2, res) = node_add(child, parent_id, direction, attrs, next_id);
            node.children.insert(i, child2);
            proof {
                assert(node.children@ =~= pre.update(i as int, child2));
                ContainerNode::lemma_models_index(node.children@);
                assert(node.model().children =~= m.children.update(i as int, child2.model()));
            }
            match res {
                None => {
                    proof {
                        assert(node.model().children =~= m.children);
                        assert(node.model() =~= m);
                    }
                    i = i + 1;
                },
                Some(r2) => {
                    proof {
                        lemma_contains_unfold(m, parent_id);
                        lemma_kind_contains(cm, parent_id);
                        lemma_kind_of_seq_at(m.children, parent_id, i as int);
                        assert(kind_of(m, parent_id) == kind_of(cm, parent_id));
                        assert(contains_id(m, parent_id));
                        if r2 is Ok {
                            let dd = dir_or_default(direction);
                            let mm = opt_meta_model(attrs);
                            lemma_add_at_seq_index(m.children, parent_id, dd, mm, next_id);
                            assert forall|j: int|
                                0 <= j < num && j != i implies add_at(
                                #[trigger] m.children[j],
                                parent_id,
                                dd,
                                mm,
                                next_id,
                            ) == m.children[j] by {
                                if j < i {
                                    lemma_add_absent(m.children[j], parent_id, dd, mm, next_id);
                                } else {
                                    assert(!contains_id(m.children[j], parent_id));
                                    lemma_add_absent(m.children[j], parent_id, dd, mm, next_id);
                                }
                            }
                            assert(add_at_seq(m.children, parent_id, dd, mm, next_id)
                                =~= m.children.update(i as int, add_at(cm, parent_id, dd, mm, next_id)));
                            assert(node.model() =~= add_at(m, parent_id, dd, mm, next_id));
                        } else {
                            assert(node.model().children =~= m.children);
                            assert(node.model() =~= m);
                        }
                    }
                    return (node, Some(r2));
                },
            }
        }
        proof {
            lemma_contains_unfold(m, parent_id);
        }
        (node, None)
    }
}

/// Searches the subtree for the node owning a direct child with id
/// `window_id` and removes that child there, splicing up a split left
/// with one child. Returns the reworked subtree and whether anything was
/// removed.
#[verifier::loop_isolation(false)]
fn node_remove(node: ContainerNode, window_id: usize) -> (res: (ContainerNode, bool))
    requires
        id_seq(node.model()).no_duplicates(),
        window_id != node.model().id,
    ensures
        ({
            let m = node.model();
            if res.1 {
                contains_id(m, window_id) && res.0.model() == remove_at(m, window_id)
            } else {
                !contains_id(m, window_id) && res.0.model() == m
            }
        }),
    decreases node_size(node.model()),
{
    let ghost m = node.model();
    let mut node = node;
    let num = node.children.len();
    proof {
        assert(id_seq(m) == seq![m.id] + id_seq_seq(m.children));
        lemma_nodup_concat(seq![m.id], id_seq_seq(m.children));
        lemma_forest_nodup_parts(m.children);
        ContainerNode::lemma_models_index(node.children@);
        assert(m.children.len() == num);
    }
    let mut j: usize = 0;
    while j < num
        invariant
            j <= num,
            node.children.len() == num,
            node.model() == m,
            forall|k: int| 0 <= k < j ==> (#[trigger] m.children[k]).id != window_id,
        decreases num - j,
    {
        let ghost pre = node.children@;
        proof {
            ContainerNode::lemma_models_index(pre);
        }
        if node.children[j].id == window_id {
            proof {
                assert(pre[j as int].model() == m.children[j as int]);
                assert(m.children[j as int].id == window_id);
                lemma_direct_child_index_at(m.children, window_id, j as int);
                assert(has_direct_child(m, window_id));
                lemma_contains_self(m.children[j as int]);
                lemma_contains_unfold(m, window_id);
                assert(contains_id(m, window_id));
            }
            let removed = node.children.remove(j);
            let ghost cs2 = m.children.remove(j as int);
            proof {
                ContainerNode::lemma_models_index(node.children@);
                assert forall|k: int|
                    0 <= k < cs2.len() implies #[trigger] ContainerNode::models(node.children@)[k]
                    == cs2[k] by {
                    if k < j {
                        assert(node.children@[k] == pre[k]);
                        assert(cs2[k] == m.children[k]);
                    } else {
                        assert(node.children@[k] == pre[k + 1]);
                        assert(cs2[k] == m.children[k + 1]);
                    }
                }
                assert(node.model().children =~= cs2);
            }
            let is_split = match node.node_type {
                NodeType::Split(_) => true,
                NodeType::Window => false,
            };
            if is_split && node.children.len() == 1 {
                let mut c = node.children.remove(0);
                c.parent_id = node.parent_id;
                proof {
                    assert(remove_at(m, window_id) == NodeModel { parent: m.parent, ..cs2[0] });
                    assert(c.model() =~= NodeModel { parent: m.parent, ..cs2[0] });
                }
                return (c, true);
            }
            proof {
                assert(node.model() =~= NodeModel { children: cs2, ..m });
                assert(remove_at(m, window_id) == NodeModel { children: cs2, ..m });
            }
            return (node, true);
        }
        proof {
            assert(pre[j as int].model() == m.children[j as int]);
        }
        j = j + 1;
    }
    proof {
        lemma_direct_child_index(m.children, window_id);
        assert(!has_direct_child(m, window_id));
    }
    let mut i: usize = 0;
    while i < num
        invariant
            i <= num,
            node.children.len() == num,
            node.model() == m,
            forall|k: int| 0 <= k < i ==> !contains_id(#[trigger] m.children[k], window_id),
        decreases num - i,
    {
        let ghost pre = node.children@;
        proof {
            ContainerNode::lemma_models_index(pre);
        }
        let child = node.children.remove(i);
        let ghost cm = child.model();
        proof {
            assert(cm == m.children[i as int]);
            lemma_size_in_seq(m.children, i as int);
            assert(node_size(m) == 1 + node_size_seq(m.children));
            assert(m.children[i as int].id != window_id);
        }
        let (child2, found) = node_remove(child, window_id);
        node.children.insert(i, child2);
        proof {
            assert(node.children@ =~= pre.update(i as int, child2));
            ContainerNode::lemma_models_index(node.children@);
            assert(node.model().children =~= m.children.update(i as int, child2.model()));
        }
        if found {
            proof {
                lemma_contains_unfold(m, window_id);
                lemma_remove_at_seq_index(m.children, window_id);
                assert forall|k: int|
                    0 <= k < num && k != i implies remove_at(#[trigger] m.children[k], window_id)
                    == m.children[k] by {
                    if k < i {
                        lemma_remove_absent(m.children[k], window_id);
                    } else {
                        assert(!contains_id(m.children[k], window_id));
                        lemma_remove_absent(m.children[k], window_id);
                    }
                }
                assert(remove_at_seq(m.children, window_id) =~= m.children.update(
                    i as int,
                    remove_at(cm, window_id),
                ));
                assert(node.model() =~= remove_at(m, window_id));
            }
            return (node, true);
        } else {
            proof {
                assert(node.model().children =~= m.children);
                assert(node.model() =~= m);
            }
            i = i + 1;
        }
    }
    proof {
        lemma_contains_unfold(m, window_id);
    }
    (node, false)
}

/// Relies on std::time::SystemTime::now with duration_since(UNIX_EPOCH)
/// and Duration::as_millis: the milliseconds since the Unix epoch,
/// truncated to usize, or zero for a clock before the epoch. Nothing is
/// promised of the value; callers treat it as arbitrary.
#[verifier::external_body]
fn now_millis() -> usize {
    std::time::SystemTime::now()
        .duration_since(std::time::UNIX_EPOCH)
        .map(|d| d.as_millis() as usize)
        .unwrap_or(0)
}

/// The mutation engine: exclusively owns the root node and mints every
/// fresh id from `next_id`.
#[derive(Debug)]
pub struct LayoutTree {
    pub root: ContainerNode,
    pub next_id: usize,
}

impl LayoutTree {
    /// Ghost form of the tree.
    pub open spec fn model(self) -> TreeModel {
        TreeModel { root: self.root.model(), next_id: self.next_id }
    }

    /// The tree invariant: well-formed shape, parentless root, distinct
    /// ids, all of them at most `next_id`.
    pub open spec fn wf(self) -> bool {
        wf_tree(self.model())
    }

    /// A tree whose root is a single window with the given attributes,
    /// with root id and id counter both set to `seed`.
    pub fn with_seed(seed: usize, attrs: &Metadata) -> (r: Self)
        requires
            1 <= seed,
        ensures
            r.model() == (TreeModel {
                root: NodeModel {
                    id: seed,
                    parent: None,
                    kind: NodeType::Window,
                    meta: Some(attrs.model()),
                    children: Seq::empty(),
                },
                next_id: seed,
            }),
            r.wf(),
    {
        let root = ContainerNode::new_window(seed, None, Some(attrs));
        let r = Self { root, next_id: seed };
        proof {
            let rm = r.model().root;
            assert(id_seq_seq(rm.children) =~= Seq::<usize>::empty());
            assert(id_seq(rm) =~= seq![seed]);
            assert forall|x: usize| #[trigger] contains_id(rm, x) implies x <= seed by {
                let i = choose|i: int| 0 <= i < id_seq(rm).len() && id_seq(rm)[i] == x;
            }
        }
        r
    }

    /// A fresh tree seeded from the wall clock in milliseconds (clamped
    /// away from zero). The root is a window carrying the attributes.
    pub fn new(attrs: &Metadata) -> (r: Self)
        ensures
            r.wf(),
            r.model().root.kind == NodeType::Window,
            r.model().root.meta == Some(attrs.model()),
            r.model().root.parent is None,
            r.model().root.children == Seq::<NodeModel>::empty(),
            r.model().next_id == r.model().root.id,
            1 <= r.model().root.id,
    {
        let t = now_millis();
        let seed = if t == 0 {
            1
        } else {
            t
        };
        Self::with_seed(seed, attrs)
    }

    /// The root node.
    pub fn get_root(&self) -> (r: &ContainerNode)
        ensures
            r.model() == self.model().root,
    {
        &self.root
    }

    /// The id most recently minted (the anchor for a follow-up call).
    pub fn get_id(&self) -> (r: usize)
        ensures
            r == self.model().next_id,
    {
        self.next_id
    }

    /// Adds a window under the node with id `parent_id`, splitting along
    /// `direction` when that node is a window. Returns the new window's
    /// id, or `ParentNotFound` when no node matches.
    pub fn add_window(
        &mut self,
        parent_id: usize,
        direction: SplitDirection,
        attrs: Option<&Metadata>,
    ) -> (r: Result<usize, LayoutError>)
        requires
            old(self).wf(),
            old(self).model().next_id + 2 <= usize::MAX,
        ensures
            final(self).wf(),
            r is Ok <==> contains_id(old(self).model().root, parent_id),
            ({
                let t = old(self).model();
                match r {
                    Ok(id) => contains_id(t.root, parent_id) && final(self).model().root == add_at(
                        t.root,
                        parent_id,
                        direction,
                        opt_meta_model(attrs),
                        t.next_id,
                    ) && final(self).model().next_id == t.next_id + mint_count(t.root, parent_id)
                        && id == final(self).model().next_id,
                    Err(e) => e == LayoutError::ParentNotFound && !contains_id(t.root, parent_id)
                        && final(self).model() == t,
                }
            }),
    {
        self.add_window_internal(parent_id, Some(direction), attrs)
    }

    /// The addition behind `add_window`, with the direction optional: a
    /// window target without a direction is refused.
    pub fn add_window_internal(
        &mut self,
        parent_id: usize,
        direction: Option<SplitDirection>,
        attrs: Option<&Metadata>,
    ) -> (r: Result<usize, LayoutError>)
        requires
            old(self).wf(),
            old(self).model().next_id + 2 <= usize::MAX,
        ensures
            final(self).wf(),
            ({
                let t = old(self).model();
                match r {
                    Ok(id) => contains_id(t.root, parent_id) && !(kind_of(t.root, parent_id)
                        == Some(NodeType::Window) && direction is None) && final(self).model().root
                        == add_at(
                        t.root,
                        parent_id,
                        dir_or_default(direction),
                        opt_meta_model(attrs),
                        t.next_id,
                    ) && final(self).model().next_id == t.next_id + mint_count(t.root, parent_id)
                        && id == final(self).model().next_id,
                    Err(e) => final(self).model() == t && (e == LayoutError::ParentNotFound <==> !contains_id(
                        t.root,
                        parent_id,
                    )) && (e == LayoutError::SplitDirectionRequired <==> contains_id(
                        t.root,
                        parent_id,
                    ) && kind_of(t.root, parent_id) == Some(NodeType::Window)
                        && direction is None) && (e == LayoutError::ParentNotFound || e
                        == LayoutError::SplitDirectionRequired),
                }
            }),
    {
        let ghost t = self.model();
        let mut root = ContainerNode::new_window(0, None, None);
        core::mem::swap(&mut self.root, &mut root);
        proof {
            assert(root.model() == t.root);
        }
        let (root2, res) = node_add(root, parent_id, direction, attrs, self.next_id);
        self.root = root2;
        match res {
            None => {
                proof {
                    assert(self.model() =~= t);
                }
                Err(LayoutError::ParentNotFound)
            },
            Some(Err(e)) => {
                proof {
                    assert(self.model() =~= t);
                }
                Err(e)
            },
            Some(Ok(id)) => {
                self.next_id = id;
                proof {
                    lemma_tree_add(t, parent_id, dir_or_default(direction), opt_meta_model(attrs));
                    assert(self.model() =~= TreeModel {
                        root: add_at(
                            t.root,
                            parent_id,
                            dir_or_default(direction),
                            opt_meta_model(attrs),
                            t.next_id,
                        ),
                        next_id: (t.next_id + mint_count(t.root, parent_id)) as usize,
                    });
                }
                Ok(id)
            },
        }
    }

    /// Removes the subtree whose root has id `window_id`. The root cannot
    /// be removed; a split left with a single child collapses into it.
    pub fn remove_window(&mut self, window_id: usize) -> (r: Result<(), LayoutError>)
        requires
            old(self).wf(),
        ensures
            final(self).wf(),
            ({
                let t = old(self).model();
                match r {
                    Ok(u) => window_id != t.root.id && contains_id(t.root, window_id) && final(
                        self
                    ).model().root == remove_at(t.root, window_id) && final(self).model().next_id
                        == t.next_id,
                    Err(e) => final(self).model() == t && (e == LayoutError::RootRemovalForbidden
                        <==> window_id == t.root.id) && (e == LayoutError::WindowNotFound
                        <==> window_id != t.root.id && !contains_id(t.root, window_id)) && (e
                        == LayoutError::RootRemovalForbidden || e == LayoutError::WindowNotFound),
                }
            }),
    {
        if self.root.id == window_id {
            return Err(LayoutError::RootRemovalForbidden);
        }
        let ghost t = self.model();
        let mut root = ContainerNode::new_window(0, None, None);
        core::mem::swap(&mut self.root, &mut root);
        proof {
            assert(root.model() == t.root);
        }
        let (root2, found) = node_remove(root, window_id);
        self.root = root2;
        if found {
            proof {
                lemma_tree_remove(t, window_id);
                assert(self.model() =~= TreeModel {
                    root: remove_at(t.root, window_id),
                    next_id: t.next_id,
                });
            }
            Ok(())
        } else {
            proof {
                assert(self.model() =~= t);
            }
            Err(LayoutError::WindowNotFound)
        }
    }
}

} // verus!
