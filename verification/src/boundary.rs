//! The boundary representation: the tree flattened into fixed-size
//! records linked by first-child/next-sibling references, so that an
//! arbitrary-arity tree can cross a memory-ownership boundary, and the
//! import step that reconstructs an owned tree from such a graph.
//!
//! References are indices into two arenas (one for node records, one for
//! metadata records); an absent reference is `None`. Export lays records
//! out in preorder: a node at position `p` with children puts its first
//! child at `p + 1`, and each child's `next` names the position right
//! after that child's subtree.
//!
//! A metadata reference is optional on a window record and forbidden on a
//! split record; the import step rejects a reference it cannot resolve
//! instead of following it blindly, so a malformed producer yields a
//! reconstruction failure, never undefined behaviour.

use vstd::prelude::*;

verus! {

use crate::lemmas::{lemma_contains_concat, lemma_disjoint_membership, lemma_nodup_concat};
use crate::model::{
    CMetaModel, MetaModel, NodeModel, TreeModel, add_at, add_at_seq, contains_id,
    direct_child_index, has_direct_child, id_seq, id_seq_seq, ids_le, meta_from_c, meta_to_c,
    node_size, node_size_seq, remove_at, remove_at_seq, wf_node, wf_tree,
};
use crate::tiler::{CMetadata, ContainerNode, LayoutTree, Metadata, NodeType, SplitDirection};

/// One boundary record: the fixed-size export form of a node. The kind
/// tag is 0 for a horizontal split, 1 for a vertical split, 2 for a
/// window; the parent id uses 0 for "none"; `attrs`, `child` and `next`
/// are arena references.
#[derive(Clone, Copy, PartialEq, Eq, Debug)]
pub struct CContainerNode {
    pub id: usize,
    pub parent_id: usize,
    pub node_type: usize,
    pub attrs: Option<usize>,
    pub child: Option<usize>,
    pub next: Option<usize>,
}

/// Ghost form of an exported tree: both arenas, the root reference and
/// the id counter carried across the boundary.
#[verifier::ext_equal]
pub struct CLayoutModel {
    pub nodes: Seq<CContainerNode>,
    pub metas: Seq<CMetaModel>,
    pub root: Option<usize>,
    pub next_id: usize,
}

/// The kind of a node as the boundary names it; its `tag` is the numeric
/// value written into a record.
#[derive(Clone, Copy, PartialEq, Eq, Structural, Debug)]
pub enum CNodeType {
    SplitHorizontal,
    SplitVertical,
    Window,
}

impl CNodeType {
    /// The numeric tag of this kind: 0, 1 or 2.
    pub fn tag(self) -> (r: usize)
        ensures
            r == kind_tag(self.kind()),
    {
        match self {
            CNodeType::SplitHorizontal => 0,
            CNodeType::SplitVertical => 1,
            CNodeType::Window => 2,
        }
    }

    /// The node kind this boundary kind stands for.
    pub open spec fn kind(self) -> NodeType {
        match self {
            CNodeType::SplitHorizontal => NodeType::Split(SplitDirection::Horizontal),
            CNodeType::SplitVertical => NodeType::Split(SplitDirection::Vertical),
            CNodeType::Window => NodeType::Window,
        }
    }
}

/// The kind tag of a record.
pub open spec fn kind_tag(k: NodeType) -> usize {
    match k {
        NodeType::Split(SplitDirection::Horizontal) => 0,
        NodeType::Split(SplitDirection::Vertical) => 1,
        NodeType::Window => 2,
    }
}

/// Decoding of a parent reference: zero is "none".
pub open spec fn parent_dec(pe: usize) -> Option<usize> {
    if pe == 0 {
        None
    } else {
        Some(pe)
    }
}

/// How many metadata records the subtree at `n` exports.
pub open spec fn meta_count(n: NodeModel) -> nat
    decreases n,
{
    (if n.meta is Some {
        1nat
    } else {
        0nat
    }) + meta_count_seq(n.children)
}

/// `meta_count` over a forest.
pub open spec fn meta_count_seq(cs: Seq<NodeModel>) -> nat
    decreases cs,
{
    if cs.len() == 0 {
        0
    } else {
        meta_count(cs.first()) + meta_count_seq(cs.drop_first())
    }
}

/// The records of the subtree at `n`, laid out in preorder from position
/// `pos`, with its metadata records from position `mpos`, under the given
/// encoded parent id; `nxt` is what the node's own `next` reference says.
pub open spec fn export_recs(
    n: NodeModel,
    pe: usize,
    pos: int,
    mpos: int,
    nxt: Option<usize>,
) -> Seq<CContainerNode>
    decreases n,
{
    seq![
        CContainerNode {
            id: n.id,
            parent_id: pe,
            node_type: kind_tag(n.kind),
            attrs: if n.meta is Some {
                Some(mpos as usize)
            } else {
                None
            },
            child: if n.children.len() > 0 {
                Some((pos + 1) as usize)
            } else {
                None
            },
            next: nxt,
        },
    ] + export_kids(
        n.children,
        n.id,
        pos + 1,
        mpos + (if n.meta is Some {
            1int
        } else {
            0int
        }),
    )
}

/// The records of a sibling chain: each child's subtree in turn, every
/// child but the last pointing `next` at the position after its subtree.
pub open spec fn export_kids(cs: Seq<NodeModel>, parent_id: usize, pos: int, mpos: int) -> Seq<
    CContainerNode,
>
    decreases cs,
{
    if cs.len() == 0 {
        Seq::empty()
    } else {
        let sz = node_size(cs.first()) as int;
        let nxt: Option<usize> = if cs.len() > 1 {
            Some((pos + sz) as usize)
        } else {
            None
        };
        export_recs(cs.first(), parent_id, pos, mpos, nxt) + export_kids(
            cs.drop_first(),
            parent_id,
            pos + sz,
            mpos + meta_count(cs.first()),
        )
    }
}

/// The metadata records of the subtree at `n`, in preorder.
pub open spec fn export_metas(n: NodeModel) -> Seq<CMetaModel>
    decreases n,
{
    (match n.meta {
        Some(m) => seq![meta_to_c(m)],
        None => Seq::empty(),
    }) + export_metas_seq(n.children)
}

/// `export_metas` over a forest.
pub open spec fn export_metas_seq(cs: Seq<NodeModel>) -> Seq<CMetaModel>
    decreases cs,
{
    if cs.len() == 0 {
        Seq::empty()
    } else {
        export_metas(cs.first()) + export_metas_seq(cs.drop_first())
    }
}

/// The whole tree in boundary form: records in preorder from the root at
/// position zero, metadata beside them, and the id counter.
pub open spec fn export_tree(t: TreeModel) -> CLayoutModel {
    CLayoutModel {
        nodes: export_recs(t.root, 0, 0, 0, None),
        metas: export_metas(t.root),
        root: Some(0),
        next_id: t.next_id,
    }
}

/// Ghost forms of a metadata arena.
pub open spec fn meta_models(cs: Seq<CMetadata>) -> Seq<CMetaModel>
    decreases cs,
{
    if cs.len() == 0 {
        Seq::empty()
    } else {
        seq![cs.first().model()] + meta_models(cs.drop_first())
    }
}

/// `meta_models` acts pointwise.
pub proof fn lemma_meta_models_index(cs: Seq<CMetadata>)
    ensures
        meta_models(cs).len() == cs.len(),
        forall|i: int| 0 <= i < cs.len() ==> #[trigger] meta_models(cs)[i] == cs[i].model(),
    decreases cs,
{
    if cs.len() == 0 {
    } else {
        lemma_meta_models_index(cs.drop_first());
        assert forall|i: int|
            0 <= i < cs.len() implies #[trigger] meta_models(cs)[i] == cs[i].model() by {
            if i == 0 {
                assert(cs[0] == cs.first());
            } else {
                assert(cs.drop_first()[i - 1] == cs[i]);
                assert(meta_models(cs)[i] == meta_models(cs.drop_first())[i - 1]);
            }
        }
    }
}

/// Encoding and decoding metadata are mutually inverse on the encoded
/// side: re-encoding a decoded record reproduces it.
pub proof fn lemma_meta_roundtrip(c: CMetaModel)
    ensures
        meta_to_c(meta_from_c(c)) == c,
{
}

/// How long the exports are: one record per node, one metadata record
/// per carried metadata.
pub proof fn lemma_export_len(n: NodeModel, pe: usize, pos: int, mpos: int, nxt: Option<usize>)
    ensures
        export_recs(n, pe, pos, mpos, nxt).len() == node_size(n),
        export_metas(n).len() == meta_count(n),
    decreases n,
{
    lemma_export_kids_len(n.children, n.id, pos + 1, mpos + (if n.meta is Some {
        1int
    } else {
        0int
    }));
}

/// Forest version of `lemma_export_len`.
pub proof fn lemma_export_kids_len(cs: Seq<NodeModel>, parent_id: usize, pos: int, mpos: int)
    ensures
        export_kids(cs, parent_id, pos, mpos).len() == node_size_seq(cs),
        export_metas_seq(cs).len() == meta_count_seq(cs),
    decreases cs,
{
    if cs.len() == 0 {
    } else {
        let sz = node_size(cs.first()) as int;
        let nxt: Option<usize> = if cs.len() > 1 {
            Some((pos + sz) as usize)
        } else {
            None
        };
        lemma_export_len(cs.first(), parent_id, pos, mpos, nxt);
        lemma_export_kids_len(cs.drop_first(), parent_id, pos + sz, mpos + meta_count(cs.first()));
    }
}

/// The id fields of an export are the subtree's ids in preorder.
pub proof fn lemma_export_ids(n: NodeModel, pe: usize, pos: int, mpos: int, nxt: Option<usize>)
    ensures
        ({
            let recs = export_recs(n, pe, pos, mpos, nxt);
            &&& recs.len() == id_seq(n).len()
            &&& forall|k: int| 0 <= k < recs.len() ==> #[trigger] recs[k].id == id_seq(n)[k]
        }),
    decreases n,
{
    lemma_export_len(n, pe, pos, mpos, nxt);
    let mb = if n.meta is Some {
        1int
    } else {
        0int
    };
    lemma_export_kids_ids(n.children, n.id, pos + 1, mpos + mb);
    let recs = export_recs(n, pe, pos, mpos, nxt);
    assert(id_seq(n) == seq![n.id] + id_seq_seq(n.children));
    assert(id_seq(n).len() == 1 + id_seq_seq(n.children).len());
    assert forall|k: int| 0 <= k < recs.len() implies #[trigger] recs[k].id == id_seq(n)[k] by {
        if k == 0 {
        } else {
            assert(recs[k] == export_kids(n.children, n.id, pos + 1, mpos + mb)[k - 1]);
            assert(id_seq(n)[k] == id_seq_seq(n.children)[k - 1]);
        }
    }
}

/// Forest version of `lemma_export_ids`.
pub proof fn lemma_export_kids_ids(cs: Seq<NodeModel>, parent_id: usize, pos: int, mpos: int)
    ensures
        ({
            let recs = export_kids(cs, parent_id, pos, mpos);
            &&& recs.len() == id_seq_seq(cs).len()
            &&& forall|k: int| 0 <= k < recs.len() ==> #[trigger] recs[k].id == id_seq_seq(cs)[k]
        }),
    decreases cs,
{
    if cs.len() == 0 {
    } else {
        let sz = node_size(cs.first()) as int;
        let nxt: Option<usize> = if cs.len() > 1 {
            Some((pos + sz) as usize)
        } else {
            None
        };
        lemma_export_ids(cs.first(), parent_id, pos, mpos, nxt);
        lemma_export_kids_ids(cs.drop_first(), parent_id, pos + sz, mpos + meta_count(cs.first()));
        lemma_export_len(cs.first(), parent_id, pos, mpos, nxt);
        let head = export_recs(cs.first(), parent_id, pos, mpos, nxt);
        let recs = export_kids(cs, parent_id, pos, mpos);
        assert(id_seq_seq(cs) == id_seq(cs.first()) + id_seq_seq(cs.drop_first()));
        assert forall|k: int|
            0 <= k < recs.len() implies #[trigger] recs[k].id == id_seq_seq(cs)[k] by {
            if k < head.len() {
                assert(recs[k] == head[k]);
                assert(id_seq_seq(cs)[k] == id_seq(cs.first())[k]);
            } else {
                assert(recs[k] == export_kids(
                    cs.drop_first(),
                    parent_id,
                    pos + sz,
                    mpos + meta_count(cs.first()),
                )[k - head.len()]);
                assert(id_seq_seq(cs)[k] == id_seq_seq(cs.drop_first())[k - head.len()]);
            }
        }
    }
}

/// The slice of the arenas starting at `(i, m)` is exactly the export of
/// the well-formed subtree `w` under encoded parent `pe`, with `tn` as
/// the subtree root's `next` reference.
pub open spec fn slice_is_export(
    ns: Seq<CContainerNode>,
    ms: Seq<CMetaModel>,
    i: int,
    m: int,
    pe: usize,
    w: NodeModel,
    tn: Option<usize>,
) -> bool {
    &&& wf_node(w)
    &&& w.parent == parent_dec(pe)
    &&& 0 <= i && 0 <= m
    &&& i + node_size(w) <= ns.len()
    &&& m + meta_count(w) <= ms.len()
    &&& ns.subrange(i, i + node_size(w) as int) == export_recs(w, pe, i, m, tn)
    &&& ms.subrange(m, m + meta_count(w) as int) == export_metas(w)
}

/// The slice of the arenas starting at `(i, m)` is exactly the export of
/// the sibling chain `ks` under the parent with id `parent_id`.
pub open spec fn slice_is_export_kids(
    ns: Seq<CContainerNode>,
    ms: Seq<CMetaModel>,
    i: int,
    m: int,
    parent_id: usize,
    ks: Seq<NodeModel>,
) -> bool {
    &&& ks.len() >= 1
    &&& forall|j: int|
        0 <= j < ks.len() ==> wf_node(#[trigger] ks[j]) && ks[j].parent == Some(parent_id)
    &&& 0 <= i && 0 <= m
    &&& i + node_size_seq(ks) <= ns.len()
    &&& m + meta_count_seq(ks) <= ms.len()
    &&& ns.subrange(i, i + node_size_seq(ks) as int) == export_kids(ks, parent_id, i, m)
    &&& ms.subrange(m, m + meta_count_seq(ks) as int) == export_metas_seq(ks)
}

/// What an export slice forces on its head record, and that the child
/// chain of the subtree is itself an export slice.
pub proof fn lemma_slice_head(
    ns: Seq<CContainerNode>,
    ms: Seq<CMetaModel>,
    i: int,
    m: int,
    pe: usize,
    w: NodeModel,
    tn: Option<usize>,
)
    requires
        slice_is_export(ns, ms, i, m, pe, w, tn),
    ensures
        1 <= w.id,
        node_size(w) == 1 + node_size_seq(w.children),
        meta_count(w) == (if w.meta is Some {
            1int
        } else {
            0int
        }) + meta_count_seq(w.children),
        i < ns.len(),
        ns[i].id == w.id,
        ns[i].parent_id == pe,
        ns[i].node_type == kind_tag(w.kind),
        ns[i].attrs == (if w.meta is Some {
            Some(m as usize)
        } else {
            None::<usize>
        }),
        ns[i].child == (if w.children.len() > 0 {
            Some((i + 1) as usize)
        } else {
            None::<usize>
        }),
        ns[i].next == tn,
        w.meta is Some ==> m < ms.len() && ms[m] == meta_to_c(w.meta->0),
        w.children.len() > 0 ==> slice_is_export_kids(
            ns,
            ms,
            i + 1,
            m + (if w.meta is Some {
                1int
            } else {
                0int
            }),
            w.id,
            w.children,
        ),
{
    lemma_export_len(w, pe, i, m, tn);
    let mb: int = if w.meta is Some {
        1int
    } else {
        0int
    };
    lemma_export_kids_len(w.children, w.id, i + 1, m + mb);
    let recs = export_recs(w, pe, i, m, tn);
    let sub = ns.subrange(i, i + node_size(w) as int);
    assert(sub[0] == ns[i]);
    assert(recs[0] == sub[0]);
    let msub = ms.subrange(m, m + meta_count(w) as int);
    if w.meta is Some {
        assert(export_metas(w)[0] == meta_to_c(w.meta->0));
        assert(msub[0] == ms[m]);
    }
    if w.children.len() > 0 {
        let kids = export_kids(w.children, w.id, i + 1, m + mb);
        assert(ns.subrange(i + 1, i + 1 + node_size_seq(w.children) as int) =~= export_kids(
            w.children,
            w.id,
            i + 1,
            m + mb,
        )) by {
            assert forall|k: int|
                0 <= k < node_size_seq(w.children) implies ns[i + 1 + k] == kids[k] by {
                assert(sub[1 + k] == ns[i + 1 + k]);
                assert(recs[1 + k] == kids[k]);
            }
        }
        let km = export_metas_seq(w.children);
        assert(ms.subrange(m + mb, m + mb + meta_count_seq(w.children) as int) =~= km) by {
            assert forall|k: int|
                0 <= k < meta_count_seq(w.children) implies ms[m + mb + k] == km[k] by {
                assert(msub[mb + k] == ms[m + mb + k]);
                assert(export_metas(w)[mb + k] == km[k]);
            }
        }
        assert forall|j: int|
            0 <= j < w.children.len() implies wf_node(#[trigger] w.children[j])
            && w.children[j].parent == Some(w.id) by {}
    }
}

/// What an export slice of a sibling chain forces on its first member,
/// and that the remaining members are again an export slice.
pub proof fn lemma_kids_head(
    ns: Seq<CContainerNode>,
    ms: Seq<CMetaModel>,
    i: int,
    m: int,
    parent_id: usize,
    ks: Seq<NodeModel>,
)
    requires
        slice_is_export_kids(ns, ms, i, m, parent_id, ks),
        1 <= parent_id,
    ensures
        slice_is_export(
            ns,
            ms,
            i,
            m,
            parent_id,
            ks[0],
            if ks.len() > 1 {
                Some((i + node_size(ks[0])) as usize)
            } else {
                None
            },
        ),
        node_size_seq(ks) == node_size(ks[0]) + node_size_seq(ks.drop_first()),
        meta_count_seq(ks) == meta_count(ks[0]) + meta_count_seq(ks.drop_first()),
        ks.len() > 1 ==> slice_is_export_kids(
            ns,
            ms,
            i + node_size(ks[0]),
            m + meta_count(ks[0]),
            parent_id,
            ks.drop_first(),
        ),
{
    let w = ks[0];
    assert(ks.first() == w);
    let sz = node_size(w) as int;
    let mc = meta_count(w) as int;
    let tn: Option<usize> = if ks.len() > 1 {
        Some((i + sz) as usize)
    } else {
        None
    };
    let whole = export_kids(ks, parent_id, i, m);
    let head = export_recs(w, parent_id, i, m, tn);
    let tail = export_kids(ks.drop_first(), parent_id, i + sz, m + mc);
    assert(whole == head + tail);
    lemma_export_len(w, parent_id, i, m, tn);
    lemma_export_kids_len(ks.drop_first(), parent_id, i + sz, m + mc);
    let mwhole = export_metas_seq(ks);
    let mhead = export_metas(w);
    let mtail = export_metas_seq(ks.drop_first());
    assert(mwhole == mhead + mtail);
    let sub = ns.subrange(i, i + node_size_seq(ks) as int);
    let msub = ms.subrange(m, m + meta_count_seq(ks) as int);
    assert(ns.subrange(i, i + sz) =~= head) by {
        assert forall|k: int| 0 <= k < sz implies ns[i + k] == head[k] by {
            assert(sub[k] == ns[i + k]);
            assert(whole[k] == head[k]);
        }
    }
    assert(ms.subrange(m, m + mc) =~= mhead) by {
        assert forall|k: int| 0 <= k < mc implies ms[m + k] == mhead[k] by {
            assert(msub[k] == ms[m + k]);
            assert(mwhole[k] == mhead[k]);
        }
    }
    assert(w.parent == Some(parent_id));
    assert(parent_dec(parent_id) == Some(parent_id));
    if ks.len() > 1 {
        assert(ns.subrange(i + sz, i + sz + node_size_seq(ks.drop_first()) as int) =~= tail) by {
            assert forall|k: int|
                0 <= k < node_size_seq(ks.drop_first()) implies ns[i + sz + k] == tail[k] by {
                assert(sub[sz + k] == ns[i + sz + k]);
                assert(whole[sz + k] == tail[k]);
            }
        }
        assert(ms.subrange(m + mc, m + mc + meta_count_seq(ks.drop_first()) as int) =~= mtail) by {
            assert forall|k: int|
                0 <= k < meta_count_seq(ks.drop_first()) implies ms[m + mc + k] == mtail[k] by {
                assert(msub[mc + k] == ms[m + mc + k]);
                assert(mwhole[mc + k] == mtail[k]);
            }
        }
        assert forall|j: int|
            0 <= j < ks.drop_first().len() implies wf_node(#[trigger] ks.drop_first()[j])
            && ks.drop_first()[j].parent == Some(parent_id) by {
            assert(ks.drop_first()[j] == ks[j + 1]);
            assert(wf_node(ks[j + 1]) && ks[j + 1].parent == Some(parent_id));
        }
    }
}

/// Number of nodes in the subtree, as a machine integer.
#[verifier::loop_isolation(false)]
fn subtree_size(node: &ContainerNode) -> (r: usize)
    requires
        node_size(node.model()) <= usize::MAX,
    ensures
        r == node_size(node.model()),
    decreases node_size(node.model()),
{
    let ghost m = node.model();
    proof {
        ContainerNode::lemma_models_index(node.children@);
        assert(node_size(m) == 1 + node_size_seq(m.children));
    }
    let num = node.children.len();
    let mut total: usize = 1;
    let mut i: usize = 0;
    proof {
        assert(m.children.skip(0) =~= m.children);
    }
    while i < num
        invariant
            i <= num,
            total + node_size_seq(m.children.skip(i as int)) == node_size(m),
        decreases num - i,
    {
        proof {
            crate::lemmas::lemma_size_in_seq(m.children, i as int);
            assert(m.children.skip(i as int).first() == m.children[i as int]);
            assert(m.children.skip(i as int).drop_first() =~= m.children.skip(i as int + 1));
            assert(node_size_seq(m.children.skip(i as int)) == node_size(m.children[i as int])
                + node_size_seq(m.children.skip(i as int + 1)));
        }
        let sz = subtree_size(&node.children[i]);
        total = total + sz;
        i = i + 1;
    }
    proof {
        assert(m.children.skip(num as int) =~= Seq::<NodeModel>::empty());
    }
    total
}

/// Appends the subtree's records and metadata to the arenas: the node at
/// the current end of the record arena, its metadata at the current end
/// of the metadata arena, its children after it in preorder.
#[verifier::loop_isolation(false)]
#[verifier::rlimit(60)]
fn export_into(
    node: &ContainerNode,
    pe: usize,
    nxt: Option<usize>,
    nodes: &mut Vec<CContainerNode>,
    metas: &mut Vec<CMetadata>,
)
    requires
        old(nodes)@.len() + node_size(node.model()) <= usize::MAX,
        old(metas)@.len() + meta_count(node.model()) <= usize::MAX,
    ensures
        final(nodes)@ == old(nodes)@ + export_recs(
            node.model(),
            pe,
            old(nodes)@.len() as int,
            old(metas)@.len() as int,
            nxt,
        ),
        meta_models(final(metas)@) == meta_models(old(metas)@) + export_metas(node.model()),
    decreases node_size(node.model()),
{
    let ghost m = node.model();
    let ghost oldn = nodes@;
    let ghost oldmm = meta_models(metas@);
    proof {
        ContainerNode::lemma_models_index(node.children@);
        assert(node_size(m) == 1 + node_size_seq(m.children));
        assert(meta_count(m) == (if m.meta is Some {
            1nat
        } else {
            0nat
        }) + meta_count_seq(m.children));
        lemma_meta_models_index(metas@);
    }
    let pos = nodes.len();
    let mpos = metas.len();
    let attrs_ref: Option<usize> = match &node.attrs {
        Some(md) => {
            metas.push(CMetadata::to_c(md));
            Some(mpos)
        },
        None => None,
    };
    proof {
        lemma_meta_models_index(metas@);
        assert(meta_models(metas@) =~= oldmm + (match m.meta {
            Some(mm) => seq![meta_to_c(mm)],
            None => Seq::<CMetaModel>::empty(),
        }));
    }
    let tag: usize = match node.node_type {
        NodeType::Split(SplitDirection::Horizontal) => 0,
        NodeType::Split(SplitDirection::Vertical) => 1,
        NodeType::Window => 2,
    };
    let child_ref: Option<usize> = if node.children.len() > 0 {
        Some(pos + 1)
    } else {
        None
    };
    let rec = CContainerNode {
        id: node.id,
        parent_id: pe,
        node_type: tag,
        attrs: attrs_ref,
        child: child_ref,
        next: nxt,
    };
    nodes.push(rec);
    let ghost mpos2 = mpos + (if m.meta is Some {
        1int
    } else {
        0int
    });
    let num = node.children.len();
    let mut i: usize = 0;
    proof {
        assert(nodes@ =~= oldn + seq![rec]);
        assert(m.children.skip(0) =~= m.children);
    }
    while i < num
        invariant
            i <= num,
            nodes@.len() + node_size_seq(m.children.skip(i as int)) == pos + node_size(m),
            meta_models(metas@).len() + meta_count_seq(m.children.skip(i as int)) == mpos
                + meta_count(m),
            nodes@ + export_kids(
                m.children.skip(i as int),
                m.id,
                nodes@.len() as int,
                meta_models(metas@).len() as int,
            ) == oldn + export_recs(m, pe, pos as int, mpos as int, nxt),
            meta_models(metas@) + export_metas_seq(m.children.skip(i as int)) == oldmm
                + export_metas(m),
        decreases num - i,
    {
        let ghost rem = m.children.skip(i as int);
        let ghost cm = m.children[i as int];
        let ghost pren = nodes@;
        let ghost premm = meta_models(metas@);
        proof {
            crate::lemmas::lemma_size_in_seq(m.children, i as int);
            assert(rem.first() == cm);
            assert(rem.drop_first() =~= m.children.skip(i as int + 1));
            assert(node_size_seq(rem) == node_size(cm) + node_size_seq(rem.drop_first()));
            assert(meta_count_seq(rem) == meta_count(cm) + meta_count_seq(rem.drop_first()));
            lemma_meta_models_index(metas@);
            assert(premm.len() == metas@.len());
        }
        let child = &node.children[i];
        let sz = subtree_size(child);
        let nxt_i: Option<usize> = if i + 1 < num {
            Some(nodes.len() + sz)
        } else {
            None
        };
        proof {
            assert(child.model() == cm);
            assert(rem.len() == num - i);
            assert((rem.len() > 1) == (i + 1 < num));
        }
        export_into(child, node.id, nxt_i, nodes, metas);
        proof {
            let head = export_recs(cm, m.id, pren.len() as int, premm.len() as int, nxt_i);
            let tail = export_kids(
                rem.drop_first(),
                m.id,
                pren.len() + node_size(cm) as int,
                premm.len() + meta_count(cm) as int,
            );
            assert(nodes@ == pren + head);
            assert(export_kids(rem, m.id, pren.len() as int, premm.len() as int) == head + tail);
            assert((pren + head) + tail =~= pren + (head + tail));
            assert(nodes@ + tail =~= pren + export_kids(
                rem,
                m.id,
                pren.len() as int,
                premm.len() as int,
            ));
            lemma_export_len(cm, m.id, pren.len() as int, premm.len() as int, nxt_i);
            assert(nodes@.len() == pren.len() + node_size(cm));
            assert(meta_models(metas@).len() == premm.len() + meta_count(cm));
            let mhead = export_metas(cm);
            let mtail = export_metas_seq(rem.drop_first());
            assert(meta_models(metas@) == premm + mhead);
            assert(export_metas_seq(rem) == mhead + mtail);
            assert((premm + mhead) + mtail =~= premm + (mhead + mtail));
            assert(meta_models(metas@) + mtail =~= premm + export_metas_seq(rem));
        }
        i = i + 1;
    }
    proof {
        assert(m.children.skip(num as int) =~= Seq::<NodeModel>::empty());
        assert(export_kids(
            m.children.skip(num as int),
            m.id,
            nodes@.len() as int,
            meta_models(metas@).len() as int,
        ) =~= Seq::<CContainerNode>::empty());
        assert(export_metas_seq(m.children.skip(num as int)) =~= Seq::<CMetaModel>::empty());
        assert(nodes@ =~= nodes@ + Seq::<CContainerNode>::empty());
        assert(meta_models(metas@) =~= meta_models(metas@) + Seq::<CMetaModel>::empty());
    }
}

/// Reads the subtree encoded at record `i` with metadata cursor `m`,
/// expecting the encoded parent `pe`. Accepts exactly the canonical
/// export layout: on success the parsed node re-exports to the slice it
/// was read from, and any slice that is an export is accepted whole.
#[verifier::loop_isolation(false)]
#[verifier::rlimit(60)]
fn parse_rec(
    nodes: &Vec<CContainerNode>,
    metas: &Vec<CMetadata>,
    i: usize,
    m: usize,
    pe: usize,
) -> (res: Option<(ContainerNode, usize, usize)>)
    requires
        i <= nodes@.len(),
        m <= metas@.len(),
    ensures
        ({
            let ns = nodes@;
            let ms = meta_models(metas@);
            &&& (match res {
                Some(r) => {
                    &&& i < r.1 <= ns.len()
                    &&& m <= r.2 <= ms.len()
                    &&& wf_node(r.0.model())
                    &&& r.0.model().parent == parent_dec(pe)
                    &&& node_size(r.0.model()) == r.1 - i
                    &&& meta_count(r.0.model()) == r.2 - m
                    &&& ns.subrange(i as int, r.1 as int) == export_recs(
                        r.0.model(),
                        pe,
                        i as int,
                        m as int,
                        ns[i as int].next,
                    )
                    &&& ms.subrange(m as int, r.2 as int) == export_metas(r.0.model())
                },
                None => true,
            })
            &&& forall|w: NodeModel, tn: Option<usize>|
                slice_is_export(ns, ms, i as int, m as int, pe, w, tn) ==> res is Some
                    && (res->0).1 == i + node_size(w) && (res->0).2 == m + meta_count(w)
        }),
    decreases nodes@.len() - i, 0int,
{
    let ghost ns = nodes@;
    let ghost ms = meta_models(metas@);
    proof {
        lemma_meta_models_index(metas@);
        assert forall|w: NodeModel, tn: Option<usize>|
            slice_is_export(ns, ms, i as int, m as int, pe, w, tn) implies i < ns.len() by {
            lemma_slice_head(ns, ms, i as int, m as int, pe, w, tn);
        }
    }
    if i >= nodes.len() {
        return None;
    }
    let rec = nodes[i];
    proof {
        assert forall|w: NodeModel, tn: Option<usize>|
            slice_is_export(ns, ms, i as int, m as int, pe, w, tn) implies ns[i as int].parent_id
            == pe && ns[i as int].id >= 1 && ns[i as int].node_type == kind_tag(w.kind) by {
            lemma_slice_head(ns, ms, i as int, m as int, pe, w, tn);
        }
    }
    if rec.parent_id != pe || rec.id == 0 {
        return None;
    }
    let kind: NodeType = if rec.node_type == 0 {
        NodeType::Split(SplitDirection::Horizontal)
    } else if rec.node_type == 1 {
        NodeType::Split(SplitDirection::Vertical)
    } else if rec.node_type == 2 {
        NodeType::Window
    } else {
        proof {
            assert forall|w: NodeModel, tn: Option<usize>|
                !slice_is_export(ns, ms, i as int, m as int, pe, w, tn) by {
                if slice_is_export(ns, ms, i as int, m as int, pe, w, tn) {
                    lemma_slice_head(ns, ms, i as int, m as int, pe, w, tn);
                }
            }
        }
        return None;
    };
    proof {
        assert forall|w: NodeModel, tn: Option<usize>|
            slice_is_export(ns, ms, i as int, m as int, pe, w, tn) implies w.kind == kind && w.id
            == rec.id && ns[i as int].attrs == (if w.meta is Some {
            Some(m as usize)
        } else {
            None::<usize>
        }) && ns[i as int].child == (if w.children.len() > 0 {
            Some((i + 1) as usize)
        } else {
            None::<usize>
        }) && (w.meta is Some ==> m < ms.len() && ms[m as int] == meta_to_c(w.meta->0)) by {
            lemma_slice_head(ns, ms, i as int, m as int, pe, w, tn);
        }
    }
    let mut m2 = m;
    let meta: Option<Metadata> = match rec.attrs {
        Some(mi) => {
            if mi != m || m >= metas.len() {
                return None;
            }
            m2 = m + 1;
            Some(CMetadata::from_c(&metas[m]))
        },
        None => None,
    };
    let is_window = match kind {
        NodeType::Window => true,
        NodeType::Split(_) => false,
    };
    if !is_window && meta.is_some() {
        return None;
    }
    match rec.child {
        None => {
            if !is_window {
                return None;
            }
            let node = ContainerNode {
                id: rec.id,
                parent_id: if pe == 0 {
                    None
                } else {
                    Some(pe)
                },
                node_type: kind,
                attrs: meta,
                children: Vec::new(),
            };
            proof {
                let nm = node.model();
                assert(nm.children =~= Seq::<NodeModel>::empty());
                assert(node_size(nm) == 1);
                assert(meta_count(nm) == m2 - m);
                assert(wf_node(nm));
                lemma_meta_roundtrip(ms[m as int]);
                assert(export_kids(nm.children, nm.id, i + 1, m2 as int) =~= Seq::<
                    CContainerNode,
                >::empty());
                assert(ns.subrange(i as int, i + 1) =~= export_recs(
                    nm,
                    pe,
                    i as int,
                    m as int,
                    ns[i as int].next,
                )) by {
                    assert(ns.subrange(i as int, i + 1)[0] == rec);
                }
                assert(ms.subrange(m as int, m2 as int) =~= export_metas(nm));
            }
            Some((node, i + 1, m2))
        },
        Some(c) => {
            if is_window {
                return None;
            }
            if c != i + 1 {
                return None;
            }
            let kids_res = parse_kids(nodes, metas, i + 1, m2, rec.id);
            proof {
                assert forall|w: NodeModel, tn: Option<usize>|
                    slice_is_export(ns, ms, i as int, m as int, pe, w, tn) implies w.children.len()
                    > 0 && slice_is_export_kids(
                    ns,
                    ms,
                    i + 1,
                    m2 as int,
                    rec.id,
                    w.children,
                ) by {
                    lemma_slice_head(ns, ms, i as int, m as int, pe, w, tn);
                }
            }
            match kids_res {
                None => None,
                Some((kids, ni, nm2)) => {
                    if kids.len() < 2 {
                        proof {
                            assert forall|w: NodeModel, tn: Option<usize>|
                                !slice_is_export(ns, ms, i as int, m as int, pe, w, tn) by {
                                if slice_is_export(ns, ms, i as int, m as int, pe, w, tn) {
                                    lemma_slice_head(ns, ms, i as int, m as int, pe, w, tn);
                                }
                            }
                        }
                        return None;
                    }
                    let node = ContainerNode {
                        id: rec.id,
                        parent_id: if pe == 0 {
                            None
                        } else {
                            Some(pe)
                        },
                        node_type: kind,
                        attrs: meta,
                        children: kids,
                    };
                    proof {
                        ContainerNode::lemma_models_index(node.children@);
                        let nm = node.model();
                        assert(nm.children == ContainerNode::models(node.children@));
                        assert(nm.children.len() == node.children@.len());
                        assert(node_size(nm) == 1 + node_size_seq(nm.children));
                        assert(meta_count(nm) == meta_count_seq(nm.children) + (m2 - m));
                        assert(wf_node(nm)) by {
                            assert forall|j: int|
                                0 <= j < nm.children.len() implies (#[trigger] nm.children[j]).parent
                                == Some(nm.id) && wf_node(nm.children[j]) by {}
                        }
                        let head = export_recs(nm, pe, i as int, m as int, ns[i as int].next);
                        assert(ns.subrange(i as int, ni as int) =~= head) by {
                            assert(head == seq![ns[i as int]] + export_kids(
                                nm.children,
                                nm.id,
                                i + 1,
                                m2 as int,
                            )) by {
                                assert(head[0] == ns[i as int]);
                                assert(head =~= seq![head[0]] + export_kids(
                                    nm.children,
                                    nm.id,
                                    i + 1,
                                    m2 as int,
                                ));
                            }
                            assert forall|k: int|
                                0 <= k < ni - i implies ns.subrange(i as int, ni as int)[k]
                                == head[k] by {
                                if k == 0 {
                                } else {
                                    assert(head[k] == export_kids(
                                        nm.children,
                                        nm.id,
                                        i + 1,
                                        m2 as int,
                                    )[k - 1]);
                                    assert(ns.subrange(i + 1, ni as int)[k - 1] == ns[i + k]);
                                }
                            }
                        }
                        assert(ms.subrange(m as int, nm2 as int) =~= export_metas(nm)) by {
                            lemma_meta_roundtrip(ms[m as int]);
                            assert forall|k: int|
                                0 <= k < nm2 - m implies ms.subrange(m as int, nm2 as int)[k]
                                == export_metas(nm)[k] by {
                                if k < m2 - m {
                                } else {
                                    assert(export_metas(nm)[k] == export_metas_seq(nm.children)[
                                        k - (m2 - m)
                                    ]);
                                    assert(ms.subrange(m2 as int, nm2 as int)[k - (m2 - m)] == ms[
                                        m + k
                                    ]);
                                }
                            }
                        }
                    }
                    Some((node, ni, nm2))
                },
            }
        },
    }
}

/// Reads the sibling chain starting at record `i`: one subtree per
/// sibling, each `next` reference naming the position after that
/// sibling's subtree, the last one absent.
#[verifier::loop_isolation(false)]
#[verifier::rlimit(60)]
fn parse_kids(
    nodes: &Vec<CContainerNode>,
    metas: &Vec<CMetadata>,
    i: usize,
    m: usize,
    parent_id: usize,
) -> (res: Option<(Vec<ContainerNode>, usize, usize)>)
    requires
        i <= nodes@.len(),
        m <= metas@.len(),
        1 <= parent_id,
    ensures
        ({
            let ns = nodes@;
            let ms = meta_models(metas@);
            &&& (match res {
                Some(r) => {
                    let ks = ContainerNode::models(r.0@);
                    &&& r.0@.len() >= 1
                    &&& i < r.1 <= ns.len()
                    &&& m <= r.2 <= ms.len()
                    &&& forall|j: int|
                        0 <= j < ks.len() ==> wf_node(#[trigger] ks[j]) && ks[j].parent == Some(
                            parent_id,
                        )
                    &&& node_size_seq(ks) == r.1 - i
                    &&& meta_count_seq(ks) == r.2 - m
                    &&& ns.subrange(i as int, r.1 as int) == export_kids(
                        ks,
                        parent_id,
                        i as int,
                        m as int,
                    )
                    &&& ms.subrange(m as int, r.2 as int) == export_metas_seq(ks)
                },
                None => true,
            })
            &&& forall|ks: Seq<NodeModel>|
                slice_is_export_kids(ns, ms, i as int, m as int, parent_id, ks) ==> res is Some
                    && (res->0).0@.len() == ks.len() && (res->0).1 == i + node_size_seq(ks)
                    && (res->0).2 == m + meta_count_seq(ks)
        }),
    decreases nodes@.len() - i, 1int,
{
    let ghost ns = nodes@;
    let ghost ms = meta_models(metas@);
    proof {
        lemma_meta_models_index(metas@);
        assert forall|ks: Seq<NodeModel>|
            slice_is_export_kids(ns, ms, i as int, m as int, parent_id, ks) implies slice_is_export(
            ns,
            ms,
            i as int,
            m as int,
            parent_id,
            ks[0],
            if ks.len() > 1 {
                Some((i + node_size(ks[0])) as usize)
            } else {
                None
            },
        ) by {
            lemma_kids_head(ns, ms, i as int, m as int, parent_id, ks);
        }
    }
    let first_res = parse_rec(nodes, metas, i, m, parent_id);
    match first_res {
        None => None,
        Some((c, ni, nm)) => {
            let ghost cm = c.model();
            let nx = nodes[i].next;
            proof {
                assert forall|ks: Seq<NodeModel>|
                    slice_is_export_kids(ns, ms, i as int, m as int, parent_id, ks) implies (
                ks.len() > 1 <==> nx is Some) && node_size_seq(ks) == node_size(ks[0])
                    + node_size_seq(ks.drop_first()) && meta_count_seq(ks) == meta_count(ks[0])
                    + meta_count_seq(ks.drop_first()) && (ks.len() == 1
                    ==> node_size_seq(ks.drop_first()) == 0 && meta_count_seq(ks.drop_first())
                    == 0) && (ks.len() > 1 ==> nx == Some(ni) && ni == i + node_size(ks[0]) && nm
                    == m + meta_count(ks[0]) && slice_is_export_kids(
                    ns,
                    ms,
                    ni as int,
                    nm as int,
                    parent_id,
                    ks.drop_first(),
                )) by {
                    lemma_kids_head(ns, ms, i as int, m as int, parent_id, ks);
                    let tn: Option<usize> = if ks.len() > 1 {
                        Some((i + node_size(ks[0])) as usize)
                    } else {
                        None
                    };
                    lemma_slice_head(ns, ms, i as int, m as int, parent_id, ks[0], tn);
                    if ks.len() == 1 {
                        assert(ks.drop_first() =~= Seq::<NodeModel>::empty());
                        assert(node_size_seq(ks.drop_first()) == 0);
                        assert(meta_count_seq(ks.drop_first()) == 0);
                    }
                }
            }
            match nx {
                None => {
                    let mut v: Vec<ContainerNode> = Vec::new();
                    v.push(c);
                    proof {
                        ContainerNode::lemma_models_index(v@);
                        let ks = ContainerNode::models(v@);
                        assert(ks.len() == 1);
                        assert(ks[0] == cm);
                        assert(ks =~= seq![cm]);
                        assert(ks.first() == cm);
                        assert(ks.drop_first() =~= Seq::<NodeModel>::empty());
                        assert(node_size_seq(ks) == node_size(ks.first()) + node_size_seq(
                            ks.drop_first(),
                        ));
                        assert(node_size_seq(ks.drop_first()) == 0);
                        assert(node_size_seq(ks) == node_size(cm));
                        assert(meta_count_seq(ks.drop_first()) == 0);
                        assert(meta_count_seq(ks) == meta_count(cm));
                        assert(export_kids(ks, parent_id, i as int, m as int) == export_recs(
                            cm,
                            parent_id,
                            i as int,
                            m as int,
                            None,
                        ) + export_kids(
                            ks.drop_first(),
                            parent_id,
                            i + node_size(cm) as int,
                            m + meta_count(cm) as int,
                        ));
                        assert(export_kids(
                            ks.drop_first(),
                            parent_id,
                            i + node_size(cm) as int,
                            m + meta_count(cm) as int,
                        ) =~= Seq::<CContainerNode>::empty());
                        assert(export_kids(ks, parent_id, i as int, m as int) =~= export_recs(
                            cm,
                            parent_id,
                            i as int,
                            m as int,
                            None,
                        ));
                        assert(export_metas_seq(ks) == export_metas(ks.first()) + export_metas_seq(
                            ks.drop_first(),
                        ));
                        assert(export_metas_seq(ks.drop_first()) =~= Seq::<CMetaModel>::empty());
                        assert(export_metas_seq(ks) =~= export_metas(cm));
                        assert forall|j: int|
                            0 <= j < ks.len() implies wf_node(#[trigger] ks[j]) && ks[j].parent
                            == Some(parent_id) by {
                            assert(ks[j] == cm);
                            assert(parent_dec(parent_id) == Some(parent_id));
                        }
                    }
                    Some((v, ni, nm))
                },
                Some(nx_val) => {
                    if nx_val != ni {
                        return None;
                    }
                    let rest_res = parse_kids(nodes, metas, ni, nm, parent_id);
                    match rest_res {
                        None => None,
                        Some((mut rest, ni2, nm2)) => {
                            let ghost restks = ContainerNode::models(rest@);
                            let ghost prerest = rest@;
                            rest.insert(0, c);
                            proof {
                                ContainerNode::lemma_models_index(rest@);
                                ContainerNode::lemma_models_index(prerest);
                                let ks = ContainerNode::models(rest@);
                                assert(rest@ =~= seq![c] + prerest);
                                assert(ks.len() == 1 + restks.len());
                                assert(ks[0] == cm);
                                assert(ks.drop_first() =~= restks) by {
                                    assert forall|j: int|
                                        0 <= j < restks.len() implies ks.drop_first()[j]
                                        == restks[j] by {
                                        assert(rest@[j + 1] == prerest[j]);
                                        assert(ks[j + 1] == prerest[j].model());
                                    }
                                }
                                assert(ks.first() == cm);
                                assert(node_size_seq(ks) == node_size(cm) + node_size_seq(restks));
                                assert(meta_count_seq(ks) == meta_count(cm) + meta_count_seq(
                                    restks,
                                ));
                                let whole = export_kids(ks, parent_id, i as int, m as int);
                                let head = export_recs(
                                    cm,
                                    parent_id,
                                    i as int,
                                    m as int,
                                    Some(ni),
                                );
                                let tail = export_kids(restks, parent_id, ni as int, nm as int);
                                assert(whole == head + tail);
                                assert(ns.subrange(i as int, ni2 as int) =~= whole) by {
                                    assert forall|k: int|
                                        0 <= k < ni2 - i implies ns[i + k] == whole[k] by {
                                        if k < ni - i {
                                            assert(ns.subrange(i as int, ni as int)[k] == ns[i
                                                + k]);
                                            assert(whole[k] == head[k]);
                                        } else {
                                            assert(ns.subrange(ni as int, ni2 as int)[k - (ni - i)]
                                                == ns[i + k]);
                                            assert(whole[k] == tail[k - (ni - i)]);
                                        }
                                    }
                                }
                                assert forall|j: int|
                                    0 <= j < ks.len() implies wf_node(#[trigger] ks[j])
                                    && ks[j].parent == Some(parent_id) by {
                                    if j == 0 {
                                        assert(ks[0] == cm);
                                        assert(parent_dec(parent_id) == Some(parent_id));
                                    } else {
                                        assert(ks[j] == restks[j - 1]);
                                        assert(wf_node(restks[j - 1]));
                                    }
                                }
                                let mwhole = export_metas_seq(ks);
                                let mhead = export_metas(cm);
                                let mtail = export_metas_seq(restks);
                                assert(mwhole == mhead + mtail);
                                assert(ms.subrange(m as int, nm2 as int) =~= mwhole) by {
                                    assert forall|k: int|
                                        0 <= k < nm2 - m implies ms[m + k] == mwhole[k] by {
                                        if k < nm - m {
                                            assert(ms.subrange(m as int, nm as int)[k] == ms[m
                                                + k]);
                                            assert(mwhole[k] == mhead[k]);
                                        } else {
                                            assert(ms.subrange(nm as int, nm2 as int)[k - (nm - m)]
                                                == ms[m + k]);
                                            assert(mwhole[k] == mtail[k - (nm - m)]);
                                        }
                                    }
                                }
                            }
                            Some((rest, ni2, nm2))
                        },
                    }
                },
            }
        },
    }
}

/// Two trees with the same record export carry the same ids in the same
/// places: the export's id fields are the preorder id sequence, so equal
/// exports force equal id inventories and equal root ids.
pub proof fn lemma_same_export_same_ids(a: NodeModel, b: NodeModel)
    requires
        export_recs(a, 0, 0, 0, None) == export_recs(b, 0, 0, 0, None),
    ensures
        a.id == b.id,
        id_seq(a) == id_seq(b),
        forall|x: usize|
            #![trigger contains_id(a, x)]
            #![trigger contains_id(b, x)]
            contains_id(a, x) <==> contains_id(b, x),
{
    lemma_export_ids(a, 0, 0, 0, None);
    lemma_export_ids(b, 0, 0, 0, None);
    let recs = export_recs(a, 0, 0, 0, None);
    assert(id_seq(a) =~= id_seq(b)) by {
        assert forall|k: int| 0 <= k < id_seq(a).len() implies id_seq(a)[k] == id_seq(b)[k] by {
            assert(recs[k].id == id_seq(a)[k]);
            assert(recs[k].id == id_seq(b)[k]);
        }
    }
    assert(id_seq(a)[0] == a.id);
    assert(id_seq(b)[0] == b.id);
}

/// An addition grows the subtree by exactly the minted nodes and by one
/// metadata record when the caller supplied metadata.
pub proof fn lemma_add_size(
    n: NodeModel,
    pid: usize,
    dir: SplitDirection,
    meta: Option<MetaModel>,
    next: usize,
)
    requires
        id_seq(n).no_duplicates(),
    ensures
        node_size(add_at(n, pid, dir, meta, next)) <= node_size(n) + 2,
        meta_count(add_at(n, pid, dir, meta, next)) <= meta_count(n) + 1,
    decreases n,
{
    let r = add_at(n, pid, dir, meta, next);
    if n.id == pid {
        match n.kind {
            NodeType::Window => {
                let c1 = r.children[0];
                let c2 = r.children[1];
                assert(r.children.len() == 2);
                assert(r.children.first() == c1);
                assert(r.children.drop_first() =~= seq![c2]);
                assert(seq![c2].first() == c2);
                assert(seq![c2].drop_first() =~= Seq::<NodeModel>::empty());
                assert(node_size_seq(Seq::<NodeModel>::empty()) == 0);
                assert(meta_count_seq(Seq::<NodeModel>::empty()) == 0);
                assert(node_size_seq(seq![c2]) == node_size(c2));
                assert(meta_count_seq(seq![c2]) == meta_count(c2));
                assert(node_size_seq(r.children) == node_size(c1) + node_size(c2));
                assert(meta_count_seq(r.children) == meta_count(c1) + meta_count(c2));
                assert(c1.children == n.children);
                assert(node_size(c1) == 1 + node_size_seq(n.children));
                assert(meta_count(c1) == (if n.meta is Some {
                    1nat
                } else {
                    0nat
                }) + meta_count_seq(n.children));
                assert(node_size(c2) == 1 && meta_count(c2) == (if meta is Some {
                    1nat
                } else {
                    0nat
                })) by {
                    assert(c2.children =~= Seq::<NodeModel>::empty());
                }
            },
            NodeType::Split(_) => {
                let leaf = r.children[n.children.len() as int];
                lemma_sizes_snoc(n.children, leaf);
                assert(r.children == n.children.push(leaf));
                assert(node_size(leaf) == 1 && meta_count(leaf) == (if meta is Some {
                    1nat
                } else {
                    0nat
                })) by {
                    assert(leaf.children =~= Seq::<NodeModel>::empty());
                }
            },
        }
    } else {
        assert(id_seq(n) == seq![n.id] + id_seq_seq(n.children));
        lemma_nodup_concat(seq![n.id], id_seq_seq(n.children));
        lemma_add_size_seq(n.children, pid, dir, meta, next);
    }
}

/// Forest version of `lemma_add_size`.
pub proof fn lemma_add_size_seq(
    cs: Seq<NodeModel>,
    pid: usize,
    dir: SplitDirection,
    meta: Option<MetaModel>,
    next: usize,
)
    requires
        id_seq_seq(cs).no_duplicates(),
    ensures
        node_size_seq(add_at_seq(cs, pid, dir, meta, next)) <= node_size_seq(cs) + 2,
        meta_count_seq(add_at_seq(cs, pid, dir, meta, next)) <= meta_count_seq(cs) + 1,
    decreases cs,
{
    if cs.len() == 0 {
    } else {
        let fids = id_seq(cs.first());
        let rids = id_seq_seq(cs.drop_first());
        assert(id_seq_seq(cs) == fids + rids);
        lemma_nodup_concat(fids, rids);
        lemma_disjoint_membership(fids, rids);
        lemma_contains_concat(fids, rids, pid);
        crate::lemmas::lemma_forest_contains(cs.drop_first(), pid);
        if contains_id(cs.first(), pid) {
            lemma_add_size(cs.first(), pid, dir, meta, next);
            assert forall|k: int|
                0 <= k < cs.drop_first().len() implies !contains_id(
                #[trigger] cs.drop_first()[k],
                pid,
            ) by {
                if contains_id(cs.drop_first()[k], pid) {
                    assert(rids.contains(pid));
                }
            }
            crate::lemmas::lemma_add_absent_seq(cs.drop_first(), pid, dir, meta, next);
        } else {
            crate::lemmas::lemma_add_absent(cs.first(), pid, dir, meta, next);
            lemma_add_size(cs.first(), pid, dir, meta, next);
            lemma_add_size_seq(cs.drop_first(), pid, dir, meta, next);
        }
        let rs = add_at_seq(cs, pid, dir, meta, next);
        assert(rs == seq![add_at(cs.first(), pid, dir, meta, next)] + add_at_seq(
            cs.drop_first(),
            pid,
            dir,
            meta,
            next,
        ));
        assert(rs.first() == add_at(cs.first(), pid, dir, meta, next));
        assert(rs.drop_first() =~= add_at_seq(cs.drop_first(), pid, dir, meta, next));
        assert(node_size_seq(rs) == node_size(rs.first()) + node_size_seq(rs.drop_first()));
        assert(meta_count_seq(rs) == meta_count(rs.first()) + meta_count_seq(rs.drop_first()));
        assert(node_size_seq(cs) == node_size(cs.first()) + node_size_seq(cs.drop_first()));
        assert(meta_count_seq(cs) == meta_count(cs.first()) + meta_count_seq(cs.drop_first()));
    }
}

/// Sizes of a forest with one tree appended.
pub proof fn lemma_sizes_snoc(cs: Seq<NodeModel>, c: NodeModel)
    ensures
        node_size_seq(cs.push(c)) == node_size_seq(cs) + node_size(c),
        meta_count_seq(cs.push(c)) == meta_count_seq(cs) + meta_count(c),
    decreases cs,
{
    if cs.len() == 0 {
        assert(cs.push(c).len() == 1);
        assert(cs.push(c).first() == c);
        assert(cs.push(c).drop_first() =~= Seq::<NodeModel>::empty());
        assert(node_size_seq(Seq::<NodeModel>::empty()) == 0);
        assert(meta_count_seq(Seq::<NodeModel>::empty()) == 0);
        assert(node_size_seq(cs.push(c)) == node_size(c) + node_size_seq(cs.push(c).drop_first()));
        assert(meta_count_seq(cs.push(c)) == meta_count(c) + meta_count_seq(
            cs.push(c).drop_first(),
        ));
    } else {
        assert(cs.push(c).len() == cs.len() + 1);
        assert(cs.push(c).first() == cs.first());
        assert(cs.push(c).drop_first() =~= cs.drop_first().push(c));
        lemma_sizes_snoc(cs.drop_first(), c);
        assert(node_size_seq(cs.push(c)) == node_size(cs.first()) + node_size_seq(
            cs.drop_first().push(c),
        ));
        assert(meta_count_seq(cs.push(c)) == meta_count(cs.first()) + meta_count_seq(
            cs.drop_first().push(c),
        ));
    }
}

/// A removal never grows the subtree or its metadata count.
pub proof fn lemma_remove_size(n: NodeModel, x: usize)
    ensures
        node_size(remove_at(n, x)) <= node_size(n),
        meta_count(remove_at(n, x)) <= meta_count(n),
    decreases n,
{
    let r = remove_at(n, x);
    if has_direct_child(n, x) {
        crate::lemmas::lemma_direct_child_index(n.children, x);
        let idx = direct_child_index(n.children, x);
        let cs2 = n.children.remove(idx);
        lemma_sizes_remove(n.children, idx);
        if n.kind is Split && cs2.len() == 1 {
            assert(cs2.first() == cs2[0]);
            assert(cs2.drop_first() =~= Seq::<NodeModel>::empty());
            assert(node_size_seq(Seq::<NodeModel>::empty()) == 0);
            assert(meta_count_seq(Seq::<NodeModel>::empty()) == 0);
            assert(node_size_seq(cs2) == node_size(cs2[0]) + node_size_seq(cs2.drop_first()));
            assert(meta_count_seq(cs2) == meta_count(cs2[0]) + meta_count_seq(cs2.drop_first()));
            assert(node_size_seq(cs2) == node_size(cs2[0]));
            assert(meta_count_seq(cs2) == meta_count(cs2[0]));
            assert(node_size(r) == node_size(cs2[0]));
            assert(meta_count(r) == meta_count(cs2[0]));
        }
    } else {
        lemma_remove_size_seq(n.children, x);
    }
}

/// Forest version of `lemma_remove_size`.
pub proof fn lemma_remove_size_seq(cs: Seq<NodeModel>, x: usize)
    ensures
        node_size_seq(remove_at_seq(cs, x)) <= node_size_seq(cs),
        meta_count_seq(remove_at_seq(cs, x)) <= meta_count_seq(cs),
    decreases cs,
{
    if cs.len() == 0 {
    } else {
        lemma_remove_size(cs.first(), x);
        lemma_remove_size_seq(cs.drop_first(), x);
        let rs = remove_at_seq(cs, x);
        assert(rs.first() == remove_at(cs.first(), x));
        assert(rs.drop_first() =~= remove_at_seq(cs.drop_first(), x));
    }
}

/// Sizes of a forest with one tree taken out.
pub proof fn lemma_sizes_remove(cs: Seq<NodeModel>, idx: int)
    requires
        0 <= idx < cs.len(),
    ensures
        node_size_seq(cs.remove(idx)) + node_size(cs[idx]) == node_size_seq(cs),
        meta_count_seq(cs.remove(idx)) + meta_count(cs[idx]) == meta_count_seq(cs),
    decreases cs,
{
    if idx == 0 {
        assert(cs.remove(0) =~= cs.drop_first());
        assert(cs[0] == cs.first());
    } else {
        lemma_sizes_remove(cs.drop_first(), idx - 1);
        assert(cs.remove(idx).first() == cs.first());
        assert(cs.remove(idx).drop_first() =~= cs.drop_first().remove(idx - 1));
        assert(cs.drop_first()[idx - 1] == cs[idx]);
    }
}

impl CContainerNode {
    /// Exports a subtree into fresh arenas: its records in preorder, its
    /// metadata beside them, the encoded parent taken from the node's own
    /// back-reference.
    pub fn to_c(node: &ContainerNode) -> (r: (Vec<CContainerNode>, Vec<CMetadata>))
        requires
            node_size(node.model()) <= usize::MAX,
            meta_count(node.model()) <= usize::MAX,
        ensures
            r.0@ == export_recs(
                node.model(),
                crate::model::opt_or_zero(node.model().parent),
                0,
                0,
                None,
            ),
            meta_models(r.1@) == export_metas(node.model()),
    {
        let mut nodes: Vec<CContainerNode> = Vec::new();
        let mut metas: Vec<CMetadata> = Vec::new();
        let pe: usize = match node.parent_id {
            Some(p) => p,
            None => 0,
        };
        proof {
            assert(meta_models(metas@) =~= Seq::<CMetaModel>::empty());
        }
        export_into(node, pe, None, &mut nodes, &mut metas);
        proof {
            assert(nodes@ =~= export_recs(
                node.model(),
                crate::model::opt_or_zero(node.model().parent),
                0,
                0,
                None,
            ));
            assert(meta_models(metas@) =~= export_metas(node.model()));
        }
        (nodes, metas)
    }

    /// Releases an exported subtree: dropping the arenas frees every
    /// record and every metadata record exactly once.
    pub fn free(nodes: Vec<CContainerNode>, metas: Vec<CMetadata>) {
        let _ = nodes;
        let _ = metas;
    }
}

/// The boundary form of a whole tree: both arenas, the root reference
/// (the record at position zero) and the id counter.
#[derive(Debug)]
pub struct CLayoutTree {
    pub nodes: Vec<CContainerNode>,
    pub metas: Vec<CMetadata>,
    pub root: Option<usize>,
    pub next_id: usize,
}

impl CLayoutTree {
    /// Ghost form of this boundary tree.
    pub open spec fn model(&self) -> CLayoutModel {
        CLayoutModel {
            nodes: self.nodes@,
            metas: meta_models(self.metas@),
            root: self.root,
            next_id: self.next_id,
        }
    }

    /// Exports an owned tree into boundary form.
    pub fn export(tree: &LayoutTree) -> (r: CLayoutTree)
        requires
            node_size(tree.model().root) <= usize::MAX,
            meta_count(tree.model().root) <= usize::MAX,
        ensures
            r.model() == export_tree(tree.model()),
    {
        let mut nodes: Vec<CContainerNode> = Vec::new();
        let mut metas: Vec<CMetadata> = Vec::new();
        proof {
            assert(meta_models(metas@) =~= Seq::<CMetaModel>::empty());
        }
        export_into(tree.get_root(), 0, None, &mut nodes, &mut metas);
        let r = CLayoutTree { nodes, metas, root: Some(0), next_id: tree.get_id() };
        proof {
            assert(r.nodes@ =~= export_recs(tree.model().root, 0, 0, 0, None));
            assert(meta_models(r.metas@) =~= export_metas(tree.model().root));
            assert(r.model() =~= export_tree(tree.model()));
        }
        r
    }

    /// Overwrites the exported graph: the caller's arenas and root
    /// reference are replaced wholesale; the counter stays.
    pub fn set_root(&mut self, nodes: Vec<CContainerNode>, metas: Vec<CMetadata>, root: Option<
        usize,
    >)
        ensures
            final(self).model() == (CLayoutModel {
                nodes: nodes@,
                metas: meta_models(metas@),
                root,
                ..old(self).model()
            }),
    {
        self.nodes = nodes;
        self.metas = metas;
        self.root = root;
        proof {
            assert(self.model() =~= CLayoutModel {
                nodes: self.nodes@,
                metas: meta_models(self.metas@),
                root,
                ..old(self).model()
            });
        }
    }

    /// Overwrites the id counter carried across the boundary.
    pub fn set_next_id(&mut self, next_id: usize)
        ensures
            final(self).model() == (CLayoutModel { next_id, ..old(self).model() }),
    {
        self.next_id = next_id;
        proof {
            assert(self.model() =~= CLayoutModel { next_id, ..old(self).model() });
        }
    }

    /// Releases a boundary tree; an absent handle is a no-op. Dropping
    /// the arenas frees every record exactly once.
    pub fn free(tree: Option<CLayoutTree>) {
        let _ = tree;
    }

    /// Imports a boundary graph, rebuilding an owned, well-formed tree.
    /// Exactly the canonical exports are accepted: when the import
    /// answers, exporting its answer reproduces the input graph, and on
    /// every export of a well-formed tree it answers.
    #[verifier::loop_isolation(false)]
    #[verifier::rlimit(60)]
    pub fn from_c(clayout: &CLayoutTree) -> (r: Option<LayoutTree>)
        ensures
            match r {
                Some(t) => t.wf() && export_tree(t.model()) == clayout.model(),
                None => forall|tm: TreeModel|
                    wf_tree(tm) ==> export_tree(tm) != clayout.model(),
            },
    {
        let ghost cm = clayout.model();
        proof {
            lemma_meta_models_index(clayout.metas@);
            assert forall|tm: TreeModel|
                wf_tree(tm) && export_tree(tm) == cm implies slice_is_export(
                cm.nodes,
                cm.metas,
                0,
                0,
                0,
                tm.root,
                None,
            ) && cm.root == Some(0usize) && node_size(tm.root) == cm.nodes.len() && meta_count(tm.root)
                == cm.metas.len() && ids_le(tm.root, cm.next_id) && id_seq(
                tm.root,
            ).no_duplicates() by {
                lemma_export_len(tm.root, 0, 0, 0, None);
                assert(cm.nodes.subrange(0, cm.nodes.len() as int) =~= cm.nodes);
                assert(cm.metas.subrange(0, cm.metas.len() as int) =~= cm.metas);
            }
        }
        let rp = match clayout.root {
            Some(rp) => rp,
            None => {
                return None;
            },
        };
        if rp != 0 {
            return None;
        }
        let parse = parse_rec(&clayout.nodes, &clayout.metas, 0, 0, 0);
        let (node, ni, nm) = match parse {
            Some(x) => x,
            None => {
                return None;
            },
        };
        if ni != clayout.nodes.len() || nm != clayout.metas.len() {
            return None;
        }
        if clayout.nodes[0].next.is_some() {
            return None;
        }
        let n_len = clayout.nodes.len();
        let mut i: usize = 0;
        while i < n_len
            invariant
                i <= n_len,
                forall|a: int, b: int|
                    0 <= a < i && a < b < n_len ==> cm.nodes[a].id != cm.nodes[b].id,
                forall|a: int| 0 <= a < i ==> cm.nodes[a].id <= cm.next_id,
            decreases n_len - i,
        {
            if clayout.nodes[i].id > clayout.next_id {
                proof {
                    lemma_export_ids_for_input(cm, i as int);
                }
                return None;
            }
            let mut j: usize = i + 1;
            while j < n_len
                invariant
                    i < j <= n_len,
                    forall|b: int| i < b < j ==> cm.nodes[i as int].id != cm.nodes[b].id,
                decreases n_len - j,
            {
                if clayout.nodes[i].id == clayout.nodes[j].id {
                    proof {
                        lemma_export_ids_for_input2(cm, i as int, j as int);
                    }
                    return None;
                }
                j = j + 1;
            }
            i = i + 1;
        }
        let t = LayoutTree { root: node, next_id: clayout.next_id };
        proof {
            let nmm = node.model();
            assert(cm.nodes.subrange(0, ni as int) =~= cm.nodes);
            assert(cm.metas.subrange(0, nm as int) =~= cm.metas);
            assert(cm.nodes == export_recs(nmm, 0, 0, 0, cm.nodes[0].next));
            assert(cm.nodes[0].next is None);
            lemma_export_ids(nmm, 0, 0, 0, None);
            assert(id_seq(nmm).no_duplicates()) by {
                assert forall|a: int, b: int|
                    0 <= a < id_seq(nmm).len() && 0 <= b < id_seq(nmm).len() && a != b implies
                    id_seq(nmm)[a] != id_seq(nmm)[b] by {
                    assert(cm.nodes[a].id == id_seq(nmm)[a]);
                    assert(cm.nodes[b].id == id_seq(nmm)[b]);
                }
            }
            assert(ids_le(nmm, cm.next_id)) by {
                assert forall|x: usize| #[trigger] contains_id(nmm, x) implies x <= cm.next_id by {
                    let k = choose|k: int| 0 <= k < id_seq(nmm).len() && id_seq(nmm)[k] == x;
                    assert(cm.nodes[k].id == x);
                }
            }
            assert(t.wf());
            assert(export_tree(t.model()) =~= cm);
        }
        Some(t)
    }

    /// A fresh boundary tree whose single window carries the given
    /// metadata; absent metadata gives no tree.
    pub fn new(cmetadata: Option<&CMetadata>) -> (r: Option<CLayoutTree>)
        ensures
            r is Some <==> cmetadata is Some,
            match r {
                Some(ct) => exists|tm: TreeModel|
                    {
                        &&& wf_tree(tm)
                        &&& tm.root.kind == NodeType::Window
                        &&& tm.root.meta == Some(
                            meta_from_c(cmetadata->0.model()),
                        )
                        &&& tm.root.children == Seq::<NodeModel>::empty()
                        &&& tm.next_id == tm.root.id
                        &&& #[trigger] ct.model() == export_tree(tm)
                    },
                None => true,
            },
    {
        match cmetadata {
            None => None,
            Some(c) => {
                let meta = CMetadata::from_c(c);
                let tree = LayoutTree::new(&meta);
                proof {
                    assert(node_size(tree.model().root) == 1) by {
                        assert(node_size_seq(tree.model().root.children) == 0);
                    }
                    assert(meta_count(tree.model().root) == 1) by {
                        assert(meta_count_seq(tree.model().root.children) == 0);
                    }
                }
                let ct = Self::export(&tree);
                proof {
                    assert(wf_tree(tree.model()) && ct.model() == export_tree(tree.model()));
                }
                Some(ct)
            },
        }
    }
}

/// If the input were an export of a well-formed tree, record `i` would
/// carry an id within the counter's bound.
proof fn lemma_export_ids_for_input(cm: CLayoutModel, i: int)
    requires
        forall|tm: TreeModel|
            wf_tree(tm) && export_tree(tm) == cm ==> node_size(tm.root) == cm.nodes.len()
                && ids_le(tm.root, cm.next_id) && id_seq(tm.root).no_duplicates(),
        0 <= i < cm.nodes.len(),
    ensures
        forall|tm: TreeModel|
            wf_tree(tm) && export_tree(tm) == cm ==> cm.nodes[i].id <= cm.next_id,
{
    assert forall|tm: TreeModel|
        wf_tree(tm) && export_tree(tm) == cm implies cm.nodes[i].id <= cm.next_id by {
        lemma_export_ids(tm.root, 0, 0, 0, None);
        assert(cm.nodes[i].id == id_seq(tm.root)[i]);
        assert(contains_id(tm.root, id_seq(tm.root)[i])) by {
            assert(id_seq(tm.root).contains(id_seq(tm.root)[i]));
        }
    }
}

/// If the input were an export of a well-formed tree, records `i` and
/// `j` would carry distinct ids.
proof fn lemma_export_ids_for_input2(cm: CLayoutModel, i: int, j: int)
    requires
        forall|tm: TreeModel|
            wf_tree(tm) && export_tree(tm) == cm ==> node_size(tm.root) == cm.nodes.len()
                && ids_le(tm.root, cm.next_id) && id_seq(tm.root).no_duplicates(),
        0 <= i < cm.nodes.len(),
        0 <= j < cm.nodes.len(),
        i != j,
    ensures
        forall|tm: TreeModel|
            wf_tree(tm) && export_tree(tm) == cm ==> cm.nodes[i].id != cm.nodes[j].id,
{
    assert forall|tm: TreeModel|
        wf_tree(tm) && export_tree(tm) == cm implies cm.nodes[i].id != cm.nodes[j].id by {
        lemma_export_ids(tm.root, 0, 0, 0, None);
        assert(cm.nodes[i].id == id_seq(tm.root)[i]);
        assert(cm.nodes[j].id == id_seq(tm.root)[j]);
    }
}

} // verus!
