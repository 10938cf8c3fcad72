//! Proofs about the ghost model: how `add_at` and `remove_at` act on the
//! id inventory and on well-formedness.

use vstd::prelude::*;

verus! {

use crate::model::{
    MetaModel, NodeModel, TreeModel, add_at, add_at_seq, contains_id, direct_child_index,
    has_direct_child, id_seq, id_seq_seq, ids_le, kind_of, kind_of_seq, mint_count, new_leaf,
    node_size, node_size_seq, remove_at, remove_at_seq, wf_node, wf_tree,
};
use crate::tiler::{NodeType, SplitDirection};

/// Concatenation is duplicate-free exactly when both halves are and they
/// share no element.
pub proof fn lemma_nodup_concat<A>(a: Seq<A>, b: Seq<A>)
    ensures
        (a + b).no_duplicates() <==> (a.no_duplicates() && b.no_duplicates() && a.disjoint(b)),
{
    let c = a + b;
    if c.no_duplicates() {
        assert forall|i: int, j: int|
            0 <= i < a.len() && 0 <= j < a.len() && i != j implies a[i] != a[j] by {
            assert(c[i] == a[i]);
            assert(c[j] == a[j]);
        }
        assert forall|i: int, j: int|
            0 <= i < b.len() && 0 <= j < b.len() && i != j implies b[i] != b[j] by {
            assert(c[a.len() + i] == b[i]);
            assert(c[a.len() + j] == b[j]);
        }
        assert forall|i: int, j: int| 0 <= i < a.len() && 0 <= j < b.len() implies a[i] != b[j] by {
            assert(c[i] == a[i]);
            assert(c[a.len() + j] == b[j]);
        }
    }
    if a.no_duplicates() && b.no_duplicates() && a.disjoint(b) {
        assert forall|i: int, j: int|
            0 <= i < c.len() && 0 <= j < c.len() && i != j implies c[i] != c[j] by {
            if i < a.len() {
                assert(c[i] == a[i]);
            } else {
                assert(c[i] == b[i - a.len()]);
            }
            if j < a.len() {
                assert(c[j] == a[j]);
            } else {
                assert(c[j] == b[j - a.len()]);
            }
        }
    }
}

/// Membership in a concatenation is membership in either half.
pub proof fn lemma_contains_concat<A>(a: Seq<A>, b: Seq<A>, x: A)
    ensures
        (a + b).contains(x) <==> (a.contains(x) || b.contains(x)),
{
    if (a + b).contains(x) {
        let i = choose|i: int| 0 <= i < (a + b).len() && (a + b)[i] == x;
        if i < a.len() {
            assert(a[i] == x);
        } else {
            assert(b[i - a.len()] == x);
        }
    }
    if a.contains(x) {
        let i = choose|i: int| 0 <= i < a.len() && a[i] == x;
        assert((a + b)[i] == x);
    }
    if b.contains(x) {
        let i = choose|i: int| 0 <= i < b.len() && b[i] == x;
        assert((a + b)[a.len() + i] == x);
    }
}

/// Pointwise disjointness of two sequences, phrased through membership.
pub proof fn lemma_disjoint_membership<A>(a: Seq<A>, b: Seq<A>)
    ensures
        a.disjoint(b) <==> (forall|x: A| a.contains(x) ==> !b.contains(x)),
{
    if a.disjoint(b) {
        assert forall|x: A| a.contains(x) implies !b.contains(x) by {
            let i = choose|i: int| 0 <= i < a.len() && a[i] == x;
            assert forall|j: int| 0 <= j < b.len() implies b[j] != x by {
                assert(a[i] != b[j]);
            }
        }
    }
    if forall|x: A| a.contains(x) ==> !b.contains(x) {
        assert forall|i: int, j: int| 0 <= i < a.len() && 0 <= j < b.len() implies a[i] != b[j] by {
            assert(a.contains(a[i]));
            assert(b.contains(b[j]));
        }
    }
}

/// A subtree always holds its own root id.
pub proof fn lemma_contains_self(n: NodeModel)
    ensures
        contains_id(n, n.id),
{
    assert(id_seq(n)[0] == n.id);
}

/// Forest ids distribute over concatenation.
pub proof fn lemma_id_seq_seq_concat(a: Seq<NodeModel>, b: Seq<NodeModel>)
    ensures
        id_seq_seq(a + b) =~= id_seq_seq(a) + id_seq_seq(b),
    decreases a.len(),
{
    if a.len() == 0 {
        assert(a + b =~= b);
        assert(id_seq_seq(a) =~= Seq::empty());
    } else {
        assert((a + b).first() == a.first());
        assert((a + b).drop_first() =~= a.drop_first() + b);
        lemma_id_seq_seq_concat(a.drop_first(), b);
    }
}

/// A forest holds an id exactly when one of its trees does.
pub proof fn lemma_forest_contains(cs: Seq<NodeModel>, x: usize)
    ensures
        id_seq_seq(cs).contains(x) <==> exists|i: int|
            0 <= i < cs.len() && contains_id(#[trigger] cs[i], x),
    decreases cs.len(),
{
    if cs.len() == 0 {
    } else {
        lemma_contains_concat(id_seq(cs.first()), id_seq_seq(cs.drop_first()), x);
        lemma_forest_contains(cs.drop_first(), x);
        if contains_id(cs.first(), x) {
            assert(contains_id(cs[0], x));
        }
        if exists|i: int| 0 <= i < cs.drop_first().len() && contains_id(#[trigger] cs.drop_first()[i], x) {
            let i = choose|i: int|
                0 <= i < cs.drop_first().len() && contains_id(#[trigger] cs.drop_first()[i], x);
            assert(contains_id(cs[i + 1], x));
        }
        if exists|i: int| 0 <= i < cs.len() && contains_id(#[trigger] cs[i], x) {
            let i = choose|i: int| 0 <= i < cs.len() && contains_id(#[trigger] cs[i], x);
            if i > 0 {
                assert(cs.drop_first()[i - 1] == cs[i]);
            }
        }
    }
}

/// Unfolding of subtree membership: the root id, or some child's subtree.
pub proof fn lemma_contains_unfold(n: NodeModel, x: usize)
    ensures
        contains_id(n, x) <==> (n.id == x || exists|i: int|
            0 <= i < n.children.len() && contains_id(#[trigger] n.children[i], x)),
{
    lemma_contains_concat(seq![n.id], id_seq_seq(n.children), x);
    lemma_forest_contains(n.children, x);
    assert(seq![n.id].contains(x) <==> n.id == x) by {
        if seq![n.id].contains(x) {
            let i = choose|i: int| 0 <= i < 1 && seq![n.id][i] == x;
            assert(i == 0);
        }
        if n.id == x {
            assert(seq![n.id][0] == x);
        }
    }
}

/// A node's kind is found exactly when its id is present.
pub proof fn lemma_kind_contains(n: NodeModel, x: usize)
    ensures
        kind_of(n, x) is Some <==> contains_id(n, x),
    decreases n,
{
    lemma_contains_unfold(n, x);
    if n.id == x {
        lemma_contains_self(n);
    } else {
        lemma_kind_contains_seq(n.children, x);
        lemma_forest_contains(n.children, x);
    }
}

/// Forest version of `lemma_kind_contains`.
pub proof fn lemma_kind_contains_seq(cs: Seq<NodeModel>, x: usize)
    ensures
        kind_of_seq(cs, x) is Some <==> id_seq_seq(cs).contains(x),
    decreases cs,
{
    if cs.len() == 0 {
    } else {
        lemma_kind_contains(cs.first(), x);
        lemma_kind_contains_seq(cs.drop_first(), x);
        lemma_contains_concat(id_seq(cs.first()), id_seq_seq(cs.drop_first()), x);
    }
}

/// What `direct_child_index` finds: -1 exactly when no direct child has
/// the id, else the first position carrying it.
pub proof fn lemma_direct_child_index(cs: Seq<NodeModel>, x: usize)
    ensures
        direct_child_index(cs, x) == -1 <==> (forall|i: int|
            0 <= i < cs.len() ==> (#[trigger] cs[i]).id != x),
        direct_child_index(cs, x) != -1 ==> 0 <= direct_child_index(cs, x) < cs.len() && cs[
            direct_child_index(cs, x)
        ].id == x,
    decreases cs,
{
    if cs.len() == 0 {
    } else {
        lemma_direct_child_index(cs.drop_first(), x);
        let rest = cs.drop_first();
        assert(forall|i: int| 0 <= i < rest.len() ==> #[trigger] rest[i] == cs[i + 1]);
        if cs.first().id == x {
            assert(cs[0].id == x);
        } else if direct_child_index(rest, x) == -1 {
            assert forall|i: int| 0 <= i < cs.len() implies (#[trigger] cs[i]).id != x by {
                if i == 0 {
                    assert(cs[0] == cs.first());
                } else {
                    assert(rest[i - 1] == cs[i]);
                }
            }
        } else {
            let r = direct_child_index(rest, x);
            assert(cs[r + 1] == rest[r]);
        }
    }
}

/// A tree of a forest is no larger than the forest.
pub proof fn lemma_size_in_seq(cs: Seq<NodeModel>, i: int)
    requires
        0 <= i < cs.len(),
    ensures
        node_size(cs[i]) <= node_size_seq(cs),
    decreases cs,
{
    if i == 0 {
        assert(cs.first() == cs[0]);
    } else {
        lemma_size_in_seq(cs.drop_first(), i - 1);
        assert(cs.drop_first()[i - 1] == cs[i]);
    }
}

/// Without the target id, `add_at` changes nothing.
pub proof fn lemma_add_absent(
    n: NodeModel,
    pid: usize,
    dir: SplitDirection,
    meta: Option<MetaModel>,
    next: usize,
)
    requires
        !contains_id(n, pid),
    ensures
        add_at(n, pid, dir, meta, next) == n,
    decreases n,
{
    lemma_contains_self(n);
    lemma_contains_unfold(n, pid);
    lemma_add_absent_seq(n.children, pid, dir, meta, next);
    assert(add_at(n, pid, dir, meta, next) =~= n);
}

/// Forest version of `lemma_add_absent`.
pub proof fn lemma_add_absent_seq(
    cs: Seq<NodeModel>,
    pid: usize,
    dir: SplitDirection,
    meta: Option<MetaModel>,
    next: usize,
)
    requires
        forall|i: int| 0 <= i < cs.len() ==> !contains_id(#[trigger] cs[i], pid),
    ensures
        add_at_seq(cs, pid, dir, meta, next) == cs,
    decreases cs,
{
    if cs.len() == 0 {
    } else {
        assert(cs[0] == cs.first());
        lemma_add_absent(cs.first(), pid, dir, meta, next);
        assert forall|i: int| 0 <= i < cs.drop_first().len() implies !contains_id(
            #[trigger] cs.drop_first()[i],
            pid,
        ) by {
            assert(cs.drop_first()[i] == cs[i + 1]);
        }
        lemma_add_absent_seq(cs.drop_first(), pid, dir, meta, next);
        assert(add_at_seq(cs, pid, dir, meta, next) =~= cs);
    }
}

/// Without the id anywhere below, `remove_at` changes nothing.
pub proof fn lemma_remove_absent(n: NodeModel, x: usize)
    requires
        !contains_id(n, x),
    ensures
        remove_at(n, x) == n,
    decreases n,
{
    lemma_contains_unfold(n, x);
    lemma_direct_child_index(n.children, x);
    assert forall|i: int| 0 <= i < n.children.len() implies (#[trigger] n.children[i]).id != x by {
        lemma_contains_self(n.children[i]);
    }
    lemma_remove_absent_seq(n.children, x);
    assert(remove_at(n, x) =~= n);
}

/// Forest version of `lemma_remove_absent`.
pub proof fn lemma_remove_absent_seq(cs: Seq<NodeModel>, x: usize)
    requires
        forall|i: int| 0 <= i < cs.len() ==> !contains_id(#[trigger] cs[i], x),
    ensures
        remove_at_seq(cs, x) == cs,
    decreases cs,
{
    if cs.len() == 0 {
    } else {
        assert(cs[0] == cs.first());
        lemma_remove_absent(cs.first(), x);
        assert forall|i: int| 0 <= i < cs.drop_first().len() implies !contains_id(
            #[trigger] cs.drop_first()[i],
            x,
        ) by {
            assert(cs.drop_first()[i] == cs[i + 1]);
        }
        lemma_remove_absent_seq(cs.drop_first(), x);
        assert(remove_at_seq(cs, x) =~= cs);
    }
}

/// `add_at_seq` acts pointwise.
pub proof fn lemma_add_at_seq_index(
    cs: Seq<NodeModel>,
    pid: usize,
    dir: SplitDirection,
    meta: Option<MetaModel>,
    next: usize,
)
    ensures
        add_at_seq(cs, pid, dir, meta, next).len() == cs.len(),
        forall|i: int|
            0 <= i < cs.len() ==> add_at_seq(cs, pid, dir, meta, next)[i] == add_at(
                #[trigger] cs[i],
                pid,
                dir,
                meta,
                next,
            ),
    decreases cs,
{
    if cs.len() == 0 {
    } else {
        lemma_add_at_seq_index(cs.drop_first(), pid, dir, meta, next);
        assert forall|i: int|
            0 <= i < cs.len() implies add_at_seq(cs, pid, dir, meta, next)[i] == add_at(
            #[trigger] cs[i],
            pid,
            dir,
            meta,
            next,
        ) by {
            if i == 0 {
                assert(cs[0] == cs.first());
            } else {
                assert(cs.drop_first()[i - 1] == cs[i]);
                assert(add_at_seq(cs, pid, dir, meta, next)[i] == add_at_seq(
                    cs.drop_first(),
                    pid,
                    dir,
                    meta,
                    next,
                )[i - 1]);
            }
        }
    }
}

/// `remove_at_seq` acts pointwise.
pub proof fn lemma_remove_at_seq_index(cs: Seq<NodeModel>, x: usize)
    ensures
        remove_at_seq(cs, x).len() == cs.len(),
        forall|i: int|
            0 <= i < cs.len() ==> remove_at_seq(cs, x)[i] == remove_at(#[trigger] cs[i], x),
    decreases cs,
{
    if cs.len() == 0 {
    } else {
        lemma_remove_at_seq_index(cs.drop_first(), x);
        assert forall|i: int|
            0 <= i < cs.len() implies remove_at_seq(cs, x)[i] == remove_at(
            #[trigger] cs[i],
            x,
        ) by {
            if i == 0 {
                assert(cs[0] == cs.first());
            } else {
                assert(cs.drop_first()[i - 1] == cs[i]);
                assert(remove_at_seq(cs, x)[i] == remove_at_seq(cs.drop_first(), x)[i - 1]);
            }
        }
    }
}

/// When the first tree holding `x` stands at position `j`, the forest
/// lookup answers with that tree's answer.
pub proof fn lemma_kind_of_seq_at(cs: Seq<NodeModel>, x: usize, j: int)
    requires
        0 <= j < cs.len(),
        kind_of(cs[j], x) is Some,
        forall|k: int| 0 <= k < j ==> !contains_id(#[trigger] cs[k], x),
    ensures
        kind_of_seq(cs, x) == kind_of(cs[j], x),
    decreases cs,
{
    lemma_kind_contains(cs.first(), x);
    if j == 0 {
        assert(cs[0] == cs.first());
    } else {
        assert(cs[0] == cs.first());
        assert(!contains_id(cs.first(), x));
        assert forall|k: int| 0 <= k < j - 1 implies !contains_id(
            #[trigger] cs.drop_first()[k],
            x,
        ) by {
            assert(cs.drop_first()[k] == cs[k + 1]);
        }
        assert(cs.drop_first()[j - 1] == cs[j]);
        lemma_kind_of_seq_at(cs.drop_first(), x, j - 1);
    }
}

/// The first direct-child match determines `direct_child_index`.
pub proof fn lemma_direct_child_index_at(cs: Seq<NodeModel>, x: usize, j: int)
    requires
        0 <= j < cs.len(),
        cs[j].id == x,
        forall|k: int| 0 <= k < j ==> (#[trigger] cs[k]).id != x,
    ensures
        direct_child_index(cs, x) == j,
    decreases cs,
{
    if j == 0 {
        assert(cs[0] == cs.first());
    } else {
        assert(cs[0] == cs.first());
        assert forall|k: int| 0 <= k < j - 1 implies (#[trigger] cs.drop_first()[k]).id != x by {
            assert(cs.drop_first()[k] == cs[k + 1]);
        }
        assert(cs.drop_first()[j - 1] == cs[j]);
        lemma_direct_child_index_at(cs.drop_first(), x, j - 1);
    }
}

/// Distinct ids over a forest: each tree's ids are distinct and distinct
/// trees share no id.
pub proof fn lemma_forest_nodup_parts(cs: Seq<NodeModel>)
    requires
        id_seq_seq(cs).no_duplicates(),
    ensures
        forall|i: int| 0 <= i < cs.len() ==> id_seq(#[trigger] cs[i]).no_duplicates(),
        forall|i: int, j: int, y: usize|
            #![trigger contains_id(cs[i], y), contains_id(cs[j], y)]
            0 <= i < cs.len() && 0 <= j < cs.len() && i != j && contains_id(cs[i], y)
                ==> !contains_id(cs[j], y),
    decreases cs,
{
    if cs.len() == 0 {
    } else {
        let f = cs.first();
        let rest = cs.drop_first();
        lemma_nodup_concat(id_seq(f), id_seq_seq(rest));
        lemma_disjoint_membership(id_seq(f), id_seq_seq(rest));
        lemma_forest_nodup_parts(rest);
        assert(cs[0] == f);
        assert(forall|i: int| 0 <= i < rest.len() ==> #[trigger] rest[i] == cs[i + 1]);
        assert forall|i: int| 0 <= i < cs.len() implies id_seq(
            #[trigger] cs[i],
        ).no_duplicates() by {
            if i > 0 {
                assert(rest[i - 1] == cs[i]);
            }
        }
        assert forall|i: int, j: int, y: usize|
            #![trigger contains_id(cs[i], y), contains_id(cs[j], y)]
            0 <= i < cs.len() && 0 <= j < cs.len() && i != j && contains_id(cs[i], y)
                implies !contains_id(cs[j], y) by {
            lemma_forest_contains(rest, y);
            if i == 0 {
                assert(rest[j - 1] == cs[j]);
                if contains_id(cs[j], y) {
                    assert(id_seq_seq(rest).contains(y));
                }
            } else if j == 0 {
                assert(rest[i - 1] == cs[i]);
                assert(id_seq_seq(rest).contains(y));
            } else {
                assert(rest[i - 1] == cs[i]);
                assert(rest[j - 1] == cs[j]);
            }
        }
    }
}

/// Effect of `add_at` on a subtree: the target's id and parent are kept;
/// without the target nothing changes; with it, well-formedness and
/// distinctness of ids survive, and the id inventory grows by exactly the
/// minted ids.
pub proof fn lemma_add_effect(
    n: NodeModel,
    pid: usize,
    dir: SplitDirection,
    meta: Option<MetaModel>,
    next: usize,
)
    requires
        wf_node(n),
        id_seq(n).no_duplicates(),
        ids_le(n, next),
        next + 2 <= usize::MAX,
    ensures
        ({
            let r = add_at(n, pid, dir, meta, next);
            &&& r.id == n.id
            &&& r.parent == n.parent
            &&& (!contains_id(n, pid) ==> r == n)
            &&& (contains_id(n, pid) ==> {
                &&& wf_node(r)
                &&& id_seq(r).no_duplicates()
                &&& kind_of(n, pid) is Some
                &&& forall|x: usize|
                    #![trigger contains_id(r, x)]
                    #![trigger contains_id(n, x)]
                    contains_id(r, x) <==> (contains_id(n, x) || x == next + 1 || (mint_count(
                        n,
                        pid,
                    ) == 2 && x == next + 2))
            })
        }),
    decreases n,
{
    let r = add_at(n, pid, dir, meta, next);
    lemma_contains_unfold(n, pid);
    lemma_contains_self(n);
    let forest = id_seq_seq(n.children);
    lemma_nodup_concat(seq![n.id], forest);
    assert(id_seq(n) == seq![n.id] + forest);
    assert(n.id <= next) by {
        assert(contains_id(n, n.id));
    }
    if n.id == pid {
        match n.kind {
            NodeType::Window => {
                let c1 = NodeModel {
                    id: (next + 1) as usize,
                    parent: Some(n.id),
                    kind: NodeType::Window,
                    meta: n.meta,
                    children: n.children,
                };
                let c2 = new_leaf((next + 2) as usize, n.id, meta);
                assert(n.children.len() == 0);
                assert(id_seq_seq(n.children) =~= Seq::<usize>::empty());
                assert(id_seq(n) =~= seq![n.id]);
                assert(id_seq(c1) =~= seq![c1.id]);
                assert(id_seq(c2) =~= seq![c2.id]);
                let kids = seq![c1, c2];
                assert(r.children == kids);
                assert(kids.first() == c1);
                assert(kids.drop_first() =~= seq![c2]);
                assert(seq![c2].drop_first() =~= Seq::<NodeModel>::empty());
                assert(id_seq_seq(seq![c2]) =~= id_seq(c2));
                assert(id_seq_seq(kids) =~= id_seq(c1) + id_seq(c2));
                assert(id_seq(r) =~= seq![n.id, (next + 1) as usize, (next + 2) as usize]);
                assert(id_seq(r).no_duplicates());
                assert(wf_node(r)) by {
                    assert(wf_node(c1));
                    assert(wf_node(c2));
                    assert(forall|i: int| 0 <= i < kids.len() ==> (#[trigger] kids[i]).parent
                        == Some(r.id) && wf_node(kids[i]));
                }
                assert(mint_count(n, pid) == 2);
                assert forall|x: usize| contains_id(r, x) <==> (contains_id(n, x) || x == next + 1
                    || (mint_count(n, pid) == 2 && x == next + 2)) by {
                    if contains_id(r, x) {
                        let i = choose|i: int| 0 <= i < id_seq(r).len() && id_seq(r)[i] == x;
                    }
                    if contains_id(n, x) {
                        let i = choose|i: int| 0 <= i < id_seq(n).len() && id_seq(n)[i] == x;
                        assert(x == n.id);
                        assert(id_seq(r)[0] == x);
                    }
                    if x == next + 1 {
                        assert(id_seq(r)[1] == x);
                    }
                    if x == next + 2 {
                        assert(id_seq(r)[2] == x);
                    }
                }
            },
            NodeType::Split(_) => {
                let leaf = new_leaf((next + 1) as usize, n.id, meta);
                assert(r.children == n.children.push(leaf));
                assert(n.children.push(leaf) =~= n.children + seq![leaf]);
                lemma_id_seq_seq_concat(n.children, seq![leaf]);
                assert(seq![leaf].drop_first() =~= Seq::<NodeModel>::empty());
                assert(id_seq_seq(seq![leaf]) =~= id_seq(leaf));
                assert(id_seq(leaf) =~= seq![leaf.id]);
                assert(id_seq(r) =~= seq![n.id] + (forest + seq![leaf.id]));
                assert(mint_count(n, pid) == 1);
                assert forall|x: usize| contains_id(r, x) <==> (contains_id(n, x) || x == next + 1
                    || (mint_count(n, pid) == 2 && x == next + 2)) by {
                    lemma_contains_concat(seq![n.id], forest + seq![leaf.id], x);
                    lemma_contains_concat(forest, seq![leaf.id], x);
                    lemma_contains_concat(seq![n.id], forest, x);
                    assert(seq![n.id].contains(x) <==> x == n.id) by {
                        if seq![n.id].contains(x) {
                            let i = choose|i: int| 0 <= i < 1 && seq![n.id][i] == x;
                        }
                        if x == n.id {
                            assert(seq![n.id][0] == x);
                        }
                    }
                    assert(seq![leaf.id].contains(x) <==> x == leaf.id) by {
                        if seq![leaf.id].contains(x) {
                            let i = choose|i: int| 0 <= i < 1 && seq![leaf.id][i] == x;
                        }
                        if x == leaf.id {
                            assert(seq![leaf.id][0] == x);
                        }
                    }
                }
                assert(id_seq(r).no_duplicates()) by {
                    assert forall|x: usize| forest.contains(x) implies x <= next by {
                        lemma_contains_concat(seq![n.id], forest, x);
                        assert(contains_id(n, x));
                    }
                    lemma_disjoint_membership(forest, seq![leaf.id]);
                    assert forall|x: usize| forest.contains(x) implies !seq![leaf.id].contains(
                        x,
                    ) by {
                        if seq![leaf.id].contains(x) {
                            let i = choose|i: int| 0 <= i < 1 && seq![leaf.id][i] == x;
                        }
                    }
                    assert(seq![leaf.id].no_duplicates());
                    lemma_nodup_concat(forest, seq![leaf.id]);
                    lemma_disjoint_membership(seq![n.id], forest + seq![leaf.id]);
                    assert forall|x: usize| seq![n.id].contains(x) implies !(forest + seq![
                        leaf.id,
                    ]).contains(x) by {
                        let i = choose|i: int| 0 <= i < 1 && seq![n.id][i] == x;
                        lemma_contains_concat(forest, seq![leaf.id], x);
                        lemma_disjoint_membership(seq![n.id], forest);
                        if seq![leaf.id].contains(x) {
                            let j = choose|j: int| 0 <= j < 1 && seq![leaf.id][j] == x;
                        }
                    }
                    lemma_nodup_concat(seq![n.id], forest + seq![leaf.id]);
                }
                assert(wf_node(r)) by {
                    assert(forall|i: int| 0 <= i < n.children.len() ==> r.children[i]
                        == n.children[i]);
                    assert(r.children[n.children.len() as int] == leaf);
                    assert(wf_node(leaf));
                    assert forall|i: int|
                        0 <= i < r.children.len() implies (#[trigger] r.children[i]).parent
                        == Some(r.id) && wf_node(r.children[i]) by {
                        if i < n.children.len() {
                            assert(n.children[i].parent == Some(n.id) && wf_node(n.children[i]));
                        }
                    }
                }
            },
        }
    } else {
        let rs = add_at_seq(n.children, pid, dir, meta, next);
        assert(r == NodeModel { children: rs, ..n });
        assert forall|i: int| 0 <= i < n.children.len() implies wf_node(
            #[trigger] n.children[i],
        ) by {
            assert(n.children[i].parent == Some(n.id) && wf_node(n.children[i]));
        }
        assert forall|x: usize| #[trigger] forest.contains(x) implies x <= next by {
            lemma_contains_concat(seq![n.id], forest, x);
            assert(contains_id(n, x));
        }
        lemma_add_effect_seq(n.children, pid, dir, meta, next);
        lemma_forest_contains(n.children, pid);
        lemma_kind_contains_seq(n.children, pid);
        if contains_id(n, pid) {
            assert(forest.contains(pid));
            assert(id_seq(r) == seq![n.id] + id_seq_seq(rs));
            assert(wf_node(r)) by {
                assert forall|i: int|
                    0 <= i < r.children.len() implies (#[trigger] r.children[i]).parent == Some(
                    r.id,
                ) && wf_node(r.children[i]) by {
                    assert(rs[i].parent == n.children[i].parent);
                    assert(n.children[i].parent == Some(n.id) && wf_node(n.children[i]));
                }
            }
            assert(id_seq(r).no_duplicates()) by {
                lemma_disjoint_membership(seq![n.id], id_seq_seq(rs));
                assert forall|x: usize| seq![n.id].contains(x) implies !id_seq_seq(rs).contains(
                    x,
                ) by {
                    let i = choose|i: int| 0 <= i < 1 && seq![n.id][i] == x;
                    assert(x == n.id);
                    if id_seq_seq(rs).contains(x) {
                        lemma_disjoint_membership(seq![n.id], forest);
                        assert(!forest.contains(n.id));
                    }
                }
                lemma_nodup_concat(seq![n.id], id_seq_seq(rs));
            }
            assert forall|x: usize| contains_id(r, x) <==> (contains_id(n, x) || x == next + 1 || (
            mint_count(n, pid) == 2 && x == next + 2)) by {
                lemma_contains_concat(seq![n.id], id_seq_seq(rs), x);
                lemma_contains_concat(seq![n.id], forest, x);
                assert(seq![n.id].contains(x) <==> x == n.id) by {
                    if seq![n.id].contains(x) {
                        let i = choose|i: int| 0 <= i < 1 && seq![n.id][i] == x;
                    }
                    if x == n.id {
                        assert(seq![n.id][0] == x);
                    }
                }
            }
        } else {
            assert(!forest.contains(pid));
            assert(rs == n.children);
            assert(r =~= n);
        }
    }
}

/// `lemma_add_effect`, over a forest.
pub proof fn lemma_add_effect_seq(
    cs: Seq<NodeModel>,
    pid: usize,
    dir: SplitDirection,
    meta: Option<MetaModel>,
    next: usize,
)
    requires
        forall|i: int| 0 <= i < cs.len() ==> wf_node(#[trigger] cs[i]),
        id_seq_seq(cs).no_duplicates(),
        forall|x: usize| #[trigger] id_seq_seq(cs).contains(x) ==> x <= next,
        next + 2 <= usize::MAX,
    ensures
        ({
            let rs = add_at_seq(cs, pid, dir, meta, next);
            &&& rs.len() == cs.len()
            &&& forall|i: int|
                0 <= i < cs.len() ==> (#[trigger] rs[i]).id == cs[i].id && rs[i].parent
                    == cs[i].parent
            &&& (!id_seq_seq(cs).contains(pid) ==> rs == cs)
            &&& (id_seq_seq(cs).contains(pid) ==> {
                &&& forall|i: int| 0 <= i < rs.len() ==> wf_node(#[trigger] rs[i])
                &&& id_seq_seq(rs).no_duplicates()
                &&& kind_of_seq(cs, pid) is Some
                &&& forall|x: usize|
                    #![trigger id_seq_seq(rs).contains(x)]
                    #![trigger id_seq_seq(cs).contains(x)]
                    id_seq_seq(rs).contains(x) <==> (id_seq_seq(cs).contains(x) || x == next + 1
                        || (kind_of_seq(cs, pid) == Some(NodeType::Window) && x == next + 2))
            })
        }),
    decreases cs,
{
    if cs.len() == 0 {
    } else {
        let f = cs.first();
        let rest = cs.drop_first();
        let fids = id_seq(f);
        let rids = id_seq_seq(rest);
        assert(id_seq_seq(cs) == fids + rids);
        lemma_nodup_concat(fids, rids);
        lemma_disjoint_membership(fids, rids);
        assert forall|x: usize| #[trigger] fids.contains(x) implies x <= next by {
            lemma_contains_concat(fids, rids, x);
        }
        assert forall|x: usize| #[trigger] rids.contains(x) implies x <= next by {
            lemma_contains_concat(fids, rids, x);
        }
        lemma_add_effect(f, pid, dir, meta, next);
        lemma_add_effect_seq(rest, pid, dir, meta, next);
        lemma_kind_contains(f, pid);
        lemma_kind_contains_seq(rest, pid);
        let rf = add_at(f, pid, dir, meta, next);
        let rrest = add_at_seq(rest, pid, dir, meta, next);
        let rs = add_at_seq(cs, pid, dir, meta, next);
        assert(rs == seq![rf] + rrest);
        assert(rs.len() == cs.len());
        assert forall|i: int|
            0 <= i < cs.len() implies (#[trigger] rs[i]).id == cs[i].id && rs[i].parent
            == cs[i].parent by {
            if i == 0 {
                assert(rs[0] == rf && cs[0] == f);
            } else {
                assert(rs[i] == rrest[i - 1] && cs[i] == rest[i - 1]);
            }
        }
        lemma_contains_concat(fids, rids, pid);
        if !id_seq_seq(cs).contains(pid) {
            assert(rf == f && rrest == rest);
            assert(rs =~= cs);
        } else {
            let rsids = id_seq_seq(rs);
            assert(rsids == id_seq(rf) + id_seq_seq(rrest)) by {
                assert(rs.first() == rf);
                assert(rs.drop_first() =~= rrest);
            }
            if fids.contains(pid) {
                assert(contains_id(f, pid));
                assert(!rids.contains(pid));
                assert(rrest == rest);
                assert(kind_of_seq(cs, pid) == kind_of(f, pid));
                assert(kind_of(f, pid) == Some(NodeType::Window) <==> mint_count(f, pid) == 2);
                assert(id_seq_seq(rs).no_duplicates()) by {
                    lemma_disjoint_membership(id_seq(rf), rids);
                    assert forall|x: usize| id_seq(rf).contains(x) implies !rids.contains(x) by {
                        assert(contains_id(rf, x));
                        if rids.contains(x) {
                            assert(x <= next);
                            assert(contains_id(f, x));
                            assert(fids.contains(x));
                        }
                    }
                    lemma_nodup_concat(id_seq(rf), rids);
                }
                assert forall|i: int| 0 <= i < rs.len() implies wf_node(#[trigger] rs[i]) by {
                    if i == 0 {
                        assert(rs[0] == rf);
                    } else {
                        assert(rs[i] == rest[i - 1]);
                        assert(wf_node(cs[i]));
                    }
                }
                assert forall|x: usize| id_seq_seq(rs).contains(x) <==> (id_seq_seq(cs).contains(x)
                    || x == next + 1 || (kind_of_seq(cs, pid) == Some(NodeType::Window) && x == next
                    + 2)) by {
                    lemma_contains_concat(id_seq(rf), rids, x);
                    lemma_contains_concat(fids, rids, x);
                    assert(contains_id(rf, x) == id_seq(rf).contains(x));
                    assert(contains_id(f, x) == fids.contains(x));
                    assert(contains_id(rf, x) <==> (contains_id(f, x) || x == next + 1 || (
                    mint_count(f, pid) == 2 && x == next + 2)));
                }
            } else {
                assert(rids.contains(pid));
                assert(!contains_id(f, pid));
                assert(rf == f);
                assert(kind_of(f, pid) is None);
                assert(kind_of_seq(cs, pid) == kind_of_seq(rest, pid));
                assert(id_seq_seq(rs).no_duplicates()) by {
                    lemma_disjoint_membership(fids, id_seq_seq(rrest));
                    assert forall|x: usize| fids.contains(x) implies !id_seq_seq(rrest).contains(
                        x,
                    ) by {
                        if id_seq_seq(rrest).contains(x) {
                            if x <= next {
                                assert(rids.contains(x));
                            }
                        }
                    }
                    lemma_nodup_concat(fids, id_seq_seq(rrest));
                }
                assert forall|i: int| 0 <= i < rs.len() implies wf_node(#[trigger] rs[i]) by {
                    if i == 0 {
                        assert(rs[0] == f);
                        assert(wf_node(cs[0]));
                    } else {
                        assert(rs[i] == rrest[i - 1]);
                    }
                }
                assert forall|x: usize| id_seq_seq(rs).contains(x) <==> (id_seq_seq(cs).contains(x)
                    || x == next + 1 || (kind_of_seq(cs, pid) == Some(NodeType::Window) && x == next
                    + 2)) by {
                    lemma_contains_concat(fids, id_seq_seq(rrest), x);
                    lemma_contains_concat(fids, rids, x);
                }
            }
        }
    }
}

/// Effect of `remove_at` on a subtree: the parent reference is kept;
/// without the id nothing changes; with it (below the root of the
/// subtree), well-formedness and distinctness survive, no new id
/// appears, and the removed id is gone.
pub proof fn lemma_remove_effect(n: NodeModel, x: usize)
    requires
        wf_node(n),
        id_seq(n).no_duplicates(),
    ensures
        ({
            let r = remove_at(n, x);
            &&& r.parent == n.parent
            &&& (!contains_id(n, x) ==> r == n)
            &&& (contains_id(n, x) && x != n.id ==> {
                &&& wf_node(r)
                &&& id_seq(r).no_duplicates()
                &&& forall|y: usize| #[trigger] contains_id(r, y) ==> contains_id(n, y)
                &&& !contains_id(r, x)
            })
        }),
    decreases n,
{
    let r = remove_at(n, x);
    lemma_contains_unfold(n, x);
    lemma_direct_child_index(n.children, x);
    let forest = id_seq_seq(n.children);
    lemma_nodup_concat(seq![n.id], forest);
    lemma_disjoint_membership(seq![n.id], forest);
    assert(seq![n.id].contains(n.id)) by {
        assert(seq![n.id][0] == n.id);
    }
    if has_direct_child(n, x) {
        let idx = direct_child_index(n.children, x);
        let dropped = n.children[idx];
        let cs2 = n.children.remove(idx);
        let a = n.children.subrange(0, idx);
        let m = seq![dropped];
        let b = n.children.subrange(idx + 1, n.children.len() as int);
        assert(n.children =~= (a + m) + b);
        assert(cs2 == a + b);
        lemma_id_seq_seq_concat(a + m, b);
        lemma_id_seq_seq_concat(a, m);
        lemma_id_seq_seq_concat(a, b);
        assert(m.first() == dropped);
        assert(m.drop_first() =~= Seq::<NodeModel>::empty());
        assert(id_seq_seq(m) == id_seq(dropped) + id_seq_seq(m.drop_first()));
        assert(id_seq_seq(Seq::<NodeModel>::empty()) == Seq::<usize>::empty());
        assert(id_seq_seq(m) =~= id_seq(dropped));
        assert(forest == id_seq_seq((a + m) + b));
        assert(forest =~= (id_seq_seq(a) + id_seq(dropped)) + id_seq_seq(b));
        lemma_nodup_concat(id_seq_seq(a) + id_seq(dropped), id_seq_seq(b));
        lemma_nodup_concat(id_seq_seq(a), id_seq(dropped));
        lemma_id_seq_seq_concat(a, b);
        lemma_contains_self(dropped);
        assert(x == dropped.id);
        assert(id_seq(dropped).contains(x));
        assert(!id_seq_seq(a).contains(x)) by {
            lemma_disjoint_membership(id_seq_seq(a), id_seq(dropped));
        }
        assert(!id_seq_seq(b).contains(x)) by {
            lemma_disjoint_membership(id_seq_seq(a) + id_seq(dropped), id_seq_seq(b));
            lemma_contains_concat(id_seq_seq(a), id_seq(dropped), x);
        }
        assert(id_seq_seq(cs2) =~= id_seq_seq(a) + id_seq_seq(b));
        assert(id_seq_seq(cs2).no_duplicates()) by {
            lemma_nodup_concat(id_seq_seq(a), id_seq_seq(b));
            lemma_disjoint_membership(id_seq_seq(a), id_seq_seq(b));
            lemma_disjoint_membership(id_seq_seq(a) + id_seq(dropped), id_seq_seq(b));
            assert forall|y: usize| id_seq_seq(a).contains(y) implies !id_seq_seq(b).contains(
                y,
            ) by {
                lemma_contains_concat(id_seq_seq(a), id_seq(dropped), y);
            }
        }
        assert forall|y: usize| #[trigger] id_seq_seq(cs2).contains(y) implies forest.contains(y)
            && y != x by {
            lemma_contains_concat(id_seq_seq(a), id_seq_seq(b), y);
            lemma_contains_concat(id_seq_seq(a) + id_seq(dropped), id_seq_seq(b), y);
            lemma_contains_concat(id_seq_seq(a), id_seq(dropped), y);
        }
        assert forall|i: int| 0 <= i < cs2.len() implies #[trigger] cs2[i] == n.children[
            if i < idx {
                i
            } else {
                i + 1
            }
        ] by {}
        if n.kind is Split && cs2.len() == 1 {
            let c = cs2[0];
            assert(c == n.children[if 0 < idx { 0int } else { 1int }]);
            assert(wf_node(c) && c.parent == Some(n.id));
            assert(r == NodeModel { parent: n.parent, ..c });
            assert(id_seq(r) == seq![c.id] + id_seq_seq(c.children));
            assert(id_seq(r) == id_seq(c));
            assert(id_seq_seq(cs2) =~= id_seq(c)) by {
                assert(cs2.first() == c);
                assert(cs2.drop_first() =~= Seq::<NodeModel>::empty());
            }
            assert(wf_node(r)) by {
                assert forall|i: int|
                    0 <= i < r.children.len() implies (#[trigger] r.children[i]).parent == Some(
                    r.id,
                ) && wf_node(r.children[i]) by {
                    assert(c.children[i].parent == Some(c.id) && wf_node(c.children[i]));
                }
            }
            assert forall|y: usize| #[trigger] contains_id(r, y) implies contains_id(n, y) by {
                lemma_contains_concat(seq![n.id], forest, y);
            }
        } else {
            assert(r == NodeModel { children: cs2, ..n });
            assert(n.children.len() >= 1);
            assert(n.kind is Split) by {
                if n.kind is Window {
                    assert(n.children.len() == 0);
                }
            }
            assert(cs2.len() >= 2);
            assert(wf_node(r)) by {
                assert forall|i: int|
                    0 <= i < r.children.len() implies (#[trigger] r.children[i]).parent == Some(
                    r.id,
                ) && wf_node(r.children[i]) by {
                    let j: int = if i < idx {
                        i
                    } else {
                        i + 1
                    };
                    assert(n.children[j].parent == Some(n.id) && wf_node(n.children[j]));
                }
            }
            assert(id_seq(r) == seq![n.id] + id_seq_seq(cs2));
            assert(id_seq(r).no_duplicates()) by {
                lemma_nodup_concat(seq![n.id], id_seq_seq(cs2));
                lemma_disjoint_membership(seq![n.id], id_seq_seq(cs2));
                assert forall|y: usize| seq![n.id].contains(y) implies !id_seq_seq(cs2).contains(
                    y,
                ) by {
                    let i = choose|i: int| 0 <= i < 1 && seq![n.id][i] == y;
                }
            }
            assert forall|y: usize| #[trigger] contains_id(r, y) implies contains_id(n, y) by {
                lemma_contains_concat(seq![n.id], id_seq_seq(cs2), y);
                lemma_contains_concat(seq![n.id], forest, y);
            }
            if x != n.id {
                assert(!contains_id(r, x)) by {
                    lemma_contains_concat(seq![n.id], id_seq_seq(cs2), x);
                    assert(!id_seq_seq(cs2).contains(x));
                    assert(!seq![n.id].contains(x)) by {
                        if seq![n.id].contains(x) {
                            let i = choose|i: int| 0 <= i < 1 && seq![n.id][i] == x;
                        }
                    }
                }
            }
        }
    } else {
        let rs = remove_at_seq(n.children, x);
        assert(r == NodeModel { children: rs, ..n });
        assert forall|i: int| 0 <= i < n.children.len() implies wf_node(#[trigger] n.children[i])
            && n.children[i].id != x by {
            assert(n.children[i].parent == Some(n.id) && wf_node(n.children[i]));
        }
        lemma_remove_effect_seq(n.children, x);
        lemma_forest_contains(n.children, x);
        if contains_id(n, x) && x != n.id {
            assert(forest.contains(x)) by {
                lemma_contains_concat(seq![n.id], forest, x);
                if seq![n.id].contains(x) {
                    let i = choose|i: int| 0 <= i < 1 && seq![n.id][i] == x;
                }
            }
            assert(id_seq(r) == seq![n.id] + id_seq_seq(rs));
            assert(wf_node(r)) by {
                assert forall|i: int|
                    0 <= i < r.children.len() implies (#[trigger] r.children[i]).parent == Some(
                    r.id,
                ) && wf_node(r.children[i]) by {
                    assert(rs[i].parent == n.children[i].parent);
                    assert(n.children[i].parent == Some(n.id) && wf_node(n.children[i]));
                }
            }
            assert(id_seq(r).no_duplicates()) by {
                lemma_nodup_concat(seq![n.id], id_seq_seq(rs));
                lemma_disjoint_membership(seq![n.id], id_seq_seq(rs));
                assert forall|y: usize| seq![n.id].contains(y) implies !id_seq_seq(rs).contains(
                    y,
                ) by {
                    let i = choose|i: int| 0 <= i < 1 && seq![n.id][i] == y;
                }
            }
            assert forall|y: usize| #[trigger] contains_id(r, y) implies contains_id(n, y) by {
                lemma_contains_concat(seq![n.id], id_seq_seq(rs), y);
                lemma_contains_concat(seq![n.id], forest, y);
            }
            assert(!contains_id(r, x)) by {
                lemma_contains_concat(seq![n.id], id_seq_seq(rs), x);
                assert(!seq![n.id].contains(x)) by {
                    if seq![n.id].contains(x) {
                        let i = choose|i: int| 0 <= i < 1 && seq![n.id][i] == x;
                    }
                }
            }
        }
        if !contains_id(n, x) {
            assert(!forest.contains(x)) by {
                lemma_contains_concat(seq![n.id], forest, x);
            }
            assert(rs == n.children);
            assert(r =~= n);
        }
    }
}

/// `lemma_remove_effect`, over a forest whose roots do not carry the id.
pub proof fn lemma_remove_effect_seq(cs: Seq<NodeModel>, x: usize)
    requires
        forall|i: int| 0 <= i < cs.len() ==> wf_node(#[trigger] cs[i]),
        id_seq_seq(cs).no_duplicates(),
        forall|i: int| 0 <= i < cs.len() ==> (#[trigger] cs[i]).id != x,
    ensures
        ({
            let rs = remove_at_seq(cs, x);
            &&& rs.len() == cs.len()
            &&& forall|i: int| 0 <= i < cs.len() ==> (#[trigger] rs[i]).parent == cs[i].parent
            &&& (!id_seq_seq(cs).contains(x) ==> rs == cs)
            &&& (id_seq_seq(cs).contains(x) ==> {
                &&& forall|i: int| 0 <= i < rs.len() ==> wf_node(#[trigger] rs[i])
                &&& id_seq_seq(rs).no_duplicates()
                &&& forall|y: usize| #[trigger]
                    id_seq_seq(rs).contains(y) ==> id_seq_seq(cs).contains(y)
                &&& !id_seq_seq(rs).contains(x)
            })
        }),
    decreases cs,
{
    if cs.len() == 0 {
    } else {
        let f = cs.first();
        let rest = cs.drop_first();
        let fids = id_seq(f);
        let rids = id_seq_seq(rest);
        assert(id_seq_seq(cs) == fids + rids);
        lemma_nodup_concat(fids, rids);
        lemma_disjoint_membership(fids, rids);
        assert(cs[0] == f);
        assert forall|i: int| 0 <= i < rest.len() implies wf_node(#[trigger] rest[i]) && rest[i].id
            != x by {
            assert(rest[i] == cs[i + 1]);
            assert(wf_node(cs[i + 1]));
        }
        lemma_remove_effect(f, x);
        lemma_remove_effect_seq(rest, x);
        let rf = remove_at(f, x);
        let rrest = remove_at_seq(rest, x);
        let rs = remove_at_seq(cs, x);
        assert(rs == seq![rf] + rrest);
        assert forall|i: int| 0 <= i < cs.len() implies (#[trigger] rs[i]).parent
            == cs[i].parent by {
            if i == 0 {
                assert(rs[0] == rf && cs[0] == f);
            } else {
                assert(rs[i] == rrest[i - 1] && cs[i] == rest[i - 1]);
            }
        }
        lemma_contains_concat(fids, rids, x);
        lemma_contains_self(f);
        if !id_seq_seq(cs).contains(x) {
            assert(rf == f && rrest == rest);
            assert(rs =~= cs);
        } else {
            let rsids = id_seq_seq(rs);
            assert(rsids == id_seq(rf) + id_seq_seq(rrest)) by {
                assert(rs.first() == rf);
                assert(rs.drop_first() =~= rrest);
            }
            if fids.contains(x) {
                assert(contains_id(f, x) && x != f.id);
                assert(!rids.contains(x));
                assert(rrest == rest);
                assert forall|i: int| 0 <= i < rs.len() implies wf_node(#[trigger] rs[i]) by {
                    if i == 0 {
                        assert(rs[0] == rf);
                    } else {
                        assert(rs[i] == rest[i - 1]);
                        assert(wf_node(cs[i]));
                    }
                }
                assert(rsids.no_duplicates()) by {
                    lemma_nodup_concat(id_seq(rf), rids);
                    lemma_disjoint_membership(id_seq(rf), rids);
                    assert forall|y: usize| id_seq(rf).contains(y) implies !rids.contains(y) by {
                        assert(contains_id(rf, y));
                        assert(contains_id(f, y));
                        assert(fids.contains(y));
                    }
                }
                assert forall|y: usize| #[trigger] rsids.contains(y) implies id_seq_seq(
                    cs,
                ).contains(y) by {
                    lemma_contains_concat(id_seq(rf), rids, y);
                    lemma_contains_concat(fids, rids, y);
                    if id_seq(rf).contains(y) {
                        assert(contains_id(rf, y));
                        assert(contains_id(f, y));
                    }
                }
                assert(!rsids.contains(x)) by {
                    lemma_contains_concat(id_seq(rf), rids, x);
                    assert(!contains_id(rf, x));
                }
            } else {
                assert(rids.contains(x));
                assert(!contains_id(f, x));
                assert(rf == f);
                assert forall|i: int| 0 <= i < rs.len() implies wf_node(#[trigger] rs[i]) by {
                    if i == 0 {
                        assert(rs[0] == f);
                        assert(wf_node(cs[0]));
                    } else {
                        assert(rs[i] == rrest[i - 1]);
                    }
                }
                assert(rsids.no_duplicates()) by {
                    lemma_nodup_concat(fids, id_seq_seq(rrest));
                    lemma_disjoint_membership(fids, id_seq_seq(rrest));
                    assert forall|y: usize| fids.contains(y) implies !id_seq_seq(rrest).contains(
                        y,
                    ) by {
                        if id_seq_seq(rrest).contains(y) {
                            assert(rids.contains(y));
                        }
                    }
                }
                assert forall|y: usize| #[trigger] rsids.contains(y) implies id_seq_seq(
                    cs,
                ).contains(y) by {
                    lemma_contains_concat(fids, id_seq_seq(rrest), y);
                    lemma_contains_concat(fids, rids, y);
                }
                assert(!rsids.contains(x)) by {
                    lemma_contains_concat(fids, id_seq_seq(rrest), x);
                }
            }
        }
    }
}

/// A successful addition preserves every tree invariant, with the id
/// counter advanced past the minted ids.
pub proof fn lemma_tree_add(
    t: TreeModel,
    pid: usize,
    dir: SplitDirection,
    meta: Option<MetaModel>,
)
    requires
        wf_tree(t),
        contains_id(t.root, pid),
        t.next_id + 2 <= usize::MAX,
    ensures
        ({
            let root2 = add_at(t.root, pid, dir, meta, t.next_id);
            let next2 = (t.next_id + mint_count(t.root, pid)) as usize;
            &&& wf_tree(TreeModel { root: root2, next_id: next2 })
            &&& root2.id == t.root.id
            &&& root2.parent == t.root.parent
            &&& kind_of(t.root, pid) is Some
        }),
{
    lemma_add_effect(t.root, pid, dir, meta, t.next_id);
    lemma_kind_contains(t.root, pid);
    let root2 = add_at(t.root, pid, dir, meta, t.next_id);
    let next2 = (t.next_id + mint_count(t.root, pid)) as usize;
    assert forall|x: usize| #[trigger] contains_id(root2, x) implies x <= next2 by {
        if contains_id(t.root, x) {
            assert(x <= t.next_id);
        }
    }
}

/// A successful removal preserves every tree invariant; the id counter
/// stands still.
pub proof fn lemma_tree_remove(t: TreeModel, x: usize)
    requires
        wf_tree(t),
        contains_id(t.root, x),
        x != t.root.id,
    ensures
        ({
            let root2 = remove_at(t.root, x);
            &&& wf_tree(TreeModel { root: root2, next_id: t.next_id })
            &&& root2.parent == t.root.parent
        }),
{
    lemma_remove_effect(t.root, x);
    let root2 = remove_at(t.root, x);
    assert forall|y: usize| #[trigger] contains_id(root2, y) implies y <= t.next_id by {
        assert(contains_id(t.root, y));
    }
}

} // verus!
