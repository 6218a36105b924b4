//! The snapshot lineage tree: an owned forest of snapshot identifiers
//! recording which snapshot was branched from which. Nodes are kept in
//! branch order, so every node's parent stands earlier in the list; the
//! synthetic root is implicit and never stored.

use vstd::prelude::*;

use crate::codec;
use crate::errs::AshError;
use crate::order;

verus! {

/// Mathematical image of one stored node: a snapshot id and the id of the
/// snapshot it was branched from (`root` for top-level snapshots).
pub struct NodeView {
    pub id: Seq<char>,
    pub parent: Seq<char>,
}

/// One stored node of the lineage tree.
pub struct SnapshotNode {
    pub id: String,
    pub parent: String,
}

/// The id of the synthetic root, which is not itself a snapshot.
pub open spec fn root_id() -> Seq<char> {
    "root"@
}

/// Ids must be nonempty and free of the characters the persisted tree file
/// reserves as delimiters.
pub open spec fn valid_id_chars(s: Seq<char>) -> bool {
    s.len() > 0 && codec::no_char(s, ':') && codec::no_char(s, ';') && codec::no_char(s, '\n')
}

/// Some node of `ns` carries the id.
pub open spec fn contains_id(ns: Seq<NodeView>, id: Seq<char>) -> bool {
    exists|i: int| 0 <= i < ns.len() && ns[i].id == id
}

/// Well-formedness of the stored node list: ids are valid, unique, never the
/// synthetic root, and every parent is the root or the id of an earlier
/// node, so parent links can never cycle.
pub open spec fn wf_nodes(ns: Seq<NodeView>) -> bool {
    &&& forall|i: int| 0 <= i < ns.len() ==> valid_id_chars(#[trigger] ns[i].id)
    &&& forall|i: int| 0 <= i < ns.len() ==> (#[trigger] ns[i].id) != root_id()
    &&& forall|i: int, j: int| 0 <= i < j < ns.len() ==> ns[i].id != ns[j].id
    &&& forall|i: int|
        0 <= i < ns.len() ==> (#[trigger] ns[i].parent) == root_id() || exists|j: int|
            0 <= j < i && ns[j].id == ns[i].parent
}

/// The id of the base snapshot, which may never be structurally mutated.
pub open spec fn base_id() -> Seq<char> {
    "0"@
}

/// Some node of `ns` was branched directly from the snapshot carrying `id`.
pub open spec fn has_children(ns: Seq<NodeView>, id: Seq<char>) -> bool {
    exists|i: int| 0 <= i < ns.len() && ns[i].parent == id
}

/// Position of the node carrying `id`; meaningful when `contains_id` holds,
/// and then unique under `wf_nodes`.
pub open spec fn idx_of_id(ns: Seq<NodeView>, id: Seq<char>) -> int {
    choose|i: int| 0 <= i < ns.len() && ns[i].id == id
}

/// The parent recorded for the node carrying `id`.
pub open spec fn parent_id_in(ns: Seq<NodeView>, id: Seq<char>) -> Seq<char> {
    ns[idx_of_id(ns, id)].parent
}

/// Under well-formedness, the position of an id is unique.
pub proof fn lemma_idx_of_id(ns: Seq<NodeView>, i: int)
    requires
        wf_nodes(ns),
        0 <= i < ns.len(),
    ensures
        idx_of_id(ns, ns[i].id) == i,
{
    let id = ns[i].id;
    assert(0 <= i < ns.len() && ns[i].id == id);
    let j = idx_of_id(ns, id);
    assert(0 <= j < ns.len() && ns[j].id == id);
    if j < i {
        assert(ns[j].id != ns[i].id);
    } else if i < j {
        assert(ns[i].id != ns[j].id);
    }
}

/// What `remove` does: protect the root and the base snapshot, reject an
/// absent id or a node that still has children, and otherwise detach the
/// leaf.
pub open spec fn remove_result(ns: Seq<NodeView>, id: Seq<char>) -> Result<
    Seq<NodeView>,
    AshError,
> {
    if id == root_id() || id == base_id() {
        Err(AshError::Protected)
    } else if !contains_id(ns, id) {
        Err(AshError::UnknownId)
    } else if has_children(ns, id) {
        Err(AshError::HasChildren)
    } else {
        Ok(ns.remove(idx_of_id(ns, id)))
    }
}

/// The ids of the nodes branched directly from `id`, in branch order.
pub open spec fn children_in(ns: Seq<NodeView>, id: Seq<char>) -> Seq<Seq<char>>
    decreases ns.len(),
{
    if ns.len() == 0 {
        Seq::<Seq<char>>::empty()
    } else {
        let rest = children_in(ns.drop_last(), id);
        if ns.last().parent == id {
            rest.push(ns.last().id)
        } else {
            rest
        }
    }
}

/// A child id is listed exactly when some node records it under this parent.
pub proof fn lemma_children_in_iff(ns: Seq<NodeView>, id: Seq<char>, c: Seq<char>)
    ensures
        children_in(ns, id).contains(c) <==> exists|i: int|
            0 <= i < ns.len() && ns[i].parent == id && ns[i].id == c,
    decreases ns.len(),
{
    if ns.len() > 0 {
        lemma_children_in_iff(ns.drop_last(), id, c);
        let rest = children_in(ns.drop_last(), id);
        if ns.last().parent == id && ns.last().id == c {
            assert(children_in(ns, id).contains(c)) by {
                assert(children_in(ns, id).last() == c);
            }
        }
        if children_in(ns, id).contains(c) {
            if ns.last().parent == id {
                if c != ns.last().id || ns.last().parent != id {
                    if rest.push(ns.last().id).contains(c) && c != ns.last().id {
                        let k = choose|k: int|
                            0 <= k < rest.push(ns.last().id).len() && rest.push(
                                ns.last().id,
                            )[k] == c;
                        assert(rest[k] == c);
                        assert(rest.contains(c));
                    }
                }
            }
        }
        if exists|i: int| 0 <= i < ns.len() && ns[i].parent == id && ns[i].id == c {
            let i = choose|i: int| 0 <= i < ns.len() && ns[i].parent == id && ns[i].id == c;
            if i < ns.len() - 1 {
                assert(ns.drop_last()[i] == ns[i]);
                assert(rest.contains(c));
                if ns.last().parent == id {
                    let k = choose|k: int| 0 <= k < rest.len() && rest[k] == c;
                    assert(rest.push(ns.last().id)[k] == c);
                }
            }
        }
    }
}

/// A chain is the ancestor walk for `id`: it starts at `id`, every step goes
/// to the recorded parent, and it stops at the first occurrence of the
/// synthetic root. Under `wf_nodes` at most one chain satisfies this.
pub open spec fn ancestors_ok(ns: Seq<NodeView>, id: Seq<char>, chain: Seq<Seq<char>>) -> bool {
    &&& chain.len() >= 1
    &&& chain[0] == id
    &&& chain.last() == root_id()
    &&& forall|k: int| 0 <= k < chain.len() - 1 ==> (#[trigger] chain[k]) != root_id()
    &&& forall|k: int|
        0 <= k < chain.len() - 1 ==> contains_id(ns, #[trigger] chain[k]) && parent_id_in(
            ns,
            chain[k],
        ) == chain[k + 1]
}

/// At most one chain is the ancestor walk for an id: the relation stated by
/// `ancestors_ok` pins the walk completely.
pub proof fn lemma_ancestors_unique(
    ns: Seq<NodeView>,
    id: Seq<char>,
    c1: Seq<Seq<char>>,
    c2: Seq<Seq<char>>,
)
    requires
        wf_nodes(ns),
        ancestors_ok(ns, id, c1),
        ancestors_ok(ns, id, c2),
    ensures
        c1 == c2,
    decreases c1.len(),
{
    if id == root_id() {
        assert(c1.len() == 1) by {
            if c1.len() > 1 {
                assert(c1[0] != root_id());
            }
        }
        assert(c2.len() == 1) by {
            if c2.len() > 1 {
                assert(c2[0] != root_id());
            }
        }
        assert(c1 =~= c2);
    } else {
        assert(c1.len() >= 2) by {
            if c1.len() == 1 {
                assert(c1.last() == c1[0]);
            }
        }
        assert(c2.len() >= 2) by {
            if c2.len() == 1 {
                assert(c2.last() == c2[0]);
            }
        }
        assert(c1[1] == parent_id_in(ns, id) && c2[1] == parent_id_in(ns, id)) by {
            assert(0 <= 0 < c1.len() - 1);
            assert(0 <= 0 < c2.len() - 1);
        }
        let t1 = c1.skip(1);
        let t2 = c2.skip(1);
        assert(forall|k: int| 0 <= k < t1.len() ==> #[trigger] t1[k] == c1[k + 1]);
        assert(forall|k: int| 0 <= k < t2.len() ==> #[trigger] t2[k] == c2[k + 1]);
        let p = parent_id_in(ns, id);
        assert(ancestors_ok(ns, p, t1)) by {
            assert(t1[0] == c1[1]);
            assert(t1.last() == c1.last());
            assert forall|k: int| 0 <= k < t1.len() - 1 implies (#[trigger] t1[k]) != root_id()
                && contains_id(ns, t1[k]) && parent_id_in(ns, t1[k]) == t1[k + 1] by {
                assert(c1[k + 1] != root_id());
                assert(contains_id(ns, c1[k + 1]) && parent_id_in(ns, c1[k + 1]) == c1[k + 2]);
            }
        }
        assert(ancestors_ok(ns, p, t2)) by {
            assert(t2[0] == c2[1]);
            assert(t2.last() == c2.last());
            assert forall|k: int| 0 <= k < t2.len() - 1 implies (#[trigger] t2[k]) != root_id()
                && contains_id(ns, t2[k]) && parent_id_in(ns, t2[k]) == t2[k + 1] by {
                assert(c2[k + 1] != root_id());
                assert(contains_id(ns, c2[k + 1]) && parent_id_in(ns, c2[k + 1]) == c2[k + 2]);
            }
        }
        lemma_ancestors_unique(ns, p, t1, t2);
        assert(c1.len() == c2.len());
        assert forall|k: int| 0 <= k < c1.len() implies c1[k] == c2[k] by {
            if k > 0 {
                assert(t1[k - 1] == t2[k - 1]);
            }
        }
        assert(c1 =~= c2);
    }
}

/// The depth-first preorder listing of the subtree rooted at the node at
/// position `i`: the node's own id, then each child's whole subtree,
/// contiguously, children in branch order.
pub open spec fn subtree_at(ns: Seq<NodeView>, i: int) -> Seq<Seq<char>>
    decreases ns.len() - i, ns.len() + 2,
    when wf_nodes(ns) && 0 <= i < ns.len()
{
    seq![ns[i].id] + child_subtrees(ns, i, 0)
}

/// The concatenated preorder subtrees of every child of the node at
/// position `i` whose own position is at least `k`. Children stand strictly
/// after their parent, which bounds the recursion.
pub open spec fn child_subtrees(ns: Seq<NodeView>, i: int, k: int) -> Seq<Seq<char>>
    decreases ns.len() - i, ns.len() - k,
    when wf_nodes(ns) && 0 <= i < ns.len() && 0 <= k
    via child_subtrees_decreases
{
    if k >= ns.len() {
        Seq::<Seq<char>>::empty()
    } else if ns[k].parent == ns[i].id {
        subtree_at(ns, k) + child_subtrees(ns, i, k + 1)
    } else {
        child_subtrees(ns, i, k + 1)
    }
}

#[via_fn]
proof fn child_subtrees_decreases(ns: Seq<NodeView>, i: int, k: int) {
    if wf_nodes(ns) && 0 <= i < ns.len() && 0 <= k < ns.len() && ns[k].parent == ns[i].id {
        lemma_child_after_parent(ns, i, k);
    }
}

/// A node whose parent is the node at position `i` stands strictly after it.
pub proof fn lemma_child_after_parent(ns: Seq<NodeView>, i: int, k: int)
    requires
        wf_nodes(ns),
        0 <= i < ns.len(),
        0 <= k < ns.len(),
        ns[k].parent == ns[i].id,
    ensures
        i < k,
{
    assert(ns[k].parent != root_id()) by {
        assert(ns[i].id != root_id());
    }
    let j = choose|j: int| 0 <= j < k && ns[j].id == ns[k].parent;
    if j < i {
        assert(ns[j].id != ns[i].id);
    } else if i < j {
        assert(ns[i].id != ns[j].id);
    }
}

/// The preorder listing of the whole forest, restricted to the top-level
/// subtrees whose roots stand at position `k` or later.
pub open spec fn forest_preorder(ns: Seq<NodeView>, k: int) -> Seq<Seq<char>>
    decreases ns.len() - k, ns.len() + 3,
    when wf_nodes(ns) && 0 <= k
{
    if k >= ns.len() {
        Seq::<Seq<char>>::empty()
    } else if ns[k].parent == root_id() {
        subtree_at(ns, k) + forest_preorder(ns, k + 1)
    } else {
        forest_preorder(ns, k + 1)
    }
}

/// All snapshots whose lineage passes through `base`, `base` itself
/// included, in depth-first preorder: each node first, then its children's
/// whole subtrees contiguously, children in branch order.
pub open spec fn descendants(ns: Seq<NodeView>, base: Seq<char>) -> Seq<Seq<char>> {
    if base == root_id() {
        forest_preorder(ns, 0)
    } else if contains_id(ns, base) {
        subtree_at(ns, idx_of_id(ns, base))
    } else {
        Seq::<Seq<char>>::empty()
    }
}

/// As `descendants`, but without `base` itself.
pub open spec fn strict_descendants(ns: Seq<NodeView>, base: Seq<char>) -> Seq<Seq<char>> {
    if base == root_id() {
        forest_preorder(ns, 0)
    } else if contains_id(ns, base) {
        child_subtrees(ns, idx_of_id(ns, base), 0)
    } else {
        Seq::<Seq<char>>::empty()
    }
}

proof fn lemma_subtree_contained(ns: Seq<NodeView>, i: int)
    requires
        wf_nodes(ns),
        0 <= i < ns.len(),
    ensures
        forall|k: int|
            0 <= k < subtree_at(ns, i).len() ==> contains_id(
                ns,
                #[trigger] subtree_at(ns, i)[k],
            ),
    decreases ns.len() - i, ns.len() + 2,
{
    lemma_child_subtrees_contained(ns, i, 0);
    let s = subtree_at(ns, i);
    assert forall|k: int| 0 <= k < s.len() implies contains_id(ns, #[trigger] s[k]) by {
        if k == 0 {
            assert(s[0] == ns[i].id);
        } else {
            assert(s[k] == child_subtrees(ns, i, 0)[k - 1]);
        }
    }
}

proof fn lemma_child_subtrees_contained(ns: Seq<NodeView>, i: int, k: int)
    requires
        wf_nodes(ns),
        0 <= i < ns.len(),
        0 <= k,
    ensures
        forall|l: int|
            0 <= l < child_subtrees(ns, i, k).len() ==> contains_id(
                ns,
                #[trigger] child_subtrees(ns, i, k)[l],
            ),
    decreases ns.len() - i, ns.len() - k,
{
    if k >= ns.len() {
        assert(child_subtrees(ns, i, k) =~= Seq::<Seq<char>>::empty());
    } else if ns[k].parent == ns[i].id {
        lemma_child_after_parent(ns, i, k);
        lemma_subtree_contained(ns, k);
        lemma_child_subtrees_contained(ns, i, k + 1);
        let a = subtree_at(ns, k);
        let b = child_subtrees(ns, i, k + 1);
        assert(child_subtrees(ns, i, k) == a + b);
        assert forall|l: int| 0 <= l < child_subtrees(ns, i, k).len() implies contains_id(
            ns,
            #[trigger] child_subtrees(ns, i, k)[l],
        ) by {
            if l < a.len() {
                assert(child_subtrees(ns, i, k)[l] == a[l]);
            } else {
                assert(child_subtrees(ns, i, k)[l] == b[l - a.len()]);
            }
        }
    } else {
        lemma_child_subtrees_contained(ns, i, k + 1);
        let b = child_subtrees(ns, i, k + 1);
        assert(child_subtrees(ns, i, k) == b);
        assert forall|l: int| 0 <= l < child_subtrees(ns, i, k).len() implies contains_id(
            ns,
            #[trigger] child_subtrees(ns, i, k)[l],
        ) by {
            assert(child_subtrees(ns, i, k)[l] == b[l]);
        }
    }
}

proof fn lemma_forest_contained(ns: Seq<NodeView>, k: int)
    requires
        wf_nodes(ns),
        0 <= k,
    ensures
        forall|l: int|
            0 <= l < forest_preorder(ns, k).len() ==> contains_id(
                ns,
                #[trigger] forest_preorder(ns, k)[l],
            ),
    decreases ns.len() - k, ns.len() + 3,
{
    if k >= ns.len() {
        assert(forest_preorder(ns, k) =~= Seq::<Seq<char>>::empty());
    } else if ns[k].parent == root_id() {
        lemma_subtree_contained(ns, k);
        lemma_forest_contained(ns, k + 1);
        let a = subtree_at(ns, k);
        let b = forest_preorder(ns, k + 1);
        assert(forest_preorder(ns, k) == a + b);
        assert forall|l: int| 0 <= l < forest_preorder(ns, k).len() implies contains_id(
            ns,
            #[trigger] forest_preorder(ns, k)[l],
        ) by {
            if l < a.len() {
                assert(forest_preorder(ns, k)[l] == a[l]);
            } else {
                assert(forest_preorder(ns, k)[l] == b[l - a.len()]);
            }
        }
    } else {
        lemma_forest_contained(ns, k + 1);
        let b = forest_preorder(ns, k + 1);
        assert(forest_preorder(ns, k) == b);
        assert forall|l: int| 0 <= l < forest_preorder(ns, k).len() implies contains_id(
            ns,
            #[trigger] forest_preorder(ns, k)[l],
        ) by {
            assert(forest_preorder(ns, k)[l] == b[l]);
        }
    }
}

/// Node `j` lies in the subtree of node `i`: it is node `i` itself, or its
/// parent's node does.
pub open spec fn in_subtree(ns: Seq<NodeView>, i: int, j: int) -> bool
    decreases j,
    when wf_nodes(ns) && 0 <= i < ns.len() && 0 <= j < ns.len()
    via in_subtree_decreases
{
    i == j || (ns[j].parent != root_id() && in_subtree(ns, i, idx_of_id(ns, ns[j].parent)))
}

#[via_fn]
proof fn in_subtree_decreases(ns: Seq<NodeView>, i: int, j: int) {
    if wf_nodes(ns) && 0 <= i < ns.len() && 0 <= j < ns.len() && i != j && ns[j].parent
        != root_id() {
        let p = choose|p: int| 0 <= p < j && ns[p].id == ns[j].parent;
        lemma_idx_of_id(ns, p);
    }
}

/// The parent position of a non-top-level node stands strictly before it.
proof fn lemma_parent_idx(ns: Seq<NodeView>, j: int)
    requires
        wf_nodes(ns),
        0 <= j < ns.len(),
        ns[j].parent != root_id(),
    ensures
        0 <= idx_of_id(ns, ns[j].parent) < j,
        ns[idx_of_id(ns, ns[j].parent)].id == ns[j].parent,
{
    let p = choose|p: int| 0 <= p < j && ns[p].id == ns[j].parent;
    lemma_idx_of_id(ns, p);
}

/// Lying in a subtree is transitive along the lineage.
proof fn lemma_in_subtree_trans(ns: Seq<NodeView>, i: int, k: int, j: int)
    requires
        wf_nodes(ns),
        0 <= i < ns.len(),
        0 <= k < ns.len(),
        0 <= j < ns.len(),
        in_subtree(ns, i, k),
        in_subtree(ns, k, j),
    ensures
        in_subtree(ns, i, j),
    decreases j,
{
    if k == j {
    } else {
        lemma_parent_idx(ns, j);
        let p = idx_of_id(ns, ns[j].parent);
        lemma_in_subtree_trans(ns, i, k, p);
    }
}

/// Whatever a child's subtree lists, the scan over the parent's children
/// from any position at or before the child lists too.
proof fn lemma_child_subtrees_super(ns: Seq<NodeView>, i: int, k: int, j: int)
    requires
        wf_nodes(ns),
        0 <= i < ns.len(),
        0 <= k <= j < ns.len(),
        ns[j].parent == ns[i].id,
    ensures
        forall|x: Seq<char>|
            subtree_at(ns, j).contains(x) ==> #[trigger] child_subtrees(ns, i, k).contains(x),
    decreases j - k,
{
    if k == j {
        let a = subtree_at(ns, j);
        let b = child_subtrees(ns, i, j + 1);
        assert(child_subtrees(ns, i, k) == a + b);
        assert forall|x: Seq<char>| a.contains(x) implies #[trigger] child_subtrees(
            ns,
            i,
            k,
        ).contains(x) by {
            let l = choose|l: int| 0 <= l < a.len() && a[l] == x;
            assert(child_subtrees(ns, i, k)[l] == x);
        }
    } else {
        lemma_child_subtrees_super(ns, i, k + 1, j);
        if ns[k].parent == ns[i].id {
            let a = subtree_at(ns, k);
            let b = child_subtrees(ns, i, k + 1);
            assert(child_subtrees(ns, i, k) == a + b);
            assert forall|x: Seq<char>| subtree_at(ns, j).contains(x) implies
                #[trigger] child_subtrees(ns, i, k).contains(x) by {
                assert(b.contains(x));
                let l = choose|l: int| 0 <= l < b.len() && b[l] == x;
                assert(child_subtrees(ns, i, k)[a.len() + l] == x);
            }
        } else {
            assert(child_subtrees(ns, i, k) == child_subtrees(ns, i, k + 1));
        }
    }
}

/// Whatever a top-level node's subtree lists, the forest scan from any
/// position at or before it lists too.
proof fn lemma_forest_super(ns: Seq<NodeView>, k: int, j: int)
    requires
        wf_nodes(ns),
        0 <= k <= j < ns.len(),
        ns[j].parent == root_id(),
    ensures
        forall|x: Seq<char>|
            subtree_at(ns, j).contains(x) ==> #[trigger] forest_preorder(ns, k).contains(x),
    decreases j - k,
{
    if k == j {
        let a = subtree_at(ns, j);
        let b = forest_preorder(ns, j + 1);
        assert(forest_preorder(ns, k) == a + b);
        assert forall|x: Seq<char>| a.contains(x) implies #[trigger] forest_preorder(
            ns,
            k,
        ).contains(x) by {
            let l = choose|l: int| 0 <= l < a.len() && a[l] == x;
            assert(forest_preorder(ns, k)[l] == x);
        }
    } else {
        lemma_forest_super(ns, k + 1, j);
        if ns[k].parent == root_id() {
            let a = subtree_at(ns, k);
            let b = forest_preorder(ns, k + 1);
            assert(forest_preorder(ns, k) == a + b);
            assert forall|x: Seq<char>| subtree_at(ns, j).contains(x) implies
                #[trigger] forest_preorder(ns, k).contains(x) by {
                assert(b.contains(x));
                let l = choose|l: int| 0 <= l < b.len() && b[l] == x;
                assert(forest_preorder(ns, k)[a.len() + l] == x);
            }
        } else {
            assert(forest_preorder(ns, k) == forest_preorder(ns, k + 1));
        }
    }
}

/// The subtree of a node lying in node `i`'s subtree lists nothing beyond
/// what node `i`'s own subtree lists.
proof fn lemma_subtree_sub(ns: Seq<NodeView>, i: int, j: int)
    requires
        wf_nodes(ns),
        0 <= i < ns.len(),
        0 <= j < ns.len(),
        in_subtree(ns, i, j),
    ensures
        forall|x: Seq<char>|
            subtree_at(ns, j).contains(x) ==> #[trigger] subtree_at(ns, i).contains(x),
    decreases j,
{
    if i == j {
    } else {
        lemma_parent_idx(ns, j);
        let p = idx_of_id(ns, ns[j].parent);
        lemma_subtree_sub(ns, i, p);
        lemma_child_subtrees_super(ns, p, 0, j);
        let a = seq![ns[p].id];
        let b = child_subtrees(ns, p, 0);
        assert(subtree_at(ns, p) == a + b);
        assert forall|x: Seq<char>| subtree_at(ns, j).contains(x) implies
            #[trigger] subtree_at(ns, i).contains(x) by {
            assert(b.contains(x));
            let l = choose|l: int| 0 <= l < b.len() && b[l] == x;
            assert(subtree_at(ns, p)[1 + l] == x);
            assert(subtree_at(ns, p).contains(x));
        }
    }
}

/// Every element of a subtree listing is the id of a node lying in that
/// subtree.
proof fn lemma_subtree_origin(ns: Seq<NodeView>, i: int)
    requires
        wf_nodes(ns),
        0 <= i < ns.len(),
    ensures
        forall|x: Seq<char>|
            #[trigger] subtree_at(ns, i).contains(x) ==> exists|j: int|
                0 <= j < ns.len() && ns[j].id == x && in_subtree(ns, i, j),
    decreases ns.len() - i, ns.len() + 2,
{
    lemma_child_origin(ns, i, 0);
    assert forall|x: Seq<char>| #[trigger] subtree_at(ns, i).contains(x) implies exists|j: int|
        0 <= j < ns.len() && ns[j].id == x && in_subtree(ns, i, j) by {
        let l = choose|l: int| 0 <= l < subtree_at(ns, i).len() && subtree_at(ns, i)[l] == x;
        if l == 0 {
            assert(ns[i].id == x && in_subtree(ns, i, i));
        } else {
            assert(subtree_at(ns, i)[l] == child_subtrees(ns, i, 0)[l - 1]);
            assert(child_subtrees(ns, i, 0).contains(x));
        }
    }
}

proof fn lemma_child_origin(ns: Seq<NodeView>, i: int, k: int)
    requires
        wf_nodes(ns),
        0 <= i < ns.len(),
        0 <= k,
    ensures
        forall|x: Seq<char>|
            #[trigger] child_subtrees(ns, i, k).contains(x) ==> exists|j: int|
                0 <= j < ns.len() && ns[j].id == x && in_subtree(ns, i, j),
    decreases ns.len() - i, ns.len() - k,
{
    if k >= ns.len() {
        assert(child_subtrees(ns, i, k) =~= Seq::<Seq<char>>::empty());
    } else if ns[k].parent == ns[i].id {
        lemma_child_after_parent(ns, i, k);
        lemma_subtree_origin(ns, k);
        lemma_child_origin(ns, i, k + 1);
        let a = subtree_at(ns, k);
        let b = child_subtrees(ns, i, k + 1);
        assert(child_subtrees(ns, i, k) == a + b);
        assert(in_subtree(ns, i, k)) by {
            lemma_idx_of_id(ns, i);
            assert(ns[k].parent != root_id());
            assert(in_subtree(ns, i, i));
            assert(idx_of_id(ns, ns[k].parent) == i);
        }
        assert forall|x: Seq<char>| #[trigger] child_subtrees(ns, i, k).contains(x) implies
            exists|j: int| 0 <= j < ns.len() && ns[j].id == x && in_subtree(ns, i, j) by {
            let l = choose|l: int|
                0 <= l < child_subtrees(ns, i, k).len() && child_subtrees(ns, i, k)[l] == x;
            if l < a.len() {
                assert(a[l] == x);
                assert(a.contains(x));
                let j = choose|j: int| 0 <= j < ns.len() && ns[j].id == x && in_subtree(ns, k, j);
                lemma_in_subtree_trans(ns, i, k, j);
            } else {
                assert(b[l - a.len()] == x);
                assert(b.contains(x));
            }
        }
    } else {
        lemma_child_origin(ns, i, k + 1);
        assert(child_subtrees(ns, i, k) == child_subtrees(ns, i, k + 1));
    }
}

/// Law: the preorder subtree listing of node `i` holds exactly the ids of
/// the nodes whose lineage passes through node `i`, node `i` included.
pub proof fn lemma_subtree_members(ns: Seq<NodeView>, i: int, j: int)
    requires
        wf_nodes(ns),
        0 <= i < ns.len(),
        0 <= j < ns.len(),
    ensures
        subtree_at(ns, i).contains(ns[j].id) <==> in_subtree(ns, i, j),
{
    if in_subtree(ns, i, j) {
        lemma_subtree_sub(ns, i, j);
        assert(subtree_at(ns, j)[0] == ns[j].id);
        assert(subtree_at(ns, j).contains(ns[j].id));
    }
    if subtree_at(ns, i).contains(ns[j].id) {
        lemma_subtree_origin(ns, i);
        let j2 = choose|j2: int|
            0 <= j2 < ns.len() && ns[j2].id == ns[j].id && in_subtree(ns, i, j2);
        assert(j2 == j) by {
            if j2 < j {
                assert(ns[j2].id != ns[j].id);
            } else if j < j2 {
                assert(ns[j].id != ns[j2].id);
            }
        }
    }
}

/// Every subtree is listed by the whole-forest preorder.
proof fn lemma_subtree_in_forest(ns: Seq<NodeView>, j: int)
    requires
        wf_nodes(ns),
        0 <= j < ns.len(),
    ensures
        forall|x: Seq<char>|
            subtree_at(ns, j).contains(x) ==> #[trigger] forest_preorder(ns, 0).contains(x),
    decreases j,
{
    if ns[j].parent == root_id() {
        lemma_forest_super(ns, 0, j);
    } else {
        lemma_parent_idx(ns, j);
        let p = idx_of_id(ns, ns[j].parent);
        lemma_subtree_in_forest(ns, p);
        lemma_child_subtrees_super(ns, p, 0, j);
        let a = seq![ns[p].id];
        let b = child_subtrees(ns, p, 0);
        assert(subtree_at(ns, p) == a + b);
        assert forall|x: Seq<char>| subtree_at(ns, j).contains(x) implies
            #[trigger] forest_preorder(ns, 0).contains(x) by {
            assert(b.contains(x));
            let l = choose|l: int| 0 <= l < b.len() && b[l] == x;
            assert(subtree_at(ns, p)[1 + l] == x);
            assert(subtree_at(ns, p).contains(x));
        }
    }
}

/// Law: the whole-forest preorder listing is complete — every recorded
/// snapshot has its row, and nothing else does.
pub proof fn lemma_forest_members(ns: Seq<NodeView>)
    requires
        wf_nodes(ns),
    ensures
        forall|j: int| 0 <= j < ns.len() ==> forest_preorder(ns, 0).contains(#[trigger] ns[j].id),
        forall|x: Seq<char>|
            #[trigger] forest_preorder(ns, 0).contains(x) ==> contains_id(ns, x),
{
    lemma_forest_contained(ns, 0);
    assert forall|j: int| 0 <= j < ns.len() implies forest_preorder(ns, 0).contains(
        #[trigger] ns[j].id,
    ) by {
        lemma_subtree_in_forest(ns, j);
        assert(subtree_at(ns, j)[0] == ns[j].id);
        assert(subtree_at(ns, j).contains(ns[j].id));
    }
}

/// A node lies only in subtrees of nodes at or before it.
proof fn lemma_in_subtree_bound(ns: Seq<NodeView>, k: int, j: int)
    requires
        wf_nodes(ns),
        0 <= k < ns.len(),
        0 <= j < ns.len(),
        in_subtree(ns, k, j),
    ensures
        k <= j,
    decreases j,
{
    if k != j {
        lemma_parent_idx(ns, j);
        lemma_in_subtree_bound(ns, k, idx_of_id(ns, ns[j].parent));
    }
}

/// Two nodes holding a common node in their subtrees lie on one lineage.
proof fn lemma_in_subtree_comparable(ns: Seq<NodeView>, a: int, b: int, j: int)
    requires
        wf_nodes(ns),
        0 <= a < ns.len(),
        0 <= b < ns.len(),
        0 <= j < ns.len(),
        in_subtree(ns, a, j),
        in_subtree(ns, b, j),
    ensures
        in_subtree(ns, a, b) || in_subtree(ns, b, a),
    decreases j,
{
    if a == j {
        assert(in_subtree(ns, b, a));
    } else if b == j {
        assert(in_subtree(ns, a, b));
    } else {
        lemma_parent_idx(ns, j);
        lemma_in_subtree_comparable(ns, a, b, idx_of_id(ns, ns[j].parent));
    }
}

/// Two children of one node holding a common node in their subtrees are
/// one and the same child.
proof fn lemma_siblings_disjoint(ns: Seq<NodeView>, i: int, k1: int, k2: int, j: int)
    requires
        wf_nodes(ns),
        0 <= i < ns.len(),
        0 <= k1 < ns.len(),
        0 <= k2 < ns.len(),
        0 <= j < ns.len(),
        ns[k1].parent == ns[i].id,
        ns[k2].parent == ns[i].id,
        in_subtree(ns, k1, j),
        in_subtree(ns, k2, j),
    ensures
        k1 == k2,
{
    if k1 != k2 {
        lemma_siblings_must_coincide(ns, i, k1, k2, j);
    }
}

proof fn lemma_siblings_must_coincide(ns: Seq<NodeView>, i: int, k1: int, k2: int, j: int)
    requires
        wf_nodes(ns),
        0 <= i < ns.len(),
        0 <= k1 < ns.len(),
        0 <= k2 < ns.len(),
        0 <= j < ns.len(),
        k1 != k2,
        ns[k1].parent == ns[i].id,
        ns[k2].parent == ns[i].id,
        in_subtree(ns, k1, j),
        in_subtree(ns, k2, j),
    ensures
        k1 == k2,
{
    lemma_child_after_parent(ns, i, k1);
    lemma_child_after_parent(ns, i, k2);
    lemma_idx_of_id(ns, i);
    lemma_in_subtree_comparable(ns, k1, k2, j);
    if in_subtree(ns, k1, k2) {
        assert(in_subtree(ns, k1, i));
        lemma_in_subtree_bound(ns, k1, i);
    } else {
        assert(in_subtree(ns, k2, i));
        lemma_in_subtree_bound(ns, k2, i);
    }
}

/// Two top-level nodes holding a common node in their subtrees are one and
/// the same node.
proof fn lemma_top_disjoint(ns: Seq<NodeView>, k1: int, k2: int, j: int)
    requires
        wf_nodes(ns),
        0 <= k1 < ns.len(),
        0 <= k2 < ns.len(),
        0 <= j < ns.len(),
        ns[k1].parent == root_id(),
        ns[k2].parent == root_id(),
        in_subtree(ns, k1, j),
        in_subtree(ns, k2, j),
    ensures
        k1 == k2,
{
    lemma_in_subtree_comparable(ns, k1, k2, j);
    if in_subtree(ns, k1, k2) {
        if k1 != k2 {
            assert(ns[k2].parent != root_id());
        }
    } else {
        if k1 != k2 {
            assert(ns[k1].parent != root_id());
        }
    }
}

/// Every element of a child scan is the id of a node lying in the subtree
/// of some child at or after the scan position.
proof fn lemma_child_origin_refined(ns: Seq<NodeView>, i: int, k: int)
    requires
        wf_nodes(ns),
        0 <= i < ns.len(),
        0 <= k,
    ensures
        forall|x: Seq<char>|
            #[trigger] child_subtrees(ns, i, k).contains(x) ==> exists|c: int, j: int|
                k <= c < ns.len() && ns[c].parent == ns[i].id && 0 <= j < ns.len() && ns[j].id
                    == x && in_subtree(ns, c, j),
    decreases ns.len() - i, ns.len() - k,
{
    if k >= ns.len() {
        assert(child_subtrees(ns, i, k) =~= Seq::<Seq<char>>::empty());
    } else if ns[k].parent == ns[i].id {
        lemma_child_after_parent(ns, i, k);
        lemma_subtree_origin(ns, k);
        lemma_child_origin_refined(ns, i, k + 1);
        let a = subtree_at(ns, k);
        let b = child_subtrees(ns, i, k + 1);
        assert(child_subtrees(ns, i, k) == a + b);
        assert forall|x: Seq<char>| #[trigger] child_subtrees(ns, i, k).contains(x) implies
            exists|c: int, j: int|
                k <= c < ns.len() && ns[c].parent == ns[i].id && 0 <= j < ns.len() && ns[j].id
                    == x && in_subtree(ns, c, j) by {
            let l = choose|l: int|
                0 <= l < child_subtrees(ns, i, k).len() && child_subtrees(ns, i, k)[l] == x;
            if l < a.len() {
                assert(a[l] == x);
                assert(a.contains(x));
                let j = choose|j: int| 0 <= j < ns.len() && ns[j].id == x && in_subtree(ns, k, j);
                assert(k <= k < ns.len() && ns[k].parent == ns[i].id && in_subtree(ns, k, j));
            } else {
                assert(b[l - a.len()] == x);
                assert(b.contains(x));
            }
        }
    } else {
        lemma_child_origin_refined(ns, i, k + 1);
        assert(child_subtrees(ns, i, k) == child_subtrees(ns, i, k + 1));
    }
}

/// Every element of a forest scan is the id of a node lying in the subtree
/// of some top-level node at or after the scan position.
proof fn lemma_forest_origin_refined(ns: Seq<NodeView>, k: int)
    requires
        wf_nodes(ns),
        0 <= k,
    ensures
        forall|x: Seq<char>|
            #[trigger] forest_preorder(ns, k).contains(x) ==> exists|c: int, j: int|
                k <= c < ns.len() && ns[c].parent == root_id() && 0 <= j < ns.len() && ns[j].id
                    == x && in_subtree(ns, c, j),
    decreases ns.len() - k, ns.len() + 3,
{
    if k >= ns.len() {
        assert(forest_preorder(ns, k) =~= Seq::<Seq<char>>::empty());
    } else if ns[k].parent == root_id() {
        lemma_subtree_origin(ns, k);
        lemma_forest_origin_refined(ns, k + 1);
        let a = subtree_at(ns, k);
        let b = forest_preorder(ns, k + 1);
        assert(forest_preorder(ns, k) == a + b);
        assert forall|x: Seq<char>| #[trigger] forest_preorder(ns, k).contains(x) implies exists|
            c: int,
            j: int,
        |
            k <= c < ns.len() && ns[c].parent == root_id() && 0 <= j < ns.len() && ns[j].id == x
                && in_subtree(ns, c, j) by {
            let l = choose|l: int|
                0 <= l < forest_preorder(ns, k).len() && forest_preorder(ns, k)[l] == x;
            if l < a.len() {
                assert(a[l] == x);
                assert(a.contains(x));
                let j = choose|j: int| 0 <= j < ns.len() && ns[j].id == x && in_subtree(ns, k, j);
                assert(k <= k < ns.len() && ns[k].parent == root_id() && in_subtree(ns, k, j));
            } else {
                assert(b[l - a.len()] == x);
                assert(b.contains(x));
            }
        }
    } else {
        lemma_forest_origin_refined(ns, k + 1);
        assert(forest_preorder(ns, k) == forest_preorder(ns, k + 1));
    }
}

/// Concatenating two duplicate-free lists with no common element stays
/// duplicate-free.
proof fn lemma_concat_no_dup(a: Seq<Seq<char>>, b: Seq<Seq<char>>)
    requires
        a.no_duplicates(),
        b.no_duplicates(),
        forall|x: Seq<char>| a.contains(x) ==> !#[trigger] b.contains(x),
    ensures
        (a + b).no_duplicates(),
{
    assert forall|l1: int, l2: int|
        0 <= l1 < (a + b).len() && 0 <= l2 < (a + b).len() && l1 != l2 implies (a + b)[l1] != (a
        + b)[l2] by {
        if l1 < a.len() && l2 < a.len() {
        } else if l1 >= a.len() && l2 >= a.len() {
            assert((a + b)[l1] == b[l1 - a.len()]);
            assert((a + b)[l2] == b[l2 - a.len()]);
        } else if l1 < a.len() {
            assert((a + b)[l1] == a[l1]);
            assert((a + b)[l2] == b[l2 - a.len()]);
            if a[l1] == b[l2 - a.len()] {
                assert(a.contains(a[l1]));
                assert(b.contains(a[l1]));
            }
        } else {
            assert((a + b)[l1] == b[l1 - a.len()]);
            assert((a + b)[l2] == a[l2]);
            if a[l2] == b[l1 - a.len()] {
                assert(a.contains(a[l2]));
                assert(b.contains(a[l2]));
            }
        }
    }
}

proof fn lemma_subtree_no_dup(ns: Seq<NodeView>, i: int)
    requires
        wf_nodes(ns),
        0 <= i < ns.len(),
    ensures
        subtree_at(ns, i).no_duplicates(),
    decreases ns.len() - i, ns.len() + 2,
{
    lemma_child_no_dup(ns, i, 0);
    let a = seq![ns[i].id];
    let b = child_subtrees(ns, i, 0);
    assert(a.no_duplicates());
    assert forall|x: Seq<char>| a.contains(x) implies !#[trigger] b.contains(x) by {
        assert(x == ns[i].id);
        if b.contains(x) {
            lemma_child_origin_refined(ns, i, 0);
            let (c, j) = choose|c: int, j: int|
                0 <= c < ns.len() && ns[c].parent == ns[i].id && 0 <= j < ns.len() && ns[j].id
                    == x && in_subtree(ns, c, j);
            assert(j == i) by {
                if j < i {
                    assert(ns[j].id != ns[i].id);
                } else if i < j {
                    assert(ns[i].id != ns[j].id);
                }
            }
            lemma_in_subtree_bound(ns, c, i);
            lemma_child_after_parent(ns, i, c);
        }
    }
    lemma_concat_no_dup(a, b);
    assert(subtree_at(ns, i) == a + b);
}

proof fn lemma_child_no_dup(ns: Seq<NodeView>, i: int, k: int)
    requires
        wf_nodes(ns),
        0 <= i < ns.len(),
        0 <= k,
    ensures
        child_subtrees(ns, i, k).no_duplicates(),
    decreases ns.len() - i, ns.len() - k,
{
    if k >= ns.len() {
        assert(child_subtrees(ns, i, k) =~= Seq::<Seq<char>>::empty());
    } else if ns[k].parent == ns[i].id {
        lemma_child_after_parent(ns, i, k);
        lemma_subtree_no_dup(ns, k);
        lemma_child_no_dup(ns, i, k + 1);
        let a = subtree_at(ns, k);
        let b = child_subtrees(ns, i, k + 1);
        assert forall|x: Seq<char>| a.contains(x) implies !#[trigger] b.contains(x) by {
            if b.contains(x) {
                lemma_subtree_origin(ns, k);
                let j1 = choose|j1: int|
                    0 <= j1 < ns.len() && ns[j1].id == x && in_subtree(ns, k, j1);
                lemma_child_origin_refined(ns, i, k + 1);
                let (c, j2) = choose|c: int, j2: int|
                    k + 1 <= c < ns.len() && ns[c].parent == ns[i].id && 0 <= j2 < ns.len()
                        && ns[j2].id == x && in_subtree(ns, c, j2);
                assert(j1 == j2) by {
                    if j1 < j2 {
                        assert(ns[j1].id != ns[j2].id);
                    } else if j2 < j1 {
                        assert(ns[j2].id != ns[j1].id);
                    }
                }
                lemma_siblings_disjoint(ns, i, k, c, j1);
            }
        }
        lemma_concat_no_dup(a, b);
        assert(child_subtrees(ns, i, k) == a + b);
    } else {
        lemma_child_no_dup(ns, i, k + 1);
        assert(child_subtrees(ns, i, k) == child_subtrees(ns, i, k + 1));
    }
}

proof fn lemma_forest_no_dup(ns: Seq<NodeView>, k: int)
    requires
        wf_nodes(ns),
        0 <= k,
    ensures
        forest_preorder(ns, k).no_duplicates(),
    decreases ns.len() - k, ns.len() + 3,
{
    if k >= ns.len() {
        assert(forest_preorder(ns, k) =~= Seq::<Seq<char>>::empty());
    } else if ns[k].parent == root_id() {
        lemma_subtree_no_dup(ns, k);
        lemma_forest_no_dup(ns, k + 1);
        let a = subtree_at(ns, k);
        let b = forest_preorder(ns, k + 1);
        assert forall|x: Seq<char>| a.contains(x) implies !#[trigger] b.contains(x) by {
            if b.contains(x) {
                lemma_subtree_origin(ns, k);
                let j1 = choose|j1: int|
                    0 <= j1 < ns.len() && ns[j1].id == x && in_subtree(ns, k, j1);
                lemma_forest_origin_refined(ns, k + 1);
                let (c, j2) = choose|c: int, j2: int|
                    k + 1 <= c < ns.len() && ns[c].parent == root_id() && 0 <= j2 < ns.len()
                        && ns[j2].id == x && in_subtree(ns, c, j2);
                assert(j1 == j2) by {
                    if j1 < j2 {
                        assert(ns[j1].id != ns[j2].id);
                    } else if j2 < j1 {
                        assert(ns[j2].id != ns[j1].id);
                    }
                }
                lemma_top_disjoint(ns, k, c, j1);
            }
        }
        lemma_concat_no_dup(a, b);
        assert(forest_preorder(ns, k) == a + b);
    } else {
        lemma_forest_no_dup(ns, k + 1);
        assert(forest_preorder(ns, k) == forest_preorder(ns, k + 1));
    }
}

/// Law: the whole-forest preorder lists every recorded snapshot exactly
/// once — it is duplicate-free and its length is the number of nodes.
pub proof fn lemma_forest_exact(ns: Seq<NodeView>)
    requires
        wf_nodes(ns),
    ensures
        forest_preorder(ns, 0).no_duplicates(),
        forest_preorder(ns, 0).len() == ns.len(),
{
    broadcast use vstd::seq_lib::group_seq_properties;

    lemma_forest_no_dup(ns, 0);
    lemma_forest_members(ns);
    let f = forest_preorder(ns, 0);
    let ids = ns.map_values(|n: NodeView| n.id);
    assert(ids.no_duplicates()) by {
        assert(forall|l1: int, l2: int|
            0 <= l1 < ids.len() && 0 <= l2 < ids.len() && l1 != l2 ==> ids[l1] != ids[l2]);
    }
    assert forall|x: Seq<char>| f.contains(x) implies ids.contains(x) by {
        assert(contains_id(ns, x));
        let j = choose|j: int| 0 <= j < ns.len() && ns[j].id == x;
        assert(ids[j] == x);
    }
    assert forall|x: Seq<char>| ids.contains(x) implies f.contains(x) by {
        let j = choose|j: int| 0 <= j < ids.len() && ids[j] == x;
        assert(ns[j].id == x);
        assert(f.contains(ns[j].id));
    }
    assert(f.to_set() =~= ids.to_set());
    f.unique_seq_to_set();
    ids.unique_seq_to_set();
}

/// Every listed strict descendant is a recorded node id.
pub proof fn lemma_strict_descendants_contained(ns: Seq<NodeView>, base: Seq<char>)
    requires
        wf_nodes(ns),
    ensures
        forall|k: int|
            0 <= k < strict_descendants(ns, base).len() ==> contains_id(
                ns,
                #[trigger] strict_descendants(ns, base)[k],
            ),
{
    if base == root_id() {
        lemma_forest_contained(ns, 0);
    } else if contains_id(ns, base) {
        let i = idx_of_id(ns, base);
        assert(0 <= i < ns.len() && ns[i].id == base);
        lemma_child_subtrees_contained(ns, i, 0);
    }
}

/// For a list of descendant ids, the flat sequence of pairs
/// `parent, child`, in list order.
pub open spec fn lineage_pairs(ns: Seq<NodeView>, ids: Seq<Seq<char>>) -> Seq<Seq<char>>
    decreases ids.len(),
{
    if ids.len() == 0 {
        Seq::<Seq<char>>::empty()
    } else {
        lineage_pairs(ns, ids.drop_last()) + seq![
            parent_id_in(ns, ids.last()),
            ids.last(),
        ]
    }
}

/// What `insert` does: reject an invalid id, a duplicate id, or an unknown
/// parent, and otherwise add a leaf at the end.
pub open spec fn insert_result(ns: Seq<NodeView>, id: Seq<char>, parent: Seq<char>) -> Result<
    Seq<NodeView>,
    AshError,
> {
    if !valid_id_chars(id) {
        Err(AshError::InvalidId)
    } else if id == root_id() || contains_id(ns, id) {
        Err(AshError::DuplicateId)
    } else if parent != root_id() && !contains_id(ns, parent) {
        Err(AshError::UnknownParent)
    } else {
        Ok(ns.push(NodeView { id, parent }))
    }
}

/// One persisted record: the node's id, a colon, the parent's id.
pub open spec fn ser_node(n: NodeView) -> Seq<char> {
    n.id + seq![':'] + n.parent
}

/// The persisted records of all nodes, in branch order.
pub open spec fn ser_records(ns: Seq<NodeView>) -> Seq<Seq<char>> {
    ns.map_values(|n: NodeView| ser_node(n))
}

/// The persisted form of the forest: the records joined by semicolons, one
/// line for the whole forest.
pub open spec fn ser_tree(ns: Seq<NodeView>) -> Seq<char> {
    if ns.len() == 0 {
        Seq::<char>::empty()
    } else {
        codec::join(ser_records(ns), ';')
    }
}

/// A record parses when it splits at the colon into exactly an id and a
/// parent.
pub open spec fn parse_record(r: Seq<char>) -> Option<NodeView> {
    let ps = codec::split(r, ':');
    if ps.len() == 2 {
        Some(NodeView { id: ps[0], parent: ps[1] })
    } else {
        None
    }
}

/// All records parsed in order; any malformed record rejects the file.
pub open spec fn parse_records(rs: Seq<Seq<char>>) -> Option<Seq<NodeView>>
    decreases rs.len(),
{
    if rs.len() == 0 {
        Some(Seq::<NodeView>::empty())
    } else {
        match (parse_records(rs.drop_last()), parse_record(rs.last())) {
            (Some(ns), Some(n)) => Some(ns.push(n)),
            _ => None,
        }
    }
}

/// The node list encoded by a persisted tree file, if it parses.
pub open spec fn deser_tree(s: Seq<char>) -> Option<Seq<NodeView>> {
    if s.len() == 0 {
        Some(Seq::<NodeView>::empty())
    } else {
        parse_records(codec::split(s, ';'), )
    }
}

/// The synthetic root's id contains none of the reserved characters.
pub proof fn lemma_root_id_chars()
    ensures
        root_id().len() == 4,
        codec::no_char(root_id(), ':'),
        codec::no_char(root_id(), ';'),
        codec::no_char(root_id(), '\n'),
{
    reveal_strlit("root");
    assert forall|i: int| 0 <= i < root_id().len() implies root_id()[i] != ':' && root_id()[i]
        != ';' && root_id()[i] != '\n' by {
        if i == 0 {
        } else if i == 1 {
        } else if i == 2 {
        } else {
            assert(i == 3);
        }
    }
}

/// Parsing inverts serialization record by record.
pub proof fn lemma_parse_of_ser_records(ns: Seq<NodeView>)
    requires
        forall|i: int| 0 <= i < ns.len() ==> valid_id_chars(#[trigger] ns[i].id),
        forall|i: int|
            0 <= i < ns.len() ==> valid_id_chars(#[trigger] ns[i].parent) || ns[i].parent
                == root_id(),
    ensures
        parse_records(ser_records(ns)) == Some(ns),
    decreases ns.len(),
{
    lemma_root_id_chars();
    if ns.len() == 0 {
        assert(ser_records(ns) =~= Seq::<Seq<char>>::empty());
    } else {
        assert(forall|i: int|
            0 <= i < ns.drop_last().len() ==> #[trigger] ns.drop_last()[i] == ns[i]);
        lemma_parse_of_ser_records(ns.drop_last());
        let rs = ser_records(ns);
        assert(rs.drop_last() =~= ser_records(ns.drop_last()));
        let n = ns.last();
        assert(rs.last() == ser_node(n));
        codec::lemma_split_sep_prefix(n.id, n.parent, ':');
        codec::lemma_split_no_sep(n.parent, ':');
        assert(codec::split(ser_node(n), ':') =~= seq![n.id, n.parent]);
        assert(parse_record(ser_node(n)) == Some(NodeView { id: n.id, parent: n.parent }));
        assert(NodeView { id: n.id, parent: n.parent } == n);
        assert(parse_records(rs) == Some(ns.drop_last().push(n)));
        assert(ns.drop_last().push(n) =~= ns);
    }
}

/// Round trip: loading what `save` wrote restores the identical node list,
/// and with it the identical node set and parent relation.
pub proof fn lemma_deser_of_ser(ns: Seq<NodeView>)
    requires
        wf_nodes(ns),
    ensures
        deser_tree(ser_tree(ns)) == Some(ns),
{
    if ns.len() == 0 {
        assert(deser_tree(ser_tree(ns)) == Some(Seq::<NodeView>::empty()));
        assert(Seq::<NodeView>::empty() =~= ns);
    } else {
        lemma_root_id_chars();
        let rs = ser_records(ns);
        assert forall|i: int| 0 <= i < rs.len() implies codec::no_char(#[trigger] rs[i], ';') by {
            assert(rs[i] == ser_node(ns[i]));
            assert(valid_id_chars(ns[i].id));
            if ns[i].parent != root_id() {
                let j = choose|j: int| 0 <= j < i && ns[j].id == ns[i].parent;
                assert(valid_id_chars(ns[j].id));
            }
            assert(codec::no_char(ns[i].parent, ';'));
        }
        codec::lemma_split_join(rs, ';');
        assert(ser_tree(ns).len() > 0) by {
            assert(valid_id_chars(ns[0].id));
            if rs.len() == 1 {
                assert(codec::join(rs, ';') == rs[0]);
                assert(rs[0] == ser_node(ns[0]));
            } else {
                assert(codec::join(rs, ';') == rs[0] + seq![';'] + codec::join(rs.skip(1), ';'));
            }
            assert(ser_node(ns[0]).len() >= 2);
        }
        assert forall|i: int| 0 <= i < ns.len() implies valid_id_chars(#[trigger] ns[i].parent)
            || ns[i].parent == root_id() by {
            if ns[i].parent != root_id() {
                let j = choose|j: int| 0 <= j < i && ns[j].id == ns[i].parent;
                assert(valid_id_chars(ns[j].id));
            }
        }
        lemma_parse_of_ser_records(ns);
    }
}

/// A parse failure on any prefix rejects the whole record list.
pub proof fn lemma_parse_records_prefix_none(rs: Seq<Seq<char>>, i: int)
    requires
        0 <= i <= rs.len(),
        parse_records(rs.take(i)) is None,
    ensures
        parse_records(rs) is None,
    decreases rs.len() - i,
{
    if i == rs.len() {
        assert(rs.take(i) =~= rs);
    } else {
        assert(rs.take(i + 1).drop_last() =~= rs.take(i));
        lemma_parse_records_prefix_none(rs, i + 1);
    }
}

/// A successful parse determines every prefix.
pub proof fn lemma_parse_records_prefixes(rs: Seq<Seq<char>>, ns: Seq<NodeView>)
    requires
        parse_records(rs) == Some(ns),
    ensures
        ns.len() == rs.len(),
        forall|k: int| 0 <= k <= rs.len() ==> parse_records(#[trigger] rs.take(k)) == Some(
            ns.take(k),
        ),
    decreases rs.len(),
{
    if rs.len() == 0 {
        assert(rs.take(0) =~= rs);
        assert(ns.take(0) =~= ns);
    } else {
        let ns0 = parse_records(rs.drop_last()).unwrap();
        assert(ns == ns0.push(parse_record(rs.last()).unwrap()));
        lemma_parse_records_prefixes(rs.drop_last(), ns0);
        assert(ns0 =~= ns.drop_last());
        assert forall|k: int| 0 <= k <= rs.len() implies parse_records(#[trigger] rs.take(k))
            == Some(ns.take(k)) by {
            if k < rs.len() {
                assert(rs.take(k) =~= rs.drop_last().take(k));
                assert(ns.take(k) =~= ns.drop_last().take(k));
            } else {
                assert(rs.take(k) =~= rs);
                assert(ns.take(k) =~= ns);
            }
        }
    }
}

/// Well-formedness restricts to every prefix of the node list.
pub proof fn lemma_wf_take(ns: Seq<NodeView>, k: int)
    requires
        wf_nodes(ns),
        0 <= k <= ns.len(),
    ensures
        wf_nodes(ns.take(k)),
{
    let p = ns.take(k);
    assert(forall|i: int| 0 <= i < p.len() ==> #[trigger] p[i] == ns[i]);
    assert forall|i: int|
        0 <= i < p.len() implies (#[trigger] p[i].parent) == root_id() || exists|j: int|
        0 <= j < i && p[j].id == p[i].parent by {
        if ns[i].parent != root_id() {
            let j = choose|j: int| 0 <= j < i && ns[j].id == ns[i].parent;
            assert(p[j].id == p[i].parent);
        }
    }
}

/// Depth of the node at position `i`: one for a top-level snapshot, one
/// more for each branch below it.
pub open spec fn depth_of(ns: Seq<NodeView>, i: int) -> nat
    decreases i,
    when wf_nodes(ns) && 0 <= i < ns.len()
    via depth_of_decreases
{
    if ns[i].parent == root_id() {
        1nat
    } else {
        (1 + depth_of(ns, idx_of_id(ns, ns[i].parent))) as nat
    }
}

#[via_fn]
proof fn depth_of_decreases(ns: Seq<NodeView>, i: int) {
    if wf_nodes(ns) && 0 <= i < ns.len() && ns[i].parent != root_id() {
        let j = choose|j: int| 0 <= j < i && ns[j].id == ns[i].parent;
        lemma_idx_of_id(ns, j);
    }
}

/// The description recorded for `id`, if any: the first matching pair.
pub open spec fn lookup_desc(ds: Seq<(Seq<char>, Seq<char>)>, id: Seq<char>) -> Option<Seq<char>>
    decreases ds.len(),
{
    if ds.len() == 0 {
        None
    } else if ds[0].0 == id {
        Some(ds[0].1)
    } else {
        lookup_desc(ds.skip(1), id)
    }
}

/// Indentation of a display row: two spaces per level below the top.
pub open spec fn indent_chars(d: nat) -> Seq<char>
    decreases d,
{
    if d == 0 {
        Seq::<char>::empty()
    } else {
        indent_chars((d - 1) as nat) + "  "@
    }
}

/// The display row for node `i`: indentation, a star when it is the current
/// snapshot, the id, and its description (the base snapshot has one even
/// without a recorded entry).
pub open spec fn display_row(
    ns: Seq<NodeView>,
    ds: Seq<(Seq<char>, Seq<char>)>,
    current: Seq<char>,
    i: int,
) -> Seq<char> {
    let marker: Seq<char> = if ns[i].id == current {
        "*"@
    } else {
        Seq::<char>::empty()
    };
    let desc: Seq<char> = match lookup_desc(ds, ns[i].id) {
        Some(d) => d,
        None => if ns[i].id == base_id() {
            "base snapshot"@
        } else {
            Seq::<char>::empty()
        },
    };
    indent_chars((depth_of(ns, i) - 1) as nat) + marker + ns[i].id + " is "@ + desc
}

/// The display rows for a list of node ids, one row per id in list order.
pub open spec fn rows_for(
    ns: Seq<NodeView>,
    ds: Seq<(Seq<char>, Seq<char>)>,
    current: Seq<char>,
    ids: Seq<Seq<char>>,
) -> Seq<Seq<char>> {
    Seq::new(ids.len(), |k: int| display_row(ns, ds, current, idx_of_id(ns, ids[k])))
}

/// Row building distributes over concatenation of id lists.
pub proof fn lemma_rows_for_concat(
    ns: Seq<NodeView>,
    ds: Seq<(Seq<char>, Seq<char>)>,
    current: Seq<char>,
    a: Seq<Seq<char>>,
    b: Seq<Seq<char>>,
)
    ensures
        rows_for(ns, ds, current, a + b) == rows_for(ns, ds, current, a) + rows_for(
            ns,
            ds,
            current,
            b,
        ),
{
    assert forall|k: int| 0 <= k < (a + b).len() implies rows_for(ns, ds, current, a + b)[k] == (
    rows_for(ns, ds, current, a) + rows_for(ns, ds, current, b))[k] by {
        if k < a.len() {
            assert((a + b)[k] == a[k]);
        } else {
            assert((a + b)[k] == b[k - a.len()]);
        }
    }
    assert(rows_for(ns, ds, current, a + b) =~= rows_for(ns, ds, current, a) + rows_for(
        ns,
        ds,
        current,
        b,
    ));
}

/// The persisted forest of snapshot nodes.
pub struct SnapshotTree {
    nodes: Vec<SnapshotNode>,
}

impl View for SnapshotTree {
    type V = Seq<NodeView>;

    closed spec fn view(&self) -> Seq<NodeView> {
        self.nodes@.map_values(|n: SnapshotNode| NodeView { id: n.id@, parent: n.parent@ })
    }
}

impl SnapshotTree {
    /// The tree's structural invariant.
    pub open spec fn wf(&self) -> bool {
        wf_nodes(self@)
    }

    /// An empty forest: only the implicit synthetic root.
    pub fn new() -> (t: Self)
        ensures
            t.wf(),
            t@ == Seq::<NodeView>::empty(),
    {
        let t = SnapshotTree { nodes: Vec::new() };
        proof {
            assert(t@ =~= Seq::<NodeView>::empty());
        }
        t
    }

    /// Position of the node carrying `id`, by exact string equality.
    fn find_index(&self, id: &str) -> (r: Option<usize>)
        ensures
            match r {
                Some(i) => i < self@.len() && self@[i as int].id == id@,
                None => !contains_id(self@, id@),
            },
    {
        let mut i: usize = 0;
        while i < self.nodes.len()
            invariant
                i <= self.nodes.len(),
                self@.len() == self.nodes@.len(),
                forall|j: int| 0 <= j < i ==> (#[trigger] self@[j].id) != id@,
            decreases self.nodes.len() - i,
        {
            if order::str_eq(self.nodes[i].id.as_str(), id) {
                return Some(i);
            }
            i = i + 1;
        }
        None
    }

    /// Whether a snapshot with the given id is recorded in the tree.
    pub fn contains(&self, id: &str) -> (r: bool)
        ensures
            r == contains_id(self@, id@),
    {
        self.find_index(id).is_some()
    }

    /// Number of recorded snapshots (the synthetic root not counted).
    pub fn len(&self) -> (n: usize)
        ensures
            n == self@.len(),
    {
        self.nodes.len()
    }

    /// Add a freshly branched snapshot `id` as a leaf under `parent`.
    pub fn insert(&mut self, id: &str, parent: &str) -> (r: Result<(), AshError>)
        requires
            old(self).wf(),
        ensures
            final(self).wf(),
            match r {
                Ok(()) => insert_result(old(self)@, id@, parent@) == Ok::<_, AshError>(
                    final(self)@,
                ),
                Err(e) => insert_result(old(self)@, id@, parent@) == Err::<Seq<NodeView>, _>(e)
                    && final(self)@ == old(self)@,
            },
    {
        if !check_id_chars(id) {
            return Err(AshError::InvalidId);
        }
        if order::str_eq(id, "root") || self.contains(id) {
            return Err(AshError::DuplicateId);
        }
        if !order::str_eq(parent, "root") && !self.contains(parent) {
            return Err(AshError::UnknownParent);
        }
        let node = SnapshotNode { id: id.to_owned(), parent: parent.to_owned() };
        let ghost pre = self@;
        self.nodes.push(node);
        proof {
            let nv = NodeView { id: id@, parent: parent@ };
            assert(self@ =~= pre.push(nv));
            assert forall|i: int| 0 <= i < self@.len() implies valid_id_chars(
                #[trigger] self@[i].id,
            ) && self@[i].id != root_id() by {
                if i < pre.len() {
                    assert(self@[i] == pre[i]);
                }
            }
            assert forall|i: int, j: int| 0 <= i < j < self@.len() implies self@[i].id
                != self@[j].id by {
                assert(self@[i] == pre[i]);
                if j < pre.len() {
                    assert(self@[j] == pre[j]);
                } else {
                    assert(!contains_id(pre, id@));
                }
            }
            assert forall|i: int|
                0 <= i < self@.len() implies (#[trigger] self@[i].parent) == root_id() || exists|
                j: int,
            | 0 <= j < i && self@[j].id == self@[i].parent by {
                if i < pre.len() {
                    assert(self@[i] == pre[i]);
                    if pre[i].parent != root_id() {
                        let j = choose|j: int| 0 <= j < i && pre[j].id == pre[i].parent;
                        assert(self@[j].id == self@[i].parent);
                    }
                } else {
                    if parent@ != root_id() {
                        let j = choose|j: int|
                            0 <= j < pre.len() && pre[j].id == parent@;
                        assert(self@[j].id == self@[i].parent);
                    }
                }
            }
        }
        Ok(())
    }

    /// Whether any snapshot is recorded as branched directly from `id`.
    fn any_child(&self, id: &str) -> (r: bool)
        ensures
            r == has_children(self@, id@),
    {
        let mut i: usize = 0;
        while i < self.nodes.len()
            invariant
                i <= self.nodes.len(),
                self@.len() == self.nodes@.len(),
                forall|j: int| 0 <= j < i ==> (#[trigger] self@[j].parent) != id@,
            decreases self.nodes.len() - i,
        {
            if order::str_eq(self.nodes[i].parent.as_str(), id) {
                proof {
                    assert(self@[i as int].parent == id@);
                }
                return true;
            }
            i = i + 1;
        }
        false
    }

    /// Detach the snapshot `id` from the tree. The synthetic root and the
    /// base snapshot are protected; a node that still has children is kept.
    pub fn remove(&mut self, id: &str) -> (r: Result<(), AshError>)
        requires
            old(self).wf(),
        ensures
            final(self).wf(),
            match r {
                Ok(()) => remove_result(old(self)@, id@) == Ok::<_, AshError>(final(self)@),
                Err(e) => remove_result(old(self)@, id@) == Err::<Seq<NodeView>, _>(e)
                    && final(self)@ == old(self)@,
            },
    {
        if order::str_eq(id, "root") || order::str_eq(id, "0") {
            return Err(AshError::Protected);
        }
        let i = match self.find_index(id) {
            None => {
                return Err(AshError::UnknownId);
            },
            Some(i) => i,
        };
        if self.any_child(id) {
            return Err(AshError::HasChildren);
        }
        let ghost pre = self@;
        self.nodes.remove(i);
        proof {
            lemma_idx_of_id(pre, i as int);
            assert(self@ =~= pre.remove(i as int));
            let post = pre.remove(i as int);
            assert forall|k: int| 0 <= k < post.len() implies valid_id_chars(
                #[trigger] post[k].id,
            ) && post[k].id != root_id() by {
                if k < i {
                    assert(post[k] == pre[k]);
                } else {
                    assert(post[k] == pre[k + 1]);
                }
            }
            assert forall|k: int, l: int| 0 <= k < l < post.len() implies post[k].id
                != post[l].id by {
                let k0 = if k < i { k } else { k + 1 };
                let l0 = if l < i { l } else { l + 1 };
                assert(post[k] == pre[k0]);
                assert(post[l] == pre[l0]);
            }
            assert forall|k: int|
                0 <= k < post.len() implies (#[trigger] post[k].parent) == root_id() || exists|
                j: int,
            | 0 <= j < k && post[j].id == post[k].parent by {
                let k0 = if k < i { k } else { k + 1 };
                assert(post[k] == pre[k0]);
                if pre[k0].parent != root_id() {
                    let j = choose|j: int| 0 <= j < k0 && pre[j].id == pre[k0].parent;
                    assert(j != i) by {
                        if j == i {
                            assert(pre[k0].parent == pre[i as int].id);
                            assert(has_children(pre, id@));
                        }
                    }
                    let j1 = if j < i { j } else { j - 1 };
                    assert(post[j1] == pre[j]);
                    assert(0 <= j1 < k && post[j1].id == post[k].parent);
                }
            }
        }
        Ok(())
    }

    /// The parent of snapshot `id`: absent only for the synthetic root and
    /// for ids the tree does not record.
    pub fn parent_of(&self, id: &str) -> (r: Option<String>)
        requires
            self.wf(),
        ensures
            match r {
                Some(p) => contains_id(self@, id@) && p@ == parent_id_in(self@, id@),
                None => !contains_id(self@, id@),
            },
    {
        match self.find_index(id) {
            None => None,
            Some(i) => {
                proof {
                    lemma_idx_of_id(self@, i as int);
                }
                Some(self.nodes[i].parent.clone())
            },
        }
    }

    /// The ids of the snapshots branched directly from `id`, in branch
    /// order; exact string equality on ids decides membership.
    pub fn children_of(&self, id: &str) -> (r: Vec<String>)
        ensures
            r.deep_view() == children_in(self@, id@),
    {
        let mut out: Vec<String> = Vec::new();
        let mut i: usize = 0;
        proof {
            assert(self@.take(0) =~= Seq::<NodeView>::empty());
            assert(out.deep_view() =~= children_in(self@.take(0), id@));
        }
        while i < self.nodes.len()
            invariant
                i <= self.nodes.len(),
                self@.len() == self.nodes@.len(),
                out.deep_view() == children_in(self@.take(i as int), id@),
            decreases self.nodes.len() - i,
        {
            let ghost pre = out.deep_view();
            if order::str_eq(self.nodes[i].parent.as_str(), id) {
                out.push(self.nodes[i].id.clone());
            }
            proof {
                let t1 = self@.take(i + 1);
                assert(t1.drop_last() =~= self@.take(i as int));
                assert(t1.last() == self@[i as int]);
                if self@[i as int].parent == id@ {
                    assert(out.deep_view() =~= pre.push(self@[i as int].id));
                }
            }
            i = i + 1;
        }
        proof {
            assert(self@.take(self@.len() as int) =~= self@);
        }
        out
    }

    /// The persisted one-line form of the forest, `id:parent` records
    /// joined by semicolons, deterministic for diffability.
    pub fn save(&self) -> (r: String)
        requires
            self.wf(),
        ensures
            r@ == ser_tree(self@),
    {
        if self.nodes.len() == 0 {
            let r = String::new();
            return r;
        }
        let mut records: Vec<String> = Vec::new();
        let mut i: usize = 0;
        proof {
            reveal_strlit(":");
            reveal_strlit(";");
            assert(records.deep_view() =~= ser_records(self@.take(0)));
        }
        while i < self.nodes.len()
            invariant
                i <= self.nodes.len(),
                self@.len() == self.nodes@.len(),
                records.deep_view() == ser_records(self@.take(i as int)),
            decreases self.nodes.len() - i,
        {
            let mut rec = self.nodes[i].id.clone();
            rec.append(":");
            rec.append(self.nodes[i].parent.as_str());
            let ghost pre = records.deep_view();
            records.push(rec);
            proof {
                reveal_strlit(":");
                assert(":"@ =~= seq![':']);
                assert(rec@ == ser_node(self@[i as int]));
                assert(records.deep_view() =~= pre.push(rec@));
                assert(ser_records(self@.take(i + 1)) =~= ser_records(
                    self@.take(i as int),
                ).push(ser_node(self@[i as int])));
            }
            i = i + 1;
        }
        proof {
            assert(self@.take(self@.len() as int) =~= self@);
            reveal_strlit(";");
            assert(";"@.len() == 1);
            assert(";"@[0] == ';');
        }
        let r = codec::join_with(&records, ";");
        r
    }

    /// Rebuild a forest from its persisted one-line form; a file that does
    /// not encode a well-formed forest is rejected as corrupt.
    pub fn load(s: &str) -> (r: Result<SnapshotTree, AshError>)
        ensures
            match r {
                Ok(t) => t.wf() && deser_tree(s@) == Some(t@),
                Err(e) => e == AshError::Corrupt && match deser_tree(s@) {
                    Option::None => true,
                    Option::Some(ns) => !wf_nodes(ns),
                },
            },
    {
        if s.unicode_len() == 0 {
            let t = SnapshotTree::new();
            return Ok(t);
        }
        let records = codec::split_str(s, ';');
        let ghost rdv = records.deep_view();
        let mut t = SnapshotTree::new();
        let mut i: usize = 0;
        proof {
            assert(rdv.take(0) =~= Seq::<Seq<char>>::empty());
        }
        while i < records.len()
            invariant
                i <= records.len(),
                rdv == records.deep_view(),
                rdv.len() == records@.len(),
                rdv == codec::split(s@, ';'),
                s@.len() != 0,
                t.wf(),
                parse_records(rdv.take(i as int)) == Some(t@),
            decreases records.len() - i,
        {
            let parts = codec::split_str(records[i].as_str(), ':');
            proof {
                assert(records@[i as int]@ == rdv[i as int]);
                assert(rdv.take(i + 1).drop_last() =~= rdv.take(i as int));
                assert(rdv.take(i + 1).last() == rdv[i as int]);
            }
            if parts.len() != 2 {
                proof {
                    assert(parse_record(rdv[i as int]) is None) by {
                        assert(parts.deep_view().len() == parts@.len());
                    }
                    assert(parse_records(rdv.take(i + 1)) is None);
                    lemma_parse_records_prefix_none(rdv, i + 1);
                }
                return Err(AshError::Corrupt);
            }
            let ghost node = NodeView { id: parts.deep_view()[0], parent: parts.deep_view()[1] };
            proof {
                assert(parts.deep_view() =~= seq![parts.deep_view()[0], parts.deep_view()[1]]);
                assert(parse_record(rdv[i as int]) == Some(node));
                assert(parse_records(rdv.take(i + 1)) == Some(t@.push(node)));
                assert(parts@[0]@ == node.id && parts@[1]@ == node.parent);
            }
            let ghost pre = t@;
            match t.insert(parts[0].as_str(), parts[1].as_str()) {
                Ok(()) => {
                    proof {
                        assert(t@ == pre.push(node));
                    }
                },
                Err(_) => {
                    proof {
                        if deser_tree(s@) is Some {
                            let ns = deser_tree(s@).unwrap();
                            lemma_parse_records_prefixes(rdv, ns);
                            assert(parse_records(rdv.take(i as int)) == Some(ns.take(i as int)));
                            assert(ns.take(i as int) == pre);
                            assert(parse_records(rdv.take(i + 1)) == Some(ns.take(i + 1)));
                            assert(ns.take(i + 1) == pre.push(node));
                            if wf_nodes(ns) {
                                lemma_wf_take(ns, i + 1);
                                let p1 = ns.take(i + 1);
                                assert(p1[p1.len() - 1] == node);
                                assert(forall|k: int|
                                    0 <= k < pre.len() ==> #[trigger] p1[k] == pre[k]);
                                assert(valid_id_chars(node.id));
                                assert(node.id != root_id());
                                assert(!contains_id(pre, node.id)) by {
                                    if contains_id(pre, node.id) {
                                        let j = choose|j: int|
                                            0 <= j < pre.len() && pre[j].id == node.id;
                                        assert(p1[j].id == p1[p1.len() - 1].id);
                                    }
                                }
                                if node.parent != root_id() {
                                    assert(contains_id(pre, node.parent)) by {
                                        let j = choose|j: int|
                                            0 <= j < p1.len() - 1 && p1[j].id == p1[p1.len()
                                                - 1].parent;
                                        assert(pre[j].id == node.parent);
                                    }
                                }
                                assert(insert_result(pre, node.id, node.parent) == Ok::<
                                    _,
                                    AshError,
                                >(pre.push(node)));
                                assert(false);
                            }
                        }
                    }
                    return Err(AshError::Corrupt);
                },
            }
            i = i + 1;
        }
        proof {
            assert(rdv.take(rdv.len() as int) =~= rdv);
        }
        Ok(t)
    }

    /// The ordered ancestor walk from `id` up to the synthetic root,
    /// both included; absent ids have no walk.
    pub fn ancestors_of(&self, id: &str) -> (r: Option<Vec<String>>)
        requires
            self.wf(),
        ensures
            match r {
                Some(v) => ancestors_ok(self@, id@, v.deep_view()),
                None => !contains_id(self@, id@) && id@ != root_id(),
            },
    {
        if order::str_eq(id, "root") {
            let mut v: Vec<String> = Vec::new();
            v.push(("root").to_owned());
            proof {
                assert(v.deep_view() =~= seq![root_id()]);
            }
            return Some(v);
        }
        let start = match self.find_index(id) {
            None => {
                return None;
            },
            Some(i) => i,
        };
        let mut chain: Vec<String> = Vec::new();
        chain.push(id.to_owned());
        let mut cur: usize = start;
        proof {
            assert(chain.deep_view() =~= seq![id@]);
        }
        loop
            invariant
                self.wf(),
                cur < self@.len(),
                chain.deep_view().len() >= 1,
                chain.deep_view()[0] == id@,
                chain.deep_view().last() == self@[cur as int].id,
                forall|k: int|
                    0 <= k < chain.deep_view().len() ==> (#[trigger] chain.deep_view()[k])
                        != root_id(),
                forall|k: int|
                    0 <= k < chain.deep_view().len() - 1 ==> contains_id(
                        self@,
                        #[trigger] chain.deep_view()[k],
                    ) && parent_id_in(self@, chain.deep_view()[k]) == chain.deep_view()[k + 1],
            decreases cur,
        {
            let parent = self.nodes[cur].parent.clone();
            let ghost pre = chain.deep_view();
            let at_root = order::str_eq(parent.as_str(), "root");
            chain.push(parent);
            proof {
                assert(chain.deep_view() =~= pre.push(self@[cur as int].parent));
                lemma_idx_of_id(self@, cur as int);
                assert(contains_id(self@, pre.last())) by {
                    assert(self@[cur as int].id == pre.last());
                }
                assert(parent_id_in(self@, pre.last()) == self@[cur as int].parent);
            }
            if at_root {
                return Some(chain);
            }
            let ghost j0 = choose|j: int|
                0 <= j < cur && self@[j].id == self@[cur as int].parent;
            let next = match self.find_index(self.nodes[cur].parent.as_str()) {
                None => {
                    proof {
                        assert(0 <= j0 < self@.len() && self@[j0].id == self@[cur as int].parent);
                        assert(false);
                    }
                    return None;
                },
                Some(j) => j,
            };
            proof {
                lemma_idx_of_id(self@, j0);
                lemma_idx_of_id(self@, next as int);
                assert(next as int == j0);
            }
            cur = next;
        }
    }

    /// Append the preorder listing of the subtree rooted at node `i`.
    fn collect_subtree(&self, i: usize, out: &mut Vec<String>)
        requires
            self.wf(),
            i < self@.len(),
        ensures
            final(out).deep_view() == old(out).deep_view() + subtree_at(self@, i as int),
        decreases self@.len() - i, self@.len() + 2,
    {
        let ghost pre = out.deep_view();
        out.push(self.nodes[i].id.clone());
        proof {
            assert(out.deep_view() =~= pre.push(self@[i as int].id));
        }
        self.collect_children(i, 0, out);
        proof {
            assert(pre.push(self@[i as int].id) + child_subtrees(self@, i as int, 0) =~= pre + (
            seq![self@[i as int].id] + child_subtrees(self@, i as int, 0)));
        }
    }

    /// Append the concatenated preorder subtrees of the children of node
    /// `i` whose position is at least `k`.
    fn collect_children(&self, i: usize, k: usize, out: &mut Vec<String>)
        requires
            self.wf(),
            i < self@.len(),
        ensures
            final(out).deep_view() == old(out).deep_view() + child_subtrees(
                self@,
                i as int,
                k as int,
            ),
        decreases self@.len() - i, self@.len() - k,
    {
        if k >= self.nodes.len() {
            proof {
                assert(out.deep_view() =~= out.deep_view() + child_subtrees(
                    self@,
                    i as int,
                    k as int,
                ));
            }
            return ;
        }
        let ghost pre = out.deep_view();
        if order::str_eq(self.nodes[k].parent.as_str(), self.nodes[i].id.as_str()) {
            proof {
                lemma_child_after_parent(self@, i as int, k as int);
            }
            self.collect_subtree(k, out);
            self.collect_children(i, k + 1, out);
            proof {
                assert((pre + subtree_at(self@, k as int)) + child_subtrees(
                    self@,
                    i as int,
                    k + 1,
                ) =~= pre + (subtree_at(self@, k as int) + child_subtrees(self@, i as int, k + 1)));
            }
        } else {
            self.collect_children(i, k + 1, out);
        }
    }

    /// Append the preorder listing of every top-level subtree whose root
    /// stands at position `k` or later.
    fn collect_forest(&self, k: usize, out: &mut Vec<String>)
        requires
            self.wf(),
        ensures
            final(out).deep_view() == old(out).deep_view() + forest_preorder(self@, k as int),
        decreases self@.len() - k, self@.len() + 3,
    {
        if k >= self.nodes.len() {
            proof {
                assert(out.deep_view() =~= out.deep_view() + forest_preorder(self@, k as int));
            }
            return ;
        }
        let ghost pre = out.deep_view();
        if order::str_eq(self.nodes[k].parent.as_str(), "root") {
            self.collect_subtree(k, out);
            self.collect_forest(k + 1, out);
            proof {
                assert((pre + subtree_at(self@, k as int)) + forest_preorder(self@, k + 1)
                    =~= pre + (subtree_at(self@, k as int) + forest_preorder(self@, k + 1)));
            }
        } else {
            self.collect_forest(k + 1, out);
        }
    }

    /// All snapshots in the subtree rooted at `id`, in depth-first
    /// preorder: `id` itself first, then each child's whole subtree
    /// contiguously, children in branch order.
    pub fn preorder_from(&self, id: &str) -> (r: Vec<String>)
        requires
            self.wf(),
        ensures
            r.deep_view() == descendants(self@, id@),
    {
        let mut out: Vec<String> = Vec::new();
        proof {
            assert(out.deep_view() =~= Seq::<Seq<char>>::empty());
        }
        if order::str_eq(id, "root") {
            self.collect_forest(0, &mut out);
            proof {
                assert(out.deep_view() =~= forest_preorder(self@, 0));
            }
            return out;
        }
        match self.find_index(id) {
            Some(i) => {
                proof {
                    lemma_idx_of_id(self@, i as int);
                }
                self.collect_subtree(i, &mut out);
                proof {
                    assert(out.deep_view() =~= subtree_at(self@, i as int));
                }
            },
            None => {
            },
        }
        out
    }

    /// All snapshots strictly below `id`, in depth-first preorder.
    pub fn return_children(&self, id: &str) -> (r: Vec<String>)
        requires
            self.wf(),
        ensures
            r.deep_view() == strict_descendants(self@, id@),
    {
        let mut out: Vec<String> = Vec::new();
        proof {
            assert(out.deep_view() =~= Seq::<Seq<char>>::empty());
        }
        if order::str_eq(id, "root") {
            self.collect_forest(0, &mut out);
            proof {
                assert(out.deep_view() =~= forest_preorder(self@, 0));
            }
            return out;
        }
        match self.find_index(id) {
            Some(i) => {
                proof {
                    lemma_idx_of_id(self@, i as int);
                }
                self.collect_children(i, 0, &mut out);
                proof {
                    assert(out.deep_view() =~= child_subtrees(self@, i as int, 0));
                }
            },
            None => {
            },
        }
        out
    }

    /// The order in which a bulk operation visits the subtree below `cid`:
    /// for every strict descendant, its parent followed by the descendant.
    pub fn recurse_tree(&self, cid: &str) -> (r: Vec<String>)
        requires
            self.wf(),
        ensures
            r.deep_view() == lineage_pairs(self@, strict_descendants(self@, cid@)),
    {
        let ch = self.return_children(cid);
        let ghost cdv = ch.deep_view();
        proof {
            lemma_strict_descendants_contained(self@, cid@);
        }
        let mut out: Vec<String> = Vec::new();
        let mut i: usize = 0;
        proof {
            assert(cdv.take(0) =~= Seq::<Seq<char>>::empty());
            assert(out.deep_view() =~= lineage_pairs(self@, cdv.take(0)));
        }
        while i < ch.len()
            invariant
                self.wf(),
                cdv == ch.deep_view(),
                cdv == strict_descendants(self@, cid@),
                i <= ch.len(),
                ch@.len() == cdv.len(),
                out.deep_view() == lineage_pairs(self@, cdv.take(i as int)),
            decreases ch.len() - i,
        {
            let ghost pre = out.deep_view();
            proof {
                lemma_strict_descendants_contained(self@, cid@);
                assert(strict_descendants(self@, cid@)[i as int] == cdv[i as int]);
                assert(contains_id(self@, cdv[i as int]));
                assert(ch@[i as int]@ == cdv[i as int]);
            }
            let par = match self.parent_of(ch[i].as_str()) {
                None => {
                    proof {
                        assert(false);
                    }
                    return out;
                },
                Some(p) => p,
            };
            out.push(par);
            out.push(ch[i].clone());
            proof {
                let t1 = cdv.take(i + 1);
                assert(t1.drop_last() =~= cdv.take(i as int));
                assert(t1.last() == cdv[i as int]);
                assert(out.deep_view() =~= pre + seq![
                    parent_id_in(self@, cdv[i as int]),
                    cdv[i as int],
                ]);
            }
            i = i + 1;
        }
        proof {
            assert(cdv.take(cdv.len() as int) =~= cdv);
        }
        out
    }

    /// The display row of node `i`, standing `depth` levels below the top.
    fn build_row(&self, i: usize, depth: usize, current: &str, descs: &Vec<(String, String)>) -> (r:
        String)
        requires
            self.wf(),
            i < self@.len(),
            1 <= depth,
            depth as nat == depth_of(self@, i as int),
        ensures
            r@ == display_row(self@, descs.deep_view(), current@, i as int),
    {
        let mut line = make_indent(depth - 1);
        if order::str_eq(self.nodes[i].id.as_str(), current) {
            line.append("*");
        }
        line.append(self.nodes[i].id.as_str());
        line.append(" is ");
        match find_desc(descs, self.nodes[i].id.as_str()) {
            Some(d) => {
                line.append(d.as_str());
            },
            None => {
                if order::str_eq(self.nodes[i].id.as_str(), "0") {
                    line.append("base snapshot");
                }
            },
        }
        proof {
            assert(line@ == display_row(self@, descs.deep_view(), current@, i as int));
        }
        line
    }

    /// Append the display rows for the subtree rooted at node `i`, in
    /// depth-first preorder.
    fn row_subtree(
        &self,
        i: usize,
        depth: usize,
        current: &str,
        descs: &Vec<(String, String)>,
        rows: &mut Vec<String>,
    )
        requires
            self.wf(),
            i < self@.len(),
            1 <= depth,
            depth <= i + 1,
            depth as nat == depth_of(self@, i as int),
        ensures
            final(rows).deep_view() == old(rows).deep_view() + rows_for(
                self@,
                descs.deep_view(),
                current@,
                subtree_at(self@, i as int),
            ),
        decreases self@.len() - i, self@.len() + 2,
    {
        let ghost pre = rows.deep_view();
        let ghost dv = descs.deep_view();
        let row = self.build_row(i, depth, current, descs);
        rows.push(row);
        proof {
            lemma_idx_of_id(self@, i as int);
            assert(rows_for(self@, dv, current@, seq![self@[i as int].id]) =~= seq![
                display_row(self@, dv, current@, i as int),
            ]);
            assert(rows.deep_view() =~= pre + rows_for(
                self@,
                dv,
                current@,
                seq![self@[i as int].id],
            ));
        }
        self.row_children(i, 0, depth, current, descs, rows);
        proof {
            lemma_rows_for_concat(
                self@,
                dv,
                current@,
                seq![self@[i as int].id],
                child_subtrees(self@, i as int, 0),
            );
            assert(seq![self@[i as int].id] + child_subtrees(self@, i as int, 0) == subtree_at(
                self@,
                i as int,
            ));
            assert((pre + rows_for(self@, dv, current@, seq![self@[i as int].id])) + rows_for(
                self@,
                dv,
                current@,
                child_subtrees(self@, i as int, 0),
            ) =~= pre + rows_for(self@, dv, current@, subtree_at(self@, i as int)));
        }
    }

    /// Append the display rows for the children of node `i` standing at
    /// position `k` or later, each child's subtree contiguous.
    fn row_children(
        &self,
        i: usize,
        k: usize,
        depth: usize,
        current: &str,
        descs: &Vec<(String, String)>,
        rows: &mut Vec<String>,
    )
        requires
            self.wf(),
            i < self@.len(),
            1 <= depth,
            depth <= i + 1,
            depth as nat == depth_of(self@, i as int),
        ensures
            final(rows).deep_view() == old(rows).deep_view() + rows_for(
                self@,
                descs.deep_view(),
                current@,
                child_subtrees(self@, i as int, k as int),
            ),
        decreases self@.len() - i, self@.len() - k,
    {
        let ghost dv = descs.deep_view();
        if k >= self.nodes.len() {
            proof {
                assert(rows_for(self@, dv, current@, child_subtrees(self@, i as int, k as int))
                    =~= Seq::<Seq<char>>::empty());
                assert(rows.deep_view() =~= rows.deep_view() + Seq::<Seq<char>>::empty());
            }
            return ;
        }
        let ghost pre = rows.deep_view();
        if order::str_eq(self.nodes[k].parent.as_str(), self.nodes[i].id.as_str()) {
            proof {
                lemma_child_after_parent(self@, i as int, k as int);
                lemma_idx_of_id(self@, i as int);
                assert(self@[i as int].id != root_id());
                assert(depth_of(self@, k as int) == 1 + depth_of(self@, i as int));
            }
            self.row_subtree(k, depth + 1, current, descs, rows);
            self.row_children(i, k + 1, depth, current, descs, rows);
            proof {
                lemma_rows_for_concat(
                    self@,
                    dv,
                    current@,
                    subtree_at(self@, k as int),
                    child_subtrees(self@, i as int, k + 1),
                );
                assert((pre + rows_for(self@, dv, current@, subtree_at(self@, k as int)))
                    + rows_for(self@, dv, current@, child_subtrees(self@, i as int, k + 1)) =~= pre
                    + rows_for(self@, dv, current@, child_subtrees(self@, i as int, k as int)));
            }
        } else {
            self.row_children(i, k + 1, depth, current, descs, rows);
        }
    }

    /// Append the display rows for every top-level subtree whose root
    /// stands at position `k` or later.
    fn row_forest(
        &self,
        k: usize,
        current: &str,
        descs: &Vec<(String, String)>,
        rows: &mut Vec<String>,
    )
        requires
            self.wf(),
        ensures
            final(rows).deep_view() == old(rows).deep_view() + rows_for(
                self@,
                descs.deep_view(),
                current@,
                forest_preorder(self@, k as int),
            ),
        decreases self@.len() - k, self@.len() + 3,
    {
        let ghost dv = descs.deep_view();
        if k >= self.nodes.len() {
            proof {
                assert(rows_for(self@, dv, current@, forest_preorder(self@, k as int))
                    =~= Seq::<Seq<char>>::empty());
                assert(rows.deep_view() =~= rows.deep_view() + Seq::<Seq<char>>::empty());
            }
            return ;
        }
        let ghost pre = rows.deep_view();
        if order::str_eq(self.nodes[k].parent.as_str(), "root") {
            proof {
                assert(depth_of(self@, k as int) == 1);
            }
            self.row_subtree(k, 1, current, descs, rows);
            self.row_forest(k + 1, current, descs, rows);
            proof {
                lemma_rows_for_concat(
                    self@,
                    dv,
                    current@,
                    subtree_at(self@, k as int),
                    forest_preorder(self@, k + 1),
                );
                assert((pre + rows_for(self@, dv, current@, subtree_at(self@, k as int)))
                    + rows_for(self@, dv, current@, forest_preorder(self@, k + 1)) =~= pre
                    + rows_for(self@, dv, current@, forest_preorder(self@, k as int)));
            }
        } else {
            self.row_forest(k + 1, current, descs, rows);
        }
    }

    /// The display rows of the whole forest, one per snapshot, in
    /// depth-first preorder so that every subtree renders contiguously
    /// under its parent; the synthetic root is implicit and has no row.
    /// `current` marks the running snapshot, `descs` holds recorded
    /// descriptions.
    pub fn print_tree(&self, current: &str, descs: &Vec<(String, String)>) -> (r: Vec<String>)
        requires
            self.wf(),
        ensures
            r.deep_view() == rows_for(
                self@,
                descs.deep_view(),
                current@,
                descendants(self@, root_id()),
            ),
            r@.len() == self@.len(),
            descendants(self@, root_id()).no_duplicates(),
    {
        let mut rows: Vec<String> = Vec::new();
        proof {
            assert(rows.deep_view() =~= Seq::<Seq<char>>::empty());
        }
        self.row_forest(0, current, descs, &mut rows);
        proof {
            assert(descendants(self@, root_id()) == forest_preorder(self@, 0));
            assert(rows.deep_view() =~= rows_for(
                self@,
                descs.deep_view(),
                current@,
                descendants(self@, root_id()),
            ));
            assert(rows@.len() == rows.deep_view().len());
            lemma_forest_exact(self@);
        }
        rows
    }

    /// Add snapshot `val` as a child of snapshot `id`.
    pub fn add_node_to_parent(&mut self, id: &str, val: &str) -> (r: Result<(), AshError>)
        requires
            old(self).wf(),
        ensures
            final(self).wf(),
            match r {
                Ok(()) => insert_result(old(self)@, val@, id@) == Ok::<_, AshError>(final(self)@),
                Err(e) => insert_result(old(self)@, val@, id@) == Err::<Seq<NodeView>, _>(e)
                    && final(self)@ == old(self)@,
            },
    {
        self.insert(val, id)
    }

    /// Add snapshot `val` as a sibling of snapshot `id`, that is under the
    /// same parent.
    pub fn add_node_to_level(&mut self, id: &str, val: &str) -> (r: Result<(), AshError>)
        requires
            old(self).wf(),
        ensures
            final(self).wf(),
            match r {
                Ok(()) => contains_id(old(self)@, id@) && insert_result(
                    old(self)@,
                    val@,
                    parent_id_in(old(self)@, id@),
                ) == Ok::<_, AshError>(final(self)@),
                Err(e) => final(self)@ == old(self)@ && if !contains_id(old(self)@, id@) {
                    e == AshError::UnknownId
                } else {
                    insert_result(old(self)@, val@, parent_id_in(old(self)@, id@)) == Err::<
                        Seq<NodeView>,
                        _,
                    >(e)
                },
            },
    {
        match self.parent_of(id) {
            None => Err(AshError::UnknownId),
            Some(p) => self.insert(val, p.as_str()),
        }
    }

    /// Add snapshot `val` directly under the synthetic root.
    pub fn append_base_tree(&mut self, val: &str) -> (r: Result<(), AshError>)
        requires
            old(self).wf(),
        ensures
            final(self).wf(),
            match r {
                Ok(()) => insert_result(old(self)@, val@, root_id()) == Ok::<_, AshError>(
                    final(self)@,
                ),
                Err(e) => insert_result(old(self)@, val@, root_id()) == Err::<Seq<NodeView>, _>(e)
                    && final(self)@ == old(self)@,
            },
    {
        self.insert(val, "root")
    }

    /// The parent of snapshot `id`, under the name the callers use.
    pub fn get_parent(&self, id: &str) -> (r: Option<String>)
        requires
            self.wf(),
        ensures
            match r {
                Some(p) => contains_id(self@, id@) && p@ == parent_id_in(self@, id@),
                None => !contains_id(self@, id@),
            },
    {
        self.parent_of(id)
    }

    /// Detach snapshot `id`, under the name the callers use.
    pub fn remove_node(&mut self, id: &str) -> (r: Result<(), AshError>)
        requires
            old(self).wf(),
        ensures
            final(self).wf(),
            match r {
                Ok(()) => remove_result(old(self)@, id@) == Ok::<_, AshError>(final(self)@),
                Err(e) => remove_result(old(self)@, id@) == Err::<Seq<NodeView>, _>(e)
                    && final(self)@ == old(self)@,
            },
    {
        self.remove(id)
    }

    /// The persisted form of the forest, under the name the callers use.
    pub fn write_tree(&self) -> (r: String)
        requires
            self.wf(),
        ensures
            r@ == ser_tree(self@),
    {
        self.save()
    }
}

/// Indentation for a row `d` levels below the top.
fn make_indent(d: usize) -> (r: String)
    ensures
        r@ == indent_chars(d as nat),
{
    let mut r = String::new();
    let mut i: usize = 0;
    while i < d
        invariant
            i <= d,
            r@ == indent_chars(i as nat),
        decreases d - i,
    {
        r.append("  ");
        i = i + 1;
    }
    r
}


/// The description recorded for `id` in the pair list, if any.
fn find_desc(descs: &Vec<(String, String)>, id: &str) -> (r: Option<String>)
    ensures
        match r {
            Some(d) => lookup_desc(descs.deep_view(), id@) == Some(d@),
            None => lookup_desc(descs.deep_view(), id@) is None,
        },
{
    let ghost dv = descs.deep_view();
    let mut i: usize = 0;
    proof {
        assert(dv.skip(0) =~= dv);
    }
    while i < descs.len()
        invariant
            i <= descs.len(),
            dv == descs.deep_view(),
            dv.len() == descs@.len(),
            lookup_desc(dv, id@) == lookup_desc(dv.skip(i as int), id@),
        decreases descs.len() - i,
    {
        proof {
            assert(dv[i as int] == (descs@[i as int].0@, descs@[i as int].1@));
            assert(dv.skip(i as int)[0] == dv[i as int]);
        }
        if order::str_eq(descs[i].0.as_str(), id) {
            return Some(descs[i].1.clone());
        }
        proof {
            assert(dv.skip(i as int).skip(1) =~= dv.skip(i + 1));
        }
        i = i + 1;
    }
    proof {
        assert(dv.skip(i as int).len() == 0);
    }
    None
}

/// Whether `id` may be stored and serialized: nonempty and free of the
/// delimiter characters of the tree file.
pub fn check_id_chars(id: &str) -> (r: bool)
    ensures
        r == valid_id_chars(id@),
{
    let len = id.unicode_len();
    if len == 0 {
        return false;
    }
    let mut i: usize = 0;
    while i < len
        invariant
            i <= len,
            len == id@.len(),
            forall|j: int| 0 <= j < i ==> id@[j] != ':' && id@[j] != ';' && id@[j] != '\n',
        decreases len - i,
    {
        let c = id.get_char(i);
        if c == ':' || c == ';' || c == '\n' {
            return false;
        }
        i = i + 1;
    }
    true
}

} // verus!
