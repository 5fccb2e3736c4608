use vstd::prelude::*;
use crate::count::{identity, sum_root_counts, lemma_count_identity, lemma_count_relabel, lemma_sum_root_counts};
use crate::forest::{UnionFind, found, merged};
use crate::node::{Node, bump};

verus! {

/// In a forest just built, each element is alone: every element shares a
/// component with itself and with no other, and every component has size 1.
pub proof fn lemma_fresh_forest(uf: UnionFind, k: int, j: int)
    requires
        uf.wf(),
        uf.rep() == identity(uf.len()),
        0 <= k < uf.len(),
        0 <= j < uf.len(),
    ensures
        uf.same(k, k),
        uf.same(k, j) <==> k == j,
        uf.size_of(k) == 1,
{
    lemma_count_identity(uf.len(), k);
}

/// Sharing a component is transitive.
pub proof fn lemma_same_transitive(uf: UnionFind, a: int, b: int, c: int)
    requires
        uf.wf(),
        uf.same(a, b),
        uf.same(b, c),
    ensures
        uf.same(a, c),
{
}

/// Merging `k1` and `k2` twice in a row: both calls leave them in one
/// component; the second changes no component and no size, and adds one
/// redundant edge at their root (the count holds at `usize::MAX`).
pub proof fn lemma_merge_twice(a: UnionFind, b: UnionFind, c: UnionFind, k1: int, k2: int)
    requires
        a.wf(),
        merged(a, b, k1, k2, Ok(())),
        merged(b, c, k1, k2, Ok(())),
    ensures
        b.same(k1, k2),
        c.same(k1, k2),
        c.rep() == b.rep(),
        forall|k: int| 0 <= k < c.len() ==> c.size_of(k) == b.size_of(k),
        c.edge_of(b.rep()[k1]) == bump(b.edge_of(b.rep()[k1]) as usize),
        b.edge_of(b.rep()[k1]) < usize::MAX ==> c.edge_of(b.rep()[k1]) == b.edge_of(b.rep()[k1]) + 1,
        forall|i: int| 0 <= i < c.len() && i != b.rep()[k1] ==> c.edge_of(i) == b.edge_of(i),
{
    a.lemma_rep_roots();
}

/// Whatever unions have been made, the sizes of the components, summed over
/// their roots, come to the number of elements.
pub proof fn lemma_sizes_sum(uf: UnionFind)
    requires
        uf.wf(),
    ensures
        sum_root_counts(uf.rep(), uf.len()) == uf.len(),
{
    uf.lemma_rep_roots();
    lemma_sum_root_counts(uf.rep());
}

/// Two calls of `root(k)` in a row name the same root.
pub proof fn lemma_root_stable(a: UnionFind, b: UnionFind, c: UnionFind, k: int, n1: Node, n2: Node)
    requires
        a.wf(),
        found(a, b, k, Ok(n1)),
        found(b, c, k, Ok(n2)),
    ensures
        n1.id == n2.id,
{
}

/// A merge of two elements outside the component of `k` leaves `k`'s root
/// and size as they were.
pub proof fn lemma_merge_elsewhere(a: UnionFind, b: UnionFind, k1: int, k2: int, k: int)
    requires
        a.wf(),
        merged(a, b, k1, k2, Ok(())),
        0 <= k < a.len(),
        !a.same(k, k1),
        !a.same(k, k2),
    ensures
        b.rep()[k] == a.rep()[k],
        b.size_of(k) == a.size_of(k),
{
    a.lemma_rep_roots();
    let r1 = a.rep()[k1];
    let r2 = a.rep()[k2];
    if r1 != r2 {
        let w = if a.rank_of(r1) > a.rank_of(r2) { r1 } else { r2 };
        lemma_count_relabel(a.rep(), r1, r2, w, a.rep()[k]);
    }
}

} // verus!
