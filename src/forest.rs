use vstd::prelude::*;
use crate::count::{count, identity, relabel, lemma_count_identity, lemma_count_le_len, lemma_count_relabel};
use crate::node::{Node, UnionFindError, bump};

verus! {

/// A disjoint-set forest over the elements `0..n`.
pub struct UnionFind {
    nodes: Vec<Node>,
    /// The root of each element's component.
    rep: Ghost<Seq<int>>,
}

/// What `root(k)` does, from state `pre` to state `post`, returning `r`.
pub open spec fn found(pre: UnionFind, post: UnionFind, k: int, r: Result<Node, UnionFindError>) -> bool {
    &&& post.wf()
    &&& (0 <= k < pre.len()) <==> r is Ok
    &&& r is Err ==> post == pre && r == Err::<Node, UnionFindError>(UnionFindError::OutOfRange)
    &&& r is Ok ==> {
        let nd = r->Ok_0;
        let root = pre.rep()[k];
        &&& same_model(pre, post)
        &&& UnionFind::compressed(pre, post, k, root)
        &&& nd.id == root && nd.par == root
        &&& nd.rank == pre.rank_of(root)
        &&& nd.volume == pre.size_of(k)
        &&& nd.edge == pre.edge_of(root)
    }
}

/// What `merge(k1, k2)` does, from state `pre` to state `post`, returning `r`.
pub open spec fn merged(pre: UnionFind, post: UnionFind, k1: int, k2: int, r: Result<(), UnionFindError>) -> bool {
    &&& post.wf()
    &&& (0 <= k1 < pre.len() && 0 <= k2 < pre.len()) <==> r is Ok
    &&& r is Err ==> post == pre && r == Err::<(), UnionFindError>(UnionFindError::OutOfRange)
    &&& r is Ok ==> {
        let r1 = pre.rep()[k1];
        let r2 = pre.rep()[k2];
        let w = if pre.rank_of(r1) > pre.rank_of(r2) { r1 } else { r2 };
        &&& post.len() == pre.len()
        &&& r1 == r2 ==> {
            &&& post.rep() == pre.rep()
            &&& forall|i: int| 0 <= i < pre.len() ==> post.rank_of(i) == pre.rank_of(i)
            &&& forall|i: int| 0 <= i < pre.len() && i != r1 ==> post.edge_of(i) == pre.edge_of(i)
            &&& post.edge_of(r1) == bump(pre.edge_of(r1) as usize)
        }
        &&& r1 != r2 ==> {
            &&& post.rep() == relabel(pre.rep(), r1, r2, w)
            &&& forall|i: int| 0 <= i < pre.len() && i != w ==> post.rank_of(i) == pre.rank_of(i)
            &&& post.rank_of(w) == if pre.rank_of(r1) == pre.rank_of(r2) {
                pre.rank_of(w) + 1
            } else {
                pre.rank_of(w)
            }
            &&& forall|i: int| 0 <= i < pre.len() ==> post.edge_of(i) == pre.edge_of(i)
        }
    }
}

/// Two states with the same elements, components, ranks and redundant-edge counts.
pub open spec fn same_model(a: UnionFind, b: UnionFind) -> bool {
    &&& a.len() == b.len()
    &&& a.rep() == b.rep()
    &&& forall|i: int| 0 <= i < a.len() ==> a.rank_of(i) == b.rank_of(i) && a.edge_of(i) == b.edge_of(i)
}

impl UnionFind {
    /// The number of elements.
    pub closed spec fn len(self) -> nat {
        self.nodes@.len()
    }

    /// The root of each element's component.
    pub closed spec fn rep(self) -> Seq<int> {
        self.rep@
    }

    /// The rank of element `i`.
    pub closed spec fn rank_of(self, i: int) -> nat {
        self.nodes@[i].rank as nat
    }

    /// The redundant-edge count of element `i` (meaningful at a root).
    pub closed spec fn edge_of(self, i: int) -> nat {
        self.nodes@[i].edge as nat
    }

    /// The parent link of element `i`.
    pub closed spec fn parent_of(self, i: int) -> int {
        self.nodes@[i].par as int
    }

    /// The element reached from `k` by following `n` parent links.
    pub open spec fn walk(self, k: int, n: nat) -> int
        decreases n,
    {
        if n == 0 {
            k
        } else {
            self.parent_of(self.walk(k, (n - 1) as nat))
        }
    }

    /// Path compression from `k`, whose root is `r`, taking `pre` to `post`:
    /// every element on the path that `pre` walks from `k` now points at `r`,
    /// and every other link either stays or points at `r` too.
    pub open spec fn compressed(pre: UnionFind, post: UnionFind, k: int, r: int) -> bool {
        &&& forall|n: nat| #[trigger] post.parent_of(pre.walk(k, n)) == r
        &&& forall|i: int| 0 <= i < pre.len() ==> #[trigger] post.parent_of(i) == pre.parent_of(i)
            || post.parent_of(i) == r
    }

    /// Whether `k1` and `k2` are in the same component.
    pub open spec fn same(self, k1: int, k2: int) -> bool {
        self.rep()[k1] == self.rep()[k2]
    }

    /// The number of elements in the component of `k`.
    pub open spec fn size_of(self, k: int) -> nat {
        count(self.rep(), self.rep()[k])
    }

    spec fn node_ok(self, i: int) -> bool {
        let nd = self.nodes@[i];
        let r = self.rep@[i];
        &&& nd.id == i
        &&& nd.par < self.nodes@.len()
        &&& 0 <= r < self.nodes@.len()
        &&& self.nodes@[r].par == r
        &&& self.rep@[nd.par as int] == r
        &&& nd.par == i ==> r == i && nd.volume == count(self.rep@, i) && nd.rank < nd.volume
        &&& nd.par != i ==> self.nodes@[nd.par as int].rank > nd.rank && self.nodes@[r].rank > nd.rank
    }

    /// Every parent link leads, through strictly growing ranks, to the root
    /// recorded for the element; each root holds its component's size.
    pub closed spec fn wf(self) -> bool {
        &&& self.rep@.len() == self.nodes@.len()
        &&& forall|i: int| 0 <= i < self.nodes@.len() ==> #[trigger] self.node_ok(i)
    }

    /// `b` differs from `a` in parent links alone.
    spec fn links_only(a: UnionFind, b: UnionFind) -> bool {
        &&& a.rep@ == b.rep@
        &&& a.nodes@.len() == b.nodes@.len()
        &&& forall|i: int| 0 <= i < a.nodes@.len() ==> #[trigger] b.nodes@[i] == (Node { par: b.nodes@[i].par, ..a.nodes@[i] })
    }

    /// A forest of `size` elements, each alone in its component.
    pub fn new(size: usize) -> (r: UnionFind)
        ensures
            r.wf(),
            r.len() == size,
            r.rep() == identity(size as nat),
            forall|i: int| 0 <= i < size ==> r.rank_of(i) == 0 && r.edge_of(i) == 0,
    {
        let mut nodes: Vec<Node> = Vec::new();
        let mut i: usize = 0;
        while i < size
            invariant
                i <= size,
                nodes@.len() == i,
                forall|j: int| 0 <= j < i ==> #[trigger] nodes@[j] == Node::new_spec(j as usize),
            decreases size - i,
        {
            nodes.push(Node::new(i));
            i = i + 1;
        }
        let uf = UnionFind { nodes, rep: Ghost(identity(size as nat)) };
        proof {
            assert forall|j: int| 0 <= j < size implies #[trigger] uf.node_ok(j) by {
                lemma_count_identity(size as nat, j);
            }
        }
        uf
    }
    /// Walks parent links from `k` up to its root.
    fn find_root(&self, k: usize) -> (r: usize)
        requires
            self.wf(),
            k < self.nodes@.len(),
        ensures
            r as int == self.rep@[k as int],
    {
        let mut cur: usize = k;
        proof {
            assert(self.node_ok(k as int));
        }
        while self.nodes[cur].par != cur
            invariant
                self.wf(),
                cur < self.nodes@.len(),
                self.rep@[cur as int] == self.rep@[k as int],
            decreases usize::MAX - self.nodes@[cur as int].rank,
        {
            proof {
                assert(self.node_ok(cur as int));
                assert(self.node_ok(self.nodes@[cur as int].par as int));
            }
            cur = self.nodes[cur].par;
        }
        proof {
            assert(self.node_ok(cur as int));
        }
        cur
    }

    /// Points every element on the path from `k` to its root `r` directly at `r`.
    fn compress(&mut self, k: usize, r: usize)
        requires
            old(self).wf(),
            k < old(self).nodes@.len(),
            r as int == old(self).rep@[k as int],
        ensures
            final(self).wf(),
            Self::links_only(*old(self), *final(self)),
            Self::compressed(*old(self), *final(self), k as int, r as int),
    {
        let ghost start = *self;
        let mut cur: usize = k;
        let ghost mut m: nat = 0;
        while cur != r
            invariant
                self.wf(),
                start.wf(),
                start.nodes@.len() == self.nodes@.len(),
                0 <= k < start.nodes@.len(),
                Self::links_only(start, *self),
                cur < self.nodes@.len(),
                self.rep@[cur as int] == r as int,
                cur as int == start.walk(k as int, m),
                forall|n: nat| n < m ==> #[trigger] self.parent_of(start.walk(k as int, n)) == r,
                forall|i: int| 0 <= i < self.nodes@.len() ==> #[trigger] self.nodes@[i].par == start.nodes@[i].par
                    || (self.nodes@[i].par == r && self.nodes@[i].rank < self.nodes@[cur as int].rank),
            decreases usize::MAX - self.nodes@[cur as int].rank,
        {
            let ghost prev = *self;
            proof {
                assert(prev.node_ok(cur as int));
                assert(prev.node_ok(r as int));
                assert(prev.node_ok(prev.nodes@[cur as int].par as int));
            }
            let next = self.nodes[cur].par;
            let mut nd = self.nodes[cur];
            nd.par = r;
            self.nodes[cur] = nd;
            proof {
                assert forall|i: int| 0 <= i < self.nodes@.len() implies #[trigger] self.node_ok(i) by {
                    assert(prev.node_ok(i));
                    assert(prev.node_ok(prev.rep@[i]));
                }
                assert forall|i: int| 0 <= i < start.nodes@.len() implies #[trigger] self.nodes@[i]
                    == (Node { par: self.nodes@[i].par, ..start.nodes@[i] }) by {
                    assert(prev.nodes@[i] == (Node { par: prev.nodes@[i].par, ..start.nodes@[i] }));
                }
                assert(start.walk(k as int, m + 1) == next);
                assert forall|n: nat| n < m + 1 implies #[trigger] self.parent_of(start.walk(k as int, n)) == r by {
                    if n < m {
                        start.lemma_walk_in_range(k as int, n);
                        assert(prev.parent_of(start.walk(k as int, n)) == r);
                    }
                }
                m = m + 1;
            }
            cur = next;
        }
        proof {
            assert(start.node_ok(k as int));
            assert forall|n: nat| #[trigger] self.parent_of(start.walk(k as int, n)) == r by {
                if n >= m {
                    start.lemma_walk_stays_at_root(k as int, m, n);
                }
            }
        }
    }

    /// A walk from an element stays among the elements.
    proof fn lemma_walk_in_range(self, k: int, n: nat)
        requires
            self.wf(),
            0 <= k < self.nodes@.len(),
        ensures
            0 <= self.walk(k, n) < self.nodes@.len(),
        decreases n,
    {
        if n > 0 {
            self.lemma_walk_in_range(k, (n - 1) as nat);
            assert(self.node_ok(self.walk(k, (n - 1) as nat)));
        }
    }

    /// A walk that reaches a root stays there.
    proof fn lemma_walk_stays_at_root(self, k: int, m: nat, n: nat)
        requires
            0 <= self.walk(k, m) < self.nodes@.len(),
            self.nodes@[self.walk(k, m)].par == self.walk(k, m),
            m <= n,
        ensures
            self.walk(k, n) == self.walk(k, m),
        decreases n - m,
    {
        if n > m {
            self.lemma_walk_stays_at_root(k, m, (n - 1) as nat);
        }
    }

    /// The root of `k`, after pointing the path from `k` straight at it.
    fn find(&mut self, k: usize) -> (r: usize)
        requires
            old(self).wf(),
            k < old(self).nodes@.len(),
        ensures
            final(self).wf(),
            Self::links_only(*old(self), *final(self)),
            Self::compressed(*old(self), *final(self), k as int, r as int),
            r as int == old(self).rep@[k as int],
            r < final(self).nodes@.len(),
            final(self).nodes@[r as int].par == r,
    {
        let r = self.find_root(k);
        self.compress(k, r);
        proof {
            assert(self.node_ok(k as int));
        }
        r
    }

    /// The root record of `k`'s component; path compression on the way.
    pub fn root(&mut self, k: usize) -> (r: Result<Node, UnionFindError>)
        requires
            old(self).wf(),
        ensures
            found(*old(self), *final(self), k as int, r),
    {
        if k >= self.nodes.len() {
            return Err(UnionFindError::OutOfRange);
        }
        let ghost pre = *self;
        let r = self.find(k);
        proof {
            assert(self.node_ok(r as int));
            assert(self.nodes@[r as int] == (Node { par: self.nodes@[r as int].par, ..pre.nodes@[r as int] }));
            assert(pre.node_ok(r as int));
        }
        Ok(self.nodes[r])
    }

    /// Joins the components of `k1` and `k2`: the root of lower rank goes
    /// under the other, the root of `k2` taking `k1`'s on equal ranks. Where
    /// they already share a root, that root counts one more redundant edge.
    pub fn merge(&mut self, k1: usize, k2: usize) -> (r: Result<(), UnionFindError>)
        requires
            old(self).wf(),
        ensures
            merged(*old(self), *final(self), k1 as int, k2 as int, r),
    {
        if k1 >= self.nodes.len() || k2 >= self.nodes.len() {
            return Err(UnionFindError::OutOfRange);
        }
        let ghost pre = *self;
        let r1 = self.find(k1);
        let ghost mid = *self;
        let r2 = self.find(k2);
        let ghost post_find = *self;
        let (w, l) = if self.nodes[r1].rank > self.nodes[r2].rank {
            (r1, r2)
        } else {
            (r2, r1)
        };
        proof {
            assert(post_find.nodes@[r1 as int] == (Node { par: post_find.nodes@[r1 as int].par, ..mid.nodes@[r1 as int] }));
            assert(mid.nodes@[r1 as int] == (Node { par: mid.nodes@[r1 as int].par, ..pre.nodes@[r1 as int] }));
            assert(post_find.nodes@[r2 as int] == (Node { par: post_find.nodes@[r2 as int].par, ..mid.nodes@[r2 as int] }));
            assert(mid.nodes@[r2 as int] == (Node { par: mid.nodes@[r2 as int].par, ..pre.nodes@[r2 as int] }));
            assert(mid.node_ok(r1 as int));
            assert(post_find.node_ok(r1 as int));
            assert(post_find.node_ok(r2 as int));
            if r1 != r2 {
                lemma_count_relabel(self.rep@, r1 as int, r2 as int, w as int, w as int);
                lemma_count_le_len(relabel(self.rep@, r1 as int, r2 as int, w as int), w as int);
            }
        }
        let mut a = self.nodes[w];
        let mut b = self.nodes[l];
        a.merge(&mut b);
        self.nodes[l] = b;
        self.nodes[w] = a;
        if r1 != r2 {
            self.rep = Ghost(relabel(self.rep@, r1 as int, r2 as int, w as int));
        }
        proof {
            self.lemma_merge_keeps_wf(post_find, r1 as int, r2 as int, w as int, l as int);
            assert forall|i: int| 0 <= i < pre.len() implies post_find.nodes@[i]
                == (Node { par: post_find.nodes@[i].par, ..pre.nodes@[i] }) by {
                assert(post_find.nodes@[i] == (Node { par: post_find.nodes@[i].par, ..mid.nodes@[i] }));
                assert(mid.nodes@[i] == (Node { par: mid.nodes@[i].par, ..pre.nodes@[i] }));
            }
        }
        Ok(())
    }

    /// The number of elements in the component of `k`.
    pub fn size(&mut self, k: usize) -> (r: Result<usize, UnionFindError>)
        requires
            old(self).wf(),
        ensures
            final(self).wf(),
            (k < old(self).len()) <==> r is Ok,
            r is Ok ==> same_model(*old(self), *final(self)) && r->Ok_0 == old(self).size_of(k as int),
            r is Err ==> *final(self) == *old(self) && r == Err::<usize, UnionFindError>(UnionFindError::OutOfRange),
    {
        match self.root(k) {
            Ok(node) => Ok(node.size()),
            Err(e) => Err(e),
        }
    }

    /// Whether `k1` and `k2` are in the same component.
    pub fn is_same(&mut self, k1: usize, k2: usize) -> (r: Result<bool, UnionFindError>)
        requires
            old(self).wf(),
        ensures
            final(self).wf(),
            (k1 < old(self).len() && k2 < old(self).len()) <==> r is Ok,
            r is Ok ==> same_model(*old(self), *final(self)) && r->Ok_0 == old(self).same(k1 as int, k2 as int),
            r is Err ==> *final(self) == *old(self) && r == Err::<bool, UnionFindError>(UnionFindError::OutOfRange),
    {
        if k1 >= self.nodes.len() || k2 >= self.nodes.len() {
            return Err(UnionFindError::OutOfRange);
        }
        let n1 = self.root(k1);
        let n2 = self.root(k2);
        match (n1, n2) {
            (Ok(a), Ok(b)) => Ok(a.id == b.id),
            _ => Err(UnionFindError::OutOfRange),
        }
    }

    /// Every element's root lies in range and is its own root.
    pub proof fn lemma_rep_roots(self)
        requires
            self.wf(),
        ensures
            self.rep().len() == self.len(),
            forall|j: int| 0 <= j < self.len() ==> 0 <= #[trigger] self.rep()[j] < self.len()
                && self.rep()[self.rep()[j]] == self.rep()[j],
    {
        assert forall|j: int| 0 <= j < self.len() implies 0 <= #[trigger] self.rep()[j] < self.len()
            && self.rep()[self.rep()[j]] == self.rep()[j] by {
            assert(self.node_ok(j));
            assert(self.node_ok(self.rep@[j]));
        }
    }

    proof fn lemma_merge_keeps_wf(self, prev: UnionFind, r1: int, r2: int, w: int, l: int)
        requires
            prev.wf(),
            0 <= r1 < prev.nodes@.len(),
            0 <= r2 < prev.nodes@.len(),
            prev.nodes@[r1].par == r1,
            prev.nodes@[r2].par == r2,
            (w == r1 && l == r2 && prev.nodes@[r1].rank > prev.nodes@[r2].rank) || (w == r2 && l == r1
                && prev.nodes@[r1].rank <= prev.nodes@[r2].rank),
            self.nodes@.len() == prev.nodes@.len(),
            r1 != r2 ==> prev.nodes@[w].volume + prev.nodes@[l].volume <= usize::MAX,
            r1 == r2 ==> self.rep@ == prev.rep@,
            r1 != r2 ==> self.rep@ == relabel(prev.rep@, r1, r2, w),
            forall|i: int| 0 <= i < prev.nodes@.len() && i != w && i != l ==> self.nodes@[i] == prev.nodes@[i],
            r1 == r2 ==> self.nodes@[w] == (Node { edge: bump(prev.nodes@[w].edge), ..prev.nodes@[w] }),
            r1 != r2 ==> self.nodes@[w] == (Node {
                rank: if prev.nodes@[w].rank == prev.nodes@[l].rank {
                    (prev.nodes@[w].rank + 1) as usize
                } else {
                    prev.nodes@[w].rank
                },
                volume: (prev.nodes@[w].volume + prev.nodes@[l].volume) as usize,
                ..prev.nodes@[w]
            }),
            r1 != r2 ==> self.nodes@[l] == (Node { par: w as usize, ..prev.nodes@[l] }),
        ensures
            self.wf(),
    {
        assert(prev.node_ok(w));
        assert(prev.node_ok(l));
        assert forall|i: int| 0 <= i < self.nodes@.len() implies #[trigger] self.node_ok(i) by {
            let p = prev.nodes@[i].par as int;
            let r = prev.rep@[i];
            assert(prev.node_ok(i));
            assert(prev.node_ok(r));
            assert(prev.node_ok(p));
            if r1 != r2 {
                lemma_count_relabel(prev.rep@, r1, r2, w, i);
                if i == w {
                    lemma_count_relabel(prev.rep@, r1, r2, w, w);
                } else if i == l {
                    assert(self.rep@[i] == w);
                    assert(self.rep@[w] == w);
                } else if p == i {
                    assert(self.rep@[i] == i);
                } else {
                    assert(self.rep@[p] == self.rep@[i]);
                    if r == r1 || r == r2 {
                        assert(self.rep@[i] == w);
                    } else {
                        assert(self.rep@[i] == r);
                    }
                }
            } else {
                assert(w == l);
            }
        }
    }
}

} // verus!
