use union_find::{Node, UnionFind, UnionFindError};

#[test]
fn merge_test() {
    let mut union_find = UnionFind::new(5);
    union_find.merge(0, 1).unwrap();
    union_find.merge(1, 2).unwrap();
    union_find.merge(2, 3).unwrap();
    union_find.merge(3, 4).unwrap();
    assert_eq!(union_find.root(3).unwrap().id, union_find.root(0).unwrap().id);
}

#[test]
fn size_test() {
    let mut union_find = UnionFind::new(6);
    union_find.merge(0, 1).unwrap();
    union_find.merge(1, 2).unwrap();
    union_find.merge(3, 4).unwrap();
    assert_eq!(union_find.size(1), Ok(3));
    assert_eq!(union_find.size(3), Ok(2));
    assert_eq!(union_find.size(5), Ok(1));
}

#[test]
fn chain_of_merges_joins_all() {
    let mut uf = UnionFind::new(5);
    for k in 0..4 {
        assert_eq!(uf.merge(k, k + 1), Ok(()));
    }
    assert_eq!(uf.is_same(0, 3), Ok(true));
    for k in 0..5 {
        assert_eq!(uf.size(k), Ok(5));
    }
    let r = uf.root(4).unwrap();
    for k in 0..5 {
        let n = uf.root(k).unwrap();
        assert_eq!(n.id, r.id);
        assert_eq!(n.par, n.id);
    }
}

#[test]
fn sizes_of_separate_components() {
    let mut uf = UnionFind::new(6);
    uf.merge(0, 1).unwrap();
    uf.merge(1, 2).unwrap();
    uf.merge(3, 4).unwrap();
    assert_eq!(uf.is_same(0, 2), Ok(true));
    assert_eq!(uf.is_same(2, 3), Ok(false));
    assert_eq!(uf.is_same(5, 4), Ok(false));
    assert_eq!(uf.size(0), Ok(3));
    assert_eq!(uf.size(4), Ok(2));
}

#[test]
fn repeated_merge_counts_redundant_edge() {
    let mut uf = UnionFind::new(3);
    uf.merge(0, 1).unwrap();
    assert_eq!(uf.is_same(0, 1), Ok(true));
    assert_eq!(uf.size(0), Ok(2));
    assert_eq!(uf.root(0).unwrap().edge, 0);
    uf.merge(0, 1).unwrap();
    assert_eq!(uf.is_same(0, 1), Ok(true));
    assert_eq!(uf.size(0), Ok(2));
    assert_eq!(uf.size(1), Ok(2));
    assert_eq!(uf.root(0).unwrap().edge, 1);
    assert_eq!(uf.root(1).unwrap().edge, 1);
    assert_eq!(uf.size(2), Ok(1));
    assert_eq!(uf.root(2).unwrap().edge, 0);
}

#[test]
fn empty_forest_rejects_every_index() {
    let mut uf = UnionFind::new(0);
    assert_eq!(uf.root(0), Err(UnionFindError::OutOfRange));
    assert_eq!(uf.merge(0, 0), Err(UnionFindError::OutOfRange));
    assert_eq!(uf.size(0), Err(UnionFindError::OutOfRange));
    assert_eq!(uf.is_same(0, 0), Err(UnionFindError::OutOfRange));
    assert_eq!(uf.size(usize::MAX), Err(UnionFindError::OutOfRange));
}

#[test]
fn out_of_range_changes_nothing() {
    let mut uf = UnionFind::new(3);
    assert_eq!(uf.merge(0, 3), Err(UnionFindError::OutOfRange));
    assert_eq!(uf.merge(7, 1), Err(UnionFindError::OutOfRange));
    assert_eq!(uf.is_same(1, 3), Err(UnionFindError::OutOfRange));
    assert_eq!(uf.is_same(0, 1), Ok(false));
    assert_eq!(uf.size(0), Ok(1));
    assert_eq!(uf.root(0).unwrap().edge, 0);
}

#[test]
fn fresh_forest_is_reflexive_and_apart() {
    let mut uf = UnionFind::new(4);
    for k in 0..4 {
        assert_eq!(uf.is_same(k, k), Ok(true));
        assert_eq!(uf.size(k), Ok(1));
        assert_eq!(uf.root(k), Ok(Node { id: k, par: k, rank: 0, volume: 1, edge: 0 }));
        for j in 0..4 {
            assert_eq!(uf.is_same(k, j), Ok(k == j));
        }
    }
}

#[test]
fn sharing_a_component_is_transitive() {
    let mut uf = UnionFind::new(7);
    uf.merge(0, 4).unwrap();
    uf.merge(4, 6).unwrap();
    uf.merge(2, 5).unwrap();
    for a in 0..7 {
        for b in 0..7 {
            for c in 0..7 {
                if uf.is_same(a, b) == Ok(true) && uf.is_same(b, c) == Ok(true) {
                    assert_eq!(uf.is_same(a, c), Ok(true));
                }
            }
        }
    }
}

#[test]
fn sizes_at_roots_sum_to_count() {
    let mut uf = UnionFind::new(9);
    uf.merge(0, 1).unwrap();
    uf.merge(2, 3).unwrap();
    uf.merge(1, 3).unwrap();
    uf.merge(5, 8).unwrap();
    uf.merge(8, 5).unwrap();
    let mut total: usize = 0;
    for k in 0..9 {
        let r = uf.root(k).unwrap();
        if r.id == k {
            total += uf.size(k).unwrap();
        }
    }
    assert_eq!(total, 9);
}

#[test]
fn root_is_stable_across_queries() {
    let mut uf = UnionFind::new(6);
    uf.merge(0, 1).unwrap();
    uf.merge(2, 1).unwrap();
    uf.merge(3, 0).unwrap();
    let first = uf.root(3).unwrap().id;
    assert_eq!(uf.root(3).unwrap().id, first);
    uf.merge(4, 5).unwrap();
    assert_eq!(uf.root(3).unwrap().id, first);
    assert_eq!(uf.size(3), Ok(4));
}

#[test]
fn equal_ranks_keep_second_root() {
    let mut uf = UnionFind::new(2);
    uf.merge(0, 1).unwrap();
    let r = uf.root(0).unwrap();
    assert_eq!(r.id, 1);
    assert_eq!(r.rank, 1);
    assert_eq!(r.volume, 2);
}

#[test]
fn higher_rank_root_survives() {
    let mut uf = UnionFind::new(3);
    uf.merge(0, 1).unwrap();
    uf.merge(1, 2).unwrap();
    let r = uf.root(2).unwrap();
    assert_eq!(r.id, 1);
    assert_eq!(r.rank, 1);
    assert_eq!(r.volume, 3);
}

#[test]
fn node_merge_joins_two_roots() {
    let mut a = Node::new(3);
    let mut b = Node::new(5);
    a.merge(&mut b);
    assert_eq!(a, Node { id: 3, par: 3, rank: 1, volume: 2, edge: 0 });
    assert_eq!(b, Node { id: 5, par: 3, rank: 0, volume: 1, edge: 0 });
    let mut c = Node::new(7);
    a.merge(&mut c);
    assert_eq!(a.rank, 1);
    assert_eq!(a.size(), 3);
    assert_eq!(c.par, 3);
}

#[test]
fn node_merge_with_itself_counts_edge() {
    let mut a = Node::new(2);
    let mut same = a;
    a.merge(&mut same);
    assert_eq!(a, Node { id: 2, par: 2, rank: 0, volume: 1, edge: 1 });
    assert_eq!(same, Node::new(2));
}

#[test]
fn node_queries() {
    let n = Node::new(4);
    assert_eq!(n.size(), 1);
    let mut uf = UnionFind::new(5);
    assert_eq!(n.is_same(&Node::new(4), &mut uf), Ok(true));
    assert_eq!(n.is_same(&Node::new(1), &mut uf), Ok(false));
    uf.merge(4, 1).unwrap();
    assert_eq!(n.is_same(&Node::new(1), &mut uf), Ok(true));
    assert_eq!(Node::new(1).is_same(&n, &mut uf), Ok(true));
    assert_eq!(n.is_same(&Node::new(2), &mut uf), Ok(false));
    assert_eq!(n.is_same(&Node::new(5), &mut uf), Err(UnionFindError::OutOfRange));
    let r = n.root(&mut uf).unwrap();
    assert_eq!(r.id, 1);
    assert_eq!(r.size(), 2);
    assert_eq!(Node::new(9).root(&mut uf), Err(UnionFindError::OutOfRange));
}
