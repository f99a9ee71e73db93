use cplib::lazy_segment_tree::LazySegmentTree;
use cplib::monoids::{AddEff, AssignEff, MinVal, SumVal};
use cplib::segtree::SegmentTree;

fn sum_tree(n: usize) -> LazySegmentTree<SumVal, AddEff> {
    LazySegmentTree::new(n, SumVal { v: 0 })
}

#[test]
fn sum_tree_range_add_scenario() {
    let mut t = sum_tree(8);
    t.range_update(2, 5, AddEff { k: 3 });
    assert_eq!(t.query(0, 8).v, 9);
    assert_eq!(t.query(2, 5).v, 9);
    assert_eq!(t.query(0, 2).v, 0);
    t.update(4, SumVal { v: 10 });
    assert_eq!(t.query(3, 5).v, 13);
    assert_eq!(t.query(0, 8).v, 16);
}

#[test]
fn min_tree_assign_scenario() {
    let mut t: LazySegmentTree<MinVal, AssignEff> = LazySegmentTree::new(4, MinVal { v: u64::MAX });
    let leaves = [5u64, 2, 8, 1];
    for (i, &x) in leaves.iter().enumerate() {
        t.update(i, MinVal { v: x });
    }
    assert_eq!(t.query(0, 4).v, 1);
    t.range_update(0, 2, AssignEff::Assign(0));
    assert_eq!(t.query(0, 2).v, 0);
    assert_eq!(t.query(0, 4).v, 0);
}

#[test]
fn empty_query_returns_unity() {
    let mut t = sum_tree(5);
    t.range_update(0, 5, AddEff { k: 7 });
    let len = t.len();
    for k in 0..=len {
        assert_eq!(t.query(k, k).v, 0);
    }
    let mut m: LazySegmentTree<MinVal, AssignEff> = LazySegmentTree::new(3, MinVal { v: u64::MAX });
    m.update(0, MinVal { v: 4 });
    assert_eq!(m.query(2, 2).v, u64::MAX);
}

#[test]
fn unity_effect_is_noop() {
    let mut t = sum_tree(8);
    t.range_update(1, 6, AddEff { k: 11 });
    let before: Vec<u64> = (0..8).map(|i| t.query(i, i + 1).v).collect();
    t.range_update(0, 8, AddEff { k: 0 });
    let after: Vec<u64> = (0..8).map(|i| t.query(i, i + 1).v).collect();
    assert_eq!(before, after);
    assert_eq!(t.query(0, 8).v, 55);
}

#[test]
fn composed_effects_equal_two_updates() {
    let mut a = sum_tree(8);
    a.range_update(1, 6, AddEff { k: 3 });
    a.range_update(1, 6, AddEff { k: 9 });
    let mut b = sum_tree(8);
    b.range_update(1, 6, AddEff { k: 12 });
    for l in 0..8 {
        for r in l..=8 {
            assert_eq!(a.query(l, r).v, b.query(l, r).v);
        }
    }
}

#[test]
fn disjoint_update_leaves_query_alone() {
    let mut t = sum_tree(8);
    t.update(5, SumVal { v: 40 });
    let before = t.query(4, 8).v;
    t.range_update(0, 4, AddEff { k: 100 });
    assert_eq!(t.query(4, 8).v, before);
    assert_eq!(t.query(0, 4).v, 400);
}

#[test]
fn lazy_matches_eager_model() {
    // interleaved range updates and queries against a model that applies
    // every effect to each element eagerly
    let mut t = sum_tree(6);
    let cap = t.len();
    let mut model = vec![0u64; cap];
    let script: [(usize, usize, u64); 5] = [(0, 3, 2), (2, 6, 5), (1, 2, 7), (0, 8, 1), (4, 7, 9)];
    for &(l, r, k) in script.iter() {
        t.range_update(l, r, AddEff { k });
        for x in model[l..r].iter_mut() {
            *x = x.wrapping_add(k);
        }
        for ql in 0..=cap {
            for qr in ql..=cap {
                let want: u64 = model[ql..qr].iter().fold(0u64, |s, &e| s.wrapping_add(e));
                assert_eq!(t.query(ql, qr).v, want);
            }
        }
    }
}

#[test]
fn point_update_is_single_index_range_case() {
    let mut t = sum_tree(4);
    t.range_update(0, 4, AddEff { k: 5 });
    t.update(2, SumVal { v: 1 });
    assert_eq!(t.query(0, 4).v, 16);
    assert_eq!(t.query(2, 3).v, 1);
}

#[test]
fn plain_tree_point_update_and_query() {
    let mut t: SegmentTree<SumVal> = SegmentTree::new(5);
    assert_eq!(t.len(), 5);
    let vals = [3u64, 1, 4, 1, 5];
    for (i, &x) in vals.iter().enumerate() {
        t.update(i, SumVal { v: x });
    }
    // the full query folds all leaves left to right
    assert_eq!(t.query(0, 5).v, 14);
    assert_eq!(t.query(1, 4).v, 6);
    assert_eq!(t.query(2, 2).v, 0);
    for (i, &x) in vals.iter().enumerate() {
        assert_eq!(t.get(i).v, x);
    }
    t.update(0, SumVal { v: 10 });
    assert_eq!(t.query(0, 5).v, 21);
}

#[test]
fn plain_tree_min_monoid() {
    let mut t: SegmentTree<MinVal> = SegmentTree::new(4);
    let vals = [5u64, 2, 8, 1];
    for (i, &x) in vals.iter().enumerate() {
        t.update(i, MinVal { v: x });
    }
    assert_eq!(t.query(0, 4).v, 1);
    assert_eq!(t.query(0, 2).v, 2);
    assert_eq!(t.query(2, 3).v, 8);
    assert_eq!(t.query(3, 3).v, u64::MAX);
}

#[test]
fn wrapping_sum_wraps() {
    let mut t = sum_tree(2);
    t.update(0, SumVal { v: u64::MAX });
    t.range_update(1, 2, AddEff { k: 3 });
    assert_eq!(t.query(0, 2).v, 2);
}
