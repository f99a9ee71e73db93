use cplib::binary_search::BinarySearch;
use cplib::conv_query::ConvQuery;
use cplib::cum_sum_2d::CumSum2D;
use cplib::graph::Graph;
use cplib::modint::{mint, MapToi64, ModInt};
use cplib::number::{eratosthenes, extgcd, gcd};
use cplib::partially_persistent_array::PartiallyPersistentArray;
use cplib::permanent_array::ParsistentArray;
use cplib::random::{shuffle, Random};
use cplib::union_find::UnionFind;

#[test]
fn gcd_values() {
    assert_eq!(gcd(12, 18), 6);
    assert_eq!(gcd(35, 64), 1);
    assert_eq!(gcd(0, 5), 5);
    assert_eq!(gcd(5, 0), 5);
}

#[test]
fn extgcd_bezout() {
    let (x, y) = extgcd(35, 64);
    assert_eq!(35 * x + 64 * y, 1);
    let (x, y) = extgcd(0, 1);
    assert_eq!(0 * x + 1 * y, 1);
}

#[test]
fn eratosthenes_primes() {
    let sieve = eratosthenes(30);
    let primes: Vec<usize> = (0..=30).filter(|&i| sieve[i]).collect();
    assert_eq!(primes, vec![2, 3, 5, 7, 11, 13, 17, 19, 23, 29]);
}

#[test]
fn persistent_array_versions() {
    let a = ParsistentArray::new(5, 0i64);
    assert_eq!(a.len(), 8); // rounded up to a power of two
    let b = a.update(3, 42);
    let c = b.update(3, 7);
    assert_eq!(a.get(3), 0);
    assert_eq!(b.get(3), 42);
    assert_eq!(c.get(3), 7);
    assert_eq!(c.get(0), 0);
}

#[test]
fn partially_persistent_array_history() {
    let mut a = PartiallyPersistentArray::new(3, 10i64);
    assert_eq!(a.get_time(), 1);
    let t2 = a.update(1, 20);
    assert_eq!(t2, 2);
    let t3 = a.update(1, 30);
    assert_eq!(t3, 3);
    assert_eq!(a.get(1, 1), Some(10));
    assert_eq!(a.get(2, 1), Some(20));
    assert_eq!(a.get(3, 1), Some(30));
    assert_eq!(a.get(3, 0), Some(10));
}

#[test]
fn union_find_classes() {
    let mut uf = UnionFind::new(6);
    assert!(!uf.same(0, 1));
    uf.unite(0, 1);
    uf.unite(2, 3);
    assert!(uf.same(0, 1));
    assert!(uf.same(1, 0));
    assert!(!uf.same(1, 2));
    uf.unite(1, 3);
    assert!(uf.same(0, 2));
    assert!(!uf.same(4, 5));
    uf.unite(4, 4);
    assert!(uf.same(4, 4));
    assert!(!uf.same(4, 5));
}

#[test]
fn modint_arithmetic() {
    const M: i64 = 1_000_000_007;
    let a = mint(M + 5);
    assert_eq!(a.val, 5);
    let b = mint(-3);
    assert_eq!(b.val, M - 3);
    assert_eq!(a.add(&b).val, 2);
    assert_eq!(a.sub(&b).val, 8);
    assert_eq!(mint(3).pow(45).val, 644897553);
    let inv7 = mint(7).inv();
    assert_eq!(inv7.val, 142857144);
    assert_eq!(inv7.mul(&mint(7)).val, 1);
    assert_eq!(mint(5).neg().add(&mint(5)).val, 0);
    assert_eq!(ModInt::map_to_number(10).val, 10);
}

#[test]
fn conv_query_binomials() {
    let cq: ConvQuery<ModInt> = ConvQuery::new(10);
    assert_eq!(cq.query(5, 2).val, 10);
    assert_eq!(cq.query(10, 5).val, 252);
    assert_eq!(cq.query(7, 0).val, 1);
    assert_eq!(cq.query(7, 7).val, 1);
}

#[test]
fn cum_sum_2d_rectangles() {
    let vals: Vec<Vec<i64>> = vec![vec![1, 2, 3], vec![4, 5, 6], vec![7, 8, 9]];
    let cs = CumSum2D::new(&vals);
    assert_eq!(cs.query(0, 0, 3, 3), 45);
    assert_eq!(cs.query(1, 1, 3, 3), 5 + 6 + 8 + 9);
    assert_eq!(cs.query(0, 0, 1, 1), 1);
    assert_eq!(cs.query(2, 0, 3, 2), 7 + 8);
    assert_eq!(cs.query(1, 1, 1, 1), 0);
}

#[test]
fn binary_search_bounds() {
    let v: Vec<i64> = vec![1, 3, 3, 5, 9];
    assert_eq!(v.lower_bound(&3), 1);
    assert_eq!(v.upper_bound(&3), 3);
    assert_eq!(v.lower_bound(&0), 0);
    assert_eq!(v.upper_bound(&9), 5);
    assert_eq!(v.lower_bound(&6), 4);
    assert_eq!(v.upper_bound(&10), 5);
}

#[test]
fn xorshift_stream() {
    let mut r = Random::new();
    assert_eq!(r.next(), 886459275);
    assert_eq!(r.next(), 203687305);
    assert_eq!(r.next(), 2103793707 & 0x7fffffff);
    assert_eq!(r.next(), 1616725326);
}

#[test]
fn shuffle_is_permutation() {
    let mut v: Vec<u32> = (0..50).collect();
    let mut r = Random::new();
    shuffle(&mut v, &mut r);
    let mut sorted = v.clone();
    sorted.sort();
    let expect: Vec<u32> = (0..50).collect();
    assert_eq!(sorted, expect);
    // the fixed seed makes the shuffle reproducible
    let mut v2: Vec<u32> = (0..50).collect();
    let mut r2 = Random::new();
    shuffle(&mut v2, &mut r2);
    assert_eq!(v, v2);
}

#[test]
fn graph_edges() {
    let mut g: Graph<i64> = Graph::new(4);
    assert_eq!(g.len(), 4);
    g.add_edge(0, 1, 5);
    g.add_uedge(1, 2, 7);
    assert_eq!(g.get(0).len(), 1);
    assert_eq!(g.get(0)[0].to, 1);
    assert_eq!(g.get(0)[0].cost, 5);
    assert_eq!(g.get(1).len(), 1);
    assert_eq!(g.get(2).len(), 1);
    assert_eq!(g.get(2)[0].to, 1);
    assert_eq!(g.get(3).len(), 0);
}

#[test]
fn shortest_path_graph_keeps_tight_edges() {
    let mut g: Graph<i64> = Graph::new(4);
    g.add_edge(0, 1, 1);
    g.add_edge(0, 2, 5);
    g.add_edge(1, 2, 2);
    g.add_edge(2, 3, 1);
    g.add_edge(1, 3, 10);
    // distances from vertex 0
    let dist: Vec<i64> = vec![0, 1, 3, 4];
    let sp = g.get_shortest_path_graph(0, &dist);
    assert_eq!(sp.len(), 4);
    assert_eq!(sp.get(0).len(), 1); // only 0->1 is tight; 0->2 costs 5 > 3
    assert_eq!(sp.get(0)[0].to, 1);
    assert_eq!(sp.get(1).len(), 1); // 1->2 tight, 1->3 not
    assert_eq!(sp.get(1)[0].to, 2);
    assert_eq!(sp.get(2).len(), 1); // 2->3 tight
    assert_eq!(sp.get(3).len(), 0);
}
