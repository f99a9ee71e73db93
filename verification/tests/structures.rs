use cplib::binary_trie::BinaryTrie;
use cplib::lagrange_polynomial::LagrangePolynomial;
use cplib::modint::mint;
use cplib::convex_hull_trick::ConvexHullTrick;
use cplib::range_query::sliding_minimum;
use cplib::rolling_hash::RolllingHash;

#[test]
fn trie_add_and_contain() {
    let mut t = BinaryTrie::new();
    let w1 = [true, false, true];
    let w2 = [true, false];
    let w3 = [false];
    assert!(!t.contain(&w1));
    t.add(&w1);
    assert!(t.contain(&w1));
    assert!(!t.contain(&w2)); // prefixes are not members
    assert!(!t.contain(&w3));
    t.add(&w2);
    t.add(&[]);
    assert!(t.contain(&w1));
    assert!(t.contain(&w2));
    assert!(t.contain(&[]));
    assert!(!t.contain(&[true]));
}

#[test]
fn sliding_minimum_windows() {
    let a: Vec<i64> = vec![4, 2, 7, 1, 8, 1, 5];
    let res = sliding_minimum(a, 3);
    assert_eq!(res, vec![2, 1, 1, 1, 1]);
    let b: Vec<i64> = vec![9, -1, 3];
    assert_eq!(sliding_minimum(b, 1), vec![9, -1, 3]);
    let c: Vec<i64> = vec![5, 6];
    assert_eq!(sliding_minimum(c, 2), vec![5]);
}

#[test]
fn rolling_hash_substrings() {
    let s = b"abcabcxy";
    let h = RolllingHash::new(s);
    // identical substrings hash identically under all three moduli
    let h1 = h.query(0, 3);
    let h2 = h.query(3, 6);
    assert_eq!(h1.0.val, h2.0.val);
    assert_eq!(h1.1.val, h2.1.val);
    assert_eq!(h1.2.val, h2.2.val);
    // different substrings differ
    let h3 = h.query(1, 4);
    assert_ne!((h1.0.val, h1.1.val, h1.2.val), (h3.0.val, h3.1.val, h3.2.val));
    // the empty substring hashes to zero
    let h4 = h.query(5, 5);
    assert_eq!(h4.0.val, 0);
    assert_eq!(h4.1.val, 0);
    assert_eq!(h4.2.val, 0);
}

#[test]
fn convex_hull_trick_lines() {
    let mut cht = ConvexHullTrick::new();
    // slopes added in decreasing order, as the structure expects
    cht.add(2, 0);
    cht.add(0, 1);
    cht.add(-2, 10);
    // the hull keeps all three; each query returns the lower envelope
    assert_eq!(cht.query(0), 0); // line 2x+0
    assert_eq!(cht.query(1), 1); // line 0x+1
    assert_eq!(cht.query(6), -2); // line -2x+10
    let mut single = ConvexHullTrick::new();
    single.add(3, 4);
    assert_eq!(single.query(5), 19);
    // a dominated middle line is pruned
    let mut pruned = ConvexHullTrick::new();
    pruned.add(1, 0);
    pruned.add(1, 5);
    assert_eq!(pruned.query(2), 2);
}

#[test]
fn lagrange_interpolation() {
    // samples of f(x) = x^2
    let pts = vec![(mint(0), mint(0)), (mint(1), mint(1)), (mint(2), mint(4))];
    let p = LagrangePolynomial::new(pts);
    assert_eq!(p.calc(mint(5)).val, 25);
    assert_eq!(p.calc(mint(100)).val, 10000);
    // an exact key hit returns the stored sample
    assert_eq!(p.calc(mint(2)).val, 4);
    // the single-scan constructor over the keys 0, 1, 2 agrees
    let q = LagrangePolynomial::fast_new(vec![mint(0), mint(1), mint(4)]);
    assert_eq!(q.calc(mint(7)).val, 49);
}
