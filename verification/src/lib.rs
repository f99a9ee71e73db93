//! A small library of verified data structures for offline algorithmic work:
//! array-backed segment trees (plain and with lazy range updates), a
//! persistent array, union-find, modular arithmetic, and a few classic
//! helpers around them.

pub mod algebra;
pub mod binary_search;
pub mod binary_trie;
pub mod conv_query;
pub mod convex_hull_trick;
pub mod cum_sum_2d;
pub mod graph;
pub mod lagrange_polynomial;
pub mod lazy_segment_tree;
pub mod modint;
pub mod monoids;
pub mod number;
pub mod partially_persistent_array;
pub mod permanent_array;
pub mod random;
pub mod range_query;
pub mod rolling_hash;
pub mod segtree;
pub mod union_find;
