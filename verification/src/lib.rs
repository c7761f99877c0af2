//! Ordered collections built on a randomized search tree, with the small
//! algorithm studies that grew up around it.

pub mod algo;
pub mod arrays;
pub mod avl;
pub mod barn;
pub mod bst;
pub mod bucket_sort;
pub mod chess_bit_moves;
pub mod directed_graph;
pub mod dynamic_array;
pub mod graph_kruskal;
pub mod heap_alloc;
pub mod order;
pub mod primes;
pub mod probabilistic;
pub mod rle;
pub mod search_trees;
pub mod sieve;
pub mod sorts;
pub mod text_search;
pub mod treap;
pub mod trie;
