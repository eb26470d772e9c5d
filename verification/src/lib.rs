//! Persistent (purely functional) data structures with structural sharing:
//! two interchangeable mergeable min-heaps (a rank-balanced "leftist" heap and
//! a binomial forest heap), a cons-list stack, a binary-search-tree set and
//! map, and a prefix-compressed trie map.

pub mod binomial;
pub mod heap;
pub mod leftist;
pub mod stack;
pub mod tree;
pub mod tree_map;
pub mod tree_set;
pub mod trie;
