//! A small collection of verified data structures and algorithms: a chained
//! hash table with automatic growth, binary search trees, binary tree
//! utilities, breadth-first traversals, and a singly linked list.

pub mod binary_search;
pub mod bst;
pub mod bst_delete;
pub mod bst_from_array;
pub mod bst_kth;
pub mod bst_lca;
pub mod bst_validate;
pub mod graph_bfs;
pub mod hash_table;
pub mod level_order;
pub mod linked_list;
pub mod tree_count;
pub mod tree_depth;
pub mod tree_height;
pub mod tree_invert;
pub mod tree_match;
pub mod tree_max;
