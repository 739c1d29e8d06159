//! Classic data structures and algorithms with machine-checked contracts: a
//! self-balancing AVL tree, an unbalanced binary search tree, a singly linked
//! list, a list backed by a hash map, binary search, several sorts, and two
//! small recursive functions.
pub mod array_list;
pub mod avl_tree;
pub mod binary_search;
pub mod binary_search_tree;
pub mod bubble_sort;
pub mod factorial;
pub mod insertion_sort;
pub mod linked_list;
pub mod merge_sort;
pub mod nested_add;
pub mod order;
pub mod quick_sort;
pub mod radix_sort;
