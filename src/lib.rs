pub mod binary_search_tree;
pub mod order;
pub mod tree_laws;
pub mod heap;
