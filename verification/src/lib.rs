pub mod b_tree;
pub mod laws;
mod lemmas;
mod model;

pub use b_tree::BTree;
pub use b_tree::BTreeError;
