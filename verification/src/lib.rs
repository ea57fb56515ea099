pub mod linked_map;
pub mod literal_value;
pub mod product_term;
pub mod term_model;
pub mod ternary_node;
pub mod ternary_tree_minimization;

pub use literal_value::LiteralValue;
pub use product_term::{MergeError, ProductTerm};
pub use ternary_node::TernaryNode;
pub use ternary_tree_minimization::{MinimizeError, TernaryTreeMinimization};
