//! Builds an in-memory directory tree from a flat stream of entry records and
//! renders it as a box-drawing diagram.
pub mod aggregate;
pub mod error;
pub mod lemmas;
pub mod node;
pub mod order;
pub mod render;
pub mod tree;

pub use error::TreeError;
pub use node::Node;
pub use order::Order;
pub use tree::Tree;
