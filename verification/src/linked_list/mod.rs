pub mod error;
pub mod list;
pub mod node;
