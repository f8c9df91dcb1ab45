mod builder;
pub mod dict_set;
pub mod error;
pub mod laws;
mod linker;
mod links;
mod matcher;
pub mod model;
pub mod node;
mod remover;
mod trie;
mod walk;
