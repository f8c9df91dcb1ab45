//! A dictionary of pattern words, kept as a trie with suffix links, that finds
//! every occurrence of every indexed word in a text in one pass.
//!
//! The trie lives in an arena of nodes addressed by index; parent and suffix
//! links are indices into that arena. The small containers the trie walks with
//! (a FIFO queue and a LIFO stack, both served by one linked list) are in
//! [`adt`] and [`linked_list`].

pub mod adt;
pub mod dict;
pub mod linked_list;
