//! A single-file B+Tree index over fixed-size pages.
//!
//! The index maps short textual keys to short textual values. Every node of
//! the tree occupies one page of the index image; a separate root log records
//! where the current root lives.
//!
//! `page_layout`, `bytes`, `page`, `node_type`, `node`, `encoding` and `text`
//! hold the page format; `pager` and `wal` the image and the root log;
//! `btree` the tree itself. `tree` says what a sound tree is and `laws` what
//! follows from it. The remaining modules prove that the tree code keeps a
//! sound tree sound: `tree_insert`, `tree_delete`, `tree_share` and
//! `tree_fill` for what one change does to a subtree, `relink` and `links`
//! for the parent offsets, `insert_steps` and `delete_steps` for the writes
//! of an insertion and of a deletion, one after the other, and `merge_trace`
//! for what a deletion leaves on the pages.

pub mod btree;
pub mod bytes;
pub mod delete_steps;
pub mod encoding;
pub mod error;
pub mod insert_steps;
pub mod key_order;
pub mod laws;
pub mod links;
pub mod merge_trace;
pub mod node;
pub mod node_type;
pub mod page;
pub mod pair_order;
pub mod page_builder;
pub mod page_layout;
pub mod pager;
pub mod relink;
pub mod text;
pub mod tree;
pub mod tree_delete;
pub mod tree_fill;
pub mod tree_insert;
pub mod tree_share;
pub mod wal;
