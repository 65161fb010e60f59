//! Keyboard-driven panels for a terminal database client: a tree navigator
//! over keyspaces and tables, and a query editor backed by a text buffer.
pub mod action;
pub mod key;
pub mod keyspace_list;
pub mod repl;
pub mod tree;
