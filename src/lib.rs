//! A tree of folders and text files, each node with a unique id, kept as an
//! in-memory table with verified create, read, write, move, delete and
//! listing operations.
pub mod clock;
pub mod laws;
pub mod node;
pub mod schema;
pub mod store;
pub mod tree;
