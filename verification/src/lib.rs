//! A content-addressed object store in the style of a version-control
//! system's object database.
//!
//! An object is a blob, a tree or a commit. It is framed as
//! `"<kind> <length>\0<payload>"`, named by the SHA-1 digest of that frame,
//! and kept zlib-compressed in a file whose path is derived from the name.
//!
//! This crate holds the object model and leaves the file system to its
//! caller:
//!
//! - [`frame`]: the frame, in both directions;
//! - [`digest`]: ids, their hexadecimal form and the path they name;
//! - [`compress`]: compression for storage;
//! - [`tree`]: the entries of a tree, their order and their encoding;
//! - [`dir`]: a directory as the tree builder sees it, and what it builds;
//! - [`commit`]: the encoding of commits;
//! - [`blob`]: objects and the operations of the store;
//! - [`error`]: how an operation can fail;
//! - [`bytes`]: helpers on bytes that the others share.

pub mod blob;
pub mod bytes;
pub mod commit;
pub mod compress;
pub mod digest;
pub mod dir;
pub mod error;
pub mod frame;
pub mod tree;
