//! A paged k-d tree for nearest-neighbour search over fixed-dimension
//! descriptors, together with the byte formats of its node file, its leaf
//! page file and its content database.
//!
//! Descriptor coordinates are IEEE-754 single-precision values. The library
//! holds each one as its 32-bit pattern and orders patterns the way the
//! numbers they encode are ordered; arithmetic on the numbers themselves
//! (the distance between two descriptors, the distance between a coordinate
//! and a cut, the midpoint of two coordinates) is supplied by the caller as
//! functions on patterns.
//!
//! The library reads and writes no files. A tree holds its node table, its
//! leaf pages behind a write-back cache, and its content database in
//! memory; [`tree::Tree::node_image`], [`tree::Tree::page_image`] and
//! [`tree::Tree::database_image`] give the bytes of the three files of a
//! tree directory, and [`tree::Tree::open`] reads a tree back from them.
//!
//! The modules, from the bytes up:
//!
//! - [`bytes`], [`scalar`]: fixed-width integers, and the order of
//!   single-precision patterns.
//! - [`data`], [`record`], [`node`], [`page`]: descriptors, identifiers,
//!   leaf records, internal nodes and leaf pages with their stored forms.
//! - [`cache`], [`io`], [`database`]: the page cache, the node table and
//!   the leaf pager with their files, and the content database.
//! - [`top_hits`], [`tree`], [`query`]: the buffer of best candidates,
//!   insertion, and the nearest-neighbour walk.
//! - [`ingest`]: the fields of a line of input.
//! - [`model`]: the tree as a mathematical object, over which the
//!   contracts of insertion and query are stated.
//! - [`proofs`], [`exact`], [`laws`]: why insertion keeps the tree a k-d
//!   tree, why the walk finds the nearest records, and what follows for
//!   the tree as a whole.

pub mod bytes;
pub mod cache;
pub mod data;
pub mod database;
pub mod error;
pub mod exact;
pub mod ingest;
pub mod io;
pub mod laws;
pub mod layout;
pub mod model;
pub mod node;
pub mod page;
pub mod proofs;
pub mod query;
pub mod record;
pub mod request;
pub mod scalar;
pub mod top_hits;
pub mod tree;
