//! An in-memory index of document hierarchies: an identifier-keyed node
//! graph that is built cheaply from a directory skeleton, enriched lazily by
//! an external content parser, and served through a small query surface.
//!
//! The crate holds the data model ([`node`], [`tree`]), the merge algebra
//! (grafting in place versus attaching as a child), the skeleton builder
//! ([`builder`]), the hydration engine ([`hydrate`]), the tree store and
//! query surface ([`store`]), the request and response shapes
//! ([`protocol`]), and small string helpers ([`text`]). Filesystem access,
//! process invocation and transport live outside this crate; the types here
//! are driven with plain values.

pub mod builder;
pub mod hydrate;
pub mod node;
pub mod protocol;
pub mod store;
pub mod text;
pub mod tree;
