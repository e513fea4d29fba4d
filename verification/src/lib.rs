//! A small persistent collection of bookmarks (named links) and groups (named
//! sets of bookmarks), with fuzzy-text search over it.
//!
//! The library holds the data model, the identifier allocation, the
//! referential-integrity maintenance, the mutation pipeline, the query router
//! and the fuzzy matcher, each with a verified contract.  Reading and writing
//! the persisted document, fetching favicons and talking to the host are left
//! to the surrounding program.

pub mod actions;
pub mod bookmarks;
pub mod forms;
pub mod matcher;
pub mod paths;
pub mod results;
