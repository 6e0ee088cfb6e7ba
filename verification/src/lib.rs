//! A verified library for managing Floccus-style XBEL bookmark documents.
//!
//! The library models a bookmark collection as an exclusively-owned tree of
//! folders and bookmarks, resolves logical addresses (root, numeric id,
//! title path) to tree locations, applies structural mutations, offers two
//! depth-first traversal protocols, and converts trees to and from the exact
//! on-disk XBEL layout that the Floccus browser extension consumes.

pub mod cli_args;
pub mod find;
pub mod loc;
pub mod mutate;
pub mod num;
pub mod parse;
pub mod resolve;
pub mod roundtrip;
pub mod serialize;
pub mod text;
pub mod traverse;
pub mod xbel_format;
