//! Core engine of a plain-text sticky-note manager.
//!
//! Each note lives in one file whose name encodes a record key
//! (sequence number, creation date, title) and whose leading
//! `---`-fenced header carries metadata fields.  This crate holds the
//! verified logic: the filename codec, the header field store, the
//! pure effect planner that turns an edit into minimal filesystem
//! mutations, the in-memory mirror of note metadata, the tag-based
//! visibility filter, and the planning half of archiving and search.
//! All filesystem work is described by `Effect` values and performed
//! by an outer layer.

pub mod archive;
pub mod clock;
pub mod codec;
pub mod frontmatter;
pub mod importer;
pub mod laws;
pub mod mirror;
pub mod planner;
pub mod search;
pub mod tagfilter;
pub mod model;
pub mod text;
