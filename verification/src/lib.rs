//! Source weaving: match reports produced by an analysis pass are parsed into
//! records, and the advice of a pointcut is spliced into the text of a file at
//! every reported place.
//!
//! Text is modelled as a sequence of characters (`Seq<char>`); offsets, lines
//! and columns count characters.

pub mod text;
pub mod position;
pub mod record;
pub mod error;
pub mod pattern;
pub mod report;
pub mod config;
pub mod weave;
pub mod analysis;
