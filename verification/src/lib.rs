//! Core reading-progress engine for a long, editable document.
//!
//! The engine tracks which UTF-16 code-unit spans of a document a reader has
//! already covered, merges and complements interval sets, derives a completion
//! ratio that excludes non-countable spans, locates the best place to resume
//! reading, and repositions stored marks across document edits.
//!
//! Every operation is a pure function over explicit value types; persistence,
//! transactions and presentation belong to the caller.

pub mod article_text;
pub mod cloze_parser;
pub mod cloze_renderer;
pub mod errors;
pub mod export;
pub mod excerpt;
pub mod marks;
pub mod offsets;
pub mod paragraphs;
pub mod progress;
pub mod ranges;
pub mod records;
pub mod statistics;
pub mod study;
pub mod text_units;
pub mod unread;
