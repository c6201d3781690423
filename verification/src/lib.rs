//! Placeholder-driven license templating.
//!
//! A template body is plain text with bracketed placeholders such as
//! `[year]`. The engine scans the original body once, left to right, for
//! the shortest bracketed spans, decides each occurrence from one response
//! (replace with the trimmed text, or keep the literal), and reassembles
//! the document by the recorded positions, so that a replacement is never
//! rescanned and identical literals are resolved independently.
//!
//! The catalog resolves display identifiers (file names with their
//! extension stripped) back to file names, and the selector validates a
//! numeric index typed by the operator.

pub mod catalog;
pub mod render;
pub mod scan;
pub mod selector;
