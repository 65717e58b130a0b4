//! An editor core for asciicast v2 recordings: a JSON header line followed by
//! newline-delimited event records `[time, "code", "data"]`.
//!
//! The library keeps the original file bytes immutable and collects pending
//! edits in an ordered overlay keyed by byte offset; reads and saves merge the
//! overlay with the backing bytes.

pub mod cast;
pub mod color;
pub mod errors;
pub mod event;
pub mod header;
pub mod overlay;
pub mod textutil;
pub mod time;
