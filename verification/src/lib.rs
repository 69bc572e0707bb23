//! A small notebook library built around "rolling" plain-text notes.
//!
//! Notes are kept per category (daily, monthly, yearly, someday) under a
//! notebook root. When the note for the current period is missing, its
//! content is seeded from the most recent prior note of the same category:
//! completed checklist items are dropped, everything else is carried forward
//! under a fresh header. The library holds the note-identity and content
//! logic; reading the clock, the filesystem and spawning external programs
//! are left to the surrounding binary.

pub mod cli;
pub mod config;
pub mod date;
pub mod edit;
pub mod lines;
pub mod list;
pub mod order;
pub mod roll;
pub mod search;
pub mod sync;
pub mod utils;

pub use date::NoteDate;
