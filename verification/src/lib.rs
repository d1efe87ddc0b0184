//! Decoder and live-state merge engine for a timing-console byte feed.
//!
//! The console streams bytes over a long-lived connection in one of several
//! wire encodings (legacy binary group codes, a signature-framed message
//! format, single- and double-byte CSV text, and bare clock text). The
//! decoder accumulates arbitrary chunks, classifies the buffer, extracts
//! complete records and folds them into a scoreboard state and a persisted
//! per-event race history. All text is carried as raw bytes; callers decode
//! to display strings at the edge.

pub mod baretime;
pub mod binary;
pub mod bytes;
pub mod csv;
pub mod history;
pub mod numbers;
pub mod parser;
pub mod state;
pub mod utf16;
