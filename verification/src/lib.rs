//! Line-oriented search for a literal pattern.
//!
//! A scan takes text lines from a [`source::LineSource`], tests each for a
//! pattern with [`text::line_contains`], and hands the lines that hold it
//! to a [`sink::LineSink`], in the order read and each followed by one line
//! feed. [`scan::search_lines`] and [`scan::search_file`] are that pass
//! over the sources and sinks that this crate models; [`scan::on_read`] and
//! [`scan::on_write`] are its two decisions, for a caller that does the
//! reading and writing itself.
//! [`report`] holds what is said of a failure, and the exit code that
//! stands for it.

pub mod encoding;
pub mod laws;
pub mod lines;
pub mod report;
pub mod scan;
pub mod sink;
pub mod source;
pub mod text;

pub use scan::{search_file, ScanError};
