//! Finds the single oldest authored line across a source tree, as reported
//! by a per-file history-attribution query.
//!
//! The crate holds the verified core of that pipeline: the attribution-line
//! grammar and its parser, the calendar model behind the timestamps, the
//! round-robin dispatcher, the streaming minimum reducer, and the sequential
//! composition of all of them. The unverified shell around it (process
//! spawning, threads, console output) lives outside this crate and hands in
//! plain values.

pub mod dispatch;
pub mod grammar;
pub mod line_details;
pub mod process_files;
pub mod reduce;
pub mod timestamp;

pub use line_details::LineDetails;
pub use line_details::parse_line;
pub use process_files::process_files;
pub use timestamp::Timestamp;
