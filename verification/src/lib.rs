//! Averages the GPU telemetry columns of a benchmark log and frames the
//! summary row for a cumulative results file.
//!
//! The library does no input or output of its own. A caller hands it the
//! lines of a log and gets the records ([`read_csv`]), the record of their
//! means ([`average`]), or both in one step ([`summarize`]), and then the
//! bytes to append to the results file ([`write_csv`]).

pub mod appender;
pub mod codec;
pub mod decimal;
pub mod reader;
pub mod record;
pub mod reducer;
pub mod summary;

pub use appender::write_csv;
pub use reader::read_csv;
pub use record::{Column, LogError, Output};
pub use reducer::average;
pub use summary::summarize;
