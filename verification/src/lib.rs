//! Concatenation of text files with optional line numbering, end-of-line
//! markers, tab display and blank-line squeezing.
//!
//! The library holds everything that is decided or computed in a run and
//! touches no file itself: a caller reads the files, in the batches that the
//! [`Coordinator`] asks for, and hands over what the reads gave.
//!
//! - [`options`]: the command-line flags and the formatting options they
//!   stand for.
//! - [`lines`]: how a text falls into lines.
//! - [`counter`]: the line counter.
//! - [`format`]: what is written for a line, and the state that is carried
//!   from line to line and from file to file.
//! - [`reads`]: the results of the reads, and the order in which they are
//!   taken up.
//! - [`coordinator`]: the batches, the merging of a batch into the output,
//!   and the whole run.
//! - [`laws`]: what holds of every run.
//! - [`text`]: what is taken for granted of the standard library's strings.

pub mod coordinator;
pub mod counter;
pub mod format;
pub mod laws;
pub mod lines;
pub mod options;
pub mod reads;
pub mod text;

pub use coordinator::{concurrency_bound, drain_batch, Coordinator, Progress};
pub use counter::LineCounter;
pub use format::{format_content, format_line, FormatterState};
pub use lines::split_lines;
pub use options::{CatArgs, FormatOptions};
pub use reads::{arrival_order, CatError, ReadFailure, ReadResult};
