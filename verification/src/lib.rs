//! Batch conversion of a textual edge list into a graph in
//! compressed-sparse-row form, stored as two little-endian files.
//!
//! The crate is a straight pipeline. A text is read into an edge buffer, a
//! plain `Vec<(u32, u32)>`; the buffer is rewritten in place by a sequence of
//! transforms and sorted; the sorted buffer is laid out as an offsets array
//! and a targets array; and the two arrays are encoded as bytes.
//!
//! - [`edges`]: the edge buffer and the vocabulary of the contracts.
//! - [`order`]: total orders on tuples and a merge sort.
//! - [`text`]: the grammar of one input line.
//! - [`reader`]: reading a whole text, in integer mode or in strings mode.
//! - [`transforms`]: `sort`, `dedup`, `deloop`, `undirect`, `symmetrize`.
//! - [`renumber`]: `reorder` and `randomize`.
//! - [`csr`]: the layout of a buffer as offsets and targets.
//! - [`format`]: the bytes of the two files, and reading them back.
//! - [`pipeline`]: the transforms by name, and the pipeline from text to
//!   files.
//! - [`cli`]: the arguments of the ingest tool.
//!
//! Every function states what it returns or changes over a mathematical
//! model of its arguments, and the statements are proved. Next to the
//! functions stand the properties that relate them, as public proof
//! functions.

pub mod cli;
pub mod csr;
pub mod edges;
pub mod format;
pub mod order;
pub mod pipeline;
pub mod reader;
pub mod renumber;
pub mod text;
pub mod transforms;
