//! Reading and writing FASTQ sequence records, transparently over plain or
//! gzip-compressed byte streams.
//!
//! * [`utils`]: the stream layer — gzip detection by magic bytes or name
//!   suffix, gzip coding, and splitting byte buffers into text lines.
//! * [`fastq`]: the record layer — grouping lines four at a time into
//!   [`fastq::record`] values and writing records back out.

pub mod fastq;
pub mod utils;
