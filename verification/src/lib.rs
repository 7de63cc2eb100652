//! Pairwise divergence between nucleotide sequences.
//!
//! A [`Record`] is a labelled byte sequence.  Two records are compared
//! position by position; only the positions at which both hold one of the
//! four canonical bases count.  The library counts those positions and the
//! ones among them at which the records differ, enumerates every unordered
//! pair of a record set exactly once, and assembles records from lines of
//! text.

pub mod fasta;
pub mod pairs;
pub mod record;

pub use fasta::read_fasta_records;
pub use pairs::{compare_all_pairs, Comparison};
pub use record::{Difference, Record, RecordView};
