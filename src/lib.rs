//! Counting of nucleotide contexts: k-mers of length 2, 3 and 5 are read from
//! DNA sequences, folded with their reverse complements into canonical
//! categories, tallied, and rendered as a tab-separated table.
//!
//! - `kmer`: the nucleotide alphabet, reverse complements and canonicalisation.
//! - `code`: k-mers as base-4 numbers, the slot index of a category.
//! - `counter`: the counting table, the window scanner and the laws they obey.
//! - `table`: the text form of a rendered table.

pub mod code;
pub mod counter;
pub mod kmer;
pub mod table;
