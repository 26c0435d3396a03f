//! Alignment of the words of a text with those of its translation.
//!
//! Three ways to extract an alignment from the similarities between the tokens of two
//! texts, the grouping of tokens into words, and the transfer of formatting from the runs
//! of a text to its translation.

pub mod algorithm;
pub mod errors;
pub mod format_laws;
pub mod format_transfer;
pub mod subword;
pub mod text_alignment;
