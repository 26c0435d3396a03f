//! Errors of the aligner.

use vstd::prelude::*;

use crate::text::to_decimal;

verus! {

/// An error of the aligner.
#[derive(Debug)]
pub enum Error {
    /// One of the matrices is empty.
    Empty {
        /// How many tokens the source has.
        src: usize,
        /// How many tokens the target has.
        tgt: usize,
    },
    /// The dimensions of the two sides differ.
    DimMismatch {
        /// The source's dimension.
        src_dim: usize,
        /// The target's dimension.
        tgt_dim: usize,
    },
    /// A row has another length than the first.
    Ragged {
        /// The row.
        row: usize,
        /// Its length.
        got: usize,
        /// The length it should have.
        expected: usize,
    },
    /// The encoder gave no tokens for a text.
    Untokenizable(&'static str),
}

impl Error {
    /// The error in words.
    pub fn message(&self) -> (r: String)
        ensures
            r@ == self.words(),
    {
        match self {
            Error::Empty { src, tgt } => {
                let mut r = "empty input: source has ".to_owned();
                r.append(&to_decimal(*src as u64));
                r.append(" tokens, target has ");
                r.append(&to_decimal(*tgt as u64));
                r
            },
            Error::DimMismatch { src_dim, tgt_dim } => {
                let mut r = "embedding dim mismatch: source dim ".to_owned();
                r.append(&to_decimal(*src_dim as u64));
                r.append(", target dim ");
                r.append(&to_decimal(*tgt_dim as u64));
                r
            },
            Error::Ragged { row, got, expected } => {
                let mut r = "ragged matrix: row ".to_owned();
                r.append(&to_decimal(*row as u64));
                r.append(" has ");
                r.append(&to_decimal(*got as u64));
                r.append(" entries, expected ");
                r.append(&to_decimal(*expected as u64));
                r
            },
            Error::Untokenizable(text) => {
                let mut r = "encoder produced no tokens for ".to_owned();
                r.append(text);
                r
            },
        }
    }

    /// The error in words.
    pub open spec fn words(&self) -> Seq<char> {
        match self {
            Error::Empty { src, tgt } => "empty input: source has "@ + crate::text::decimal(
                *src as nat,
            ) + " tokens, target has "@ + crate::text::decimal(*tgt as nat),
            Error::DimMismatch { src_dim, tgt_dim } => "embedding dim mismatch: source dim "@
                + crate::text::decimal(*src_dim as nat) + ", target dim "@ + crate::text::decimal(
                *tgt_dim as nat,
            ),
            Error::Ragged { row, got, expected } => "ragged matrix: row "@ + crate::text::decimal(
                *row as nat,
            ) + " has "@ + crate::text::decimal(*got as nat) + " entries, expected "@
                + crate::text::decimal(*expected as nat),
            Error::Untokenizable(text) => "encoder produced no tokens for "@ + text@,
        }
    }
}

} // verus!
