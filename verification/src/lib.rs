//! Cryptanalysis of the Vigenere family of polyalphabetic substitution
//! ciphers: frequency profiling, Kasiski examination, key-length estimation,
//! per-column key recovery by chi-squared minimization, decryption, and a
//! confidence score based on the mutual index of coincidence.
//!
//! All statistics are computed in exact integer arithmetic. Ratios such as
//! the index of coincidence are kept as numerator/denominator pairs, and
//! scores that the textbook formulas state over real numbers are carried in
//! fixed-point units (documented at each function) so that every result is
//! fully determined by the inputs.

use vstd::prelude::*;

pub mod decryption;
pub mod freq_analysis;
pub mod genetic_decryption;
pub mod k_len_estimator;
pub mod kasiski;

verus! {

/// Largest text length (in bytes) the statistical routines accept; keeps all
/// fixed-point arithmetic inside `u64`/`u128`.
pub const MAX_TEXT_LEN: usize = 1000000000;

/// A failed analysis or decryption step. These are returned to the caller;
/// no routine in this crate panics or divides by zero.
#[derive(Clone, Copy, Debug, PartialEq, Eq, Structural)]
pub enum VigenereError {
    /// The text has too few alphabetic characters for the statistic asked
    /// for (for example an index of coincidence over fewer than two letters).
    InputTooShort,
    /// An explicit or estimated key length is zero, or exceeds the number of
    /// alphabetic characters of the ciphertext.
    InvalidKeyLength,
    /// Under the chosen key length some column of the ciphertext holds no
    /// alphabetic character, so its chi-squared statistic is undefined.
    DegenerateColumn,
    /// The decrypted text holds no alphabetic character, so the mutual index
    /// of coincidence is undefined.
    UndeterminedConfidence,
}

/// Plausibility of a decryption. The percentage is a heuristic, unbounded
/// above 100; when the decrypted text holds no letters it is undefined and
/// reported as `Undetermined` rather than as an arbitrary number.
#[derive(Clone, Copy, Debug, PartialEq, Eq, Structural)]
pub enum Confidence {
    /// The decrypted text had too few letters for a meaningful score.
    Undetermined,
    /// Confidence percentage in hundredths of a percent, rounded down:
    /// `CentiPercent(12345)` stands for `123.45%`.
    CentiPercent(u64),
}

} // verus!
