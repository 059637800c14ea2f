//! Error-correcting codes for ternary data.
//!
//! Provides Hamming codes, repetition codes, parity checks, and
//! code distance calculation for ternary-valued data in {-1, 0, +1}.
pub mod check_matrix;
pub mod distance;
pub mod error;
pub mod hamming;
pub mod parity;
pub mod repetition;
pub mod ternary;

pub use distance::{
    error_correction_capacity, error_detection_capacity, hamming_distance, lee_distance,
    lee_distance_codeword, minimum_distance, weight,
};
pub use error::DecodeError;
pub use hamming::TernaryHamming;
pub use parity::{parity_check, parity_encode, parity_verify, ternary_parity};
pub use repetition::{majority_vote, RepetitionCode};
pub use ternary::Ternary;
