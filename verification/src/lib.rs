//! Data-availability sampling over the KoalaBear field: Reed-Solomon
//! encoding, cell commitments, sampled openings and erasure reconstruction.
pub mod field;
pub mod hashing;
pub mod merkle;
pub mod poly;
pub mod ntt;
pub mod codec;
pub mod profile;
pub mod layout;
pub mod commit;
pub mod rs_check;
pub mod sampling;
pub mod permute;
pub mod multiproof;
pub mod dbp_ext;
pub mod v3_ext;
pub mod v2_base;
pub mod vm_layout;
pub mod guest;
pub mod relay;
pub mod index_set;
pub mod index_map;
pub mod ext_ring;

use vstd::prelude::*;

verus! {

/// Number of field elements in one Poseidon digest.
pub const DIGEST_LEN: usize = 8;

/// Degree of the extension field over the base field.
pub const EXT_DEGREE: usize = 5;

/// Why an encoding, opening or reconstruction request was refused.
#[derive(Clone, Copy, Debug, PartialEq, Eq, Structural)]
pub enum DemoError {
    InvalidDataShape,
    InvalidQuery,
    InvalidOpening,
    InsufficientCells,
    ReconstructionFailed,
    ChallengeOnDomain,
}

impl DemoError {
    /// A short diagnostic for the error.
    pub fn message(&self) -> (r: &'static str)
        ensures
            r@ == match *self {
                DemoError::InvalidDataShape => "data dimensions do not match the selected profile"@,
                DemoError::InvalidQuery => "query contains an invalid or duplicate cell index"@,
                DemoError::InvalidOpening => "invalid cell opening"@,
                DemoError::InsufficientCells => "not enough distinct cells to reconstruct"@,
                DemoError::ReconstructionFailed => "RS reconstruction failed"@,
                DemoError::ChallengeOnDomain => "Fiat-Shamir challenge lies on the interpolation domain"@,
            },
    {
        match self {
            DemoError::InvalidDataShape => "data dimensions do not match the selected profile",
            DemoError::InvalidQuery => "query contains an invalid or duplicate cell index",
            DemoError::InvalidOpening => "invalid cell opening",
            DemoError::InsufficientCells => "not enough distinct cells to reconstruct",
            DemoError::ReconstructionFailed => "RS reconstruction failed",
            DemoError::ChallengeOnDomain => "Fiat-Shamir challenge lies on the interpolation domain",
        }
    }
}

} // verus!
