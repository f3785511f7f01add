use vstd::prelude::*;

pub mod bytes;
pub mod capacity;
pub mod classifier;
pub mod dosage;
pub mod filter;
pub mod population;
pub mod predict;
pub mod ratio;
pub mod record;
pub mod stream;
pub mod utils;

verus! {

/// The failure modes of the library.
///
/// The first three say that the variant stream is structurally malformed.
/// `InvalidFormat` carries the index of the offending population-file line.
/// `TooFewLabels` reports a training set with fewer than two distinct labels,
/// and `NumericOverflow` an exact-rational intermediate that left the `u64`
/// range.
#[derive(Clone, Copy, PartialEq, Eq, Structural, Debug)]
pub enum VcfError {
    EmptyStream,
    MetadataOnly,
    NoIndividuals,
    InvalidFormat(usize),
    TooFewLabels,
    NumericOverflow,
}

} // verus!
