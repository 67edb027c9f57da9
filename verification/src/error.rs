//! Error kinds reported by the codec and the attack engine. All of them are
//! recoverable result values; no function of this crate panics.

use vstd::prelude::*;

verus! {

/// Why a codec or analysis operation could not produce a result.
#[derive(Clone, Copy, Debug, PartialEq, Eq, Structural)]
pub enum Error {
    /// A block width of zero, or one inconsistent with the cipher in use.
    InvalidBlockWidth,
    /// A ciphertext whose length is not a multiple of the block width.
    MalformedCiphertext,
    /// Probing exceeded its bounded attempt budget without a conclusive signal.
    AnalysisFailed,
    /// Byte-at-a-time recovery was attempted against a non-ECB profile.
    UnsupportedMode,
    /// A dictionary miss before any byte was recovered, or recovery ran past
    /// its call ceiling; both suggest a malformed or adversarial oracle.
    RecoveryStalled,
}

} // verus!
