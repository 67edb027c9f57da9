//! A chosen-plaintext attack engine against block-cipher encryption oracles,
//! together with the PKCS#7 padding and ECB/CBC block-chaining codec it
//! reasons about.

use vstd::prelude::*;

pub mod analyzer;
pub mod attacker;
pub mod bytes;
pub mod cipher;
pub mod codec;
pub mod error;
pub mod oracle;
pub mod padding;
pub mod recover;
pub mod transform;

verus! {

} // verus!
