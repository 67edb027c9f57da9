//! The attacker: drives an encryption oracle through its one `encrypt`
//! capability, first to profile it (block width, chaining mode, prefix
//! length) and then to recover its hidden secret suffix byte by byte.

use vstd::prelude::*;
use crate::error::Error;
use crate::oracle::{hidden_len, oracle_model, Oracle, OracleCfg};
use crate::padding::{padded_len, pkcs7_pad};
use crate::transform::{dec_block, enc_block};

verus! {

/// What the analysis learns about an oracle: its block width, whether it
/// chains in ECB mode, and the length of the fixed data it prepends.
/// Produced once per oracle and consumed read-only by the recovery.
#[derive(Clone, Copy, Debug, PartialEq, Eq, Structural)]
pub struct OracleProfile {
    /// The cipher block width in bytes.
    pub block_width: usize,
    /// Whether the oracle showed the ECB signal.
    pub is_ecb: bool,
    /// The measured length of the fixed prefix.
    pub prefix_len: usize,
}

/// An attacker bound to one oracle, reached only through [`Self::blackbox`].
pub struct Attacker {
    pub(crate) oracle: Oracle,
}

impl Attacker {
    /// The hidden configuration of the oracle under attack.
    pub closed spec fn cfg(&self) -> OracleCfg {
        self.oracle.cfg()
    }

    /// How many calls the oracle has answered.
    pub closed spec fn calls_spec(&self) -> u64 {
        self.oracle.calls_spec()
    }

    /// Well-formed: the oracle under attack is well-formed.
    pub closed spec fn wf(&self) -> bool {
        self.oracle.wf()
    }

    /// An attacker driving the given oracle.
    pub fn new(oracle: Oracle) -> (r: Attacker)
        ensures
            r.cfg() == oracle.cfg(),
            r.calls_spec() == oracle.calls_spec(),
            r.wf() == oracle.wf(),
    {
        Attacker { oracle }
    }

    /// Replaces the oracle under attack.
    pub fn set_blackbox(&mut self, oracle: Oracle)
        ensures
            final(self).cfg() == oracle.cfg(),
            final(self).calls_spec() == oracle.calls_spec(),
            final(self).wf() == oracle.wf(),
    {
        self.oracle = oracle;
    }

    /// One call to the oracle under attack.
    pub fn blackbox(&mut self, data: &Vec<u8>) -> (r: Vec<u8>)
        requires
            old(self).wf(),
        ensures
            final(self).wf(),
            final(self).cfg() == old(self).cfg(),
            r@ == oracle_model(old(self).cfg(), data@),
            r@.len() == padded_len(
                hidden_len(old(self).cfg()) as int + data@.len() as int,
                16,
            ),
            r@.len() as int % 16 == 0,
            old(self).cfg().is_ecb ==> ({
                let padded = pkcs7_pad(
                    old(self).cfg().prefix + data@ + old(self).cfg().secret,
                    16,
                );
                forall|i: int|
                    0 <= i && 16 * i + 16 <= padded.len() ==> (#[trigger] r@.subrange(
                        16 * i,
                        16 * i + 16,
                    )) == enc_block(old(self).cfg().key, padded.subrange(16 * i, 16 * i + 16))
                        && dec_block(old(self).cfg().key, r@.subrange(16 * i, 16 * i + 16))
                        == padded.subrange(16 * i, 16 * i + 16)
            }),
    {
        self.oracle.encrypt(data)
    }

    /// How many calls the oracle under attack has answered.
    pub fn oracle_calls(&self) -> (r: u64)
        ensures
            r == self.calls_spec(),
    {
        self.oracle.calls()
    }
}

} // verus!
