//! An encryption oracle owning its hidden key, chaining mode, fixed prefix
//! and secret suffix. Each call encrypts `prefix ++ input ++ secret` under
//! the hidden configuration; the configuration never changes over the
//! oracle's lifetime, which is the precondition the attack engine relies on.

use vstd::prelude::*;
use crate::bytes::append_bytes;
use crate::cipher::{Algo, Cipher};
use crate::codec::{cbc_encrypt_spec, ecb_encrypt_spec};
use crate::error::Error;
use crate::padding::{lemma_pkcs7_pad_invariant, padded_len, pkcs7_pad};
use crate::transform::{dec_block, enc_block};
use vstd::slice::slice_to_vec;

verus! {

/// The hidden configuration of an encryption oracle, as one ghost record:
/// what a call's result is a function of.
pub ghost struct OracleCfg {
    /// The hidden key bytes.
    pub key: Seq<u8>,
    /// Whether the hidden chaining mode is ECB.
    pub is_ecb: bool,
    /// The hidden CBC initialisation vector (empty under ECB).
    pub iv: Seq<u8>,
    /// The fixed bytes silently prepended to every input.
    pub prefix: Seq<u8>,
    /// The fixed secret bytes silently appended to every input.
    pub secret: Seq<u8>,
}

/// The combined length of the data the oracle adds around the input.
pub open spec fn hidden_len(cfg: OracleCfg) -> nat {
    cfg.prefix.len() + cfg.secret.len()
}

/// What one oracle call returns: the chaining encryption, under the hidden
/// key and mode, of the padded `prefix ++ input ++ secret`.
pub open spec fn oracle_model(cfg: OracleCfg, input: Seq<u8>) -> Seq<u8> {
    let full = cfg.prefix + input + cfg.secret;
    if cfg.is_ecb {
        ecb_encrypt_spec(cfg.key, pkcs7_pad(full, 16))
    } else {
        cbc_encrypt_spec(cfg.key, cfg.iv, pkcs7_pad(full, 16))
    }
}

/// An encryption oracle: one `encrypt` capability over a fixed hidden
/// configuration, plus a count of the calls made so far.
pub struct Oracle {
    cipher: Cipher,
    prefix: Vec<u8>,
    secret: Vec<u8>,
    calls: u64,
}

impl Oracle {
    /// The hidden configuration, as one ghost record.
    pub closed spec fn cfg(&self) -> OracleCfg {
        OracleCfg {
            key: self.cipher.key_spec(),
            is_ecb: self.cipher.is_ecb_spec(),
            iv: self.cipher.iv_spec(),
            prefix: self.prefix@,
            secret: self.secret@,
        }
    }

    /// How many calls have been made so far.
    pub closed spec fn calls_spec(&self) -> u64 {
        self.calls
    }

    /// Well-formed: the hidden cipher is well-formed.
    pub closed spec fn wf(&self) -> bool {
        self.cipher.wf()
    }

    /// Builds an oracle over the given algorithm and hidden data. Rejects a
    /// key whose length does not match the declared size, an unsupported key
    /// size, and a CBC initialisation vector that is not one block wide.
    pub fn new(algo: Algo, key: Vec<u8>, prefix: Vec<u8>, secret: Vec<u8>) -> (r: Result<
        Oracle,
        Error,
    >)
        ensures
            (algo.key_size_spec() == 16 || algo.key_size_spec() == 24 || algo.key_size_spec()
                == 32) && key@.len() == algo.key_size_spec() && (!algo.is_ecb_spec()
                ==> algo.iv_spec().len() == 16) <==> r is Ok,
            r matches Err(e) ==> e == Error::InvalidBlockWidth,
            r matches Ok(o) ==> o.wf() && o.calls_spec() == 0 && o.cfg() == (OracleCfg {
                key: key@,
                is_ecb: algo.is_ecb_spec(),
                iv: algo.iv_spec(),
                prefix: prefix@,
                secret: secret@,
            }),
    {
        let size_ok = match &algo {
            Algo::AES(_, s) => *s == 16 || *s == 24 || *s == 32,
        };
        let key_ok = match &algo {
            Algo::AES(_, s) => key.len() == *s,
        };
        let iv_ok = match &algo {
            Algo::AES(crate::cipher::CipherMode::CBC(iv), _) => iv.len() == 16,
            Algo::AES(crate::cipher::CipherMode::ECB, _) => true,
        };
        if !(size_ok && key_ok && iv_ok) {
            return Err(Error::InvalidBlockWidth);
        }
        let mut cipher = Cipher::new(algo);
        cipher.set_key(&key);
        Ok(Oracle { cipher, prefix, secret, calls: 0 })
    }

    /// One oracle call: encrypts `prefix ++ input ++ secret` under the hidden
    /// configuration and counts the call. The configuration is unchanged; the
    /// result is the model value for this input, its length the padded length
    /// of the full plaintext, and under ECB every ciphertext block is the
    /// transform of the plaintext block at the same position.
    pub fn encrypt(&mut self, input: &Vec<u8>) -> (r: Vec<u8>)
        requires
            old(self).wf(),
        ensures
            final(self).wf(),
            final(self).cfg() == old(self).cfg(),
            final(self).calls_spec() == if old(self).calls_spec() == u64::MAX {
                u64::MAX
            } else {
                (old(self).calls_spec() + 1) as u64
            },
            r@ == oracle_model(old(self).cfg(), input@),
            r@.len() == padded_len(hidden_len(old(self).cfg()) as int + input@.len() as int, 16),
            r@.len() as int % 16 == 0,
            old(self).cfg().is_ecb ==> ({
                let padded = pkcs7_pad(
                    old(self).cfg().prefix + input@ + old(self).cfg().secret,
                    16,
                );
                forall|i: int|
                    0 <= i && 16 * i + 16 <= padded.len() ==> (#[trigger] r@.subrange(
                        16 * i,
                        16 * i + 16,
                    )) == enc_block(old(self).cfg().key, padded.subrange(16 * i, 16 * i + 16))
                        && dec_block(old(self).cfg().key, r@.subrange(16 * i, 16 * i + 16))
                        == padded.subrange(16 * i, 16 * i + 16)
            }),
    {
        let mut full = slice_to_vec(self.prefix.as_slice());
        append_bytes(&mut full, input.as_slice());
        append_bytes(&mut full, self.secret.as_slice());
        let ct = match self.cipher.encrypt(&full) {
            Ok(c) => c,
            Err(_) => Vec::new(),
        };
        if self.calls < u64::MAX {
            self.calls = self.calls + 1;
        }
        proof {
            lemma_pkcs7_pad_invariant(full@, 16);
            assert(full@ =~= self.cfg().prefix + input@ + self.cfg().secret);
        }
        ct
    }

    /// How many calls this oracle has answered.
    pub fn calls(&self) -> (r: u64)
        ensures
            r == self.calls_spec(),
    {
        self.calls
    }
}

} // verus!
