//! The block-chaining codec: ECB and CBC encryption with PKCS#7 padding over
//! the raw AES block transform.

use vstd::prelude::*;
use vstd::slice::{slice_subrange, slice_to_vec};
use crate::codec::{
    cbc_decrypt_spec, cbc_encrypt_spec, cbc_last_block, ecb_decrypt_spec, ecb_encrypt_spec,
    lemma_cbc_dec_snoc, lemma_ecb_dec_snoc, lemma_xor_cancel, xor_bytes,
};
use crate::error::Error;
use crate::padding::{
    lemma_pkcs7_pad_invariant, pkcs7_pad, pkcs7_pad_byte, pkcs7_pad_len, pkcs7_valid_spec,
};
use crate::transform::{aes_decrypt, aes_encrypt, dec_block, enc_block};

verus! {

/// The chaining mode: ECB, or CBC with its initialisation vector.
pub enum CipherMode {
    ECB,
    CBC(Vec<u8>),
}

/// The cipher algorithm: AES under a chaining mode, with the key size in
/// bytes (16, 24 or 32, selecting AES-128, AES-192 or AES-256).
pub enum Algo {
    AES(CipherMode, usize),
}

impl Algo {
    /// The declared key size in bytes.
    pub open spec fn key_size_spec(&self) -> usize {
        match self {
            Algo::AES(_, s) => *s,
        }
    }

    /// Whether the chaining mode is ECB.
    pub open spec fn is_ecb_spec(&self) -> bool {
        match self {
            Algo::AES(CipherMode::ECB, _) => true,
            _ => false,
        }
    }

    /// The CBC initialisation vector, or the empty sequence under ECB.
    pub open spec fn iv_spec(&self) -> Seq<u8> {
        match self {
            Algo::AES(CipherMode::CBC(iv), _) => iv@,
            _ => Seq::empty(),
        }
    }
}

/// A block-chaining codec owning its key and algorithm. All chaining runs on
/// 16-byte blocks, the native AES block width, whatever the key size.
pub struct Cipher {
    key: Vec<u8>,
    algo: Algo,
}

impl Cipher {
    /// The key bytes currently set.
    pub closed spec fn key_spec(&self) -> Seq<u8> {
        self.key@
    }

    /// The declared key size.
    pub closed spec fn key_size_spec(&self) -> usize {
        self.algo.key_size_spec()
    }

    /// Whether the chaining mode is ECB.
    pub closed spec fn is_ecb_spec(&self) -> bool {
        self.algo.is_ecb_spec()
    }

    /// The CBC initialisation vector, or the empty sequence under ECB.
    pub closed spec fn iv_spec(&self) -> Seq<u8> {
        self.algo.iv_spec()
    }

    /// Well-formed: a supported key size, a key of exactly that length, and a
    /// one-block initialisation vector when chaining in CBC mode.
    pub open spec fn wf(&self) -> bool {
        &&& (self.key_size_spec() == 16 || self.key_size_spec() == 24 || self.key_size_spec()
            == 32)
        &&& self.key_spec().len() == self.key_size_spec()
        &&& (!self.is_ecb_spec() ==> self.iv_spec().len() == 16)
    }

    /// What `encrypt` returns: chaining encryption of the padded plaintext.
    pub open spec fn encrypt_spec(&self, data: Seq<u8>) -> Seq<u8> {
        if self.is_ecb_spec() {
            ecb_encrypt_spec(self.key_spec(), pkcs7_pad(data, 16))
        } else {
            cbc_encrypt_spec(self.key_spec(), self.iv_spec(), pkcs7_pad(data, 16))
        }
    }

    /// What `decrypt` returns on well-formed ciphertext: raw chaining
    /// decryption. Padding is not stripped; callers validate it separately.
    pub open spec fn decrypt_spec(&self, data: Seq<u8>) -> Seq<u8> {
        if self.is_ecb_spec() {
            ecb_decrypt_spec(self.key_spec(), data)
        } else {
            cbc_decrypt_spec(self.key_spec(), self.iv_spec(), data)
        }
    }

    /// A codec for the given algorithm, with no key set yet.
    pub fn new(algo: Algo) -> (r: Cipher)
        ensures
            r.key_spec() == Seq::<u8>::empty(),
            r.key_size_spec() == algo.key_size_spec(),
            r.is_ecb_spec() == algo.is_ecb_spec(),
            r.iv_spec() == algo.iv_spec(),
    {
        Cipher { algo, key: Vec::new() }
    }

    /// Replaces the key with a copy of `key`.
    pub fn set_key(&mut self, key: &Vec<u8>)
        ensures
            final(self).key_spec() == key@,
            final(self).key_size_spec() == old(self).key_size_spec(),
            final(self).is_ecb_spec() == old(self).is_ecb_spec(),
            final(self).iv_spec() == old(self).iv_spec(),
    {
        self.key = slice_to_vec(key.as_slice());
    }

    /// Appends PKCS#7 padding for block width `size`: between 1 and `size`
    /// bytes, each holding the pad length, so that the result is an exact
    /// multiple of `size`. A zero width is rejected.
    pub fn pkcs7_add_padding(data: &Vec<u8>, size: usize) -> (r: Result<Vec<u8>, Error>)
        ensures
            size == 0 <==> r is Err,
            r matches Err(e) ==> e == Error::InvalidBlockWidth,
            r matches Ok(p) ==> p@ == pkcs7_pad(data@, size as nat) && p@.len() == data@.len()
                + pkcs7_pad_len(data@.len(), size as nat) && p@.len() as int % size as int == 0,
    {
        if size == 0 {
            return Err(Error::InvalidBlockWidth);
        }
        let pad: usize = size - data.len() % size;
        let pb: u8 = (pad % 256) as u8;
        let mut out = slice_to_vec(data.as_slice());
        let mut i: usize = 0;
        while i < pad
            invariant
                i <= pad,
                pad == pkcs7_pad_len(data@.len(), size as nat),
                pb == pkcs7_pad_byte(data@.len(), size as nat),
                out@ == data@ + Seq::new(i as nat, |j: int| pb),
            decreases pad - i,
        {
            out.push(pb);
            proof {
                assert(out@ =~= data@ + Seq::new((i + 1) as nat, |j: int| pb));
            }
            i = i + 1;
        }
        proof {
            lemma_pkcs7_pad_invariant(data@, size as nat);
            assert(out@ =~= pkcs7_pad(data@, size as nat));
        }
        Ok(out)
    }

    /// Whether `data` ends in well-formed PKCS#7 padding for block width
    /// `size`. Never panics: empty input, a pad length of zero, or a claimed
    /// pad length exceeding the data length or the block width all yield
    /// `false`.
    pub fn pkcs7_valid(data: &Vec<u8>, size: usize) -> (r: bool)
        ensures
            r == pkcs7_valid_spec(data@, size as nat),
    {
        let n = data.len();
        if n == 0 {
            return false;
        }
        let last = data[n - 1];
        let p = last as usize;
        if p == 0 || p > size || p > n {
            return false;
        }
        let mut i = n - p;
        while i < n
            invariant
                n == data@.len(),
                n > 0,
                last == data@.last(),
                p == last as int,
                n - p <= i <= n,
                forall|j: int| n - p <= j < i ==> data@[j] == last,
            decreases n - i,
        {
            if data[i] != last {
                return false;
            }
            i = i + 1;
        }
        true
    }

    /// Encrypts `data` under the configured key and mode: the plaintext is
    /// padded to whole 16-byte blocks and chained per the mode. The ensured
    /// inverse facts make the ciphertext decryptable back to the padded
    /// plaintext, and in ECB mode pin every ciphertext block to the transform
    /// of its plaintext block.
    pub fn encrypt(&self, data: &Vec<u8>) -> (r: Result<Vec<u8>, Error>)
        requires
            self.wf(),
        ensures
            r is Ok,
            r matches Ok(ct) ==> ({
                let padded = pkcs7_pad(data@, 16);
                &&& ct@ == self.encrypt_spec(data@)
                &&& ct@.len() == padded.len()
                &&& self.decrypt_spec(ct@) == padded
                &&& (self.is_ecb_spec() ==> (forall|i: int|
                    0 <= i && 16 * i + 16 <= padded.len() ==> (#[trigger] ct@.subrange(
                        16 * i,
                        16 * i + 16,
                    )) == enc_block(self.key_spec(), padded.subrange(16 * i, 16 * i + 16))
                        && dec_block(self.key_spec(), ct@.subrange(16 * i, 16 * i + 16))
                        == padded.subrange(16 * i, 16 * i + 16)))
            }),
    {
        let padded = match Cipher::pkcs7_add_padding(data, 16) {
            Ok(p) => p,
            Err(e) => {
                return Err(e);
            },
        };
        match &self.algo {
            Algo::AES(CipherMode::ECB, _) => Ok(self.ecb_encrypt(&padded)),
            Algo::AES(CipherMode::CBC(iv), _) => Ok(self.cbc_encrypt(iv, &padded)),
        }
    }

    /// Decrypts `data` under the configured key and mode. A ciphertext whose
    /// length is not a multiple of the block width is rejected; padding is
    /// not stripped.
    pub fn decrypt(&self, data: &Vec<u8>) -> (r: Result<Vec<u8>, Error>)
        requires
            self.wf(),
        ensures
            data@.len() as int % 16 == 0 <==> r is Ok,
            r matches Err(e) ==> e == Error::MalformedCiphertext,
            r matches Ok(pt) ==> pt@ == self.decrypt_spec(data@) && pt@.len() == data@.len(),
    {
        if data.len() % 16 != 0 {
            return Err(Error::MalformedCiphertext);
        }
        match &self.algo {
            Algo::AES(CipherMode::ECB, _) => Ok(self.ecb_decrypt(data)),
            Algo::AES(CipherMode::CBC(iv), _) => Ok(self.cbc_decrypt(iv, data)),
        }
    }

    /// ECB chaining over an exact sequence of blocks.
    fn ecb_encrypt(&self, padded: &Vec<u8>) -> (r: Vec<u8>)
        requires
            self.wf(),
            self.is_ecb_spec(),
            padded@.len() as int % 16 == 0,
        ensures
            r@ == ecb_encrypt_spec(self.key_spec(), padded@),
            r@.len() == padded@.len(),
            ecb_decrypt_spec(self.key_spec(), r@) == padded@,
            forall|i: int|
                0 <= i && 16 * i + 16 <= padded@.len() ==> (#[trigger] r@.subrange(
                    16 * i,
                    16 * i + 16,
                )) == enc_block(self.key_spec(), padded@.subrange(16 * i, 16 * i + 16))
                    && dec_block(self.key_spec(), r@.subrange(16 * i, 16 * i + 16))
                    == padded@.subrange(16 * i, 16 * i + 16),
    {
        let ghost key = self.key_spec();
        let n = padded.len() / 16;
        proof {
            vstd::arithmetic::div_mod::lemma_fundamental_div_mod(padded@.len() as int, 16);
        }
        let mut out: Vec<u8> = Vec::new();
        let mut k: usize = 0;
        proof {
            assert(padded@.skip(0) =~= padded@);
            assert(padded@.take(0) =~= Seq::<u8>::empty());
            assert(out@ + ecb_encrypt_spec(key, padded@) =~= ecb_encrypt_spec(key, padded@));
            assert(ecb_decrypt_spec(key, out@) =~= padded@.take(0));
        }
        while k < n
            invariant
                self.wf(),
                key == self.key_spec(),
                n == padded@.len() as int / 16,
                16 * n == padded@.len(),
                padded@.len() <= usize::MAX,
                out@.len() == 16 * k,
                k <= n,
                out@ + ecb_encrypt_spec(key, padded@.skip(16 * k)) == ecb_encrypt_spec(
                    key,
                    padded@,
                ),
                ecb_decrypt_spec(key, out@) == padded@.take(16 * k),
                forall|i: int|
                    0 <= i < k ==> (#[trigger] out@.subrange(16 * i, 16 * i + 16)) == enc_block(
                        key,
                        padded@.subrange(16 * i, 16 * i + 16),
                    ) && dec_block(key, out@.subrange(16 * i, 16 * i + 16)) == padded@.subrange(
                        16 * i,
                        16 * i + 16,
                    ),
            decreases n - k,
        {
            proof {
                assert(16 * k + 16 <= 16 * n) by (nonlinear_arith)
                    requires
                        k < n,
                ;
            }
            let block = slice_subrange(padded.as_slice(), 16 * k, 16 * k + 16);
            let eb = aes_encrypt(self.key.as_slice(), block);
            let ghost prev = out@;
            crate::bytes::append_bytes(&mut out, eb.as_slice());
            proof {
                let rem = padded@.skip(16 * k);
                assert(rem.take(16) =~= padded@.subrange(16 * k, 16 * k + 16));
                assert(rem.skip(16) =~= padded@.skip(16 * (k + 1)));
                assert(prev + (eb@ + ecb_encrypt_spec(key, padded@.skip(16 * (k + 1)))) =~= (prev
                    + eb@) + ecb_encrypt_spec(key, padded@.skip(16 * (k + 1))));
                lemma_ecb_dec_snoc(key, prev, eb@);
                assert(padded@.take(16 * k) + padded@.subrange(16 * k, 16 * k + 16)
                    =~= padded@.take(16 * (k + 1)));
                assert forall|i: int| 0 <= i < k implies (#[trigger] out@.subrange(
                    16 * i,
                    16 * i + 16,
                )) == prev.subrange(16 * i, 16 * i + 16) by {
                    assert(out@.subrange(16 * i, 16 * i + 16) =~= prev.subrange(
                        16 * i,
                        16 * i + 16,
                    ));
                }
                assert(out@.subrange(16 * k, 16 * k + 16) =~= eb@);
            }
            k = k + 1;
        }
        proof {
            assert(padded@.skip(16 * n).len() == 0);
            assert(out@ + ecb_encrypt_spec(key, padded@.skip(16 * n)) =~= out@);
            assert(padded@.take(16 * n) =~= padded@);
        }
        out
    }

    /// ECB unchaining over an exact sequence of blocks.
    fn ecb_decrypt(&self, ct: &Vec<u8>) -> (r: Vec<u8>)
        requires
            self.wf(),
            self.is_ecb_spec(),
            ct@.len() as int % 16 == 0,
        ensures
            r@ == ecb_decrypt_spec(self.key_spec(), ct@),
            r@.len() == ct@.len(),
    {
        let ghost key = self.key_spec();
        let n = ct.len() / 16;
        proof {
            vstd::arithmetic::div_mod::lemma_fundamental_div_mod(ct@.len() as int, 16);
        }
        let mut out: Vec<u8> = Vec::new();
        let mut k: usize = 0;
        proof {
            assert(ct@.skip(0) =~= ct@);
            assert(out@ + ecb_decrypt_spec(key, ct@) =~= ecb_decrypt_spec(key, ct@));
        }
        while k < n
            invariant
                self.wf(),
                key == self.key_spec(),
                n == ct@.len() as int / 16,
                16 * n == ct@.len(),
                ct@.len() <= usize::MAX,
                out@.len() == 16 * k,
                k <= n,
                out@ + ecb_decrypt_spec(key, ct@.skip(16 * k)) == ecb_decrypt_spec(key, ct@),
            decreases n - k,
        {
            proof {
                assert(16 * k + 16 <= 16 * n) by (nonlinear_arith)
                    requires
                        k < n,
                ;
            }
            let block = slice_subrange(ct.as_slice(), 16 * k, 16 * k + 16);
            let db = aes_decrypt(self.key.as_slice(), block);
            let ghost prev = out@;
            crate::bytes::append_bytes(&mut out, db.as_slice());
            proof {
                let rem = ct@.skip(16 * k);
                assert(rem.take(16) =~= ct@.subrange(16 * k, 16 * k + 16));
                assert(rem.skip(16) =~= ct@.skip(16 * (k + 1)));
                assert(prev + (db@ + ecb_decrypt_spec(key, ct@.skip(16 * (k + 1)))) =~= (prev
                    + db@) + ecb_decrypt_spec(key, ct@.skip(16 * (k + 1))));
            }
            k = k + 1;
        }
        proof {
            assert(ct@.skip(16 * n).len() == 0);
            assert(out@ + ecb_decrypt_spec(key, ct@.skip(16 * n)) =~= out@);
        }
        out
    }

    /// CBC chaining over an exact sequence of blocks; the running previous
    /// ciphertext block is local to the call and the caller's vector is never
    /// changed.
    fn cbc_encrypt(&self, iv: &Vec<u8>, padded: &Vec<u8>) -> (r: Vec<u8>)
        requires
            self.wf(),
            !self.is_ecb_spec(),
            iv@ == self.iv_spec(),
            padded@.len() as int % 16 == 0,
        ensures
            r@ == cbc_encrypt_spec(self.key_spec(), iv@, padded@),
            r@.len() == padded@.len(),
            cbc_decrypt_spec(self.key_spec(), iv@, r@) == padded@,
    {
        let ghost key = self.key_spec();
        let n = padded.len() / 16;
        proof {
            vstd::arithmetic::div_mod::lemma_fundamental_div_mod(padded@.len() as int, 16);
        }
        let mut out: Vec<u8> = Vec::new();
        let mut prev_ct: Vec<u8> = slice_to_vec(iv.as_slice());
        let mut k: usize = 0;
        proof {
            assert(padded@.skip(0) =~= padded@);
            assert(padded@.take(0) =~= Seq::<u8>::empty());
            assert(out@ + cbc_encrypt_spec(key, prev_ct@, padded@) =~= cbc_encrypt_spec(
                key,
                iv@,
                padded@,
            ));
            assert(cbc_decrypt_spec(key, iv@, out@) =~= padded@.take(0));
        }
        while k < n
            invariant
                self.wf(),
                key == self.key_spec(),
                n == padded@.len() as int / 16,
                16 * n == padded@.len(),
                padded@.len() <= usize::MAX,
                iv@.len() == 16,
                prev_ct@.len() == 16,
                out@.len() == 16 * k,
                k <= n,
                prev_ct@ == cbc_last_block(iv@, out@),
                out@ + cbc_encrypt_spec(key, prev_ct@, padded@.skip(16 * k)) == cbc_encrypt_spec(
                    key,
                    iv@,
                    padded@,
                ),
                cbc_decrypt_spec(key, iv@, out@) == padded@.take(16 * k),
            decreases n - k,
        {
            proof {
                assert(16 * k + 16 <= 16 * n) by (nonlinear_arith)
                    requires
                        k < n,
                ;
            }
            let block = slice_subrange(padded.as_slice(), 16 * k, 16 * k + 16);
            let xored = xor_block(block, prev_ct.as_slice());
            let eb = aes_encrypt(self.key.as_slice(), xored.as_slice());
            let ghost prev_out = out@;
            let ghost prev_iv = prev_ct@;
            crate::bytes::append_bytes(&mut out, eb.as_slice());
            prev_ct = eb;
            proof {
                let rem = padded@.skip(16 * k);
                assert(rem.take(16) =~= padded@.subrange(16 * k, 16 * k + 16));
                assert(rem.skip(16) =~= padded@.skip(16 * (k + 1)));
                assert(eb@ == enc_block(key, xor_bytes(rem.take(16), prev_iv)));
                assert(prev_out + (eb@ + cbc_encrypt_spec(key, eb@, padded@.skip(16 * (k + 1))))
                    =~= (prev_out + eb@) + cbc_encrypt_spec(key, eb@, padded@.skip(16 * (k + 1))));
                lemma_cbc_dec_snoc(key, iv@, prev_out, eb@);
                assert(dec_block(key, eb@) == xor_bytes(padded@.subrange(16 * k, 16 * k + 16), prev_iv));
                lemma_xor_cancel(padded@.subrange(16 * k, 16 * k + 16), prev_iv);
                assert(padded@.take(16 * k) + padded@.subrange(16 * k, 16 * k + 16)
                    =~= padded@.take(16 * (k + 1)));
                assert(out@.skip(out@.len() - 16) =~= eb@);
            }
            k = k + 1;
        }
        proof {
            assert(padded@.skip(16 * n).len() == 0);
            assert(out@ + cbc_encrypt_spec(key, prev_ct@, padded@.skip(16 * n)) =~= out@);
            assert(padded@.take(16 * n) =~= padded@);
        }
        out
    }

    /// CBC unchaining over an exact sequence of blocks.
    fn cbc_decrypt(&self, iv: &Vec<u8>, ct: &Vec<u8>) -> (r: Vec<u8>)
        requires
            self.wf(),
            !self.is_ecb_spec(),
            iv@ == self.iv_spec(),
            ct@.len() as int % 16 == 0,
        ensures
            r@ == cbc_decrypt_spec(self.key_spec(), iv@, ct@),
            r@.len() == ct@.len(),
    {
        let ghost key = self.key_spec();
        let n = ct.len() / 16;
        proof {
            vstd::arithmetic::div_mod::lemma_fundamental_div_mod(ct@.len() as int, 16);
        }
        let mut out: Vec<u8> = Vec::new();
        let mut prev_ct: Vec<u8> = slice_to_vec(iv.as_slice());
        let mut k: usize = 0;
        proof {
            assert(ct@.skip(0) =~= ct@);
            assert(ct@.take(0) =~= Seq::<u8>::empty());
            assert(out@ + cbc_decrypt_spec(key, prev_ct@, ct@) =~= cbc_decrypt_spec(
                key,
                iv@,
                ct@,
            ));
        }
        while k < n
            invariant
                self.wf(),
                key == self.key_spec(),
                n == ct@.len() as int / 16,
                16 * n == ct@.len(),
                ct@.len() <= usize::MAX,
                iv@.len() == 16,
                prev_ct@ == cbc_last_block(iv@, ct@.take(16 * k)),
                prev_ct@.len() == 16,
                out@.len() == 16 * k,
                k <= n,
                out@ + cbc_decrypt_spec(key, prev_ct@, ct@.skip(16 * k)) == cbc_decrypt_spec(
                    key,
                    iv@,
                    ct@,
                ),
            decreases n - k,
        {
            proof {
                assert(16 * k + 16 <= 16 * n) by (nonlinear_arith)
                    requires
                        k < n,
                ;
            }
            let block = slice_subrange(ct.as_slice(), 16 * k, 16 * k + 16);
            let db = aes_decrypt(self.key.as_slice(), block);
            let xored = xor_block(db.as_slice(), prev_ct.as_slice());
            let ghost prev_out = out@;
            let ghost prev_iv = prev_ct@;
            crate::bytes::append_bytes(&mut out, xored.as_slice());
            prev_ct = slice_to_vec(block);
            proof {
                let rem = ct@.skip(16 * k);
                assert(rem.take(16) =~= ct@.subrange(16 * k, 16 * k + 16));
                assert(rem.skip(16) =~= ct@.skip(16 * (k + 1)));
                assert(xored@ == xor_bytes(dec_block(key, rem.take(16)), prev_iv));
                assert(prev_out + (xored@ + cbc_decrypt_spec(
                    key,
                    rem.take(16),
                    ct@.skip(16 * (k + 1)),
                )) =~= (prev_out + xored@) + cbc_decrypt_spec(
                    key,
                    rem.take(16),
                    ct@.skip(16 * (k + 1)),
                ));
                assert(ct@.take(16 * (k + 1)).skip(16 * (k + 1) - 16) =~= ct@.subrange(
                    16 * k,
                    16 * k + 16,
                ));
            }
            k = k + 1;
        }
        proof {
            assert(ct@.skip(16 * n).len() == 0);
            assert(out@ + cbc_decrypt_spec(key, prev_ct@, ct@.skip(16 * n)) =~= out@);
        }
        out
    }
}

/// Bytewise XOR of two equal-length byte slices.
fn xor_block(a: &[u8], b: &[u8]) -> (r: Vec<u8>)
    requires
        a@.len() == b@.len(),
    ensures
        r@ == xor_bytes(a@, b@),
{
    let n = a.len();
    let mut out: Vec<u8> = Vec::new();
    let mut i: usize = 0;
    while i < n
        invariant
            i <= n,
            a@.len() == n,
            b@.len() == n,
            out@ == xor_bytes(a@, b@).take(i as int),
        decreases n - i,
    {
        out.push(a[i] ^ b[i]);
        proof {
            assert(out@ =~= xor_bytes(a@, b@).take(i + 1));
        }
        i = i + 1;
    }
    proof {
        assert(out@ =~= xor_bytes(a@, b@));
    }
    out
}

} // verus!
