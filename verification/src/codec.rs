//! The block-chaining model: ECB and CBC encryption and decryption of exact
//! sequences of 16-byte blocks over the raw block transform, with the
//! round-trip and ECB-determinism laws.

use vstd::prelude::*;
use crate::transform::{dec_block, enc_block};

verus! {

/// Bytewise XOR of two equal-length byte sequences.
pub open spec fn xor_bytes(a: Seq<u8>, b: Seq<u8>) -> Seq<u8>
    recommends
        a.len() == b.len(),
{
    Seq::new(a.len(), |i: int| a[i] ^ b[i])
}

/// ECB encryption of an exact sequence of 16-byte blocks: each block is
/// transformed independently.
pub open spec fn ecb_encrypt_spec(key: Seq<u8>, data: Seq<u8>) -> Seq<u8>
    recommends
        data.len() % 16 == 0,
    decreases data.len(),
{
    if data.len() < 16 {
        Seq::empty()
    } else {
        enc_block(key, data.take(16)) + ecb_encrypt_spec(key, data.skip(16))
    }
}

/// ECB decryption of an exact sequence of 16-byte blocks.
pub open spec fn ecb_decrypt_spec(key: Seq<u8>, data: Seq<u8>) -> Seq<u8>
    recommends
        data.len() % 16 == 0,
    decreases data.len(),
{
    if data.len() < 16 {
        Seq::empty()
    } else {
        dec_block(key, data.take(16)) + ecb_decrypt_spec(key, data.skip(16))
    }
}

/// CBC encryption: each plaintext block is XORed with the previous ciphertext
/// block (the first with `iv`) before the transform.
pub open spec fn cbc_encrypt_spec(key: Seq<u8>, iv: Seq<u8>, data: Seq<u8>) -> Seq<u8>
    recommends
        data.len() % 16 == 0,
        iv.len() == 16,
    decreases data.len(),
{
    if data.len() < 16 {
        Seq::empty()
    } else {
        let c = enc_block(key, xor_bytes(data.take(16), iv));
        c + cbc_encrypt_spec(key, c, data.skip(16))
    }
}

/// CBC decryption: each decrypted block is XORed with the previous ciphertext
/// block as it stood before decryption (the first with `iv`).
pub open spec fn cbc_decrypt_spec(key: Seq<u8>, iv: Seq<u8>, data: Seq<u8>) -> Seq<u8>
    recommends
        data.len() % 16 == 0,
        iv.len() == 16,
    decreases data.len(),
{
    if data.len() < 16 {
        Seq::empty()
    } else {
        xor_bytes(dec_block(key, data.take(16)), iv)
            + cbc_decrypt_spec(key, data.take(16), data.skip(16))
    }
}

/// The block a CBC step chains with next: the last block of the ciphertext so
/// far, or the initialisation vector before any block exists.
pub open spec fn cbc_last_block(iv: Seq<u8>, ct: Seq<u8>) -> Seq<u8> {
    if ct.len() < 16 {
        iv
    } else {
        ct.skip(ct.len() - 16)
    }
}

/// XOR with a fixed mask is an involution.
pub proof fn lemma_xor_cancel(a: Seq<u8>, b: Seq<u8>)
    requires
        a.len() == b.len(),
    ensures
        xor_bytes(xor_bytes(a, b), b) == a,
{
    assert(forall|x: u8, y: u8| (x ^ y) ^ y == x) by (bit_vector);
    assert(xor_bytes(xor_bytes(a, b), b) =~= a);
}

/// Appending one more block to an ECB ciphertext appends its decryption.
pub proof fn lemma_ecb_dec_snoc(key: Seq<u8>, c: Seq<u8>, b: Seq<u8>)
    requires
        c.len() % 16 == 0,
        b.len() == 16,
    ensures
        ecb_decrypt_spec(key, c + b) == ecb_decrypt_spec(key, c) + dec_block(key, b),
    decreases c.len(),
{
    if c.len() == 0 {
        assert(c + b =~= b);
        assert(b.take(16) =~= b);
        assert(b.skip(16).len() == 0);
        assert(ecb_decrypt_spec(key, b.skip(16)) =~= Seq::<u8>::empty());
        assert(ecb_decrypt_spec(key, c) =~= Seq::<u8>::empty());
        assert(ecb_decrypt_spec(key, c + b) == dec_block(key, b.take(16))
            + ecb_decrypt_spec(key, b.skip(16)));
        assert(ecb_decrypt_spec(key, c + b) =~= ecb_decrypt_spec(key, c) + dec_block(key, b));
    } else {
        assert((c + b).take(16) =~= c.take(16));
        assert((c + b).skip(16) =~= c.skip(16) + b);
        assert(c.skip(16).len() % 16 == 0);
        lemma_ecb_dec_snoc(key, c.skip(16), b);
        let h = dec_block(key, c.take(16));
        let t = ecb_decrypt_spec(key, c.skip(16));
        let d = dec_block(key, b);
        assert(ecb_decrypt_spec(key, c + b) == h + (t + d));
        assert(ecb_decrypt_spec(key, c) == h + t);
        assert(h + (t + d) =~= (h + t) + d);
    }
}

/// Appending one more block to a CBC ciphertext appends its decryption, which
/// chains with the last block the ciphertext held before.
pub proof fn lemma_cbc_dec_snoc(key: Seq<u8>, iv: Seq<u8>, c: Seq<u8>, b: Seq<u8>)
    requires
        c.len() % 16 == 0,
        b.len() == 16,
    ensures
        cbc_decrypt_spec(key, iv, c + b) == cbc_decrypt_spec(key, iv, c)
            + xor_bytes(dec_block(key, b), cbc_last_block(iv, c)),
    decreases c.len(),
{
    if c.len() == 0 {
        assert(c + b =~= b);
        assert(b.take(16) =~= b);
        assert(b.skip(16).len() == 0);
        assert(cbc_decrypt_spec(key, b, b.skip(16)) =~= Seq::<u8>::empty());
        assert(cbc_decrypt_spec(key, iv, c) =~= Seq::<u8>::empty());
        assert(cbc_decrypt_spec(key, iv, c + b) == xor_bytes(dec_block(key, b.take(16)), iv)
            + cbc_decrypt_spec(key, b.take(16), b.skip(16)));
        assert(cbc_last_block(iv, c) == iv);
        assert(cbc_decrypt_spec(key, iv, c + b) =~= cbc_decrypt_spec(key, iv, c)
            + xor_bytes(dec_block(key, b), cbc_last_block(iv, c)));
    } else {
        assert((c + b).take(16) =~= c.take(16));
        assert((c + b).skip(16) =~= c.skip(16) + b);
        assert(c.skip(16).len() % 16 == 0);
        lemma_cbc_dec_snoc(key, c.take(16), c.skip(16), b);
        assert(cbc_last_block(c.take(16), c.skip(16)) =~= cbc_last_block(iv, c)) by {
            if c.len() == 16 {
                assert(c.skip(16).len() == 0);
                assert(c.take(16) =~= c.skip(c.len() - 16));
            } else {
                assert(c.skip(16).skip(c.skip(16).len() - 16) =~= c.skip(c.len() - 16));
            }
        }
        let h = xor_bytes(dec_block(key, c.take(16)), iv);
        let t = cbc_decrypt_spec(key, c.take(16), c.skip(16));
        let d = xor_bytes(dec_block(key, b), cbc_last_block(iv, c));
        assert(cbc_decrypt_spec(key, iv, c + b) == h + (t + d));
        assert(cbc_decrypt_spec(key, iv, c) == h + t);
        assert(h + (t + d) =~= (h + t) + d);
    }
}

/// Round-trip: under the block-transform contract (every transformed block
/// is 16 bytes wide and decryption inverts encryption for the key), chaining
/// decryption recovers every exact sequence of blocks that chaining
/// encryption produced, in ECB and in CBC mode alike.
pub proof fn lemma_chaining_round_trip(key: Seq<u8>, iv: Seq<u8>, data: Seq<u8>)
    requires
        data.len() % 16 == 0,
        iv.len() == 16,
        forall|b: Seq<u8>| b.len() == 16 ==> (#[trigger] enc_block(key, b)).len() == 16,
        forall|b: Seq<u8>| b.len() == 16 ==> dec_block(key, #[trigger] enc_block(key, b)) == b,
    ensures
        ecb_decrypt_spec(key, ecb_encrypt_spec(key, data)) == data,
        cbc_decrypt_spec(key, iv, cbc_encrypt_spec(key, iv, data)) == data,
    decreases data.len(),
{
    if data.len() == 0 {
        assert(ecb_decrypt_spec(key, ecb_encrypt_spec(key, data)) =~= data);
        assert(cbc_decrypt_spec(key, iv, cbc_encrypt_spec(key, iv, data)) =~= data);
    } else {
        let d0 = data.take(16);
        let rest = data.skip(16);
        lemma_chaining_round_trip(key, iv, rest);

        // ECB: the first ciphertext block decrypts to the first plaintext
        // block, and the tail round-trips by induction.
        let e0 = enc_block(key, d0);
        let etail = ecb_encrypt_spec(key, rest);
        assert((e0 + etail).take(16) =~= e0);
        assert((e0 + etail).skip(16) =~= etail);
        assert(ecb_decrypt_spec(key, e0 + etail) == dec_block(key, e0) + ecb_decrypt_spec(key, etail));
        assert(ecb_decrypt_spec(key, ecb_encrypt_spec(key, data)) =~= data);

        // CBC: the first block decrypts and un-XORs back, and the tail
        // round-trips by induction with the first ciphertext block as its
        // chaining value.
        let x0 = xor_bytes(d0, iv);
        assert(x0.len() == 16);
        let c0 = enc_block(key, x0);
        lemma_chaining_round_trip(key, c0, rest);
        let ctail = cbc_encrypt_spec(key, c0, rest);
        assert((c0 + ctail).take(16) =~= c0);
        assert((c0 + ctail).skip(16) =~= ctail);
        assert(cbc_decrypt_spec(key, iv, c0 + ctail) == xor_bytes(dec_block(key, c0), iv)
            + cbc_decrypt_spec(key, c0, ctail));
        lemma_xor_cancel(d0, iv);
        assert(xor_bytes(dec_block(key, c0), iv) == d0);
        assert(cbc_decrypt_spec(key, iv, cbc_encrypt_spec(key, iv, data)) =~= data);
    }
}

/// The block structure of an ECB ciphertext: it is as long as its plaintext,
/// and its block at any aligned position is the transform of the plaintext
/// block there (under the block-transform width contract).
pub proof fn lemma_ecb_block_at(key: Seq<u8>, data: Seq<u8>, i: int)
    requires
        data.len() % 16 == 0,
        forall|b: Seq<u8>| b.len() == 16 ==> (#[trigger] enc_block(key, b)).len() == 16,
        0 <= i,
        16 * i + 16 <= data.len(),
    ensures
        ecb_encrypt_spec(key, data).len() == data.len(),
        ecb_encrypt_spec(key, data).subrange(16 * i, 16 * i + 16)
            == enc_block(key, data.subrange(16 * i, 16 * i + 16)),
    decreases data.len(),
{
    lemma_ecb_len(key, data);
    let e0 = enc_block(key, data.take(16));
    let etail = ecb_encrypt_spec(key, data.skip(16));
    lemma_ecb_len(key, data.skip(16));
    if i == 0 {
        assert((e0 + etail).subrange(0, 16) =~= e0);
        assert(data.subrange(0, 16) =~= data.take(16));
    } else {
        lemma_ecb_block_at(key, data.skip(16), i - 1);
        assert((e0 + etail).subrange(16 * i, 16 * i + 16)
            =~= etail.subrange(16 * (i - 1), 16 * (i - 1) + 16));
        assert(data.skip(16).subrange(16 * (i - 1), 16 * (i - 1) + 16)
            =~= data.subrange(16 * i, 16 * i + 16));
    }
}

/// An ECB ciphertext is as long as its plaintext (under the block-transform
/// width contract).
pub proof fn lemma_ecb_len(key: Seq<u8>, data: Seq<u8>)
    requires
        data.len() % 16 == 0,
        forall|b: Seq<u8>| b.len() == 16 ==> (#[trigger] enc_block(key, b)).len() == 16,
    ensures
        ecb_encrypt_spec(key, data).len() == data.len(),
    decreases data.len(),
{
    if data.len() >= 16 {
        assert(data.take(16).len() == 16);
        lemma_ecb_len(key, data.skip(16));
    }
}

/// The CBC counterpart of ECB determinism: two adjacent identical plaintext
/// blocks produce identical ciphertext blocks exactly when the chaining
/// values coincide, that is, when the first ciphertext block happens to
/// equal the initialisation vector; under a fresh vector they generally
/// differ.
pub proof fn lemma_cbc_identical_blocks(key: Seq<u8>, iv: Seq<u8>, data: Seq<u8>)
    requires
        data.len() == 32,
        iv.len() == 16,
        data.take(16) == data.skip(16),
        forall|b: Seq<u8>| b.len() == 16 ==> (#[trigger] enc_block(key, b)).len() == 16,
        forall|b: Seq<u8>| b.len() == 16 ==> dec_block(key, #[trigger] enc_block(key, b)) == b,
    ensures
        ({
            let ct = cbc_encrypt_spec(key, iv, data);
            ct.subrange(0, 16) == ct.subrange(16, 32) <==> iv == ct.subrange(0, 16)
        }),
{
    reveal_with_fuel(cbc_encrypt_spec, 3);
    let d0 = data.take(16);
    let d1 = data.skip(16);
    let c0 = enc_block(key, xor_bytes(d0, iv));
    assert(xor_bytes(d0, iv).len() == 16);
    assert(d1.take(16) =~= d1);
    assert(d1.skip(16).len() == 0);
    let c1 = enc_block(key, xor_bytes(d1, c0));
    assert(xor_bytes(d1, c0).len() == 16);
    let ct = cbc_encrypt_spec(key, iv, data);
    assert(cbc_encrypt_spec(key, c0, d1) == c1 + cbc_encrypt_spec(key, c1, d1.skip(16)));
    assert(ct =~= c0 + (c1 + Seq::<u8>::empty()));
    assert(ct.subrange(0, 16) =~= c0);
    assert(ct.subrange(16, 32) =~= c1);
    if iv == c0 {
        assert(xor_bytes(d0, iv) =~= xor_bytes(d1, c0));
        assert(c0 == c1);
    }
    if c0 == c1 {
        assert(dec_block(key, c0) == xor_bytes(d0, iv));
        assert(dec_block(key, c1) == xor_bytes(d1, c0));
        assert(xor_bytes(d0, iv) == xor_bytes(d1, c0));
        assert forall|i: int| 0 <= i < 16 implies iv[i] == c0[i] by {
            assert(xor_bytes(d0, iv)[i] == xor_bytes(d1, c0)[i]);
            assert(d0[i] == d1[i]);
            let x = d0[i];
            let y = iv[i];
            let z = c0[i];
            assert(y == z) by (bit_vector)
                requires
                    x ^ y == x ^ z,
            ;
        }
        assert(iv =~= c0);
    }
}

/// ECB determinism: identical plaintext blocks at block-aligned positions
/// yield identical ciphertext blocks.
pub proof fn lemma_ecb_identical_blocks(key: Seq<u8>, data: Seq<u8>, i: int, j: int)
    requires
        data.len() % 16 == 0,
        forall|b: Seq<u8>| b.len() == 16 ==> (#[trigger] enc_block(key, b)).len() == 16,
        0 <= i,
        0 <= j,
        16 * i + 16 <= data.len(),
        16 * j + 16 <= data.len(),
        data.subrange(16 * i, 16 * i + 16) == data.subrange(16 * j, 16 * j + 16),
    ensures
        ecb_encrypt_spec(key, data).subrange(16 * i, 16 * i + 16)
            == ecb_encrypt_spec(key, data).subrange(16 * j, 16 * j + 16),
{
    lemma_ecb_block_at(key, data, i);
    lemma_ecb_block_at(key, data, j);
}

} // verus!
