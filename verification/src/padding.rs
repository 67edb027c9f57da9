//! The PKCS#7 padding model: pad length, padded form, and validity, together
//! with the padding laws. The executable entry points live on
//! [`crate::cipher::Cipher`].

use vstd::prelude::*;
use vstd::arithmetic::div_mod::{
    lemma_fundamental_div_mod, lemma_fundamental_div_mod_converse, lemma_mod_bound,
};

verus! {

/// The number of pad bytes appended to input of length `len` for block width
/// `w`: always in `[1, w]`, a whole block when `len` is already a multiple.
pub open spec fn pkcs7_pad_len(len: nat, w: nat) -> nat
    recommends
        w > 0,
{
    (w - len % w) as nat
}

/// The byte value written into every pad position (the pad length, reduced to
/// a byte).
pub open spec fn pkcs7_pad_byte(len: nat, w: nat) -> u8
    recommends
        w > 0,
{
    (pkcs7_pad_len(len, w) % 256) as u8
}

/// `data` with PKCS#7 padding appended for block width `w`.
pub open spec fn pkcs7_pad(data: Seq<u8>, w: nat) -> Seq<u8>
    recommends
        w > 0,
{
    data + Seq::new(pkcs7_pad_len(data.len(), w), |i: int| pkcs7_pad_byte(data.len(), w))
}

/// Whether `data` ends in well-formed PKCS#7 padding for block width `w`:
/// non-empty, with a trailing run of `P` bytes equal to `P`, where `P` exceeds
/// neither the data length nor the block width.
pub open spec fn pkcs7_valid_spec(data: Seq<u8>, w: nat) -> bool {
    &&& data.len() > 0
    &&& 1 <= data.last() as nat <= w
    &&& data.last() as nat <= data.len()
    &&& (forall|i: int| data.len() - data.last() as nat <= i < data.len() ==> data[i] == data.last())
}

/// The length of `len` bytes once padded for block width `w`: the next strict
/// multiple of `w`.
pub open spec fn padded_len(len: int, w: int) -> int
    recommends
        w > 0,
{
    (len / w + 1) * w
}

/// Padding invariant: padding adds between 1 and `w` bytes, never zero, and
/// the padded length is the next strict multiple of the block width.
pub proof fn lemma_pkcs7_pad_invariant(data: Seq<u8>, w: nat)
    requires
        w > 0,
    ensures
        1 <= pkcs7_pad_len(data.len(), w) <= w,
        pkcs7_pad(data, w).len() == data.len() + pkcs7_pad_len(data.len(), w),
        pkcs7_pad(data, w).len() == padded_len(data.len() as int, w as int),
        pkcs7_pad(data, w).len() as int % w as int == 0,
{
    let l = data.len() as int;
    let wi = w as int;
    lemma_fundamental_div_mod(l, wi);
    lemma_mod_bound(l, wi);
    assert(pkcs7_pad(data, w).len() == (l / wi + 1) * wi) by {
        assert(l == wi * (l / wi) + l % wi);
        assert((l / wi + 1) * wi == wi * (l / wi) + wi) by (nonlinear_arith);
    }
    lemma_fundamental_div_mod_converse((l / wi + 1) * wi, wi, l / wi + 1, 0);
}

/// Monotonicity of the padded length in the input length.
pub proof fn lemma_padded_len_mono(l1: int, l2: int, w: int)
    requires
        w > 0,
        0 <= l1 <= l2,
    ensures
        padded_len(l1, w) <= padded_len(l2, w),
{
    vstd::arithmetic::div_mod::lemma_div_is_ordered(l1, l2, w);
    assert((l1 / w + 1) * w <= (l2 / w + 1) * w) by (nonlinear_arith)
        requires
            w > 0,
            l1 / w <= l2 / w,
    ;
}

/// Padding always adds at least one byte.
pub proof fn lemma_padded_len_lb(l: int)
    requires
        l >= 0,
    ensures
        padded_len(l, 16) >= l + 1,
        padded_len(l, 16) >= 16,
{
    lemma_fundamental_div_mod(l, 16);
    lemma_mod_bound(l, 16);
}

/// How the padded length moves as the input grows by one byte: it is flat
/// except when the new length is an exact multiple of the width, where it
/// jumps by one whole block.
pub proof fn lemma_padded_len_step(l: int)
    requires
        l >= 1,
    ensures
        padded_len(l, 16) - padded_len(l - 1, 16) == if l % 16 == 0 {
            16int
        } else {
            0int
        },
{
    let q = l / 16;
    let r = l % 16;
    lemma_fundamental_div_mod(l, 16);
    lemma_mod_bound(l, 16);
    if r == 0 {
        lemma_fundamental_div_mod_converse(l - 1, 16, q - 1, 15);
    } else {
        lemma_fundamental_div_mod_converse(l - 1, 16, q, r - 1);
    }
}

/// A freshly padded buffer validates, its final byte encodes the pad length,
/// and taking back the original length recovers the input exactly. Holds for
/// block widths up to 255, where the pad length fits in one byte.
pub proof fn lemma_pkcs7_pad_strip(data: Seq<u8>, w: nat)
    requires
        0 < w <= 255,
    ensures
        pkcs7_valid_spec(pkcs7_pad(data, w), w),
        pkcs7_pad(data, w).last() as nat == pkcs7_pad_len(data.len(), w),
        pkcs7_pad(data, w).take(data.len() as int) == data,
{
    lemma_pkcs7_pad_invariant(data, w);
    let p = pkcs7_pad_len(data.len(), w);
    assert(p % 256 == p);
    let padded = pkcs7_pad(data, w);
    assert(padded.last() == pkcs7_pad_byte(data.len(), w));
    assert(forall|i: int|
        padded.len() - p <= i < padded.len() ==> padded[i] == pkcs7_pad_byte(data.len(), w));
    assert(padded.take(data.len() as int) =~= data);
}

} // verus!
