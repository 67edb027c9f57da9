//! Small byte-sequence utilities shared by the codec and the attack engine.

use vstd::prelude::*;

verus! {

/// The filler byte the attack engine feeds to an oracle when the content of
/// the probe does not matter, only its length and repetition.
pub const FILLER_BYTE: u8 = 0x41;

/// `n` copies of the filler byte.
pub open spec fn filler_seq(n: nat) -> Seq<u8> {
    Seq::new(n, |i: int| FILLER_BYTE)
}

/// A buffer of `n` filler bytes.
pub fn filler(n: usize) -> (r: Vec<u8>)
    ensures
        r@ == filler_seq(n as nat),
{
    let mut out: Vec<u8> = Vec::new();
    let mut i: usize = 0;
    while i < n
        invariant
            i <= n,
            out@ == filler_seq(i as nat),
        decreases n - i,
    {
        out.push(FILLER_BYTE);
        proof {
            assert(out@ =~= filler_seq((i + 1) as nat));
        }
        i = i + 1;
    }
    out
}

/// Whether two byte slices hold the same bytes.
pub fn bytes_eq(a: &[u8], b: &[u8]) -> (r: bool)
    ensures
        r == (a@ == b@),
{
    if a.len() != b.len() {
        return false;
    }
    let n = a.len();
    let mut i: usize = 0;
    while i < n
        invariant
            i <= n,
            a@.len() == n,
            b@.len() == n,
            forall|j: int| 0 <= j < i ==> a@[j] == b@[j],
        decreases n - i,
    {
        if a[i] != b[i] {
            return false;
        }
        i = i + 1;
    }
    proof {
        assert(a@ =~= b@);
    }
    true
}

/// The index of the first position where `s1` and `s2` differ; `None` when
/// they agree on their whole common length.
pub fn common_start_size(s1: &Vec<u8>, s2: &Vec<u8>) -> (r: Option<usize>)
    ensures
        ({
            let n = if s1@.len() < s2@.len() { s1@.len() as int } else { s2@.len() as int };
            &&& (r matches Some(i) ==> 0 <= i < n && s1@[i as int] != s2@[i as int]
                && (forall|j: int| 0 <= j < i ==> s1@[j] == s2@[j]))
            &&& (r is None ==> forall|j: int| 0 <= j < n ==> s1@[j] == s2@[j])
        }),
{
    let n = if s1.len() < s2.len() { s1.len() } else { s2.len() };
    let mut offset: usize = 0;
    while offset < n
        invariant
            offset <= n,
            n == if s1@.len() < s2@.len() { s1@.len() as int } else { s2@.len() as int },
            forall|j: int| 0 <= j < offset ==> s1@[j] == s2@[j],
        decreases n - offset,
    {
        if s1[offset] != s2[offset] {
            return Some(offset);
        }
        offset = offset + 1;
    }
    None
}

/// One byte from the thread-local generator. Relies on `rand::random`;
/// nothing is promised of the value drawn.
#[verifier::external_body]
fn random_byte() -> u8 {
    rand::random::<u8>()
}

/// `size` bytes drawn from the random generator.
pub fn random(size: usize) -> (r: Vec<u8>)
    ensures
        r@.len() == size as nat,
{
    let mut out: Vec<u8> = Vec::new();
    let mut i: usize = 0;
    while i < size
        invariant
            i <= size,
            out@.len() == i as nat,
        decreases size - i,
    {
        out.push(random_byte());
        i = i + 1;
    }
    out
}

/// Appends the bytes of `src` to `dst`.
pub fn append_bytes(dst: &mut Vec<u8>, src: &[u8])
    ensures
        final(dst)@ == old(dst)@ + src@,
{
    let n = src.len();
    let mut i: usize = 0;
    while i < n
        invariant
            i <= n,
            src@.len() == n,
            dst@ == old(dst)@ + src@.take(i as int),
        decreases n - i,
    {
        dst.push(src[i]);
        proof {
            assert(dst@ =~= old(dst)@ + src@.take(i + 1));
        }
        i = i + 1;
    }
    proof {
        assert(dst@ =~= old(dst)@ + src@);
    }
}

} // verus!
