//! Byte-at-a-time recovery of the oracle's secret suffix: a filler sized so
//! that one unknown byte at a time lands on a block boundary, a 256-entry
//! dictionary per byte, and a sliding window of recovered bytes.

use vstd::prelude::*;
use vstd::slice::{slice_subrange, slice_to_vec};
use crate::attacker::{Attacker, OracleProfile};
use crate::bytes::{bytes_eq, filler, filler_seq};
use crate::error::Error;
use crate::oracle::{hidden_len, oracle_model, OracleCfg};
use crate::padding::{lemma_pkcs7_pad_invariant, pkcs7_pad, pkcs7_pad_len};
use crate::transform::{dec_block, enc_block};
use crate::padding::{lemma_padded_len_lb, lemma_padded_len_mono, padded_len};
use vstd::arithmetic::div_mod::{
    lemma_fundamental_div_mod, lemma_fundamental_div_mod_converse, lemma_mod_bound,
};

verus! {

impl Attacker {
    /// From an oracle profile, the filler length and the ciphertext cut that
    /// byte-at-a-time recovery uses: filler sized so that the byte after it
    /// falls last in the block ending at the cut, about ten blocks in, which
    /// leaves room for a sliding window of recovered bytes. `None` when the
    /// profile is not ECB, since the technique needs the ECB signal.
    pub fn find_data_size_for_leak(&self, profile: &OracleProfile) -> (r: Option<(usize, usize)>)
        requires
            0 < profile.block_width <= 4096,
            profile.prefix_len <= usize::MAX / 2,
        ensures
            r is Some <==> profile.is_ecb,
            r matches Some(t) ==> ({
                let w = profile.block_width as int;
                let p = profile.prefix_len as int;
                &&& t.0 == 10 * w - 1 - p % w
                &&& t.1 == p + t.0 + 1
                &&& t.0 >= 9 * w - 1
                &&& t.1 as int % w == 0
            }),
    {
        if !profile.is_ecb {
            return None;
        }
        let w = profile.block_width;
        let p = profile.prefix_len;
        proof {
            lemma_fundamental_div_mod(p as int, w as int);
            lemma_mod_bound(p as int, w as int);
        }
        let psize = 10 * w - 1 - p % w;
        let csize = p + psize + 1;
        proof {
            let wi = w as int;
            let pi = p as int;
            assert(csize as int == wi * (pi / wi + 10)) by (nonlinear_arith)
                requires
                    wi > 0,
                    pi == wi * (pi / wi) + pi % wi,
                    csize as int == pi - pi % wi + 10 * wi,
            ;
            lemma_fundamental_div_mod_converse(csize as int, wi, pi / wi + 10, 0);
        }
        Some((psize, csize))
    }

    /// Builds the 256-entry dictionary for one recovery step: for every
    /// candidate byte `c`, the ciphertext block ending at the cut `csize`
    /// when the oracle encrypts `data ++ [c]`, paired with `c`.
    pub fn last_byte_map(&mut self, data: &Vec<u8>, csize: usize) -> (r: Vec<(Vec<u8>, u8)>)
        requires
            old(self).wf(),
            16 <= csize,
            csize <= padded_len(hidden_len(old(self).cfg()) as int + data@.len() as int + 1, 16),
        ensures
            final(self).wf(),
            final(self).cfg() == old(self).cfg(),
            r@.len() == 256,
            forall|c: int|
                0 <= c < 256 ==> (#[trigger] r@[c]).1 == c as u8 && r@[c].0@ == oracle_model(
                    old(self).cfg(),
                    data@ + seq![c as u8],
                ).subrange(csize - 16, csize as int),
            old(self).cfg().is_ecb && csize as int % 16 == 0 ==> forall|c: int|
                0 <= c < 256 ==> ({
                    let blockc = pkcs7_pad(
                        old(self).cfg().prefix + (data@ + seq![c as u8]) + old(self).cfg().secret,
                        16,
                    ).subrange(csize - 16, csize as int);
                    (#[trigger] r@[c]).0@ == enc_block(old(self).cfg().key, blockc) && dec_block(
                        old(self).cfg().key,
                        r@[c].0@,
                    ) == blockc
                }),
    {
        let mut out: Vec<(Vec<u8>, u8)> = Vec::new();
        let mut c: usize = 0;
        while c < 256
            invariant
                self.wf(),
                self.cfg() == old(self).cfg(),
                16 <= csize,
                csize <= padded_len(
                    hidden_len(old(self).cfg()) as int + data@.len() as int + 1,
                    16,
                ),
                c <= 256,
                out@.len() == c,
                forall|j: int|
                    0 <= j < c ==> (#[trigger] out@[j]).1 == j as u8 && out@[j].0@ == oracle_model(
                        old(self).cfg(),
                        data@ + seq![j as u8],
                    ).subrange(csize - 16, csize as int),
                old(self).cfg().is_ecb && csize as int % 16 == 0 ==> forall|j: int|
                    0 <= j < c ==> ({
                        let blockj = pkcs7_pad(
                            old(self).cfg().prefix + (data@ + seq![j as u8]) + old(
                                self,
                            ).cfg().secret,
                            16,
                        ).subrange(csize - 16, csize as int);
                        (#[trigger] out@[j]).0@ == enc_block(old(self).cfg().key, blockj)
                            && dec_block(old(self).cfg().key, out@[j].0@) == blockj
                    }),
            decreases 256 - c,
        {
            let mut current = slice_to_vec(data.as_slice());
            current.push(c as u8);
            proof {
                assert(current@ =~= data@ + seq![c as u8]);
            }
            let e = self.blackbox(&current);
            proof {
                let cfg = old(self).cfg();
                if cfg.is_ecb && csize as int % 16 == 0 {
                    let full = cfg.prefix + current@ + cfg.secret;
                    crate::padding::lemma_pkcs7_pad_invariant(full, 16);
                    let icut = csize as int / 16 - 1;
                    lemma_fundamental_div_mod(csize as int, 16);
                    assert(16 * icut == csize - 16);
                    assert(16 * icut + 16 <= pkcs7_pad(full, 16).len());
                    assert(e@.subrange(16 * icut, 16 * icut + 16) == enc_block(
                        cfg.key,
                        pkcs7_pad(full, 16).subrange(16 * icut, 16 * icut + 16),
                    ));
                }
            }
            let key = slice_to_vec(slice_subrange(e.as_slice(), csize - 16, csize));
            out.push((key, c as u8));
            c = c + 1;
        }
        out
    }

    /// Looks a ciphertext block up in a recovery dictionary and returns the
    /// byte recorded for it, scanning in candidate order.
    fn dict_lookup(dict: &Vec<(Vec<u8>, u8)>, target: &[u8]) -> (r: Option<u8>)
        ensures
            r matches Some(c) ==> exists|j: int|
                0 <= j < dict@.len() && (#[trigger] dict@[j]).0@ == target@ && dict@[j].1 == c,
            r is None ==> forall|j: int|
                0 <= j < dict@.len() ==> (#[trigger] dict@[j]).0@ != target@,
    {
        let n = dict.len();
        let mut j: usize = 0;
        while j < n
            invariant
                n == dict@.len(),
                j <= n,
                forall|t: int| 0 <= t < j ==> (#[trigger] dict@[t]).0@ != target@,
            decreases n - j,
        {
            if bytes_eq(dict[j].0.as_slice(), target) {
                return Some(dict[j].1);
            }
            j = j + 1;
        }
        None
    }

    /// Recovers the oracle's hidden secret suffix one byte at a time: each
    /// round builds the dictionary for the next unknown byte, probes with one
    /// fewer filler byte, and resolves the byte by ciphertext-block lookup. A
    /// dictionary miss means the boundary has run past the start of the
    /// oracle's padding: the trailing pad artifact is dropped and the
    /// recovered secret returned. The technique is ECB-specific: a profile
    /// that is not ECB is rejected up front, with no oracle call made. A miss
    /// before any byte is recovered, or a round count past the filler budget,
    /// reports stalled recovery. Against an ECB oracle whose prefix length
    /// the profile states exactly, and whose secret fits the filler budget,
    /// the result is exactly the hidden secret.
    pub fn universal_leak(&mut self, profile: &OracleProfile) -> (r: Result<Vec<u8>, Error>)
        requires
            old(self).wf(),
            profile.block_width == 16,
            profile.prefix_len <= usize::MAX / 2,
        ensures
            final(self).wf(),
            final(self).cfg() == old(self).cfg(),
            !profile.is_ecb <==> r == Err::<Vec<u8>, Error>(Error::UnsupportedMode),
            r == Err::<Vec<u8>, Error>(Error::UnsupportedMode) ==> *final(self) == *old(self),
            r matches Err(e) ==> e == Error::UnsupportedMode || e == Error::RecoveryStalled,
            r matches Ok(s) ==> s@.len() <= 160,
            ({
                &&& profile.is_ecb
                &&& old(self).cfg().is_ecb
                &&& profile.prefix_len == old(self).cfg().prefix.len()
                &&& old(self).cfg().secret.len() + 2 <= 144
            }) ==> (r matches Ok(s) && s@ == old(self).cfg().secret),
    {
        if !profile.is_ecb {
            return Err(Error::UnsupportedMode);
        }
        let ghost cfg = old(self).cfg();
        let ghost p = cfg.prefix.len() as int;
        let ghost s = cfg.secret;
        let ghost slen = s.len() as int;
        let ghost acc = cfg.is_ecb && profile.prefix_len == cfg.prefix.len() && slen + 2 <= 144;
        let (psize, csize) = match self.find_data_size_for_leak(profile) {
            Some(t) => t,
            None => {
                return Err(Error::RecoveryStalled);
            },
        };
        let ghost h = hidden_len(old(self).cfg()) as int;
        let pad0 = filler(psize);
        let probe0 = self.blackbox(&pad0);
        proof {
            if acc {
                lemma_padded_len_lb(h + psize);
            }
        }
        if csize > probe0.len() || csize < 16 {
            return Err(Error::RecoveryStalled);
        }
        proof {
            lemma_padded_len_mono(h + psize, h + psize + 1, 16);
        }
        let mut pad = filler(psize);
        let mut data = filler(psize);
        let mut recovered: Vec<u8> = Vec::new();
        proof {
            assert(s.take(0) =~= Seq::<u8>::empty());
            assert(filler_seq(psize as nat) + s.take(0) =~= filler_seq(psize as nat));
        }
        let mut k: usize = 0;
        while k <= psize
            invariant
                self.wf(),
                self.cfg() == old(self).cfg(),
                profile.is_ecb,
                cfg == old(self).cfg(),
                p == cfg.prefix.len() as int,
                s == cfg.secret,
                slen == s.len() as int,
                acc == (cfg.is_ecb && profile.prefix_len == cfg.prefix.len() && slen + 2 <= 144),
                h == hidden_len(old(self).cfg()) as int,
                h == p + slen,
                16 <= csize,
                csize <= padded_len(h + psize + 1, 16),
                psize <= 159,
                k <= psize + 1,
                pad@.len() == if k <= psize {
                    (psize - k) as int
                } else {
                    0int
                },
                data@.len() == psize,
                recovered@.len() == k,
                acc ==> ({
                    &&& csize == p + psize + 1
                    &&& csize as int % 16 == 0
                    &&& psize >= 143
                    &&& slen <= 142
                    &&& k <= slen + 1
                    &&& recovered@ == (if k <= slen {
                        s.take(k as int)
                    } else {
                        s + seq![1u8]
                    })
                    &&& data@ == filler_seq((psize - k) as nat) + recovered@
                    &&& pad@ == filler_seq((psize - k) as nat)
                }),
            decreases psize + 1 - k,
        {
            let ghost datav = data@;
            let ghost padv = pad@;
            let dict = self.last_byte_map(&data, csize);
            let e = self.blackbox(&pad);
            if pad.len() > 0 {
                pad.pop();
            }
            let ghost data_tail = datav.skip(psize - 15);
            let ghost nxt: u8 = if k < slen { s[k as int] } else { 1u8 };
            proof {
                if acc {
                    lemma_recovery_round(
                        cfg,
                        datav,
                        padv,
                        dict@,
                        e@,
                        psize as int,
                        csize as int,
                        k as int,
                    );
                }
            }
            if csize > e.len() {
                // The cut has run outside the ciphertext: the same terminal
                // signal as a dictionary miss.
                if recovered.len() == 0 {
                    return Err(Error::RecoveryStalled);
                }
                recovered.pop();
                return Ok(recovered);
            }
            let target = slice_subrange(e.as_slice(), csize - 16, csize);
            match Self::dict_lookup(&dict, target) {
                Some(v) => {
                    proof {
                        if acc {
                            let j = choose|j: int|
                                0 <= j < dict@.len() && (#[trigger] dict@[j]).0@ == target@
                                    && dict@[j].1 == v;
                            assert(dec_block(cfg.key, dict@[j].0@) == data_tail + seq![
                                j as u8,
                            ]);
                            if k <= slen {
                                assert((data_tail + seq![j as u8])[15] == (data_tail + seq![
                                    nxt,
                                ])[15]);
                                assert(v == nxt);
                            } else {
                                assert((data_tail + seq![j as u8])[14] == 1u8);
                                assert(false);
                            }
                        }
                    }
                    recovered.push(v);
                    data.push(v);
                    data.remove(0);
                    proof {
                        if acc {
                            if k < slen {
                                assert(recovered@ =~= s.take(k + 1));
                            } else {
                                assert(s.take(slen) =~= s);
                                assert(recovered@ =~= s + seq![1u8]);
                            }
                            assert(data@ =~= filler_seq((psize - k - 1) as nat) + recovered@);
                            assert(pad@ =~= filler_seq((psize - k - 1) as nat));
                        }
                    }
                },
                None => {
                    proof {
                        if acc && k <= slen {
                            assert(dict@[nxt as int].0@ == enc_block(
                                cfg.key,
                                data_tail + seq![nxt],
                            ));
                            assert(dict@[nxt as int].0@ == target@);
                            assert(false);
                        }
                    }
                    if recovered.len() == 0 {
                        return Err(Error::RecoveryStalled);
                    }
                    // The boundary has crossed into the padding: the last
                    // resolved byte was the pad artifact, not secret data.
                    recovered.pop();
                    proof {
                        if acc {
                            assert((s + seq![1u8]).subrange(0, slen) =~= s);
                        }
                    }
                    return Ok(recovered);
                },
            }
            k = k + 1;
        }
        Err(Error::RecoveryStalled)
    }
}

/// One round of byte-at-a-time recovery against an accurately profiled ECB
/// oracle: the probe's ciphertext block at the cut is the transform of the
/// fifteen window bytes followed by the byte under attack (the next secret
/// byte, or the one-byte pad once the secret is exhausted), the dictionary
/// holds the transform of the window followed by each candidate, and past
/// the pad boundary no dictionary entry can match the probe.
proof fn lemma_recovery_round(
    cfg: OracleCfg,
    datav: Seq<u8>,
    padv: Seq<u8>,
    dict: Seq<(Vec<u8>, u8)>,
    e: Seq<u8>,
    psize: int,
    csize: int,
    k: int,
)
    requires
        cfg.is_ecb,
        0 <= k <= cfg.secret.len() + 1,
        cfg.secret.len() <= 142,
        psize >= 143,
        csize == cfg.prefix.len() + psize + 1,
        csize % 16 == 0,
        datav.len() == psize,
        datav == filler_seq((psize - k) as nat) + (if k <= cfg.secret.len() {
            cfg.secret.take(k)
        } else {
            cfg.secret + seq![1u8]
        }),
        padv == filler_seq((psize - k) as nat),
        dict.len() == 256,
        forall|c: int|
            0 <= c < 256 ==> ({
                let blockc = pkcs7_pad(
                    cfg.prefix + (datav + seq![c as u8]) + cfg.secret,
                    16,
                ).subrange(csize - 16, csize);
                (#[trigger] dict[c]).0@ == enc_block(cfg.key, blockc) && dec_block(
                    cfg.key,
                    dict[c].0@,
                ) == blockc
            }),
        e == oracle_model(cfg, padv),
        e.len() == padded_len(hidden_len(cfg) as int + padv.len() as int, 16),
        ({
            let padded = pkcs7_pad(cfg.prefix + padv + cfg.secret, 16);
            forall|i: int|
                0 <= i && 16 * i + 16 <= padded.len() ==> (#[trigger] e.subrange(
                    16 * i,
                    16 * i + 16,
                )) == enc_block(cfg.key, padded.subrange(16 * i, 16 * i + 16)) && dec_block(
                    cfg.key,
                    e.subrange(16 * i, 16 * i + 16),
                ) == padded.subrange(16 * i, 16 * i + 16)
        }),
    ensures
        csize <= e.len(),
        ({
            let data_tail = datav.skip(psize - 15);
            let slen = cfg.secret.len() as int;
            let nxt: u8 = if k < slen {
                cfg.secret[k]
            } else {
                1u8
            };
            &&& (forall|c: int|
                0 <= c < 256 ==> (#[trigger] dict[c]).0@ == enc_block(
                    cfg.key,
                    data_tail + seq![c as u8],
                ) && dec_block(cfg.key, dict[c].0@) == data_tail + seq![c as u8])
            &&& (k <= slen ==> e.subrange(csize - 16, csize) == enc_block(
                cfg.key,
                data_tail + seq![nxt],
            ) && dec_block(cfg.key, e.subrange(csize - 16, csize)) == data_tail + seq![nxt])
            &&& (k == slen + 1 ==> ({
                let miss = dec_block(cfg.key, e.subrange(csize - 16, csize));
                miss == e_miss_plain(cfg, psize) && miss[14] == 2u8 && data_tail[14] == 1u8
                    && miss.len() == 16
            }))
        }),
{
    let pre = cfg.prefix;
    let sec = cfg.secret;
    let slen = sec.len() as int;
    let pl = pre.len() as int;
    let m = csize / 16;
    lemma_fundamental_div_mod(csize, 16);
    lemma_fundamental_div_mod_converse(pl + psize, 16, m - 1, 15);
    assert((pl + psize) % 16 == 15);

    // The probe's ciphertext is long enough to reach the cut.
    if k <= slen {
        lemma_padded_len_lb(pl + slen + (psize - k));
        lemma_padded_len_mono(pl + psize, pl + slen + (psize - k), 16);
    } else {
        lemma_fundamental_div_mod_converse(pl + psize - 1, 16, m - 1, 14);
        assert(padded_len(pl + psize - 1, 16) == (m - 1 + 1) * 16);
    }
    assert(hidden_len(cfg) as int + padv.len() == pl + slen + (psize - k));
    assert(csize <= e.len());

    // Every dictionary entry is the transform of the window plus candidate.
    let data_tail = datav.skip(psize - 15);
    assert forall|c: int| 0 <= c < 256 implies (#[trigger] dict[c]).0@ == enc_block(
        cfg.key,
        data_tail + seq![c as u8],
    ) && dec_block(cfg.key, dict[c].0@) == data_tail + seq![c as u8] by {
        lemma_dict_block(pre, datav, c as u8, sec, csize);
        assert(datav.skip(datav.len() - 15) =~= data_tail);
    }

    // The probe block at the cut, by the position of the cut relative to the
    // end of the secret.
    let padded = pkcs7_pad(pre + padv + sec, 16);
    lemma_pkcs7_pad_invariant(pre + padv + sec, 16);
    let icut = m - 1;
    assert(16 * icut == csize - 16);
    assert(16 * icut + 16 <= padded.len());
    assert(e.subrange(16 * icut, 16 * icut + 16) == enc_block(
        cfg.key,
        padded.subrange(16 * icut, 16 * icut + 16),
    ));
    assert(e.subrange(csize - 16, csize) == enc_block(
        cfg.key,
        padded.subrange(csize - 16, csize),
    ));
    let fl = (psize - k) as nat;
    if k < slen {
        lemma_probe_block(pre, fl, sec, k, csize);
        assert((filler_seq(fl) + sec.take(k)).skip(fl + k - 15) =~= data_tail);
    } else if k == slen {
        lemma_artifact_block(pre, fl, sec, csize);
        assert(sec.take(slen) =~= sec);
        assert((filler_seq(fl) + sec).skip(fl + slen - 15) =~= data_tail);
    } else {
        lemma_miss_block(pre, fl, sec, csize);
        let x = filler_seq(fl) + sec;
        assert(datav =~= x + seq![1u8]);
        assert(padded.subrange(csize - 16, csize) == e_miss_plain(cfg, psize));
        assert(x.skip(fl + slen - 14)[14 - 14] == x[fl + slen - 14]);
        assert(e_miss_plain(cfg, psize)[14] == 2u8);
        assert(data_tail[14] == datav[psize - 1]);
        assert(datav[psize - 1] == 1u8);
    }
}

/// The plaintext block a probe decodes to once the cut sits two bytes past
/// the end of the plaintext: fourteen known bytes and the two-byte pad.
spec fn e_miss_plain(cfg: OracleCfg, psize: int) -> Seq<u8> {
    let fl = (psize - cfg.secret.len() - 1) as nat;
    (filler_seq(fl) + cfg.secret).skip(fl + cfg.secret.len() - 14) + seq![2u8, 2u8]
}


/// The ciphertext-cut block of a dictionary query: the last fifteen window
/// bytes followed by the candidate byte, all inside the attacker-controlled
/// region.
proof fn lemma_dict_block(pre: Seq<u8>, win: Seq<u8>, c: u8, sec: Seq<u8>, cut: int)
    requires
        win.len() >= 15,
        cut == pre.len() + win.len() + 1,
    ensures
        pkcs7_pad(pre + (win + seq![c]) + sec, 16).subrange(cut - 16, cut) == win.skip(
            win.len() - 15,
        ) + seq![c],
{
    let full = pre + (win + seq![c]) + sec;
    lemma_pkcs7_pad_invariant(full, 16);
    assert(pkcs7_pad(full, 16).subrange(cut - 16, cut) =~= win.skip(win.len() - 15) + seq![c]);
}

/// The ciphertext-cut block of a recovery probe while secret bytes remain:
/// the last fifteen bytes of filler-plus-known-secret, then the next unknown
/// secret byte.
proof fn lemma_probe_block(pre: Seq<u8>, fl: nat, sec: Seq<u8>, j: int, cut: int)
    requires
        0 <= j < sec.len(),
        fl + j >= 15,
        cut == pre.len() + fl + j + 1,
    ensures
        pkcs7_pad(pre + filler_seq(fl) + sec, 16).subrange(cut - 16, cut) == (filler_seq(fl)
            + sec.take(j)).skip(fl + j - 15) + seq![sec[j]],
{
    let full = pre + filler_seq(fl) + sec;
    lemma_pkcs7_pad_invariant(full, 16);
    assert(cut <= full.len());
    assert(pkcs7_pad(full, 16).subrange(cut - 16, cut) =~= (filler_seq(fl) + sec.take(j)).skip(
        fl + j - 15,
    ) + seq![sec[j]]);
}

/// The ciphertext-cut block once the cut sits one byte past the end of the
/// plaintext: the last fifteen known bytes, then the one-byte pad.
proof fn lemma_artifact_block(pre: Seq<u8>, fl: nat, sec: Seq<u8>, cut: int)
    requires
        fl + sec.len() >= 15,
        cut == pre.len() + fl + sec.len() + 1,
        (pre.len() + fl + sec.len()) as int % 16 == 15,
    ensures
        pkcs7_pad(pre + filler_seq(fl) + sec, 16).subrange(cut - 16, cut) == (filler_seq(fl)
            + sec).skip(fl + sec.len() - 15) + seq![1u8],
{
    let full = pre + filler_seq(fl) + sec;
    lemma_pkcs7_pad_invariant(full, 16);
    assert(pkcs7_pad_len(full.len(), 16) == 1);
    assert(pkcs7_pad(full, 16)[cut - 1] == 1u8);
    assert(pkcs7_pad(full, 16).subrange(cut - 16, cut) =~= (filler_seq(fl) + sec).skip(
        fl + sec.len() - 15,
    ) + seq![1u8]);
}

/// The ciphertext-cut block once the cut sits two bytes past the end of the
/// plaintext: fourteen known bytes, then the two-byte pad.
proof fn lemma_miss_block(pre: Seq<u8>, fl: nat, sec: Seq<u8>, cut: int)
    requires
        fl + sec.len() >= 14,
        cut == pre.len() + fl + sec.len() + 2,
        (pre.len() + fl + sec.len()) as int % 16 == 14,
    ensures
        pkcs7_pad(pre + filler_seq(fl) + sec, 16).subrange(cut - 16, cut) == (filler_seq(fl)
            + sec).skip(fl + sec.len() - 14) + seq![2u8, 2u8],
{
    let full = pre + filler_seq(fl) + sec;
    lemma_pkcs7_pad_invariant(full, 16);
    assert(pkcs7_pad_len(full.len(), 16) == 2);
    assert(pkcs7_pad(full, 16)[cut - 2] == 2u8);
    assert(pkcs7_pad(full, 16)[cut - 1] == 2u8);
    assert(pkcs7_pad(full, 16).subrange(cut - 16, cut) =~= (filler_seq(fl) + sec).skip(
        fl + sec.len() - 14,
    ) + seq![2u8, 2u8]);
}

} // verus!
