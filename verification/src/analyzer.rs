//! Profiling an oracle: block width from the ciphertext-length step
//! function, ECB classification from repeated filler blocks, and the length
//! of the fixed prefix from where the repeated pattern survives.

use vstd::prelude::*;
use vstd::slice::{slice_subrange, slice_to_vec};
use crate::attacker::{Attacker, OracleProfile};
use crate::bytes::{bytes_eq, filler, filler_seq, FILLER_BYTE};
use crate::error::Error;
use crate::oracle::{hidden_len, oracle_model, OracleCfg};
use crate::padding::{
    lemma_padded_len_lb, lemma_padded_len_step, lemma_pkcs7_pad_invariant, padded_len, pkcs7_pad,
    pkcs7_pad_byte, pkcs7_pad_len,
};
use crate::transform::{dec_block, enc_block};
use vstd::arithmetic::div_mod::{
    lemma_fundamental_div_mod, lemma_fundamental_div_mod_converse, lemma_mod_bound,
};

verus! {

/// The adjacent-equal-blocks signal: whether the ciphertext the oracle
/// returns for twenty blocks of filler holds two adjacent identical blocks.
/// Under ECB the repeated filler guarantees it; seeing it without ECB would
/// take a transform collision, so its absence is read as "not ECB".
pub open spec fn ecb_signal(cfg: OracleCfg) -> bool {
    let m = oracle_model(cfg, filler_seq(320));
    exists|i: int|
        1 <= i && 16 * i + 16 <= m.len() && (#[trigger] m.subrange(16 * (i - 1), 16 * i))
            == m.subrange(16 * i, 16 * i + 16)
}

impl Attacker {
    /// Detects the oracle's cipher block width: the input grows one byte at
    /// a time until the ciphertext length first jumps, and the jump is the
    /// width. Against a well-formed oracle the jump always comes within the
    /// attempt budget, and it is the 16-byte AES block width.
    pub fn detect_block_size(&mut self) -> (r: Result<usize, Error>)
        requires
            old(self).wf(),
        ensures
            final(self).wf(),
            final(self).cfg() == old(self).cfg(),
            r == Ok::<usize, Error>(16usize),
    {
        let ghost h = hidden_len(old(self).cfg()) as int;
        let ghost m_star = 17 - ((h + 1) % 16);
        proof {
            lemma_mod_bound(h + 1, 16);
            lemma_fundamental_div_mod(h + 1, 16);
            lemma_fundamental_div_mod_converse(
                h + m_star,
                16,
                (h + 1) / 16 + 1,
                0,
            );
        }
        let mut data: Vec<u8> = Vec::new();
        data.push(crate::bytes::FILLER_BYTE);
        let mut pval: Option<usize> = None;
        while data.len() <= 128
            invariant
                self.wf(),
                self.cfg() == old(self).cfg(),
                h == hidden_len(old(self).cfg()) as int,
                m_star == 17 - ((h + 1) % 16),
                2 <= m_star <= 17,
                (h + m_star) % 16 == 0,
                1 <= data@.len() <= m_star,
                data@.len() == 1 ==> pval is None,
                data@.len() >= 2 ==> pval == Some::<usize>(
                    padded_len(h + data@.len() - 1, 16) as usize,
                ),
            decreases 18 - data@.len(),
        {
            let e = self.blackbox(&data);
            let cur = e.len();
            let ghost n = data@.len() as int;
            match pval {
                Some(v) => {
                    if cur != v {
                        proof {
                            lemma_padded_len_step(h + n);
                        }
                        return Ok(cur - v);
                    }
                    proof {
                        lemma_padded_len_step(h + n);
                        assert(n != m_star);
                    }
                    pval = Some(cur);
                },
                None => {
                    pval = Some(cur);
                },
            }
            data.push(crate::bytes::FILLER_BYTE);
        }
        proof {
            assert(false);
        }
        Err(Error::AnalysisFailed)
    }

    /// Submits twenty blocks of filler and reports whether any two adjacent
    /// ciphertext blocks are byte-identical: conclusive evidence of ECB. An
    /// ECB oracle always shows the signal; its absence is read as "not ECB",
    /// a documented heuristic rather than a proof of the mode.
    pub fn is_ecb(&mut self) -> (r: bool)
        requires
            old(self).wf(),
        ensures
            final(self).wf(),
            final(self).cfg() == old(self).cfg(),
            r == ecb_signal(old(self).cfg()),
            old(self).cfg().is_ecb ==> r,
    {
        let bs = match self.detect_block_size() {
            Ok(v) => v,
            Err(_) => {
                return false;
            },
        };
        let data = filler(20 * bs);
        let ct = self.blackbox(&data);
        proof {
            lemma_self_signal(old(self).cfg(), ct@);
        }
        let nb = ct.len() / 16;
        proof {
            lemma_fundamental_div_mod(ct@.len() as int, 16);
            lemma_padded_len_lb(hidden_len(old(self).cfg()) as int + 320);
        }
        let mut i: usize = 1;
        while i < nb
            invariant
                self.wf(),
                self.cfg() == old(self).cfg(),
                ct@ == oracle_model(old(self).cfg(), filler_seq(320)),
                16 * nb == ct@.len(),
                ct@.len() <= usize::MAX,
                1 <= i <= nb,
                forall|j: int|
                    1 <= j < i ==> (#[trigger] ct@.subrange(16 * (j - 1), 16 * j))
                        != ct@.subrange(16 * j, 16 * j + 16),
            decreases nb - i,
        {
            proof {
                assert(16 * i + 16 <= 16 * nb) by (nonlinear_arith)
                    requires
                        i < nb,
                ;
            }
            let a = slice_subrange(ct.as_slice(), 16 * (i - 1), 16 * i);
            let b = slice_subrange(ct.as_slice(), 16 * i, 16 * i + 16);
            if bytes_eq(a, b) {
                proof {
                    assert(a@ =~= ct@.subrange(16 * (i - 1), 16 * i));
                    assert(ecb_signal(old(self).cfg()));
                }
                return true;
            }
            i = i + 1;
        }
        proof {
            assert(!ecb_signal(old(self).cfg()));
        }
        false
    }

    /// Measures the length of the fixed data the oracle prepends. The probe
    /// first locates the offset of the first adjacent pair of identical
    /// ciphertext blocks under an all-filler input, then prepends `n` random
    /// bytes before one filler block for each `n` below the width: where the
    /// pattern at that offset survives, the prefix ends `n` bytes before the
    /// offset. Requires the ECB signal. For a clean prefix (one that neither
    /// ends in the filler byte nor repeats adjacent aligned blocks) against
    /// a secret that does not start with the filler byte, the measurement is
    /// proven exact; on other prefixes the heuristic can misfire, which is a
    /// documented limit of the method rather than a defect.
    pub fn ecb_find_prepend_size(&mut self) -> (r: Result<usize, Error>)
        requires
            old(self).wf(),
        ensures
            final(self).wf(),
            final(self).cfg() == old(self).cfg(),
            r == Err::<usize, Error>(Error::UnsupportedMode) <==> !ecb_signal(old(self).cfg()),
            r is Err ==> r == Err::<usize, Error>(Error::UnsupportedMode) || r == Err::<
                usize,
                Error,
            >(Error::AnalysisFailed),
            r matches Ok(v) ==> exists|rb: Seq<u8>|
                (#[trigger] rb.len()) < 16 && ({
                    let m0 = oracle_model(old(self).cfg(), filler_seq(320));
                    let mp = oracle_model(old(self).cfg(), rb + filler_seq(16));
                    let off = v + rb.len();
                    &&& off + 16 <= m0.len()
                    &&& off + 16 <= mp.len()
                    &&& mp.subrange(off as int, off + 16) == m0.subrange(off as int, off + 16)
                }),
            ({
                &&& old(self).cfg().is_ecb
                &&& clean_prefix(old(self).cfg())
                &&& (old(self).cfg().secret.len() == 0 || old(self).cfg().secret[0]
                    != FILLER_BYTE)
            }) ==> (r matches Ok(v) && v == old(self).cfg().prefix.len()),
    {
        if !self.is_ecb() {
            return Err(Error::UnsupportedMode);
        }
        let ghost cfg = old(self).cfg();
        let ghost p = cfg.prefix.len() as int;
        let ghost c = (p + 15) / 16;
        let ghost ntrue = 16 * c - p;
        let ghost cln = cfg.is_ecb && clean_prefix(cfg) && (cfg.secret.len() == 0 || cfg.secret[0]
            != FILLER_BYTE);
        let bs = match self.detect_block_size() {
            Ok(v) => v,
            Err(_) => {
                return Err(Error::AnalysisFailed);
            },
        };
        let data = filler(20 * bs);
        let ct = self.blackbox(&data);
        let nb = ct.len() / 16;
        proof {
            lemma_fundamental_div_mod(ct@.len() as int, 16);
            lemma_padded_len_lb(hidden_len(old(self).cfg()) as int + 320);
        }
        let mut offset: usize = 0;
        let mut found = false;
        let mut i: usize = 1;
        while !found && i < nb
            invariant
                self.wf(),
                self.cfg() == old(self).cfg(),
                cfg == old(self).cfg(),
                p == cfg.prefix.len() as int,
                c == (p + 15) / 16,
                cln == (cfg.is_ecb && clean_prefix(cfg) && (cfg.secret.len() == 0
                    || cfg.secret[0] != FILLER_BYTE)),
                ct@ == oracle_model(old(self).cfg(), filler_seq(320)),
                ct@.len() == padded_len(hidden_len(cfg) as int + 320, 16),
                16 * nb == ct@.len(),
                ct@.len() <= usize::MAX,
                1 <= i <= nb,
                !found ==> forall|j: int|
                    1 <= j < i ==> (#[trigger] ct@.subrange(16 * (j - 1), 16 * j))
                        != ct@.subrange(16 * j, 16 * j + 16),
                found ==> offset + 32 <= ct@.len() && ct@.subrange(
                    offset as int,
                    offset + 16,
                ) == ct@.subrange(offset + 16, offset + 32),
                cln ==> ({
                    let padded = pkcs7_pad(cfg.prefix + filler_seq(320) + cfg.secret, 16);
                    forall|t: int|
                        0 <= t && 16 * t + 16 <= padded.len() ==> (#[trigger] ct@.subrange(
                            16 * t,
                            16 * t + 16,
                        )) == enc_block(cfg.key, padded.subrange(16 * t, 16 * t + 16))
                            && dec_block(cfg.key, ct@.subrange(16 * t, 16 * t + 16))
                            == padded.subrange(16 * t, 16 * t + 16)
                }),
                cln ==> (!found ==> i <= c + 1),
                cln ==> (found ==> offset == 16 * c && ct@.subrange(offset as int, offset + 16)
                    == enc_block(cfg.key, filler_seq(16)) && dec_block(
                    cfg.key,
                    ct@.subrange(offset as int, offset + 16),
                ) == filler_seq(16)),
            decreases nb - i + (if found { 0int } else { 1int }),
        {
            proof {
                if cln {
                    lemma_pair_search(cfg, ct@, i as int);
                }
            }
            proof {
                assert(16 * i + 16 <= 16 * nb) by (nonlinear_arith)
                    requires
                        i < nb,
                ;
            }
            let a = slice_subrange(ct.as_slice(), 16 * (i - 1), 16 * i);
            let b = slice_subrange(ct.as_slice(), 16 * i, 16 * i + 16);
            if bytes_eq(a, b) {
                offset = 16 * (i - 1);
                found = true;
                proof {
                    assert(ct@.subrange(offset as int, offset + 16) =~= ct@.subrange(
                        16 * (i - 1),
                        16 * i,
                    ));
                    assert(ct@.subrange(offset + 16, offset + 32) =~= ct@.subrange(
                        16 * i,
                        16 * i + 16,
                    ));
                    if cln {
                        assert(i == c + 1);
                        assert(offset == 16 * c);
                    }
                }
            } else {
                proof {
                    if cln {
                        assert(i <= c);
                    }
                }
                i = i + 1;
            }
        }
        if !found {
            proof {
                assert(false);
            }
            return Err(Error::AnalysisFailed);
        }
        let pattern = slice_to_vec(slice_subrange(ct.as_slice(), offset, offset + 16));
        proof {
            if cln {
                lemma_fundamental_div_mod(p + 15, 16);
                lemma_mod_bound(p + 15, 16);
            }
        }
        let mut n: usize = 0;
        while n < bs
            invariant
                self.wf(),
                self.cfg() == old(self).cfg(),
                cfg == old(self).cfg(),
                p == cfg.prefix.len() as int,
                c == (p + 15) / 16,
                ntrue == 16 * c - p,
                cln == (cfg.is_ecb && clean_prefix(cfg) && (cfg.secret.len() == 0
                    || cfg.secret[0] != FILLER_BYTE)),
                ecb_signal(old(self).cfg()),
                bs == 16,
                n <= 16,
                ct@ == oracle_model(old(self).cfg(), filler_seq(320)),
                ct@.len() <= usize::MAX,
                offset + 32 <= ct@.len(),
                pattern@ == ct@.subrange(offset as int, offset + 16),
                cln ==> 0 <= ntrue <= 15,
                cln ==> offset == 16 * c,
                cln ==> pattern@ == enc_block(cfg.key, filler_seq(16)) && dec_block(
                    cfg.key,
                    pattern@,
                ) == filler_seq(16),
                cln ==> n <= ntrue,
            decreases bs - n,
        {
            let rb = crate::bytes::random(n);
            let ghost rbs = rb@;
            let mut probe = rb;
            let fill_block = filler(16);
            crate::bytes::append_bytes(&mut probe, fill_block.as_slice());
            let result = self.blackbox(&probe);
            proof {
                if cln {
                    lemma_pattern_probe(cfg, rbs, result@, n as int);
                }
            }
            if offset + 16 <= result.len() && n <= offset {
                let cand = slice_subrange(result.as_slice(), offset, offset + 16);
                if bytes_eq(cand, pattern.as_slice()) {
                    proof {
                        let m0 = oracle_model(old(self).cfg(), filler_seq(320));
                        let mp = oracle_model(old(self).cfg(), rbs + filler_seq(16));
                        assert(result@ == mp);
                        assert(rbs.len() < 16);
                        assert((offset - n) + rbs.len() == offset as int);
                        assert(mp.subrange(offset as int, offset + 16) == m0.subrange(
                            offset as int,
                            offset + 16,
                        ));
                        if cln {
                            if n < ntrue {
                                assert(cand@ == result@.subrange(16 * c, 16 * c + 16));
                                assert(dec_block(cfg.key, cand@) == filler_seq(16));
                                assert(false);
                            }
                            assert(offset - n == p);
                        }
                    }
                    return Ok(offset - n);
                }
                proof {
                    if cln && n == ntrue {
                        assert(cand@ == result@.subrange(16 * c, 16 * c + 16));
                        assert(cand@ == pattern@);
                        assert(false);
                    }
                }
            } else {
                proof {
                    if cln && n == ntrue {
                        assert(16 * c + 16 <= result@.len());
                        assert(false);
                    }
                }
            }
            n = n + 1;
        }
        proof {
            if cln {
                assert(false);
            }
        }
        Err(Error::AnalysisFailed)
    }

    /// Runs the full analysis in order: block width, ECB classification,
    /// prefix length. A profile for a non-ECB oracle carries a zero prefix
    /// length, since the prefix probe is ECB-specific.
    pub fn profile(&mut self) -> (r: Result<OracleProfile, Error>)
        requires
            old(self).wf(),
        ensures
            final(self).wf(),
            final(self).cfg() == old(self).cfg(),
            r matches Ok(p) ==> p.block_width == 16 && p.is_ecb == ecb_signal(old(self).cfg()),
            r matches Ok(p) ==> (p.is_ecb ==> exists|rb: Seq<u8>|
                (#[trigger] rb.len()) < 16 && ({
                    let m0 = oracle_model(old(self).cfg(), filler_seq(320));
                    let mp = oracle_model(old(self).cfg(), rb + filler_seq(16));
                    let off = p.prefix_len + rb.len();
                    &&& off + 16 <= m0.len()
                    &&& off + 16 <= mp.len()
                    &&& mp.subrange(off as int, off + 16) == m0.subrange(off as int, off + 16)
                })),
            r matches Err(e) ==> e == Error::AnalysisFailed,
            ({
                &&& old(self).cfg().is_ecb
                &&& clean_prefix(old(self).cfg())
                &&& (old(self).cfg().secret.len() == 0 || old(self).cfg().secret[0]
                    != FILLER_BYTE)
            }) ==> (r matches Ok(pr) && pr.block_width == 16 && pr.is_ecb && pr.prefix_len
                == old(self).cfg().prefix.len()),
    {
        let block_width = match self.detect_block_size() {
            Ok(v) => v,
            Err(_) => {
                return Err(Error::AnalysisFailed);
            },
        };
        if !self.is_ecb() {
            return Ok(OracleProfile { block_width, is_ecb: false, prefix_len: 0 });
        }
        let prefix_len = match self.ecb_find_prepend_size() {
            Ok(v) => v,
            Err(_) => {
                return Err(Error::AnalysisFailed);
            },
        };
        Ok(OracleProfile { block_width, is_ecb: true, prefix_len })
    }
}

/// A prefix whose length the pattern probe measures exactly: it does not end
/// in the filler byte (else the probe sees the boundary early), and no two
/// adjacent aligned blocks repeat before the filler region starts (else the
/// pair search stops inside the prefix). The reference sequence is the
/// prefix followed by filler, as the probe sees it.
pub open spec fn clean_prefix(cfg: OracleCfg) -> bool {
    let p = cfg.prefix.len() as int;
    let rs = cfg.prefix + filler_seq(320);
    &&& (p > 0 ==> cfg.prefix[p - 1] != FILLER_BYTE)
    &&& (forall|i: int|
        1 <= i < (p + 15) / 16 ==> (#[trigger] rs.subrange(16 * (i - 1), 16 * i)) != rs.subrange(
            16 * i,
            16 * i + 16,
        ))
}

/// One step of the pair search over a clean prefix: every adjacent pair of
/// ciphertext blocks before the first two whole filler blocks differs, and
/// that first all-filler pair matches and carries the filler pattern.
proof fn lemma_pair_search(cfg: OracleCfg, ct: Seq<u8>, i: int)
    requires
        cfg.is_ecb,
        clean_prefix(cfg),
        ct == oracle_model(cfg, filler_seq(320)),
        ct.len() == padded_len(hidden_len(cfg) as int + 320, 16),
        ({
            let padded = pkcs7_pad(cfg.prefix + filler_seq(320) + cfg.secret, 16);
            forall|t: int|
                0 <= t && 16 * t + 16 <= padded.len() ==> (#[trigger] ct.subrange(
                    16 * t,
                    16 * t + 16,
                )) == enc_block(cfg.key, padded.subrange(16 * t, 16 * t + 16)) && dec_block(
                    cfg.key,
                    ct.subrange(16 * t, 16 * t + 16),
                ) == padded.subrange(16 * t, 16 * t + 16)
        }),
        1 <= i <= (cfg.prefix.len() + 15) / 16 + 1,
        16 * i + 16 <= ct.len(),
    ensures
        i <= (cfg.prefix.len() + 15) / 16 ==> ct.subrange(16 * (i - 1), 16 * i) != ct.subrange(
            16 * i,
            16 * i + 16,
        ),
        i == (cfg.prefix.len() + 15) / 16 + 1 ==> ct.subrange(16 * (i - 1), 16 * i)
            == ct.subrange(16 * i, 16 * i + 16) && ct.subrange(16 * (i - 1), 16 * i) == enc_block(
            cfg.key,
            filler_seq(16),
        ) && dec_block(cfg.key, ct.subrange(16 * (i - 1), 16 * i)) == filler_seq(16),
{
    let p = cfg.prefix.len() as int;
    let c = (p + 15) / 16;
    let full = cfg.prefix + filler_seq(320) + cfg.secret;
    let padded = pkcs7_pad(full, 16);
    lemma_pkcs7_pad_invariant(full, 16);
    lemma_fundamental_div_mod(p + 15, 16);
    lemma_mod_bound(p + 15, 16);
    assert(p <= 16 * c <= p + 15);
    let rs = cfg.prefix + filler_seq(320);
    assert forall|u: int| 0 <= u < p + 320 implies padded[u] == rs[u] by {
        assert(u < full.len());
        assert(padded[u] == full[u]);
    }
    let a = i - 1;
    assert(16 * i + 16 <= p + 320);
    assert(padded.subrange(16 * a, 16 * a + 16) =~= rs.subrange(16 * (i - 1), 16 * i));
    assert(padded.subrange(16 * i, 16 * i + 16) =~= rs.subrange(16 * i, 16 * i + 16));
    assert(ct.subrange(16 * a, 16 * a + 16) == enc_block(
        cfg.key,
        padded.subrange(16 * a, 16 * a + 16),
    ) && dec_block(cfg.key, ct.subrange(16 * a, 16 * a + 16)) == padded.subrange(
        16 * a,
        16 * a + 16,
    ));
    assert(ct.subrange(16 * i, 16 * i + 16) == enc_block(
        cfg.key,
        padded.subrange(16 * i, 16 * i + 16),
    ) && dec_block(cfg.key, ct.subrange(16 * i, 16 * i + 16)) == padded.subrange(
        16 * i,
        16 * i + 16,
    ));
    assert(ct.subrange(16 * (i - 1), 16 * i) == ct.subrange(16 * a, 16 * a + 16));
    if i <= c {
        if i < c {
            assert(rs.subrange(16 * (i - 1), 16 * i) != rs.subrange(16 * i, 16 * i + 16));
        } else {
            // the block before the first whole filler block still holds the
            // last prefix byte, which is not the filler byte
            assert(p > 0);
            assert(16 * (i - 1) <= p - 1 < 16 * i);
            assert(rs.subrange(16 * (i - 1), 16 * i)[p - 1 - 16 * (i - 1)] == cfg.prefix[p - 1]);
            assert(rs.subrange(16 * i, 16 * i + 16)[p - 1 - 16 * (i - 1)] == FILLER_BYTE);
            assert(rs.subrange(16 * (i - 1), 16 * i) != rs.subrange(16 * i, 16 * i + 16));
        }
        if ct.subrange(16 * (i - 1), 16 * i) == ct.subrange(16 * i, 16 * i + 16) {
            assert(padded.subrange(16 * a, 16 * a + 16) == padded.subrange(16 * i, 16 * i + 16));
            assert(false);
        }
    } else {
        assert(padded.subrange(16 * a, 16 * a + 16) =~= filler_seq(16));
        assert(padded.subrange(16 * i, 16 * i + 16) =~= filler_seq(16));
    }
}

/// One step of the pattern probe over a clean prefix: before the alignment
/// point the block at the pattern offset still shows a byte that is not
/// filler (the first secret byte, or a pad byte), so the pattern cannot
/// reappear; at the alignment point the filler block lands exactly on the
/// offset and the pattern must reappear.
proof fn lemma_pattern_probe(cfg: OracleCfg, rbs: Seq<u8>, res: Seq<u8>, n: int)
    requires
        cfg.is_ecb,
        clean_prefix(cfg),
        cfg.secret.len() == 0 || cfg.secret[0] != FILLER_BYTE,
        rbs.len() == n,
        0 <= n <= 16 * ((cfg.prefix.len() + 15) / 16) - cfg.prefix.len(),
        res == oracle_model(cfg, rbs + filler_seq(16)),
        res.len() == padded_len(hidden_len(cfg) as int + n + 16, 16),
        ({
            let padded = pkcs7_pad(cfg.prefix + (rbs + filler_seq(16)) + cfg.secret, 16);
            forall|t: int|
                0 <= t && 16 * t + 16 <= padded.len() ==> (#[trigger] res.subrange(
                    16 * t,
                    16 * t + 16,
                )) == enc_block(cfg.key, padded.subrange(16 * t, 16 * t + 16)) && dec_block(
                    cfg.key,
                    res.subrange(16 * t, 16 * t + 16),
                ) == padded.subrange(16 * t, 16 * t + 16)
        }),
    ensures
        ({
            let p = cfg.prefix.len() as int;
            let c = (p + 15) / 16;
            let ntrue = 16 * c - p;
            &&& (n < ntrue && 16 * c + 16 <= res.len() ==> dec_block(
                cfg.key,
                res.subrange(16 * c, 16 * c + 16),
            ) != filler_seq(16))
            &&& (n == ntrue ==> 16 * c + 16 <= res.len() && res.subrange(16 * c, 16 * c + 16)
                == enc_block(cfg.key, filler_seq(16)))
        }),
{
    let p = cfg.prefix.len() as int;
    let c = (p + 15) / 16;
    let ntrue = 16 * c - p;
    let input = rbs + filler_seq(16);
    let full = cfg.prefix + input + cfg.secret;
    let padded = pkcs7_pad(full, 16);
    lemma_pkcs7_pad_invariant(full, 16);
    lemma_fundamental_div_mod(p + 15, 16);
    lemma_mod_bound(p + 15, 16);
    assert(p <= 16 * c <= p + 15);
    if n < ntrue && 16 * c + 16 <= res.len() {
        assert(res.subrange(16 * c, 16 * c + 16) == enc_block(
            cfg.key,
            padded.subrange(16 * c, 16 * c + 16),
        ) && dec_block(cfg.key, res.subrange(16 * c, 16 * c + 16)) == padded.subrange(
            16 * c,
            16 * c + 16,
        ));
        let pos = p + n + 16;
        assert(16 * c <= pos < 16 * c + 16);
        if cfg.secret.len() > 0 {
            assert(pos < full.len());
            assert(padded[pos] == full[pos]);
            assert(full[pos] == cfg.secret[0]);
        } else {
            assert(pos == full.len());
            assert(pos < padded.len());
            assert(padded[pos] == pkcs7_pad_byte(full.len(), 16));
            assert(pkcs7_pad_len(full.len(), 16) <= 16);
            assert(padded[pos] != FILLER_BYTE);
        }
        assert(padded.subrange(16 * c, 16 * c + 16)[pos - 16 * c] != FILLER_BYTE);
        assert(filler_seq(16)[pos - 16 * c] == FILLER_BYTE);
        assert(padded.subrange(16 * c, 16 * c + 16) != filler_seq(16));
    }
    if n == ntrue {
        assert(16 * c + 16 == p + n + 16 <= full.len());
        assert(16 * c + 16 <= padded.len());
        assert(res.subrange(16 * c, 16 * c + 16) == enc_block(
            cfg.key,
            padded.subrange(16 * c, 16 * c + 16),
        ));
        assert forall|u: int| 16 * c <= u < 16 * c + 16 implies padded[u] == FILLER_BYTE by {
            assert(u < full.len());
            assert(padded[u] == full[u]);
            assert(full[u] == input[u - p]);
            assert(input[u - p] == filler_seq(16)[u - p - n]);
        }
        assert(padded.subrange(16 * c, 16 * c + 16) =~= filler_seq(16));
    }
}

/// Under ECB, the ciphertext for twenty blocks of filler must hold two
/// adjacent identical blocks: wherever the prefix ends, at least two whole
/// aligned blocks fall inside the filler, and identical plaintext blocks
/// transform identically.
proof fn lemma_self_signal(cfg: OracleCfg, ct: Seq<u8>)
    requires
        cfg.is_ecb ==> ({
            let padded = pkcs7_pad(cfg.prefix + filler_seq(320) + cfg.secret, 16);
            &&& ct == oracle_model(cfg, filler_seq(320))
            &&& ct.len() == padded.len()
            &&& (forall|i: int|
                0 <= i && 16 * i + 16 <= padded.len() ==> (#[trigger] ct.subrange(
                    16 * i,
                    16 * i + 16,
                )) == enc_block(cfg.key, padded.subrange(16 * i, 16 * i + 16)))
        }),
    ensures
        cfg.is_ecb ==> ecb_signal(cfg),
{
    if cfg.is_ecb {
        let input = filler_seq(320);
        let full = cfg.prefix + input + cfg.secret;
        let padded = pkcs7_pad(full, 16);
        let p = cfg.prefix.len() as int;
        let i0 = (p + 15) / 16;
        lemma_fundamental_div_mod(p + 15, 16);
        lemma_mod_bound(p + 15, 16);
        assert(p <= 16 * i0 <= p + 15);
        assert(padded.len() >= full.len());
        assert(full.len() == p + 320 + cfg.secret.len());
        assert(16 * (i0 + 1) + 16 <= padded.len());
        assert forall|u: int| 16 * i0 <= u < 16 * i0 + 32 implies padded[u] == FILLER_BYTE by {
            assert(u < full.len());
            assert(padded[u] == full[u]);
            assert(full[u] == input[u - p]);
        }
        assert(padded.subrange(16 * i0, 16 * i0 + 16) =~= filler_seq(16));
        assert(padded.subrange(16 * (i0 + 1), 16 * (i0 + 1) + 16) =~= filler_seq(16));
        let iw = i0 + 1;
        assert(ct.subrange(16 * i0, 16 * i0 + 16) == enc_block(
            cfg.key,
            padded.subrange(16 * i0, 16 * i0 + 16),
        ));
        assert(ct.subrange(16 * iw, 16 * iw + 16) == enc_block(
            cfg.key,
            padded.subrange(16 * iw, 16 * iw + 16),
        ));
        assert(ct.subrange(16 * (iw - 1), 16 * iw) == ct.subrange(16 * iw, 16 * iw + 16));
        assert(1 <= iw && 16 * iw + 16 <= oracle_model(cfg, filler_seq(320)).len());
        assert(ecb_signal(cfg));
    }
}

} // verus!
