//! The ID generator: adaptive hash length plus a four-tier collision
//! avoidance strategy over a caller-supplied existence oracle.

use vstd::prelude::*;
use crate::collision::{length_ok, length_threshold, ln_partial, neg_ln_fp, optimal_len_spec,
    pow36_capped, prob_fp, series_pow, FP_SCALE, POW36_CAP};
use crate::config::IdConfig;
use crate::hash::{digest64_of, hash_str};
use crate::oracle::oracle_answered;
use crate::text::{dec_str, push_char, u32_to_string};

verus! {

/// The candidate string for a digest value at a hash length.
pub open spec fn candidate_str(prefix: Seq<char>, v: u64, len: nat) -> Seq<char> {
    prefix + seq!['-'] + hash_str(v, len)
}

/// The oracle reported as existing the candidate for nonce `k` at hash
/// length `len`, built from some seed the seed function could return
/// for `k`.
pub open spec fn slot_taken<S: Fn(u32) -> Vec<u8>, F: Fn(&str) -> bool>(
    prefix: Seq<char>,
    seed_fn: S,
    exists_fn: F,
    k: u32,
    len: nat,
) -> bool {
    exists|seed: Vec<u8>|
        #[trigger] call_ensures(seed_fn, (k,), seed) && oracle_answered(
            exists_fn,
            candidate_str(prefix, digest64_of(seed@), len),
            true,
        )
}

/// The oracle reported as existing the tier-4 candidate for suffix `k`:
/// the 12-character candidate of seed 0 with `k` appended in decimal.
pub open spec fn suffix_slot_taken<S: Fn(u32) -> Vec<u8>, F: Fn(&str) -> bool>(
    prefix: Seq<char>,
    seed_fn: S,
    exists_fn: F,
    k: u32,
) -> bool {
    exists|seed: Vec<u8>|
        #[trigger] call_ensures(seed_fn, (0u32,), seed) && oracle_answered(
            exists_fn,
            candidate_str(prefix, digest64_of(seed@), 12) + dec_str(k as nat),
            true,
        )
}

/// All ten tier-1 candidates, at the optimal length, were reported taken.
pub open spec fn tier1_exhausted<S: Fn(u32) -> Vec<u8>, F: Fn(&str) -> bool>(
    prefix: Seq<char>,
    seed_fn: S,
    exists_fn: F,
    opt: nat,
) -> bool {
    forall|k: u32| k < 10 ==> slot_taken(prefix, seed_fn, exists_fn, k, opt)
}

/// Every tier-2 candidate, at each length above the optimal one up to the
/// maximum, was reported taken.
pub open spec fn tier2_exhausted<S: Fn(u32) -> Vec<u8>, F: Fn(&str) -> bool>(
    prefix: Seq<char>,
    seed_fn: S,
    exists_fn: F,
    opt: nat,
    max_len: nat,
) -> bool {
    forall|l: nat, k: u32|
        opt < l <= max_len && k < 10 ==> slot_taken(prefix, seed_fn, exists_fn, k, l)
}

/// Every tier-3 candidate (length 12, nonces 0 to 1000) was reported
/// taken.
pub open spec fn tier3_exhausted<S: Fn(u32) -> Vec<u8>, F: Fn(&str) -> bool>(
    prefix: Seq<char>,
    seed_fn: S,
    exists_fn: F,
) -> bool {
    forall|k: u32| k <= 1000 ==> slot_taken(prefix, seed_fn, exists_fn, k, 12)
}

/// Every tier-4 candidate (decimal suffixes 0 to 10000) was reported
/// taken.
pub open spec fn tier4_exhausted<S: Fn(u32) -> Vec<u8>, F: Fn(&str) -> bool>(
    prefix: Seq<char>,
    seed_fn: S,
    exists_fn: F,
) -> bool {
    forall|k: u32| k <= 10000 ==> suffix_slot_taken(prefix, seed_fn, exists_fn, k)
}

/// Everything `generate` may return, under the tier discipline. Each
/// disjunct is one tier's outcome: the result has that tier's form, the
/// oracle reported it free, and every candidate earlier in tier order --
/// whole earlier tiers, and earlier nonces of the same tier -- was
/// reported taken (each through some seed the seed function could return
/// for its nonce). The last disjunct is the literal fallback, reachable
/// only with every tier exhausted; it alone carries no freshness claim.
pub open spec fn generate_post<S: Fn(u32) -> Vec<u8>, F: Fn(&str) -> bool>(
    prefix: Seq<char>,
    seed_fn: S,
    exists_fn: F,
    opt: nat,
    max_len: nat,
    out: Seq<char>,
) -> bool {
    ||| (exists|nonce: u32, seed: Vec<u8>|
        #[trigger] call_ensures(seed_fn, (nonce,), seed) && {
            &&& nonce < 10
            &&& out == candidate_str(prefix, digest64_of(seed@), opt)
            &&& oracle_answered(exists_fn, out, false)
            &&& forall|k: u32| k < nonce ==> slot_taken(prefix, seed_fn, exists_fn, k, opt)
        })
    ||| (exists|len: nat, nonce: u32, seed: Vec<u8>|
        #![trigger call_ensures(seed_fn, (nonce,), seed), hash_str(digest64_of(seed@), len)]
        call_ensures(seed_fn, (nonce,), seed) && {
            &&& opt < len <= max_len
            &&& nonce < 10
            &&& out == candidate_str(prefix, digest64_of(seed@), len)
            &&& oracle_answered(exists_fn, out, false)
            &&& tier1_exhausted(prefix, seed_fn, exists_fn, opt)
            &&& forall|l: nat, k: u32|
                opt < l < len && k < 10 ==> slot_taken(prefix, seed_fn, exists_fn, k, l)
            &&& forall|k: u32| k < nonce ==> slot_taken(prefix, seed_fn, exists_fn, k, len)
        })
    ||| (exists|nonce: u32, seed: Vec<u8>|
        #[trigger] call_ensures(seed_fn, (nonce,), seed) && {
            &&& nonce <= 1000
            &&& out == candidate_str(prefix, digest64_of(seed@), 12)
            &&& oracle_answered(exists_fn, out, false)
            &&& tier1_exhausted(prefix, seed_fn, exists_fn, opt)
            &&& tier2_exhausted(prefix, seed_fn, exists_fn, opt, max_len)
            &&& forall|k: u32| k < nonce ==> slot_taken(prefix, seed_fn, exists_fn, k, 12)
        })
    ||| (exists|nonce: u32, seed: Vec<u8>|
        #![trigger call_ensures(seed_fn, (0u32,), seed), dec_str(nonce as nat)]
        call_ensures(seed_fn, (0u32,), seed) && {
            &&& nonce <= 10000
            &&& out == candidate_str(prefix, digest64_of(seed@), 12) + dec_str(nonce as nat)
            &&& oracle_answered(exists_fn, out, false)
            &&& tier1_exhausted(prefix, seed_fn, exists_fn, opt)
            &&& tier2_exhausted(prefix, seed_fn, exists_fn, opt, max_len)
            &&& tier3_exhausted(prefix, seed_fn, exists_fn)
            &&& forall|k: u32| k < nonce ==> suffix_slot_taken(prefix, seed_fn, exists_fn, k)
        })
    ||| (is_final_fallback(prefix, seed_fn, out) && tier1_exhausted(prefix, seed_fn, exists_fn, opt)
        && tier2_exhausted(prefix, seed_fn, exists_fn, opt, max_len) && tier3_exhausted(
        prefix,
        seed_fn,
        exists_fn,
    ) && tier4_exhausted(prefix, seed_fn, exists_fn))
}

/// The final literal fallback, returned only when every tier is exhausted.
pub open spec fn is_final_fallback<S: Fn(u32) -> Vec<u8>>(
    prefix: Seq<char>,
    seed_fn: S,
    out: Seq<char>,
) -> bool {
    exists|seed: Vec<u8>|
        #[trigger] call_ensures(seed_fn, (0u32,), seed) && out == candidate_str(
            prefix,
            digest64_of(seed@),
            12,
        ) + ".fallback"@
}

/// ID generator with adaptive length and collision avoidance.
pub struct IdGenerator {
    config: IdConfig,
}

impl IdGenerator {
    /// The configuration this generator owns.
    pub closed spec fn cfg(self) -> IdConfig {
        self.config
    }

    /// Create a new ID generator with the given config.
    pub fn new(config: IdConfig) -> (r: Self)
        ensures
            r.cfg() == config,
    {
        IdGenerator { config }
    }

    /// Get the prefix for this generator.
    pub fn prefix(&self) -> (r: &str)
        ensures
            r@ == self.cfg().prefix@,
    {
        self.config.prefix.as_str()
    }

    /// Compute the optimal hash length by the birthday-bound rule: the
    /// first length in the configured range whose collision probability for
    /// this many items stays below the configured bound, or the maximum
    /// length if none qualifies.
    #[verifier::loop_isolation(false)]
    pub fn optimal_length(&self, item_count: usize) -> (r: usize)
        ensures
            r as nat == optimal_len_spec(
                self.cfg().min_hash_length as nat,
                self.cfg().max_hash_length as nat,
                item_count as nat,
                self.cfg().max_collision_prob as nat,
            ),
    {
        let ghost ppm = self.cfg().max_collision_prob as nat;
        let min = self.config.min_hash_length;
        let max = self.config.max_hash_length;
        if min > max {
            return max;
        }
        // -ln(1 - p) in fixed point
        let ppm_scaled: u64 = (self.config.max_collision_prob as u64) * 1000;
        let p_fp: u64 = if ppm_scaled > 999999999 {
            999999999
        } else {
            ppm_scaled
        };
        proof {
            assert(p_fp as nat == prob_fp(ppm));
        }
        let mut pow: u64 = p_fp;
        let mut c: u64 = p_fp;
        proof {
            assert(ln_partial(p_fp as nat, 0) == 0);
            assert(series_pow(p_fp as nat, 1) == p_fp as nat);
        }
        let mut k: u64 = 2;
        while k <= 64
            invariant
                2 <= k <= 65,
                pow as nat == series_pow(p_fp as nat, (k - 1) as nat),
                c as nat == ln_partial(p_fp as nat, (k - 1) as nat),
                pow <= 999999999,
                c <= 64 * 1000000000,
            decreases 65 - k,
        {
            proof {
                assert((pow as nat) * (p_fp as nat) < 18446744073709551616) by (nonlinear_arith)
                    requires
                        pow <= 999999999,
                        p_fp <= 999999999,
                ;
            }
            pow = (pow * p_fp) / FP_SCALE;
            c = c + pow / k;
            proof {
                crate::collision::lemma_series_pow_le(p_fp as nat, k as nat);
                crate::collision::lemma_ln_partial_le(p_fp as nat, k as nat);
            }
            k = k + 1;
        }
        proof {
            assert(c as nat == neg_ln_fp(ppm));
        }
        // 36^min, capped
        let mut pw: u128 = 1;
        let mut l: usize = 0;
        while l < min
            invariant
                0 <= l <= min,
                pw as nat == pow36_capped(l as nat),
                pw <= POW36_CAP,
            decreases min - l,
        {
            proof {
                crate::collision::lemma_pow36_pos(l as nat);
            }
            if pw >= POW36_CAP {
                // saturated: stays at the cap
            } else {
                let q = pw * 36;
                if q > POW36_CAP {
                    pw = POW36_CAP;
                } else {
                    pw = q;
                }
            }
            l = l + 1;
        }
        // scan lengths from min for the first that keeps the bound
        let ic = item_count as u128;
        proof {
            assert(ic * ic <= 340282366920938463463374607431768211455u128) by (nonlinear_arith)
                requires
                    ic < 18446744073709551616u128,
            ;
        }
        let n2: u128 = ic * ic;
        let mut len: usize = min;
        while len < max
            invariant
                min <= len <= max,
                pw as nat == pow36_capped(len as nat),
                pw <= POW36_CAP,
                optimal_len_spec(min as nat, max as nat, item_count as nat, ppm)
                    == optimal_len_spec(len as nat, max as nat, item_count as nat, ppm),
            decreases max - len,
        {
            proof {
                assert(2 * (pw as nat) * (c as nat) <= 340282366920938463463374607431768211455)
                    by (nonlinear_arith)
                    requires
                        pw <= 309485009821345068724781056u128,
                        c <= 64000000000u64,
                ;
            }
            let thr: u128 = (2 * pw * (c as u128)) / (FP_SCALE as u128);
            proof {
                assert(thr as nat == length_threshold(len as nat, ppm));
            }
            if n2 < thr {
                proof {
                    assert(length_ok(item_count as nat, len as nat, ppm));
                }
                return len;
            }
            proof {
                crate::collision::lemma_pow36_pos(len as nat);
            }
            if pw >= POW36_CAP {
            } else {
                let q = pw * 36;
                if q > POW36_CAP {
                    pw = POW36_CAP;
                } else {
                    pw = q;
                }
            }
            len = len + 1;
        }
        max
    }

    /// Generate a candidate ID at a specific hash length:
    /// `{prefix}-{hash}`.
    pub fn candidate(&self, seed: &[u8], hash_length: usize) -> (r: String)
        ensures
            r@ == candidate_str(self.cfg().prefix@, digest64_of(seed@), hash_length as nat),
    {
        let hash_part = crate::hash::hash(seed, hash_length);
        let mut r = self.config.prefix.clone();
        push_char(&mut r, '-');
        r.append(hash_part.as_str());
        proof {
            assert(r@ =~= candidate_str(
                self.cfg().prefix@,
                digest64_of(seed@),
                hash_length as nat,
            ));
        }
        r
    }

    /// Generate an ID with full collision avoidance.
    ///
    /// Tiers, in order, returning the first candidate the oracle reports
    /// free: nonces 0-9 at the optimal length; the same nonces at each
    /// longer length up to the maximum; 12-character hashes for nonces
    /// 0-1000; 12-character hash of seed 0 with the nonce appended as a
    /// literal decimal suffix, nonces 0-10000. Only when every candidate
    /// of every tier was reported taken is the literal fallback returned,
    /// with no freshness claim.
    #[verifier::loop_isolation(false)]
    pub fn generate<S: Fn(u32) -> Vec<u8>, F: Fn(&str) -> bool>(
        &self,
        seed_fn: S,
        item_count: usize,
        exists_fn: F,
    ) -> (r: String)
        requires
            forall|nonce: u32| #[trigger] call_requires(seed_fn, (nonce,)),
            forall|s: &str| #[trigger] call_requires(exists_fn, (s,)),
        ensures
            r@.len() > self.cfg().prefix@.len(),
            r@.subrange(0, self.cfg().prefix@.len() as int + 1) == self.cfg().prefix@ + seq!['-'],
            generate_post(
                self.cfg().prefix@,
                seed_fn,
                exists_fn,
                optimal_len_spec(
                    self.cfg().min_hash_length as nat,
                    self.cfg().max_hash_length as nat,
                    item_count as nat,
                    self.cfg().max_collision_prob as nat,
                ),
                self.cfg().max_hash_length as nat,
                r@,
            ),
    {
        let ghost prefix = self.cfg().prefix@;

        // Tier 1: nonce escalation at optimal length
        let optimal = self.optimal_length(item_count);
        let max = self.config.max_hash_length;
        proof {
            if self.cfg().min_hash_length <= self.cfg().max_hash_length {
                crate::collision::lemma_optimal_len_range(
                    self.cfg().min_hash_length as nat,
                    self.cfg().max_hash_length as nat,
                    item_count as nat,
                    self.cfg().max_collision_prob as nat,
                );
            }
            assert(optimal <= max);
        }
        let mut nonce: u32 = 0;
        while nonce < 10
            invariant
                nonce <= 10,
                forall|k: u32| k < nonce ==> slot_taken(prefix, seed_fn, exists_fn, k, optimal as nat),
            decreases 10 - nonce,
        {
            let seed = seed_fn(nonce);
            let cand = self.candidate(seed.as_slice(), optimal);
            if !exists_fn(cand.as_str()) {
                proof {
                    lemma_candidate_shape(prefix, digest64_of(seed@), optimal as nat, cand@);
                    assert(oracle_answered(exists_fn, cand@, false));
                }
                return cand;
            }
            proof {
                assert(oracle_answered(exists_fn, cand@, true));
                assert(slot_taken(prefix, seed_fn, exists_fn, nonce, optimal as nat));
            }
            nonce = nonce + 1;
        }
        proof {
            assert(tier1_exhausted(prefix, seed_fn, exists_fn, optimal as nat));
        }

        // Tier 2: length extension up to the maximum
        let mut length = optimal;
        while length < max
            invariant
                optimal <= length <= max,
                forall|l: nat, k: u32|
                    optimal < l <= length && k < 10 ==> slot_taken(prefix, seed_fn, exists_fn, k, l),
            decreases max - length,
        {
            length = length + 1;
            let mut nonce2: u32 = 0;
            while nonce2 < 10
                invariant
                    nonce2 <= 10,
                    optimal < length <= max,
                    forall|k: u32|
                        k < nonce2 ==> slot_taken(prefix, seed_fn, exists_fn, k, length as nat),
                decreases 10 - nonce2,
            {
                let seed = seed_fn(nonce2);
                let cand = self.candidate(seed.as_slice(), length);
                if !exists_fn(cand.as_str()) {
                    proof {
                        lemma_candidate_shape(prefix, digest64_of(seed@), length as nat, cand@);
                        assert(oracle_answered(exists_fn, cand@, false));
                    }
                    return cand;
                }
                proof {
                    assert(oracle_answered(exists_fn, cand@, true));
                    assert(slot_taken(prefix, seed_fn, exists_fn, nonce2, length as nat));
                }
                nonce2 = nonce2 + 1;
            }
        }
        proof {
            assert(tier2_exhausted(prefix, seed_fn, exists_fn, optimal as nat, max as nat));
        }

        // Tier 3: long fallback, 12-character hashes, nonces 0-1000
        let mut nonce3: u32 = 0;
        while nonce3 <= 1000
            invariant
                nonce3 <= 1001,
                forall|k: u32| k < nonce3 ==> slot_taken(prefix, seed_fn, exists_fn, k, 12),
            decreases 1001 - nonce3,
        {
            let seed = seed_fn(nonce3);
            let cand = self.candidate(seed.as_slice(), 12);
            if !exists_fn(cand.as_str()) {
                proof {
                    lemma_candidate_shape(prefix, digest64_of(seed@), 12, cand@);
                    assert(oracle_answered(exists_fn, cand@, false));
                }
                return cand;
            }
            proof {
                assert(oracle_answered(exists_fn, cand@, true));
                assert(slot_taken(prefix, seed_fn, exists_fn, nonce3, 12));
            }
            nonce3 = nonce3 + 1;
        }
        proof {
            assert(tier3_exhausted(prefix, seed_fn, exists_fn));
        }

        // Tier 4: desperate fallback, the nonce appended as a literal
        // decimal suffix (unique by construction)
        let seed = seed_fn(0);
        let base = self.candidate(seed.as_slice(), 12);
        let mut nonce4: u32 = 0;
        while nonce4 <= 10000
            invariant
                nonce4 <= 10001,
                forall|k: u32| k < nonce4 ==> suffix_slot_taken(prefix, seed_fn, exists_fn, k),
            decreases 10001 - nonce4,
        {
            let mut desperate = base.clone();
            let suffix = u32_to_string(nonce4);
            desperate.append(suffix.as_str());
            proof {
                assert(desperate@ =~= candidate_str(prefix, digest64_of(seed@), 12) + dec_str(
                    nonce4 as nat,
                ));
            }
            if !exists_fn(desperate.as_str()) {
                proof {
                    lemma_candidate_shape(prefix, digest64_of(seed@), 12, base@);
                    assert(desperate@.subrange(0, prefix.len() as int + 1) =~= prefix + seq!['-']);
                    assert(oracle_answered(exists_fn, desperate@, false));
                }
                return desperate;
            }
            proof {
                assert(oracle_answered(exists_fn, desperate@, true));
                assert(suffix_slot_taken(prefix, seed_fn, exists_fn, nonce4));
            }
            nonce4 = nonce4 + 1;
        }
        proof {
            assert(tier4_exhausted(prefix, seed_fn, exists_fn));
        }

        // Absolute fallback: reached only with every tier exhausted; no
        // freshness claim.
        let seed_last = seed_fn(0);
        let mut fallback = self.candidate(seed_last.as_slice(), 12);
        fallback.append(".fallback");
        proof {
            let cs = candidate_str(prefix, digest64_of(seed_last@), 12);
            lemma_candidate_shape(prefix, digest64_of(seed_last@), 12, cs);
            assert(fallback@.subrange(0, prefix.len() as int + 1) =~= cs.subrange(
                0,
                prefix.len() as int + 1,
            ));
            assert(is_final_fallback(prefix, seed_fn, fallback@));
        }
        fallback
    }
}

/// A candidate string begins with `prefix + '-'` and is longer than the
/// prefix.
proof fn lemma_candidate_shape(prefix: Seq<char>, v: u64, len: nat, out: Seq<char>)
    requires
        out == candidate_str(prefix, v, len),
    ensures
        out.len() > prefix.len(),
        out.subrange(0, prefix.len() as int + 1) == prefix + seq!['-'],
{
    crate::hash::lemma_hash_str_wf(v, len);
    assert(out.subrange(0, prefix.len() as int + 1) =~= prefix + seq!['-']);
}

} // verus!
