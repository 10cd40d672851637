//! The staged fuzzy resolver: maps possibly inexact user input to one
//! canonical ID, deferring all knowledge of existing IDs to caller-supplied
//! oracles.

use vstd::prelude::*;
use crate::error::TerseIdError;
use crate::oracle::{lemma_oracle_decided_true, oracle_answered, substring_answered};
use crate::parse::{id_str, parse_id, spec_parse};
use crate::text::{contains_seq, find_char, lower, lower_str, push_char, str_contains, trim_str,
    trimmed};

verus! {

/// Configuration for the ID resolver.
#[derive(Debug, Clone)]
pub struct ResolverConfig {
    /// Default prefix to prepend when normalizing IDs without a dash.
    pub default_prefix: String,
    /// List of allowed prefixes for validation.
    pub allowed_prefixes: Vec<String>,
    /// Whether to allow substring matching in resolution.
    pub allow_substring_match: bool,
}

impl ResolverConfig {
    /// Creates a new resolver configuration with default settings.
    pub fn new(default_prefix: &str) -> (r: Self)
        ensures
            r.default_prefix@ == default_prefix@,
            r.allowed_prefixes@.len() == 0,
            r.allow_substring_match,
    {
        ResolverConfig {
            default_prefix: default_prefix.to_owned(),
            allowed_prefixes: Vec::new(),
            allow_substring_match: true,
        }
    }
}

/// The type of match found during ID resolution.
#[derive(Debug, Clone, PartialEq, Eq, Structural)]
pub enum MatchType {
    /// Exact match of the input ID.
    Exact,
    /// Match after prefix normalization (prepending the default prefix).
    PrefixNormalized,
    /// Match via substring search on the hash portion.
    Substring,
}

/// A resolved ID with match information.
#[derive(Debug, Clone, PartialEq, Eq)]
pub struct ResolvedId {
    /// The resolved ID string.
    pub id: String,
    /// How the ID was matched.
    pub match_type: MatchType,
    /// The original input string.
    pub original_input: String,
}

/// The input as the resolver matches it: lowercased (ASCII `A-Z`), then
/// stripped of surrounding Unicode whitespace.
pub open spec fn normalized_input(input: Seq<char>) -> Seq<char> {
    trimmed(lower(input))
}

/// No `'-'` occurs in `s`; such inputs qualify for prefix normalization.
pub open spec fn no_dash(s: Seq<char>) -> bool {
    forall|i: int| 0 <= i < s.len() ==> s[i] != '-'
}

/// Resolver for fuzzy ID matching.
pub struct IdResolver {
    config: ResolverConfig,
}

impl IdResolver {
    /// The configuration this resolver was built with.
    pub closed spec fn cfg(self) -> ResolverConfig {
        self.config
    }

    /// Creates a new ID resolver with the given configuration.
    pub fn new(config: ResolverConfig) -> (r: Self)
        ensures
            r.cfg() == config,
    {
        IdResolver { config }
    }

    /// What `resolve` promises of its result; see `resolve`.
    pub open spec fn resolve_post<F: Fn(&str) -> bool, G: Fn(&str) -> Vec<String>>(
        self,
        input: Seq<char>,
        exists_fn: F,
        substring_match_fn: G,
        r: Result<ResolvedId, TerseIdError>,
    ) -> bool {
        let norm = normalized_input(input);
        let dp = self.cfg().default_prefix@;
        let prefixed = dp + seq!['-'] + norm;
        match r {
            Ok(res) => {
                &&& res.original_input@ == input
                &&& match res.match_type {
                    MatchType::Exact => res.id@ == norm && oracle_answered(
                        exists_fn,
                        norm,
                        true,
                    ),
                    MatchType::PrefixNormalized => {
                        &&& no_dash(norm)
                        &&& res.id@ == prefixed
                        &&& oracle_answered(exists_fn, norm, false)
                        &&& oracle_answered(exists_fn, prefixed, true)
                    },
                    MatchType::Substring => {
                        &&& self.cfg().allow_substring_match
                        &&& oracle_answered(exists_fn, norm, false)
                        &&& no_dash(norm) ==> oracle_answered(exists_fn, prefixed, false)
                        &&& exists|out: Seq<Seq<char>>|
                            #[trigger] substring_answered(substring_match_fn, norm, out)
                                && out.len() == 1 && res.id@ == out[0]
                    },
                }
            },
            Err(e) => match e {
                TerseIdError::AmbiguousId { partial, matches } => {
                    &&& partial@ == norm
                    &&& self.cfg().allow_substring_match
                    &&& matches@.len() >= 2
                    &&& oracle_answered(exists_fn, norm, false)
                    &&& no_dash(norm) ==> oracle_answered(exists_fn, prefixed, false)
                    &&& substring_answered(substring_match_fn, norm, matches.deep_view())
                },
                TerseIdError::NotFound { id } => {
                    &&& id@ == norm
                    &&& oracle_answered(exists_fn, norm, false)
                    &&& no_dash(norm) ==> oracle_answered(exists_fn, prefixed, false)
                    &&& self.cfg().allow_substring_match ==> substring_answered(
                        substring_match_fn,
                        norm,
                        Seq::empty(),
                    )
                },
                _ => false,
            },
        }
    }

    /// Resolves user input to an ID, trying stages in order: exact match,
    /// prefix normalization (only when the input has no dash), then
    /// substring match (only when enabled). Each outcome records, through
    /// the oracles' possible answers, that every earlier stage failed.
    #[verifier::loop_isolation(false)]
    #[verifier::rlimit(50)]
    pub fn resolve<F: Fn(&str) -> bool, G: Fn(&str) -> Vec<String>>(
        &self,
        input: &str,
        exists_fn: F,
        substring_match_fn: G,
    ) -> (r: Result<ResolvedId, TerseIdError>)
        requires
            forall|s: &str| #[trigger] call_requires(exists_fn, (s,)),
            forall|s: &str| #[trigger] call_requires(substring_match_fn, (s,)),
        ensures
            self.resolve_post(input@, exists_fn, substring_match_fn, r),
    {
        let ghost norm = normalized_input(input@);
        let original_input = input.to_owned();
        let lowered = lower_str(input);
        let normalized = trim_str(lowered.as_str());

        // Stage 1: exact match
        let ns = normalized.as_str();
        if exists_fn(ns) {
            return Ok(
                ResolvedId { id: normalized, match_type: MatchType::Exact, original_input },
            );
        }

        // Stage 2: prefix normalization, when the input contains no dash
        let nlen = normalized.as_str().unicode_len();
        let dash_pos = find_char(normalized.as_str(), '-', 0);
        proof {
            crate::text::lemma_find_from(norm, '-', 0);
        }
        if dash_pos == nlen {
            let mut prefixed = self.config.default_prefix.clone();
            push_char(&mut prefixed, '-');
            prefixed.append(normalized.as_str());
            proof {
                assert(prefixed@ =~= self.cfg().default_prefix@ + seq!['-'] + norm);
            }
            let ps = prefixed.as_str();
            if exists_fn(ps) {
                return Ok(
                    ResolvedId {
                        id: prefixed,
                        match_type: MatchType::PrefixNormalized,
                        original_input,
                    },
                );
            }
        }

        // Stage 3: substring match, when enabled
        if self.config.allow_substring_match {
            let ms = normalized.as_str();
            let matches = substring_match_fn(ms);
            if matches.len() == 1 {
                let found = matches[0].clone();
                proof {
                    assert(found@ == matches@[0]@);
                    assert(substring_answered(substring_match_fn, norm, matches.deep_view()));
                    assert(matches.deep_view().len() == 1);
                    assert(matches.deep_view()[0] == matches@[0]@);
                }
                return Ok(
                    ResolvedId { id: found, match_type: MatchType::Substring, original_input },
                );
            }
            if matches.len() >= 2 {
                proof {
                    assert(oracle_answered(exists_fn, norm, false));
                    assert(substring_answered(substring_match_fn, norm, matches.deep_view()));
                }
                return Err(TerseIdError::AmbiguousId { partial: normalized, matches });
            }
            proof {
                assert(matches.deep_view() =~= Seq::<Seq<char>>::empty());
                assert(substring_answered(substring_match_fn, norm, Seq::empty()));
            }
        }

        // Stage 4: not found
        Err(TerseIdError::NotFound { id: normalized })
    }
}

/// Candidate IDs from `all_ids` whose hash portion contains `sub`: each
/// parseable ID with a matching hash, re-serialized in canonical form, in
/// input order.
pub open spec fn find_matching_spec(ids: Seq<Seq<char>>, sub: Seq<char>) -> Seq<Seq<char>>
    decreases ids.len(),
{
    if ids.len() == 0 {
        Seq::empty()
    } else {
        let rest = find_matching_spec(ids.drop_last(), sub);
        match spec_parse(lower(ids.last())) {
            None => rest,
            Some((pf, h, path)) => if contains_seq(h, sub) {
                rest.push(id_str(pf, h, path))
            } else {
                rest
            },
        }
    }
}

/// Finds IDs whose hash portion (after the last dash, before the first dot)
/// contains the given substring; unparseable entries are skipped, and each
/// match is emitted in its canonical re-serialized form.
#[verifier::loop_isolation(false)]
pub fn find_matching_ids(all_ids: &[&str], hash_substring: &str) -> (r: Vec<String>)
    ensures
        r.deep_view() == find_matching_spec(all_ids.deep_view(), hash_substring@),
{
    let ghost ids = all_ids.deep_view();
    let mut result: Vec<String> = Vec::new();
    let n = all_ids.len();
    let mut i: usize = 0;
    while i < n
        invariant
            0 <= i <= n,
            result.deep_view() == find_matching_spec(ids.take(i as int), hash_substring@),
        decreases n - i,
    {
        let ghost pre = result.deep_view();
        match parse_id(all_ids[i]) {
            Ok(parsed) => {
                if str_contains(parsed.hash.as_str(), hash_substring) {
                    let canonical = parsed.to_id_string();
                    result.push(canonical);
                    proof {
                        assert(result.deep_view() =~= pre.push(
                            id_str(parsed.prefix@, parsed.hash@, parsed.child_path@),
                        ));
                    }
                }
            },
            Err(_) => {},
        }
        proof {
            let tk = ids.take(i + 1);
            assert(tk.drop_last() =~= ids.take(i as int));
            assert(tk.last() == all_ids@[i as int]@);
            assert(result.deep_view() =~= find_matching_spec(tk, hash_substring@));
        }
        i = i + 1;
    }
    proof {
        assert(ids.take(n as int) =~= ids);
    }
    result
}

/// Resolver precedence, first half: when the existence oracle must report
/// the exact normalized input as existing, resolution can only end as an
/// `Exact` match, never at a later stage.
pub proof fn lemma_resolve_exact_wins<F: Fn(&str) -> bool, G: Fn(&str) -> Vec<String>>(
    resolver: IdResolver,
    input: Seq<char>,
    exists_fn: F,
    substring_match_fn: G,
    r: Result<ResolvedId, TerseIdError>,
)
    requires
        resolver.resolve_post(input, exists_fn, substring_match_fn, r),
        forall|s: &str, b: bool|
            s@ == normalized_input(input) && #[trigger] call_ensures(exists_fn, (s,), b) ==> b,
    ensures
        r is Ok,
        r matches Ok(res) && res.match_type == MatchType::Exact,
{
    lemma_oracle_decided_true(exists_fn, normalized_input(input));
}

/// Resolver precedence, second half: when the input has no dash and the
/// oracle must report its prefix-normalized form as existing, resolution
/// never falls through to the substring stage or to a failure.
pub proof fn lemma_resolve_prefix_wins<F: Fn(&str) -> bool, G: Fn(&str) -> Vec<String>>(
    resolver: IdResolver,
    input: Seq<char>,
    exists_fn: F,
    substring_match_fn: G,
    r: Result<ResolvedId, TerseIdError>,
)
    requires
        resolver.resolve_post(input, exists_fn, substring_match_fn, r),
        no_dash(normalized_input(input)),
        forall|s: &str, b: bool|
            s@ == resolver.cfg().default_prefix@ + seq!['-'] + normalized_input(input)
                && #[trigger] call_ensures(exists_fn, (s,), b) ==> b,
    ensures
        r is Ok,
        r matches Ok(res) && (res.match_type == MatchType::Exact || res.match_type
            == MatchType::PrefixNormalized),
{
    lemma_oracle_decided_true(
        exists_fn,
        resolver.cfg().default_prefix@ + seq!['-'] + normalized_input(input),
    );
}

} // verus!
