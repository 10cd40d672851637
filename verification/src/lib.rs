//! A compact, collision-resistant identifier scheme: short human-friendly
//! IDs of the form `<prefix>-<hash>[.<childpath>]`, with a deterministic
//! base36 codec, a strict grammar parser, hierarchical child-ID helpers,
//! an adaptive-length generator, and a staged fuzzy resolver.

use vstd::prelude::*;

pub mod children;
pub mod collision;
pub mod config;
pub mod error;
pub mod generate;
pub mod hash;
pub mod oracle;
pub mod parse;
pub mod resolve;
pub mod text;

pub use children::{child_id, id_depth, is_child_id};
pub use config::IdConfig;
pub use error::{Result, TerseIdError};
pub use generate::IdGenerator;
pub use parse::{is_valid_id_format, normalize_id, parse_id, validate_prefix, ParsedId};
pub use resolve::{find_matching_ids, IdResolver, MatchType, ResolvedId, ResolverConfig};

verus! {

/// Compute a base36 hash of the input, truncated or zero-padded to
/// `length` characters.
pub fn hash(input: &[u8], length: usize) -> (r: String)
    ensures
        r@ == crate::hash::hash_str(crate::hash::digest64_of(input@), length as nat),
        r@.len() == length,
        crate::text::all_base36(r@),
{
    hash::hash(input, length)
}

} // verus!
