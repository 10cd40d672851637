//! Hierarchical child-ID helpers: append a segment, test for a child path,
//! and measure depth.
//!
//! `is_child_id` and `id_depth` are query helpers, not validators: malformed
//! input is answered with the root-like defaults (`false`, depth `0`) rather
//! than an error.

use vstd::prelude::*;
use crate::parse::{parse_id, spec_parse};
use crate::text::{dec_str, lower, push_char, u32_to_string};

verus! {

/// Creates a child ID from a parent ID and child number by appending
/// `"." + child_number`; the parent is not validated here.
pub fn child_id(parent_id: &str, child_number: u32) -> (r: String)
    ensures
        r@ == parent_id@ + seq!['.'] + dec_str(child_number as nat),
{
    let mut r = parent_id.to_owned();
    push_char(&mut r, '.');
    let seg = u32_to_string(child_number);
    r.append(seg.as_str());
    proof {
        assert(r@ =~= parent_id@ + seq!['.'] + dec_str(child_number as nat));
    }
    r
}

/// Checks if an ID has one or more child-path segments; malformed IDs are
/// not children.
pub fn is_child_id(id: &str) -> (r: bool)
    ensures
        r == match spec_parse(lower(id@)) {
            Some((pf, h, path)) => path.len() > 0,
            None => false,
        },
{
    match parse_id(id) {
        Ok(parsed) => parsed.child_path.len() > 0,
        Err(_) => false,
    }
}

/// Returns the number of child-path segments of an ID; malformed IDs have
/// depth zero.
pub fn id_depth(id: &str) -> (r: usize)
    ensures
        r == match spec_parse(lower(id@)) {
            Some((pf, h, path)) => path.len(),
            None => 0,
        },
{
    match parse_id(id) {
        Ok(parsed) => parsed.child_path.len(),
        Err(_) => 0,
    }
}

} // verus!
