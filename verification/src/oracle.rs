//! Spec-level descriptions of what caller-supplied oracles may have
//! answered. A closure handed in by the caller has no contract of its own,
//! so the library's guarantees are phrased over the answers its calls can
//! have produced.

use vstd::prelude::*;

verus! {

/// Some call of the boolean oracle on the string `arg` may answer `ans`.
pub open spec fn oracle_answered<F: Fn(&str) -> bool>(f: F, arg: Seq<char>, ans: bool) -> bool {
    exists|s: &str| s@ == arg && #[trigger] call_ensures(f, (s,), ans)
}

/// Some call of the substring oracle on the string `arg` may answer the
/// candidate list `out`.
pub open spec fn substring_answered<G: Fn(&str) -> Vec<String>>(
    g: G,
    arg: Seq<char>,
    out: Seq<Seq<char>>,
) -> bool {
    exists|s: &str, v: Vec<String>|
        s@ == arg && #[trigger] call_ensures(g, (s,), v) && v.deep_view() == out
}

/// An oracle that must answer `true` on `arg` can never have answered
/// `false` there.
pub proof fn lemma_oracle_decided_true<F: Fn(&str) -> bool>(f: F, arg: Seq<char>)
    requires
        forall|s: &str, b: bool| s@ == arg && #[trigger] call_ensures(f, (s,), b) ==> b,
    ensures
        !oracle_answered(f, arg, false),
{
}

} // verus!
