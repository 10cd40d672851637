//! The error values returned across the crate.

use vstd::prelude::*;
use crate::text::push_char;

verus! {

/// Every failure the crate reports: an input that does not satisfy the ID
/// grammar, a parsed prefix that is not the expected one, an ambiguous
/// partial ID, or an input that no resolution stage matched.
#[derive(Debug, Clone, PartialEq, Eq)]
pub enum TerseIdError {
    InvalidId { id: String },
    PrefixMismatch { expected: String, found: String },
    AmbiguousId { partial: String, matches: Vec<String> },
    NotFound { id: String },
}

/// A match entry with quotes and backslashes escaped, as a debug-style
/// rendering shows them. Control and other non-printable characters are
/// taken verbatim.
pub open spec fn escaped(m: Seq<char>) -> Seq<char>
    decreases m.len(),
{
    if m.len() == 0 {
        Seq::empty()
    } else if m.last() == '"' || m.last() == '\\' {
        escaped(m.drop_last()) + seq!['\\', m.last()]
    } else {
        escaped(m.drop_last()) + seq![m.last()]
    }
}

/// The rendering of one quoted entry of an ambiguous-match list.
pub open spec fn quoted(m: Seq<char>) -> Seq<char> {
    seq!['"'] + escaped(m) + seq!['"']
}

/// Append `m` to `r` with quotes and backslashes escaped.
fn append_escaped(r: &mut String, m: &str)
    ensures
        final(r)@ == old(r)@ + escaped(m@),
{
    let ghost base = r@;
    let n = m.unicode_len();
    let mut j: usize = 0;
    while j < n
        invariant
            0 <= j <= n,
            n == m@.len(),
            r@ == base + escaped(m@.take(j as int)),
        decreases n - j,
    {
        let c = m.get_char(j);
        if c == '"' || c == '\\' {
            push_char(r, '\\');
        }
        push_char(r, c);
        proof {
            let tk = m@.take(j + 1);
            assert(tk.drop_last() =~= m@.take(j as int));
            assert(tk.last() == m@[j as int]);
            assert(r@ =~= base + escaped(tk));
        }
        j = j + 1;
    }
    proof {
        assert(m@.take(n as int) =~= m@);
    }
}

/// The rendering of an ambiguous-match list: quoted entries joined by `", "`.
pub open spec fn match_list_str(ms: Seq<Seq<char>>) -> Seq<char>
    decreases ms.len(),
{
    if ms.len() == 0 {
        Seq::empty()
    } else if ms.len() == 1 {
        quoted(ms[0])
    } else {
        match_list_str(ms.drop_last()) + seq![',', ' '] + quoted(ms.last())
    }
}

/// The human-readable description of an error value.
pub open spec fn spec_message(e: TerseIdError) -> Seq<char> {
    match e {
        TerseIdError::InvalidId { id } => "invalid ID format: "@ + id@,
        TerseIdError::PrefixMismatch { expected, found } => "prefix mismatch: expected '"@
            + expected@ + "', found '"@ + found@ + "'"@,
        TerseIdError::AmbiguousId { partial, matches } => "ambiguous ID '"@ + partial@
            + "': matches ["@ + match_list_str(matches.deep_view()) + "]"@,
        TerseIdError::NotFound { id } => "ID not found: "@ + id@,
    }
}

impl TerseIdError {
    /// Render this error as the message a caller would display.
    pub fn message(&self) -> (r: String)
        ensures
            r@ == spec_message(*self),
    {
        match self {
            TerseIdError::InvalidId { id } => {
                let mut r = String::from_str("invalid ID format: ");
                r.append(id.as_str());
                r
            },
            TerseIdError::PrefixMismatch { expected, found } => {
                let mut r = String::from_str("prefix mismatch: expected '");
                r.append(expected.as_str());
                r.append("', found '");
                r.append(found.as_str());
                r.append("'");
                r
            },
            TerseIdError::AmbiguousId { partial, matches } => {
                let mut r = String::from_str("ambiguous ID '");
                r.append(partial.as_str());
                r.append("': matches [");
                let ghost ms = matches.deep_view();
                let n = matches.len();
                let ghost base = r@;
                let mut i: usize = 0;
                while i < n
                    invariant
                        0 <= i <= n,
                        n == matches@.len(),
                        ms == matches.deep_view(),
                        ms.len() == n,
                        r@ == base + match_list_str(ms.take(i as int)),
                    decreases n - i,
                {
                    if i > 0 {
                        r.append(", ");
                    }
                    push_char(&mut r, '"');
                    append_escaped(&mut r, matches[i].as_str());
                    push_char(&mut r, '"');
                    proof {
                        reveal_strlit(", ");
                        assert(", "@ =~= seq![',', ' ']);
                        assert(ms[i as int] == matches@[i as int]@);
                        let tk = ms.take(i + 1);
                        assert(tk.drop_last() =~= ms.take(i as int));
                        assert(tk.last() == ms[i as int]);
                        if i == 0 {
                            assert(match_list_str(tk) =~= quoted(ms[0]));
                            assert(r@ =~= base + match_list_str(tk));
                        } else {
                            assert(match_list_str(tk) =~= match_list_str(ms.take(i as int)) + seq![
                                ',',
                                ' ',
                            ] + quoted(ms[i as int]));
                            assert(r@ =~= base + match_list_str(tk));
                        }
                    }
                    i = i + 1;
                }
                r.append("]");
                proof {
                    assert(ms.take(n as int) =~= ms);
                    assert(r@ =~= spec_message(*self));
                }
                r
            },
            TerseIdError::NotFound { id } => {
                let mut r = String::from_str("ID not found: ");
                r.append(id.as_str());
                r
            },
        }
    }
}

/// Shorthand for results whose error is `TerseIdError`.
pub type Result<T> = core::result::Result<T, TerseIdError>;

} // verus!
