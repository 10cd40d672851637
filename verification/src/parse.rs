//! The ID grammar: parsing, validation, and serialization.
//!
//! An ID is `<prefix>-<hash>[.<n>]*`, lowercase. The split point between
//! prefix and hash is the last `-` before the first `.`, so prefixes may
//! themselves contain hyphens. A hash of four or more characters must
//! contain a digit; three-character hashes are exempt.

use vstd::prelude::*;
use crate::error::TerseIdError;
use crate::text::{all_base36, all_prefix_chars, ascii_lower_char, dec_str, find_from,
    find_char, has_digit, is_base36, is_base36_char, is_digit, is_digit_char, is_prefix_char,
    is_prefix_character, lemma_find_from, lemma_rfind_before, lower, lower_str, parse_u32_range,
    parse_u32_spec, push_char, rfind_before, rfind_char_before, str_eq, u32_to_string};

verus! {

/// Parsed representation of an ID.
#[derive(Debug, Clone, PartialEq, Eq)]
pub struct ParsedId {
    pub prefix: String,
    pub hash: String,
    pub child_path: Vec<u32>,
}

/// A well-formed prefix: non-empty, all characters lowercase base36 or `-`.
pub open spec fn wf_prefix(s: Seq<char>) -> bool {
    s.len() > 0 && all_prefix_chars(s)
}

/// A well-formed hash: non-empty lowercase base36; four or more characters
/// require at least one digit.
pub open spec fn wf_hash(s: Seq<char>) -> bool {
    s.len() > 0 && all_base36(s) && (s.len() >= 4 ==> has_digit(s))
}

/// The serialized child path: `"." + n` for each element, in order.
pub open spec fn path_str(path: Seq<u32>) -> Seq<char>
    decreases path.len(),
{
    if path.len() == 0 {
        Seq::empty()
    } else {
        path_str(path.drop_last()) + seq!['.'] + dec_str(path.last() as nat)
    }
}

/// The canonical string of an ID with the given components.
pub open spec fn id_str(prefix: Seq<char>, hash: Seq<char>, path: Seq<u32>) -> Seq<char> {
    prefix + seq!['-'] + hash + path_str(path)
}

/// Child-path segments read from position `i` of `t` to its end: a possibly
/// empty run of `"." uint32` groups.
pub open spec fn parse_path(t: Seq<char>, i: int) -> Option<Seq<u32>>
    decreases t.len() - i,
    when 0 <= i <= t.len()
    via parse_path_decreases
{
    if i == t.len() {
        Some(Seq::empty())
    } else if t[i] != '.' {
        None
    } else {
        let j = find_from(t, '.', i + 1);
        match parse_u32_spec(t.subrange(i + 1, j)) {
            None => None,
            Some(v) => match parse_path(t, j) {
                None => None,
                Some(rest) => Some(seq![v] + rest),
            },
        }
    }
}

#[via_fn]
proof fn parse_path_decreases(t: Seq<char>, i: int) {
    if 0 <= i < t.len() && t[i] == '.' {
        lemma_find_from(t, '.', i + 1);
    }
}

/// The ID grammar over an already-lowercased character sequence: the
/// components of the ID if `t` is valid, `None` otherwise.
pub open spec fn spec_parse(t: Seq<char>) -> Option<(Seq<char>, Seq<char>, Seq<u32>)> {
    let he = find_from(t, '.', 0);
    let d = rfind_before(t, '-', he);
    if d < 0 {
        None
    } else {
        let prefix = t.subrange(0, d);
        let hash = t.subrange(d + 1, he);
        if !(wf_prefix(prefix) && wf_hash(hash)) {
            None
        } else {
            match parse_path(t, he) {
                None => None,
                Some(path) => Some((prefix, hash, path)),
            }
        }
    }
}

impl ParsedId {
    /// The components satisfy the grammar's validity rules.
    pub open spec fn wf(self) -> bool {
        wf_prefix(self.prefix@) && wf_hash(self.hash@)
    }

    /// Returns true if this ID has no child path segments.
    pub fn is_root(&self) -> (r: bool)
        ensures
            r == (self.child_path@.len() == 0),
    {
        self.child_path.len() == 0
    }

    /// Returns the depth of this ID (number of child path segments).
    pub fn depth(&self) -> (r: usize)
        ensures
            r == self.child_path@.len(),
    {
        self.child_path.len()
    }

    /// Formats this ID as its canonical string.
    pub fn to_id_string(&self) -> (r: String)
        ensures
            r@ == id_str(self.prefix@, self.hash@, self.child_path@),
    {
        let mut r = self.prefix.clone();
        push_char(&mut r, '-');
        r.append(self.hash.as_str());
        proof {
            assert(r@ =~= id_str(self.prefix@, self.hash@, self.child_path@.take(0)));
        }
        let n = self.child_path.len();
        let mut i: usize = 0;
        while i < n
            invariant
                0 <= i <= n,
                n == self.child_path@.len(),
                r@ == id_str(self.prefix@, self.hash@, self.child_path@.take(i as int)),
            decreases n - i,
        {
            push_char(&mut r, '.');
            let seg = u32_to_string(self.child_path[i]);
            r.append(seg.as_str());
            proof {
                let tk = self.child_path@.take(i + 1);
                assert(tk.drop_last() =~= self.child_path@.take(i as int));
                assert(tk.last() == self.child_path@[i as int]);
                assert(r@ =~= id_str(self.prefix@, self.hash@, tk));
            }
            i = i + 1;
        }
        proof {
            assert(self.child_path@.take(n as int) =~= self.child_path@);
        }
        r
    }

    /// Returns the parent ID, or `None` if this is a root ID.
    pub fn parent(&self) -> (r: Option<String>)
        ensures
            match r {
                None => self.child_path@.len() == 0,
                Some(s) => self.child_path@.len() > 0 && s@ == id_str(
                    self.prefix@,
                    self.hash@,
                    self.child_path@.drop_last(),
                ),
            },
    {
        if self.child_path.len() == 0 {
            None
        } else {
            let n = self.child_path.len() - 1;
            let mut shorter: Vec<u32> = Vec::new();
            let mut i: usize = 0;
            while i < n
                invariant
                    0 <= i <= n,
                    n < self.child_path@.len(),
                    shorter@ =~= self.child_path@.take(i as int),
                decreases n - i,
            {
                shorter.push(self.child_path[i]);
                i = i + 1;
            }
            let par = ParsedId {
                prefix: self.prefix.clone(),
                hash: self.hash.clone(),
                child_path: shorter,
            };
            proof {
                assert(par.child_path@ =~= self.child_path@.drop_last());
            }
            Some(par.to_id_string())
        }
    }

    /// Returns true if `self` is strictly below `potential_parent` in the
    /// ID tree: same prefix and hash, and the parent's child path is a
    /// proper prefix of this one's.
    #[verifier::loop_isolation(false)]
    pub fn is_child_of(&self, potential_parent: &str) -> (r: bool)
        ensures
            r == spec_is_child_of(
                self.prefix@,
                self.hash@,
                self.child_path@,
                lower(potential_parent@),
            ),
    {
        let parent = match parse_id(potential_parent) {
            Ok(p) => p,
            Err(_) => {
                return false;
            },
        };
        if !str_eq(self.prefix.as_str(), parent.prefix.as_str()) {
            return false;
        }
        if !str_eq(self.hash.as_str(), parent.hash.as_str()) {
            return false;
        }
        let pn = parent.child_path.len();
        if self.child_path.len() <= pn {
            return false;
        }
        let mut i: usize = 0;
        while i < pn
            invariant
                0 <= i <= pn,
                pn == parent.child_path@.len(),
                pn < self.child_path@.len(),
                forall|j: int| 0 <= j < i ==> self.child_path@[j] == parent.child_path@[j],
            decreases pn - i,
        {
            if self.child_path[i] != parent.child_path[i] {
                proof {
                    assert(!parent.child_path@.is_prefix_of(self.child_path@));
                }
                return false;
            }
            i = i + 1;
        }
        proof {
            assert(parent.child_path@ =~= self.child_path@.take(pn as int));
            assert(parent.child_path@.is_prefix_of(self.child_path@));
        }
        true
    }
}

/// Whether an ID with the given components is a strict child of the ID
/// written as `pp` (already lowercased).
pub open spec fn spec_is_child_of(
    prefix: Seq<char>,
    hash: Seq<char>,
    path: Seq<u32>,
    pp: Seq<char>,
) -> bool {
    match spec_parse(pp) {
        None => false,
        Some((ppre, phash, ppath)) => prefix == ppre && hash == phash && path.len() > ppath.len()
            && ppath.is_prefix_of(path),
    }
}

/// Parses an ID string into a structured `ParsedId`.
///
/// The input is lowercased first (ASCII `A-Z`; the grammar admits only
/// ASCII characters, so anything else fails it anyway); the result's
/// components are exactly what the grammar assigns to the lowercased
/// input, and any input the grammar rejects is answered with `InvalidId`
/// holding that lowercased input.
#[verifier::loop_isolation(false)]
pub fn parse_id(id: &str) -> (r: Result<ParsedId, TerseIdError>)
    ensures
        match r {
            Ok(p) => spec_parse(lower(id@)) == Some((p.prefix@, p.hash@, p.child_path@))
                && p.wf(),
            Err(e) => spec_parse(lower(id@)) is None && (e matches TerseIdError::InvalidId {
                id: eid,
            } && eid@ == lower(id@)),
        },
{
    let lowered = lower_str(id);
    let ghost t = lowered@;
    let n = lowered.as_str().unicode_len();
    let he = find_char(lowered.as_str(), '.', 0);
    proof {
        lemma_find_from(t, '.', 0);
    }
    let dd = rfind_char_before(lowered.as_str(), '-', he);
    proof {
        lemma_rfind_before(t, '-', he as int);
    }
    let d = match dd {
        Some(k) => k,
        None => {
            return Err(TerseIdError::InvalidId { id: lowered });
        },
    };
    if d == 0 {
        proof {
            assert(t.subrange(0, 0).len() == 0);
        }
        return Err(TerseIdError::InvalidId { id: lowered });
    }
    let ghost prefix_g = t.subrange(0, d as int);
    let ghost hash_g = t.subrange(d + 1, he as int);
    let mut i: usize = 0;
    while i < d
        invariant
            0 <= i <= d < he <= n,
            n == t.len(),
            t == lowered@,
            prefix_g == t.subrange(0, d as int),
            forall|j: int| 0 <= j < i ==> is_prefix_char(#[trigger] t[j]),
        decreases d - i,
    {
        if !is_prefix_character(lowered.as_str().get_char(i)) {
            proof {
                assert(prefix_g[i as int] == t[i as int]);
                assert(!all_prefix_chars(prefix_g));
            }
            return Err(TerseIdError::InvalidId { id: lowered });
        }
        i = i + 1;
    }
    proof {
        assert(forall|j: int| 0 <= j < prefix_g.len() ==> is_prefix_char(#[trigger] prefix_g[j]));
        assert(wf_prefix(prefix_g));
    }
    if d + 1 == he {
        proof {
            assert(hash_g.len() == 0);
        }
        return Err(TerseIdError::InvalidId { id: lowered });
    }
    let mut j: usize = d + 1;
    while j < he
        invariant
            d + 1 <= j <= he <= n,
            n == t.len(),
            t == lowered@,
            hash_g == t.subrange(d + 1, he as int),
            forall|k: int| d + 1 <= k < j ==> is_base36_char(#[trigger] t[k]),
        decreases he - j,
    {
        if !is_base36(lowered.as_str().get_char(j)) {
            proof {
                assert(hash_g[j - (d + 1)] == t[j as int]);
                assert(!all_base36(hash_g));
            }
            return Err(TerseIdError::InvalidId { id: lowered });
        }
        j = j + 1;
    }
    proof {
        assert(forall|k: int| 0 <= k < hash_g.len() ==> is_base36_char(#[trigger] hash_g[k]));
    }
    if he - (d + 1) >= 4 {
        let mut k: usize = d + 1;
        let mut found = false;
        while k < he && !found
            invariant
                d + 1 <= k <= he <= n,
                n == t.len(),
                t == lowered@,
                hash_g == t.subrange(d + 1, he as int),
                found ==> has_digit(hash_g),
                !found ==> forall|q: int| d + 1 <= q < k ==> !is_digit_char(#[trigger] t[q]),
            decreases he - k + (if found { 0int } else { 1int }),
        {
            if is_digit(lowered.as_str().get_char(k)) {
                proof {
                    assert(hash_g[k - (d + 1)] == t[k as int]);
                }
                found = true;
            } else {
                k = k + 1;
            }
        }
        if !found {
            proof {
                assert(forall|q: int| 0 <= q < hash_g.len() ==> !is_digit_char(#[trigger] hash_g[q]));
                assert(!has_digit(hash_g));
            }
            return Err(TerseIdError::InvalidId { id: lowered });
        }
    }
    proof {
        assert(wf_hash(hash_g));
    }
    let mut path: Vec<u32> = Vec::new();
    let mut pos: usize = he;
    while pos < n
        invariant
            he <= pos <= n,
            n == t.len(),
            t == lowered@,
            pos < n ==> t[pos as int] == '.',
            match parse_path(t, pos as int) {
                Some(rest) => parse_path(t, he as int) == Some(path@ + rest),
                None => parse_path(t, he as int) is None,
            },
        decreases n - pos,
    {
        let j2 = find_char(lowered.as_str(), '.', pos + 1);
        proof {
            lemma_find_from(t, '.', pos + 1);
        }
        let seg = parse_u32_range(lowered.as_str(), pos + 1, j2);
        let v = match seg {
            Some(v) => v,
            None => {
                proof {
                    assert(parse_path(t, pos as int) is None);
                }
                return Err(TerseIdError::InvalidId { id: lowered });
            },
        };
        path.push(v);
        proof {
            let rest_old = parse_path(t, pos as int);
            match parse_path(t, j2 as int) {
                Some(rest2) => {
                    assert(rest_old == Some(seq![v] + rest2));
                    assert(path@.drop_last() + (seq![v] + rest2) =~= path@ + rest2);
                },
                None => {
                    assert(rest_old is None);
                },
            }
        }
        pos = j2;
    }
    proof {
        assert(parse_path(t, n as int) == Some(Seq::<u32>::empty()));
        assert(path@ + Seq::<u32>::empty() =~= path@);
        assert(parse_path(t, he as int) == Some(path@));
    }
    let prefix_s = lowered.as_str().substring_char(0, d).to_owned();
    let hash_s = lowered.as_str().substring_char(d + 1, he).to_owned();
    proof {
        assert(prefix_s@ == prefix_g);
        assert(hash_s@ == hash_g);
        assert(spec_parse(t) == Some((prefix_g, hash_g, path@)));
    }
    Ok(ParsedId { prefix: prefix_s, hash: hash_s, child_path: path })
}

pub proof fn lemma_path_str_chars(path: Seq<u32>)
    ensures
        forall|i: int|
            0 <= i < path_str(path).len() ==> (#[trigger] path_str(path)[i] == '.' || is_digit_char(
                path_str(path)[i],
            )),
    decreases path.len(),
{
    if path.len() > 0 {
        lemma_path_str_chars(path.drop_last());
        crate::text::lemma_dec_str_digits(path.last() as nat);
        let whole = path_str(path.drop_last()) + seq!['.'] + dec_str(path.last() as nat);
        assert(path_str(path) == whole);
        assert forall|i: int| 0 <= i < whole.len() implies (#[trigger] whole[i] == '.'
            || is_digit_char(whole[i])) by {
            let a = path_str(path.drop_last());
            let d = dec_str(path.last() as nat);
            if i < a.len() {
                assert(whole[i] == a[i]);
            } else if i == a.len() {
                assert(whole[i] == '.');
            } else {
                assert(whole[i] == d[i - a.len() - 1]);
                assert(is_digit_char(d[i - a.len() - 1]));
            }
        }
    }
}

/// A non-empty serialized path begins with `'.'` followed by its first
/// segment's digits, then the rest of the path.
pub proof fn lemma_path_str_first(path: Seq<u32>)
    requires
        path.len() > 0,
    ensures
        path_str(path) == seq!['.'] + dec_str(path.first() as nat) + path_str(path.drop_first()),
    decreases path.len(),
{
    if path.len() == 1 {
        assert(path.drop_last() =~= Seq::<u32>::empty());
        assert(path.drop_first() =~= Seq::<u32>::empty());
        assert(path.last() == path.first());
        assert(path_str(path) =~= seq!['.'] + dec_str(path.first() as nat) + path_str(
            path.drop_first(),
        ));
    } else {
        let q = path.drop_last();
        lemma_path_str_first(q);
        assert(q.first() == path.first());
        assert(q.drop_first() =~= path.drop_first().drop_last());
        assert(path.drop_first().len() > 0);
        assert(path.drop_first().last() == path.last());
        assert(path_str(path.drop_first()) == path_str(path.drop_first().drop_last()) + seq!['.']
            + dec_str(path.drop_first().last() as nat));
        assert(path_str(path) =~= seq!['.'] + dec_str(path.first() as nat) + path_str(
            path.drop_first(),
        ));
    }
}

proof fn lemma_parse_path_of_path_str(t: Seq<char>, i: int, path: Seq<u32>)
    requires
        0 <= i <= t.len(),
        t.subrange(i, t.len() as int) == path_str(path),
    ensures
        parse_path(t, i) == Some(path),
    decreases path.len(),
{
    let tail = t.subrange(i, t.len() as int);
    if path.len() == 0 {
        assert(tail.len() == 0);
        assert(i == t.len());
    } else {
        lemma_path_str_first(path);
        let d0 = dec_str(path.first() as nat);
        let rest = path_str(path.drop_first());
        assert(tail == seq!['.'] + d0 + rest);
        assert(t[i] == tail[0]);
        assert(tail[0] == '.');
        crate::text::lemma_dec_str_digits(path.first() as nat);
        lemma_path_str_chars(path.drop_first());
        let sege = i + 1 + d0.len();
        // the first '.' at or after i + 1 is exactly where d0 ends
        assert forall|j: int| i + 1 <= j < sege implies t[j] != '.' by {
            assert(t[j] == tail[j - i]);
            assert(tail[j - i] == d0[j - i - 1]);
            assert(is_digit_char(d0[j - i - 1]));
        }
        if rest.len() > 0 {
            lemma_path_str_first(path.drop_first());
            assert(t[sege] == tail[sege - i]);
            assert(tail[sege - i] == rest[0]);
            assert(rest[0] == '.');
        } else {
            assert(t.len() == sege);
        }
        lemma_find_from(t, '.', i + 1);
        let j = find_from(t, '.', i + 1);
        assert(j == sege) by {
            if j < sege {
                assert(t[j] != '.');
            }
            if j > sege {
                if sege < t.len() {
                    assert(t[sege] == '.');
                }
            }
        }
        let seg = t.subrange(i + 1, j);
        assert forall|k: int| 0 <= k < d0.len() implies seg[k] == d0[k] by {
            assert(seg[k] == t[i + 1 + k]);
            assert(t[i + 1 + k] == tail[1 + k]);
            assert(tail[1 + k] == d0[k]);
        }
        assert(seg =~= d0);
        crate::text::lemma_dec_val_dec_str(path.first() as nat);
        assert(parse_u32_spec(seg) == Some(path.first()));
        let after = t.subrange(j, t.len() as int);
        assert forall|k: int| 0 <= k < rest.len() implies after[k] == rest[k] by {
            assert(after[k] == t[j + k]);
            assert(t[j + k] == tail[j + k - i]);
            assert(tail[1 + d0.len() + k] == rest[k]);
        }
        assert(after =~= rest);
        lemma_parse_path_of_path_str(t, j, path.drop_first());
        assert(seq![path.first()] + path.drop_first() =~= path);
    }
}

/// Round trip: the canonical string of well-formed components parses back
/// to exactly those components, and is already lowercase.
pub proof fn lemma_parse_round_trip(prefix: Seq<char>, hash: Seq<char>, path: Seq<u32>)
    requires
        wf_prefix(prefix),
        wf_hash(hash),
    ensures
        spec_parse(id_str(prefix, hash, path)) == Some((prefix, hash, path)),
        lower(id_str(prefix, hash, path)) == id_str(prefix, hash, path),
{
    let t = id_str(prefix, hash, path);
    let pl = prefix.len() as int;
    let hl = hash.len() as int;
    let hp = pl + 1 + hl;
    lemma_path_str_chars(path);
    assert(t.len() == hp + path_str(path).len());
    assert forall|j: int| 0 <= j < hp implies t[j] != '.' by {
        if j < pl {
            assert(t[j] == prefix[j]);
            assert(is_prefix_char(prefix[j]));
        } else if j == pl {
            assert(t[j] == '-');
        } else {
            assert(t[j] == hash[j - pl - 1]);
            assert(is_base36_char(hash[j - pl - 1]));
        }
    }
    if path.len() > 0 {
        lemma_path_str_first(path);
        assert(t[hp] == path_str(path)[0]);
        assert(path_str(path)[0] == '.');
    } else {
        assert(t.len() == hp);
    }
    lemma_find_from(t, '.', 0);
    let he = find_from(t, '.', 0);
    assert(he == hp) by {
        if he < hp {
            assert(t[he] != '.');
        }
        if he > hp {
            if hp < t.len() {
                assert(t[hp] == '.');
            }
        }
    }
    assert forall|j: int| pl < j < hp implies t[j] != '-' by {
        assert(t[j] == hash[j - pl - 1]);
        assert(is_base36_char(hash[j - pl - 1]));
    }
    lemma_rfind_before(t, '-', hp);
    let d = rfind_before(t, '-', hp);
    assert(t[pl] == '-');
    assert(d == pl) by {
        if d < pl {
            assert(pl < hp);
        }
        if d > pl {
            assert(t[d] != '-');
        }
    }
    assert(t.subrange(0, pl) =~= prefix);
    assert(t.subrange(pl + 1, hp) =~= hash);
    assert(t.subrange(hp, t.len() as int) =~= path_str(path));
    lemma_parse_path_of_path_str(t, hp, path);
    assert(spec_parse(t) == Some((prefix, hash, path)));
    assert forall|j: int| 0 <= j < t.len() implies ascii_lower_char(t[j]) == t[j] by {
        if j < pl {
            assert(is_prefix_char(prefix[j]));
        } else if j == pl {
        } else if j < hp {
            assert(is_base36_char(hash[j - pl - 1]));
        } else {
            assert(path_str(path)[j - hp] == '.' || is_digit_char(path_str(path)[j - hp]));
        }
    }
    assert(lower(t) =~= t);
}

/// Returns true if the given ID string is in a valid format.
pub fn is_valid_id_format(id: &str) -> (r: bool)
    ensures
        r == (spec_parse(lower(id@)) is Some),
{
    parse_id(id).is_ok()
}

/// Normalizes an ID string by lowercasing it (ASCII `A-Z`).
pub fn normalize_id(id: &str) -> (r: String)
    ensures
        r@ == lower(id@),
{
    lower_str(id)
}

/// Validates that an ID has the expected prefix or one of the allowed
/// prefixes.
#[verifier::loop_isolation(false)]
pub fn validate_prefix(id: &str, expected: &str, allowed: &[&str]) -> (r: Result<
    (),
    TerseIdError,
>)
    ensures
        match spec_parse(lower(id@)) {
            None => r matches Err(TerseIdError::InvalidId { id: eid }) && eid@ == lower(id@),
            Some((pf, h, path)) => {
                if pf == expected@ || (exists|i: int|
                    0 <= i < allowed@.len() && #[trigger] allowed@[i]@ == pf) {
                    r is Ok
                } else {
                    r matches Err(TerseIdError::PrefixMismatch { expected: ex, found }) && ex@
                        == expected@ && found@ == pf
                }
            },
        },
{
    let parsed = match parse_id(id) {
        Ok(p) => p,
        Err(e) => {
            return Err(e);
        },
    };
    if str_eq(parsed.prefix.as_str(), expected) {
        return Ok(());
    }
    let n = allowed.len();
    let mut i: usize = 0;
    while i < n
        invariant
            0 <= i <= n,
            n == allowed@.len(),
            forall|j: int| 0 <= j < i ==> #[trigger] allowed@[j]@ != parsed.prefix@,
        decreases n - i,
    {
        if str_eq(allowed[i], parsed.prefix.as_str()) {
            return Ok(());
        }
        i = i + 1;
    }
    Err(TerseIdError::PrefixMismatch { expected: expected.to_owned(), found: parsed.prefix })
}

} // verus!
