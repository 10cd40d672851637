//! Character classes and string utilities shared by the parser, the codec and
//! the resolver.
//!
//! The ID grammar is pure ASCII, so lowercasing maps only `A-Z`; any other
//! character is left as it is and will fail the grammar's character
//! classes. Trimming strips the full Unicode whitespace set.

use vstd::prelude::*;

verus! {

/// A base36 digit: `0-9` or `a-z` (lowercase only).
pub open spec fn is_base36_char(c: char) -> bool {
    ('0' <= c && c <= '9') || ('a' <= c && c <= 'z')
}

/// A decimal digit.
pub open spec fn is_digit_char(c: char) -> bool {
    '0' <= c && c <= '9'
}

/// A character allowed in an ID prefix: base36 or `-`.
pub open spec fn is_prefix_char(c: char) -> bool {
    is_base36_char(c) || c == '-'
}

/// Unicode whitespace, the set `str::trim` strips: the ASCII whitespace
/// characters, next line, no-break space, the Ogham space mark, the
/// typographic spaces, the line and paragraph separators, the narrow
/// no-break and medium mathematical spaces, and the ideographic space.
pub open spec fn is_space_char(c: char) -> bool {
    c == ' ' || c == '\t' || c == '\n' || c == '\u{b}' || c == '\u{c}' || c == '\r' || c
        == '\u{85}' || c == '\u{a0}' || c == '\u{1680}' || ('\u{2000}' <= c && c <= '\u{200a}')
        || c == '\u{2028}' || c == '\u{2029}' || c == '\u{202f}' || c == '\u{205f}' || c
        == '\u{3000}'
}

/// ASCII lowercasing of one character: `A-Z` maps to `a-z`, everything else
/// is unchanged.
pub open spec fn ascii_lower_char(c: char) -> char {
    if 'A' <= c && c <= 'Z' {
        ((c as u32) + 32) as char
    } else {
        c
    }
}

/// ASCII lowercasing of a whole character sequence.
pub open spec fn lower(s: Seq<char>) -> Seq<char> {
    s.map_values(|c: char| ascii_lower_char(c))
}

pub open spec fn all_base36(s: Seq<char>) -> bool {
    forall|i: int| 0 <= i < s.len() ==> is_base36_char(#[trigger] s[i])
}

pub open spec fn all_digits(s: Seq<char>) -> bool {
    forall|i: int| 0 <= i < s.len() ==> is_digit_char(#[trigger] s[i])
}

pub open spec fn all_prefix_chars(s: Seq<char>) -> bool {
    forall|i: int| 0 <= i < s.len() ==> is_prefix_char(#[trigger] s[i])
}

pub open spec fn has_digit(s: Seq<char>) -> bool {
    exists|i: int| 0 <= i < s.len() && is_digit_char(#[trigger] s[i])
}

pub fn is_base36(c: char) -> (r: bool)
    ensures
        r == is_base36_char(c),
{
    ('0' <= c && c <= '9') || ('a' <= c && c <= 'z')
}

pub fn is_digit(c: char) -> (r: bool)
    ensures
        r == is_digit_char(c),
{
    '0' <= c && c <= '9'
}

pub fn is_prefix_character(c: char) -> (r: bool)
    ensures
        r == is_prefix_char(c),
{
    is_base36(c) || c == '-'
}

pub fn is_space(c: char) -> (r: bool)
    ensures
        r == is_space_char(c),
{
    c == ' ' || c == '\t' || c == '\n' || c == '\u{b}' || c == '\u{c}' || c == '\r' || c
        == '\u{85}' || c == '\u{a0}' || c == '\u{1680}' || ('\u{2000}' <= c && c <= '\u{200a}')
        || c == '\u{2028}' || c == '\u{2029}' || c == '\u{202f}' || c == '\u{205f}' || c
        == '\u{3000}'
}

pub fn lower_char(c: char) -> (r: char)
    ensures
        r == ascii_lower_char(c),
{
    if 'A' <= c && c <= 'Z' {
        proof {
            vstd::utf8::char_is_scalar(c);
        }
        let u: u32 = (c as u32) + 32;
        (u as u8) as char
    } else {
        c
    }
}

/// Relies on `String::push` from std: appends the given character to the end
/// of the string.
#[verifier::external_body]
pub fn push_char(s: &mut String, c: char)
    ensures
        final(s)@ == old(s)@.push(c),
{
    s.push(c);
}

/// ASCII-lowercase a string.
pub fn lower_str(s: &str) -> (r: String)
    ensures
        r@ == lower(s@),
{
    let n = s.unicode_len();
    let mut r = String::new();
    let mut i: usize = 0;
    while i < n
        invariant
            n == s@.len(),
            0 <= i <= n,
            r@ == lower(s@.take(i as int)),
        decreases n - i,
    {
        let c = s.get_char(i);
        let lc = lower_char(c);
        push_char(&mut r, lc);
        proof {
            assert(s@.take(i + 1).map_values(|ch: char| ascii_lower_char(ch)) =~= s@.take(
                i as int,
            ).map_values(|ch: char| ascii_lower_char(ch)).push(ascii_lower_char(s@[i as int])));
        }
        i = i + 1;
    }
    proof {
        assert(s@.take(n as int) =~= s@);
    }
    r
}

/// Index of the first occurrence of `c` in `s` at or after position `i`, or
/// `s.len()` if there is none.
pub open spec fn find_from(s: Seq<char>, c: char, i: int) -> int
    decreases s.len() - i,
    when 0 <= i <= s.len()
{
    if i >= s.len() {
        s.len() as int
    } else if s[i] == c {
        i
    } else {
        find_from(s, c, i + 1)
    }
}

pub proof fn lemma_find_from(s: Seq<char>, c: char, i: int)
    requires
        0 <= i <= s.len(),
    ensures
        i <= find_from(s, c, i) <= s.len(),
        forall|j: int| i <= j < find_from(s, c, i) ==> s[j] != c,
        find_from(s, c, i) < s.len() ==> s[find_from(s, c, i)] == c,
    decreases s.len() - i,
{
    if i < s.len() && s[i] != c {
        lemma_find_from(s, c, i + 1);
    }
}

/// Index of the last occurrence of `c` in `s` strictly before position `end`,
/// or `-1` if there is none.
pub open spec fn rfind_before(s: Seq<char>, c: char, end: int) -> int
    decreases end,
    when 0 <= end <= s.len()
{
    if end <= 0 {
        -1
    } else if s[end - 1] == c {
        end - 1
    } else {
        rfind_before(s, c, end - 1)
    }
}

pub proof fn lemma_rfind_before(s: Seq<char>, c: char, end: int)
    requires
        0 <= end <= s.len(),
    ensures
        -1 <= rfind_before(s, c, end) < end,
        forall|j: int| rfind_before(s, c, end) < j < end ==> s[j] != c,
        rfind_before(s, c, end) >= 0 ==> s[rfind_before(s, c, end)] == c,
    decreases end,
{
    if end > 0 && s[end - 1] != c {
        lemma_rfind_before(s, c, end - 1);
    }
}

/// First occurrence of `c` in `s` at or after `from`, as an index; `s.len()`
/// if `c` does not occur there.
pub fn find_char(s: &str, c: char, from: usize) -> (r: usize)
    requires
        from <= s@.len(),
    ensures
        r == find_from(s@, c, from as int),
{
    let n = s.unicode_len();
    let mut i: usize = from;
    while i < n && s.get_char(i) != c
        invariant
            from <= i <= n,
            n == s@.len(),
            forall|j: int| from <= j < i ==> s@[j] != c,
        decreases n - i,
    {
        i = i + 1;
    }
    proof {
        lemma_find_from(s@, c, from as int);
    }
    i
}

/// Last occurrence of `c` in `s` strictly before `end`, if any.
pub fn rfind_char_before(s: &str, c: char, end: usize) -> (r: Option<usize>)
    requires
        end <= s@.len(),
    ensures
        match r {
            Some(k) => k == rfind_before(s@, c, end as int),
            None => rfind_before(s@, c, end as int) == -1,
        },
{
    let mut i: usize = end;
    while i > 0 && s.get_char(i - 1) != c
        invariant
            0 <= i <= end <= s@.len(),
            forall|j: int| i <= j < end ==> s@[j] != c,
        decreases i,
    {
        i = i - 1;
    }
    proof {
        lemma_rfind_before(s@, c, end as int);
    }
    if i == 0 {
        None
    } else {
        Some(i - 1)
    }
}

/// Character-wise string equality.
pub fn str_eq(a: &str, b: &str) -> (r: bool)
    ensures
        r == (a@ == b@),
{
    let na = a.unicode_len();
    let nb = b.unicode_len();
    if na != nb {
        return false;
    }
    let mut i: usize = 0;
    while i < na
        invariant
            0 <= i <= na,
            na == a@.len(),
            na == b@.len(),
            forall|j: int| 0 <= j < i ==> a@[j] == b@[j],
        decreases na - i,
    {
        if a.get_char(i) != b.get_char(i) {
            return false;
        }
        i = i + 1;
    }
    proof {
        assert(a@ =~= b@);
    }
    true
}

/// `s` with leading whitespace removed.
pub open spec fn trim_front(s: Seq<char>) -> Seq<char>
    decreases s.len(),
{
    if s.len() > 0 && is_space_char(s[0]) {
        trim_front(s.drop_first())
    } else {
        s
    }
}

/// `s` with trailing whitespace removed.
pub open spec fn trim_back(s: Seq<char>) -> Seq<char>
    decreases s.len(),
{
    if s.len() > 0 && is_space_char(s.last()) {
        trim_back(s.drop_last())
    } else {
        s
    }
}

/// `s` with whitespace removed from both ends.
pub open spec fn trimmed(s: Seq<char>) -> Seq<char> {
    trim_back(trim_front(s))
}

proof fn lemma_trim_front_is(s: Seq<char>, k: int)
    requires
        0 <= k <= s.len(),
        forall|j: int| 0 <= j < k ==> is_space_char(s[j]),
        k < s.len() ==> !is_space_char(s[k]),
    ensures
        trim_front(s) =~= s.subrange(k, s.len() as int),
    decreases k,
{
    if k == 0 {
        assert(trim_front(s) =~= s.subrange(0, s.len() as int));
    } else {
        let t = s.drop_first();
        assert(forall|j: int| 0 <= j < k - 1 ==> is_space_char(t[j]));
        lemma_trim_front_is(t, k - 1);
        assert(t.subrange(k - 1, t.len() as int) =~= s.subrange(k, s.len() as int));
    }
}

proof fn lemma_trim_back_is(s: Seq<char>, k: int)
    requires
        0 <= k <= s.len(),
        forall|j: int| k <= j < s.len() ==> is_space_char(s[j]),
        k > 0 ==> !is_space_char(s[k - 1]),
    ensures
        trim_back(s) =~= s.subrange(0, k),
    decreases s.len() - k,
{
    if k == s.len() {
        if s.len() > 0 && is_space_char(s.last()) {
            assert(false);
        }
        assert(trim_back(s) =~= s.subrange(0, k));
    } else {
        let t = s.drop_last();
        lemma_trim_back_is(t, k);
        assert(t.subrange(0, k) =~= s.subrange(0, k));
    }
}

/// Strip ASCII whitespace from both ends of a string.
pub fn trim_str(s: &str) -> (r: String)
    ensures
        r@ == trimmed(s@),
{
    let n = s.unicode_len();
    let mut start: usize = 0;
    while start < n && is_space(s.get_char(start))
        invariant
            0 <= start <= n,
            n == s@.len(),
            forall|j: int| 0 <= j < start ==> is_space_char(s@[j]),
        decreases n - start,
    {
        start = start + 1;
    }
    let mut end: usize = n;
    while end > start && is_space(s.get_char(end - 1))
        invariant
            start <= end <= n,
            n == s@.len(),
            forall|j: int| end <= j < n ==> is_space_char(s@[j]),
        decreases end,
    {
        end = end - 1;
    }
    proof {
        lemma_trim_front_is(s@, start as int);
        let t = s@.subrange(start as int, n as int);
        if end == start {
            lemma_trim_back_is(t, 0);
        } else {
            lemma_trim_back_is(t, end - start);
        }
        assert(t.subrange(0, end - start) =~= s@.subrange(start as int, end as int));
    }
    let sub = s.substring_char(start, end);
    sub.to_owned()
}

/// `needle` occurs contiguously somewhere in `hay`.
pub open spec fn contains_seq(hay: Seq<char>, needle: Seq<char>) -> bool {
    exists|i: int|
        0 <= i <= hay.len() - needle.len() && #[trigger] hay.subrange(i, i + needle.len() as int)
            == needle
}

/// Substring search by direct comparison at every position.
pub fn str_contains(hay: &str, needle: &str) -> (r: bool)
    ensures
        r == contains_seq(hay@, needle@),
{
    let nh = hay.unicode_len();
    let nn = needle.unicode_len();
    if nn > nh {
        return false;
    }
    if nn == 0 {
        proof {
            assert(hay@.subrange(0, 0 + needle@.len() as int) =~= needle@);
        }
        return true;
    }
    let mut i: usize = 0;
    while i < nh - nn + 1
        invariant
            0 < nn <= nh,
            nh == hay@.len(),
            nn == needle@.len(),
            0 <= i <= nh - nn + 1,
            forall|p: int|
                0 <= p < i ==> #[trigger] hay@.subrange(p, p + needle@.len() as int) != needle@,
        decreases nh - i,
    {
        let mut j: usize = 0;
        let mut matched = true;
        while j < nn
            invariant
                0 < nn <= nh,
                nh == hay@.len(),
                nn == needle@.len(),
                0 <= i <= nh - nn,
                0 <= j <= nn,
                matched ==> forall|q: int| 0 <= q < j ==> hay@[i + q] == needle@[q],
                !matched ==> hay@.subrange(i as int, i + needle@.len() as int) != needle@,
            decreases nn - j,
        {
            if hay.get_char(i + j) != needle.get_char(j) {
                proof {
                    let sub = hay@.subrange(i as int, i + needle@.len() as int);
                    assert(sub[j as int] != needle@[j as int]);
                }
                matched = false;
                j = nn;
            } else {
                j = j + 1;
            }
        }
        if matched {
            proof {
                assert(hay@.subrange(i as int, i + needle@.len() as int) =~= needle@);
            }
            return true;
        }
        i = i + 1;
    }
    proof {
        assert(forall|p: int|
            0 <= p <= hay@.len() - needle@.len() ==> #[trigger] hay@.subrange(
                p,
                p + needle@.len() as int,
            ) != needle@);
    }
    false
}

/// The character for a decimal digit value.
pub open spec fn digit_char(d: nat) -> char
    recommends
        d < 10,
{
    ((48 + d) as u32) as char
}

pub proof fn lemma_digit_char_val(d: nat)
    requires
        d < 10,
    ensures
        digit_char(d) as u32 == 48 + d,
        is_digit_char(digit_char(d)),
{
    if d == 0 {
        assert(digit_char(0) == '0');
    } else if d == 1 {
        assert(digit_char(1) == '1');
    } else if d == 2 {
        assert(digit_char(2) == '2');
    } else if d == 3 {
        assert(digit_char(3) == '3');
    } else if d == 4 {
        assert(digit_char(4) == '4');
    } else if d == 5 {
        assert(digit_char(5) == '5');
    } else if d == 6 {
        assert(digit_char(6) == '6');
    } else if d == 7 {
        assert(digit_char(7) == '7');
    } else if d == 8 {
        assert(digit_char(8) == '8');
    } else {
        assert(digit_char(9) == '9');
    }
}

/// Canonical decimal representation, most significant digit first.
pub open spec fn dec_str(n: nat) -> Seq<char>
    decreases n,
{
    if n < 10 {
        seq![digit_char(n)]
    } else {
        dec_str(n / 10).push(digit_char(n % 10))
    }
}

/// Numeric value of a digit sequence.
pub open spec fn dec_val(s: Seq<char>) -> int
    decreases s.len(),
{
    if s.len() == 0 {
        0
    } else {
        10 * dec_val(s.drop_last()) + (s.last() as u32 - 48)
    }
}

pub proof fn lemma_dec_str_digits(n: nat)
    ensures
        dec_str(n).len() >= 1,
        all_digits(dec_str(n)),
    decreases n,
{
    if n < 10 {
        lemma_digit_char_val(n);
    } else {
        lemma_dec_str_digits(n / 10);
        lemma_digit_char_val(n % 10);
        assert(dec_str(n) =~= dec_str(n / 10).push(digit_char(n % 10)));
    }
}

pub proof fn lemma_dec_val_dec_str(n: nat)
    ensures
        dec_val(dec_str(n)) == n,
    decreases n,
{
    if n < 10 {
        lemma_digit_char_val(n);
        let s = dec_str(n);
        assert(s =~= seq![digit_char(n)]);
        assert(s.drop_last() =~= Seq::<char>::empty());
        assert(dec_val(s) == 10 * dec_val(s.drop_last()) + (s.last() as u32 - 48));
        assert(dec_val(s.drop_last()) == 0);
        assert(s.last() == digit_char(n));
    } else {
        lemma_dec_val_dec_str(n / 10);
        lemma_digit_char_val(n % 10);
        let s = dec_str(n);
        assert(s == dec_str(n / 10).push(digit_char(n % 10)));
        assert(s.drop_last() =~= dec_str(n / 10));
        assert(s.last() == digit_char(n % 10));
        assert(dec_val(s) == 10 * dec_val(s.drop_last()) + (s.last() as u32 - 48));
    }
}

pub proof fn lemma_dec_val_nonneg(s: Seq<char>)
    requires
        all_digits(s),
    ensures
        dec_val(s) >= 0,
    decreases s.len(),
{
    if s.len() > 0 {
        assert(all_digits(s.drop_last()));
        lemma_dec_val_nonneg(s.drop_last());
    }
}

/// The value of a digit string never shrinks when digits are appended.
pub proof fn lemma_dec_val_take_le(s: Seq<char>, k: int)
    requires
        all_digits(s),
        0 <= k <= s.len(),
    ensures
        dec_val(s.take(k)) <= dec_val(s),
    decreases s.len() - k,
{
    if k < s.len() {
        lemma_dec_val_take_le(s, k + 1);
        let t = s.take(k + 1);
        assert(t.drop_last() =~= s.take(k));
        assert(all_digits(s.take(k)));
        lemma_dec_val_nonneg(s.take(k));
        assert(dec_val(t) == 10 * dec_val(s.take(k)) + (t.last() as u32 - 48));
        assert(is_digit_char(t.last()));
    } else {
        assert(s.take(k) =~= s);
    }
}

/// The exec character for a decimal digit value.
pub fn digit_to_char(d: u32) -> (r: char)
    requires
        d < 10,
    ensures
        r == digit_char(d as nat),
{
    ((48 + d) as u8) as char
}

/// Render a `u32` in decimal.
pub fn u32_to_string(n: u32) -> (r: String)
    ensures
        r@ == dec_str(n as nat),
{
    let mut v: u32 = n;
    let mut digits: Vec<char> = Vec::new();
    while v >= 10
        invariant
            dec_str(n as nat) =~= dec_str(v as nat) + digits@.reverse(),
        decreases v,
    {
        let d = v % 10;
        let c = digit_to_char(d);
        digits.push(c);
        proof {
            assert(dec_str(v as nat) =~= dec_str((v / 10) as nat).push(digit_char((v % 10) as nat)));
            assert(digits@.reverse() =~= seq![c] + digits@.drop_last().reverse());
            assert(dec_str((v / 10) as nat) + digits@.reverse() =~= dec_str(v as nat)
                + digits@.drop_last().reverse());
        }
        v = v / 10;
    }
    let c = digit_to_char(v);
    let mut r = String::new();
    push_char(&mut r, c);
    proof {
        assert(dec_str(v as nat) =~= seq![c]);
    }
    let k = digits.len();
    let mut i: usize = 0;
    while i < k
        invariant
            k == digits@.len(),
            0 <= i <= k,
            r@ =~= dec_str(v as nat) + digits@.reverse().take(i as int),
            dec_str(n as nat) =~= dec_str(v as nat) + digits@.reverse(),
        decreases k - i,
    {
        let c2 = digits[k - 1 - i];
        push_char(&mut r, c2);
        proof {
            assert(digits@.reverse().take(i + 1) =~= digits@.reverse().take(i as int).push(
                digits@[k - 1 - i],
            ));
        }
        i = i + 1;
    }
    proof {
        assert(digits@.reverse().take(k as int) =~= digits@.reverse());
        assert(r@ =~= dec_str(n as nat));
    }
    r
}

/// What parsing a child-path segment yields: the digits' value, if the
/// segment is non-empty, all decimal digits, and within `u32` range.
pub open spec fn parse_u32_spec(seg: Seq<char>) -> Option<u32> {
    if seg.len() == 0 || !all_digits(seg) || dec_val(seg) > u32::MAX {
        None
    } else {
        Some(dec_val(seg) as u32)
    }
}

/// Parse the characters of `s` in `[start, end)` as a `u32`.
pub fn parse_u32_range(s: &str, start: usize, end: usize) -> (r: Option<u32>)
    requires
        start <= end <= s@.len(),
    ensures
        r == parse_u32_spec(s@.subrange(start as int, end as int)),
{
    let ghost seg = s@.subrange(start as int, end as int);
    if start == end {
        return None;
    }
    let mut acc: u64 = 0;
    let mut i: usize = start;
    while i < end
        invariant
            start <= i <= end <= s@.len(),
            seg == s@.subrange(start as int, end as int),
            all_digits(seg.take(i - start)),
            acc == dec_val(seg.take(i - start)),
            acc <= u32::MAX,
        decreases end - i,
    {
        let c = s.get_char(i);
        proof {
            assert(seg[i - start] == s@[i as int]);
        }
        if !is_digit(c) {
            return None;
        }
        let d: u32 = (c as u32) - 48;
        acc = acc * 10 + (d as u64);
        proof {
            let t = seg.take(i - start + 1);
            assert(t.drop_last() =~= seg.take(i - start));
            assert(t.last() == c);
            assert(all_digits(t));
        }
        if acc > (u32::MAX as u64) {
            proof {
                if all_digits(seg) {
                    lemma_dec_val_take_le(seg, i - start + 1);
                }
            }
            return None;
        }
        i = i + 1;
    }
    proof {
        assert(seg.take(i - start) =~= seg);
    }
    Some(acc as u32)
}

} // verus!
