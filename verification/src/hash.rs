//! The deterministic codec: a SHA-256 digest prefix encoded in base36 and
//! truncated or zero-padded to a requested length.

use vstd::prelude::*;
use crate::text::{all_base36, digit_char, digit_to_char, is_base36_char, lemma_digit_char_val,
    push_char};
use sha2::{Digest, Sha256};

verus! {

/// The first 8 bytes of the SHA-256 digest of `bytes`, read big-endian.
pub uninterp spec fn digest64_of(bytes: Seq<u8>) -> u64;

/// Relies on sha2's `Sha256` through the one-shot `Digest::digest` API: the
/// digest is a pure function of the input bytes alone; its first 8 bytes are
/// kept here as a big-endian `u64`.
#[verifier::external_body]
pub(crate) fn compute_hash(input: &[u8]) -> (r: u64)
    ensures
        r == digest64_of(input@),
{
    let digest = Sha256::digest(input);
    let mut first = [0u8; 8];
    first.copy_from_slice(&digest[..8]);
    u64::from_be_bytes(first)
}

/// The character for a base36 digit value: `0-9` then `a-z`.
pub open spec fn b36_char(d: nat) -> char
    recommends
        d < 36,
{
    if d < 10 {
        digit_char(d)
    } else {
        ((87 + d) as u32) as char
    }
}

pub proof fn lemma_b36_char_base36(d: nat)
    requires
        d < 36,
    ensures
        is_base36_char(b36_char(d)),
{
    if d < 10 {
        lemma_digit_char_val(d);
    } else if d == 10 {
        assert(b36_char(10) == 'a');
    } else if d == 11 {
        assert(b36_char(11) == 'b');
    } else if d == 12 {
        assert(b36_char(12) == 'c');
    } else if d == 13 {
        assert(b36_char(13) == 'd');
    } else if d == 14 {
        assert(b36_char(14) == 'e');
    } else if d == 15 {
        assert(b36_char(15) == 'f');
    } else if d == 16 {
        assert(b36_char(16) == 'g');
    } else if d == 17 {
        assert(b36_char(17) == 'h');
    } else if d == 18 {
        assert(b36_char(18) == 'i');
    } else if d == 19 {
        assert(b36_char(19) == 'j');
    } else if d == 20 {
        assert(b36_char(20) == 'k');
    } else if d == 21 {
        assert(b36_char(21) == 'l');
    } else if d == 22 {
        assert(b36_char(22) == 'm');
    } else if d == 23 {
        assert(b36_char(23) == 'n');
    } else if d == 24 {
        assert(b36_char(24) == 'o');
    } else if d == 25 {
        assert(b36_char(25) == 'p');
    } else if d == 26 {
        assert(b36_char(26) == 'q');
    } else if d == 27 {
        assert(b36_char(27) == 'r');
    } else if d == 28 {
        assert(b36_char(28) == 's');
    } else if d == 29 {
        assert(b36_char(29) == 't');
    } else if d == 30 {
        assert(b36_char(30) == 'u');
    } else if d == 31 {
        assert(b36_char(31) == 'v');
    } else if d == 32 {
        assert(b36_char(32) == 'w');
    } else if d == 33 {
        assert(b36_char(33) == 'x');
    } else if d == 34 {
        assert(b36_char(34) == 'y');
    } else if d == 35 {
        assert(b36_char(35) == 'z');
    }
}

/// Base36 representation, most significant digit first; zero is `"0"`.
pub open spec fn base36_str(v: nat) -> Seq<char>
    decreases v,
{
    if v < 36 {
        seq![b36_char(v)]
    } else {
        base36_str(v / 36).push(b36_char(v % 36))
    }
}

pub proof fn lemma_base36_str_chars(v: nat)
    ensures
        base36_str(v).len() >= 1,
        all_base36(base36_str(v)),
    decreases v,
{
    if v < 36 {
        lemma_b36_char_base36(v);
    } else {
        lemma_base36_str_chars(v / 36);
        lemma_b36_char_base36(v % 36);
        assert(base36_str(v) =~= base36_str(v / 36).push(b36_char(v % 36)));
    }
}

/// The exec character for a base36 digit value.
fn b36_to_char(d: u64) -> (r: char)
    requires
        d < 36,
    ensures
        r == b36_char(d as nat),
{
    if d < 10 {
        digit_to_char(d as u32)
    } else {
        ((87 + d) as u8) as char
    }
}

/// Encode a `u64` in lowercase base36.
pub fn base36_encode(value: u64) -> (r: String)
    ensures
        r@ == base36_str(value as nat),
{
    let mut v: u64 = value;
    let mut digits: Vec<char> = Vec::new();
    while v >= 36
        invariant
            base36_str(value as nat) =~= base36_str(v as nat) + digits@.reverse(),
        decreases v,
    {
        let d = v % 36;
        let c = b36_to_char(d);
        digits.push(c);
        proof {
            assert(base36_str(v as nat) =~= base36_str((v / 36) as nat).push(
                b36_char((v % 36) as nat),
            ));
            assert(digits@.reverse() =~= seq![c] + digits@.drop_last().reverse());
            assert(base36_str((v / 36) as nat) + digits@.reverse() =~= base36_str(v as nat)
                + digits@.drop_last().reverse());
        }
        v = v / 36;
    }
    let c = b36_to_char(v);
    let mut r = String::new();
    push_char(&mut r, c);
    proof {
        assert(base36_str(v as nat) =~= seq![c]);
    }
    let k = digits.len();
    let mut i: usize = 0;
    while i < k
        invariant
            k == digits@.len(),
            0 <= i <= k,
            r@ =~= base36_str(v as nat) + digits@.reverse().take(i as int),
            base36_str(value as nat) =~= base36_str(v as nat) + digits@.reverse(),
        decreases k - i,
    {
        let c2 = digits[k - 1 - i];
        push_char(&mut r, c2);
        proof {
            assert(digits@.reverse().take(i + 1) =~= digits@.reverse().take(i as int).push(
                digits@[k - 1 - i],
            ));
        }
        i = i + 1;
    }
    proof {
        assert(digits@.reverse().take(k as int) =~= digits@.reverse());
        assert(r@ =~= base36_str(value as nat));
    }
    r
}

/// The hash string of a digest value at a requested length: the base36
/// encoding truncated to `len` characters, or left-padded with `'0'`.
pub open spec fn hash_str(v: u64, len: nat) -> Seq<char> {
    let e = base36_str(v as nat);
    if e.len() >= len {
        e.take(len as int)
    } else {
        Seq::new((len - e.len()) as nat, |i: int| '0') + e
    }
}

pub proof fn lemma_hash_str_wf(v: u64, len: nat)
    ensures
        hash_str(v, len).len() == len,
        all_base36(hash_str(v, len)),
{
    lemma_base36_str_chars(v as nat);
    let e = base36_str(v as nat);
    if e.len() < len {
        let pad = Seq::new((len - e.len()) as nat, |i: int| '0');
        assert(forall|i: int| 0 <= i < pad.len() ==> is_base36_char(#[trigger] pad[i]));
        assert(forall|i: int|
            0 <= i < hash_str(v, len).len() ==> is_base36_char(#[trigger] hash_str(v, len)[i]));
    }
}

/// Compute a base36 hash of the input, truncated or zero-padded to `length`
/// characters.
pub fn hash(input: &[u8], length: usize) -> (r: String)
    ensures
        r@ == hash_str(digest64_of(input@), length as nat),
        r@.len() == length,
        all_base36(r@),
{
    let h = compute_hash(input);
    let encoded = base36_encode(h);
    let el = encoded.as_str().unicode_len();
    proof {
        lemma_hash_str_wf(h, length as nat);
    }
    if el >= length {
        let t = encoded.as_str().substring_char(0, length);
        proof {
            assert(t@ =~= hash_str(h, length as nat));
        }
        t.to_owned()
    } else {
        let mut r = String::new();
        let pad = length - el;
        let mut i: usize = 0;
        while i < pad
            invariant
                0 <= i <= pad,
                r@ =~= Seq::new(i as nat, |j: int| '0'),
            decreases pad - i,
        {
            push_char(&mut r, '0');
            proof {
                assert(r@ =~= Seq::new((i + 1) as nat, |j: int| '0'));
            }
            i = i + 1;
        }
        let mut r2 = r;
        r2.append(encoded.as_str());
        proof {
            assert(r2@ =~= hash_str(h, length as nat));
        }
        r2
    }
}


/// Determinism: two hash results for the same seed bytes and length are
/// the same string, because the digest is a function of the bytes alone.
pub proof fn lemma_hash_deterministic(a: Seq<char>, b: Seq<char>, input: Seq<u8>, len: nat)
    requires
        a == hash_str(digest64_of(input), len),
        b == hash_str(digest64_of(input), len),
    ensures
        a == b,
{
}

} // verus!
