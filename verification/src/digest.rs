//! The canonical content identifier: a lowercase-hex hash string paired with
//! the exact byte length of the content.  Canonical textual form is
//! `"<hash>:<size>"`; parsing accepts exactly the strings of that shape —
//! one or more hex digits, a colon, one or more decimal digits — and any
//! deviation is rejected.

use vstd::prelude::*;
use crate::error::OryxError;
use crate::num::{
    dec_str, dec_str_i64, dec_val, digit_val, is_digit_char, i64_to_dec,
    lemma_dec_str_digits, lemma_dec_val_of_dec_str, lemma_dec_val_prefix_monotone,
};

verus! {

/// A lowercase hexadecimal digit `'0'..='9' | 'a'..='f'`.
pub open spec fn is_hex_char(c: char) -> bool {
    (48 <= c as u32 && c as u32 <= 57) || (97 <= c as u32 && c as u32 <= 102)
}

/// End of the maximal run of hexadecimal characters starting at `i`.
pub open spec fn hex_run_end(s: Seq<char>, i: int) -> int
    decreases s.len() - i
        when 0 <= i <= s.len()
{
    if i < s.len() && is_hex_char(s[i]) {
        hex_run_end(s, i + 1)
    } else {
        i
    }
}

/// End of the maximal run of decimal digits starting at `i`.
pub open spec fn digit_run_end(s: Seq<char>, i: int) -> int
    decreases s.len() - i
        when 0 <= i <= s.len()
{
    if i < s.len() && is_digit_char(s[i]) {
        digit_run_end(s, i + 1)
    } else {
        i
    }
}

/// What parsing a digest string yields: the string must consist, in its
/// entirety, of one or more hex digits, then a colon, then one or more
/// decimal digits read as the size — or nothing when the input deviates
/// from that shape or the size overflows a 64-bit signed integer.
pub open spec fn spec_parse(s: Seq<char>) -> Option<DigestView> {
    let e = hex_run_end(s, 0);
    if 1 <= e && e < s.len() && s[e] == ':' && e + 1 < s.len() && digit_run_end(s, e + 1)
        == s.len() {
        let v = dec_val(s.subrange(e + 1, s.len() as int));
        if v <= i64::MAX as int {
            Some(DigestView { hash: s.subrange(0, e), size_bytes: v })
        } else {
            None
        }
    } else {
        None
    }
}

/// The canonical textual form `"<hash>:<size>"`.
pub open spec fn spec_text(v: DigestView) -> Seq<char> {
    v.hash + seq![':'] + dec_str_i64(v.size_bytes)
}

/// A well-formed digest value: a nonempty lowercase-hex hash and a
/// representable, non-negative size.
pub open spec fn digest_valid(v: DigestView) -> bool {
    &&& v.hash.len() > 0
    &&& forall|i: int| 0 <= i < v.hash.len() ==> is_hex_char(#[trigger] v.hash[i])
    &&& 0 <= v.size_bytes <= i64::MAX as int
}

pub proof fn lemma_digit_run_end_bounds(s: Seq<char>, i: int)
    requires
        0 <= i <= s.len(),
    ensures
        i <= digit_run_end(s, i) <= s.len(),
        forall|k: int| i <= k < digit_run_end(s, i) ==> is_digit_char(#[trigger] s[k]),
        digit_run_end(s, i) == s.len() || !is_digit_char(s[digit_run_end(s, i)]),
    decreases s.len() - i,
{
    if i < s.len() && is_digit_char(s[i]) {
        lemma_digit_run_end_bounds(s, i + 1);
    }
}

/// A hex run bounded on the right by a non-hex position ends exactly there.
proof fn lemma_hex_run_end_exact(s: Seq<char>, i: int, m: int)
    requires
        0 <= i <= m <= s.len(),
        forall|k: int| i <= k < m ==> is_hex_char(#[trigger] s[k]),
        m == s.len() || !is_hex_char(s[m]),
    ensures
        hex_run_end(s, i) == m,
    decreases m - i,
{
    if i < m {
        lemma_hex_run_end_exact(s, i + 1, m);
    }
}

proof fn lemma_digit_run_end_exact(s: Seq<char>, i: int, m: int)
    requires
        0 <= i <= m <= s.len(),
        forall|k: int| i <= k < m ==> is_digit_char(#[trigger] s[k]),
        m == s.len() || !is_digit_char(s[m]),
    ensures
        digit_run_end(s, i) == m,
    decreases m - i,
{
    if i < m {
        lemma_digit_run_end_exact(s, i + 1, m);
    }
}

/// Mathematical value of a [`Digest`]: the hash as a character sequence and
/// the size as an unbounded integer.
pub ghost struct DigestView {
    pub hash: Seq<char>,
    pub size_bytes: int,
}

/// Identifier of content in the store: a lowercase hexadecimal hash string
/// and the exact uncompressed byte length of the content.
#[derive(Debug)]
pub struct Digest {
    hash: String,
    size_bytes: i64,
}

impl View for Digest {
    type V = DigestView;

    closed spec fn view(&self) -> DigestView {
        DigestView { hash: self.hash@, size_bytes: self.size_bytes as int }
    }
}

impl Digest {
    /// Builds a digest directly from its two fields, without validation;
    /// mirrors what arrives on the wire as a digest message.
    pub fn new(hash: String, size_bytes: i64) -> (d: Digest)
        ensures
            d@.hash == hash@,
            d@.size_bytes == size_bytes as int,
    {
        Digest { hash, size_bytes }
    }

    pub fn hash(&self) -> (h: &str)
        ensures
            h@ == self@.hash,
    {
        self.hash.as_str()
    }

    pub fn size_bytes(&self) -> (s: i64)
        ensures
            s as int == self@.size_bytes,
    {
        self.size_bytes
    }
}

/// Decides [`is_hex_char`] on a concrete character.
pub fn is_hex(c: char) -> (r: bool)
    ensures
        r == is_hex_char(c),
{
    let u = c as u32;
    (48 <= u && u <= 57) || (97 <= u && u <= 102)
}

impl Digest {
    /// Canonical textual form `"<hash>:<size>"`.
    pub fn to_text(&self) -> (r: String)
        ensures
            r@ == spec_text(self@),
    {
        proof {
            reveal_strlit(":");
        }
        let mut s = self.hash.clone();
        s.append(":");
        let size_text = i64_to_dec(self.size_bytes);
        s.append(size_text.as_str());
        proof {
            assert(s@ =~= spec_text(self@));
        }
        s
    }

    /// Validated construction from text: the whole input must be one or
    /// more hex digits, a colon, and one or more decimal digits; any
    /// deviation, or a size that overflows, is rejected.
    pub fn from_str(s: &str) -> (r: Result<Digest, OryxError>)
        ensures
            match r {
                Ok(d) => spec_parse(s@) == Some(d@),
                Err(e) => spec_parse(s@) is None && (e matches OryxError::InvalidDigest(t)
                    && t@ == s@),
            },
    {
        let len = s.unicode_len();
        // Walk to the end of the maximal hex run from the start.
        let mut e: usize = 0;
        while e < len && is_hex(s.get_char(e))
            invariant
                len == s@.len(),
                0 <= e <= len,
                forall|k: int| 0 <= k < e ==> is_hex_char(#[trigger] s@[k]),
                hex_run_end(s@, 0) == hex_run_end(s@, e as int),
            decreases len - e,
        {
            e = e + 1;
        }
        proof {
            assert(hex_run_end(s@, 0) == e as int);
        }
        if !(e >= 1 && e < len && s.get_char(e) == ':' && e + 1 < len) {
            return Err(OryxError::InvalidDigest(s.to_owned()));
        }
        // The digits must cover the rest of the input.
        let mut j = e + 1;
        let mut acc: i64 = 0;
        proof {
            assert(s@.subrange(e + 1, j as int) =~= Seq::<char>::empty());
        }
        while j < len
            invariant
                len == s@.len(),
                1 <= e < len,
                s@[e as int] == ':',
                e + 1 < len,
                hex_run_end(s@, 0) == e as int,
                e + 1 <= j <= len,
                forall|k: int| e + 1 <= k < j ==> is_digit_char(#[trigger] s@[k]),
                0 <= acc,
                acc as int == dec_val(s@.subrange(e + 1, j as int)),
            decreases len - j,
        {
            let c = s.get_char(j);
            if !crate::num::is_digit(c) {
                // A non-digit before the end: the input deviates.
                proof {
                    lemma_digit_run_end_exact(s@, e + 1, j as int);
                }
                return Err(OryxError::InvalidDigest(s.to_owned()));
            }
            let d = (c as u32 - 48) as i64;
            if acc > (i64::MAX - d) / 10 {
                // Whatever follows, the full digit run is larger still.
                proof {
                    let part = s@.subrange(e + 1, j + 1);
                    assert(part.drop_last() =~= s@.subrange(e + 1, j as int));
                    assert(part.last() == c);
                    assert(dec_val(part) == acc as int * 10 + digit_val(c));
                    assert(digit_val(c) <= 9);
                    assert(10 * ((i64::MAX as int - digit_val(c)) / 10) >= i64::MAX as int
                        - digit_val(c) - 9);
                    assert(dec_val(part) > i64::MAX as int);
                    if digit_run_end(s@, e + 1) == s@.len() {
                        lemma_digit_run_end_bounds(s@, e + 1);
                        let run = s@.subrange(e + 1, len as int);
                        assert(forall|k: int|
                            0 <= k < run.len() ==> is_digit_char(#[trigger] run[k]));
                        assert(part =~= run.subrange(0, j + 1 - (e + 1)));
                        lemma_dec_val_prefix_monotone(run, j + 1 - (e + 1));
                        assert(dec_val(run) > i64::MAX as int);
                    }
                }
                return Err(OryxError::InvalidDigest(s.to_owned()));
            }
            acc = acc * 10 + d;
            proof {
                assert(s@.subrange(e + 1, j + 1).drop_last() =~= s@.subrange(e + 1, j as int));
            }
            j = j + 1;
        }
        proof {
            lemma_digit_run_end_exact(s@, e + 1, len as int);
        }
        let hash_str = s.substring_char(0, e);
        let hash = String::from_str(hash_str);
        Ok(Digest { hash, size_bytes: acc })
    }
}

/// Parsing the canonical textual form of a well-formed digest returns
/// exactly that digest.
pub proof fn lemma_digest_text_round_trip(v: DigestView)
    requires
        digest_valid(v),
    ensures
        spec_parse(spec_text(v)) == Some(v),
{
    let t = spec_text(v);
    let h = v.hash.len() as int;
    lemma_dec_str_digits(v.size_bytes);
    let d = dec_str(v.size_bytes);
    assert(dec_str_i64(v.size_bytes) == d);
    assert(t.len() == h + 1 + d.len());
    assert(forall|k: int| 0 <= k < h ==> t[k] == v.hash[k]);
    assert(t[h] == ':');
    assert(!is_hex_char(':'));
    assert(!is_digit_char(':'));
    assert(forall|k: int| h + 1 <= k < t.len() ==> #[trigger] t[k] == d[k - (h + 1)]);
    assert(forall|k: int| h + 1 <= k < t.len() ==> is_digit_char(#[trigger] t[k]));
    lemma_hex_run_end_exact(t, 0, h);
    lemma_digit_run_end_exact(t, h + 1, t.len() as int);
    assert(t.subrange(0, h) =~= v.hash);
    assert(t.subrange(h + 1, t.len() as int) =~= d);
    lemma_dec_val_of_dec_str(v.size_bytes);
}

impl Clone for Digest {
    fn clone(&self) -> (d: Self)
        ensures
            d@ == self@,
    {
        Digest { hash: self.hash.clone(), size_bytes: self.size_bytes }
    }
}

impl PartialEq for Digest {
    fn eq(&self, other: &Self) -> (r: bool) {
        self.hash == other.hash && self.size_bytes == other.size_bytes
    }
}

impl vstd::std_specs::cmp::PartialEqSpecImpl for Digest {
    open spec fn obeys_eq_spec() -> bool {
        true
    }

    open spec fn eq_spec(&self, other: &Self) -> bool {
        self@ == other@
    }
}

impl Eq for Digest {}

} // verus!
