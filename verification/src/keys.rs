//! Byte-string keys of the postings stores.
//!
//! A postings key is `word_bytes ++ 0x00 ++ be16(position)`. The zero
//! separator assumes that a word never contains a null byte; this is a
//! documented precondition of the whole component, not enforced here.

use vstd::prelude::*;

verus! {

/// Largest key length, in bytes, that the backing store accepts.
pub const MAX_KEY_LENGTH: usize = 511;

/// A key is storable when it is non-empty and within the store's size bound.
pub open spec fn spec_valid_key(k: Seq<u8>) -> bool {
    1 <= k.len() <= MAX_KEY_LENGTH
}

/// Store-level validity guard: rows whose key fails it are silently dropped.
pub fn valid_key(k: &Vec<u8>) -> (r: bool)
    ensures
        r == spec_valid_key(k@),
{
    1 <= k.len() && k.len() <= MAX_KEY_LENGTH
}

/// `p` is a byte-level prefix of `w`.
pub open spec fn is_prefix_of(p: Seq<u8>, w: Seq<u8>) -> bool {
    p.len() <= w.len() && w.subrange(0, p.len() as int) == p
}

/// Whether `w` starts with `p`, byte for byte.
pub fn starts_with(w: &Vec<u8>, p: &Vec<u8>) -> (r: bool)
    ensures
        r == is_prefix_of(p@, w@),
{
    if p.len() > w.len() {
        return false;
    }
    let mut i: usize = 0;
    while i < p.len()
        invariant
            i <= p.len() <= w.len(),
            forall|j: int| 0 <= j < i ==> w@[j] == p@[j],
        decreases p.len() - i,
    {
        if w[i] != p[i] {
            assert(w@.subrange(0, p@.len() as int)[i as int] != p@[i as int]);
            return false;
        }
        i += 1;
    }
    assert(w@.subrange(0, p@.len() as int) =~= p@);
    true
}

/// Byte-for-byte equality of two byte strings.
pub fn bytes_eq(a: &Vec<u8>, b: &Vec<u8>) -> (r: bool)
    ensures
        r == (a@ == b@),
{
    if a.len() != b.len() {
        return false;
    }
    let mut i: usize = 0;
    while i < a.len()
        invariant
            i <= a.len() == b.len(),
            forall|j: int| 0 <= j < i ==> a@[j] == b@[j],
        decreases a.len() - i,
    {
        if a[i] != b[i] {
            return false;
        }
        i += 1;
    }
    assert(a@ =~= b@);
    true
}

/// An identical copy of a byte string.
pub fn copy_bytes(v: &Vec<u8>) -> (r: Vec<u8>)
    ensures
        r@ == v@,
{
    let mut out: Vec<u8> = Vec::new();
    let mut i: usize = 0;
    while i < v.len()
        invariant
            i <= v.len(),
            out@ =~= v@.subrange(0, i as int),
        decreases v.len() - i,
    {
        out.push(v[i]);
        i += 1;
    }
    assert(out@ =~= v@);
    out
}

/// Membership of a byte string in a plain list of byte strings.
pub fn contains_bytes(set: &Vec<Vec<u8>>, k: &Vec<u8>) -> (r: bool)
    ensures
        r == set.deep_view().contains(k@),
{
    let mut i: usize = 0;
    while i < set.len()
        invariant
            i <= set.len(),
            forall|j: int| 0 <= j < i ==> set.deep_view()[j] != k@,
        decreases set.len() - i,
    {
        assert(set.deep_view()[i as int] == set@[i as int]@);
        if bytes_eq(&set[i], k) {
            return true;
        }
        i += 1;
    }
    assert(forall|j: int| 0 <= j < set.deep_view().len() ==> set.deep_view()[j] != k@);
    false
}

/// The encoded form of a (word, position) pair.
pub open spec fn spec_encode_key(word: Seq<u8>, pos: u16) -> Seq<u8> {
    word + seq![0u8] + seq![(pos / 256) as u8, (pos % 256) as u8]
}

/// Encode a (word, position) pair as `word ++ 0x00 ++ be16(position)`.
pub fn encode_key(word: &Vec<u8>, pos: u16) -> (r: Vec<u8>)
    ensures
        r@ == spec_encode_key(word@, pos),
{
    let mut out: Vec<u8> = Vec::new();
    let mut i: usize = 0;
    while i < word.len()
        invariant
            i <= word.len(),
            out@ =~= word@.subrange(0, i as int),
        decreases word.len() - i,
    {
        out.push(word[i]);
        i += 1;
    }
    assert(out@ =~= word@);
    out.push(0u8);
    out.push((pos / 256) as u8);
    out.push((pos % 256) as u8);
    assert(out@ =~= spec_encode_key(word@, pos));
    out
}

/// A raw key is decodable when it is long enough to hold the separator and
/// the two position bytes.
pub open spec fn spec_decodable(k: Seq<u8>) -> bool {
    k.len() >= 3
}

/// The word component of a decodable raw key.
pub open spec fn spec_decoded_word(k: Seq<u8>) -> Seq<u8> {
    k.subrange(0, k.len() - 3)
}

/// The position component of a decodable raw key.
pub open spec fn spec_decoded_pos(k: Seq<u8>) -> u16 {
    ((k[k.len() - 2] as int) * 256 + (k[k.len() - 1] as int)) as u16
}

/// Decode a raw key into its (word, position) pair. Mirrors the store codec:
/// the key must be at least three bytes; the byte before the two big-endian
/// position bytes is the separator and is not re-checked.
pub fn decode_key(k: &Vec<u8>) -> (r: Option<(Vec<u8>, u16)>)
    ensures
        match r {
            Some(wp) => spec_decodable(k@) && wp.0@ == spec_decoded_word(k@) && wp.1
                == spec_decoded_pos(k@),
            None => !spec_decodable(k@),
        },
{
    if k.len() < 3 {
        return None;
    }
    let n = k.len();
    let mut w: Vec<u8> = Vec::new();
    let mut i: usize = 0;
    while i < n - 3
        invariant
            n == k.len(),
            n >= 3,
            i <= n - 3,
            w@ =~= k@.subrange(0, i as int),
        decreases n - 3 - i,
    {
        w.push(k[i]);
        i += 1;
    }
    assert(w@ =~= spec_decoded_word(k@));
    let hi = k[n - 2];
    let lo = k[n - 1];
    let pos: u16 = (hi as u16) * 256 + (lo as u16);
    Some((w, pos))
}

/// Encoding then decoding a key gives back the word and the position.
pub proof fn lemma_decode_encode(word: Seq<u8>, pos: u16)
    ensures
        spec_decodable(spec_encode_key(word, pos)),
        spec_decoded_word(spec_encode_key(word, pos)) == word,
        spec_decoded_pos(spec_encode_key(word, pos)) == pos,
{
    let k = spec_encode_key(word, pos);
    assert(k.len() == word.len() + 3);
    assert(spec_decoded_word(k) =~= word);
    assert(k[k.len() - 2] == (pos / 256) as u8);
    assert(k[k.len() - 1] == (pos % 256) as u8);
    assert(pos / 256 * 256 + pos % 256 == pos) by (nonlinear_arith);
}

/// The encoding is injective: equal encoded keys come from the same word and
/// the same position.
pub proof fn lemma_encode_injective(w1: Seq<u8>, p1: u16, w2: Seq<u8>, p2: u16)
    requires
        spec_encode_key(w1, p1) == spec_encode_key(w2, p2),
    ensures
        w1 == w2,
        p1 == p2,
{
    lemma_decode_encode(w1, p1);
    lemma_decode_encode(w2, p2);
}

/// Being-a-prefix is transitive.
pub proof fn lemma_prefix_transitive(a: Seq<u8>, b: Seq<u8>, c: Seq<u8>)
    requires
        is_prefix_of(a, b),
        is_prefix_of(b, c),
    ensures
        is_prefix_of(a, c),
{
    assert forall|i: int| 0 <= i < a.len() implies c.subrange(0, a.len() as int)[i] == a[i] by {
        assert(b.subrange(0, a.len() as int)[i] == a[i]);
        assert(c.subrange(0, b.len() as int)[i] == b[i]);
    }
    assert(c.subrange(0, a.len() as int) =~= a);
}

/// The word component of a decodable key is a byte-level prefix of the key.
pub proof fn lemma_decoded_word_prefix(k: Seq<u8>)
    requires
        spec_decodable(k),
    ensures
        is_prefix_of(spec_decoded_word(k), k),
{
    assert(k.subrange(0, spec_decoded_word(k).len() as int) =~= spec_decoded_word(k));
}

/// Two byte-level prefixes of one word are comparable: the shorter is a
/// prefix of the longer.
pub proof fn lemma_prefix_comparable(a: Seq<u8>, b: Seq<u8>, w: Seq<u8>)
    requires
        is_prefix_of(a, w),
        is_prefix_of(b, w),
        a.len() <= b.len(),
    ensures
        is_prefix_of(a, b),
{
    assert forall|i: int| 0 <= i < a.len() implies b.subrange(0, a.len() as int)[i] == a[i] by {
        assert(w.subrange(0, a.len() as int)[i] == a[i]);
        assert(w.subrange(0, b.len() as int)[i] == b[i]);
    }
    assert(b.subrange(0, a.len() as int) =~= a);
}

} // verus!
