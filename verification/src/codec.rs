//! The key/value encoding discipline of the index: every logical record is a
//! byte key and a byte value. Keys are fixed-width big-endian scalars (or a
//! string label, or a `(doc_id, token_id)` tuple); set-valued payloads are a
//! length-prefixed sequence of fixed-width ids.

use vstd::prelude::*;

verus! {

use vstd::slice::slice_subrange;

/// Big-endian bytes of a `u64`, most significant byte first.
pub open spec fn spec_enc_u64(x: u64) -> Seq<u8> {
    seq![
        (x >> 56) as u8,
        (x >> 48) as u8,
        (x >> 40) as u8,
        (x >> 32) as u8,
        (x >> 24) as u8,
        (x >> 16) as u8,
        (x >> 8) as u8,
        x as u8,
    ]
}

/// The `u64` whose big-endian bytes are `b` (meaningful when `b.len() == 8`).
pub open spec fn spec_word_of(b: Seq<u8>) -> u64
    recommends
        b.len() == 8,
{
    (((b[0] as u64) << 56) | ((b[1] as u64) << 48) | ((b[2] as u64) << 40) | ((b[3] as u64) << 32)
        | ((b[4] as u64) << 24) | ((b[5] as u64) << 16) | ((b[6] as u64) << 8) | (b[7] as u64)) as u64
}

pub open spec fn spec_dec_u64(b: Seq<u8>) -> Option<u64> {
    if b.len() == 8 {
        Some(spec_word_of(b))
    } else {
        None
    }
}

pub open spec fn spec_enc_i64(x: i64) -> Seq<u8> {
    spec_enc_u64(x as u64)
}

pub open spec fn spec_dec_i64(b: Seq<u8>) -> Option<i64> {
    match spec_dec_u64(b) {
        Some(w) => Some(w as i64),
        None => None,
    }
}

/// Decoding the big-endian bytes of a `u64` gives the number back.
pub proof fn lemma_u64_round_trip(x: u64)
    ensures
        spec_dec_u64(spec_enc_u64(x)) == Some(x),
{
    assert((((((x >> 56) as u8) as u64) << 56) | ((((x >> 48) as u8) as u64) << 48)
        | ((((x >> 40) as u8) as u64) << 40) | ((((x >> 32) as u8) as u64) << 32)
        | ((((x >> 24) as u8) as u64) << 24) | ((((x >> 16) as u8) as u64) << 16)
        | ((((x >> 8) as u8) as u64) << 8) | ((x as u8) as u64)) == x) by (bit_vector);
}

/// Decoding the big-endian bytes of an `i64` gives the number back.
pub proof fn lemma_i64_round_trip(x: i64)
    ensures
        spec_dec_i64(spec_enc_i64(x)) == Some(x),
{
    lemma_u64_round_trip(x as u64);
    assert(((x as u64) as i64) == x) by (bit_vector);
}

pub fn encode_u64(x: u64) -> (r: Vec<u8>)
    ensures
        r@ == spec_enc_u64(x),
{
    let mut r: Vec<u8> = Vec::new();
    r.push((x >> 56) as u8);
    r.push((x >> 48) as u8);
    r.push((x >> 40) as u8);
    r.push((x >> 32) as u8);
    r.push((x >> 24) as u8);
    r.push((x >> 16) as u8);
    r.push((x >> 8) as u8);
    r.push(x as u8);
    proof {
        assert(r@ =~= spec_enc_u64(x));
    }
    r
}

pub fn decode_u64(b: &[u8]) -> (r: Option<u64>)
    ensures
        r == spec_dec_u64(b@),
{
    if b.len() != 8 {
        return None;
    }
    let w = ((b[0] as u64) << 56) | ((b[1] as u64) << 48) | ((b[2] as u64) << 40)
        | ((b[3] as u64) << 32) | ((b[4] as u64) << 24) | ((b[5] as u64) << 16)
        | ((b[6] as u64) << 8) | (b[7] as u64);
    Some(w)
}

pub fn encode_i64(x: i64) -> (r: Vec<u8>)
    ensures
        r@ == spec_enc_i64(x),
{
    encode_u64(x as u64)
}

pub fn decode_i64(b: &[u8]) -> (r: Option<i64>)
    ensures
        r == spec_dec_i64(b@),
{
    match decode_u64(b) {
        Some(w) => Some(w as i64),
        None => None,
    }
}

/// Tuple key for a term-frequency record: the document id followed by the
/// token id, each fixed-width big-endian.
pub open spec fn spec_enc_pair(doc: u64, tok: i64) -> Seq<u8> {
    spec_enc_u64(doc) + spec_enc_i64(tok)
}

pub open spec fn spec_dec_pair(b: Seq<u8>) -> Option<(u64, i64)> {
    if b.len() == 16 {
        match (spec_dec_u64(b.subrange(0, 8)), spec_dec_i64(b.subrange(8, 16))) {
            (Some(d), Some(t)) => Some((d, t)),
            _ => None,
        }
    } else {
        None
    }
}

/// Decoding an encoded `(doc_id, token_id)` key gives the pair back.
pub proof fn lemma_pair_round_trip(doc: u64, tok: i64)
    ensures
        spec_dec_pair(spec_enc_pair(doc, tok)) == Some((doc, tok)),
{
    let b = spec_enc_pair(doc, tok);
    assert(b.subrange(0, 8) =~= spec_enc_u64(doc));
    assert(b.subrange(8, 16) =~= spec_enc_i64(tok));
    lemma_u64_round_trip(doc);
    lemma_i64_round_trip(tok);
}

pub fn encode_pair(doc: u64, tok: i64) -> (r: Vec<u8>)
    ensures
        r@ == spec_enc_pair(doc, tok),
{
    let mut r = encode_u64(doc);
    let mut t = encode_i64(tok);
    r.append(&mut t);
    r
}

pub fn decode_pair(b: &[u8]) -> (r: Option<(u64, i64)>)
    ensures
        r == spec_dec_pair(b@),
{
    if b.len() != 16 {
        return None;
    }
    let hi = slice_subrange(b, 0, 8);
    let lo = slice_subrange(b, 8, 16);
    match (decode_u64(hi), decode_i64(lo)) {
        (Some(d), Some(t)) => Some((d, t)),
        _ => None,
    }
}

/// The ids of a set-valued record, one after the other, big-endian.
pub open spec fn spec_enc_u64s(s: Seq<u64>) -> Seq<u8>
    decreases s.len(),
{
    if s.len() == 0 {
        Seq::empty()
    } else {
        spec_enc_u64(s[0]) + spec_enc_u64s(s.drop_first())
    }
}

/// A set-valued record: the element count, then each id, all fixed-width.
pub open spec fn spec_enc_u64_list(s: Seq<u64>) -> Seq<u8> {
    spec_enc_u64(s.len() as u64) + spec_enc_u64s(s)
}

pub open spec fn spec_dec_u64_list(b: Seq<u8>) -> Option<Seq<u64>> {
    if b.len() < 8 {
        None
    } else {
        let n = spec_word_of(b.subrange(0, 8));
        if b.len() != 8 + 8 * n {
            None
        } else {
            Some(Seq::new(n as nat, |i: int| spec_word_of(b.subrange(8 + 8 * i, 16 + 8 * i))))
        }
    }
}

pub proof fn lemma_enc_u64s_len(s: Seq<u64>)
    ensures
        spec_enc_u64s(s).len() == 8 * s.len(),
    decreases s.len(),
{
    if s.len() > 0 {
        lemma_enc_u64s_len(s.drop_first());
    }
}

pub proof fn lemma_enc_u64s_index(s: Seq<u64>, i: int)
    requires
        0 <= i < s.len(),
    ensures
        spec_enc_u64s(s).subrange(8 * i, 8 * i + 8) =~= spec_enc_u64(s[i]),
    decreases i,
{
    lemma_enc_u64s_len(s);
    lemma_enc_u64s_len(s.drop_first());
    if i == 0 {
        assert(spec_enc_u64s(s).subrange(0, 8) =~= spec_enc_u64(s[0]));
    } else {
        lemma_enc_u64s_index(s.drop_first(), i - 1);
        assert(spec_enc_u64s(s).subrange(8 * i, 8 * i + 8) =~= spec_enc_u64s(
            s.drop_first(),
        ).subrange(8 * (i - 1), 8 * (i - 1) + 8));
    }
}

/// Decoding an encoded id sequence gives the sequence back.
pub proof fn lemma_u64_list_round_trip(s: Seq<u64>)
    requires
        s.len() <= u64::MAX,
    ensures
        spec_dec_u64_list(spec_enc_u64_list(s)) == Some(s),
{
    let b = spec_enc_u64_list(s);
    lemma_enc_u64s_len(s);
    assert(b.subrange(0, 8) =~= spec_enc_u64(s.len() as u64));
    lemma_u64_round_trip(s.len() as u64);
    let n = spec_word_of(b.subrange(0, 8));
    assert(n == s.len());
    let d = Seq::new(n as nat, |i: int| spec_word_of(b.subrange(8 + 8 * i, 16 + 8 * i)));
    assert forall|i: int| 0 <= i < s.len() implies d[i] == s[i] by {
        assert(b.subrange(8 + 8 * i, 16 + 8 * i) =~= spec_enc_u64s(s).subrange(8 * i, 8 * i + 8));
        lemma_enc_u64s_index(s, i);
        lemma_u64_round_trip(s[i]);
    }
    assert(d =~= s);
}

pub fn encode_u64_list(v: &Vec<u64>) -> (r: Vec<u8>)
    ensures
        r@ == spec_enc_u64_list(v@),
{
    let mut r = encode_u64(v.len() as u64);
    let n = v.len();
    for i in 0..n
        invariant
            n == v@.len(),
            r@ == spec_enc_u64(v@.len() as u64) + spec_enc_u64s(v@.take(i as int)),
    {
        let mut e = encode_u64(v[i]);
        r.append(&mut e);
        proof {
            lemma_enc_u64s_push(v@.take(i as int), v@[i as int]);
            assert(v@.take(i + 1) =~= v@.take(i as int).push(v@[i as int]));
        }
    }
    proof {
        assert(v@.take(n as int) =~= v@);
    }
    r
}

pub proof fn lemma_enc_u64s_push(s: Seq<u64>, x: u64)
    ensures
        spec_enc_u64s(s.push(x)) =~= spec_enc_u64s(s) + spec_enc_u64(x),
    decreases s.len(),
{
    if s.len() == 0 {
        assert(s.push(x).drop_first() =~= Seq::<u64>::empty());
        assert(s.push(x)[0] == x);
        assert(spec_enc_u64s(s.push(x)) =~= spec_enc_u64(x) + spec_enc_u64s(Seq::<u64>::empty()));
        assert(spec_enc_u64(x) + spec_enc_u64s(Seq::<u64>::empty()) =~= spec_enc_u64s(s)
            + spec_enc_u64(x));
    } else {
        assert(s.push(x).drop_first() =~= s.drop_first().push(x));
        assert(s.push(x)[0] == s[0]);
        lemma_enc_u64s_push(s.drop_first(), x);
        assert(spec_enc_u64s(s.push(x)) =~= spec_enc_u64(s[0]) + (spec_enc_u64s(s.drop_first())
            + spec_enc_u64(x)));
        assert(spec_enc_u64(s[0]) + (spec_enc_u64s(s.drop_first()) + spec_enc_u64(x)) =~= (
        spec_enc_u64(s[0]) + spec_enc_u64s(s.drop_first())) + spec_enc_u64(x));
    }
}

/// A token-id record: the same layout, each id read as an `i64`.
pub open spec fn spec_enc_i64_list(s: Seq<i64>) -> Seq<u8> {
    spec_enc_u64_list(s.map_values(|x: i64| x as u64))
}

pub open spec fn spec_dec_i64_list(b: Seq<u8>) -> Option<Seq<i64>> {
    match spec_dec_u64_list(b) {
        Some(s) => Some(s.map_values(|w: u64| w as i64)),
        None => None,
    }
}

/// Decoding an encoded token-id sequence gives the sequence back.
pub proof fn lemma_i64_list_round_trip(s: Seq<i64>)
    requires
        s.len() <= u64::MAX,
    ensures
        spec_dec_i64_list(spec_enc_i64_list(s)) == Some(s),
{
    let w = s.map_values(|x: i64| x as u64);
    lemma_u64_list_round_trip(w);
    assert forall|i: int| 0 <= i < s.len() implies w.map_values(|w: u64| w as i64)[i] == s[i] by {
        let x = s[i];
        assert(((x as u64) as i64) == x) by (bit_vector);
    }
    assert(w.map_values(|w: u64| w as i64) =~= s);
}

pub fn encode_i64_list(v: &Vec<i64>) -> (r: Vec<u8>)
    ensures
        r@ == spec_enc_i64_list(v@),
{
    let mut w: Vec<u64> = Vec::new();
    let n = v.len();
    for i in 0..n
        invariant
            n == v@.len(),
            w@ =~= v@.take(i as int).map_values(|x: i64| x as u64),
    {
        w.push(v[i] as u64);
        proof {
            assert(w@ =~= v@.take(i + 1).map_values(|x: i64| x as u64));
        }
    }
    proof {
        assert(v@.take(n as int) =~= v@);
    }
    encode_u64_list(&w)
}

pub fn decode_i64_list(b: &[u8]) -> (r: Option<Vec<i64>>)
    ensures
        match r {
            Some(v) => spec_dec_i64_list(b@) == Some(v@),
            None => spec_dec_i64_list(b@) is None,
        },
{
    let w = match decode_u64_list(b) {
        Some(w) => w,
        None => {
            return None;
        },
    };
    let mut v: Vec<i64> = Vec::new();
    let n = w.len();
    for i in 0..n
        invariant
            n == w@.len(),
            v@ =~= w@.take(i as int).map_values(|x: u64| x as i64),
    {
        v.push(w[i] as i64);
        proof {
            assert(v@ =~= w@.take(i + 1).map_values(|x: u64| x as i64));
        }
    }
    proof {
        assert(w@.take(n as int) =~= w@);
    }
    Some(v)
}

pub fn decode_u64_list(b: &[u8]) -> (r: Option<Vec<u64>>)
    ensures
        match r {
            Some(v) => spec_dec_u64_list(b@) == Some(v@),
            None => spec_dec_u64_list(b@) is None,
        },
{
    if b.len() < 8 {
        return None;
    }
    let head = slice_subrange(b, 0, 8);
    let n = match decode_u64(head) {
        Some(n) => n,
        None => {
            return None;
        },
    };
    if n > (usize::MAX - 8) as u64 / 8 {
        // The record would be longer than any slice can be.
        return None;
    }
    let n = n as usize;
    if b.len() != 8 + 8 * n {
        return None;
    }
    let ghost expected = Seq::new(
        n as nat,
        |i: int| spec_word_of(b@.subrange(8 + 8 * i, 16 + 8 * i)),
    );
    let mut v: Vec<u64> = Vec::new();
    for i in 0..n
        invariant
            8 + 8 * (n as int) <= usize::MAX,
            b@.len() == 8 + 8 * n,
            expected == Seq::new(
                n as nat,
                |i: int| spec_word_of(b@.subrange(8 + 8 * i, 16 + 8 * i)),
            ),
            v@ =~= expected.take(i as int),
    {
        let chunk = slice_subrange(b, 8 + 8 * i, 16 + 8 * i);
        let w = match decode_u64(chunk) {
            Some(w) => w,
            None => {
                proof {
                    assert(chunk@.len() == 8);
                }
                return None;
            },
        };
        v.push(w);
        proof {
            assert(v@ =~= expected.take(i + 1));
        }
    }
    proof {
        assert(expected.take(n as int) =~= expected);
    }
    Some(v)
}

} // verus!
