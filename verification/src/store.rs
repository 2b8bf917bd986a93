//! The persistent side of the index: named partitions of an ordered byte-key
//! store (the embedded `sled` engine), written once by the build and read by
//! the query layer. Every record goes through the canonical codec.

use vstd::prelude::*;

verus! {

broadcast use vstd::seq_lib::group_seq_properties;

use crate::codec::{
    spec_enc_u64,
    spec_enc_i64,
    spec_enc_pair,
    spec_enc_u64_list,
    spec_enc_i64_list,
    spec_dec_u64,
    spec_dec_u64_list,
    encode_u64,
    encode_i64,
    encode_pair,
    encode_u64_list,
    encode_i64_list,
    decode_u64,
    decode_u64_list,
    lemma_i64_round_trip,
};
use crate::docset::DocSet;
use crate::postings::{InMemIndex, PostingMap, entry_keys};

/// The partition type of the embedded store.
#[verifier::external_type_specification]
#[verifier::external_body]
pub struct ExTree(sled::Tree);

/// The error type of the embedded store.
#[verifier::external_type_specification]
#[verifier::external_body]
pub struct ExSledError(sled::Error);

/// What a partition holds: the map from byte keys to byte values.
pub uninterp spec fn tree_entries(t: sled::Tree) -> Map<Seq<u8>, Seq<u8>>;

/// Relies on sled::Tree::get: a point read of the partition's map, `None`
/// when the key is absent.
#[verifier::external_body]
fn tree_get(t: &sled::Tree, key: &Vec<u8>) -> (r: Result<Option<Vec<u8>>, sled::Error>)
    ensures
        match r {
            Ok(Some(v)) => tree_entries(*t).contains_key(key@) && tree_entries(*t)[key@] == v@,
            Ok(None) => !tree_entries(*t).contains_key(key@),
            Err(_) => true,
        },
{
    match t.get(key.as_slice()) {
        Ok(Some(v)) => Ok(Some(v.to_vec())),
        Ok(None) => Ok(None),
        Err(e) => Err(e),
    }
}

/// Relies on sled::Tree::insert: adds or replaces one entry of the partition.
/// Nothing is claimed after an error, and the caller treats one as fatal.
#[verifier::external_body]
fn tree_insert(t: &mut sled::Tree, key: &Vec<u8>, value: &Vec<u8>) -> (r: Result<
    (),
    sled::Error,
>)
    ensures
        r is Ok ==> tree_entries(*final(t)) == tree_entries(*old(t)).insert(key@, value@),
{
    match t.insert(key.as_slice(), value.as_slice()) {
        Ok(_) => Ok(()),
        Err(e) => Err(e),
    }
}

/// What can go wrong against the store, in the taxonomy of the design: a
/// backend failure (fatal to a build), a record that does not decode, and a
/// record that had to exist but does not.
#[derive(Debug)]
pub enum StoreError {
    Backend,
    Corrupt,
    MissingRecord,
}

fn map_err(_e: sled::Error) -> (r: StoreError)
    ensures
        r is Backend,
{
    StoreError::Backend
}

/// A record batch written over a base map, later rows winning.
pub open spec fn put_all(base: Map<Seq<u8>, Seq<u8>>, recs: Seq<(Seq<u8>, Seq<u8>)>) -> Map<
    Seq<u8>,
    Seq<u8>,
>
    decreases recs.len(),
{
    if recs.len() == 0 {
        base
    } else {
        put_all(base, recs.drop_last()).insert(recs.last().0, recs.last().1)
    }
}

/// With pairwise distinct keys, a written batch reads back row by row, and
/// every other key keeps its base binding.
pub proof fn lemma_put_all_distinct(base: Map<Seq<u8>, Seq<u8>>, recs: Seq<(Seq<u8>, Seq<u8>)>)
    requires
        forall|i: int, j: int|
            0 <= i < j < recs.len() ==> (#[trigger] recs[i]).0 != (#[trigger] recs[j]).0,
    ensures
        forall|i: int|
            0 <= i < recs.len() ==> put_all(base, recs).contains_key((#[trigger] recs[i]).0)
                && put_all(base, recs)[recs[i].0] == recs[i].1,
    decreases recs.len(),
{
    if recs.len() > 0 {
        assert(forall|k: int| 0 <= k < recs.len() - 1 ==> recs.drop_last()[k] == recs[k]);
        lemma_put_all_distinct(base, recs.drop_last());
        assert forall|i: int| 0 <= i < recs.len() implies put_all(base, recs).contains_key(
            (#[trigger] recs[i]).0,
        ) && put_all(base, recs)[recs[i].0] == recs[i].1 by {
            if i < recs.len() - 1 {
                assert(recs.drop_last()[i] == recs[i]);
                assert(recs[i].0 != recs.last().0);
            }
        }
    }
}

/// A key no row of the batch touches keeps its base binding.
pub proof fn lemma_put_all_frame(
    base: Map<Seq<u8>, Seq<u8>>,
    recs: Seq<(Seq<u8>, Seq<u8>)>,
    k: Seq<u8>,
)
    requires
        forall|i: int| 0 <= i < recs.len() ==> (#[trigger] recs[i]).0 != k,
    ensures
        put_all(base, recs).contains_key(k) <==> base.contains_key(k),
        base.contains_key(k) ==> put_all(base, recs)[k] == base[k],
    decreases recs.len(),
{
    if recs.len() > 0 {
        assert(forall|i: int|
            0 <= i < recs.drop_last().len() ==> (#[trigger] recs.drop_last()[i]).0 != k);
        lemma_put_all_frame(base, recs.drop_last(), k);
        assert(recs[recs.len() - 1].0 != k);
        assert(recs.last().0 != k);
    }
}

/// The term-frequency rows of one document.
pub open spec fn spec_tf_records(doc: u64, freqs: Seq<(i64, u64)>) -> Seq<(Seq<u8>, Seq<u8>)> {
    freqs.map_values(|e: (i64, u64)| (spec_enc_pair(doc, e.0), spec_enc_u64(e.1)))
}

/// The doc-frequency rows of the final pass: each token's posting-list size.
pub open spec fn spec_df_records(entries: Seq<(i64, DocSet)>) -> Seq<(Seq<u8>, Seq<u8>)> {
    entries.map_values(
        |e: (i64, DocSet)| (spec_enc_i64(e.0), spec_enc_u64(e.1.id_seq().len() as u64)),
    )
}

/// The posting-list rows of the final pass.
pub open spec fn spec_posting_records(entries: Seq<(i64, DocSet)>) -> Seq<(Seq<u8>, Seq<u8>)> {
    entries.map_values(|e: (i64, DocSet)| (spec_enc_i64(e.0), spec_enc_u64_list(e.1.id_seq())))
}

/// Writes one document's term-frequency rows, one per distinct token.
pub fn write_term_freqs(tf_df: &mut sled::Tree, doc: u64, freqs: &Vec<(i64, u64)>) -> (r: Result<
    (),
    StoreError,
>)
    ensures
        r is Ok ==> tree_entries(*final(tf_df)) == put_all(
            tree_entries(*old(tf_df)),
            spec_tf_records(doc, freqs@),
        ),
{
    let n = freqs.len();
    for i in 0..n
        invariant
            n == freqs@.len(),
            tree_entries(*tf_df) == put_all(
                tree_entries(*old(tf_df)),
                spec_tf_records(doc, freqs@.take(i as int)),
            ),
    {
        let row = freqs[i];
        let key = encode_pair(doc, row.0);
        let val = encode_u64(row.1);
        let ghost pre = tree_entries(*tf_df);
        match tree_insert(tf_df, &key, &val) {
            Ok(_) => {},
            Err(e) => {
                return Err(map_err(e));
            },
        }
        proof {
            let recs = spec_tf_records(doc, freqs@.take(i + 1));
            assert(recs.drop_last() =~= spec_tf_records(doc, freqs@.take(i as int)));
            assert(recs.last() == (spec_enc_pair(doc, freqs@[i as int].0), spec_enc_u64(
                freqs@[i as int].1,
            )));
            assert(tree_entries(*tf_df) =~= put_all(tree_entries(*old(tf_df)), recs));
        }
    }
    proof {
        assert(freqs@.take(n as int) =~= freqs@);
    }
    Ok(())
}

/// The key of the document-count record of the root partition.
pub open spec fn spec_file_count_key() -> Seq<u8> {
    vstd::utf8::encode_utf8("file_count"@)
}

/// The key of the vocabulary record of the root partition.
pub open spec fn spec_tokens_key() -> Seq<u8> {
    vstd::utf8::encode_utf8("tokens"@)
}

fn file_count_key() -> (r: Vec<u8>)
    ensures
        r@ == spec_file_count_key(),
{
    let b = "file_count".as_bytes();
    let mut r: Vec<u8> = Vec::new();
    let n = b.len();
    for i in 0..n
        invariant
            n == b@.len(),
            b@ == spec_file_count_key(),
            r@ =~= b@.take(i as int),
    {
        let x = *vstd::slice::slice_index_get(b, i);
        r.push(x);
        proof {
            assert(r@ =~= b@.take(i + 1));
        }
    }
    proof {
        assert(r@ =~= b@);
    }
    r
}

fn tokens_key() -> (r: Vec<u8>)
    ensures
        r@ == spec_tokens_key(),
{
    let b = "tokens".as_bytes();
    let mut r: Vec<u8> = Vec::new();
    let n = b.len();
    for i in 0..n
        invariant
            n == b@.len(),
            b@ == spec_tokens_key(),
            r@ =~= b@.take(i as int),
    {
        let x = *vstd::slice::slice_index_get(b, i);
        r.push(x);
        proof {
            assert(r@ =~= b@.take(i + 1));
        }
    }
    proof {
        assert(r@ =~= b@);
    }
    r
}

/// Writes the running document count, as the index stage does once per
/// document.
pub fn write_file_count(root: &mut sled::Tree, count: u64) -> (r: Result<(), StoreError>)
    ensures
        r is Ok ==> tree_entries(*final(root)) == tree_entries(*old(root)).insert(
            spec_file_count_key(),
            spec_enc_u64(count),
        ),
{
    let key = file_count_key();
    let val = encode_u64(count);
    match tree_insert(root, &key, &val) {
        Ok(_) => Ok(()),
        Err(e) => Err(map_err(e)),
    }
}

/// The final persistence pass of the index stage: root metadata, then one
/// doc-frequency row and one posting-list row per token.
pub fn persist_index(
    idx: &InMemIndex,
    root: &mut sled::Tree,
    tf_df: &mut sled::Tree,
    index_tree: &mut sled::Tree,
) -> (r: Result<(), StoreError>)
    requires
        idx.wf(),
    ensures
        r is Ok ==> {
            &&& tree_entries(*final(root)) == tree_entries(*old(root)).insert(
                spec_file_count_key(),
                spec_enc_u64(idx.file_count),
            ).insert(spec_tokens_key(), spec_enc_i64_list(idx.postings.key_seq()))
            &&& tree_entries(*final(tf_df)) == put_all(
                tree_entries(*old(tf_df)),
                spec_df_records(idx.postings.entry_seq()),
            )
            &&& tree_entries(*final(index_tree)) == put_all(
                tree_entries(*old(index_tree)),
                spec_posting_records(idx.postings.entry_seq()),
            )
        },
{
    match write_file_count(root, idx.file_count) {
        Ok(_) => {},
        Err(e) => {
            return Err(e);
        },
    }
    // the observed vocabulary: every token that owns a posting list
    let m = idx.postings.entry_count();
    let mut vocab: Vec<i64> = Vec::new();
    for i in 0..m
        invariant
            m == idx.postings.entry_seq().len(),
            vocab@ =~= idx.postings.key_seq().take(i as int),
    {
        vocab.push(idx.postings.token_at(i));
        proof {
            assert(vocab@ =~= idx.postings.key_seq().take(i + 1));
        }
    }
    proof {
        assert(vocab@ =~= idx.postings.key_seq());
    }
    let tkey = tokens_key();
    let tval = encode_i64_list(&vocab);
    match tree_insert(root, &tkey, &tval) {
        Ok(_) => {},
        Err(e) => {
            return Err(map_err(e));
        },
    }
    for i in 0..m
        invariant
            m == idx.postings.entry_seq().len(),
            idx.wf(),
            tree_entries(*tf_df) == put_all(
                tree_entries(*old(tf_df)),
                spec_df_records(idx.postings.entry_seq().take(i as int)),
            ),
            tree_entries(*index_tree) == put_all(
                tree_entries(*old(index_tree)),
                spec_posting_records(idx.postings.entry_seq().take(i as int)),
            ),
    {
        let t = idx.postings.token_at(i);
        let ds = idx.postings.postings_at(i);
        let key = encode_i64(t);
        let dval = encode_u64(ds.len() as u64);
        match tree_insert(tf_df, &key, &dval) {
            Ok(_) => {},
            Err(e) => {
                return Err(map_err(e));
            },
        }
        let pval = encode_u64_list(ds.as_vec());
        match tree_insert(index_tree, &key, &pval) {
            Ok(_) => {},
            Err(e) => {
                return Err(map_err(e));
            },
        }
        proof {
            let es = idx.postings.entry_seq();
            let dr = spec_df_records(es.take(i + 1));
            assert(dr.drop_last() =~= spec_df_records(es.take(i as int)));
            assert(dr.last() == (spec_enc_i64(es[i as int].0), spec_enc_u64(
                es[i as int].1.id_seq().len() as u64,
            )));
            assert(tree_entries(*tf_df) =~= put_all(tree_entries(*old(tf_df)), dr));
            let pr = spec_posting_records(es.take(i + 1));
            assert(pr.drop_last() =~= spec_posting_records(es.take(i as int)));
            assert(pr.last() == (spec_enc_i64(es[i as int].0), spec_enc_u64_list(
                es[i as int].1.id_seq(),
            )));
            assert(tree_entries(*index_tree) =~= put_all(tree_entries(*old(index_tree)), pr));
        }
    }
    proof {
        assert(idx.postings.entry_seq().take(m as int) =~= idx.postings.entry_seq());
    }
    Ok(())
}

/// The posting list recorded under token `t`, as the query layer models it:
/// an absent key is the empty set, and a value that does not decode is
/// nothing at all (corruption).
pub open spec fn spec_postings_model(entries: Map<Seq<u8>, Seq<u8>>, t: i64) -> Option<Set<u64>> {
    if !entries.contains_key(spec_enc_i64(t)) {
        Some(Set::<u64>::empty())
    } else {
        match spec_dec_u64_list(entries[spec_enc_i64(t)]) {
            Some(ids) => Some(ids.to_set()),
            None => None,
        }
    }
}

/// Reads the posting list of `t`. A token never indexed yields the empty
/// set, never an error.
pub fn lookup_postings(index_tree: &sled::Tree, t: i64) -> (r: Result<DocSet, StoreError>)
    ensures
        match r {
            Ok(ds) => ds.wf() && Some(ds@) == spec_postings_model(tree_entries(*index_tree), t),
            Err(e) => e is Backend || (e is Corrupt && spec_postings_model(
                tree_entries(*index_tree),
                t,
            ) is None),
        },
{
    let key = encode_i64(t);
    match tree_get(index_tree, &key) {
        Err(e) => Err(map_err(e)),
        Ok(None) => Ok(DocSet::new()),
        Ok(Some(v)) => {
            match decode_u64_list(v.as_slice()) {
                Some(ids) => Ok(DocSet::from_vec(&ids)),
                None => Err(StoreError::Corrupt),
            }
        },
    }
}

/// Reads the corpus size `N` from the root metadata. Its absence means no
/// build ever finished, and is an error.
pub fn get_file_count(root: &sled::Tree) -> (r: Result<u64, StoreError>)
    ensures
        match r {
            Ok(n) => tree_entries(*root).contains_key(spec_file_count_key()) && spec_dec_u64(
                tree_entries(*root)[spec_file_count_key()],
            ) == Some(n),
            Err(e) => e is Backend || (e is MissingRecord && !tree_entries(
                *root,
            ).contains_key(spec_file_count_key())) || (e is Corrupt && tree_entries(
                *root,
            ).contains_key(spec_file_count_key()) && spec_dec_u64(
                tree_entries(*root)[spec_file_count_key()],
            ) is None),
        },
{
    let key = file_count_key();
    match tree_get(root, &key) {
        Err(e) => Err(map_err(e)),
        Ok(None) => Err(StoreError::MissingRecord),
        Ok(Some(v)) => {
            match decode_u64(v.as_slice()) {
                Some(n) => Ok(n),
                None => Err(StoreError::Corrupt),
            }
        },
    }
}

/// Reads the raw term frequency of `(doc, t)`: zero where the pair was never
/// recorded, as the ranking stage expects.
pub fn get_term_freq(tf_df: &sled::Tree, doc: u64, t: i64) -> (r: Result<u64, StoreError>)
    ensures
        match r {
            Ok(c) => (tree_entries(*tf_df).contains_key(spec_enc_pair(doc, t)) && spec_dec_u64(
                tree_entries(*tf_df)[spec_enc_pair(doc, t)],
            ) == Some(c)) || (!tree_entries(*tf_df).contains_key(spec_enc_pair(doc, t)) && c
                == 0),
            Err(e) => e is Backend || (e is Corrupt && tree_entries(*tf_df).contains_key(
                spec_enc_pair(doc, t),
            ) && spec_dec_u64(tree_entries(*tf_df)[spec_enc_pair(doc, t)]) is None),
        },
{
    let key = encode_pair(doc, t);
    match tree_get(tf_df, &key) {
        Err(e) => Err(map_err(e)),
        Ok(None) => Ok(0),
        Ok(Some(v)) => {
            match decode_u64(v.as_slice()) {
                Some(c) => Ok(c),
                None => Err(StoreError::Corrupt),
            }
        },
    }
}

/// Reads the doc frequency of `t`. The record must exist for any token that
/// reached the ranking stage; a missing one is a consistency violation.
pub fn get_doc_freq(tf_df: &sled::Tree, t: i64) -> (r: Result<u64, StoreError>)
    ensures
        match r {
            Ok(c) => tree_entries(*tf_df).contains_key(spec_enc_i64(t)) && spec_dec_u64(
                tree_entries(*tf_df)[spec_enc_i64(t)],
            ) == Some(c),
            Err(e) => e is Backend || (e is MissingRecord && !tree_entries(
                *tf_df,
            ).contains_key(spec_enc_i64(t))) || (e is Corrupt && tree_entries(
                *tf_df,
            ).contains_key(spec_enc_i64(t)) && spec_dec_u64(
                tree_entries(*tf_df)[spec_enc_i64(t)],
            ) is None),
        },
{
    let key = encode_i64(t);
    match tree_get(tf_df, &key) {
        Err(e) => Err(map_err(e)),
        Ok(None) => Err(StoreError::MissingRecord),
        Ok(Some(v)) => {
            match decode_u64(v.as_slice()) {
                Some(c) => Ok(c),
                None => Err(StoreError::Corrupt),
            }
        },
    }
}

/// Every posting list the final pass writes reads back, through the query
/// layer's view of the partition, as exactly the set that was built in
/// memory for that token.
pub proof fn lemma_persisted_postings_read_back(
    pm: &PostingMap,
    base: Map<Seq<u8>, Seq<u8>>,
    i: int,
)
    requires
        pm.wf(),
        0 <= i < pm.entry_seq().len(),
        pm.entry_seq()[i].1.id_seq().len() <= u64::MAX,
    ensures
        spec_postings_model(
            put_all(base, spec_posting_records(pm.entry_seq())),
            pm.entry_seq()[i].0,
        ) == Some(pm.entry_seq()[i].1@),
{
    let es = pm.entry_seq();
    let t = es[i].0;
    let ds = es[i].1;
    assert forall|a: int, b: int|
        0 <= a < b < spec_posting_records(es).len() implies (#[trigger] spec_posting_records(
        es,
    )[a]).0 != (#[trigger] spec_posting_records(es)[b]).0 by {
        assert(spec_posting_records(es)[a].0 == spec_enc_i64(es[a].0));
        assert(spec_posting_records(es)[b].0 == spec_enc_i64(es[b].0));
        assert(entry_keys(es)[a] == es[a].0 && entry_keys(es)[b] == es[b].0);
        assert(es[a].0 != es[b].0);
        lemma_i64_round_trip(es[a].0);
        lemma_i64_round_trip(es[b].0);
    }
    lemma_put_all_distinct(base, spec_posting_records(es));
    assert(spec_posting_records(es)[i] == (spec_enc_i64(t), spec_enc_u64_list(ds.id_seq())));
    crate::codec::lemma_u64_list_round_trip(ds.id_seq());
    ds.lemma_card();
}

/// A token the build never saw is still no error after the final pass: no
/// written row touches its key, so its posting lookup reads as the empty
/// set.
pub proof fn lemma_unknown_token_after_build(
    pm: &PostingMap,
    base: Map<Seq<u8>, Seq<u8>>,
    t: i64,
)
    requires
        !pm.key_seq().contains(t),
        !base.contains_key(spec_enc_i64(t)),
    ensures
        spec_postings_model(put_all(base, spec_posting_records(pm.entry_seq())), t) == Some(
            Set::<u64>::empty(),
        ),
{
    let es = pm.entry_seq();
    let recs = spec_posting_records(es);
    assert forall|a: int| 0 <= a < recs.len() implies (#[trigger] recs[a]).0 != spec_enc_i64(
        t,
    ) by {
        assert(recs[a].0 == spec_enc_i64(es[a].0));
        assert(entry_keys(es)[a] == es[a].0);
        assert(es[a].0 != t);
        lemma_i64_round_trip(es[a].0);
        lemma_i64_round_trip(t);
    }
    lemma_put_all_frame(base, recs, spec_enc_i64(t));
}

/// Each term-frequency row of a document reads back from the written
/// partition as the exact count the count stage produced for its token: with
/// the counts summing to the document's filtered token count (the count
/// stage's contract), the persisted rows of a document do too.
pub proof fn lemma_term_freq_consistent(
    base: Map<Seq<u8>, Seq<u8>>,
    doc: u64,
    freqs: Seq<(i64, u64)>,
    i: int,
)
    requires
        crate::postings::strictly_sorted_keys(crate::postings::table_keys(freqs)),
        0 <= i < freqs.len(),
    ensures
        ({
            let m = put_all(base, spec_tf_records(doc, freqs));
            &&& m.contains_key(spec_enc_pair(doc, freqs[i].0))
            &&& spec_dec_u64(m[spec_enc_pair(doc, freqs[i].0)]) == Some(freqs[i].1)
        }),
{
    let recs = spec_tf_records(doc, freqs);
    assert forall|a: int, b: int|
        0 <= a < b < recs.len() implies (#[trigger] recs[a]).0 != (#[trigger] recs[b]).0 by {
        assert(recs[a].0 == spec_enc_pair(doc, freqs[a].0));
        assert(recs[b].0 == spec_enc_pair(doc, freqs[b].0));
        assert(crate::postings::table_keys(freqs)[a] == freqs[a].0);
        assert(crate::postings::table_keys(freqs)[b] == freqs[b].0);
        assert(freqs[a].0 != freqs[b].0);
        crate::codec::lemma_pair_round_trip(doc, freqs[a].0);
        crate::codec::lemma_pair_round_trip(doc, freqs[b].0);
    }
    lemma_put_all_distinct(base, recs);
    assert(recs[i] == (spec_enc_pair(doc, freqs[i].0), spec_enc_u64(freqs[i].1)));
    crate::codec::lemma_u64_round_trip(freqs[i].1);
}

/// What the lossy UTF-8 decoding of a byte sequence reads as: a function of
/// the bytes alone.
pub uninterp spec fn lossy_of(b: Seq<u8>) -> Seq<char>;

/// Relies on String::from_utf8_lossy: the stored path bytes back as text,
/// depending on the bytes alone.
#[verifier::external_body]
fn bytes_to_string(b: &Vec<u8>) -> (r: String)
    ensures
        r@ == lossy_of(b@),
{
    String::from_utf8_lossy(b.as_slice()).into_owned()
}

/// Reads the path of a document id. Ids handed out by a finished build are
/// always present; a missing one is a consistency violation.
pub fn get_file_path(files: &sled::Tree, id: u64) -> (r: Result<String, StoreError>)
    ensures
        match r {
            Ok(s) => tree_entries(*files).contains_key(spec_enc_u64(id)) && s@ == lossy_of(
                tree_entries(*files)[spec_enc_u64(id)],
            ),
            Err(e) => e is Backend || (e is MissingRecord && !tree_entries(
                *files,
            ).contains_key(spec_enc_u64(id))),
        },
{
    let key = encode_u64(id);
    match tree_get(files, &key) {
        Err(e) => Err(map_err(e)),
        Ok(None) => Err(StoreError::MissingRecord),
        Ok(Some(v)) => Ok(bytes_to_string(&v)),
    }
}

/// After the final pass every persisted doc-frequency row decodes to the
/// exact size of the posting list persisted beside it: `doc_freq[t] ==
/// |postings[t]|` for every token of the build.
pub proof fn lemma_doc_freq_consistent(
    pm: &PostingMap,
    df0: Map<Seq<u8>, Seq<u8>>,
    p0: Map<Seq<u8>, Seq<u8>>,
    i: int,
)
    requires
        pm.wf(),
        0 <= i < pm.entry_seq().len(),
        pm.entry_seq()[i].1.id_seq().len() <= u64::MAX,
    ensures
        ({
            let t = pm.entry_seq()[i].0;
            let dft = put_all(df0, spec_df_records(pm.entry_seq()));
            let pt = put_all(p0, spec_posting_records(pm.entry_seq()));
            &&& dft.contains_key(spec_enc_i64(t))
            &&& pt.contains_key(spec_enc_i64(t))
            &&& match (
                spec_dec_u64(dft[spec_enc_i64(t)]),
                spec_dec_u64_list(pt[spec_enc_i64(t)]),
            ) {
                (Some(df), Some(ids)) => df == ids.to_set().len() && ids.to_set()
                    == pm.entry_seq()[i].1@,
                _ => false,
            }
        }),
{
    let es = pm.entry_seq();
    let t = es[i].0;
    let ds = es[i].1;
    assert forall|a: int, b: int|
        0 <= a < b < spec_df_records(es).len() implies (#[trigger] spec_df_records(es)[a]).0 != (
    #[trigger] spec_df_records(es)[b]).0 by {
        assert(spec_df_records(es)[a].0 == spec_enc_i64(es[a].0));
        assert(spec_df_records(es)[b].0 == spec_enc_i64(es[b].0));
        assert(entry_keys(es)[a] == es[a].0 && entry_keys(es)[b] == es[b].0);
        assert(es[a].0 != es[b].0);
        lemma_i64_round_trip(es[a].0);
        lemma_i64_round_trip(es[b].0);
    }
    assert forall|a: int, b: int|
        0 <= a < b < spec_posting_records(es).len() implies (#[trigger] spec_posting_records(
        es,
    )[a]).0 != (#[trigger] spec_posting_records(es)[b]).0 by {
        assert(spec_posting_records(es)[a].0 == spec_enc_i64(es[a].0));
        assert(spec_posting_records(es)[b].0 == spec_enc_i64(es[b].0));
        assert(entry_keys(es)[a] == es[a].0 && entry_keys(es)[b] == es[b].0);
        assert(es[a].0 != es[b].0);
        lemma_i64_round_trip(es[a].0);
        lemma_i64_round_trip(es[b].0);
    }
    lemma_put_all_distinct(df0, spec_df_records(es));
    lemma_put_all_distinct(p0, spec_posting_records(es));
    assert(spec_df_records(es)[i] == (spec_enc_i64(t), spec_enc_u64(ds.id_seq().len() as u64)));
    assert(spec_posting_records(es)[i] == (spec_enc_i64(t), spec_enc_u64_list(ds.id_seq())));
    crate::codec::lemma_u64_round_trip(ds.id_seq().len() as u64);
    crate::codec::lemma_u64_list_round_trip(ds.id_seq());
    ds.lemma_card();
}

} // verus!
