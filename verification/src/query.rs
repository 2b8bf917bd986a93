//! The boolean query layer: a small algebra over posting sets, evaluated by
//! direct recursion on the expression tree. A keyword is tokenized and
//! filtered exactly as at index time and its tokens are ANDed; missing
//! posting lists read as empty sets.

use vstd::prelude::*;

verus! {

broadcast use vstd::seq_lib::group_seq_properties;

use crate::codec::spec_enc_i64;
use crate::docset::DocSet;
use crate::postings::{PostingMap, posting_at};
use crate::store::{
    StoreError,
    lookup_postings,
    spec_postings_model,
    tree_entries,
    put_all,
    spec_posting_records,
    lemma_persisted_postings_read_back,
    lemma_unknown_token_after_build,
};
use crate::text::TokenSource;

/// A boolean query: a keyword phrase, or a combination of two sub-queries.
pub enum Query {
    KeyWord(String),
    Diff(Box<Query>, Box<Query>),
    And(Box<Query>, Box<Query>),
    Or(Box<Query>, Box<Query>),
}

/// A query whose keywords the token source has already turned into ids.
pub enum ResolvedQuery {
    KeyWordIds(Vec<i64>),
    Diff(Box<ResolvedQuery>, Box<ResolvedQuery>),
    And(Box<ResolvedQuery>, Box<ResolvedQuery>),
    Or(Box<ResolvedQuery>, Box<ResolvedQuery>),
}

/// The posting list the store holds for `t`, an unreadable record reading as
/// empty (the evaluator reports it as corruption instead of using it).
pub open spec fn spec_lookup(entries: Map<Seq<u8>, Seq<u8>>, t: i64) -> Set<u64> {
    match spec_postings_model(entries, t) {
        Some(s) => s,
        None => Set::<u64>::empty(),
    }
}

/// A keyword phrase matches the documents holding every one of its token
/// ids; with no surviving tokens it matches nothing.
pub open spec fn spec_keyword_eval(ids: Seq<i64>, entries: Map<Seq<u8>, Seq<u8>>) -> Set<u64>
    decreases ids.len(),
{
    if ids.len() == 0 {
        Set::<u64>::empty()
    } else if ids.len() == 1 {
        spec_lookup(entries, ids[0])
    } else {
        spec_lookup(entries, ids[0]).intersect(spec_keyword_eval(ids.drop_first(), entries))
    }
}

/// The meaning of a resolved query against the persisted posting records.
pub open spec fn spec_eval(rq: ResolvedQuery, entries: Map<Seq<u8>, Seq<u8>>) -> Set<u64>
    decreases rq,
{
    match rq {
        ResolvedQuery::KeyWordIds(ids) => spec_keyword_eval(ids@, entries),
        ResolvedQuery::Diff(p, q) => spec_eval(*p, entries).difference(spec_eval(*q, entries)),
        ResolvedQuery::And(p, q) => spec_eval(*p, entries).intersect(spec_eval(*q, entries)),
        ResolvedQuery::Or(p, q) => spec_eval(*p, entries).union(spec_eval(*q, entries)),
    }
}

/// A keyword whose tokens were all filtered away matches no documents at
/// all — the base case is the empty set, not the whole corpus.
pub proof fn lemma_empty_keyword(ids: Seq<i64>, entries: Map<Seq<u8>, Seq<u8>>)
    requires
        ids.len() == 0,
    ensures
        spec_keyword_eval(ids, entries) == Set::<u64>::empty(),
{
}

/// A token never seen at index time reads as an empty posting list, never
/// as an error.
pub proof fn lemma_unknown_token(entries: Map<Seq<u8>, Seq<u8>>, t: i64)
    requires
        !entries.contains_key(spec_enc_i64(t)),
    ensures
        spec_postings_model(entries, t) == Some(Set::<u64>::empty()),
        spec_lookup(entries, t) == Set::<u64>::empty(),
{
}

/// Evaluates one keyword's token ids: the intersection of their posting
/// lists, empty when there are none.
pub fn eval_keyword_ids(ids: &Vec<i64>, index_tree: &sled::Tree) -> (r: Result<
    DocSet,
    StoreError,
>)
    ensures
        match r {
            Ok(ds) => ds.wf() && ds@ == spec_keyword_eval(ids@, tree_entries(*index_tree)),
            Err(e) => !(e is MissingRecord),
        },
{
    let n = ids.len();
    if n == 0 {
        return Ok(DocSet::new());
    }
    let mut acc = match lookup_postings(index_tree, ids[n - 1]) {
        Ok(ds) => ds,
        Err(e) => {
            return Err(e);
        },
    };
    let mut j: usize = n - 1;
    while j > 0
        invariant
            n == ids@.len(),
            j < n,
            acc.wf(),
            acc@ == spec_keyword_eval(ids@.skip(j as int), tree_entries(*index_tree)),
        decreases j,
    {
        j = j - 1;
        let ds = match lookup_postings(index_tree, ids[j]) {
            Ok(ds) => ds,
            Err(e) => {
                return Err(e);
            },
        };
        acc = ds.intersect(&acc);
        proof {
            let entries = tree_entries(*index_tree);
            let s = ids@.skip(j as int);
            assert(s.len() == n - j);
            assert(s[0] == ids@[j as int]);
            if j < n - 1 {
                assert(s.drop_first() =~= ids@.skip(j + 1));
            } else {
                assert(s.len() == 1);
            }
        }
    }
    proof {
        assert(ids@.skip(0) =~= ids@);
    }
    Ok(acc)
}

/// Evaluates a resolved query: a direct recursive interpretation of the
/// tree into a document-id set.
pub fn eval_resolved(rq: &ResolvedQuery, index_tree: &sled::Tree) -> (r: Result<
    DocSet,
    StoreError,
>)
    ensures
        match r {
            Ok(ds) => ds.wf() && ds@ == spec_eval(*rq, tree_entries(*index_tree)),
            Err(e) => !(e is MissingRecord),
        },
    decreases *rq,
{
    match rq {
        ResolvedQuery::KeyWordIds(ids) => eval_keyword_ids(ids, index_tree),
        ResolvedQuery::Diff(p, q) => {
            let ps = eval_resolved(&**p, index_tree)?;
            let qs = eval_resolved(&**q, index_tree)?;
            Ok(ps.difference(&qs))
        },
        ResolvedQuery::And(p, q) => {
            let ps = eval_resolved(&**p, index_tree)?;
            let qs = eval_resolved(&**q, index_tree)?;
            Ok(ps.intersect(&qs))
        },
        ResolvedQuery::Or(p, q) => {
            let ps = eval_resolved(&**p, index_tree)?;
            let qs = eval_resolved(&**q, index_tree)?;
            Ok(ps.union(&qs))
        },
    }
}

/// The meaning of a resolved query against the in-memory posting map, where
/// evaluation always succeeds.
pub open spec fn spec_eval_mem(rq: ResolvedQuery, pm: PostingMap) -> Set<u64>
    decreases rq,
{
    match rq {
        ResolvedQuery::KeyWordIds(ids) => spec_keyword_eval_mem(ids@, pm),
        ResolvedQuery::Diff(p, q) => spec_eval_mem(*p, pm).difference(spec_eval_mem(*q, pm)),
        ResolvedQuery::And(p, q) => spec_eval_mem(*p, pm).intersect(spec_eval_mem(*q, pm)),
        ResolvedQuery::Or(p, q) => spec_eval_mem(*p, pm).union(spec_eval_mem(*q, pm)),
    }
}

/// A keyword's meaning against the in-memory posting map.
pub open spec fn spec_keyword_eval_mem(ids: Seq<i64>, pm: PostingMap) -> Set<u64>
    decreases ids.len(),
{
    if ids.len() == 0 {
        Set::<u64>::empty()
    } else if ids.len() == 1 {
        posting_at(pm@, ids[0])
    } else {
        posting_at(pm@, ids[0]).intersect(spec_keyword_eval_mem(ids.drop_first(), pm))
    }
}

/// Evaluates one keyword's ids against the in-memory posting map; this path
/// never fails, whatever the ids are.
pub fn eval_keyword_ids_mem(ids: &Vec<i64>, pm: &PostingMap) -> (r: DocSet)
    requires
        pm.wf(),
    ensures
        r.wf(),
        r@ == spec_keyword_eval_mem(ids@, *pm),
{
    let n = ids.len();
    if n == 0 {
        return DocSet::new();
    }
    let mut acc = match pm.get(ids[n - 1]) {
        Some(ds) => ds.duplicate(),
        None => DocSet::new(),
    };
    proof {
        pm.lemma_view();
        assert(acc@ == posting_at(pm@, ids@[n - 1]));
    }
    let mut j: usize = n - 1;
    while j > 0
        invariant
            n == ids@.len(),
            j < n,
            pm.wf(),
            acc.wf(),
            acc@ == spec_keyword_eval_mem(ids@.skip(j as int), *pm),
        decreases j,
    {
        j = j - 1;
        let ds = match pm.get(ids[j]) {
            Some(ds) => ds.duplicate(),
            None => DocSet::new(),
        };
        proof {
            pm.lemma_view();
            assert(ds@ == posting_at(pm@, ids@[j as int]));
        }
        acc = ds.intersect(&acc);
        proof {
            let s = ids@.skip(j as int);
            assert(s[0] == ids@[j as int]);
            if j < n - 1 {
                assert(s.drop_first() =~= ids@.skip(j + 1));
            } else {
                assert(s.len() == 1);
            }
        }
    }
    proof {
        assert(ids@.skip(0) =~= ids@);
    }
    acc
}

/// What the final pass wrote for any single token reads back, through the
/// query layer's lookup, as that token's in-memory posting set — the empty
/// set where the token was never indexed.
pub proof fn lemma_lookup_after_build(pm: &PostingMap, base: Map<Seq<u8>, Seq<u8>>, t: i64)
    requires
        pm.wf(),
        forall|k: int|
            0 <= k < pm.entry_seq().len() ==> (#[trigger] pm.entry_seq()[k]).1.id_seq().len()
                <= u64::MAX,
        forall|u: i64| !base.contains_key(#[trigger] spec_enc_i64(u)),
    ensures
        spec_lookup(put_all(base, spec_posting_records(pm.entry_seq())), t) == posting_at(
            pm@,
            t,
        ),
{
    pm.lemma_view();
    if pm.key_seq().contains(t) {
        let i = choose|i: int| 0 <= i < pm.key_seq().len() && pm.key_seq()[i] == t;
        assert(pm.key_seq()[i] == pm.entry_seq()[i].0);
        lemma_persisted_postings_read_back(pm, base, i);
        pm.lemma_entry_view(i);
    } else {
        lemma_unknown_token_after_build(pm, base, t);
    }
}

/// A keyword evaluated against the records a completed build persisted means
/// the same as against the in-memory index it was persisted from.
pub proof fn lemma_keyword_eval_after_build(
    pm: &PostingMap,
    base: Map<Seq<u8>, Seq<u8>>,
    ids: Seq<i64>,
)
    requires
        pm.wf(),
        forall|k: int|
            0 <= k < pm.entry_seq().len() ==> (#[trigger] pm.entry_seq()[k]).1.id_seq().len()
                <= u64::MAX,
        forall|u: i64| !base.contains_key(#[trigger] spec_enc_i64(u)),
    ensures
        spec_keyword_eval(ids, put_all(base, spec_posting_records(pm.entry_seq())))
            == spec_keyword_eval_mem(ids, *pm),
    decreases ids.len(),
{
    if ids.len() >= 1 {
        lemma_lookup_after_build(pm, base, ids[0]);
        if ids.len() >= 2 {
            lemma_keyword_eval_after_build(pm, base, ids.drop_first());
        }
    }
}

/// The whole algebra joins the same way: any resolved query evaluated
/// against a completed build's posting records means exactly what it means
/// against the in-memory index — the scenario queries included.
pub proof fn lemma_eval_after_build(
    pm: &PostingMap,
    base: Map<Seq<u8>, Seq<u8>>,
    rq: ResolvedQuery,
)
    requires
        pm.wf(),
        forall|k: int|
            0 <= k < pm.entry_seq().len() ==> (#[trigger] pm.entry_seq()[k]).1.id_seq().len()
                <= u64::MAX,
        forall|u: i64| !base.contains_key(#[trigger] spec_enc_i64(u)),
    ensures
        spec_eval(rq, put_all(base, spec_posting_records(pm.entry_seq()))) == spec_eval_mem(
            rq,
            *pm,
        ),
    decreases rq,
{
    match rq {
        ResolvedQuery::KeyWordIds(ids) => {
            lemma_keyword_eval_after_build(pm, base, ids@);
        },
        ResolvedQuery::Diff(p, q) => {
            lemma_eval_after_build(pm, base, *p);
            lemma_eval_after_build(pm, base, *q);
        },
        ResolvedQuery::And(p, q) => {
            lemma_eval_after_build(pm, base, *p);
            lemma_eval_after_build(pm, base, *q);
        },
        ResolvedQuery::Or(p, q) => {
            lemma_eval_after_build(pm, base, *p);
            lemma_eval_after_build(pm, base, *q);
        },
    }
}

/// Whether a resolved query has the shape of a query: the same combinators,
/// with each keyword turned into some id sequence.
pub open spec fn same_shape(q: Query, rq: ResolvedQuery) -> bool
    decreases q,
{
    match (q, rq) {
        (Query::KeyWord(_), ResolvedQuery::KeyWordIds(_)) => true,
        (Query::Diff(p1, q1), ResolvedQuery::Diff(p2, q2)) => same_shape(*p1, *p2) && same_shape(
            *q1,
            *q2,
        ),
        (Query::And(p1, q1), ResolvedQuery::And(p2, q2)) => same_shape(*p1, *p2) && same_shape(
            *q1,
            *q2,
        ),
        (Query::Or(p1, q1), ResolvedQuery::Or(p2, q2)) => same_shape(*p1, *p2) && same_shape(
            *q1,
            *q2,
        ),
        _ => false,
    }
}

/// The query layer's handle: the shared token source and the posting
/// partition.
pub struct QueryExecutor {
    pub source: TokenSource,
    pub index_tree: sled::Tree,
}

impl QueryExecutor {
    pub fn new(source: TokenSource, index_tree: sled::Tree) -> (r: QueryExecutor)
        ensures
            r.source == source,
            r.index_tree == index_tree,
    {
        QueryExecutor { source, index_tree }
    }

    /// Turns each keyword of the query into token ids, through the token
    /// source, keeping the tree's shape.
    pub fn resolve(&self, q: &Query) -> (r: ResolvedQuery)
        ensures
            same_shape(*q, r),
        decreases *q,
    {
        match q {
            Query::KeyWord(s) => {
                let toks = self.source.tokenize_filtered(s.as_str());
                ResolvedQuery::KeyWordIds(self.source.to_ids(&toks))
            },
            Query::Diff(p, r2) => ResolvedQuery::Diff(
                Box::new(self.resolve(&**p)),
                Box::new(self.resolve(&**r2)),
            ),
            Query::And(p, r2) => ResolvedQuery::And(
                Box::new(self.resolve(&**p)),
                Box::new(self.resolve(&**r2)),
            ),
            Query::Or(p, r2) => ResolvedQuery::Or(
                Box::new(self.resolve(&**p)),
                Box::new(self.resolve(&**r2)),
            ),
        }
    }

    /// Evaluates a boolean query: keywords resolve through the token source,
    /// and the resolved tree is interpreted exactly over the posting records.
    pub fn execute_query(&self, q: &Query) -> (r: Result<DocSet, StoreError>)
        ensures
            match r {
                Ok(ds) => ds.wf() && exists|rq: ResolvedQuery|
                    same_shape(*q, rq) && ds@ == spec_eval(rq, tree_entries(self.index_tree)),
                Err(e) => !(e is MissingRecord),
            },
    {
        let rq = self.resolve(q);
        let r = eval_resolved(&rq, &self.index_tree)?;
        proof {
            assert(same_shape(*q, rq) && r@ == spec_eval(rq, tree_entries(self.index_tree)));
        }
        Ok(r)
    }
}

} // verus!
