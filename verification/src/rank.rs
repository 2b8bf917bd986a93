//! The ranking stage: the candidate set is the union of the query tokens'
//! posting lists, each candidate is scored by TF-IDF cosine outside the
//! integer tables, and the top K survive. Selection is pinned to one order:
//! higher score first, ties by ascending document id.

use vstd::prelude::*;

verus! {

broadcast use vstd::seq_lib::group_seq_properties;

use crate::docset::DocSet;
use crate::query::spec_lookup;
use crate::store::{StoreError, lookup_postings, tree_entries};

/// The binary combinators of the ranked query surface.
pub enum BiOp {
    And,
    Or,
}

/// The unary combinator of the ranked query surface.
pub enum UnOp {
    Not,
}

/// The ranked-query expression form: free text, or combinations of it.
pub enum Query {
    KeyWord(String),
    UnOpQuery(UnOp, Box<Query>),
    BiOpQuery(Box<Query>, BiOp, Box<Query>),
}

/// Every document holding at least one query token: the union of the
/// tokens' posting lists.
pub open spec fn spec_candidates(ids: Seq<i64>, entries: Map<Seq<u8>, Seq<u8>>) -> Set<u64>
    decreases ids.len(),
{
    if ids.len() == 0 {
        Set::<u64>::empty()
    } else {
        spec_candidates(ids.drop_last(), entries).union(spec_lookup(entries, ids.last()))
    }
}

/// Gathers the candidate set of a query's token ids from the store.
pub fn candidates(ids: &Vec<i64>, index_tree: &sled::Tree) -> (r: Result<DocSet, StoreError>)
    ensures
        match r {
            Ok(ds) => ds.wf() && ds@ == spec_candidates(ids@, tree_entries(*index_tree)),
            Err(e) => !(e is MissingRecord),
        },
{
    let mut acc = DocSet::new();
    let n = ids.len();
    for i in 0..n
        invariant
            n == ids@.len(),
            acc.wf(),
            acc@ == spec_candidates(ids@.take(i as int), tree_entries(*index_tree)),
    {
        let ds = match lookup_postings(index_tree, ids[i]) {
            Ok(ds) => ds,
            Err(e) => {
                return Err(e);
            },
        };
        acc = acc.union(&ds);
        proof {
            let s = ids@.take(i + 1);
            assert(s.drop_last() =~= ids@.take(i as int));
            assert(s.last() == ids@[i as int]);
        }
    }
    proof {
        assert(ids@.take(n as int) =~= ids@);
    }
    Ok(acc)
}

/// The ranking order on `(document id, score key)` pairs: the higher score
/// key first, equal keys broken by the lower document id.
pub open spec fn rank_before(a: (u64, u64), b: (u64, u64)) -> bool {
    a.1 > b.1 || (a.1 == b.1 && a.0 < b.0)
}

/// Where a new entry lands in an already ranked sequence.
pub open spec fn spec_insert_ranked(x: (u64, u64), s: Seq<(u64, u64)>) -> Seq<(u64, u64)>
    decreases s.len(),
{
    if s.len() == 0 {
        seq![x]
    } else if rank_before(x, s[0]) {
        seq![x] + s
    } else {
        seq![s[0]] + spec_insert_ranked(x, s.drop_first())
    }
}

/// All entries, ranked: an insertion sort, one entry at a time.
pub open spec fn spec_rank_all(s: Seq<(u64, u64)>) -> Seq<(u64, u64)>
    decreases s.len(),
{
    if s.len() == 0 {
        s
    } else {
        spec_insert_ranked(s.last(), spec_rank_all(s.drop_last()))
    }
}

/// The top `k` of the ranking, or all of it when it is shorter.
pub open spec fn spec_top_k(s: Seq<(u64, u64)>, k: int) -> Seq<(u64, u64)> {
    if k <= spec_rank_all(s).len() {
        spec_rank_all(s).take(k)
    } else {
        spec_rank_all(s)
    }
}

proof fn lemma_insert_ranked_len(x: (u64, u64), s: Seq<(u64, u64)>)
    ensures
        spec_insert_ranked(x, s).len() == s.len() + 1,
    decreases s.len(),
{
    if s.len() > 0 && !rank_before(x, s[0]) {
        lemma_insert_ranked_len(x, s.drop_first());
    }
}

/// Scanning for the first entry the new one outranks finds exactly the slot
/// the ranked-insertion spec uses.
proof fn lemma_insert_ranked_at(x: (u64, u64), s: Seq<(u64, u64)>, idx: int)
    requires
        0 <= idx <= s.len(),
        forall|j: int| 0 <= j < idx ==> !rank_before(x, s[j]),
        idx < s.len() ==> rank_before(x, s[idx]),
    ensures
        spec_insert_ranked(x, s) == s.insert(idx, x),
    decreases s.len(),
{
    if s.len() == 0 {
        assert(spec_insert_ranked(x, s) =~= s.insert(0, x));
    } else if idx == 0 {
        assert(spec_insert_ranked(x, s) =~= s.insert(0, x));
    } else {
        assert(!rank_before(x, s[0]));
        assert(forall|j: int| 0 <= j < idx - 1 ==> s.drop_first()[j] == s[j + 1]);
        lemma_insert_ranked_at(x, s.drop_first(), idx - 1);
        assert(spec_insert_ranked(x, s) =~= seq![s[0]] + s.drop_first().insert(idx - 1, x));
        assert(seq![s[0]] + s.drop_first().insert(idx - 1, x) =~= s.insert(idx, x));
    }
}

/// Everything in a ranked insertion came from the sequence or is the new
/// entry.
proof fn lemma_insert_ranked_elems(x: (u64, u64), s: Seq<(u64, u64)>, i: int)
    requires
        0 <= i < spec_insert_ranked(x, s).len(),
    ensures
        spec_insert_ranked(x, s)[i] == x || s.contains(spec_insert_ranked(x, s)[i]),
    decreases s.len(),
{
    lemma_insert_ranked_len(x, s);
    if s.len() == 0 {
    } else if rank_before(x, s[0]) {
        if i > 0 {
            assert(spec_insert_ranked(x, s)[i] == s[i - 1]);
        }
    } else {
        if i == 0 {
            assert(spec_insert_ranked(x, s)[i] == s[0]);
        } else {
            lemma_insert_ranked_elems(x, s.drop_first(), i - 1);
            assert(spec_insert_ranked(x, s)[i] == spec_insert_ranked(x, s.drop_first())[i - 1]);
            if s.drop_first().contains(spec_insert_ranked(x, s)[i]) {
                let j = choose|j: int|
                    0 <= j < s.drop_first().len() && s.drop_first()[j] == spec_insert_ranked(
                        x,
                        s,
                    )[i];
                assert(s[j + 1] == spec_insert_ranked(x, s)[i]);
            }
        }
    }
}

/// Ascending strictly in the ranking order, pair by pair.
pub open spec fn ranked_sorted(s: Seq<(u64, u64)>) -> bool {
    forall|i: int, j: int| 0 <= i < j < s.len() ==> rank_before(s[i], s[j])
}

/// Inserting an entry whose document no present entry carries keeps the
/// ranking strictly ordered.
proof fn lemma_insert_ranked_sorted(x: (u64, u64), s: Seq<(u64, u64)>)
    requires
        ranked_sorted(s),
        forall|m: int| 0 <= m < s.len() ==> (#[trigger] s[m]).0 != x.0,
    ensures
        ranked_sorted(spec_insert_ranked(x, s)),
    decreases s.len(),
{
    lemma_insert_ranked_len(x, s);
    let out = spec_insert_ranked(x, s);
    if s.len() == 0 {
    } else if rank_before(x, s[0]) {
        assert forall|i: int, j: int| 0 <= i < j < out.len() implies rank_before(
            out[i],
            out[j],
        ) by {
            if i == 0 {
                assert(out[j] == s[j - 1]);
                if j > 1 {
                    assert(rank_before(s[0], s[j - 1]));
                }
            } else {
                assert(out[i] == s[i - 1] && out[j] == s[j - 1]);
            }
        }
    } else {
        assert(forall|m: int| 0 <= m < s.drop_first().len() ==> (#[trigger] s.drop_first()[m]).0
            != x.0) by {
            assert(forall|m: int| 0 <= m < s.len() - 1 ==> s.drop_first()[m] == s[m + 1]);
        }
        assert(ranked_sorted(s.drop_first())) by {
            assert(forall|m: int| 0 <= m < s.len() - 1 ==> s.drop_first()[m] == s[m + 1]);
        }
        lemma_insert_ranked_sorted(x, s.drop_first());
        let tail = spec_insert_ranked(x, s.drop_first());
        assert(rank_before(s[0], x)) by {
            assert(s[0].0 != x.0);
        }
        assert forall|i: int, j: int| 0 <= i < j < out.len() implies rank_before(
            out[i],
            out[j],
        ) by {
            if i == 0 {
                assert(out[j] == tail[j - 1]);
                lemma_insert_ranked_elems(x, s.drop_first(), j - 1);
                if s.drop_first().contains(tail[j - 1]) {
                    let m = choose|m: int|
                        0 <= m < s.drop_first().len() && s.drop_first()[m] == tail[j - 1];
                    assert(s[m + 1] == tail[j - 1]);
                    assert(rank_before(s[0], s[m + 1]));
                }
            } else {
                assert(out[i] == tail[i - 1] && out[j] == tail[j - 1]);
            }
        }
    }
}

/// The full ranking of entries with pairwise distinct documents is strictly
/// ordered: higher score key first, ties by ascending document id. The same
/// entries always rank the same way.
pub proof fn lemma_rank_all_sorted(s: Seq<(u64, u64)>)
    requires
        forall|i: int, j: int|
            0 <= i < j < s.len() ==> (#[trigger] s[i]).0 != (#[trigger] s[j]).0,
    ensures
        ranked_sorted(spec_rank_all(s)),
        spec_rank_all(s).len() == s.len(),
        forall|i: int|
            0 <= i < spec_rank_all(s).len() ==> s.contains(#[trigger] spec_rank_all(s)[i]),
    decreases s.len(),
{
    if s.len() > 0 {
        assert(forall|i: int, j: int|
            0 <= i < j < s.len() - 1 ==> (#[trigger] s.drop_last()[i]).0 != (
            #[trigger] s.drop_last()[j]).0) by {
            assert(forall|m: int| 0 <= m < s.len() - 1 ==> s.drop_last()[m] == s[m]);
        }
        lemma_rank_all_sorted(s.drop_last());
        let prev = spec_rank_all(s.drop_last());
        assert forall|m: int| 0 <= m < prev.len() implies (#[trigger] prev[m]).0 != s.last().0 by {
            assert(s.drop_last().contains(prev[m]));
            let j = choose|j: int| 0 <= j < s.len() - 1 && s.drop_last()[j] == prev[m];
            assert(s[j] == prev[m]);
            assert(s[j].0 != s[s.len() - 1].0);
        }
        lemma_insert_ranked_sorted(s.last(), prev);
        lemma_insert_ranked_len(s.last(), prev);
        assert forall|i: int| 0 <= i < spec_rank_all(s).len() implies s.contains(
            #[trigger] spec_rank_all(s)[i],
        ) by {
            lemma_insert_ranked_elems(s.last(), prev, i);
            if spec_rank_all(s)[i] == s.last() {
                assert(s[s.len() - 1] == s.last());
            } else {
                assert(prev.contains(spec_rank_all(s)[i]));
                let m = choose|m: int| 0 <= m < prev.len() && prev[m] == spec_rank_all(s)[i];
                assert(s.drop_last().contains(prev[m]));
                let j = choose|j: int| 0 <= j < s.len() - 1 && s.drop_last()[j] == prev[m];
                assert(s[j] == spec_rank_all(s)[i]);
            }
        }
    }
}

/// A ranked insertion holds the new entry and the old ones, nothing else.
proof fn lemma_insert_ranked_keeps(x: (u64, u64), s: Seq<(u64, u64)>, y: (u64, u64))
    ensures
        spec_insert_ranked(x, s).contains(y) <==> (y == x || s.contains(y)),
    decreases s.len(),
{
    let out = spec_insert_ranked(x, s);
    if s.len() == 0 {
        assert(out =~= seq![x]);
        assert(out.contains(y) <==> y == x);
    } else if rank_before(x, s[0]) {
        assert(out =~= seq![x] + s);
    } else {
        lemma_insert_ranked_keeps(x, s.drop_first(), y);
        assert(out =~= seq![s[0]] + spec_insert_ranked(x, s.drop_first()));
        assert(s =~= seq![s[0]] + s.drop_first());
    }
}

/// The full ranking holds exactly the scored entries.
pub proof fn lemma_rank_all_complete(s: Seq<(u64, u64)>, y: (u64, u64))
    ensures
        spec_rank_all(s).contains(y) <==> s.contains(y),
    decreases s.len(),
{
    if s.len() > 0 {
        lemma_rank_all_complete(s.drop_last(), y);
        lemma_insert_ranked_keeps(s.last(), spec_rank_all(s.drop_last()), y);
        assert(s =~= s.drop_last().push(s.last()));
        vstd::seq_lib::lemma_seq_contains_after_push(s.drop_last(), s.last(), y);
    }
}

/// The selection keeps the best of the scored set: a scored entry left out
/// of the top `k` ranks after every entry that was kept.
pub proof fn lemma_top_k_dominates(s: Seq<(u64, u64)>, k: int, x: (u64, u64))
    requires
        0 <= k,
        forall|i: int, j: int|
            0 <= i < j < s.len() ==> (#[trigger] s[i]).0 != (#[trigger] s[j]).0,
        s.contains(x),
        !spec_top_k(s, k).contains(x),
    ensures
        forall|i: int|
            0 <= i < spec_top_k(s, k).len() ==> rank_before(#[trigger] spec_top_k(s, k)[i], x),
{
    lemma_rank_all_sorted(s);
    lemma_rank_all_complete(s, x);
    let all = spec_rank_all(s);
    let top = spec_top_k(s, k);
    let j = choose|j: int| 0 <= j < all.len() && all[j] == x;
    if k <= all.len() {
        assert(top =~= all.take(k));
        if j < k {
            assert(top[j] == x);
        }
        assert(j >= k);
        assert forall|i: int| 0 <= i < top.len() implies rank_before(#[trigger] top[i], x) by {
            assert(top[i] == all[i]);
            assert(rank_before(all[i], all[j]));
        }
    } else {
        assert(top =~= all);
        assert(top[j] == x);
    }
}

/// Ranks the scored candidates and keeps the top `k`: the selection the
/// design calls for in place of a full sort, with its order pinned.
pub fn rank_top_k(scored: &Vec<(u64, u64)>, k: usize) -> (r: Vec<(u64, u64)>)
    ensures
        r@ == spec_top_k(scored@, k as int),
{
    let mut sorted: Vec<(u64, u64)> = Vec::new();
    let n = scored.len();
    for i in 0..n
        invariant
            n == scored@.len(),
            sorted@ == spec_rank_all(scored@.take(i as int)),
            sorted@.len() == i,
    {
        let x = scored[i];
        let m = sorted.len();
        let mut idx: usize = 0;
        while idx < m && !(x.1 > sorted[idx].1 || (x.1 == sorted[idx].1 && x.0 < sorted[idx].0))
            invariant
                m == sorted@.len(),
                idx <= m,
                forall|j: int| 0 <= j < idx ==> !rank_before(x, (#[trigger] sorted@[j])),
            decreases m - idx,
        {
            idx += 1;
        }
        let ghost pre = sorted@;
        sorted.insert(idx, x);
        proof {
            assert(idx < pre.len() ==> rank_before(x, pre[idx as int]));
            lemma_insert_ranked_at(x, pre, idx as int);
            let s = scored@.take(i + 1);
            assert(s.drop_last() =~= scored@.take(i as int));
            assert(s.last() == scored@[i as int]);
            assert(sorted@ == spec_insert_ranked(x, pre));
        }
    }
    proof {
        assert(scored@.take(n as int) =~= scored@);
    }
    let mut r: Vec<(u64, u64)> = Vec::new();
    let stop: usize = if k <= sorted.len() {
        k
    } else {
        sorted.len()
    };
    for i in 0..stop
        invariant
            stop <= sorted@.len(),
            sorted@ == spec_rank_all(scored@),
            r@ =~= sorted@.take(i as int),
    {
        r.push(sorted[i]);
        proof {
            assert(r@ =~= sorted@.take(i + 1));
        }
    }
    proof {
        if k <= sorted@.len() {
            assert(r@ =~= spec_rank_all(scored@).take(k as int));
        } else {
            assert(r@ =~= sorted@.take(sorted@.len() as int));
            assert(sorted@.take(sorted@.len() as int) =~= sorted@);
        }
    }
    r
}

} // verus!
