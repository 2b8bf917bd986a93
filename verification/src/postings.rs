//! The in-memory side of the build: per-document token counting and the
//! inverted index (token id to posting list) that the final persistence pass
//! walks. Entries sit in ascending key order, so the walk is canonical.

use vstd::prelude::*;

verus! {

broadcast use vstd::seq_lib::group_seq_properties;

use crate::docset::DocSet;

/// Ascending token-id order with no repeats.
pub open spec fn strictly_sorted_keys(s: Seq<i64>) -> bool {
    forall|i: int, j: int| 0 <= i < j < s.len() ==> s[i] < s[j]
}

/// How often token `t` occurs in the sequence.
pub open spec fn occ(s: Seq<i64>, t: i64) -> nat
    decreases s.len(),
{
    if s.len() == 0 {
        0
    } else {
        occ(s.drop_last(), t) + (if s.last() == t {
            1nat
        } else {
            0nat
        })
    }
}

/// The total of all counts of a frequency table.
pub open spec fn sum_counts(s: Seq<(i64, u64)>) -> int
    decreases s.len(),
{
    if s.len() == 0 {
        0
    } else {
        sum_counts(s.drop_last()) + s.last().1
    }
}

/// The count a frequency table holds for token `t`, zero when absent.
pub open spec fn count_of(s: Seq<(i64, u64)>, t: i64) -> int
    decreases s.len(),
{
    if s.len() == 0 {
        0
    } else if s.last().0 == t {
        s.last().1 as int
    } else {
        count_of(s.drop_last(), t)
    }
}

pub open spec fn table_keys(s: Seq<(i64, u64)>) -> Seq<i64> {
    s.map_values(|e: (i64, u64)| e.0)
}

proof fn lemma_count_nonneg(s: Seq<(i64, u64)>, t: i64)
    ensures
        count_of(s, t) >= 0,
    decreases s.len(),
{
    if s.len() > 0 {
        lemma_count_nonneg(s.drop_last(), t);
    }
}

proof fn lemma_occ_nonneg(s: Seq<i64>, t: i64)
    ensures
        occ(s, t) >= 0,
{
}

/// A token occurs in a sequence exactly when its count there is positive.
pub proof fn lemma_occ_positive(s: Seq<i64>, t: i64)
    ensures
        occ(s, t) > 0 <==> s.contains(t),
    decreases s.len(),
{
    if s.len() > 0 {
        lemma_occ_positive(s.drop_last(), t);
        assert(s =~= s.drop_last().push(s.last()));
        vstd::seq_lib::lemma_seq_contains_after_push(s.drop_last(), s.last(), t);
    }
}

proof fn lemma_update_count(s: Seq<(i64, u64)>, i: int, c2: u64)
    requires
        0 <= i < s.len(),
        strictly_sorted_keys(table_keys(s)),
    ensures
        sum_counts(s.update(i, (s[i].0, c2))) == sum_counts(s) - s[i].1 + c2,
        forall|t: i64| s[i].0 != t ==> count_of(s.update(i, (s[i].0, c2)), t) == count_of(s, t),
        count_of(s.update(i, (s[i].0, c2)), s[i].0) == c2,
    decreases s.len(),
{
    let s2 = s.update(i, (s[i].0, c2));
    if i == s.len() - 1 {
        assert(s2.drop_last() =~= s.drop_last());
        assert(s2.last() == (s[i].0, c2));
    } else {
        assert(s2.drop_last() =~= s.drop_last().update(i, (s[i].0, c2)));
        assert(s2.last() == s.last());
        assert(table_keys(s.drop_last()) =~= table_keys(s).drop_last());
        assert(strictly_sorted_keys(table_keys(s.drop_last()))) by {
            assert(forall|k: int|
                0 <= k < s.len() - 1 ==> table_keys(s).drop_last()[k] == table_keys(s)[k]);
        }
        assert(s.drop_last()[i] == s[i]);
        lemma_update_count(s.drop_last(), i, c2);
        assert(table_keys(s)[i] == s[i].0 && table_keys(s)[s.len() - 1] == s.last().0);
        assert(s[i].0 != s.last().0);
        assert forall|t: i64| s[i].0 != t implies count_of(s2, t) == count_of(s, t) by {
            if s.last().0 != t {
                assert(count_of(s2, t) == count_of(s2.drop_last(), t));
                assert(count_of(s2.drop_last(), t) == count_of(s.drop_last(), t));
            }
        }
        assert(count_of(s2, s[i].0) == count_of(s2.drop_last(), s[i].0));
    }
}

proof fn lemma_insert_count(s: Seq<(i64, u64)>, i: int, t: i64, c: u64)
    requires
        0 <= i <= s.len(),
    ensures
        sum_counts(s.insert(i, (t, c))) == sum_counts(s) + c,
        forall|u: i64| u != t ==> count_of(s.insert(i, (t, c)), u) == count_of(s, u),
        (forall|k: int| 0 <= k < s.len() ==> s[k].0 != t) ==> count_of(s.insert(i, (t, c)), t)
            == c,
    decreases s.len() - i,
{
    let s2 = s.insert(i, (t, c));
    if i == s.len() {
        assert(s2.drop_last() =~= s);
        assert(s2.last() == (t, c));
    } else {
        assert(s2.drop_last() =~= s.drop_last().insert(i, (t, c)));
        assert(s2.last() == s.last());
        lemma_insert_count(s.drop_last(), i, t, c);
        assert(forall|k: int| 0 <= k < s.len() - 1 ==> s.drop_last()[k] == s[k]);
        assert forall|u: i64| u != t implies count_of(s2, u) == count_of(s, u) by {
            if s.last().0 != u {
                assert(count_of(s2, u) == count_of(s2.drop_last(), u));
                assert(count_of(s.drop_last().insert(i, (t, c)), u) == count_of(
                    s.drop_last(),
                    u,
                ));
                assert(s2.drop_last() == s.drop_last().insert(i, (t, c)));
            }
        }
        if forall|k: int| 0 <= k < s.len() ==> (#[trigger] s[k]).0 != t {
            assert(s.last().0 != t);
            assert(forall|k: int| 0 <= k < s.len() - 1 ==> (#[trigger] s.drop_last()[k]).0 != t);
            assert(count_of(s2, t) == count_of(s2.drop_last(), t));
            assert(count_of(s.drop_last().insert(i, (t, c)), t) == c);
            assert(s2.drop_last() == s.drop_last().insert(i, (t, c)));
        }
    }
}

/// In a table with ascending keys, the count recorded at a row is the count
/// of that row's key.
proof fn lemma_count_at_key(s: Seq<(i64, u64)>, i: int)
    requires
        0 <= i < s.len(),
        strictly_sorted_keys(table_keys(s)),
    ensures
        count_of(s, s[i].0) == s[i].1,
    decreases s.len(),
{
    if i == s.len() - 1 {
    } else {
        assert(table_keys(s)[i] == s[i].0 && table_keys(s)[s.len() - 1] == s.last().0);
        assert(s.last().0 != s[i].0);
        assert(forall|k: int| 0 <= k < s.len() - 1 ==> s.drop_last()[k] == s[k]);
        assert(table_keys(s.drop_last()) =~= table_keys(s).drop_last());
        assert(strictly_sorted_keys(table_keys(s.drop_last()))) by {
            assert(forall|k: int|
                0 <= k < s.len() - 1 ==> table_keys(s).drop_last()[k] == table_keys(s)[k]);
        }
        lemma_count_at_key(s.drop_last(), i);
    }
}

/// A sorted table with positive counts holds key `t` exactly when its count
/// for `t` is positive.
proof fn lemma_key_positive(s: Seq<(i64, u64)>, t: i64)
    requires
        forall|k: int| 0 <= k < s.len() ==> (#[trigger] s[k]).1 >= 1,
    ensures
        table_keys(s).contains(t) <==> count_of(s, t) > 0,
    decreases s.len(),
{
    if s.len() > 0 {
        assert(forall|k: int| 0 <= k < s.len() - 1 ==> s.drop_last()[k] == s[k]);
        lemma_key_positive(s.drop_last(), t);
        assert(table_keys(s) =~= table_keys(s.drop_last()).push(s.last().0));
        vstd::seq_lib::lemma_seq_contains_after_push(table_keys(s.drop_last()), s.last().0, t);
    }
}

/// The per-document frequency table of the count stage: one `(token, count)`
/// row per distinct token, counts totalling the whole sequence.
pub fn token_frequencies(ids: &Vec<i64>) -> (r: Vec<(i64, u64)>)
    ensures
        strictly_sorted_keys(table_keys(r@)),
        forall|t: i64| count_of(r@, t) == occ(ids@, t),
        sum_counts(r@) == ids@.len(),
        forall|k: int| 0 <= k < r@.len() ==> (#[trigger] r@[k]).1 >= 1,
        forall|t: i64| table_keys(r@).contains(t) <==> ids@.contains(t),
{
    let mut r: Vec<(i64, u64)> = Vec::new();
    let n = ids.len();
    for i in 0..n
        invariant
            n == ids@.len(),
            strictly_sorted_keys(table_keys(r@)),
            forall|t: i64| count_of(r@, t) == occ(ids@.take(i as int), t),
            sum_counts(r@) == i,
            forall|k: int| 0 <= k < r@.len() ==> 1 <= (#[trigger] r@[k]).1 <= i,
    {
        let x = ids[i];
        proof {
            assert(ids@.take(i + 1) =~= ids@.take(i as int).push(ids@[i as int]));
            assert(ids@.take(i + 1).drop_last() =~= ids@.take(i as int));
            assert forall|t: i64| occ(ids@.take(i + 1), t) == occ(ids@.take(i as int), t) + (
            if t == ids@[i as int] {
                1nat
            } else {
                0nat
            }) by {}
        }
        // find the slot whose key is not below x
        let m = r.len();
        let mut idx: usize = 0;
        while idx < m && r[idx].0 < x
            invariant
                m == r@.len(),
                idx <= m,
                forall|k: int| 0 <= k < idx ==> (#[trigger] r@[k]).0 < x,
            decreases m - idx,
        {
            idx += 1;
        }
        let ghost pre = r@;
        if idx < m && r[idx].0 == x {
            let c = r[idx].1;
            r.set(idx, (x, c + 1));
            proof {
                lemma_update_count(pre, idx as int, (c + 1) as u64);
                assert(pre[idx as int].0 == x && pre[idx as int].1 == c);
                assert(table_keys(r@) =~= table_keys(pre));
                assert(count_of(pre, x) == occ(ids@.take(i as int), x));
                assert(c == occ(ids@.take(i as int), x)) by {
                    if (idx as int) < pre.len() - 1 {
                        lemma_update_count(pre, idx as int, (c + 1) as u64);
                    }
                    assert(count_of(pre, x) == c) by {
                        lemma_count_at_key(pre, idx as int);
                    }
                }
                assert forall|t: i64| count_of(r@, t) == occ(ids@.take(i + 1), t) by {
                    if t != x {
                        assert(count_of(r@, t) == count_of(pre, t));
                    }
                }
            }
        } else {
            proof {
                assert forall|k: int| 0 <= k < pre.len() implies (#[trigger] pre[k]).0 != x by {
                    assert(table_keys(pre)[k] == pre[k].0);
                    if k > idx {
                        assert(table_keys(pre)[idx as int] == pre[idx as int].0);
                        assert(table_keys(pre)[idx as int] < table_keys(pre)[k]);
                        assert(pre[idx as int].0 >= x);
                    } else if k == idx {
                        assert(pre[idx as int].0 >= x);
                    }
                }
            }
            r.insert(idx, (x, 1));
            proof {
                pre.insert_ensures(idx as int, (x, 1u64));
                lemma_insert_count(pre, idx as int, x, 1);
                assert forall|k: int| idx <= k < pre.len() implies (#[trigger] pre[k]).0 > x by {
                    assert(table_keys(pre)[k] == pre[k].0);
                    assert(table_keys(pre)[idx as int] == pre[idx as int].0);
                    assert(pre[idx as int].0 >= x);
                    assert(pre[idx as int].0 != x);
                    if k > idx {
                        assert(table_keys(pre)[idx as int] < table_keys(pre)[k]);
                    }
                }
                assert forall|k: int| 0 <= k < idx implies (#[trigger] pre[k]).0 < x by {}
                assert forall|a: int, b: int| 0 <= a < b < r@.len() implies #[trigger] table_keys(
                    r@,
                )[a] < #[trigger] table_keys(r@)[b] by {
                    assert(table_keys(r@)[a] == r@[a].0);
                    assert(table_keys(r@)[b] == r@[b].0);
                    if a < idx {
                        assert(r@[a] == pre[a]);
                    }
                    if a > idx {
                        assert(r@[a] == pre[a - 1]);
                    }
                    if b < idx {
                        assert(r@[b] == pre[b]);
                    }
                    if b > idx {
                        assert(r@[b] == pre[b - 1]);
                    }
                    if a == idx {
                        assert(r@[a].0 == x);
                    }
                    if b == idx {
                        assert(r@[b].0 == x);
                    }
                    if a < idx && b < idx {
                        assert(table_keys(pre)[a] == pre[a].0);
                        assert(table_keys(pre)[b] == pre[b].0);
                        assert(table_keys(pre)[a] < table_keys(pre)[b]);
                    }
                    if a > idx && b > idx {
                        assert(table_keys(pre)[a - 1] == pre[a - 1].0);
                        assert(table_keys(pre)[b - 1] == pre[b - 1].0);
                        assert(table_keys(pre)[a - 1] < table_keys(pre)[b - 1]);
                    }
                    if a < idx && b > idx {
                        assert(table_keys(pre)[a] == pre[a].0);
                        assert(table_keys(pre)[b - 1] == pre[b - 1].0);
                        assert(pre[a].0 < x && pre[b - 1].0 > x);
                    }
                }
                assert(strictly_sorted_keys(table_keys(r@)));
                assert forall|t: i64| count_of(r@, t) == occ(ids@.take(i + 1), t) by {
                    if t != x {
                        assert(count_of(r@, t) == count_of(pre, t));
                    } else {
                        assert(count_of(r@, x) == 1);
                        assert(count_of(pre, x) == 0) by {
                            assert(!table_keys(pre).contains(x)) by {
                                if table_keys(pre).contains(x) {
                                    let k = choose|k: int|
                                        0 <= k < table_keys(pre).len() && table_keys(pre)[k] == x;
                                    assert(table_keys(pre)[k] == pre[k].0);
                                }
                            }
                            lemma_key_positive(pre, x);
                            lemma_count_nonneg(pre, x);
                        }
                        lemma_occ_nonneg(ids@.take(i as int), x);
                    }
                }
            }
        }
    }
    proof {
        assert(ids@.take(n as int) =~= ids@);
        assert forall|t: i64| table_keys(r@).contains(t) <==> ids@.contains(t) by {
            lemma_key_positive(r@, t);
            lemma_occ_positive(ids@, t);
        }
    }
    r
}

/// The distinct tokens of a document, ascending: the set the index stage
/// consumes.
pub fn dedup_tokens(ids: &Vec<i64>) -> (r: Vec<i64>)
    ensures
        strictly_sorted_keys(r@),
        forall|t: i64| r@.contains(t) <==> ids@.contains(t),
{
    let freqs = token_frequencies(ids);
    let mut r: Vec<i64> = Vec::new();
    let n = freqs.len();
    for i in 0..n
        invariant
            n == freqs@.len(),
            r@ =~= table_keys(freqs@).take(i as int),
    {
        r.push(freqs[i].0);
        proof {
            assert(r@ =~= table_keys(freqs@).take(i + 1));
        }
    }
    proof {
        assert(r@ =~= table_keys(freqs@));
    }
    r
}

/// The posting list recorded for `t` in an entry sequence, newest row winning
/// (rows are unique when the keys are sorted).
pub open spec fn set_of(s: Seq<(i64, DocSet)>, t: i64) -> Option<Set<u64>>
    decreases s.len(),
{
    if s.len() == 0 {
        None
    } else if s.last().0 == t {
        Some(s.last().1@)
    } else {
        set_of(s.drop_last(), t)
    }
}

pub open spec fn entry_keys(s: Seq<(i64, DocSet)>) -> Seq<i64> {
    s.map_values(|e: (i64, DocSet)| e.0)
}

/// An entry sequence records `t` exactly when `t` is among its keys.
proof fn lemma_set_of_key(s: Seq<(i64, DocSet)>, t: i64)
    ensures
        entry_keys(s).contains(t) <==> set_of(s, t) is Some,
    decreases s.len(),
{
    if s.len() > 0 {
        assert(forall|k: int| 0 <= k < s.len() - 1 ==> s.drop_last()[k] == s[k]);
        lemma_set_of_key(s.drop_last(), t);
        assert(entry_keys(s) =~= entry_keys(s.drop_last()).push(s.last().0));
        vstd::seq_lib::lemma_seq_contains_after_push(entry_keys(s.drop_last()), s.last().0, t);
    }
}

/// With ascending keys, the posting list recorded for a row's key is that
/// row's list.
proof fn lemma_set_of_at(s: Seq<(i64, DocSet)>, i: int)
    requires
        0 <= i < s.len(),
        strictly_sorted_keys(entry_keys(s)),
    ensures
        set_of(s, s[i].0) == Some(s[i].1@),
    decreases s.len(),
{
    if i == s.len() - 1 {
    } else {
        assert(entry_keys(s)[i] == s[i].0 && entry_keys(s)[s.len() - 1] == s.last().0);
        assert(s.last().0 != s[i].0);
        assert(forall|k: int| 0 <= k < s.len() - 1 ==> s.drop_last()[k] == s[k]);
        assert(entry_keys(s.drop_last()) =~= entry_keys(s).drop_last());
        assert(strictly_sorted_keys(entry_keys(s.drop_last()))) by {
            assert(forall|k: int|
                0 <= k < s.len() - 1 ==> entry_keys(s).drop_last()[k] == entry_keys(s)[k]);
        }
        lemma_set_of_at(s.drop_last(), i);
    }
}

proof fn lemma_update_set(s: Seq<(i64, DocSet)>, i: int, e: DocSet)
    requires
        0 <= i < s.len(),
        strictly_sorted_keys(entry_keys(s)),
    ensures
        forall|t: i64| s[i].0 != t ==> set_of(s.update(i, (s[i].0, e)), t) == set_of(s, t),
        set_of(s.update(i, (s[i].0, e)), s[i].0) == Some(e@),
    decreases s.len(),
{
    let s2 = s.update(i, (s[i].0, e));
    if i == s.len() - 1 {
        assert(s2.drop_last() =~= s.drop_last());
        assert(s2.last() == (s[i].0, e));
    } else {
        assert(s2.drop_last() =~= s.drop_last().update(i, (s[i].0, e)));
        assert(s2.last() == s.last());
        assert(forall|k: int| 0 <= k < s.len() - 1 ==> s.drop_last()[k] == s[k]);
        assert(entry_keys(s.drop_last()) =~= entry_keys(s).drop_last());
        assert(strictly_sorted_keys(entry_keys(s.drop_last()))) by {
            assert(forall|k: int|
                0 <= k < s.len() - 1 ==> entry_keys(s).drop_last()[k] == entry_keys(s)[k]);
        }
        assert(s.drop_last()[i] == s[i]);
        lemma_update_set(s.drop_last(), i, e);
        assert(entry_keys(s)[i] == s[i].0 && entry_keys(s)[s.len() - 1] == s.last().0);
        assert(s[i].0 != s.last().0);
        assert forall|t: i64| s[i].0 != t implies set_of(s2, t) == set_of(s, t) by {
            if s.last().0 != t {
                assert(set_of(s2, t) == set_of(s2.drop_last(), t));
                assert(set_of(s.drop_last().update(i, (s[i].0, e)), t) == set_of(
                    s.drop_last(),
                    t,
                ));
                assert(s2.drop_last() == s.drop_last().update(i, (s[i].0, e)));
            }
        }
        assert(set_of(s2, s[i].0) == set_of(s2.drop_last(), s[i].0));
        assert(set_of(s.drop_last().update(i, (s[i].0, e)), s[i].0) == Some(e@));
        assert(s2.drop_last() == s.drop_last().update(i, (s[i].0, e)));
    }
}

proof fn lemma_insert_set(s: Seq<(i64, DocSet)>, i: int, t: i64, e: DocSet)
    requires
        0 <= i <= s.len(),
    ensures
        forall|u: i64| u != t ==> set_of(s.insert(i, (t, e)), u) == set_of(s, u),
        set_of(s.insert(i, (t, e)), t) is Some,
        (forall|k: int| 0 <= k < s.len() ==> (#[trigger] s[k]).0 != t) ==> set_of(
            s.insert(i, (t, e)),
            t,
        ) == Some(e@),
    decreases s.len() - i,
{
    let s2 = s.insert(i, (t, e));
    if i == s.len() {
        assert(s2.drop_last() =~= s);
        assert(s2.last() == (t, e));
    } else {
        assert(s2.drop_last() =~= s.drop_last().insert(i, (t, e)));
        assert(s2.last() == s.last());
        lemma_insert_set(s.drop_last(), i, t, e);
        assert(forall|k: int| 0 <= k < s.len() - 1 ==> s.drop_last()[k] == s[k]);
        assert forall|u: i64| u != t implies set_of(s2, u) == set_of(s, u) by {
            if s.last().0 != u {
                assert(set_of(s2, u) == set_of(s2.drop_last(), u));
                assert(set_of(s.drop_last().insert(i, (t, e)), u) == set_of(s.drop_last(), u));
                assert(s2.drop_last() == s.drop_last().insert(i, (t, e)));
            }
        }
        assert(s2.drop_last() == s.drop_last().insert(i, (t, e)));
        if s.last().0 != t {
            assert(set_of(s2, t) == set_of(s2.drop_last(), t));
        }
        if forall|k: int| 0 <= k < s.len() ==> (#[trigger] s[k]).0 != t {
            assert(s.last().0 != t);
            assert(forall|k: int| 0 <= k < s.len() - 1 ==> (#[trigger] s.drop_last()[k]).0 != t);
            assert(set_of(s.drop_last().insert(i, (t, e)), t) == Some(e@));
        }
    }
}

/// The posting list a map holds for `t`: empty when the token was never seen.
pub open spec fn posting_at(m: Map<i64, Set<u64>>, t: i64) -> Set<u64> {
    if m.contains_key(t) {
        m[t]
    } else {
        Set::empty()
    }
}

/// The inverted index under construction: one posting list per token seen,
/// entries ascending by token id.
pub struct PostingMap {
    entries: Vec<(i64, DocSet)>,
}

impl View for PostingMap {
    type V = Map<i64, Set<u64>>;

    closed spec fn view(&self) -> Map<i64, Set<u64>> {
        Map::new(
            |t: i64| set_of(self.entries@, t) is Some,
            |t: i64| set_of(self.entries@, t).unwrap(),
        )
    }
}

impl PostingMap {
    pub closed spec fn entry_seq(&self) -> Seq<(i64, DocSet)> {
        self.entries@
    }

    pub open spec fn key_seq(&self) -> Seq<i64> {
        entry_keys(self.entry_seq())
    }

    pub open spec fn wf(&self) -> bool {
        &&& strictly_sorted_keys(self.key_seq())
        &&& forall|k: int|
            0 <= k < self.entry_seq().len() ==> (#[trigger] self.entry_seq()[k]).1.wf()
    }

    pub proof fn lemma_view(&self)
        ensures
            forall|t: i64| self@.contains_key(t) <==> set_of(self.entry_seq(), t) is Some,
            forall|t: i64|
                set_of(self.entry_seq(), t) is Some ==> self@[t] == set_of(
                    self.entry_seq(),
                    t,
                ).unwrap(),
            forall|t: i64| self@.contains_key(t) <==> self.key_seq().contains(t),
    {
        assert forall|t: i64| self@.contains_key(t) <==> self.key_seq().contains(t) by {
            lemma_set_of_key(self.entry_seq(), t);
        }
    }

    /// Each row of the entry sequence is a binding of the map: the row's key
    /// maps to the row's posting set.
    pub proof fn lemma_entry_view(&self, i: int)
        requires
            self.wf(),
            0 <= i < self.entry_seq().len(),
        ensures
            self@.contains_key(self.entry_seq()[i].0),
            self@[self.entry_seq()[i].0] == self.entry_seq()[i].1@,
    {
        self.lemma_view();
        lemma_set_of_at(self.entry_seq(), i);
        assert(self.key_seq()[i] == self.entry_seq()[i].0);
        assert(self.key_seq().contains(self.entry_seq()[i].0));
    }

    pub fn new() -> (r: PostingMap)
        ensures
            r.wf(),
            r@ == Map::<i64, Set<u64>>::empty(),
            r.entry_seq() == Seq::<(i64, DocSet)>::empty(),
    {
        let r = PostingMap { entries: Vec::new() };
        proof {
            assert(r@ =~= Map::<i64, Set<u64>>::empty());
        }
        r
    }

    pub fn entry_count(&self) -> (n: usize)
        ensures
            n == self.entry_seq().len(),
    {
        self.entries.len()
    }

    pub fn token_at(&self, i: usize) -> (t: i64)
        requires
            i < self.entry_seq().len(),
        ensures
            t == self.entry_seq()[i as int].0,
    {
        self.entries[i].0
    }

    pub fn postings_at(&self, i: usize) -> (r: &DocSet)
        requires
            i < self.entry_seq().len(),
        ensures
            *r == self.entry_seq()[i as int].1,
    {
        &self.entries[i].1
    }

    /// The posting list of `t`, or nothing where the token was never indexed.
    pub fn get(&self, t: i64) -> (r: Option<&DocSet>)
        requires
            self.wf(),
        ensures
            match r {
                Some(ds) => set_of(self.entry_seq(), t) == Some(ds@) && ds.wf()
                    && self@.contains_key(t) && self@[t] == ds@,
                None => set_of(self.entry_seq(), t) is None && !self@.contains_key(t),
            },
    {
        proof {
            self.lemma_view();
        }
        let n = self.entries.len();
        for i in 0..n
            invariant
                n == self.entry_seq().len(),
                self.wf(),
                forall|k: int| 0 <= k < i ==> (#[trigger] self.entry_seq()[k]).0 != t,
        {
            if self.entries[i].0 == t {
                proof {
                    lemma_set_of_at(self.entry_seq(), i as int);
                    self.lemma_view();
                }
                return Some(&self.entries[i].1);
            }
        }
        proof {
            assert(!self.key_seq().contains(t)) by {
                if self.key_seq().contains(t) {
                    let k = choose|k: int|
                        0 <= k < self.key_seq().len() && self.key_seq()[k] == t;
                    assert(self.key_seq()[k] == self.entry_seq()[k].0);
                }
            }
            lemma_set_of_key(self.entry_seq(), t);
        }
        None
    }

    /// Puts `doc` on the posting list of `t`, starting the list where the
    /// token is new.
    #[verifier::rlimit(100)]
    #[verifier::spinoff_prover]
    pub fn add(&mut self, t: i64, doc: u64)
        requires
            old(self).wf(),
        ensures
            final(self).wf(),
            final(self)@ == old(self)@.insert(t, posting_at(old(self)@, t).insert(doc)),
    {
        proof {
            old(self).lemma_view();
        }
        let m = self.entries.len();
        let mut idx: usize = 0;
        while idx < m && self.entries[idx].0 < t
            invariant
                m == self.entries@.len(),
                idx <= m,
                self == old(self),
                forall|k: int| 0 <= k < idx ==> (#[trigger] self.entries@[k]).0 < t,
            decreases m - idx,
        {
            idx += 1;
        }
        let ghost pre = self.entries@;
        if idx < m && self.entries[idx].0 == t {
            let pair = self.entries.remove(idx);
            let k = pair.0;
            let mut ds = pair.1;
            ds.insert(doc);
            self.entries.insert(idx, (k, ds));
            proof {
                assert(self.entries@ =~= pre.update(idx as int, (t, ds)));
                assert(pre[idx as int].0 == t);
                lemma_update_set(pre, idx as int, ds);
                lemma_set_of_at(pre, idx as int);
                assert(entry_keys(self.entries@) =~= entry_keys(pre));
                assert(self.wf()) by {
                    assert(forall|k: int|
                        0 <= k < self.entries@.len() && k != idx ==> self.entries@[k] == pre[k]);
                }
                assert(posting_at(old(self)@, t) == pre[idx as int].1@);
                assert(ds@ == pre[idx as int].1@.insert(doc));
                self.lemma_view();
                assert(self@ =~= old(self)@.insert(t, posting_at(old(self)@, t).insert(doc)));
            }
        } else {
            proof {
                assert forall|k: int| 0 <= k < pre.len() implies (#[trigger] pre[k]).0 != t by {
                    assert(entry_keys(pre)[k] == pre[k].0);
                    if k > idx {
                        assert(entry_keys(pre)[idx as int] == pre[idx as int].0);
                        assert(entry_keys(pre)[idx as int] < entry_keys(pre)[k]);
                        assert(pre[idx as int].0 >= t);
                    } else if k == idx {
                        assert(pre[idx as int].0 >= t);
                    }
                }
                assert(!entry_keys(pre).contains(t)) by {
                    if entry_keys(pre).contains(t) {
                        let k = choose|k: int|
                            0 <= k < entry_keys(pre).len() && entry_keys(pre)[k] == t;
                        assert(entry_keys(pre)[k] == pre[k].0);
                    }
                }
                lemma_set_of_key(pre, t);
            }
            let mut ds = DocSet::new();
            ds.insert(doc);
            self.entries.insert(idx, (t, ds));
            proof {
                pre.insert_ensures(idx as int, (t, ds));
                lemma_insert_set(pre, idx as int, t, ds);
                assert forall|k: int| idx <= k < pre.len() implies (#[trigger] pre[k]).0 > t by {
                    assert(entry_keys(pre)[k] == pre[k].0);
                    assert(entry_keys(pre)[idx as int] == pre[idx as int].0);
                    assert(pre[idx as int].0 >= t);
                    assert(pre[idx as int].0 != t);
                    if k > idx {
                        assert(entry_keys(pre)[idx as int] < entry_keys(pre)[k]);
                    }
                }
                assert forall|a: int, b: int|
                    0 <= a < b < self.entries@.len() implies #[trigger] entry_keys(
                    self.entries@,
                )[a] < #[trigger] entry_keys(self.entries@)[b] by {
                    assert(entry_keys(self.entries@)[a] == self.entries@[a].0);
                    assert(entry_keys(self.entries@)[b] == self.entries@[b].0);
                    if a < idx {
                        assert(self.entries@[a] == pre[a]);
                        assert(pre[a].0 < t);
                    }
                    if a > idx {
                        assert(self.entries@[a] == pre[a - 1]);
                    }
                    if b < idx {
                        assert(self.entries@[b] == pre[b]);
                        assert(pre[b].0 < t);
                    }
                    if b > idx {
                        assert(self.entries@[b] == pre[b - 1]);
                    }
                    if a == idx {
                        assert(self.entries@[a].0 == t);
                    }
                    if b == idx {
                        assert(self.entries@[b].0 == t);
                    }
                    if a < idx && b < idx {
                        assert(entry_keys(pre)[a] == pre[a].0);
                        assert(entry_keys(pre)[b] == pre[b].0);
                        assert(entry_keys(pre)[a] < entry_keys(pre)[b]);
                    }
                    if a > idx && b > idx {
                        assert(entry_keys(pre)[a - 1] == pre[a - 1].0);
                        assert(entry_keys(pre)[b - 1] == pre[b - 1].0);
                        assert(entry_keys(pre)[a - 1] < entry_keys(pre)[b - 1]);
                    }
                    if a < idx && b > idx {
                        assert(pre[a].0 < t && pre[b - 1].0 > t);
                    }
                }
                assert(self.wf()) by {
                    assert(forall|k: int| 0 <= k < idx ==> self.entries@[k] == pre[k]);
                    assert(forall|k: int|
                        idx < k < self.entries@.len() ==> self.entries@[k] == pre[k - 1]);
                    assert(self.entries@[idx as int].1 == ds);
                }
                assert(posting_at(old(self)@, t) == Set::<u64>::empty());
                assert(ds@ == Set::<u64>::empty().insert(doc));
                self.lemma_view();
                assert(self@ =~= old(self)@.insert(t, posting_at(old(self)@, t).insert(doc)));
            }
        }
    }
}

/// Adding one document's token set to a posting map, token by token.
pub open spec fn spec_add_doc(m: Map<i64, Set<u64>>, doc: u64, ts: Seq<i64>) -> Map<i64, Set<u64>>
    decreases ts.len(),
{
    if ts.len() == 0 {
        m
    } else {
        let prev = spec_add_doc(m, doc, ts.drop_last());
        prev.insert(ts.last(), posting_at(prev, ts.last()).insert(doc))
    }
}

/// The whole in-memory state of the index stage: the posting map and the
/// running count of documents.
pub struct InMemIndex {
    pub postings: PostingMap,
    pub file_count: u64,
}

impl InMemIndex {
    pub open spec fn wf(&self) -> bool {
        self.postings.wf()
    }

    pub fn new() -> (r: InMemIndex)
        ensures
            r.wf(),
            r.postings@ == Map::<i64, Set<u64>>::empty(),
            r.file_count == 0,
    {
        InMemIndex { postings: PostingMap::new(), file_count: 0 }
    }

    /// One step of the index stage: every token of the document gains the
    /// document on its posting list, and the document count moves up.
    pub fn add_document(&mut self, doc: u64, tokens: &Vec<i64>)
        requires
            old(self).wf(),
            old(self).file_count < u64::MAX,
        ensures
            final(self).wf(),
            final(self).postings@ == spec_add_doc(old(self).postings@, doc, tokens@),
            final(self).file_count == old(self).file_count + 1,
    {
        let n = tokens.len();
        for i in 0..n
            invariant
                n == tokens@.len(),
                self.wf(),
                self.file_count == old(self).file_count,
                self.postings@ == spec_add_doc(old(self).postings@, doc, tokens@.take(i as int)),
        {
            let ghost pre = self.postings@;
            self.postings.add(tokens[i], doc);
            proof {
                let ts = tokens@.take(i + 1);
                assert(ts.drop_last() =~= tokens@.take(i as int));
                assert(ts.last() == tokens@[i as int]);
                assert(self.postings@ == pre.insert(
                    tokens@[i as int],
                    posting_at(pre, tokens@[i as int]).insert(doc),
                ));
            }
        }
        proof {
            assert(tokens@.take(n as int) =~= tokens@);
        }
        self.file_count = self.file_count + 1;
    }
}

} // verus!
