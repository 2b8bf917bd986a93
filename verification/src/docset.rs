//! Sets of document ids: posting lists and the results of query evaluation.
//! A set is kept as a strictly ascending vector of ids, so iteration order,
//! persisted form and equality are all canonical.

use vstd::prelude::*;

verus! {

broadcast use vstd::seq_lib::group_seq_properties;

/// Ascending order with no repeats.
pub open spec fn strictly_sorted(s: Seq<u64>) -> bool {
    forall|i: int, j: int| 0 <= i < j < s.len() ==> s[i] < s[j]
}

pub struct DocSet {
    ids: Vec<u64>,
}

impl View for DocSet {
    type V = Set<u64>;

    closed spec fn view(&self) -> Set<u64> {
        self.ids@.to_set()
    }
}

impl DocSet {
    /// The ids in ascending order.
    pub closed spec fn id_seq(&self) -> Seq<u64> {
        self.ids@
    }

    pub open spec fn wf(&self) -> bool {
        strictly_sorted(self.id_seq())
    }

    /// The set a well-formed vector holds is the vector's elements, one each.
    pub proof fn lemma_card(&self)
        requires
            self.wf(),
        ensures
            self@ == self.id_seq().to_set(),
            self@.len() == self.id_seq().len(),
    {
        assert forall|i: int, j: int|
            0 <= i < self.ids@.len() && 0 <= j < self.ids@.len() && i != j implies self.ids@[i]
            != self.ids@[j] by {
            if i < j {
                assert(self.ids@[i] < self.ids@[j]);
            } else {
                assert(self.ids@[j] < self.ids@[i]);
            }
        }
        assert(self.ids@.no_duplicates());
        self.ids@.unique_seq_to_set();
    }

    pub fn new() -> (r: DocSet)
        ensures
            r.wf(),
            r@ == Set::<u64>::empty(),
            r.id_seq() == Seq::<u64>::empty(),
    {
        let r = DocSet { ids: Vec::new() };
        proof {
            assert(r@ =~= Set::<u64>::empty());
        }
        r
    }

    /// How many documents the set holds.
    pub fn len(&self) -> (n: usize)
        requires
            self.wf(),
        ensures
            n == self.id_seq().len(),
            n == self@.len(),
    {
        proof {
            assert forall|i: int, j: int|
                0 <= i < self.ids@.len() && 0 <= j < self.ids@.len() && i != j implies self.ids@[i]
                != self.ids@[j] by {
                if i < j {
                    assert(self.ids@[i] < self.ids@[j]);
                } else {
                    assert(self.ids@[j] < self.ids@[i]);
                }
            }
            assert(self.ids@.no_duplicates());
            self.ids@.unique_seq_to_set();
        }
        self.ids.len()
    }

    /// An owned copy with the same ids.
    pub fn duplicate(&self) -> (r: DocSet)
        ensures
            r.id_seq() == self.id_seq(),
            r@ == self@,
            r.wf() == self.wf(),
    {
        let r = DocSet { ids: self.ids.clone() };
        proof {
            assert(r.ids@ =~= self.ids@);
        }
        r
    }

    pub fn as_vec(&self) -> (r: &Vec<u64>)
        ensures
            r@ == self.id_seq(),
    {
        &self.ids
    }

    pub fn contains(&self, x: u64) -> (r: bool)
        ensures
            r == self@.contains(x),
    {
        let n = self.ids.len();
        for i in 0..n
            invariant
                n == self.ids@.len(),
                forall|k: int| 0 <= k < i ==> self.ids@[k] != x,
        {
            if self.ids[i] == x {
                return true;
            }
        }
        proof {
            assert(!self.ids@.contains(x));
        }
        false
    }

    /// Adds one id, keeping the ascending order.
    pub fn insert(&mut self, x: u64)
        requires
            old(self).wf(),
        ensures
            final(self).wf(),
            final(self)@ == old(self)@.insert(x),
    {
        let n = self.ids.len();
        let mut idx: usize = 0;
        while idx < n && self.ids[idx] < x
            invariant
                n == self.ids@.len(),
                idx <= n,
                self.ids@ == old(self).ids@,
                forall|k: int| 0 <= k < idx ==> self.ids@[k] < x,
            decreases n - idx,
        {
            idx += 1;
        }
        if idx < n && self.ids[idx] == x {
            proof {
                assert(self.ids@.contains(x));
                assert(self@ =~= old(self)@.insert(x));
            }
            return;
        }
        let ghost prior = self.ids@;
        proof {
            assert(forall|k: int| idx <= k < prior.len() ==> prior[k] > x) by {
                if idx < prior.len() {
                    assert(prior[idx as int] > x);
                }
            }
        }
        self.ids.insert(idx, x);
        proof {
            prior.insert_ensures(idx as int, x);
            assert(strictly_sorted(self.ids@)) by {
                assert(forall|k: int| 0 <= k < idx ==> self.ids@[k] == prior[k]);
                assert(self.ids@[idx as int] == x);
                assert(forall|k: int| idx < k < self.ids@.len() ==> self.ids@[k] == prior[k - 1]);
            }
            assert forall|y: u64| self.ids@.contains(y) <==> (prior.contains(y) || y == x) by {
                prior.insert_ensures(idx as int, x);
            }
            assert(self@ =~= old(self)@.insert(x));
        }
    }

    /// The documents in both sets.
    pub fn intersect(&self, other: &DocSet) -> (r: DocSet)
        requires
            self.wf(),
        ensures
            r.wf(),
            r@ == self@.intersect(other@),
    {
        let mut out: Vec<u64> = Vec::new();
        let n = self.ids.len();
        for i in 0..n
            invariant
                n == self.ids@.len(),
                self.wf(),
                strictly_sorted(out@),
                forall|k: int| 0 <= k < out@.len() ==> self.ids@.take(i as int).contains(out@[k]),
                forall|y: u64|
                    out@.contains(y) <==> (self.ids@.take(i as int).contains(y)
                        && other@.contains(y)),
        {
            let ghost pre = out@;
            let ghost e = self.ids@[i as int];
            if other.contains(self.ids[i]) {
                assert forall|k: int| 0 <= k < out@.len() implies out@[k] < self.ids@[i as int] by {
                    assert(self.ids@.take(i as int).contains(out@[k]));
                    let t = self.ids@.take(i as int);
                    let j = choose|j: int| 0 <= j < t.len() && t[j] == out@[k];
                    assert(self.ids@[j] == out@[k]);
                    assert(self.ids@[j] < self.ids@[i as int]);
                };
                out.push(self.ids[i]);
                proof {
                    assert(out@ == pre.push(e));
                }
            }
            proof {
                assert(self.ids@.take(i + 1) =~= self.ids@.take(i as int).push(e));
                assert forall|y: u64|
                    out@.contains(y) <==> (self.ids@.take(i + 1).contains(y)
                        && other@.contains(y)) by {
                    vstd::seq_lib::lemma_seq_contains_after_push(self.ids@.take(i as int), e, y);
                    assert(self.ids@.take(i + 1).contains(y) <==> (self.ids@.take(
                        i as int,
                    ).contains(y) || y == e));
                    if other@.contains(e) {
                        vstd::seq_lib::lemma_seq_contains_after_push(pre, e, y);
                        assert(out@.contains(y) <==> (pre.contains(y) || y == e));
                    } else {
                        assert(out@ == pre);
                    }
                }
            }
        }
        proof {
            assert(self.ids@.take(n as int) =~= self.ids@);
        }
        let r = DocSet { ids: out };
        proof {
            assert(r@ =~= self@.intersect(other@));
        }
        r
    }

    /// The documents of this set that the other lacks.
    pub fn difference(&self, other: &DocSet) -> (r: DocSet)
        requires
            self.wf(),
        ensures
            r.wf(),
            r@ == self@.difference(other@),
    {
        let mut out: Vec<u64> = Vec::new();
        let n = self.ids.len();
        for i in 0..n
            invariant
                n == self.ids@.len(),
                self.wf(),
                strictly_sorted(out@),
                forall|k: int| 0 <= k < out@.len() ==> self.ids@.take(i as int).contains(out@[k]),
                forall|y: u64|
                    out@.contains(y) <==> (self.ids@.take(i as int).contains(y)
                        && !other@.contains(y)),
        {
            let ghost pre = out@;
            let ghost e = self.ids@[i as int];
            if !other.contains(self.ids[i]) {
                assert forall|k: int| 0 <= k < out@.len() implies out@[k] < self.ids@[i as int] by {
                    assert(self.ids@.take(i as int).contains(out@[k]));
                    let t = self.ids@.take(i as int);
                    let j = choose|j: int| 0 <= j < t.len() && t[j] == out@[k];
                    assert(self.ids@[j] == out@[k]);
                    assert(self.ids@[j] < self.ids@[i as int]);
                };
                out.push(self.ids[i]);
                proof {
                    assert(out@ == pre.push(e));
                }
            }
            proof {
                assert(self.ids@.take(i + 1) =~= self.ids@.take(i as int).push(e));
                assert forall|y: u64|
                    out@.contains(y) <==> (self.ids@.take(i + 1).contains(y)
                        && !other@.contains(y)) by {
                    vstd::seq_lib::lemma_seq_contains_after_push(self.ids@.take(i as int), e, y);
                    assert(self.ids@.take(i + 1).contains(y) <==> (self.ids@.take(
                        i as int,
                    ).contains(y) || y == e));
                    if !other@.contains(e) {
                        vstd::seq_lib::lemma_seq_contains_after_push(pre, e, y);
                        assert(out@.contains(y) <==> (pre.contains(y) || y == e));
                    } else {
                        assert(out@ == pre);
                    }
                }
            }
        }
        proof {
            assert(self.ids@.take(n as int) =~= self.ids@);
        }
        let r = DocSet { ids: out };
        proof {
            assert(r@ =~= self@.difference(other@));
        }
        r
    }

    /// The documents in either set.
    pub fn union(&self, other: &DocSet) -> (r: DocSet)
        requires
            self.wf(),
        ensures
            r.wf(),
            r@ == self@.union(other@),
    {
        let mut r = DocSet { ids: self.ids.clone() };
        proof {
            assert(r.ids@ =~= self.ids@);
            assert(r@ =~= self@);
        }
        let n = other.ids.len();
        for i in 0..n
            invariant
                n == other.ids@.len(),
                r.wf(),
                r@ == self@.union(other.ids@.take(i as int).to_set()),
        {
            let ghost pre = r@;
            r.insert(other.ids[i]);
            proof {
                let e = other.ids@[i as int];
                assert(other.ids@.take(i + 1) =~= other.ids@.take(i as int) + seq![e]);
                Seq::<u64>::lemma_to_set_insert_commutes(other.ids@.take(i as int), e);
                assert(other.ids@.take(i + 1).to_set() =~= other.ids@.take(i as int).to_set()
                    .insert(e));
                assert(r@ =~= self@.union(other.ids@.take(i + 1).to_set()));
            }
        }
        proof {
            assert(other.ids@.take(n as int) =~= other.ids@);
        }
        r
    }

    /// Builds the set of the ids of a vector, in whatever order they come.
    pub fn from_vec(v: &Vec<u64>) -> (r: DocSet)
        ensures
            r.wf(),
            r@ == v@.to_set(),
    {
        let mut r = DocSet::new();
        let n = v.len();
        for i in 0..n
            invariant
                n == v@.len(),
                r.wf(),
                r@ == v@.take(i as int).to_set(),
        {
            r.insert(v[i]);
            proof {
                let e = v@[i as int];
                assert(v@.take(i + 1) =~= v@.take(i as int) + seq![e]);
                Seq::<u64>::lemma_to_set_insert_commutes(v@.take(i as int), e);
                assert(v@.take(i + 1).to_set() =~= v@.take(i as int).to_set().insert(e));
            }
        }
        proof {
            assert(v@.take(n as int) =~= v@);
        }
        r
    }
}

/// Intersection does not mind the order of its arguments: `And(P, Q)` and
/// `And(Q, P)` match the same documents.
pub proof fn lemma_and_commutative(p: Set<u64>, q: Set<u64>)
    ensures
        p.intersect(q) == q.intersect(p),
{
    assert(p.intersect(q) =~= q.intersect(p));
}

/// Union does not mind the order of its arguments: `Or(P, Q)` and `Or(Q, P)`
/// match the same documents.
pub proof fn lemma_or_commutative(p: Set<u64>, q: Set<u64>)
    ensures
        p.union(q) == q.union(p),
{
    assert(p.union(q) =~= q.union(p));
}

/// Taking away `Q` is taking away the part of `Q` inside `P`:
/// `Diff(P, Q)` equals `P` minus `And(P, Q)`.
pub proof fn lemma_diff_is_diff_of_and(p: Set<u64>, q: Set<u64>)
    ensures
        p.difference(q) == p.difference(p.intersect(q)),
{
    assert(p.difference(q) =~= p.difference(p.intersect(q)));
}

/// Absorption: `And(P, Or(P, Q))` matches exactly the documents of `P`.
pub proof fn lemma_and_absorbs_or(p: Set<u64>, q: Set<u64>)
    ensures
        p.intersect(p.union(q)) == p,
{
    assert(p.intersect(p.union(q)) =~= p);
}

} // verus!
