//! Sparse rows of outbound trust, and vectors of trust indexed by peer.
use vstd::prelude::*;
use crate::single::{add_of, divide, div_of, is_zero, is_zero_spec, minus, plus, sub_of, ZERO};

verus! {

/// Entries whose keys strictly increase.
pub open spec fn sorted_keys(e: Seq<(u64, u32)>) -> bool {
    forall|i: int, j: int| 0 <= i < j < e.len() ==> e[i].0 < e[j].0
}

/// Whether some entry has key `k`.
pub open spec fn has_key(e: Seq<(u64, u32)>, k: u64) -> bool {
    exists|i: int| 0 <= i < e.len() && e[i].0 == k
}

/// The value stored under `k`, zero where there is none.
pub open spec fn value_or_zero(e: Seq<(u64, u32)>, k: u64) -> u32 {
    if has_key(e, k) {
        e[choose|i: int| 0 <= i < e.len() && e[i].0 == k].1
    } else {
        ZERO
    }
}

/// Where an entry with key `to` sits, or would be inserted, among entries in
/// increasing key order: after every smaller key and before the others.
pub open spec fn insert_pos(e: Seq<(u64, u32)>, to: u64) -> int {
    choose|p: int| splits_at(e, to, p)
}

/// Every key before `p` is below `to`, and no key from `p` on is.
pub open spec fn splits_at(e: Seq<(u64, u32)>, to: u64, p: int) -> bool {
    &&& 0 <= p <= e.len()
    &&& forall|i: int| 0 <= i < p ==> e[i].0 < to
    &&& forall|i: int| p <= i < e.len() ==> e[i].0 >= to
}

/// The entries with the weight under `to` set to `v`, kept in increasing
/// key order.
pub open spec fn row_insert(e: Seq<(u64, u32)>, to: u64, v: u32) -> Seq<(u64, u32)> {
    let p = insert_pos(e, to);
    if p < e.len() && e[p].0 == to {
        e.update(p, (to, v))
    } else {
        e.insert(p, (to, v))
    }
}

/// Sum of the entries' values, accumulated in order from zero.
pub open spec fn sum_entries(e: Seq<(u64, u32)>) -> u32
    decreases e.len(),
{
    if e.len() == 0 {
        ZERO
    } else {
        add_of(sum_entries(e.drop_last()), e.last().1)
    }
}

/// Sum of the present values of a vector indexed by peer, in index order.
pub open spec fn sum_present(s: Seq<Option<u32>>) -> u32
    decreases s.len(),
{
    if s.len() == 0 {
        ZERO
    } else {
        match s.last() {
            Some(v) => add_of(sum_present(s.drop_last()), v),
            None => sum_present(s.drop_last()),
        }
    }
}

/// The present values of a vector indexed by peer, as entries in index order.
pub open spec fn present_entries(s: Seq<Option<u32>>) -> Seq<(u64, u32)>
    decreases s.len(),
{
    if s.len() == 0 {
        Seq::empty()
    } else {
        match s.last() {
            Some(v) => present_entries(s.drop_last()).push(((s.len() - 1) as u64, v)),
            None => present_entries(s.drop_last()),
        }
    }
}

/// Each value divided by `d`.
pub open spec fn scaled(e: Seq<(u64, u32)>, d: u32) -> Seq<(u64, u32)> {
    Seq::new(e.len(), |i: int| (e[i].0, div_of(e[i].1, d)))
}

/// The entries without key `k`, in their order.
pub open spec fn without_key(e: Seq<(u64, u32)>, k: u64) -> Seq<(u64, u32)>
    decreases e.len(),
{
    if e.len() == 0 {
        e
    } else if e.last().0 != k {
        without_key(e.drop_last(), k).push(e.last())
    } else {
        without_key(e.drop_last(), k)
    }
}

pub proof fn lemma_without_key(e: Seq<(u64, u32)>, k: u64)
    ensures
        forall|j: int|
            0 <= j < without_key(e, k).len() ==> without_key(e, k)[j].0 != k,
        forall|j: int|
            0 <= j < without_key(e, k).len() ==> exists|i: int|
                0 <= i < e.len() && e[i] == #[trigger] without_key(e, k)[j],
        sorted_keys(e) ==> sorted_keys(without_key(e, k)),
        !has_key(e, k) ==> without_key(e, k) == e,
    decreases e.len(),
{
    if e.len() > 0 {
        let p = e.drop_last();
        lemma_without_key(p, k);
        let w = without_key(p, k);
        let r = without_key(e, k);
        assert forall|j: int| 0 <= j < r.len() implies exists|i: int|
            0 <= i < e.len() && e[i] == #[trigger] r[j] by {
            if j < w.len() {
                assert(r[j] == w[j]);
                let i = choose|i: int| 0 <= i < p.len() && p[i] == w[j];
                assert(e[i] == r[j]);
            } else {
                assert(e[e.len() - 1] == r[j]);
            }
        }
        if sorted_keys(e) {
            assert(sorted_keys(p));
            assert forall|a: int, b: int| 0 <= a < b < r.len() implies r[a].0 < r[b].0 by {
                if b < w.len() {
                    assert(r[a] == w[a] && r[b] == w[b]);
                } else {
                    assert(r[a] == w[a]);
                    let i = choose|i: int| 0 <= i < p.len() && p[i] == w[a];
                    assert(e[i] == p[i]);
                }
            }
        }
        if !has_key(e, k) {
            assert(!has_key(p, k)) by {
                if has_key(p, k) {
                    let i = choose|i: int| 0 <= i < p.len() && p[i].0 == k;
                    assert(e[i] == p[i]);
                }
            }
            assert(e.last().0 != k) by {
                assert(e[e.len() - 1].0 != k);
            }
            assert(e == p.push(e.last()));
        }
    }
}

proof fn lemma_present_entries_keys(s: Seq<Option<u32>>)
    requires
        s.len() <= u64::MAX,
    ensures
        sorted_keys(present_entries(s)),
        forall|i: int|
            0 <= i < present_entries(s).len() ==> present_entries(s)[i].0 < s.len(),
        forall|i: int|
            0 <= i < present_entries(s).len() ==> s[present_entries(s)[i].0 as int] == Some(
                present_entries(s)[i].1,
            ),
        forall|k: int| 0 <= k < s.len() && s[k] is Some ==> has_key(present_entries(s), k as u64),
    decreases s.len(),
{
    if s.len() > 0 {
        let p = s.drop_last();
        lemma_present_entries_keys(p);
        let pe = present_entries(p);
        let qe = present_entries(s);
        assert forall|i: int| 0 <= i < qe.len() implies qe[i].0 < s.len() && s[qe[i].0 as int]
            == Some(qe[i].1) by {
            if i < pe.len() {
                assert(qe[i] == pe[i]);
                assert(p[pe[i].0 as int] == s[pe[i].0 as int]);
            }
        }
        assert forall|k: int| 0 <= k < s.len() && s[k] is Some implies has_key(qe, k as u64) by {
            if k < p.len() {
                assert(p[k] == s[k]);
                let i = choose|i: int| 0 <= i < pe.len() && pe[i].0 == k as u64;
                assert(qe[i] == pe[i]);
            } else {
                let n = qe.len() - 1;
                assert(qe[n].0 == k as u64);
            }
        }
    }
}

/// Outbound trust of one peer: a sparse row `to -> weight` in increasing
/// order of `to`, with a maintained row sum.
pub struct OutboundLocalTrust {
    outbound_trust_scores: Vec<(u64, u32)>,
    outbound_sum: u32,
}

impl View for OutboundLocalTrust {
    type V = (Seq<(u64, u32)>, u32);

    closed spec fn view(&self) -> (Seq<(u64, u32)>, u32) {
        (self.outbound_trust_scores@, self.outbound_sum)
    }
}

impl OutboundLocalTrust {
    pub closed spec fn wf(&self) -> bool {
        sorted_keys(self.outbound_trust_scores@)
    }

    pub proof fn lemma_wf(&self)
        ensures
            self.wf() == sorted_keys(self@.0),
    {
    }

    /// A row with no entries and sum zero.
    pub fn new() -> (r: Self)
        ensures
            r.wf(),
            r@ == (Seq::<(u64, u32)>::empty(), ZERO),
    {
        OutboundLocalTrust { outbound_trust_scores: Vec::new(), outbound_sum: ZERO }
    }

    /// The entries, in increasing order of their keys.
    pub fn outbound_trust_scores(&self) -> (r: &Vec<(u64, u32)>)
        ensures
            r@ == self@.0,
    {
        &self.outbound_trust_scores
    }

    /// The maintained row sum.
    pub fn outbound_sum(&self) -> (r: u32)
        ensures
            r == self@.1,
    {
        self.outbound_sum
    }

    /// Sets the weight of the edge to `to` (the last write wins) and moves the
    /// row sum by the new weight minus the old one (zero where there was none).
    pub fn insert(&mut self, to: u64, value: u32)
        requires
            old(self).wf(),
        ensures
            final(self).wf(),
            final(self)@.0 == row_insert(old(self)@.0, to, value),
            final(self)@.1 == add_of(
                old(self)@.1,
                sub_of(value, value_or_zero(old(self)@.0, to)),
            ),
            has_key(final(self)@.0, to),
            value_or_zero(final(self)@.0, to) == value,
            forall|k: u64| k != to ==> has_key(final(self)@.0, k) == has_key(old(self)@.0, k),
            forall|k: u64| k != to ==> value_or_zero(final(self)@.0, k) == value_or_zero(old(self)@.0, k),
    {
        let ghost e = self.outbound_trust_scores@;
        let n = self.outbound_trust_scores.len();
        let mut idx: usize = 0;
        while idx < n && self.outbound_trust_scores[idx].0 < to
            invariant
                n == self.outbound_trust_scores@.len(),
                self.outbound_trust_scores@ == e,
                idx <= n,
                forall|i: int| 0 <= i < idx ==> e[i].0 < to,
            decreases n - idx,
        {
            idx = idx + 1;
        }
        proof {
            assert forall|i: int| idx <= i < n implies e[i].0 >= to by {
                if i > idx {
                    assert(e[idx as int].0 < e[i].0);
                }
            }
            let p = insert_pos(e, to);
            assert(splits_at(e, to, idx as int));
            if p < idx {
                assert(e[p].0 >= to);
            }
            if p > idx {
                assert(e[idx as int].0 < to);
            }
            assert(p == idx);
        }
        if idx < n && self.outbound_trust_scores[idx].0 == to {
            let prev = self.outbound_trust_scores[idx].1;
            assert(value_or_zero(e, to) == prev) by {
                let c = choose|i: int| 0 <= i < e.len() && e[i].0 == to;
                assert(c == idx as int);
            }
            self.outbound_sum = plus(self.outbound_sum, minus(value, prev));
            self.outbound_trust_scores.set(idx, (to, value));
            let ghost f = self.outbound_trust_scores@;
            assert(f == row_insert(e, to, value));
            assert(f[idx as int].0 == to);
            assert forall|k: u64| k != to implies has_key(f, k) == has_key(e, k)
                && value_or_zero(f, k) == value_or_zero(e, k) by {
                if has_key(e, k) {
                    let c = choose|i: int| 0 <= i < e.len() && e[i].0 == k;
                    assert(f[c] == e[c]);
                    let d = choose|i: int| 0 <= i < f.len() && f[i].0 == k;
                    assert(d == c);
                }
                if has_key(f, k) {
                    let d = choose|i: int| 0 <= i < f.len() && f[i].0 == k;
                    assert(e[d] == f[d]);
                }
            }
            assert(value_or_zero(f, to) == value) by {
                let c = choose|i: int| 0 <= i < f.len() && f[i].0 == to;
                assert(c == idx as int);
            }
        } else {
            assert(!has_key(e, to)) by {
                if has_key(e, to) {
                    let c = choose|i: int| 0 <= i < e.len() && e[i].0 == to;
                    if c >= idx {
                        assert(e[c].0 >= e[idx as int].0);
                    }
                }
            }
            self.outbound_sum = plus(self.outbound_sum, minus(value, ZERO));
            self.outbound_trust_scores.insert(idx, (to, value));
            let ghost f = self.outbound_trust_scores@;
            assert(f == row_insert(e, to, value));
            assert(f[idx as int].0 == to);
            assert(forall|i: int| 0 <= i < idx ==> f[i] == e[i]);
            assert(forall|i: int| idx < i < f.len() ==> f[i] == e[i - 1]);
            assert forall|k: u64| k != to implies has_key(f, k) == has_key(e, k)
                && value_or_zero(f, k) == value_or_zero(e, k) by {
                if has_key(e, k) {
                    let c = choose|i: int| 0 <= i < e.len() && e[i].0 == k;
                    let c2 = if c < idx { c } else { c + 1 };
                    assert(f[c2] == e[c]);
                    let d = choose|i: int| 0 <= i < f.len() && f[i].0 == k;
                    assert(d == c2);
                }
                if has_key(f, k) {
                    let d = choose|i: int| 0 <= i < f.len() && f[i].0 == k;
                    let d2 = if d < idx { d } else { d - 1 };
                    assert(e[d2] == f[d]);
                }
            }
            assert(value_or_zero(f, to) == value) by {
                let c = choose|i: int| 0 <= i < f.len() && f[i].0 == to;
                assert(c == idx as int);
            }
        }
    }

    /// A row equal to the present values of `seed`, keyed by their index,
    /// with the sum of those values.
    pub fn from_score_map(seed: &Vec<Option<u32>>) -> (r: Self)
        ensures
            r.wf(),
            r@ == (present_entries(seed@), sum_present(seed@)),
            forall|x: int| 0 <= x < r@.0.len() ==> r@.0[x].0 < seed@.len(),
    {
        let mut entries: Vec<(u64, u32)> = Vec::new();
        let mut sum: u32 = ZERO;
        let n = seed.len();
        let mut i: usize = 0;
        while i < n
            invariant
                n == seed@.len(),
                i <= n,
                entries@ == present_entries(seed@.take(i as int)),
                sum == sum_present(seed@.take(i as int)),
            decreases n - i,
        {
            proof {
                assert(seed@.take(i + 1).drop_last() == seed@.take(i as int));
            }
            match seed[i] {
                Some(v) => {
                    entries.push((i as u64, v));
                    sum = plus(sum, v);
                },
                None => {},
            }
            i = i + 1;
        }
        proof {
            assert(seed@.take(n as int) == seed@);
            lemma_present_entries_keys(seed@);
        }
        OutboundLocalTrust { outbound_trust_scores: entries, outbound_sum: sum }
    }

    /// Each weight divided by the row sum, with the sum of the results; an
    /// empty row where the row sum is zero.
    pub fn norm(&self) -> (r: Self)
        requires
            self.wf(),
        ensures
            r.wf(),
            is_zero_spec(self@.1) ==> r@ == (Seq::<(u64, u32)>::empty(), ZERO),
            !is_zero_spec(self@.1) ==> r@ == (
                scaled(self@.0, self@.1),
                sum_entries(scaled(self@.0, self@.1)),
            ),
    {
        if is_zero(self.outbound_sum) {
            return OutboundLocalTrust::new();
        }
        let d = self.outbound_sum;
        let ghost e = self.outbound_trust_scores@;
        let mut entries: Vec<(u64, u32)> = Vec::new();
        let mut sum: u32 = ZERO;
        let n = self.outbound_trust_scores.len();
        let mut i: usize = 0;
        while i < n
            invariant
                n == e.len(),
                e == self.outbound_trust_scores@,
                i <= n,
                entries@ == scaled(e, d).take(i as int),
                sum == sum_entries(entries@),
            decreases n - i,
        {
            let (k, v) = self.outbound_trust_scores[i];
            let q = divide(v, d);
            proof {
                assert(scaled(e, d).take(i + 1) == scaled(e, d).take(i as int).push((k, q)));
            }
            entries.push((k, q));
            proof {
                assert(entries@.drop_last() == scaled(e, d).take(i as int));
            }
            sum = plus(sum, q);
            i = i + 1;
        }
        proof {
            assert(scaled(e, d).take(n as int) == scaled(e, d));
        }
        OutboundLocalTrust { outbound_trust_scores: entries, outbound_sum: sum }
    }

    /// The row without the entry under `key`; where one was removed, the row
    /// sum is recomputed from the remaining weights, else it is kept.
    pub fn without(&self, key: u64) -> (r: Self)
        requires
            self.wf(),
        ensures
            r.wf(),
            r@.0 == without_key(self@.0, key),
            has_key(self@.0, key) ==> r@.1 == sum_entries(r@.0),
            !has_key(self@.0, key) ==> r@.1 == self@.1,
    {
        let ghost e = self.outbound_trust_scores@;
        let mut entries: Vec<(u64, u32)> = Vec::new();
        let mut sum: u32 = ZERO;
        let mut removed = false;
        let n = self.outbound_trust_scores.len();
        let mut i: usize = 0;
        while i < n
            invariant
                n == e.len(),
                e == self.outbound_trust_scores@,
                i <= n,
                entries@ == without_key(e.take(i as int), key),
                sum == sum_entries(entries@),
                removed == has_key(e.take(i as int), key),
            decreases n - i,
        {
            let (k, v) = self.outbound_trust_scores[i];
            proof {
                assert(e.take(i + 1).drop_last() == e.take(i as int));
                assert(e.take(i + 1).last() == (k, v));
            }
            if k != key {
                entries.push((k, v));
                proof {
                    assert(entries@.drop_last() == without_key(e.take(i as int), key));
                }
                sum = plus(sum, v);
            } else {
                removed = true;
            }
            proof {
                let t = e.take(i as int);
                let t1 = e.take(i + 1);
                if has_key(t, key) {
                    let j = choose|j: int| 0 <= j < t.len() && t[j].0 == key;
                    assert(t1[j] == t[j]);
                }
                if k == key {
                    assert(t1[i as int].0 == key);
                }
                if has_key(t1, key) && k != key {
                    let j = choose|j: int| 0 <= j < t1.len() && t1[j].0 == key;
                    assert(t[j] == t1[j]);
                }
            }
            i = i + 1;
        }
        proof {
            assert(e.take(n as int) == e);
            lemma_without_key(e, key);
        }
        if removed {
            OutboundLocalTrust { outbound_trust_scores: entries, outbound_sum: sum }
        } else {
            OutboundLocalTrust { outbound_trust_scores: entries, outbound_sum: self.outbound_sum }
        }
    }

    /// A copy of the row.
    pub fn duplicate(&self) -> (r: Self)
        ensures
            r@ == self@,
            r.wf() == self.wf(),
    {
        let n = self.outbound_trust_scores.len();
        let mut entries: Vec<(u64, u32)> = Vec::new();
        let mut i: usize = 0;
        while i < n
            invariant
                n == self.outbound_trust_scores@.len(),
                i <= n,
                entries@ == self.outbound_trust_scores@.take(i as int),
            decreases n - i,
        {
            entries.push(self.outbound_trust_scores[i]);
            proof {
                assert(entries@ == self.outbound_trust_scores@.take(i + 1));
            }
            i = i + 1;
        }
        proof {
            assert(entries@ == self.outbound_trust_scores@.take(n as int));
            assert(self.outbound_trust_scores@.take(n as int) == self.outbound_trust_scores@);
        }
        OutboundLocalTrust { outbound_trust_scores: entries, outbound_sum: self.outbound_sum }
    }
}

} // verus!
