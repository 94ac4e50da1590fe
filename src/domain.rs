//! The state of one domain: the peer indexer, the trust matrix and the seed
//! vector, and the compute and verify operations over them.
use vstd::prelude::*;
use crate::et::{
    convergence_check, positive_run, rows_ok, rows_view, solver_outcome, verifier_accepts, RowView,
};
use crate::merkle::{compute_root, merkle_root, score_leaves};
use crate::single::{add_of, sub_of, ZERO};
use crate::trust::{row_insert, value_or_zero, OutboundLocalTrust};
use crate::tx::{ScoreEntry, TrustEntry};

verus! {

/// Errors of the compute and verify operations.
#[derive(Clone, Debug, PartialEq)]
pub enum Error {
    /// A submitted score names a peer that the indexer does not hold.
    UnknownPeer(String),
    /// An operation names a domain that has no state.
    DomainMissing,
    /// There is no peer at all.
    EmptyInput,
    /// The score tree could not be built.
    MerkleBuild,
    /// No commitment is stored for the assignment.
    CommitmentMissing,
    /// No scores are stored under the commitment's scores identifier.
    ScoresMissing,
    /// No compute tree was built for the assignment.
    TreeMissing,
}

/// The domain as the contracts see it: the interned peer identifiers (index
/// `i` names peer `i`), one optional row of outbound trust per peer, and one
/// optional seed value per peer.
pub type DomainView = (Seq<Seq<char>>, Seq<Option<RowView>>, Seq<Option<u32>>);

/// The identifiers with `id` appended where it is new.
pub open spec fn interned(ids: Seq<Seq<char>>, id: Seq<char>) -> Seq<Seq<char>> {
    if ids.contains(id) {
        ids
    } else {
        ids.push(id)
    }
}

/// The index of `id` among the identifiers.
pub open spec fn position(ids: Seq<Seq<char>>, id: Seq<char>) -> int {
    choose|i: int| 0 <= i < ids.len() && ids[i] == id
}

/// The domain with `id` interned: a new peer gets the next index, no row
/// and no seed value.
pub open spec fn grown(v: DomainView, id: Seq<char>) -> DomainView {
    if v.0.contains(id) {
        v
    } else {
        (v.0.push(id), v.1.push(None), v.2.push(None))
    }
}

/// The domain after one trust entry: both peers interned, and unless the
/// entry is a self-edge, the weight written into the row of `from` (the
/// last write wins), whose sum moves by the new weight minus the old.
pub open spec fn with_trust(v: DomainView, from: Seq<char>, to: Seq<char>, value: u32) -> DomainView {
    let g = grown(grown(v, from), to);
    let f = position(g.0, from);
    let t = position(g.0, to);
    if f == t {
        g
    } else {
        let row = match g.1[f] {
            Some(r) => r,
            None => (Seq::empty(), ZERO),
        };
        let updated = (
            row_insert(row.0, t as u64, value),
            add_of(row.1, sub_of(value, value_or_zero(row.0, t as u64))),
        );
        (g.0, g.1.update(f, Some(updated)), g.2)
    }
}

/// The domain after trust entries, applied in order.
pub open spec fn with_trust_entries(v: DomainView, es: Seq<(Seq<char>, Seq<char>, u32)>) -> DomainView
    decreases es.len(),
{
    if es.len() == 0 {
        v
    } else {
        let p = with_trust_entries(v, es.drop_last());
        with_trust(p, es.last().0, es.last().1, es.last().2)
    }
}

/// The domain after one seed entry: the peer interned and its seed value set.
pub open spec fn with_seed(v: DomainView, id: Seq<char>, value: u32) -> DomainView {
    let g = grown(v, id);
    (g.0, g.1, g.2.update(position(g.0, id), Some(value)))
}

/// The domain after seed entries, applied in order.
pub open spec fn with_seed_entries(v: DomainView, es: Seq<(Seq<char>, u32)>) -> DomainView
    decreases es.len(),
{
    if es.len() == 0 {
        v
    } else {
        let p = with_seed_entries(v, es.drop_last());
        with_seed(p, es.last().0, es.last().1)
    }
}

/// Submitted scores placed at the index of their peer, the last one for a
/// peer winning; `None` for peers without a score.
pub open spec fn placed(ids: Seq<Seq<char>>, es: Seq<(Seq<char>, u32)>) -> Seq<Option<u32>>
    decreases es.len(),
{
    if es.len() == 0 {
        Seq::new(ids.len(), |i: int| None)
    } else {
        placed(ids, es.drop_last()).update(position(ids, es.last().0), Some(es.last().1))
    }
}

/// Entry `k` is the first whose peer is not among the identifiers.
pub open spec fn first_unknown(ids: Seq<Seq<char>>, es: Seq<(Seq<char>, u32)>, k: int) -> bool {
    &&& 0 <= k < es.len()
    &&& !ids.contains(es[k].0)
    &&& forall|j: int| 0 <= j < k ==> ids.contains(#[trigger] es[j].0)
}

/// The views of a list of trust entries.
pub open spec fn trust_entries_view(es: Seq<TrustEntry>) -> Seq<(Seq<char>, Seq<char>, u32)> {
    Seq::new(es.len(), |i: int| es[i]@)
}

/// The views of a list of score entries.
pub open spec fn score_entries_view(es: Seq<ScoreEntry>) -> Seq<(Seq<char>, u32)> {
    Seq::new(es.len(), |i: int| es[i]@)
}

/// The state of one domain.
pub struct DomainState {
    ids: Vec<String>,
    lt: Vec<Option<OutboundLocalTrust>>,
    seed: Vec<Option<u32>>,
}

impl View for DomainState {
    type V = DomainView;

    closed spec fn view(&self) -> DomainView {
        (Seq::new(self.ids@.len(), |i: int| self.ids@[i]@), rows_view(self.lt@), self.seed@)
    }
}

fn copy_rows(lt: &Vec<Option<OutboundLocalTrust>>, bound: Ghost<nat>) -> (r: Vec<Option<OutboundLocalTrust>>)
    requires
        rows_ok(lt@, bound@),
    ensures
        rows_ok(r@, bound@),
        rows_view(r@) == rows_view(lt@),
        r@.len() == lt@.len(),
        forall|i: int| 0 <= i < lt@.len() && lt@[i] is Some ==> r@[i] is Some && (lt@[i]->0.wf() ==> r@[i]->0.wf()),
{
    let n = lt.len();
    let mut r: Vec<Option<OutboundLocalTrust>> = Vec::new();
    let mut i: usize = 0;
    while i < n
        invariant
            n == lt@.len(),
            i <= n,
            r@.len() == i,
            forall|k: int| 0 <= k < i ==> crate::et::row_view(#[trigger] r@[k]) == crate::et::row_view(lt@[k]),
            forall|k: int| 0 <= k < i && lt@[k] is Some ==> r@[k] is Some && (lt@[k]->0.wf() ==> r@[k]->0.wf()),
        decreases n - i,
    {
        let row = match &lt[i] {
            Some(x) => Some(x.duplicate()),
            None => None,
        };
        r.push(row);
        i = i + 1;
    }
    proof {
        assert(rows_view(r@) == rows_view(lt@));
        assert forall|k: int| 0 <= k < r@.len() && r@[k] is Some implies {
            &&& (#[trigger] r@[k])->0.wf()
            &&& forall|x: int| 0 <= x < r@[k]->0@.0.len() ==> r@[k]->0@.0[x].0 < bound@
        } by {
            assert(crate::et::row_view(r@[k]) == crate::et::row_view(lt@[k]));
            assert(lt@[k] is Some);
        }
    }
    r
}

fn copy_seed(seed: &Vec<Option<u32>>) -> (r: Vec<Option<u32>>)
    ensures
        r@ == seed@,
{
    let n = seed.len();
    let mut r: Vec<Option<u32>> = Vec::new();
    let mut i: usize = 0;
    while i < n
        invariant
            n == seed@.len(),
            i <= n,
            r@ == seed@.take(i as int),
        decreases n - i,
    {
        r.push(seed[i]);
        proof {
            assert(r@ == seed@.take(i + 1));
        }
        i = i + 1;
    }
    proof {
        assert(seed@.take(n as int) == seed@);
    }
    r
}

impl DomainState {
    /// Distinct identifiers, one row slot and one seed slot per peer, rows
    /// well formed and pointing at known peers.
    pub closed spec fn wf(&self) -> bool {
        &&& forall|i: int, j: int| 0 <= i < j < self.ids@.len() ==> self.ids@[i]@ != self.ids@[j]@
        &&& self.lt@.len() == self.ids@.len()
        &&& self.seed@.len() == self.ids@.len()
        &&& rows_ok(self.lt@, self.ids@.len())
    }

    /// A domain without peers.
    pub fn new() -> (r: Self)
        ensures
            r.wf(),
            r@ == (Seq::<Seq<char>>::empty(), Seq::<Option<RowView>>::empty(), Seq::<Option<u32>>::empty()),
    {
        let r = DomainState { ids: Vec::new(), lt: Vec::new(), seed: Vec::new() };
        proof {
            assert(r@.0 == Seq::<Seq<char>>::empty());
            assert(rows_view(r.lt@) == Seq::<Option<RowView>>::empty());
        }
        r
    }

    /// The number of interned peers.
    pub fn count(&self) -> (r: u64)
        requires
            self.wf(),
        ensures
            r == self@.0.len(),
    {
        self.ids.len() as u64
    }

    /// The index of `id`, if it is interned.
    pub fn index_of(&self, id: &String) -> (r: Option<u64>)
        requires
            self.wf(),
        ensures
            r is None <==> !self@.0.contains(id@),
            r is Some ==> r->0 == position(self@.0, id@) && r->0 < self@.0.len(),
    {
        let ghost ids = self@.0;
        let n = self.ids.len();
        let mut i: usize = 0;
        while i < n
            invariant
                n == self.ids@.len(),
                ids == self@.0,
                self.wf(),
                i <= n,
                forall|k: int| 0 <= k < i ==> ids[k] != id@,
            decreases n - i,
        {
            if self.ids[i] == *id {
                proof {
                    assert(ids[i as int] == id@);
                    let p = position(ids, id@);
                    assert(0 <= p < ids.len() && ids[p] == id@);
                    assert(ids[p] == self.ids@[p]@);
                    assert(ids[i as int] == self.ids@[i as int]@);
                    if p != i {
                        assert(self.ids@[p]@ == self.ids@[i as int]@);
                    }
                    assert(p == i);
                }
                return Some(i as u64);
            }
            i = i + 1;
        }
        proof {
            if ids.contains(id@) {
                let k = choose|k: int| 0 <= k < ids.len() && ids[k] == id@;
            }
        }
        None
    }

    fn intern(&mut self, id: &String) -> (r: usize)
        requires
            old(self).wf(),
        ensures
            final(self).wf(),
            final(self)@ == grown(old(self)@, id@),
            r == position(final(self)@.0, id@),
            r < final(self)@.0.len(),
            final(self)@.0.contains(id@),
    {
        match self.index_of(id) {
            Some(i) => {
                let n = self.ids.len();
                i as usize
            },
            None => {
                let ghost before = self@;
                let ghost old_lt = self.lt@;
                let n = self.ids.len();
                self.ids.push(id.clone());
                self.lt.push(None);
                self.seed.push(None);
                proof {
                    let ids = self@.0;
                    assert(ids == before.0.push(id@));
                    assert(rows_view(self.lt@) == before.1.push(None));
                    assert(ids[n as int] == id@);
                    let p = position(ids, id@);
                    if p != n {
                        assert(before.0[p] == id@);
                    }
                    assert forall|i: int, j: int| 0 <= i < j < self.ids@.len() implies self.ids@[i]@ != self.ids@[j]@ by {
                        if j == n {
                            assert(before.0[i] == self.ids@[i]@);
                        }
                    }
                    assert forall|i: int| 0 <= i < self.lt@.len() && self.lt@[i] is Some implies {
                        &&& (#[trigger] self.lt@[i])->0.wf()
                        &&& forall|x: int| 0 <= x < self.lt@[i]->0@.0.len() ==> self.lt@[i]->0@.0[x].0 < self.ids@.len()
                    } by {
                        assert(self.lt@[i] == old_lt[i]);
                    }
                }
                n
            },
        }
    }

    /// Applies one trust entry: interns both peers and, unless it is a
    /// self-edge, writes the weight into the row of `from`.
    pub fn insert_trust(&mut self, from: &String, to: &String, value: u32)
        requires
            old(self).wf(),
        ensures
            final(self).wf(),
            final(self)@ == with_trust(old(self)@, from@, to@, value),
    {
        let f = self.intern(from);
        let t = self.intern(to);
        let ghost g = self@;
        proof {
            assert(f == position(g.0, from@)) by {
                let ids1 = grown(old(self)@, from@).0;
                assert(g.0 == interned(ids1, to@));
                if !ids1.contains(to@) {
                    assert(g.0[f as int] == ids1[f as int]);
                    let p = position(g.0, from@);
                    if p != f {
                        assert(self.ids@[p]@ == self.ids@[f as int]@);
                    }
                }
            }
        }
        if f == t {
            return;
        }
        let fi = f;
        let ghost old_lt = self.lt@;
        proof {
            assert(g.1[fi as int] == crate::et::row_view(old_lt[fi as int]));
        }
        let mut row = match self.lt[fi] {
            Some(_) => {
                let mut taken: Option<OutboundLocalTrust> = None;
                std::mem::swap(&mut taken, &mut self.lt[fi]);
                taken.unwrap()
            },
            None => OutboundLocalTrust::new(),
        };
        proof {
            assert(old_lt[fi as int] is Some ==> row@ == old_lt[fi as int]->0@ && row.wf());
            assert(old_lt[fi as int] is None ==> row@ == (Seq::<(u64, u32)>::empty(), ZERO) && row.wf());
        }
        row.insert(t as u64, value);
        let ghost new_row = row@;
        let ghost new_wf = row.wf();
        self.lt.set(fi, Some(row));
        proof {
            assert(new_wf);
            assert(rows_view(self.lt@) == rows_view(old_lt).update(fi as int, Some(new_row)));
            assert(self@ == (g.0, g.1.update(fi as int, Some(new_row)), g.2));
            assert forall|i: int| 0 <= i < self.lt@.len() && self.lt@[i] is Some implies {
                &&& (#[trigger] self.lt@[i])->0.wf()
                &&& forall|x: int| 0 <= x < self.lt@[i]->0@.0.len() ==> self.lt@[i]->0@.0[x].0 < self.ids@.len()
            } by {
                if i != fi {
                    assert(self.lt@[i] == old_lt[i]);
                } else {
                    assert(self.lt@[i]->0@ == new_row);
                    assert forall|x: int| 0 <= x < new_row.0.len() implies new_row.0[x].0 < self.ids@.len() by {
                        let k = new_row.0[x].0;
                        if k != t {
                            assert(crate::trust::has_key(new_row.0, k));
                            let y = choose|y: int| 0 <= y < new_row.0.len() && new_row.0[y].0 == k;
                            if old_lt[i] is Some {
                                assert(crate::trust::has_key(old_lt[i]->0@.0, k));
                                let z = choose|z: int| 0 <= z < old_lt[i]->0@.0.len() && old_lt[i]->0@.0[z].0 == k;
                            }
                        }
                    }
                }
            }
        }
    }

    /// Applies trust entries in order (see `insert_trust`).
    pub fn update_trust(&mut self, entries: &Vec<TrustEntry>)
        requires
            old(self).wf(),
        ensures
            final(self).wf(),
            final(self)@ == with_trust_entries(old(self)@, trust_entries_view(entries@)),
    {
        let ghost start = self@;
        let n = entries.len();
        let mut i: usize = 0;
        while i < n
            invariant
                n == entries@.len(),
                i <= n,
                self.wf(),
                self@ == with_trust_entries(start, trust_entries_view(entries@).take(i as int)),
            decreases n - i,
        {
            let e = &entries[i];
            proof {
                let es = trust_entries_view(entries@);
                assert(es.take(i + 1).drop_last() == es.take(i as int));
                assert(es.take(i + 1).last() == e@);
            }
            self.insert_trust(e.from(), e.to(), e.value());
            i = i + 1;
        }
        proof {
            assert(trust_entries_view(entries@).take(n as int) == trust_entries_view(entries@));
        }
    }

    /// Applies one seed entry: interns the peer and sets its seed value.
    pub fn insert_seed(&mut self, id: &String, value: u32)
        requires
            old(self).wf(),
        ensures
            final(self).wf(),
            final(self)@ == with_seed(old(self)@, id@, value),
    {
        let i = self.intern(id);
        let ghost g = self@;
        let ghost old_ids = self.ids@;
        let ghost old_lt = self.lt@;
        self.seed.set(i, Some(value));
        proof {
            assert(self.ids@ == old_ids);
            assert(self.lt@ == old_lt);
            assert(self@.0 == g.0);
            assert(self@.1 == g.1);
            assert(self@.2 == g.2.update(i as int, Some(value)));
            assert(self@ == (g.0, g.1, g.2.update(i as int, Some(value))));
        }
    }

    /// Applies seed entries in order (see `insert_seed`).
    pub fn update_seed(&mut self, entries: &Vec<ScoreEntry>)
        requires
            old(self).wf(),
        ensures
            final(self).wf(),
            final(self)@ == with_seed_entries(old(self)@, score_entries_view(entries@)),
    {
        let ghost start = self@;
        let n = entries.len();
        let mut i: usize = 0;
        while i < n
            invariant
                n == entries@.len(),
                i <= n,
                self.wf(),
                self@ == with_seed_entries(start, score_entries_view(entries@).take(i as int)),
            decreases n - i,
        {
            let e = &entries[i];
            proof {
                let es = score_entries_view(entries@);
                assert(es.take(i + 1).drop_last() == es.take(i as int));
                assert(es.take(i + 1).last() == e@);
            }
            self.insert_seed(e.id(), e.value());
            i = i + 1;
        }
        proof {
            assert(score_entries_view(entries@).take(n as int) == score_entries_view(entries@));
        }
    }

    /// Runs the solver on the domain's matrix and seed, and commits to the
    /// scores with the root of their dense tree. Fails on a domain without
    /// peers.
    pub fn compute(&self) -> (r: Result<(Vec<(u64, u32)>, crate::merkle::Hash), Error>)
        requires
            self.wf(),
        ensures
            r is Err <==> self@.0.len() == 0,
            r is Err ==> r->Err_0 == Error::EmptyInput,
            r is Ok ==> solver_outcome(self@.1, self@.2, r->Ok_0.0@) && r->Ok_0.1@ == merkle_root(
                score_leaves(r->Ok_0.0@),
            ),
    {
        let count = self.ids.len() as u64;
        if count == 0 {
            return Err(Error::EmptyInput);
        }
        let scores = positive_run(copy_rows(&self.lt, Ghost(count as nat)), copy_seed(&self.seed), count);
        proof {
            crate::et::lemma_solver_outcome_len(self@.1, self@.2, scores@);
        }
        match compute_root(&scores) {
            Ok(root) => Ok((scores, root)),
            Err(_) => Err(Error::MerkleBuild),
        }
    }

    /// Checks submitted scores: each is placed at the index of its peer (the
    /// last one for a peer wins; a peer without one counts as scoring zero),
    /// and the verifier's verdict on the domain's matrix and seed is
    /// returned. Fails with `UnknownPeer`, naming the first score whose peer
    /// is not interned.
    pub fn verify(&self, scores: &Vec<ScoreEntry>) -> (r: Result<bool, Error>)
        requires
            self.wf(),
        ensures
            r is Err <==> exists|k: int| 0 <= k < scores@.len() && !self@.0.contains(#[trigger] scores@[k]@.0),
            r is Err ==> r->Err_0 is UnknownPeer && exists|k: int|
                first_unknown(self@.0, score_entries_view(scores@), k) && r->Err_0->UnknownPeer_0@
                    == scores@[k]@.0,
            r is Ok ==> r->Ok_0 == verifier_accepts(
                self@.1,
                self@.2,
                placed(self@.0, score_entries_view(scores@)),
            ),
    {
        let n = self.ids.len();
        let ghost ids = self@.0;
        let ghost es = score_entries_view(scores@);
        let mut submitted: Vec<Option<u32>> = Vec::new();
        let mut i: usize = 0;
        while i < n
            invariant
                i <= n,
                submitted@ == Seq::new(i as nat, |k: int| None::<u32>),
            decreases n - i,
        {
            submitted.push(None);
            i = i + 1;
        }
        proof {
            assert(submitted@ == placed(ids, es.take(0)));
        }
        let m = scores.len();
        let mut k: usize = 0;
        while k < m
            invariant
                m == scores@.len(),
                es == score_entries_view(scores@),
                ids == self@.0,
                self.wf(),
                n == ids.len(),
                k <= m,
                submitted@ == placed(ids, es.take(k as int)),
                submitted@.len() == n,
                forall|j: int| 0 <= j < k ==> self@.0.contains(#[trigger] scores@[j]@.0),
            decreases m - k,
        {
            let e = &scores[k];
            match self.index_of(e.id()) {
                Some(i) => {
                    proof {
                        assert(es.take(k + 1).drop_last() == es.take(k as int));
                        assert(es.take(k + 1).last() == e@);
                    }
                    submitted.set(i as usize, Some(e.value()));
                },
                None => {
                    proof {
                        assert(es[k as int] == e@);
                        assert forall|j: int| 0 <= j < k implies self@.0.contains(#[trigger] es[j].0) by {
                            assert(es[j] == scores@[j]@);
                        }
                        assert(first_unknown(self@.0, es, k as int));
                    }
                    return Err(Error::UnknownPeer(e.id().clone()));
                },
            }
            k = k + 1;
        }
        proof {
            assert(es.take(m as int) == es);
        }
        let count = n as u64;
        let ok = convergence_check(copy_rows(&self.lt, Ghost(n as nat)), copy_seed(&self.seed), &submitted, count);
        Ok(ok)
    }
}

} // verus!
