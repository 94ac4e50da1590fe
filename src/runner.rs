//! The verification runner: per-domain state, the scores and commitments
//! published for assignments, and the check of finished assignments.
use vstd::prelude::*;
use crate::domain::{
    first_unknown, placed, score_entries_view, trust_entries_view, with_seed_entries, with_trust_entries,
    DomainState, DomainView, Error,
};
use crate::et::verifier_accepts;
use crate::merkle::{be_bytes, hashes_view, keccak256_of, merkle_root, score_leaf, DenseMerkleTree};
use crate::tx::{Commitment, DomainHash, ScoreEntry, Scores, TrustEntry};

verus! {

/// The published scores as the contracts see them.
pub type ScoresView = Seq<(Seq<char>, u32)>;

/// A domain's part of the runner, as the contracts see it: the domain, its
/// state, the scores stored under their identifiers, the compute roots
/// built for assignments, and the assignments still to check. Both lists of
/// pairs are read from the end: the last entry for a key wins.
pub type SlotView = (DomainHash, DomainView, Seq<(Seq<u8>, ScoresView)>, Seq<(Seq<u8>, Seq<u8>)>, Seq<Seq<u8>>);

/// The value stored last under `key`.
pub open spec fn lookup<V>(pairs: Seq<(Seq<u8>, V)>, key: Seq<u8>) -> Option<V>
    decreases pairs.len(),
{
    if pairs.len() == 0 {
        None
    } else if pairs.last().0 == key {
        Some(pairs.last().1)
    } else {
        lookup(pairs.drop_last(), key)
    }
}

/// The commitment stored last for an assignment.
pub open spec fn lookup_commitment(
    cs: Seq<(Seq<u8>, Seq<u8>, Seq<u8>, Seq<u8>)>,
    id: Seq<u8>,
) -> Option<(Seq<u8>, Seq<u8>, Seq<u8>, Seq<u8>)>
    decreases cs.len(),
{
    if cs.len() == 0 {
        None
    } else if cs.last().0 == id {
        Some(cs.last())
    } else {
        lookup_commitment(cs.drop_last(), id)
    }
}

/// The index of the first slot of domain `d`.
pub open spec fn first_slot(slots: Seq<SlotView>, d: DomainHash, i: int) -> bool {
    &&& 0 <= i < slots.len()
    &&& slots[i].0 == d
    &&& forall|j: int| 0 <= j < i ==> slots[j].0 != d
}

/// Some slot belongs to domain `d`.
pub open spec fn has_slot(slots: Seq<SlotView>, d: DomainHash) -> bool {
    exists|i: int| 0 <= i < slots.len() && slots[i].0 == d
}

/// The leaves of published scores: the digests of their values' bytes, in
/// the order of the entries.
pub open spec fn published_leaves(s: ScoresView) -> Seq<Seq<u8>> {
    Seq::new(s.len(), |i: int| keccak256_of(be_bytes(s[i].1)))
}

/// The root of the tree over the scores that the assignment's commitment
/// names, or why there is none.
pub open spec fn tree_root_for(
    s: SlotView,
    cs: Seq<(Seq<u8>, Seq<u8>, Seq<u8>, Seq<u8>)>,
    id: Seq<u8>,
) -> Result<Seq<u8>, Error> {
    match lookup_commitment(cs, id) {
        None => Err(Error::CommitmentMissing),
        Some(c) => match lookup(s.2, c.3) {
            None => Err(Error::ScoresMissing),
            Some(sc) => if sc.len() == 0 {
                Err(Error::MerkleBuild)
            } else {
                Ok(merkle_root(published_leaves(sc)))
            },
        },
    }
}

/// The verifier's verdict on the scores that the assignment's commitment
/// names; `None` where the commitment or the scores are missing or a score
/// names an unknown peer.
pub open spec fn verdict_for(
    s: SlotView,
    cs: Seq<(Seq<u8>, Seq<u8>, Seq<u8>, Seq<u8>)>,
    id: Seq<u8>,
) -> Option<bool> {
    match lookup_commitment(cs, id) {
        None => None,
        Some(c) => match lookup(s.2, c.3) {
            None => None,
            Some(sc) => if forall|k: int| 0 <= k < sc.len() ==> s.1.0.contains(#[trigger] sc[k].0) {
                Some(verifier_accepts(s.1.1, s.1.2, placed(s.1.0, sc)))
            } else {
                None
            },
        },
    }
}

/// `r` is the verifier's outcome on the scores that the assignment's
/// commitment names: `CommitmentMissing` or `ScoresMissing` where those are
/// missing, `UnknownPeer` naming the first score whose peer is not interned,
/// else the verdict.
pub open spec fn verification_result(
    s: SlotView,
    cs: Seq<(Seq<u8>, Seq<u8>, Seq<u8>, Seq<u8>)>,
    id: Seq<u8>,
    r: Result<bool, Error>,
) -> bool {
    match lookup_commitment(cs, id) {
        None => r == Err::<bool, Error>(Error::CommitmentMissing),
        Some(c) => match lookup(s.2, c.3) {
            None => r == Err::<bool, Error>(Error::ScoresMissing),
            Some(sc) => if exists|k: int| first_unknown(s.1.0, sc, k) {
                &&& r is Err
                &&& r->Err_0 is UnknownPeer
                &&& exists|k: int| first_unknown(s.1.0, sc, k) && r->Err_0->UnknownPeer_0@ == sc[k].0
            } else {
                r == Ok::<bool, Error>(verifier_accepts(s.1.1, s.1.2, placed(s.1.0, sc)))
            },
        },
    }
}

/// Merkle determinism through the runner: published scores with the same
/// values in the same order (whatever their peers) get the same compute root.
pub proof fn lemma_compute_root_determined_by_values(sc1: ScoresView, sc2: ScoresView)
    requires
        sc1.len() == sc2.len(),
        forall|k: int| 0 <= k < sc1.len() ==> sc1[k].1 == sc2[k].1,
    ensures
        merkle_root(published_leaves(sc1)) == merkle_root(published_leaves(sc2)),
{
    assert(published_leaves(sc1) == published_leaves(sc2));
}

/// The slot with `root` recorded as the compute root of assignment `id`.
pub open spec fn with_tree(s: SlotView, id: Seq<u8>, root: Seq<u8>) -> SlotView {
    (s.0, s.1, s.2, s.3.push((id, root)), s.4)
}

/// The assignments among `ids` that have a commitment, in order.
pub open spec fn committed(ids: Seq<Seq<u8>>, cs: Seq<(Seq<u8>, Seq<u8>, Seq<u8>, Seq<u8>)>) -> Seq<Seq<u8>>
    decreases ids.len(),
{
    if ids.len() == 0 {
        ids
    } else if lookup_commitment(cs, ids.last()) is Some {
        committed(ids.drop_last(), cs).push(ids.last())
    } else {
        committed(ids.drop_last(), cs)
    }
}

/// The assignments among `ids` that have no commitment, in order.
pub open spec fn uncommitted(ids: Seq<Seq<u8>>, cs: Seq<(Seq<u8>, Seq<u8>, Seq<u8>, Seq<u8>)>) -> Seq<Seq<u8>>
    decreases ids.len(),
{
    if ids.len() == 0 {
        ids
    } else if lookup_commitment(cs, ids.last()) is Some {
        uncommitted(ids.drop_last(), cs)
    } else {
        uncommitted(ids.drop_last(), cs).push(ids.last())
    }
}

/// The tree and the verdict of an assignment can both be had.
pub open spec fn checkable(s: SlotView, cs: Seq<(Seq<u8>, Seq<u8>, Seq<u8>, Seq<u8>)>, id: Seq<u8>) -> bool {
    tree_root_for(s, cs, id) is Ok && verdict_for(s, cs, id) is Some
}

/// A finished assignment passes: the root committed to equals the root of
/// the tree over its scores, and the verifier accepts those scores.
pub open spec fn passes(s: SlotView, cs: Seq<(Seq<u8>, Seq<u8>, Seq<u8>, Seq<u8>)>, id: Seq<u8>) -> bool {
    &&& tree_root_for(s, cs, id) == Ok::<Seq<u8>, Error>(lookup_commitment(cs, id).unwrap().2)
    &&& verdict_for(s, cs, id) == Some(true)
}

/// The compute roots recorded while checking the assignments `done`.
pub open spec fn roots_recorded(
    s: SlotView,
    cs: Seq<(Seq<u8>, Seq<u8>, Seq<u8>, Seq<u8>)>,
    done: Seq<Seq<u8>>,
) -> Seq<(Seq<u8>, Seq<u8>)> {
    Seq::new(done.len(), |k: int| (done[k], tree_root_for(s, cs, done[k])->Ok_0))
}

/// The runner as the contracts see it: its slots and its commitments.
pub type RunnerView = (Seq<SlotView>, Seq<(Seq<u8>, Seq<u8>, Seq<u8>, Seq<u8>)>);

/// The results of a check, as the contracts see them.
pub open spec fn results_view(
    r: Result<Vec<(crate::merkle::Hash, bool)>, Error>,
) -> Option<Seq<(Seq<u8>, bool)>> {
    match r {
        Ok(v) => Some(Seq::new(v@.len(), |k: int| (v@[k].0@, v@[k].1))),
        Err(_) => None,
    }
}

proof fn lemma_committed_prefix(ids: Seq<Seq<u8>>, cs: Seq<(Seq<u8>, Seq<u8>, Seq<u8>, Seq<u8>)>, k: int)
    requires
        0 <= k <= ids.len(),
    ensures
        committed(ids.take(k), cs).len() <= committed(ids, cs).len(),
        forall|j: int|
            0 <= j < committed(ids.take(k), cs).len() ==> committed(ids, cs)[j] == #[trigger] committed(
                ids.take(k),
                cs,
            )[j],
    decreases ids.len() - k,
{
    if k < ids.len() {
        lemma_committed_prefix(ids, cs, k + 1);
        assert(ids.take(k + 1).drop_last() == ids.take(k));
        let a = committed(ids.take(k), cs);
        let b = committed(ids.take(k + 1), cs);
        assert(a.len() <= b.len());
        assert forall|j: int| 0 <= j < a.len() implies committed(ids, cs)[j] == #[trigger] a[j] by {
            assert(b[j] == a[j]);
        }
    } else {
        assert(ids.take(k) == ids);
    }
}

/// The outcome of checking the finished assignments of slot `i`: success
/// exactly where every committed assignment is checkable; then one result per
/// committed assignment in order, their roots recorded, and only the
/// uncommitted assignments kept.
pub open spec fn checked(
    before: RunnerView,
    after: RunnerView,
    i: int,
    out: Option<Seq<(Seq<u8>, bool)>>,
) -> bool {
    let s = before.0[i];
    let cs = before.1;
    let done = committed(s.4, cs);
    &&& out is Some <==> forall|k: int| 0 <= k < done.len() ==> checkable(s, cs, #[trigger] done[k])
    &&& out is Some ==> {
        &&& out->0 == Seq::new(done.len(), |k: int| (done[k], passes(s, cs, done[k])))
        &&& after == (
            before.0.update(i, (s.0, s.1, s.2, s.3 + roots_recorded(s, cs, done), uncommitted(s.4, cs))),
            cs,
        )
    }
}

struct Slot {
    domain: DomainHash,
    state: DomainState,
    scores: Vec<(crate::merkle::Hash, Scores)>,
    trees: Vec<(crate::merkle::Hash, crate::merkle::Hash)>,
    active: Vec<crate::merkle::Hash>,
}

impl View for Slot {
    type V = SlotView;

    closed spec fn view(&self) -> SlotView {
        (
            self.domain,
            self.state@,
            Seq::new(self.scores@.len(), |i: int| (self.scores@[i].0@, self.scores@[i].1@)),
            Seq::new(self.trees@.len(), |i: int| (self.trees@[i].0@, self.trees@[i].1@)),
            hashes_view(self.active@),
        )
    }
}

/// State of the verification runner.
pub struct VerificationRunner {
    slots: Vec<Slot>,
    commitments: Vec<Commitment>,
}

impl View for VerificationRunner {
    type V = (Seq<SlotView>, Seq<(Seq<u8>, Seq<u8>, Seq<u8>, Seq<u8>)>);

    closed spec fn view(&self) -> (Seq<SlotView>, Seq<(Seq<u8>, Seq<u8>, Seq<u8>, Seq<u8>)>) {
        (
            Seq::new(self.slots@.len(), |i: int| self.slots@[i]@),
            Seq::new(self.commitments@.len(), |i: int| self.commitments@[i]@),
        )
    }
}

impl VerificationRunner {
    pub closed spec fn wf(&self) -> bool {
        forall|i: int| 0 <= i < self.slots@.len() ==> (#[trigger] self.slots@[i]).state.wf()
    }

    /// A runner with an empty state for each domain.
    pub fn new(domains: &Vec<DomainHash>) -> (r: Self)
        ensures
            r.wf(),
            r@.1.len() == 0,
            r@.0.len() == domains@.len(),
            forall|i: int|
                0 <= i < domains@.len() ==> #[trigger] r@.0[i] == (
                    domains@[i],
                    (Seq::<Seq<char>>::empty(), Seq::<Option<crate::et::RowView>>::empty(), Seq::<Option<u32>>::empty()),
                    Seq::<(Seq<u8>, ScoresView)>::empty(),
                    Seq::<(Seq<u8>, Seq<u8>)>::empty(),
                    Seq::<Seq<u8>>::empty(),
                ),
    {
        let mut slots: Vec<Slot> = Vec::new();
        let n = domains.len();
        let mut i: usize = 0;
        while i < n
            invariant
                n == domains@.len(),
                i <= n,
                slots@.len() == i,
                forall|k: int| 0 <= k < i ==> (#[trigger] slots@[k]).state.wf(),
                forall|k: int|
                    0 <= k < i ==> #[trigger] slots@[k]@ == (
                        domains@[k],
                        (Seq::<Seq<char>>::empty(), Seq::<Option<crate::et::RowView>>::empty(), Seq::<Option<u32>>::empty()),
                        Seq::<(Seq<u8>, ScoresView)>::empty(),
                        Seq::<(Seq<u8>, Seq<u8>)>::empty(),
                        Seq::<Seq<u8>>::empty(),
                    ),
            decreases n - i,
        {
            let slot = Slot {
                domain: domains[i],
                state: DomainState::new(),
                scores: Vec::new(),
                trees: Vec::new(),
                active: Vec::new(),
            };
            proof {
                assert(slot@.2 == Seq::<(Seq<u8>, ScoresView)>::empty());
                assert(slot@.3 == Seq::<(Seq<u8>, Seq<u8>)>::empty());
                assert(slot@.4 == Seq::<Seq<u8>>::empty());
            }
            slots.push(slot);
            i = i + 1;
        }
        let r = VerificationRunner { slots, commitments: Vec::new() };
        proof {
            assert(r@.1 == Seq::<(Seq<u8>, Seq<u8>, Seq<u8>, Seq<u8>)>::empty());
        }
        r
    }

    fn find_slot(&self, domain: DomainHash) -> (r: Option<usize>)
        ensures
            r is Some ==> first_slot(self@.0, domain, r->0 as int),
            r is None ==> !has_slot(self@.0, domain),
    {
        let n = self.slots.len();
        let mut i: usize = 0;
        while i < n
            invariant
                n == self.slots@.len(),
                i <= n,
                forall|j: int| 0 <= j < i ==> self@.0[j].0 != domain,
            decreases n - i,
        {
            if self.slots[i].domain == domain {
                proof {
                    assert(self@.0[i as int].0 == domain);
                }
                return Some(i);
            }
            proof {
                assert(self@.0[i as int].0 == self.slots@[i as int].domain);
            }
            i = i + 1;
        }
        None
    }

    fn take_slot(&mut self, i: usize) -> (r: Slot)
        requires
            i < old(self).slots@.len(),
        ensures
            r == old(self).slots@[i as int],
            final(self).slots@ == old(self).slots@.remove(i as int),
            final(self).commitments == old(self).commitments,
    {
        self.slots.remove(i)
    }

    fn put_slot(&mut self, i: usize, slot: Slot)
        requires
            i <= old(self).slots@.len(),
        ensures
            final(self).slots@ == old(self).slots@.insert(i as int, slot),
            final(self).commitments == old(self).commitments,
    {
        self.slots.insert(i, slot);
    }

    /// Applies trust entries to the state of a domain.
    pub fn update_trust(
        &mut self,
        domain: DomainHash,
        trust_entries: &Vec<TrustEntry>,
    ) -> (r: Result<(), Error>)
        requires
            old(self).wf(),
        ensures
            final(self).wf(),
            r is Err <==> !has_slot(old(self)@.0, domain),
            r is Err ==> r->Err_0 == Error::DomainMissing && final(self)@ == old(self)@,
            r is Ok ==> exists|i: int|
                first_slot(old(self)@.0, domain, i) && final(self)@ == (
                    old(self)@.0.update(
                        i,
                        (
                            old(self)@.0[i].0,
                            with_trust_entries(old(self)@.0[i].1, trust_entries_view(trust_entries@)),
                            old(self)@.0[i].2,
                            old(self)@.0[i].3,
                            old(self)@.0[i].4,
                        ),
                    ),
                    old(self)@.1,
                ),
    {
        match self.find_slot(domain) {
            None => Err(Error::DomainMissing),
            Some(i) => {
                let ghost before = self@;
                let ghost old_slots = self.slots@;
                let mut slot = self.take_slot(i);
                slot.state.update_trust(trust_entries);
                self.put_slot(i, slot);
                proof {
                    assert(self.slots@ == old_slots.update(i as int, slot));
                    assert(self@.0 =~= before.0.update(i as int, slot@));
                    assert(self@.1 =~= before.1);
                    assert forall|k: int| 0 <= k < self.slots@.len() implies (#[trigger] self.slots@[k]).state.wf() by {
                        if k != i {
                            assert(self.slots@[k] == old_slots[k]);
                        }
                    }
                }
                Ok(())
            },
        }
    }

    /// Applies seed entries to the state of a domain.
    pub fn update_seed(
        &mut self,
        domain: DomainHash,
        seed_entries: &Vec<ScoreEntry>,
    ) -> (r: Result<(), Error>)
        requires
            old(self).wf(),
        ensures
            final(self).wf(),
            r is Err <==> !has_slot(old(self)@.0, domain),
            r is Err ==> r->Err_0 == Error::DomainMissing && final(self)@ == old(self)@,
            r is Ok ==> exists|i: int|
                first_slot(old(self)@.0, domain, i) && final(self)@ == (
                    old(self)@.0.update(
                        i,
                        (
                            old(self)@.0[i].0,
                            with_seed_entries(old(self)@.0[i].1, score_entries_view(seed_entries@)),
                            old(self)@.0[i].2,
                            old(self)@.0[i].3,
                            old(self)@.0[i].4,
                        ),
                    ),
                    old(self)@.1,
                ),
    {
        match self.find_slot(domain) {
            None => Err(Error::DomainMissing),
            Some(i) => {
                let ghost before = self@;
                let ghost old_slots = self.slots@;
                let mut slot = self.take_slot(i);
                slot.state.update_seed(seed_entries);
                self.put_slot(i, slot);
                proof {
                    assert(self.slots@ == old_slots.update(i as int, slot));
                    assert(self@.0 =~= before.0.update(i as int, slot@));
                    assert(self@.1 =~= before.1);
                    assert forall|k: int| 0 <= k < self.slots@.len() implies (#[trigger] self.slots@[k]).state.wf() by {
                        if k != i {
                            assert(self.slots@[k] == old_slots[k]);
                        }
                    }
                }
                Ok(())
            },
        }
    }

    /// Stores published scores of a domain under their identifier.
    pub fn update_scores(
        &mut self,
        domain: DomainHash,
        hash: crate::merkle::Hash,
        compute_scores: Scores,
    ) -> (r: Result<(), Error>)
        requires
            old(self).wf(),
        ensures
            final(self).wf(),
            r is Err <==> !has_slot(old(self)@.0, domain),
            r is Err ==> r->Err_0 == Error::DomainMissing && final(self)@ == old(self)@,
            r is Ok ==> exists|i: int|
                first_slot(old(self)@.0, domain, i) && final(self)@ == (
                    old(self)@.0.update(
                        i,
                        (
                            old(self)@.0[i].0,
                            old(self)@.0[i].1,
                            old(self)@.0[i].2.push((hash@, compute_scores@)),
                            old(self)@.0[i].3,
                            old(self)@.0[i].4,
                        ),
                    ),
                    old(self)@.1,
                ),
    {
        match self.find_slot(domain) {
            None => Err(Error::DomainMissing),
            Some(i) => {
                let ghost before = self@;
                let ghost old_slots = self.slots@;
                let mut slot = self.take_slot(i);
                let ghost s0 = slot@;
                slot.scores.push((hash, compute_scores));
                proof {
                    assert(slot@.2 =~= s0.2.push((hash@, compute_scores@)));
                }
                self.put_slot(i, slot);
                proof {
                    assert(self.slots@ == old_slots.update(i as int, slot));
                    assert(self@.0 =~= before.0.update(i as int, slot@));
                    assert(self@.1 =~= before.1);
                    assert forall|k: int| 0 <= k < self.slots@.len() implies (#[trigger] self.slots@[k]).state.wf() by {
                        if k != i {
                            assert(self.slots@[k] == old_slots[k]);
                        }
                    }
                }
                Ok(())
            },
        }
    }

    /// Adds an assignment to check for a domain, unless it is already there.
    pub fn update_assigment(
        &mut self,
        domain: DomainHash,
        compute_assignment_tx_hash: crate::merkle::Hash,
    ) -> (r: Result<(), Error>)
        requires
            old(self).wf(),
        ensures
            final(self).wf(),
            r is Err <==> !has_slot(old(self)@.0, domain),
            r is Err ==> r->Err_0 == Error::DomainMissing && final(self)@ == old(self)@,
            r is Ok ==> exists|i: int|
                first_slot(old(self)@.0, domain, i) && final(self)@ == (
                    old(self)@.0.update(
                        i,
                        (
                            old(self)@.0[i].0,
                            old(self)@.0[i].1,
                            old(self)@.0[i].2,
                            old(self)@.0[i].3,
                            if old(self)@.0[i].4.contains(compute_assignment_tx_hash@) {
                                old(self)@.0[i].4
                            } else {
                                old(self)@.0[i].4.push(compute_assignment_tx_hash@)
                            },
                        ),
                    ),
                    old(self)@.1,
                ),
    {
        match self.find_slot(domain) {
            None => Err(Error::DomainMissing),
            Some(i) => {
                let ghost before = self@;
                let ghost old_slots = self.slots@;
                let mut slot = self.take_slot(i);
                let ghost s0 = slot@;
                let n = slot.active.len();
                let mut k: usize = 0;
                let mut found = false;
                while k < n
                    invariant
                        n == slot.active@.len(),
                        k <= n,
                        s0 == slot@,
                        found == exists|j: int| 0 <= j < k && hashes_view(slot.active@)[j] == compute_assignment_tx_hash@,
                    decreases n - k,
                {
                    if slot.active[k].same_as(&compute_assignment_tx_hash) {
                        found = true;
                        proof {
                            assert(hashes_view(slot.active@)[k as int] == compute_assignment_tx_hash@);
                        }
                    }
                    k = k + 1;
                }
                if !found {
                    slot.active.push(compute_assignment_tx_hash);
                    proof {
                        assert(slot@.4 =~= s0.4.push(compute_assignment_tx_hash@));
                    }
                }
                proof {
                    if s0.4.contains(compute_assignment_tx_hash@) {
                        let j = choose|j: int| 0 <= j < s0.4.len() && s0.4[j] == compute_assignment_tx_hash@;
                        assert(found);
                    }
                }
                self.put_slot(i, slot);
                proof {
                    assert(self.slots@ == old_slots.update(i as int, slot));
                    assert(self@.0 =~= before.0.update(i as int, slot@));
                    assert(self@.1 =~= before.1);
                    assert forall|k: int| 0 <= k < self.slots@.len() implies (#[trigger] self.slots@[k]).state.wf() by {
                        if k != i {
                            assert(self.slots@[k] == old_slots[k]);
                        }
                    }
                }
                Ok(())
            },
        }
    }

    /// Stores a commitment; a later one for the same assignment wins.
    pub fn update_commitment(&mut self, commitment: Commitment)
        requires
            old(self).wf(),
        ensures
            final(self).wf(),
            final(self)@ == (old(self)@.0, old(self)@.1.push(commitment@)),
    {
        let ghost before = self@;
        self.commitments.push(commitment);
        proof {
            assert(self@.1 =~= before.1.push(commitment@));
            assert(self@.0 =~= before.0);
        }
    }

    fn find_commitment(&self, id: &crate::merkle::Hash) -> (r: Option<Commitment>)
        ensures
            r is None ==> lookup_commitment(self@.1, id@) is None,
            r is Some ==> lookup_commitment(self@.1, id@) == Some(r->0@),
    {
        let ghost cs = self@.1;
        let n = self.commitments.len();
        let mut k: usize = n;
        proof {
            assert(cs.take(n as int) == cs);
        }
        while k > 0
            invariant
                k <= n,
                n == self.commitments@.len(),
                cs == self@.1,
                lookup_commitment(cs, id@) == lookup_commitment(cs.take(k as int), id@),
            decreases k,
        {
            let c = self.commitments[k - 1];
            proof {
                assert(cs.take(k as int).drop_last() == cs.take(k - 1));
                assert(cs.take(k as int).last() == c@);
            }
            if c.assignment_id().same_as(id) {
                return Some(c);
            }
            k = k - 1;
        }
        None
    }

    fn find_scores(slot: &Slot, key: &crate::merkle::Hash) -> (r: Option<usize>)
        ensures
            r is None ==> lookup(slot@.2, key@) is None,
            r is Some ==> r->0 < slot.scores@.len() && lookup(slot@.2, key@) == Some(
                slot.scores@[r->0 as int].1@,
            ),
    {
        let ghost ps = slot@.2;
        let n = slot.scores.len();
        let mut k: usize = n;
        proof {
            assert(ps.take(n as int) == ps);
        }
        while k > 0
            invariant
                k <= n,
                n == slot.scores@.len(),
                ps == slot@.2,
                lookup(ps, key@) == lookup(ps.take(k as int), key@),
            decreases k,
        {
            proof {
                assert(ps.take(k as int).drop_last() == ps.take(k - 1));
                assert(ps.take(k as int).last() == ps[k - 1]);
            }
            if slot.scores[k - 1].0.same_as(key) {
                return Some(k - 1);
            }
            k = k - 1;
        }
        None
    }

    fn find_tree(slot: &Slot, key: &crate::merkle::Hash) -> (r: Option<crate::merkle::Hash>)
        ensures
            r is None ==> lookup(slot@.3, key@) is None,
            r is Some ==> lookup(slot@.3, key@) == Some(r->0@),
    {
        let ghost ps = slot@.3;
        let n = slot.trees.len();
        let mut k: usize = n;
        proof {
            assert(ps.take(n as int) == ps);
        }
        while k > 0
            invariant
                k <= n,
                n == slot.trees@.len(),
                ps == slot@.3,
                lookup(ps, key@) == lookup(ps.take(k as int), key@),
            decreases k,
        {
            proof {
                assert(ps.take(k as int).drop_last() == ps.take(k - 1));
                assert(ps.take(k as int).last() == ps[k - 1]);
            }
            if slot.trees[k - 1].0.same_as(key) {
                return Some(slot.trees[k - 1].1);
            }
            k = k - 1;
        }
        None
    }

    fn scores_root(scores: &Scores) -> (r: Result<crate::merkle::Hash, Error>)
        ensures
            r is Err <==> scores@.len() == 0,
            r is Err ==> r->Err_0 == Error::MerkleBuild,
            r is Ok ==> r->Ok_0@ == merkle_root(published_leaves(scores@)),
    {
        let entries = scores.entries();
        let ghost sv = scores@;
        let n = entries.len();
        let mut leaves: Vec<crate::merkle::Hash> = Vec::new();
        let mut i: usize = 0;
        while i < n
            invariant
                n == entries@.len(),
                sv == Seq::new(entries@.len(), |k: int| entries@[k]@),
                i <= n,
                leaves@.len() == i,
                hashes_view(leaves@) == published_leaves(sv).take(i as int),
            decreases n - i,
        {
            let h = score_leaf(entries[i].value());
            let ghost before = leaves@;
            leaves.push(h);
            proof {
                assert(sv[i as int] == entries@[i as int]@);
                assert(hashes_view(leaves@) == hashes_view(before).push(h@));
                assert(hashes_view(leaves@) == published_leaves(sv).take(i + 1));
            }
            i = i + 1;
        }
        proof {
            assert(published_leaves(sv).take(n as int) == published_leaves(sv));
        }
        match DenseMerkleTree::new(leaves) {
            Ok(t) => Ok(t.root()),
            Err(_) => Err(Error::MerkleBuild),
        }
    }

    /// The root of the tree over the scores that an assignment's commitment
    /// names, without recording it.
    fn tree_root(
        &self,
        i: usize,
        assignment_id: &crate::merkle::Hash,
    ) -> (r: Result<crate::merkle::Hash, Error>)
        requires
            i < self@.0.len(),
        ensures
            r is Err ==> tree_root_for(self@.0[i as int], self@.1, assignment_id@) == Err::<Seq<u8>, Error>(r->Err_0),
            r is Ok ==> tree_root_for(self@.0[i as int], self@.1, assignment_id@) == Ok::<Seq<u8>, Error>(r->Ok_0@),
    {
        let commitment = match self.find_commitment(assignment_id) {
            Some(c) => c,
            None => {
                return Err(Error::CommitmentMissing);
            },
        };
        let slot = &self.slots[i];
        proof {
            assert(self@.0[i as int] == slot@);
        }
        let j = match Self::find_scores(slot, &commitment.scores_id()) {
            Some(j) => j,
            None => {
                return Err(Error::ScoresMissing);
            },
        };
        Self::scores_root(&slot.scores[j].1)
    }

    /// Builds the tree over the scores that an assignment's commitment names
    /// and records its root for the assignment.
    pub fn create_compute_tree(
        &mut self,
        domain: DomainHash,
        assignment_id: crate::merkle::Hash,
    ) -> (r: Result<(), Error>)
        requires
            old(self).wf(),
        ensures
            final(self).wf(),
            !has_slot(old(self)@.0, domain) ==> r == Err::<(), Error>(Error::DomainMissing) && final(self)@ == old(self)@,
            has_slot(old(self)@.0, domain) ==> exists|i: int|
                {
                    &&& first_slot(old(self)@.0, domain, i)
                    &&& tree_root_for(old(self)@.0[i], old(self)@.1, assignment_id@) is Err ==> r
                        == Err::<(), Error>(tree_root_for(old(self)@.0[i], old(self)@.1, assignment_id@)->Err_0)
                        && final(self)@ == old(self)@
                    &&& tree_root_for(old(self)@.0[i], old(self)@.1, assignment_id@) is Ok ==> r is Ok
                        && final(self)@ == (
                        old(self)@.0.update(
                            i,
                            with_tree(
                                old(self)@.0[i],
                                assignment_id@,
                                tree_root_for(old(self)@.0[i], old(self)@.1, assignment_id@)->Ok_0,
                            ),
                        ),
                        old(self)@.1,
                    )
                },
    {
        let i = match self.find_slot(domain) {
            Some(i) => i,
            None => {
                return Err(Error::DomainMissing);
            },
        };
        let root = match self.tree_root(i, &assignment_id) {
            Ok(root) => root,
            Err(e) => {
                return Err(e);
            },
        };
        let ghost before = self@;
        let ghost old_slots = self.slots@;
        let mut slot = self.take_slot(i);
        let ghost s0 = slot@;
        slot.trees.push((assignment_id, root));
        proof {
            assert(slot@.3 =~= s0.3.push((assignment_id@, root@)));
            assert(slot@ == with_tree(s0, assignment_id@, root@));
        }
        self.put_slot(i, slot);
        proof {
            assert(self.slots@ == old_slots.update(i as int, slot));
            assert(self@.0 =~= before.0.update(i as int, slot@));
            assert(self@.1 =~= before.1);
            assert forall|k: int| 0 <= k < self.slots@.len() implies (#[trigger] self.slots@[k]).state.wf() by {
                if k != i {
                    assert(self.slots@[k] == old_slots[k]);
                }
            }
        }
        Ok(())
    }

    fn verdict(&self, i: usize, assignment_id: &crate::merkle::Hash) -> (r: Result<bool, Error>)
        requires
            self.wf(),
            i < self@.0.len(),
        ensures
            r is Ok <==> verdict_for(self@.0[i as int], self@.1, assignment_id@) is Some,
            r is Ok ==> verdict_for(self@.0[i as int], self@.1, assignment_id@) == Some(r->Ok_0),
            verification_result(self@.0[i as int], self@.1, assignment_id@, r),
    {
        let commitment = match self.find_commitment(assignment_id) {
            Some(c) => c,
            None => {
                return Err(Error::CommitmentMissing);
            },
        };
        let slot = &self.slots[i];
        proof {
            assert(self@.0[i as int] == slot@);
            assert(slot.state.wf());
        }
        let j = match Self::find_scores(slot, &commitment.scores_id()) {
            Some(j) => j,
            None => {
                return Err(Error::ScoresMissing);
            },
        };
        let entries = slot.scores[j].1.entries();
        let ghost sc = slot.scores@[j as int].1@;
        proof {
            assert(score_entries_view(entries@) == sc);
            assert(slot@.1 == slot.state@);
            assert(forall|k: int| 0 <= k < sc.len() ==> sc[k] == entries@[k]@);
            if forall|k: int| 0 <= k < sc.len() ==> slot@.1.0.contains(#[trigger] sc[k].0) {
                assert forall|k: int| 0 <= k < entries@.len() implies slot.state@.0.contains(
                    #[trigger] entries@[k]@.0,
                ) by {
                    assert(sc[k] == entries@[k]@);
                }
            }
            if !(exists|k: int| 0 <= k < entries@.len() && !slot.state@.0.contains(#[trigger] entries@[k]@.0)) {
                assert forall|k: int| 0 <= k < sc.len() implies slot@.1.0.contains(#[trigger] sc[k].0) by {
                    assert(sc[k] == entries@[k]@);
                    assert(slot.state@.0.contains(entries@[k]@.0));
                }
            }
        }
        slot.state.verify(entries)
    }

    /// The verifier's verdict on the scores that an assignment's commitment
    /// names, on the domain's trust and seed.
    pub fn compute_verification(
        &self,
        domain: DomainHash,
        assignment_id: crate::merkle::Hash,
    ) -> (r: Result<bool, Error>)
        requires
            self.wf(),
        ensures
            !has_slot(self@.0, domain) ==> r == Err::<bool, Error>(Error::DomainMissing),
            has_slot(self@.0, domain) ==> exists|i: int|
                {
                    &&& first_slot(self@.0, domain, i)
                    &&& verification_result(self@.0[i], self@.1, assignment_id@, r)
                },
    {
        match self.find_slot(domain) {
            Some(i) => self.verdict(i, &assignment_id),
            None => Err(Error::DomainMissing),
        }
    }

    /// The compute root recorded for an assignment.
    pub fn get_root_hashes(
        &self,
        domain: DomainHash,
        assignment_id: crate::merkle::Hash,
    ) -> (r: Result<crate::merkle::Hash, Error>)
        ensures
            !has_slot(self@.0, domain) ==> r == Err::<crate::merkle::Hash, Error>(Error::DomainMissing),
            has_slot(self@.0, domain) ==> exists|i: int|
                {
                    &&& first_slot(self@.0, domain, i)
                    &&& lookup(self@.0[i].3, assignment_id@) is None ==> r == Err::<crate::merkle::Hash, Error>(Error::TreeMissing)
                    &&& lookup(self@.0[i].3, assignment_id@) is Some ==> r is Ok && lookup(self@.0[i].3, assignment_id@) == Some(r->Ok_0@)
                },
    {
        match self.find_slot(domain) {
            Some(i) => {
                proof {
                    assert(self@.0[i as int] == self.slots@[i as int]@);
                }
                match Self::find_tree(&self.slots[i], &assignment_id) {
                    Some(h) => Ok(h),
                    None => Err(Error::TreeMissing),
                }
            },
            None => Err(Error::DomainMissing),
        }
    }

    proof fn lemma_not_checkable(
        &self,
        s0: SlotView,
        cs: Seq<(Seq<u8>, Seq<u8>, Seq<u8>, Seq<u8>)>,
        pre: Seq<Seq<u8>>,
        post: Seq<Seq<u8>>,
        id: Seq<u8>,
    )
        requires
            post.len() <= s0.4.len(),
            post == s0.4.take(post.len() as int),
            post.drop_last() == pre,
            post.len() > 0,
            post.last() == id,
            lookup_commitment(cs, id) is Some,
            !checkable(s0, cs, id),
        ensures
            !(forall|k: int| 0 <= k < committed(s0.4, cs).len() ==> checkable(s0, cs, #[trigger] committed(s0.4, cs)[k])),
    {
        lemma_committed_prefix(s0.4, cs, post.len() as int);
        assert(committed(post, cs) == committed(pre, cs).push(id));
        let j = committed(pre, cs).len() as int;
        assert(committed(post, cs)[j] == id);
        assert(committed(s0.4, cs)[j] == id);
    }

    fn record_tree(&mut self, i: usize, assignment_id: crate::merkle::Hash, root: crate::merkle::Hash)
        requires
            old(self).wf(),
            i < old(self)@.0.len(),
        ensures
            final(self).wf(),
            final(self)@ == (
                old(self)@.0.update(i as int, with_tree(old(self)@.0[i as int], assignment_id@, root@)),
                old(self)@.1,
            ),
    {
        let ghost before = self@;
        let ghost old_slots = self.slots@;
        let mut slot = self.take_slot(i);
        let ghost s0 = slot@;
        slot.trees.push((assignment_id, root));
        proof {
            assert(slot@.3 =~= s0.3.push((assignment_id@, root@)));
            assert(slot@ == with_tree(s0, assignment_id@, root@));
        }
        self.put_slot(i, slot);
        proof {
            assert(self.slots@ == old_slots.update(i as int, slot));
            assert(self@.0 =~= before.0.update(i as int, slot@));
            assert(self@.1 =~= before.1);
            assert forall|k: int| 0 <= k < self.slots@.len() implies (#[trigger] self.slots@[k]).state.wf() by {
                if k != i {
                    assert(self.slots@[k] == old_slots[k]);
                }
            }
        }
    }

    fn set_active(&mut self, i: usize, active: Vec<crate::merkle::Hash>)
        requires
            old(self).wf(),
            i < old(self)@.0.len(),
        ensures
            final(self).wf(),
            final(self)@ == (
                old(self)@.0.update(
                    i as int,
                    (
                        old(self)@.0[i as int].0,
                        old(self)@.0[i as int].1,
                        old(self)@.0[i as int].2,
                        old(self)@.0[i as int].3,
                        hashes_view(active@),
                    ),
                ),
                old(self)@.1,
            ),
    {
        let ghost before = self@;
        let ghost old_slots = self.slots@;
        let mut slot = self.take_slot(i);
        slot.active = active;
        self.put_slot(i, slot);
        proof {
            assert(self.slots@ == old_slots.update(i as int, slot));
            assert(self@.0 =~= before.0.update(i as int, slot@));
            assert(self@.1 =~= before.1);
            assert forall|k: int| 0 <= k < self.slots@.len() implies (#[trigger] self.slots@[k]).state.wf() by {
                if k != i {
                    assert(self.slots@[k] == old_slots[k]);
                }
            }
        }
    }

    /// Checks every assignment of a domain that has a commitment, in order:
    /// builds the tree over its scores and records the root, compares it
    /// with the root committed to, and runs the verifier; returns each such
    /// assignment with whether both hold, and keeps only the others to
    /// check. Fails on the first assignment whose tree or verdict cannot be
    /// had.
    pub fn check_finished_assignments(
        &mut self,
        domain: DomainHash,
    ) -> (r: Result<Vec<(crate::merkle::Hash, bool)>, Error>)
        requires
            old(self).wf(),
        ensures
            final(self).wf(),
            !has_slot(old(self)@.0, domain) ==> r == Err::<Vec<(crate::merkle::Hash, bool)>, Error>(Error::DomainMissing)
                && final(self)@ == old(self)@,
            has_slot(old(self)@.0, domain) ==> exists|i: int|
                #[trigger] first_slot(old(self)@.0, domain, i) && checked(old(self)@, final(self)@, i, results_view(r)),
    {
        let i = match self.find_slot(domain) {
            Some(i) => i,
            None => {
                return Err(Error::DomainMissing);
            },
        };
        let ghost before = self@;
        proof {
            assert(has_slot(before.0, domain));
        }
        let ghost s0 = self@.0[i as int];
        let ghost cs = self@.1;
        let ghost slots0 = self@.0;
        let mut active: Vec<crate::merkle::Hash> = Vec::new();
        let n = self.slots[i].active.len();
        let mut k: usize = 0;
        while k < n
            invariant
                i < self.slots@.len(),
                n == self.slots@[i as int].active@.len(),
                s0 == self@.0[i as int],
                k <= n,
                hashes_view(active@) == s0.4.take(k as int),
            decreases n - k,
        {
            let h = self.slots[i].active[k];
            let ghost before = active@;
            active.push(h);
            proof {
                assert(self@.0[i as int] == self.slots@[i as int]@);
                assert(hashes_view(active@) == hashes_view(before).push(h@));
                assert(hashes_view(active@) == s0.4.take(k + 1));
            }
            k = k + 1;
        }
        proof {
            assert(s0.4.take(n as int) == s0.4);
        }
        let mut results: Vec<(crate::merkle::Hash, bool)> = Vec::new();
        let mut remaining: Vec<crate::merkle::Hash> = Vec::new();
        let mut k: usize = 0;
        while k < n
            invariant
                self.wf(),
                n == active@.len(),
                hashes_view(active@) == s0.4,
                k <= n,
                i < slots0.len(),
                s0 == slots0[i as int],
                self@.1 == cs,
                before == (slots0, cs),
                before == old(self)@,
                first_slot(slots0, domain, i as int),
                has_slot(slots0, domain),
                self@.0 == slots0.update(
                    i as int,
                    (
                        s0.0,
                        s0.1,
                        s0.2,
                        s0.3 + roots_recorded(s0, cs, committed(s0.4.take(k as int), cs)),
                        s0.4,
                    ),
                ),
                Seq::new(results@.len(), |m: int| (results@[m].0@, results@[m].1)) == Seq::new(
                    committed(s0.4.take(k as int), cs).len(),
                    |m: int|
                        (
                            committed(s0.4.take(k as int), cs)[m],
                            passes(s0, cs, committed(s0.4.take(k as int), cs)[m]),
                        ),
                ),
                hashes_view(remaining@) == uncommitted(s0.4.take(k as int), cs),
                forall|m: int|
                    0 <= m < committed(s0.4.take(k as int), cs).len() ==> checkable(
                        s0,
                        cs,
                        #[trigger] committed(s0.4.take(k as int), cs)[m],
                    ),
            decreases n - k,
        {
            let id = active[k];
            let ghost pre = s0.4.take(k as int);
            let ghost post = s0.4.take(k + 1);
            proof {
                assert(post.drop_last() == pre);
                assert(post.last() == id@);
                assert(hashes_view(active@)[k as int] == id@);
            }
            let ghost cur = self@.0[i as int];
            proof {
                assert(cur == (s0.0, s0.1, s0.2, s0.3 + roots_recorded(s0, cs, committed(pre, cs)), s0.4));
                assert(tree_root_for(cur, cs, id@) == tree_root_for(s0, cs, id@));
                assert(verdict_for(cur, cs, id@) == verdict_for(s0, cs, id@));
            }
            match self.find_commitment(&id) {
                Some(c) => {
                    let root = match self.tree_root(i, &id) {
                        Ok(root) => root,
                        Err(e) => {
                            proof {
                                self.lemma_not_checkable(s0, cs, pre, post, id@);
                                assert(before.0[i as int] == s0);
                                assert(before.1 == cs);
                                assert(checked(before, self@, i as int, None));
                            }
                            return Err(e);
                        },
                    };
                    let ghost results_before = results@;
                    self.record_tree(i, id, root);
                    let ok = match self.verdict(i, &id) {
                        Ok(b) => b,
                        Err(e) => {
                            proof {
                                self.lemma_not_checkable(s0, cs, pre, post, id@);
                                assert(before.0[i as int] == s0);
                                assert(before.1 == cs);
                                assert(checked(before, self@, i as int, None));
                            }
                            return Err(e);
                        },
                    };
                    let same = c.compute_root_hash().same_as(&root);
                    proof {
                        assert(self@.0[i as int] == with_tree(cur, id@, root@));
                        assert(verdict_for(self@.0[i as int], cs, id@) == verdict_for(s0, cs, id@));
                        assert(verdict_for(s0, cs, id@) == Some(ok));
                        assert(tree_root_for(s0, cs, id@) == Ok::<Seq<u8>, Error>(root@));
                        assert(lookup_commitment(cs, id@) == Some(c@));
                        assert(passes(s0, cs, id@) == (same && ok));
                    }
                    results.push((id, same && ok));
                    proof {
                        let rv = Seq::new(results@.len(), |m: int| (results@[m].0@, results@[m].1));
                        let rb = Seq::new(results_before.len(), |m: int| (results_before[m].0@, results_before[m].1));
                        assert(rv =~= rb.push((id@, same && ok)));
                        assert(committed(post, cs) == committed(pre, cs).push(id@));
                        assert(roots_recorded(s0, cs, committed(post, cs)) == roots_recorded(
                            s0,
                            cs,
                            committed(pre, cs),
                        ).push((id@, root@)));
                        assert(uncommitted(post, cs) == uncommitted(pre, cs));
                        let cp = committed(post, cs);
                        let cq = committed(pre, cs);
                        assert(Seq::new(cp.len(), |m: int| (cp[m], passes(s0, cs, cp[m]))) =~= Seq::new(
                            cq.len(),
                            |m: int| (cq[m], passes(s0, cs, cq[m])),
                        ).push((id@, passes(s0, cs, id@))));
                    }
                },
                None => {
                    let ghost rem_before = remaining@;
                    remaining.push(id);
                    proof {
                        assert(committed(post, cs) == committed(pre, cs));
                        assert(uncommitted(post, cs) == uncommitted(pre, cs).push(id@));
                        assert(hashes_view(remaining@) == hashes_view(rem_before).push(id@));
                    }
                },
            }
            k = k + 1;
        }
        proof {
            assert(s0.4.take(n as int) == s0.4);
        }
        let ghost rv = Seq::new(results@.len(), |m: int| (results@[m].0@, results@[m].1));
        let ghost mid = self@;
        self.set_active(i, remaining);
        proof {
            assert(s0.4.take(n as int) == s0.4);
            assert(rv == Seq::new(committed(s0.4, cs).len(), |m: int| (committed(s0.4, cs)[m], passes(s0, cs, committed(s0.4, cs)[m]))));
            assert(results_view(Ok::<Vec<(crate::merkle::Hash, bool)>, Error>(results)) == Some(rv));
            assert(self@.0 =~= slots0.update(i as int, (s0.0, s0.1, s0.2, s0.3 + roots_recorded(s0, cs, committed(s0.4, cs)), uncommitted(s0.4, cs))));
            assert(checked(before, self@, i as int, results_view(Ok::<Vec<(crate::merkle::Hash, bool)>, Error>(results))));
        }
        Ok(results)
    }
}

} // verus!
