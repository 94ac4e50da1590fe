//! Records exchanged with the rest of the system: trust and score entries,
//! requests, assignments, commitments and verification results.
use vstd::prelude::*;

verus! {

/// Identifier of a domain: a 64-bit digest of its description.
#[derive(Clone, Copy, PartialEq, Eq, Structural, Debug)]
pub struct DomainHash {
    pub value: u64,
}

/// Directed outbound trust `from -> to` of weight `value` (a binary32 bit
/// pattern).
#[derive(Clone, Debug, PartialEq)]
pub struct TrustEntry {
    from: String,
    to: String,
    value: u32,
}

impl View for TrustEntry {
    type V = (Seq<char>, Seq<char>, u32);

    closed spec fn view(&self) -> (Seq<char>, Seq<char>, u32) {
        (self.from@, self.to@, self.value)
    }
}

impl TrustEntry {
    pub fn new(from: String, to: String, value: u32) -> (r: Self)
        ensures
            r@ == (from@, to@, value),
    {
        TrustEntry { from, to, value }
    }

    pub fn from(&self) -> (r: &String)
        ensures
            r@ == self@.0,
    {
        &self.from
    }

    pub fn to(&self) -> (r: &String)
        ensures
            r@ == self@.1,
    {
        &self.to
    }

    pub fn value(&self) -> (r: u32)
        ensures
            r == self@.2,
    {
        self.value
    }
}

/// A value (a binary32 bit pattern) for one peer: seed trust or a score.
#[derive(Clone, Debug, PartialEq)]
pub struct ScoreEntry {
    id: String,
    value: u32,
}

impl View for ScoreEntry {
    type V = (Seq<char>, u32);

    closed spec fn view(&self) -> (Seq<char>, u32) {
        (self.id@, self.value)
    }
}

impl ScoreEntry {
    pub fn new(id: String, value: u32) -> (r: Self)
        ensures
            r@ == (id@, value),
    {
        ScoreEntry { id, value }
    }

    pub fn id(&self) -> (r: &String)
        ensures
            r@ == self@.0,
    {
        &self.id
    }

    pub fn value(&self) -> (r: u32)
        ensures
            r == self@.1,
    {
        self.value
    }
}

/// A computer's commitment for an assignment: the roots of its trust and
/// score trees, and the identifier of its published scores.
#[derive(Clone, Copy, Debug)]
pub struct Commitment {
    assignment_id: crate::merkle::Hash,
    lt_root_hash: crate::merkle::Hash,
    compute_root_hash: crate::merkle::Hash,
    scores_id: crate::merkle::Hash,
}

impl View for Commitment {
    type V = (Seq<u8>, Seq<u8>, Seq<u8>, Seq<u8>);

    closed spec fn view(&self) -> (Seq<u8>, Seq<u8>, Seq<u8>, Seq<u8>) {
        (self.assignment_id@, self.lt_root_hash@, self.compute_root_hash@, self.scores_id@)
    }
}

impl Commitment {
    pub fn new(
        assignment_id: crate::merkle::Hash,
        lt_root_hash: crate::merkle::Hash,
        compute_root_hash: crate::merkle::Hash,
        scores_id: crate::merkle::Hash,
    ) -> (r: Self)
        ensures
            r@ == (assignment_id@, lt_root_hash@, compute_root_hash@, scores_id@),
    {
        Commitment { assignment_id, lt_root_hash, compute_root_hash, scores_id }
    }

    pub fn assignment_id(&self) -> (r: crate::merkle::Hash)
        ensures
            r@ == self@.0,
    {
        self.assignment_id
    }

    pub fn lt_root_hash(&self) -> (r: crate::merkle::Hash)
        ensures
            r@ == self@.1,
    {
        self.lt_root_hash
    }

    pub fn compute_root_hash(&self) -> (r: crate::merkle::Hash)
        ensures
            r@ == self@.2,
    {
        self.compute_root_hash
    }

    pub fn scores_id(&self) -> (r: crate::merkle::Hash)
        ensures
            r@ == self@.3,
    {
        self.scores_id
    }
}

/// A published list of score entries.
#[derive(Clone, Debug, PartialEq)]
pub struct Scores {
    entries: Vec<ScoreEntry>,
}

impl View for Scores {
    type V = Seq<(Seq<char>, u32)>;

    closed spec fn view(&self) -> Seq<(Seq<char>, u32)> {
        Seq::new(self.entries@.len(), |i: int| self.entries@[i]@)
    }
}

impl Scores {
    pub fn new(entries: Vec<ScoreEntry>) -> (r: Self)
        ensures
            r@ == Seq::new(entries@.len(), |i: int| entries@[i]@),
    {
        Scores { entries }
    }

    pub fn entries(&self) -> (r: &Vec<ScoreEntry>)
        ensures
            Seq::new(r@.len(), |i: int| r@[i]@) == self@,
    {
        &self.entries
    }
}

/// A compute request for a domain at a block height.
#[derive(Clone, Copy, Debug)]
pub struct Request {
    domain_id: DomainHash,
    block_height: u32,
    compute_id: crate::merkle::Hash,
    seq_number: Option<u64>,
}

impl Request {
    pub closed spec fn spec_domain_id(&self) -> DomainHash {
        self.domain_id
    }

    pub closed spec fn spec_block_height(&self) -> u32 {
        self.block_height
    }

    pub closed spec fn spec_compute_id(&self) -> Seq<u8> {
        self.compute_id@
    }

    pub closed spec fn spec_seq_number(&self) -> Option<u64> {
        self.seq_number
    }

    /// A request without a sequence number.
    pub fn new(domain_id: DomainHash, block_height: u32, compute_id: crate::merkle::Hash) -> (r: Self)
        ensures
            r.spec_domain_id() == domain_id,
            r.spec_block_height() == block_height,
            r.spec_compute_id() == compute_id@,
            r.spec_seq_number() is None,
    {
        Request { domain_id, block_height, compute_id, seq_number: None }
    }

    /// Sets the sequence number and leaves the rest.
    pub fn set_seq_number(&mut self, seq_number: u64)
        ensures
            final(self).spec_seq_number() == Some(seq_number),
            final(self).spec_domain_id() == old(self).spec_domain_id(),
            final(self).spec_block_height() == old(self).spec_block_height(),
            final(self).spec_compute_id() == old(self).spec_compute_id(),
    {
        self.seq_number = Some(seq_number)
    }

    pub fn domain_id(&self) -> (r: DomainHash)
        ensures
            r == self.spec_domain_id(),
    {
        self.domain_id
    }

    pub fn block_height(&self) -> (r: u32)
        ensures
            r == self.spec_block_height(),
    {
        self.block_height
    }

    pub fn compute_id(&self) -> (r: crate::merkle::Hash)
        ensures
            r@ == self.spec_compute_id(),
    {
        self.compute_id
    }

    pub fn seq_number(&self) -> (r: Option<u64>)
        ensures
            r == self.spec_seq_number(),
    {
        self.seq_number
    }
}

/// An account address: 20 bytes.
pub type Address = [u8; 20];

/// The nodes assigned to a request: one computer and its verifiers.
#[derive(Clone, Debug)]
pub struct Assignment {
    request_id: crate::merkle::Hash,
    assigned_compute_node: Address,
    assigned_verifier_nodes: Vec<Address>,
}

impl Assignment {
    pub closed spec fn spec_request_id(&self) -> Seq<u8> {
        self.request_id@
    }

    pub closed spec fn spec_compute_node(&self) -> Seq<u8> {
        self.assigned_compute_node@
    }

    pub closed spec fn spec_verifier_nodes(&self) -> Seq<Address> {
        self.assigned_verifier_nodes@
    }

    pub fn new(
        request_id: crate::merkle::Hash,
        assigned_compute_node: Address,
        assigned_verifier_nodes: Vec<Address>,
    ) -> (r: Self)
        ensures
            r.spec_request_id() == request_id@,
            r.spec_compute_node() == assigned_compute_node@,
            r.spec_verifier_nodes() == assigned_verifier_nodes@,
    {
        Assignment { request_id, assigned_compute_node, assigned_verifier_nodes }
    }

    pub fn request_id(&self) -> (r: crate::merkle::Hash)
        ensures
            r@ == self.spec_request_id(),
    {
        self.request_id
    }

    pub fn assigned_compute_node(&self) -> (r: Address)
        ensures
            r@ == self.spec_compute_node(),
    {
        self.assigned_compute_node
    }

    pub fn assigned_verifier_nodes(&self) -> (r: &Vec<Address>)
        ensures
            r@ == self.spec_verifier_nodes(),
    {
        &self.assigned_verifier_nodes
    }
}

/// A verifier's verdict on an assignment.
#[derive(Clone, Copy, Debug)]
pub struct Verification {
    assignment_id: crate::merkle::Hash,
    verification_result: bool,
}

impl Verification {
    pub closed spec fn spec_assignment_id(&self) -> Seq<u8> {
        self.assignment_id@
    }

    pub closed spec fn spec_result(&self) -> bool {
        self.verification_result
    }

    pub fn new(assignment_id: crate::merkle::Hash, verification_result: bool) -> (r: Self)
        ensures
            r.spec_assignment_id() == assignment_id@,
            r.spec_result() == verification_result,
    {
        Verification { assignment_id, verification_result }
    }

    pub fn assignment_id(&self) -> (r: crate::merkle::Hash)
        ensures
            r@ == self.spec_assignment_id(),
    {
        self.assignment_id
    }

    pub fn verification_result(&self) -> (r: bool)
        ensures
            r == self.spec_result(),
    {
        self.verification_result
    }
}

impl Default for Verification {
    /// The zero assignment, accepted.
    fn default() -> (r: Self)
        ensures
            r.spec_assignment_id() == Seq::new(32, |i: int| 0u8),
            r.spec_result(),
    {
        Verification { assignment_id: crate::merkle::Hash::zero(), verification_result: true }
    }
}

/// A recoverable signature.
#[derive(Clone, Copy, Debug, PartialEq, Eq)]
pub struct Signature {
    s: [u8; 32],
    r: [u8; 32],
    r_id: u8,
}

impl Signature {
    pub closed spec fn spec_s(&self) -> Seq<u8> {
        self.s@
    }

    pub closed spec fn spec_r(&self) -> Seq<u8> {
        self.r@
    }

    pub closed spec fn spec_r_id(&self) -> u8 {
        self.r_id
    }

    pub fn new(s: [u8; 32], r: [u8; 32], r_id: u8) -> (sig: Self)
        ensures
            sig.spec_s() == s@,
            sig.spec_r() == r@,
            sig.spec_r_id() == r_id,
    {
        Signature { s, r, r_id }
    }

    pub fn s(&self) -> (v: [u8; 32])
        ensures
            v@ == self.spec_s(),
    {
        self.s
    }

    pub fn r(&self) -> (v: [u8; 32])
        ensures
            v@ == self.spec_r(),
    {
        self.r
    }

    pub fn r_id(&self) -> (v: u8)
        ensures
            v == self.spec_r_id(),
    {
        self.r_id
    }
}

/// What a computer publishes for one sub-job: the identifier of its scores
/// and its commitment, both hex encoded.
#[derive(Clone, Debug, PartialEq)]
pub struct JobResult {
    scores_id: String,
    commitment: String,
}

impl JobResult {
    pub closed spec fn spec_scores_id(&self) -> Seq<char> {
        self.scores_id@
    }

    pub closed spec fn spec_commitment(&self) -> Seq<char> {
        self.commitment@
    }

    pub fn new(scores_id: String, commitment: String) -> (r: Self)
        ensures
            r.spec_scores_id() == scores_id@,
            r.spec_commitment() == commitment@,
    {
        JobResult { scores_id, commitment }
    }

    pub fn scores_id(&self) -> (r: &String)
        ensures
            r@ == self.spec_scores_id(),
    {
        &self.scores_id
    }

    pub fn commitment(&self) -> (r: &String)
        ensures
            r@ == self.spec_commitment(),
    {
        &self.commitment
    }
}

/// The evidence a challenger posts for a disputed sub-job: the other
/// sub-jobs' commitments and the disputed sub-job's inputs and scores.
#[derive(Clone, Debug, PartialEq)]
pub struct EigenDaJobDescription {
    neighbour_commitments: Vec<String>,
    trust_data: Vec<u8>,
    seed_data: Vec<u8>,
    scores_data: Vec<u8>,
}

impl EigenDaJobDescription {
    pub closed spec fn spec_neighbour_commitments(&self) -> Seq<Seq<char>> {
        Seq::new(self.neighbour_commitments@.len(), |i: int| self.neighbour_commitments@[i]@)
    }

    pub closed spec fn spec_data(&self) -> (Seq<u8>, Seq<u8>, Seq<u8>) {
        (self.trust_data@, self.seed_data@, self.scores_data@)
    }

    pub fn new(
        neighbour_commitments: Vec<String>,
        trust_data: Vec<u8>,
        seed_data: Vec<u8>,
        scores_data: Vec<u8>,
    ) -> (r: Self)
        ensures
            r.spec_neighbour_commitments() == Seq::new(
                neighbour_commitments@.len(),
                |i: int| neighbour_commitments@[i]@,
            ),
            r.spec_data() == (trust_data@, seed_data@, scores_data@),
    {
        EigenDaJobDescription { neighbour_commitments, trust_data, seed_data, scores_data }
    }

    pub fn neighbour_commitments(&self) -> (r: &Vec<String>)
        ensures
            Seq::new(r@.len(), |i: int| r@[i]@) == self.spec_neighbour_commitments(),
    {
        &self.neighbour_commitments
    }

    pub fn trust_data(&self) -> (r: &Vec<u8>)
        ensures
            r@ == self.spec_data().0,
    {
        &self.trust_data
    }

    pub fn seed_data(&self) -> (r: &Vec<u8>)
        ensures
            r@ == self.spec_data().1,
    {
        &self.seed_data
    }

    pub fn scores_data(&self) -> (r: &Vec<u8>)
        ensures
            r@ == self.spec_data().2,
    {
        &self.scores_data
    }
}

} // verus!
