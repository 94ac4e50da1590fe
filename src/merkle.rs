//! Keccak-256 commitments: leaf hashes of scores and dense Merkle trees.
use vstd::prelude::*;

verus! {

/// The Keccak-256 digest of a byte string.
pub uninterp spec fn keccak256_of(data: Seq<u8>) -> Seq<u8>;

/// Relies on sha3's `Keccak256` through `Digest::digest`: the 32-byte
/// Keccak-256 digest of the input, a function of the bytes alone.
#[verifier::external_body]
fn keccak256(data: &[u8]) -> (r: [u8; 32])
    ensures
        r@ == keccak256_of(data@),
{
    <sha3::Keccak256 as sha3::Digest>::digest(data).into()
}

/// A 32-byte hash.
#[derive(Clone, Copy, PartialEq, Eq, Debug)]
pub struct Hash {
    inner: [u8; 32],
}

impl View for Hash {
    type V = Seq<u8>;

    closed spec fn view(&self) -> Seq<u8> {
        self.inner@
    }
}

impl Hash {
    /// The hash with the given bytes.
    pub fn from_bytes(bytes: [u8; 32]) -> (r: Self)
        ensures
            r@ == bytes@,
    {
        Hash { inner: bytes }
    }

    /// The hash of all zero bytes.
    pub fn zero() -> (r: Self)
        ensures
            r@ == Seq::new(32, |i: int| 0u8),
    {
        let r = Hash { inner: [0u8; 32] };
        proof {
            assert(r@ == Seq::new(32, |i: int| 0u8));
        }
        r
    }

    /// The bytes of the hash.
    pub fn inner(&self) -> (r: [u8; 32])
        ensures
            r@ == self@,
    {
        self.inner
    }

    /// Whether two hashes hold the same bytes.
    pub fn same_as(&self, other: &Hash) -> (r: bool)
        ensures
            r == (self@ == other@),
    {
        let mut i: usize = 0;
        while i < 32
            invariant
                i <= 32,
                forall|k: int| 0 <= k < i ==> self.inner@[k] == other.inner@[k],
            decreases 32 - i,
        {
            if self.inner[i] != other.inner[i] {
                return false;
            }
            i = i + 1;
        }
        proof {
            assert(self.inner@ == other.inner@);
        }
        true
    }
}

/// The big-endian bytes of a 32-bit pattern.
pub open spec fn be_bytes(v: u32) -> Seq<u8> {
    seq![
        (v / 0x100_0000) as u8,
        ((v / 0x1_0000) % 0x100) as u8,
        ((v / 0x100) % 0x100) as u8,
        (v % 0x100) as u8,
    ]
}

/// The hash of a leaf: the digest of its pre-image.
pub fn hash_leaf(preimage: &Vec<u8>) -> (r: Hash)
    ensures
        r@ == keccak256_of(preimage@),
{
    Hash { inner: keccak256(preimage.as_slice()) }
}

/// The hash of an inner node: the digest of the left hash followed by the
/// right one.
pub fn hash_two(left: &Hash, right: &Hash) -> (r: Hash)
    ensures
        r@ == keccak256_of(left@ + right@),
{
    let mut bytes: Vec<u8> = Vec::new();
    let mut i: usize = 0;
    while i < 32
        invariant
            i <= 32,
            bytes@ == left.inner@.take(i as int),
        decreases 32 - i,
    {
        bytes.push(left.inner[i]);
        proof {
            assert(bytes@ == left.inner@.take(i + 1));
        }
        i = i + 1;
    }
    let mut i: usize = 0;
    while i < 32
        invariant
            i <= 32,
            bytes@ == left.inner@ + right.inner@.take(i as int),
        decreases 32 - i,
    {
        bytes.push(right.inner[i]);
        proof {
            assert(bytes@ == left.inner@ + right.inner@.take(i + 1));
        }
        i = i + 1;
    }
    proof {
        assert(left.inner@.take(32) == left.inner@);
        assert(right.inner@.take(32) == right.inner@);
    }
    hash_leaf(&bytes)
}

/// The leaf of a score: the digest of the big-endian bytes of its binary32
/// pattern.
pub fn score_leaf(value: u32) -> (r: Hash)
    ensures
        r@ == keccak256_of(be_bytes(value)),
{
    let bytes: Vec<u8> = vec![
        (value / 0x100_0000) as u8,
        ((value / 0x1_0000) % 0x100) as u8,
        ((value / 0x100) % 0x100) as u8,
        (value % 0x100) as u8,
    ];
    proof {
        assert(bytes@ == be_bytes(value));
    }
    hash_leaf(&bytes)
}

/// The views of a list of hashes.
pub open spec fn hashes_view(hs: Seq<Hash>) -> Seq<Seq<u8>> {
    Seq::new(hs.len(), |i: int| hs[i]@)
}

/// The smallest power of two not below `n` (one for zero).
pub open spec fn next_pow2(n: nat) -> nat
    decreases n,
{
    if n <= 1 {
        1
    } else {
        2 * next_pow2(((n + 1) / 2) as nat)
    }
}

/// The leaves padded with copies of the last one up to a power of two.
pub open spec fn padded(leaves: Seq<Seq<u8>>) -> Seq<Seq<u8>> {
    leaves + Seq::new((next_pow2(leaves.len()) - leaves.len()) as nat, |i: int| leaves.last())
}

/// The next level up: the hash of each pair of neighbours.
pub open spec fn level_up(level: Seq<Seq<u8>>) -> Seq<Seq<u8>> {
    Seq::new(level.len() / 2, |i: int| keccak256_of(level[2 * i] + level[2 * i + 1]))
}

/// The root above a level: the level's only node once it has one.
pub open spec fn root_above(level: Seq<Seq<u8>>) -> Seq<u8>
    decreases level.len(),
{
    if level.len() <= 1 {
        level[0]
    } else {
        root_above(level_up(level))
    }
}

/// The root of the dense tree over `leaves`.
pub open spec fn merkle_root(leaves: Seq<Seq<u8>>) -> Seq<u8> {
    root_above(padded(leaves))
}

proof fn lemma_next_pow2_bounds(n: nat)
    ensures
        next_pow2(n) >= n,
        n >= 1 ==> next_pow2(n) < 2 * n,
        next_pow2(n) >= 1,
        n >= 2 ==> next_pow2(n) % 2 == 0,
    decreases n,
{
    if n > 1 {
        let m = ((n + 1) / 2) as nat;
        lemma_next_pow2_bounds(m);
        if m >= 2 {
            assert(next_pow2(m) <= 2 * m - 2);
        }
    }
}

fn next_pow2_exec(n: u64) -> (r: u128)
    ensures
        r == next_pow2(n as nat),
    decreases n,
{
    proof {
        lemma_next_pow2_bounds(n as nat);
    }
    if n <= 1 {
        1
    } else {
        let half = next_pow2_exec(n / 2 + n % 2);
        proof {
            assert((n + 1) / 2 == n / 2 + n % 2);
            lemma_next_pow2_bounds(((n + 1) / 2) as nat);
        }
        2 * half
    }
}

/// Error of the dense tree: it has no root over zero leaves.
#[derive(Clone, Copy, PartialEq, Eq, Debug)]
pub enum MerkleError {
    LeavesEmpty,
}

/// A dense Merkle tree: the padded leaves at level zero, each level above
/// holding the hashes of the pairs below it, up to a single root.
pub struct DenseMerkleTree {
    nodes: Vec<Vec<Hash>>,
}

impl DenseMerkleTree {
    /// The levels, from the padded leaves up to the root.
    pub closed spec fn levels(&self) -> Seq<Seq<Seq<u8>>> {
        Seq::new(self.nodes@.len(), |l: int| hashes_view(self.nodes@[l]@))
    }

    /// Each level is the one below it, paired and hashed, and the top level
    /// holds one node.
    pub open spec fn wf(&self) -> bool {
        &&& self.levels().len() >= 1
        &&& self.levels().last().len() == 1
        &&& forall|l: int|
            0 <= l < self.levels().len() - 1 ==> self.levels()[l + 1] == level_up(
                #[trigger] self.levels()[l],
            ) && self.levels()[l].len() > 1
    }

    /// The padded leaves.
    pub open spec fn leaves_spec(&self) -> Seq<Seq<u8>> {
        self.levels()[0]
    }

    /// The root node.
    pub open spec fn root_spec(&self) -> Seq<u8> {
        self.levels().last()[0]
    }

    /// Builds the tree over `data`, which is padded with copies of its last
    /// hash up to a power of two; fails on no leaves.
    pub fn new(data: Vec<Hash>) -> (r: Result<Self, MerkleError>)
        requires
            data@.len() <= u64::MAX,
        ensures
            data@.len() == 0 <==> r is Err,
            r is Ok ==> r->Ok_0.wf() && r->Ok_0.leaves_spec() == padded(hashes_view(data@))
                && r->Ok_0.root_spec() == merkle_root(hashes_view(data@)),
    {
        let n = data.len();
        if n == 0 {
            return Err(MerkleError::LeavesEmpty);
        }
        let ghost leaves = hashes_view(data@);
        let target = next_pow2_exec(n as u64);
        proof {
            lemma_next_pow2_bounds(n as nat);
        }
        let last = data[n - 1];
        let mut level = data;
        while (level.len() as u128) < target
            invariant
                n <= level@.len() <= target,
                target == next_pow2(n as nat),
                last@ == leaves.last(),
                leaves.len() == n,
                hashes_view(level@) == leaves + Seq::new((level@.len() - n) as nat, |i: int| leaves.last()),
            decreases target - level@.len(),
        {
            let ghost before = level@;
            level.push(last);
            proof {
                assert(hashes_view(level@) == hashes_view(before).push(last@));
                assert(hashes_view(level@) == leaves + Seq::new((level@.len() - n) as nat, |i: int| leaves.last()));
            }
        }
        proof {
            assert(hashes_view(level@) == padded(leaves));
        }
        let mut nodes: Vec<Vec<Hash>> = Vec::new();
        let ghost first = hashes_view(level@);
        let mut current = level;
        while current.len() > 1
            invariant
                current@.len() >= 1,
                root_above(hashes_view(current@)) == root_above(first),
                nodes@.len() >= 0,
                nodes@.len() == 0 ==> hashes_view(current@) == first,
                nodes@.len() > 0 ==> hashes_view(nodes@[0]@) == first,
                nodes@.len() > 0 ==> hashes_view(current@) == level_up(hashes_view(nodes@.last()@)),
                forall|l: int|
                    0 <= l < nodes@.len() - 1 ==> hashes_view(nodes@[l + 1]@) == level_up(
                        hashes_view(#[trigger] nodes@[l]@),
                    ),
                forall|l: int| 0 <= l < nodes@.len() ==> (#[trigger] nodes@[l])@.len() > 1,
            decreases current@.len(),
        {
            let m = current.len();
            let mut next: Vec<Hash> = Vec::new();
            let mut i: usize = 0;
            while i < m / 2
                invariant
                    m == current@.len(),
                    i <= m / 2,
                    hashes_view(next@) == level_up(hashes_view(current@)).take(i as int),
                decreases m / 2 - i,
            {
                let h = hash_two(&current[2 * i], &current[2 * i + 1]);
                let ghost before = next@;
                next.push(h);
                proof {
                    assert(hashes_view(next@) == hashes_view(before).push(h@));
                    assert(hashes_view(next@) == level_up(hashes_view(current@)).take(i + 1));
                }
                i = i + 1;
            }
            proof {
                assert(level_up(hashes_view(current@)).take((m / 2) as int) == level_up(hashes_view(current@)));
            }
            let ghost old_nodes = nodes@;
            let ghost old_current = current@;
            nodes.push(current);
            current = next;
            proof {
                assert(nodes@.last()@ == old_current);
                assert forall|l: int| 0 <= l < nodes@.len() - 1 implies hashes_view(nodes@[l + 1]@) == level_up(
                    hashes_view(#[trigger] nodes@[l]@),
                ) by {
                    if l < old_nodes.len() - 1 {
                        assert(nodes@[l] == old_nodes[l] && nodes@[l + 1] == old_nodes[l + 1]);
                    } else {
                        assert(nodes@[l] == old_nodes.last());
                        assert(nodes@[l + 1]@ == old_current);
                    }
                }
                assert forall|l: int| 0 <= l < nodes@.len() implies (#[trigger] nodes@[l])@.len() > 1 by {
                    if l < old_nodes.len() {
                        assert(nodes@[l] == old_nodes[l]);
                    }
                }
                if old_nodes.len() > 0 {
                    assert(nodes@[0] == old_nodes[0]);
                }
            }
        }
        let ghost top = current@;
        nodes.push(current);
        let t = DenseMerkleTree { nodes };
        proof {
            let lv = t.levels();
            assert(lv.last() == hashes_view(top));
            assert forall|l: int| 0 <= l < lv.len() - 1 implies lv[l + 1] == level_up(#[trigger] lv[l])
                && lv[l].len() > 1 by {
                assert(lv[l] == hashes_view(t.nodes@[l]@));
                assert(lv[l + 1] == hashes_view(t.nodes@[l + 1]@));
            }
            assert(lv[0] == first);
            assert(root_above(hashes_view(top)) == hashes_view(top)[0]);
        }
        Ok(t)
    }

    /// The root node.
    pub fn root(&self) -> (r: Hash)
        requires
            self.wf(),
        ensures
            r@ == self.root_spec(),
    {
        let k = self.nodes.len();
        proof {
            assert(self.levels()[k - 1] == hashes_view(self.nodes@[k - 1]@));
        }
        self.nodes[k - 1][0]
    }
}

proof fn lemma_root_above_levels(t: &DenseMerkleTree, l: int)
    requires
        t.wf(),
        0 <= l < t.levels().len(),
    ensures
        root_above(t.levels()[l]) == t.root_spec(),
    decreases t.levels().len() - l,
{
    if l < t.levels().len() - 1 {
        lemma_root_above_levels(t, l + 1);
        assert(t.levels()[l + 1] == level_up(t.levels()[l]));
    }
}

/// Merkle determinism: two well-formed dense trees over the same leaves have
/// the same root.
pub proof fn lemma_root_determined_by_leaves(t1: &DenseMerkleTree, t2: &DenseMerkleTree)
    requires
        t1.wf(),
        t2.wf(),
        t1.leaves_spec() == t2.leaves_spec(),
    ensures
        t1.root_spec() == t2.root_spec(),
{
    lemma_root_above_levels(t1, 0);
    lemma_root_above_levels(t2, 0);
}

/// The leaves of a score vector, in its order.
pub open spec fn score_leaves(scores: Seq<(u64, u32)>) -> Seq<Seq<u8>> {
    Seq::new(scores.len(), |i: int| keccak256_of(be_bytes(scores[i].1)))
}

/// The dense tree over the leaves of the scores, in their order; fails on no
/// scores.
pub fn create_compute_tree(scores: &Vec<(u64, u32)>) -> (r: Result<DenseMerkleTree, MerkleError>)
    ensures
        scores@.len() == 0 <==> r is Err,
        r is Ok ==> r->Ok_0.wf() && r->Ok_0.root_spec() == merkle_root(score_leaves(scores@)),
{
    let n = scores.len();
    let mut leaves: Vec<Hash> = Vec::new();
    let mut i: usize = 0;
    while i < n
        invariant
            n == scores@.len(),
            i <= n,
            hashes_view(leaves@) == score_leaves(scores@).take(i as int),
            leaves@.len() == i,
        decreases n - i,
    {
        let h = score_leaf(scores[i].1);
        let ghost before = leaves@;
        leaves.push(h);
        proof {
            assert(hashes_view(leaves@) == hashes_view(before).push(h@));
            assert(hashes_view(leaves@) == score_leaves(scores@).take(i + 1));
        }
        i = i + 1;
    }
    proof {
        assert(score_leaves(scores@).take(n as int) == score_leaves(scores@));
    }
    DenseMerkleTree::new(leaves)
}

/// The root committing to a score vector; fails on no scores.
pub fn compute_root(scores: &Vec<(u64, u32)>) -> (r: Result<Hash, MerkleError>)
    ensures
        scores@.len() == 0 <==> r is Err,
        r is Ok ==> r->Ok_0@ == merkle_root(score_leaves(scores@)),
{
    match create_compute_tree(scores) {
        Ok(t) => Ok(t.root()),
        Err(e) => Err(e),
    }
}

/// The meta-commitment: the root of the dense tree whose leaves are the
/// given roots, taken as they are; fails on no roots.
pub fn meta_root(roots: Vec<Hash>) -> (r: Result<Hash, MerkleError>)
    requires
        roots@.len() <= u64::MAX,
    ensures
        roots@.len() == 0 <==> r is Err,
        r is Ok ==> r->Ok_0@ == merkle_root(hashes_view(roots@)),
{
    match DenseMerkleTree::new(roots) {
        Ok(t) => Ok(t.root()),
        Err(e) => Err(e),
    }
}

} // verus!
