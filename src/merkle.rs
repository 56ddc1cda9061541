//! Merkle aggregation of leaf digests, with inclusion proofs.
//!
//! Interior nodes are `digest(left || right)`. A level with an odd number of
//! nodes pairs its last node with itself. An empty batch seals to the all-zero
//! sentinel; a one-leaf batch seals to that leaf.
use vstd::prelude::*;
use crate::digest::{blake3_of, digest};

verus! {

/// Errors from misuse of a batch's append / seal / prove protocol.
#[derive(Debug, Clone, Copy, PartialEq, Eq, Structural)]
pub enum MerkleError {
    BatchSealed,
    UnsealedTree,
    IndexOutOfRange,
}

/// One step of an inclusion proof: the sibling digest, and whether it stands
/// to the left of the running digest.
#[derive(Debug, Clone, Copy, PartialEq, Eq)]
pub struct ProofStep {
    pub sibling: [u8; 32],
    pub sibling_on_left: bool,
}

/// The root of an empty batch: 32 zero bytes.
pub open spec fn empty_root_spec() -> Seq<u8> {
    Seq::new(32, |i: int| 0u8)
}

/// Digests as byte sequences.
pub open spec fn digests_view(v: Seq<[u8; 32]>) -> Seq<Seq<u8>> {
    v.map_values(|d: [u8; 32]| d@)
}

/// Proof steps as (sibling, sibling-on-left) pairs.
pub open spec fn steps_view(v: Seq<ProofStep>) -> Seq<(Seq<u8>, bool)> {
    v.map_values(|s: ProofStep| (s.sibling@, s.sibling_on_left))
}

/// Interior node over two children.
pub open spec fn node_of(left: Seq<u8>, right: Seq<u8>) -> Seq<u8> {
    blake3_of(left + right)
}

/// The parent of the nodes `2 * i` and `2 * i + 1` of a level; a last node
/// without a partner is paired with itself.
pub open spec fn parent_at(level: Seq<Seq<u8>>, i: int) -> Seq<u8> {
    let right = if 2 * i + 1 < level.len() {
        level[2 * i + 1]
    } else {
        level[2 * i]
    };
    node_of(level[2 * i], right)
}

/// The level above `level`.
pub open spec fn next_level(level: Seq<Seq<u8>>) -> Seq<Seq<u8>> {
    Seq::new(((level.len() + 1) / 2) as nat, |i: int| parent_at(level, i))
}

/// The root committed to by a sequence of leaves.
pub open spec fn root_of(level: Seq<Seq<u8>>) -> Seq<u8>
    decreases level.len(),
{
    if level.len() == 0 {
        empty_root_spec()
    } else if level.len() == 1 {
        level[0]
    } else {
        root_of(next_level(level))
    }
}

/// The running digest after one proof step.
pub open spec fn apply_step(cur: Seq<u8>, step: (Seq<u8>, bool)) -> Seq<u8> {
    if step.1 {
        node_of(step.0, cur)
    } else {
        node_of(cur, step.0)
    }
}

/// The root that a proof leads to from a leaf digest.
pub open spec fn path_root(cur: Seq<u8>, steps: Seq<(Seq<u8>, bool)>) -> Seq<u8>
    decreases steps.len(),
{
    if steps.len() == 0 {
        cur
    } else {
        path_root(apply_step(cur, steps[0]), steps.drop_first())
    }
}

/// The proof step for node `i` of a level.
pub open spec fn step_at(level: Seq<Seq<u8>>, i: int) -> (Seq<u8>, bool) {
    if i % 2 == 0 {
        if i + 1 < level.len() {
            (level[i + 1], false)
        } else {
            (level[i], false)
        }
    } else {
        (level[i - 1], true)
    }
}

/// The inclusion proof of node `i` of a level, from that level up to the root.
pub open spec fn path_of(level: Seq<Seq<u8>>, i: int) -> Seq<(Seq<u8>, bool)>
    decreases level.len(),
{
    if level.len() <= 1 {
        Seq::empty()
    } else {
        seq![step_at(level, i)] + path_of(next_level(level), i / 2)
    }
}

/// One proof step taken from node `i` lands on its parent.
proof fn lemma_step_reaches_parent(level: Seq<Seq<u8>>, i: int)
    requires
        level.len() > 1,
        0 <= i < level.len(),
    ensures
        apply_step(level[i], step_at(level, i)) == next_level(level)[i / 2],
        i / 2 < next_level(level).len(),
{
}

proof fn lemma_path_unfold(level: Seq<Seq<u8>>, i: int)
    requires
        level.len() > 1,
    ensures
        path_of(level, i) == seq![step_at(level, i)] + path_of(next_level(level), i / 2),
{
}

/// Merkle round trip: for every leaf of a batch, following that leaf's proof
/// from its digest leads to the batch's root.
pub proof fn lemma_proof_round_trip(leaves: Seq<Seq<u8>>, i: int)
    requires
        0 <= i < leaves.len(),
    ensures
        path_root(leaves[i], path_of(leaves, i)) == root_of(leaves),
    decreases leaves.len(),
{
    if leaves.len() > 1 {
        let up = next_level(leaves);
        lemma_step_reaches_parent(leaves, i);
        let p = path_of(leaves, i);
        assert(p.drop_first() =~= path_of(up, i / 2));
        lemma_proof_round_trip(up, i / 2);
    }
}

/// Tampering with the claimed root: a proof that leads to one root is
/// rejected against any other.
pub proof fn lemma_other_root_rejected(
    leaf: Seq<u8>,
    steps: Seq<(Seq<u8>, bool)>,
    root: Seq<u8>,
    other: Seq<u8>,
)
    requires
        path_root(leaf, steps) == root,
        other != root,
    ensures
        path_root(leaf, steps) != other,
{
}

/// An empty batch seals to the all-zero sentinel; a one-leaf batch seals to
/// that leaf's digest.
pub proof fn lemma_empty_and_single_leaf_roots(leaf: Seq<u8>)
    ensures
        root_of(Seq::<Seq<u8>>::empty()) == empty_root_spec(),
        root_of(seq![leaf]) == leaf,
{
}

/// Every level of a sealed tree commits to the same root.
proof fn lemma_levels_share_root(levels: Seq<Seq<Seq<u8>>>, k: int)
    requires
        0 <= k < levels.len(),
        forall|j: int| 0 <= j < levels.len() - 1 ==> #[trigger] levels[j].len() > 1,
        forall|j: int| 0 <= j < levels.len() - 1 ==> levels[j + 1] == next_level(#[trigger] levels[j]),
    ensures
        root_of(levels[k]) == root_of(levels[0]),
    decreases k,
{
    if k > 0 {
        lemma_levels_share_root(levels, k - 1);
        assert(levels[k] == next_level(levels[k - 1]));
        assert(levels[k - 1].len() > 1);
    }
}

/// The interior node over two digests.
pub fn node_digest(left: &[u8; 32], right: &[u8; 32]) -> (r: [u8; 32])
    ensures
        r@ == node_of(left@, right@),
{
    let mut buf: Vec<u8> = Vec::with_capacity(64);
    let mut i: usize = 0;
    while i < 32
        invariant
            i <= 32,
            buf@ == left@.subrange(0, i as int),
        decreases 32 - i,
    {
        buf.push(left[i]);
        i = i + 1;
    }
    assert(buf@ =~= left@);
    let mut j: usize = 0;
    while j < 32
        invariant
            j <= 32,
            buf@ == left@ + right@.subrange(0, j as int),
        decreases 32 - j,
    {
        buf.push(right[j]);
        proof {
            assert(left@ + right@.subrange(0, j + 1) =~= (left@ + right@.subrange(0, j as int)).push(right@[j as int]));
        }
        j = j + 1;
    }
    assert(right@.subrange(0, 32) =~= right@);
    digest(buf.as_slice())
}

/// The level above `level`, computed.
fn build_next_level(level: &Vec<[u8; 32]>) -> (r: Vec<[u8; 32]>)
    ensures
        digests_view(r@) == next_level(digests_view(level@)),
{
    let n = level.len();
    let half = n / 2 + n % 2;
    let mut out: Vec<[u8; 32]> = Vec::with_capacity(half);
    let mut j: usize = 0;
    while j < half
        invariant
            n == level@.len(),
            half == (n + 1) / 2,
            j <= half,
            out@.len() == j,
            forall|t: int| 0 <= t < j ==> #[trigger] out@[t]@ == parent_at(digests_view(level@), t),
        decreases half - j,
    {
        let left = &level[2 * j];
        let right = if 2 * j + 1 < n {
            &level[2 * j + 1]
        } else {
            &level[2 * j]
        };
        let p = node_digest(left, right);
        out.push(p);
        j = j + 1;
    }
    assert(digests_view(out@) =~= next_level(digests_view(level@)));
    out
}

fn copy_digests(v: &Vec<[u8; 32]>) -> (r: Vec<[u8; 32]>)
    ensures
        r@ == v@,
{
    let mut out: Vec<[u8; 32]> = Vec::with_capacity(v.len());
    let mut i: usize = 0;
    while i < v.len()
        invariant
            i <= v@.len(),
            out@ == v@.subrange(0, i as int),
        decreases v@.len() - i,
    {
        out.push(v[i]);
        i = i + 1;
    }
    assert(out@ =~= v@);
    out
}

/// Follows an inclusion proof from `leaf` and tells whether it arrives at `root`.
pub fn verify_proof(leaf: &[u8; 32], proof: &[ProofStep], root: &[u8; 32]) -> (r: bool)
    ensures
        r == (path_root(leaf@, steps_view(proof@)) == root@),
{
    let ghost steps = steps_view(proof@);
    let mut cur: [u8; 32] = *leaf;
    let mut i: usize = 0;
    assert(steps.skip(0) =~= steps);
    while i < proof.len()
        invariant
            i <= proof@.len(),
            steps == steps_view(proof@),
            path_root(cur@, steps.skip(i as int)) == path_root(leaf@, steps),
        decreases proof@.len() - i,
    {
        let step = proof[i];
        proof {
            assert(steps.skip(i as int).drop_first() =~= steps.skip(i + 1));
            assert(steps.skip(i as int)[0] == (step.sibling@, step.sibling_on_left));
        }
        cur = if step.sibling_on_left {
            node_digest(&step.sibling, &cur)
        } else {
            node_digest(&cur, &step.sibling)
        };
        i = i + 1;
    }
    let mut same = true;
    let mut k: usize = 0;
    while k < 32
        invariant
            k <= 32,
            same == (forall|t: int| 0 <= t < k ==> cur@[t] == root@[t]),
        decreases 32 - k,
    {
        if cur[k] != root[k] {
            same = false;
        }
        k = k + 1;
    }
    if same {
        assert(cur@ =~= root@);
    }
    same
}

/// A batch of leaf digests. Leaves are appended while the batch is open;
/// sealing builds the tree once, after which the batch only answers proofs.
pub struct MerkleBatch {
    leaves: Vec<[u8; 32]>,
    levels: Vec<Vec<[u8; 32]>>,
    sealed: bool,
}

impl MerkleBatch {
    /// The leaves appended so far, in order.
    pub closed spec fn leaves(&self) -> Seq<Seq<u8>> {
        digests_view(self.leaves@)
    }

    pub closed spec fn is_sealed(&self) -> bool {
        self.sealed
    }

    spec fn level(&self, k: int) -> Seq<Seq<u8>> {
        digests_view(self.levels@[k]@)
    }

    /// Internal consistency: once sealed, the stored levels run from the
    /// leaves up to a level of at most one node, each the level above the last.
    pub closed spec fn wf(&self) -> bool {
        self.sealed ==> {
            &&& self.levels@.len() >= 1
            &&& self.level(0) == self.leaves()
            &&& forall|j: int| 0 <= j < self.levels@.len() - 1 ==> #[trigger] self.level(j).len() > 1
            &&& forall|j: int|
                0 <= j < self.levels@.len() - 1 ==> self.level(j + 1) == next_level(
                    #[trigger] self.level(j),
                )
            &&& self.level(self.levels@.len() - 1).len() <= 1
        }
    }

    /// A new, open batch with no leaves.
    pub fn new() -> (b: MerkleBatch)
        ensures
            b.wf(),
            !b.is_sealed(),
            b.leaves() == Seq::<Seq<u8>>::empty(),
    {
        let b = MerkleBatch { leaves: Vec::new(), levels: Vec::new(), sealed: false };
        assert(b.leaves() =~= Seq::<Seq<u8>>::empty());
        b
    }

    /// Number of leaves appended so far.
    pub fn len(&self) -> (n: usize)
        ensures
            n == self.leaves().len(),
    {
        self.leaves.len()
    }

    /// Whether the batch has been sealed.
    pub fn is_sealed_batch(&self) -> (r: bool)
        ensures
            r == self.is_sealed(),
    {
        self.sealed
    }

    /// Adds a leaf at the end of an open batch; a sealed batch refuses it and
    /// stays as it was.
    pub fn append(&mut self, leaf: [u8; 32]) -> (r: Result<(), MerkleError>)
        requires
            old(self).wf(),
        ensures
            final(self).wf(),
            final(self).is_sealed() == old(self).is_sealed(),
            old(self).is_sealed() ==> r == Err::<(), MerkleError>(MerkleError::BatchSealed)
                && final(self).leaves() == old(self).leaves(),
            !old(self).is_sealed() ==> r is Ok && final(self).leaves() == old(self).leaves().push(
                leaf@,
            ),
    {
        if self.sealed {
            return Err(MerkleError::BatchSealed);
        }
        self.leaves.push(leaf);
        assert(self.leaves() =~= old(self).leaves().push(leaf@));
        Ok(())
    }

    fn stored_root(&self) -> (r: [u8; 32])
        requires
            self.wf(),
            self.is_sealed(),
        ensures
            r@ == root_of(self.leaves()),
    {
        let last = self.levels.len() - 1;
        proof {
            let lv = Seq::new(self.levels@.len(), |k: int| self.level(k));
            assert forall|j: int| 0 <= j < lv.len() - 1 implies #[trigger] lv[j].len() > 1 by {
                assert(self.level(j).len() > 1);
            }
            assert forall|j: int| 0 <= j < lv.len() - 1 implies lv[j + 1] == next_level(
                #[trigger] lv[j],
            ) by {
                assert(self.level(j + 1) == next_level(self.level(j)));
            }
            lemma_levels_share_root(lv, last as int);
        }
        let top = &self.levels[last];
        if top.len() == 0 {
            let z = [0u8; 32];
            assert(z@ =~= empty_root_spec());
            z
        } else {
            top[0]
        }
    }

    /// Seals the batch and returns its root. Sealing a sealed batch returns
    /// the same root and changes nothing; the leaves are never changed.
    pub fn seal(&mut self) -> (r: [u8; 32])
        requires
            old(self).wf(),
        ensures
            final(self).wf(),
            final(self).is_sealed(),
            final(self).leaves() == old(self).leaves(),
            r@ == root_of(old(self).leaves()),
            old(self).is_sealed() ==> *final(self) == *old(self),
    {
        if self.sealed {
            return self.stored_root();
        }
        let mut levels: Vec<Vec<[u8; 32]>> = Vec::new();
        levels.push(copy_digests(&self.leaves));
        while levels[levels.len() - 1].len() > 1
            invariant
                levels@.len() >= 1,
                digests_view(levels@[0]@) == digests_view(self.leaves@),
                forall|j: int| 0 <= j < levels@.len() - 1 ==> #[trigger] digests_view(levels@[j]@).len() > 1,
                forall|j: int|
                    0 <= j < levels@.len() - 1 ==> digests_view(levels@[j + 1]@) == next_level(
                        #[trigger] digests_view(levels@[j]@),
                    ),
            decreases levels@[levels@.len() - 1]@.len(),
        {
            let next = build_next_level(&levels[levels.len() - 1]);
            proof {
                let prev = digests_view(levels@[levels@.len() - 1]@);
                assert(digests_view(next@).len() == next@.len());
                assert(prev.len() == levels@[levels@.len() - 1]@.len());
                assert(next_level(prev).len() < prev.len());
            }
            levels.push(next);
        }
        self.levels = levels;
        self.sealed = true;
        self.stored_root()
    }

    /// The inclusion proof of leaf `index` in a sealed batch.
    #[verifier::rlimit(30)]
    pub fn prove(&self, index: usize) -> (r: Result<Vec<ProofStep>, MerkleError>)
        requires
            self.wf(),
        ensures
            !self.is_sealed() ==> r == Err::<Vec<ProofStep>, MerkleError>(MerkleError::UnsealedTree),
            self.is_sealed() && index >= self.leaves().len() ==> r == Err::<
                Vec<ProofStep>,
                MerkleError,
            >(MerkleError::IndexOutOfRange),
            self.is_sealed() && index < self.leaves().len() ==> r is Ok && steps_view(r->Ok_0@)
                == path_of(self.leaves(), index as int),
    {
        if !self.sealed {
            return Err(MerkleError::UnsealedTree);
        }
        if index >= self.leaves.len() {
            return Err(MerkleError::IndexOutOfRange);
        }
        let mut steps: Vec<ProofStep> = Vec::new();
        let mut i: usize = index;
        let mut k: usize = 0;
        let last = self.levels.len() - 1;
        while k < last
            invariant
                self.wf(),
                self.is_sealed(),
                last == self.levels@.len() - 1,
                k <= last,
                0 <= i < self.level(k as int).len(),
                steps_view(steps@) + path_of(self.level(k as int), i as int) == path_of(
                    self.leaves(),
                    index as int,
                ),
            decreases self.levels@.len() - k,
        {
            let level = &self.levels[k];
            let ghost lv = self.level(k as int);
            assert(lv.len() > 1);
            assert(self.level(k + 1) == next_level(lv));
            let step = if i % 2 == 0 {
                if i + 1 < level.len() {
                    ProofStep { sibling: level[i + 1], sibling_on_left: false }
                } else {
                    ProofStep { sibling: level[i], sibling_on_left: false }
                }
            } else {
                ProofStep { sibling: level[i - 1], sibling_on_left: true }
            };
            proof {
                assert((step.sibling@, step.sibling_on_left) == step_at(lv, i as int));
                let rest = path_of(next_level(lv), i as int / 2);
                lemma_path_unfold(lv, i as int);
                assert(steps_view(steps@.push(step)) =~= steps_view(steps@).push(
                    step_at(lv, i as int),
                ));
                assert(steps_view(steps@) + path_of(lv, i as int) =~= steps_view(steps@).push(
                    step_at(lv, i as int),
                ) + rest);
            }
            steps.push(step);
            i = i / 2;
            k = k + 1;
        }
        assert(path_of(self.level(k as int), i as int) =~= Seq::empty());
        assert(steps_view(steps@) =~= path_of(self.leaves(), index as int));
        Ok(steps)
    }
}

} // verus!
