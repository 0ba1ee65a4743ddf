//! The Merkle tree engine: level construction from leaves, membership-proof
//! generation, proof verification, and incremental append with path repair.

use vstd::prelude::*;
use vstd::arithmetic::power2::{pow2, lemma_pow2_unfold, lemma2_to64};
use crate::hashing::{Digest, leaf_hash, node_hash, hash, concat_hash, digest_eq};

verus! {

/// Errors of the tree engine. `NonExistingElement` is returned when a proof
/// is requested for an element whose digest is not at the leaf level.
#[derive(Debug, PartialEq, Eq, Structural)]
pub enum MerkleError {
    NonExistingElement,
}

/// The Merkle tree: a sequence of levels, each a sequence of digests.
/// Level 0 holds the leaf digests; the last level is the singleton root.
pub struct MerkleTree {
    tree: Vec<Vec<Digest>>,
}

/// A membership proof, a point-in-time snapshot of the tree.
/// `hashes` holds the sibling digests from the leaf level upward, `index`
/// the element's position at the leaf level, and `root` the root digest of
/// the tree at generation time.
pub struct Proof {
    pub hashes: Vec<Digest>,
    pub index: usize,
    pub root: Digest,
}

/// The level derived from `level`: neighbouring digests are paired and
/// hashed, left before right, and an unpaired last digest of an odd-length
/// level is paired with itself.
pub open spec fn parent_level(level: Seq<Digest>) -> Seq<Digest> {
    Seq::new(
        ((level.len() + 1) / 2) as nat,
        |i: int|
            node_hash(
                level[2 * i],
                if 2 * i + 1 < level.len() {
                    level[2 * i + 1]
                } else {
                    level[2 * i]
                },
            ),
    )
}

/// All levels of the tree grown from a leaf level: the leaves themselves,
/// then derived levels until a level of length 1 is reached.
pub open spec fn levels_from(leaves: Seq<Digest>) -> Seq<Seq<Digest>>
    decreases leaves.len(),
{
    if leaves.len() <= 1 {
        seq![leaves]
    } else {
        seq![leaves] + levels_from(parent_level(leaves))
    }
}

/// The leaf level of a sequence of elements: the digest of each, in order.
pub open spec fn leaf_level_of(elements: Seq<Seq<u8>>) -> Seq<Digest> {
    elements.map(|i: int, e: Seq<u8>| leaf_hash(e))
}

/// The whole tree built from a sequence of elements: no levels at all for
/// no elements, otherwise every level grown from their leaf digests.
pub open spec fn tree_of(elements: Seq<Seq<u8>>) -> Seq<Seq<Digest>> {
    if elements.len() == 0 {
        Seq::empty()
    } else {
        levels_from(leaf_level_of(elements))
    }
}

/// The position of the sibling of position `index` within a level.
pub open spec fn sibling_index(index: int) -> int {
    if index % 2 == 0 {
        index + 1
    } else {
        index - 1
    }
}

/// The digest a proof records at one level: the sibling's digest if the
/// sibling position exists, else the digest at `index` itself (mirroring
/// the self-duplication rule of construction).
pub open spec fn sibling_or_self(level: Seq<Digest>, index: int) -> Digest {
    if sibling_index(index) < level.len() {
        level[sibling_index(index)]
    } else {
        level[index]
    }
}

/// The sibling digests a proof collects for a leaf at position `index`,
/// walking upward from `level`; the walk stops before the root level.
pub open spec fn proof_path(t: Seq<Seq<Digest>>, index: int, level: int) -> Seq<Digest>
    decreases t.len() - level,
{
    if level < 0 || level >= t.len() || t[level].len() <= 1 {
        Seq::empty()
    } else {
        seq![sibling_or_self(t[level], index)] + proof_path(t, index / 2, level + 1)
    }
}

/// The root a verifier recomputes from a leaf digest, a list of sibling
/// digests and the leaf's index: at each step the current digest is hashed
/// with the sibling, on the side the index's parity dictates.
pub open spec fn recomputed_root(hashes: Seq<Digest>, leaf: Digest, index: int) -> Digest
    decreases hashes.len(),
{
    if hashes.len() == 0 {
        leaf
    } else if index % 2 == 0 {
        recomputed_root(hashes.drop_first(), node_hash(leaf, hashes[0]), index / 2)
    } else {
        recomputed_root(hashes.drop_first(), node_hash(hashes[0], leaf), index / 2)
    }
}

impl View for MerkleTree {
    type V = Seq<Seq<Digest>>;

    closed spec fn view(&self) -> Seq<Seq<Digest>> {
        Seq::new(self.tree@.len(), |i: int| self.tree@[i]@)
    }
}

impl MerkleTree {
    /// A well-formed tree is exactly the tree grown from its own leaf level.
    pub open spec fn wf(self) -> bool {
        self@.len() > 0 ==> {
            &&& self@[0].len() > 0
            &&& self@ == levels_from(self@[0])
        }
    }

    /// The leaf level, empty for an empty tree.
    pub open spec fn leaves(self) -> Seq<Digest> {
        if self@.len() == 0 {
            Seq::empty()
        } else {
            self@[0]
        }
    }

    /// The root digest of a non-empty tree.
    pub open spec fn spec_root(self) -> Digest
        recommends
            self@.len() > 0,
            self@.last().len() > 0,
    {
        self@.last()[0]
    }

    /// Whether the digest of `element` stands somewhere at the leaf level.
    pub open spec fn contains_element(self, element: Seq<u8>) -> bool {
        self@.len() > 0 && exists|i: int|
            0 <= i < self@[0].len() && self@[0][i] == leaf_hash(element)
    }

    /// Builds the tree from `data`, one leaf digest per element in order,
    /// then level upon level up to the root. An empty input gives a tree
    /// with no levels at all.
    pub fn new(data: &Vec<&[u8]>) -> (merkle: MerkleTree)
        ensures
            merkle.wf(),
            merkle@ == tree_of(data.deep_view()),
    {
        let mut merkle = MerkleTree { tree: Vec::new() };
        if data.len() == 0 {
            proof {
                assert(merkle@ =~= Seq::<Seq<Digest>>::empty());
            }
            return merkle;
        }
        let mut leaves: Vec<Digest> = Vec::new();
        let mut k: usize = 0;
        while k < data.len()
            invariant
                k <= data@.len(),
                leaves@.len() == k,
                forall|j: int| 0 <= j < k ==> leaves@[j] == leaf_hash(data@[j]@),
            decreases data@.len() - k,
        {
            let digest = hash(data[k]);
            leaves.push(digest);
            k += 1;
        }
        proof {
            assert forall|j: int| 0 <= j < data@.len() implies leaves@[j] == leaf_level_of(
                data.deep_view(),
            )[j] by {
                assert(data.deep_view()[j] =~= data@[j]@);
            }
            assert(leaves@ =~= leaf_level_of(data.deep_view()));
        }
        merkle.tree.push(leaves);
        proof {
            assert(merkle@ =~= seq![leaf_level_of(data.deep_view())]);
        }
        merkle.build();
        proof {
            let lv = leaf_level_of(data.deep_view());
            lemma_levels_from_props(lv);
            assert(merkle@ =~= levels_from(lv));
        }
        merkle
    }

    /// Derives level after level from the current last level, pairing
    /// neighbours and self-pairing an unpaired last digest, until a level
    /// of length 1, the root, is reached.
    pub fn build(&mut self)
        requires
            old(self)@.len() > 0,
            old(self)@.last().len() > 0,
        ensures
            final(self)@ == old(self)@.drop_last() + levels_from(old(self)@.last()),
    {
        let ghost orig = self@;
        while self.tree[self.tree.len() - 1].len() > 1
            invariant
                self@.len() > 0,
                self@.last().len() > 0,
                self@.drop_last() + levels_from(self@.last()) == orig.drop_last() + levels_from(
                    orig.last(),
                ),
            decreases self@.last().len(),
        {
            let ghost snap = self@;
            let n = self.tree.len();
            let prev_len = self.tree[n - 1].len();
            let half = prev_len - prev_len / 2;
            let mut next_level: Vec<Digest> = Vec::new();
            let mut j: usize = 0;
            while j < half
                invariant
                    self@ == snap,
                    n == self@.len(),
                    n >= 1,
                    prev_len == self@[n - 1].len(),
                    prev_len >= 2,
                    half == prev_len - prev_len / 2,
                    j <= half,
                    next_level@.len() == j,
                    forall|p: int|
                        0 <= p < j ==> next_level@[p] == parent_level(self@[n as int - 1])[p],
                decreases half - j,
            {
                assert(2 * j < prev_len);
                let i = 2 * j;
                let left = self.tree[n - 1][i];
                let right = if i + 1 < prev_len {
                    self.tree[n - 1][i + 1]
                } else {
                    left
                };
                let parent = concat_hash(&left, &right);
                next_level.push(parent);
                j += 1;
            }
            proof {
                assert(next_level@ =~= parent_level(snap.last()));
            }
            self.tree.push(next_level);
            proof {
                assert(self@ =~= snap + seq![parent_level(snap.last())]);
                assert(self@.drop_last() =~= snap);
                assert(levels_from(snap.last()) == seq![snap.last()] + levels_from(
                    parent_level(snap.last()),
                ));
                assert(snap.drop_last() + levels_from(snap.last()) =~= snap + levels_from(
                    parent_level(snap.last()),
                ));
            }
        }
        proof {
            assert(self@.last().len() == 1);
            assert(levels_from(self@.last()) == seq![self@.last()]);
            assert(self@.drop_last() + levels_from(self@.last()) =~= self@);
        }
    }

    /// Looks the digest of `value` up at the leaf level and returns the
    /// position of its first occurrence, if any.
    pub fn search_index(&self, value: &[u8]) -> (found: Option<usize>)
        ensures
            match found {
                Some(i) => {
                    &&& self@.len() > 0
                    &&& i < self@[0].len()
                    &&& self@[0][i as int] == leaf_hash(value@)
                    &&& forall|j: int| 0 <= j < i ==> self@[0][j] != leaf_hash(value@)
                },
                None => !self.contains_element(value@),
            },
    {
        let value_hash = hash(value);
        if self.tree.len() == 0 {
            return None;
        }
        let leaves = &self.tree[0];
        let mut i: usize = 0;
        while i < leaves.len()
            invariant
                self@.len() > 0,
                leaves@ == self@[0],
                value_hash == leaf_hash(value@),
                i <= leaves@.len(),
                forall|j: int| 0 <= j < i ==> self@[0][j] != leaf_hash(value@),
            decreases leaves@.len() - i,
        {
            if digest_eq(&leaves[i], &value_hash) {
                return Some(i);
            }
            i += 1;
        }
        None
    }

    /// Collects the sibling digests that recompute the root from the leaf
    /// digest of `value`: walking up from the first leaf position holding
    /// that digest, at each level below the root the sibling's digest is
    /// recorded, or the current digest itself where the sibling position
    /// falls outside an odd-length level. Fails with `NonExistingElement`
    /// when the digest of `value` is not at the leaf level, the empty tree
    /// included.
    pub fn generate_proof(&self, value: &[u8]) -> (result: Result<Proof, MerkleError>)
        requires
            self.wf(),
        ensures
            match result {
                Ok(p) => {
                    &&& self@.len() > 0
                    &&& (p.index as int) < self@[0].len()
                    &&& self@[0][p.index as int] == leaf_hash(value@)
                    &&& forall|j: int| 0 <= j < p.index ==> self@[0][j] != leaf_hash(value@)
                    &&& p.root == self.spec_root()
                    &&& p.hashes@ == proof_path(self@, p.index as int, 0)
                },
                Err(e) => {
                    &&& e == MerkleError::NonExistingElement
                    &&& !self.contains_element(value@)
                },
            },
    {
        let element_index = match self.search_index(value) {
            Some(i) => i,
            None => {
                return Err(MerkleError::NonExistingElement);
            },
        };
        let ghost t = self@;
        proof {
            lemma_levels_from_props(t[0]);
        }
        let mut actual_index = element_index;
        let mut proofs: Vec<Digest> = Vec::new();
        let mut lvl: usize = 0;
        while lvl < self.tree.len() && self.tree[lvl].len() > 1
            invariant
                t == self@,
                t.len() > 0,
                t.last().len() == 1,
                forall|i: int| 0 <= i < t.len() - 1 ==> #[trigger] t[i].len() > 1,
                forall|i: int|
                    0 <= i < t.len() - 1 ==> t[i + 1] == #[trigger] parent_level(t[i]),
                (lvl as int) < t.len(),
                (actual_index as int) < t[lvl as int].len(),
                proof_path(t, element_index as int, 0) == proofs@ + proof_path(
                    t,
                    actual_index as int,
                    lvl as int,
                ),
            decreases t.len() - lvl,
        {
            let sibling_index = if actual_index % 2 == 0 {
                actual_index + 1
            } else {
                actual_index - 1
            };
            let level_len = self.tree[lvl].len();
            let digest = if sibling_index < level_len {
                self.tree[lvl][sibling_index]
            } else {
                self.tree[lvl][actual_index]
            };
            let ghost old_proofs = proofs@;
            proofs.push(digest);
            proof {
                let ai = actual_index as int;
                let li = lvl as int;
                assert(digest == sibling_or_self(t[li], ai));
                assert(proof_path(t, ai, li) == seq![digest] + proof_path(t, ai / 2, li + 1));
                assert(proofs@ + proof_path(t, ai / 2, li + 1) =~= old_proofs + proof_path(
                    t,
                    ai,
                    li,
                ));
                assert(t[li + 1] == parent_level(t[li]));
                assert(ai / 2 < t[li + 1].len());
            }
            actual_index /= 2;
            lvl += 1;
        }
        proof {
            assert(t[lvl as int].len() == 1);
            assert(proof_path(t, actual_index as int, lvl as int) == Seq::<Digest>::empty());
            assert(proofs@ =~= proofs@ + Seq::<Digest>::empty());
        }
        let root = *self.get_root().unwrap();
        Ok(Proof { hashes: proofs, index: element_index, root })
    }

    /// Checks whether `leaf`, hashed step by step with the sibling digests
    /// in `proof` on the side the index's parity dictates at each level,
    /// recomputes exactly `root`.
    pub fn verify(&self, proof: &Vec<Digest>, leaf: &Digest, root: &Digest, index: usize) -> (valid:
        bool)
        ensures
            valid == (recomputed_root(proof@, *leaf, index as int) == *root),
    {
        let mut actual_index = index;
        let mut actual_hash = *leaf;
        let mut k: usize = 0;
        proof {
            assert(proof@.skip(0) =~= proof@);
        }
        while k < proof.len()
            invariant
                k <= proof@.len(),
                recomputed_root(proof@, *leaf, index as int) == recomputed_root(
                    proof@.skip(k as int),
                    actual_hash,
                    actual_index as int,
                ),
            decreases proof@.len() - k,
        {
            let proof_hash = proof[k];
            proof {
                assert(proof@.skip(k as int).drop_first() =~= proof@.skip(k as int + 1));
                assert(proof@.skip(k as int)[0] == proof@[k as int]);
            }
            actual_hash = if actual_index % 2 == 0 {
                concat_hash(&actual_hash, &proof_hash)
            } else {
                concat_hash(&proof_hash, &actual_hash)
            };
            actual_index /= 2;
            k += 1;
        }
        proof {
            assert(proof@.skip(proof@.len() as int) =~= Seq::<Digest>::empty());
        }
        digest_eq(&actual_hash, root)
    }

    /// The digest at the single position of the last level, if the tree
    /// has one.
    pub fn get_root(&self) -> (root: Option<&Digest>)
        ensures
            match root {
                Some(r) => self@.len() > 0 && self@.last().len() > 0 && *r == self@.last()[0],
                None => self@.len() == 0 || self@.last().len() == 0,
            },
    {
        if self.tree.len() == 0 {
            return None;
        }
        let root_level = &self.tree[self.tree.len() - 1];
        if root_level.len() == 0 {
            return None;
        }
        Some(&root_level[0])
    }

    /// Appends `value` to the tree in place: its digest joins the leaf
    /// level, then only the digests on the path from the new leaf to the
    /// root are recomputed — overwritten where their position exists,
    /// appended where the level just grew past it — and a new root level
    /// is created when the old root level has just reached two digests.
    /// The result is exactly the tree grown from the extended leaf level.
    pub fn add(&mut self, value: &[u8])
        requires
            old(self).wf(),
        ensures
            final(self).wf(),
            final(self).leaves() == old(self).leaves().push(leaf_hash(value@)),
            final(self)@ == levels_from(old(self).leaves().push(leaf_hash(value@))),
    {
        let new_leaf = hash(value);
        let leaves = self.get_mut_leaves();
        leaves.push(new_leaf);
        let m = leaves.len();
        let ghost t_old = old(self)@;
        let ghost new_leaves = old(self).leaves().push(leaf_hash(value@));
        let ghost target = levels_from(new_leaves);
        proof {
            assert(self@[0] == new_leaves);
            assert(m == new_leaves.len());
        }
        if m == 1 {
            proof {
                assert(t_old.len() == 0);
                assert(self@.len() == 1);
                assert(self@ =~= target);
            }
            return;
        }
        proof {
            assert(t_old.len() > 0);
            assert(self@.len() == t_old.len());
            lemma_levels_from_props(t_old[0]);
            lemma_levels_from_props(new_leaves);
        }
        let mut actual_index = m - 1;
        let h = self.tree.len();
        let mut i: usize = 0;
        while i < h - 1
            invariant
                h == self@.len(),
                h == t_old.len(),
                h >= 1,
                t_old == levels_from(t_old[0]),
                t_old[0].len() >= 1,
                new_leaves == t_old[0].push(leaf_hash(value@)),
                new_leaves.len() >= 2,
                target == levels_from(new_leaves),
                i <= h - 1,
                target.len() > i,
                actual_index as int == target[i as int].len() - 1,
                forall|j: int| 0 <= j <= i ==> self@[j] == target[j],
                forall|j: int| i < j < h ==> self@[j] == t_old[j],
            decreases h - 1 - i,
        {
            proof {
                lemma_add_level_step(t_old, new_leaves, i as int);
            }
            let sibling_index = if actual_index % 2 == 0 {
                actual_index + 1
            } else {
                actual_index - 1
            };
            let current_len = self.tree[i].len();
            let self_hash = self.tree[i][actual_index];
            let sibling_hash = if sibling_index < current_len {
                self.tree[i][sibling_index]
            } else {
                self_hash
            };
            let new_hash = if actual_index % 2 == 0 {
                concat_hash(&self_hash, &sibling_hash)
            } else {
                concat_hash(&sibling_hash, &self_hash)
            };
            proof {
                lemma_parent_level_last(target[i as int]);
                assert(target[i as int + 1] == parent_level(target[i as int]));
                assert(new_hash == target[i as int + 1].last());
            }
            actual_index /= 2;
            proof {
                assert(actual_index as int == target[i as int + 1].len() - 1);
            }
            let ghost before = self@;
            let next_len = self.tree[i + 1].len();
            if actual_index < next_len {
                self.tree[i + 1][actual_index] = new_hash;
            } else {
                self.tree[i + 1].push(new_hash);
            }
            proof {
                assert(extends_level(t_old[i as int + 1], target[i as int + 1]));
                assert(self@[i as int + 1] =~= target[i as int + 1]);
                assert(forall|j: int|
                    0 <= j < h && j != i + 1 ==> self@[j] == before[j]);
            }
            i += 1;
        }
        proof {
            lemma_levels_from_props(t_old[0]);
            lemma_levels_from_props(new_leaves);
            lemma_extends_chain(t_old[0], leaf_hash(value@), h as int - 1);
            assert(t_old[h as int - 1].len() == 1);
        }
        let last_len = self.tree[h - 1].len();
        if last_len == 2 {
            let left = self.tree[h - 1][0];
            let right = self.tree[h - 1][1];
            let root_hash = concat_hash(&left, &right);
            let mut new_level: Vec<Digest> = Vec::new();
            new_level.push(root_hash);
            let ghost before_push = self@;
            self.tree.push(new_level);
            proof {
                assert(target[h as int - 1].len() == 2);
                assert(h as int - 1 < target.len() - 1);
                assert(target[h as int] == parent_level(target[h as int - 1]));
                assert(target[h as int].len() == 1);
                assert(target.len() == h + 1);
                assert(target[h as int][0] == node_hash(
                    target[h as int - 1][0],
                    target[h as int - 1][1],
                ));
                assert(self@.len() == h + 1);
                assert forall|j: int| 0 <= j < self@.len() implies self@[j] == target[j] by {
                    if j < h {
                        assert(before_push[j] == target[j]);
                        assert(self@[j] == before_push[j]);
                    } else {
                        assert(self@[j] == new_level@);
                        assert(new_level@ =~= target[h as int]);
                    }
                }
                assert(self@ =~= target);
            }
        } else {
            proof {
                assert(target[h as int - 1].len() == 1);
                assert(target.len() == h as int);
                assert forall|j: int| 0 <= j < self@.len() implies self@[j] == target[j] by {
                    assert(0 <= j <= h - 1);
                }
                assert(self@ =~= target);
            }
        }
        proof {
            assert(self@[0] == new_leaves);
        }
    }

    /// The number of levels the tree holds.
    pub fn num_levels(&self) -> (n: usize)
        ensures
            n == self@.len(),
    {
        self.tree.len()
    }

    /// The digests of one level, level 0 being the leaves.
    pub fn level(&self, i: usize) -> (level: &Vec<Digest>)
        requires
            i < self@.len(),
        ensures
            level@ == self@[i as int],
    {
        &self.tree[i]
    }

    /// A mutable borrow of the leaf level, creating an empty one first
    /// when the tree has no levels yet.
    pub fn get_mut_leaves(&mut self) -> (leaves: &mut Vec<Digest>)
        ensures
            leaves@ == old(self).leaves(),
            final(self)@.len() == (if old(self)@.len() == 0 {
                1int
            } else {
                old(self)@.len() as int
            }),
            final(self)@[0] == final(leaves)@,
            forall|i: int| 1 <= i < final(self)@.len() ==> final(self)@[i] == old(self)@[i],
    {
        if self.tree.len() == 0 {
            self.tree.push(Vec::new());
        }
        &mut self.tree[0]
    }
}

/// `new_l` agrees with `old_l` everywhere but at its own last position,
/// which is either appended to `old_l` or overwrites `old_l`'s last.
spec fn extends_level(old_l: Seq<Digest>, new_l: Seq<Digest>) -> bool {
    &&& new_l.len() >= 1
    &&& (new_l.len() == old_l.len() || new_l.len() == old_l.len() + 1)
    &&& forall|p: int|
        0 <= p < new_l.len() - 1 ==> p < old_l.len() && #[trigger] new_l[p] == old_l[p]
}

/// The length of the level derived from `level`, and the digest at its
/// last position: the last digest of `level` hashed with its left
/// neighbour where the length is even, and with itself where it is odd.
proof fn lemma_parent_level_last(level: Seq<Digest>)
    requires
        level.len() >= 1,
    ensures
        parent_level(level).len() == (level.len() + 1) / 2,
        parent_level(level).len() - 1 == (level.len() - 1) / 2,
        (level.len() - 1) % 2 == 0 ==> parent_level(level).last() == node_hash(
            level.last(),
            level.last(),
        ),
        (level.len() - 1) % 2 == 1 ==> parent_level(level).last() == node_hash(
            level[level.len() - 2],
            level.last(),
        ),
{
    let q = level.len() - 1;
    let pn = parent_level(level);
    assert(pn.last() == pn[q / 2]);
    assert(2 * (q / 2) + (q % 2) == q);
}

/// Deriving the parent of a level that grew or changed only at its last
/// position again changes the parent level only at its last position.
proof fn lemma_parent_level_step(old_l: Seq<Digest>, new_l: Seq<Digest>)
    requires
        old_l.len() >= 1,
        new_l.len() >= 2,
        extends_level(old_l, new_l),
    ensures
        extends_level(parent_level(old_l), parent_level(new_l)),
{
    let q = new_l.len() - 1;
    let po = parent_level(old_l);
    let pn = parent_level(new_l);
    assert(2 * (q / 2) + (q % 2) == q);
    assert(pn.len() == (q + 2) / 2);
    assert(po.len() == (old_l.len() + 1) / 2);
    assert(pn.len() == po.len() || pn.len() == po.len() + 1);
    assert forall|p: int| 0 <= p < pn.len() - 1 implies p < po.len() && #[trigger] pn[p]
        == po[p] by {
        assert(2 * p + 1 < q);
        assert(new_l[2 * p] == old_l[2 * p]);
        assert(new_l[2 * p + 1] == old_l[2 * p + 1]);
    }
}

/// Appending one leaf digest changes each level of the grown tree only at
/// its last position.
proof fn lemma_extends_chain(old_leaves: Seq<Digest>, digest: Digest, j: int)
    requires
        old_leaves.len() >= 1,
        0 <= j < levels_from(old_leaves).len(),
    ensures
        levels_from(old_leaves.push(digest)).len() > j,
        extends_level(levels_from(old_leaves)[j], levels_from(old_leaves.push(digest))[j]),
    decreases j,
{
    let t_old = levels_from(old_leaves);
    let t_new = levels_from(old_leaves.push(digest));
    lemma_levels_from_props(old_leaves);
    lemma_levels_from_props(old_leaves.push(digest));
    if j == 0 {
        assert(t_new[0] == old_leaves.push(digest));
        assert(extends_level(t_old[0], t_new[0]));
    } else {
        lemma_extends_chain(old_leaves, digest, j - 1);
        assert(t_old[j - 1].len() > 1);
        assert(t_new[j - 1].len() > 1);
        assert(j - 1 != t_new.len() - 1);
        assert(t_old[j] == parent_level(t_old[j - 1]));
        assert(t_new[j] == parent_level(t_new[j - 1]));
        lemma_parent_level_step(t_old[j - 1], t_new[j - 1]);
    }
}

/// One level step of an append: where the tree grown from the old leaves
/// and the tree grown from the extended leaves agree on level `i` but for
/// the last position, the same holds one level up, and the level above is
/// derived from the level below.
proof fn lemma_add_level_step(t_old: Seq<Seq<Digest>>, new_leaves: Seq<Digest>, i: int)
    requires
        t_old.len() > 0,
        t_old[0].len() >= 1,
        t_old == levels_from(t_old[0]),
        new_leaves == t_old[0].push(new_leaves.last()),
        0 <= i < t_old.len() - 1,
    ensures
        levels_from(new_leaves).len() > i + 1,
        levels_from(new_leaves)[i + 1] == parent_level(levels_from(new_leaves)[i]),
        extends_level(t_old[i], levels_from(new_leaves)[i]),
        extends_level(t_old[i + 1], levels_from(new_leaves)[i + 1]),
        levels_from(new_leaves)[i].len() > 1,
        t_old[i + 1].len() >= 1,
{
    let digest = new_leaves.last();
    lemma_levels_from_props(t_old[0]);
    lemma_levels_from_props(new_leaves);
    lemma_extends_chain(t_old[0], digest, i);
    lemma_extends_chain(t_old[0], digest, i + 1);
    assert(t_old[i].len() > 1);
    assert(levels_from(new_leaves)[i].len() >= t_old[i].len());
}

/// The shape of every tree grown from a non-empty leaf level: the leaves
/// are its first level, each later level is derived from the one below,
/// every level but the last has at least two digests, and the last has
/// exactly one, the root.
pub proof fn lemma_levels_from_props(leaves: Seq<Digest>)
    requires
        leaves.len() > 0,
    ensures
        levels_from(leaves).len() > 0,
        levels_from(leaves)[0] == leaves,
        levels_from(leaves).last().len() == 1,
        forall|i: int|
            0 <= i < levels_from(leaves).len() - 1 ==> #[trigger] levels_from(leaves)[i].len()
                > 1,
        forall|i: int|
            0 <= i < levels_from(leaves).len() - 1 ==> levels_from(leaves)[i + 1]
                == #[trigger] parent_level(levels_from(leaves)[i]),
    decreases leaves.len(),
{
    if leaves.len() <= 1 {
        assert(levels_from(leaves) == seq![leaves]);
    } else {
        let next = parent_level(leaves);
        assert(next.len() == (leaves.len() + 1) / 2);
        assert(next.len() < leaves.len());
        assert(next.len() > 0);
        lemma_levels_from_props(next);
        let t = levels_from(leaves);
        let rest = levels_from(next);
        assert(t == seq![leaves] + rest);
        assert(t.len() == 1 + rest.len());
        assert forall|i: int| 0 <= i < t.len() - 1 implies t[i + 1] == #[trigger] parent_level(
            t[i],
        ) by {
            if i == 0 {
                assert(t[1] == rest[0]);
                assert(rest[0] == next);
                assert(t[0] == leaves);
            } else {
                assert(t[i + 1] == rest[i]);
                assert(t[i] == rest[i - 1]);
                assert(rest[i] == parent_level(rest[i - 1]));
            }
        }
        assert forall|i: int| 0 <= i < t.len() - 1 implies #[trigger] t[i].len() > 1 by {
            if i == 0 {
                assert(t[0] == leaves);
            } else {
                assert(t[i] == rest[i - 1]);
            }
        }
        assert(t.last() == rest.last());
    }
}

/// Recomputing upward from any digest of a well-formed tree along the
/// proof path that starts at its level and position ends at the root.
#[verifier::rlimit(50)]
proof fn lemma_recompute_from_level(t: Seq<Seq<Digest>>, index: int, level: int)
    requires
        t.len() > 0,
        t[0].len() > 0,
        t == levels_from(t[0]),
        0 <= level < t.len(),
        0 <= index < t[level].len(),
    ensures
        recomputed_root(proof_path(t, index, level), t[level][index], index) == t.last()[0],
    decreases t.len() - level,
{
    lemma_levels_from_props(t[0]);
    if t[level].len() <= 1 {
        assert(level == t.len() - 1);
        assert(index == 0);
        assert(proof_path(t, index, level) == Seq::<Digest>::empty());
    } else {
        assert(level < t.len() - 1);
        let sibling = sibling_or_self(t[level], index);
        let path = proof_path(t, index, level);
        assert(path == seq![sibling] + proof_path(t, index / 2, level + 1));
        assert(path.drop_first() =~= proof_path(t, index / 2, level + 1));
        assert(path[0] == sibling);
        assert(t[level + 1] == parent_level(t[level]));
        assert(2 * (index / 2) + index % 2 == index);
        assert(index / 2 < t[level + 1].len());
        let parent = t[level + 1][index / 2];
        if index % 2 == 0 {
            assert(parent == node_hash(t[level][index], sibling));
            assert(recomputed_root(path, t[level][index], index) == recomputed_root(
                path.drop_first(),
                parent,
                index / 2,
            ));
        } else {
            assert(sibling == t[level][index - 1]);
            assert(parent == node_hash(sibling, t[level][index]));
            assert(recomputed_root(path, t[level][index], index) == recomputed_root(
                path.drop_first(),
                parent,
                index / 2,
            ));
        }
        lemma_recompute_from_level(t, index / 2, level + 1);
    }
}

/// Proof round-trip: for an element whose digest stands at position
/// `index` of the leaf level, recomputing from that digest along the
/// generated proof path gives back exactly the root, so checking the
/// generated proof against the tree's own root always succeeds.
pub proof fn lemma_proof_round_trip(tree: MerkleTree, element: Seq<u8>, index: int)
    requires
        tree.wf(),
        tree@.len() > 0,
        0 <= index < tree@[0].len(),
        tree@[0][index] == leaf_hash(element),
    ensures
        recomputed_root(proof_path(tree@, index, 0), leaf_hash(element), index)
            == tree.spec_root(),
{
    lemma_levels_from_props(tree@[0]);
    lemma_recompute_from_level(tree@, index, 0);
}

/// Determinism: the tree built from a sequence of elements is a function
/// of those elements alone, so two builds over the same elements hold
/// identical digests at every level and an identical root.
pub proof fn lemma_build_deterministic(
    first: MerkleTree,
    second: MerkleTree,
    elements: Seq<Seq<u8>>,
)
    requires
        first@ == tree_of(elements),
        second@ == tree_of(elements),
    ensures
        first@ == second@,
{
}

/// Self-duplication at odd width: the derived parent at the last
/// position of an odd-length level pairs the level's last digest with
/// itself.
pub proof fn lemma_self_duplication(level: Seq<Digest>)
    requires
        level.len() % 2 == 1,
    ensures
        parent_level(level).last() == node_hash(level.last(), level.last()),
{
    lemma_parent_level_last(level);
}

/// The ceiling of the base-2 logarithm, by halving rounded up.
pub open spec fn ceil_log2(n: nat) -> nat
    decreases n,
{
    if n <= 1 {
        0
    } else {
        1 + ceil_log2((n + 1) / 2)
    }
}

/// Height invariant: the tree grown from a non-empty leaf level of L
/// digests has exactly ceil(log2(L)) + 1 levels.
pub proof fn lemma_height(leaves: Seq<Digest>)
    requires
        leaves.len() > 0,
    ensures
        levels_from(leaves).len() == ceil_log2(leaves.len()) + 1,
    decreases leaves.len(),
{
    if leaves.len() > 1 {
        let next = parent_level(leaves);
        assert(next.len() == (leaves.len() + 1) / 2);
        lemma_height(next);
    }
}

/// Height invariant, on the tree itself: a well-formed non-empty tree
/// over L leaves has exactly ceil(log2(L)) + 1 levels.
pub proof fn lemma_tree_height(tree: MerkleTree)
    requires
        tree.wf(),
        tree@.len() > 0,
    ensures
        tree@.len() == ceil_log2(tree.leaves().len()) + 1,
{
    lemma_height(tree@[0]);
}

/// `ceil_log2` deserves its name: it is the least exponent whose power
/// of two reaches `n`.
pub proof fn lemma_ceil_log2_is_ceiling(n: nat)
    requires
        n > 0,
    ensures
        n <= pow2(ceil_log2(n)),
        ceil_log2(n) > 0 ==> pow2((ceil_log2(n) - 1) as nat) < n,
    decreases n,
{
    lemma2_to64();
    if n > 1 {
        let m = ((n + 1) / 2) as nat;
        lemma_ceil_log2_is_ceiling(m);
        let k = ceil_log2(m);
        assert(ceil_log2(n) == k + 1);
        lemma_pow2_unfold((k + 1) as nat);
        assert(pow2(k + 1) == 2 * pow2(k));
        assert(n <= 2 * m);
        if m > 1 {
            lemma_pow2_unfold(k);
            assert(pow2((k - 1) as nat) < m);
            assert(pow2(k) <= 2 * (m - 1));
        }
    }
}

/// Append equivalence: building a tree from some elements and then
/// growing it by one more element, as `add` grows it from the extended
/// leaf level, gives exactly the tree built from all the elements at
/// once.
pub proof fn lemma_append_equivalence(
    built: MerkleTree,
    grown: MerkleTree,
    elements: Seq<Seq<u8>>,
    element: Seq<u8>,
)
    requires
        built@ == tree_of(elements),
        grown@ == levels_from(built.leaves().push(leaf_hash(element))),
    ensures
        grown@ == tree_of(elements.push(element)),
{
    assert(leaf_level_of(elements.push(element)) =~= leaf_level_of(elements).push(
        leaf_hash(element),
    ));
    if elements.len() == 0 {
        assert(built@.len() == 0);
        assert(built.leaves() =~= leaf_level_of(elements));
    } else {
        lemma_levels_from_props(leaf_level_of(elements));
        assert(built.leaves() == leaf_level_of(elements));
    }
}

} // verus!
