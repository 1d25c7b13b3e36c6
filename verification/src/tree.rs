//! The tree itself: its levels, its root and height, and the generation of
//! inclusion proofs.

use crate::error::ProofError;
use crate::hasher::Hasher;
use crate::inclusion::{combine, fold_path, Position, Proof};
use vstd::arithmetic::power2::{lemma2_to64, lemma_pow2_strictly_increases, lemma_pow2_unfold, pow2};
use vstd::prelude::*;

verus! {

/// The raw leaves as byte strings.
pub open spec fn leaf_bytes(raw: &[&[u8]]) -> Seq<Seq<u8>> {
    Seq::new(raw@.len(), |i: int| raw@[i]@)
}

/// The leaf level: the hash of every raw leaf, in the order of the leaves.
pub open spec fn leaf_level<H: Hasher>(raw: Seq<Seq<u8>>) -> Seq<H::Output> {
    Seq::new(raw.len(), |i: int| H::leaf_digest(raw[i]))
}

/// The parent of the `i`-th pair of `level`. A last node without a partner
/// is paired with itself.
pub open spec fn parent_at<H: Hasher>(level: Seq<H::Output>, i: int) -> H::Output {
    if 2 * i + 1 < level.len() {
        H::parent_digest(level[2 * i], level[2 * i + 1])
    } else {
        H::parent_digest(level[2 * i], level[2 * i])
    }
}

/// The level above `level`: the parents of its pairs, left to right.
pub open spec fn parent_level<H: Hasher>(level: Seq<H::Output>) -> Seq<H::Output> {
    Seq::new(((level.len() + 1) / 2) as nat, |i: int| parent_at::<H>(level, i))
}

/// The level `k` rounds of pairing above `leaves`.
pub open spec fn level_at<H: Hasher>(leaves: Seq<H::Output>, k: nat) -> Seq<H::Output>
    decreases k,
{
    if k == 0 {
        leaves
    } else {
        parent_level::<H>(level_at::<H>(leaves, (k - 1) as nat))
    }
}

/// The root over `level`: `level` is paired again and again until a single
/// node is left.
pub open spec fn merkle_root<H: Hasher>(level: Seq<H::Output>) -> H::Output
    decreases level.len(),
{
    if level.len() <= 1 {
        level[0]
    } else {
        merkle_root::<H>(parent_level::<H>(level))
    }
}

/// The number of rounds of pairing that take `n` nodes down to one.
pub open spec fn tree_height(n: nat) -> nat
    decreases n,
{
    if n <= 1 {
        0
    } else {
        1 + tree_height((n + 1) / 2)
    }
}

/// `h` is the logarithm of `n` to base two, rounded up: the least `h` with
/// `n <= 2^h`.
pub open spec fn is_ceil_log2(n: nat, h: nat) -> bool {
    &&& n <= pow2(h)
    &&& h > 0 ==> pow2((h - 1) as nat) < n
}

/// For one leaf the height is zero, and for `n` leaves it is the logarithm
/// of `n` to base two, rounded up.
pub proof fn lemma_height_is_ceil_log2(n: nat)
    requires
        n >= 1,
    ensures
        is_ceil_log2(n, tree_height(n)),
        n == 1 ==> tree_height(n) == 0,
    decreases n,
{
    lemma2_to64();
    if n > 1 {
        let m = (n + 1) / 2;
        lemma_height_is_ceil_log2(m);
        let h = tree_height(m);
        lemma_pow2_unfold(h + 1);
        if h > 0 {
            lemma_pow2_unfold(h);
        }
    }
}

/// A height that fits the number of nodes a `usize` can count.
pub proof fn lemma_height_bound(n: nat)
    requires
        n <= usize::MAX,
    ensures
        tree_height(n) <= 64,
{
    if n >= 1 {
        lemma_height_is_ceil_log2(n);
        let h = tree_height(n);
        if h > 64 {
            lemma2_to64();
            lemma_pow2_strictly_increases(64, (h - 1) as nat);
        }
    }
}

/// The height of a tree over `leaves` leaves; zero where there is no leaf.
pub fn calculate_height(leaves: usize) -> (height: i32)
    ensures
        height == tree_height(leaves as nat),
        leaves >= 1 ==> is_ceil_log2(leaves as nat, height as nat),
{
    proof {
        lemma_height_bound(leaves as nat);
        if leaves >= 1 {
            lemma_height_is_ceil_log2(leaves as nat);
        }
    }
    if leaves <= 1 {
        return 0;
    }
    let mut height: i32 = 0;
    let mut rest: usize = leaves - 1;
    while rest > 0
        invariant
            0 <= height,
            height + tree_height((rest + 1) as nat) == tree_height(leaves as nat),
            tree_height(leaves as nat) <= 64,
        decreases rest,
    {
        rest = rest / 2;
        height += 1;
    }
    height
}

/// The step that a proof records for the node `index` of `level`: its sibling
/// and the side the sibling stands on. A node with an even index is a left
/// child, so its sibling stands on the right; where it is the last node and
/// has no partner, it is its own sibling. A node with an odd index is a right
/// child and its sibling stands on the left.
pub open spec fn sibling_step<H: Hasher>(level: Seq<H::Output>, index: int) -> (
    H::Output,
    Position,
) {
    if index % 2 == 0 {
        if index + 1 < level.len() {
            (level[index + 1], Position::Right)
        } else {
            (level[index], Position::Right)
        }
    } else {
        (level[index - 1], Position::Left)
    }
}

/// The inclusion path of the node `index` of `level`: one step for every
/// level below the root, from `level` upwards.
pub open spec fn inclusion_path<H: Hasher>(level: Seq<H::Output>, index: int) -> Seq<
    (H::Output, Position),
>
    decreases level.len(),
{
    if level.len() <= 1 {
        Seq::empty()
    } else {
        seq![sibling_step::<H>(level, index)] + inclusion_path::<H>(
            parent_level::<H>(level),
            index / 2,
        )
    }
}

/// Combining a node with its recorded sibling gives its parent in the level
/// above.
pub proof fn lemma_step_reaches_parent<H: Hasher>(level: Seq<H::Output>, index: int)
    requires
        0 <= index < level.len(),
    ensures
        combine::<H>(level[index], sibling_step::<H>(level, index)) == parent_level::<H>(
            level,
        )[index / 2],
{
}

/// Replaying the inclusion path of a node from that node arrives at the root.
pub proof fn lemma_path_reaches_root<H: Hasher>(level: Seq<H::Output>, index: int)
    requires
        0 <= index < level.len(),
    ensures
        fold_path::<H>(level[index], inclusion_path::<H>(level, index)) == merkle_root::<H>(level),
    decreases level.len(),
{
    if level.len() > 1 {
        let above = parent_level::<H>(level);
        let path = inclusion_path::<H>(level, index);
        let rest = inclusion_path::<H>(above, index / 2);
        lemma_step_reaches_parent::<H>(level, index);
        lemma_path_reaches_root::<H>(above, index / 2);
        assert(path.skip(1) =~= rest);
    }
}

/// A path has one step for every round of pairing.
pub proof fn lemma_path_len<H: Hasher>(level: Seq<H::Output>, index: int)
    ensures
        inclusion_path::<H>(level, index).len() == tree_height(level.len()),
    decreases level.len(),
{
    if level.len() > 1 {
        lemma_path_len::<H>(parent_level::<H>(level), index / 2);
    }
}

/// Pairing up to a level that is still above single nodes keeps the root.
proof fn lemma_root_of_level<H: Hasher>(leaves: Seq<H::Output>, k: nat)
    requires
        forall|j: nat| j < k ==> (#[trigger] level_at::<H>(leaves, j)).len() > 1,
    ensures
        merkle_root::<H>(level_at::<H>(leaves, k)) == merkle_root::<H>(leaves),
    decreases k,
{
    if k > 0 {
        lemma_root_of_level::<H>(leaves, (k - 1) as nat);
    }
}

/// Hashes every raw leaf, keeping the order.
fn hash_leaves<H: Hasher>(raw_leaves: &[&[u8]]) -> (hashed: Vec<H::Output>)
    ensures
        hashed@ == leaf_level::<H>(leaf_bytes(raw_leaves)),
{
    let mut hashed: Vec<H::Output> = Vec::new();
    let mut i: usize = 0;
    while i < raw_leaves.len()
        invariant
            i <= raw_leaves.len(),
            hashed@.len() == i,
            forall|j: int| 0 <= j < i ==> hashed@[j] == H::leaf_digest(raw_leaves@[j]@),
        decreases raw_leaves.len() - i,
    {
        hashed.push(H::hash_leaf(raw_leaves[i]));
        i += 1;
    }
    hashed
}

/// Pairs the nodes of `level` left to right and hashes each pair; a last
/// node without a partner is hashed with itself.
fn hash_level<H: Hasher>(level: &Vec<H::Output>) -> (above: Vec<H::Output>)
    ensures
        above@ == parent_level::<H>(level@),
{
    let width: usize = level.len();
    let pairs: usize = width / 2 + width % 2;
    let mut above: Vec<H::Output> = Vec::new();
    let mut i: usize = 0;
    while i < pairs
        invariant
            i <= pairs,
            width == level@.len(),
            pairs == (width + 1) / 2,
            above@.len() == i,
            forall|j: int| 0 <= j < i ==> above@[j] == parent_at::<H>(level@, j),
        decreases pairs - i,
    {
        let left = level[2 * i];
        let right = if 2 * i + 1 < width {
            level[2 * i + 1]
        } else {
            left
        };
        above.push(H::hash_parent(&left, &right));
        i += 1;
    }
    above
}

/// A copy of `level`, node by node.
fn copy_level<H: Hasher>(level: &Vec<H::Output>) -> (copy: Vec<H::Output>)
    ensures
        copy@ == level@,
{
    let mut copy: Vec<H::Output> = Vec::new();
    let mut i: usize = 0;
    while i < level.len()
        invariant
            i <= level@.len(),
            copy@ == level@.take(i as int),
        decreases level@.len() - i,
    {
        copy.push(level[i]);
        i += 1;
    }
    copy
}

/// A Merkle tree over at least one leaf. All levels are kept, from the leaf
/// hashes up to the root, so that proofs are read off without hashing.
pub struct Tree<H: Hasher> {
    levels: Vec<Vec<H::Output>>,
    height: i32,
}

impl<H: Hasher> View for Tree<H> {
    type V = Seq<H::Output>;

    /// A tree is determined by its leaf hashes, in the order of the leaves.
    closed spec fn view(&self) -> Seq<H::Output> {
        self.levels@[0]@
    }
}

impl<H: Hasher> Clone for Tree<H> {
    fn clone(&self) -> (copy: Self)
        ensures
            copy@ == self@,
    {
        proof {
            use_type_invariant(self);
        }
        let mut levels: Vec<Vec<H::Output>> = Vec::new();
        let mut k: usize = 0;
        while k < self.levels.len()
            invariant
                k <= self.levels@.len(),
                levels@.len() == k,
                forall|j: int| 0 <= j < k ==> (#[trigger] levels@[j])@ == self.levels@[j]@,
            decreases self.levels@.len() - k,
        {
            levels.push(copy_level::<H>(&self.levels[k]));
            k += 1;
        }
        Tree { levels, height: self.height }
    }
}

impl<H: Hasher> Tree<H> {
    /// Level 0 holds the leaf hashes, each further level is the pairing of
    /// the one below, and only the last level is a single node: the root.
    #[verifier::type_invariant]
    spec fn well_formed(self) -> bool {
        &&& self.levels@.len() == self.height + 1
        &&& self.height == tree_height(self.levels@[0]@.len())
        &&& self.levels@[0]@.len() >= 1
        &&& forall|k: int|
            0 <= k < self.levels@.len() ==> (#[trigger] self.levels@[k])@ == level_at::<H>(
                self.levels@[0]@,
                k as nat,
            )
        &&& forall|k: int|
            0 <= k < self.levels@.len() - 1 ==> (#[trigger] self.levels@[k])@.len() > 1
        &&& self.levels@[self.levels@.len() - 1]@.len() == 1
    }

    /// The root hash that the leaf hashes determine.
    pub open spec fn root_hash(&self) -> H::Output {
        merkle_root::<H>(self@)
    }

    /// Builds the tree over `raw_leaves`: hashes every leaf, then pairs level
    /// after level until one node is left. Fails with `EmptyTree` where there
    /// is no leaf.
    pub fn new(raw_leaves: &[&[u8]]) -> (built: Result<Tree<H>, ProofError>)
        ensures
            raw_leaves@.len() == 0 <==> built is Err,
            built matches Err(e) ==> e == ProofError::EmptyTree,
            built matches Ok(tree) ==> tree@ == leaf_level::<H>(leaf_bytes(raw_leaves)),
    {
        if raw_leaves.len() == 0 {
            return Err(ProofError::EmptyTree);
        }
        let leaves = hash_leaves::<H>(raw_leaves);
        let height = calculate_height(leaves.len());
        let ghost base = leaves@;
        let mut levels: Vec<Vec<H::Output>> = Vec::new();
        levels.push(leaves);
        while levels[levels.len() - 1].len() > 1
            invariant
                levels@.len() >= 1,
                levels@[0]@ == base,
                base.len() >= 1,
                levels@[levels@.len() - 1]@.len() >= 1,
                levels@.len() - 1 + tree_height(levels@[levels@.len() - 1]@.len()) == tree_height(
                    base.len(),
                ),
                forall|k: int|
                    0 <= k < levels@.len() ==> (#[trigger] levels@[k])@ == level_at::<H>(
                        base,
                        k as nat,
                    ),
                forall|k: int| 0 <= k < levels@.len() - 1 ==> (#[trigger] levels@[k])@.len() > 1,
            decreases levels@[levels@.len() - 1]@.len(),
        {
            let above = hash_level::<H>(&levels[levels.len() - 1]);
            levels.push(above);
        }
        Ok(Tree { levels, height })
    }

    /// Hashes a raw leaf with the tree's hasher.
    pub fn hash_leaf(data: &[u8]) -> (out: H::Output)
        ensures
            out == H::leaf_digest(data@),
    {
        H::hash_leaf(data)
    }

    /// Hashes two children, in order, with the tree's hasher.
    pub fn hash_parent(left: &H::Output, right: &H::Output) -> (out: H::Output)
        ensures
            out == H::parent_digest(*left, *right),
    {
        H::hash_parent(left, right)
    }

    /// The root: the single node of the last level. For a tree of one leaf
    /// it is that leaf's hash.
    pub fn root(&self) -> (root: H::Output)
        ensures
            root == self.root_hash(),
    {
        proof {
            use_type_invariant(self);
            assert forall|j: nat| j < self.height implies (#[trigger] level_at::<H>(
                self@,
                j,
            )).len() > 1 by {
                assert(self.levels@[j as int]@ == level_at::<H>(self@, j));
            }
            lemma_root_of_level::<H>(self@, self.height as nat);
        }
        let top = &self.levels[self.levels.len() - 1];
        top[0]
    }

    /// The number of levels above the leaves: zero for a single leaf, and
    /// otherwise the logarithm of the number of leaves to base two, rounded
    /// up.
    pub fn height(&self) -> (height: i32)
        ensures
            height == tree_height(self@.len()),
            is_ceil_log2(self@.len(), height as nat),
    {
        proof {
            use_type_invariant(self);
            lemma_height_is_ceil_log2(self@.len());
        }
        self.height
    }

    /// The leaf hashes, in the order of the leaves. There is at least one.
    pub fn leaves(&self) -> (leaves: Vec<H::Output>)
        ensures
            leaves@ == self@,
            leaves@.len() >= 1,
    {
        proof {
            use_type_invariant(self);
        }
        copy_level::<H>(&self.levels[0])
    }

    /// The inclusion proof for the leaf `index`: at every level below the
    /// root, the sibling of the node on the way up and the side it stands on.
    /// Fails with `IndexOutOfBounds` where `index` names no leaf.
    pub fn prove(&self, index: usize) -> (result: Result<Proof<H>, ProofError>)
        ensures
            index < self@.len() <==> result is Ok,
            result matches Err(e) ==> e == (ProofError::IndexOutOfBounds {
                index,
                leaf_count: self@.len() as usize,
            }),
            result matches Ok(proof) ==> {
                &&& proof@ == inclusion_path::<H>(self@, index as int)
                &&& proof@.len() == tree_height(self@.len())
                &&& proof.accepts(self@[index as int], self.root_hash())
            },
    {
        proof {
            use_type_invariant(self);
        }
        let leaf_count = self.levels[0].len();
        if leaf_count == 0 {
            return Err(ProofError::NoLeaves);
        }
        if index >= leaf_count {
            return Err(ProofError::IndexOutOfBounds { index, leaf_count });
        }
        let top = self.levels.len() - 1;
        let mut siblings: Vec<(H::Output, Position)> = Vec::new();
        let mut current: usize = index;
        let mut k: usize = 0;
        assert(siblings@ + inclusion_path::<H>(self@, index as int) =~= inclusion_path::<H>(
            self@,
            index as int,
        ));
        while k < top
            invariant
                self.well_formed(),
                top == self.levels@.len() - 1,
                k <= top,
                current < self.levels@[k as int]@.len(),
                siblings@ + inclusion_path::<H>(self.levels@[k as int]@, current as int)
                    == inclusion_path::<H>(self@, index as int),
            decreases top - k,
        {
            let level = &self.levels[k];
            let step = if current % 2 == 0 {
                if current + 1 < level.len() {
                    (level[current + 1], Position::Right)
                } else {
                    (level[current], Position::Right)
                }
            } else {
                (level[current - 1], Position::Left)
            };
            siblings.push(step);
            current = current / 2;
            k += 1;
        }
        proof {
            lemma_path_len::<H>(self@, index as int);
            lemma_path_reaches_root::<H>(self@, index as int);
        }
        Ok(Proof::new(siblings))
    }
}

/// Two trees built over the same leaf bytes have the same leaf hashes, and
/// so the same root.
pub proof fn lemma_build_is_deterministic<H: Hasher>(
    first: Tree<H>,
    second: Tree<H>,
    raw: Seq<Seq<u8>>,
)
    requires
        first@ == leaf_level::<H>(raw),
        second@ == leaf_level::<H>(raw),
    ensures
        first@ == second@,
        first.root_hash() == second.root_hash(),
{
}

} // verus!
