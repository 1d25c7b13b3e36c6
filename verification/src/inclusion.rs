//! Inclusion proofs: a path of sibling hashes from a leaf up to the root.

use crate::hasher::{collision_free, Hasher};
use vstd::prelude::*;

verus! {

/// The side on which a sibling stands when it is combined with the node on
/// the path.
#[derive(Debug, Clone, Copy, PartialEq, Eq, Structural)]
pub enum Position {
    /// The sibling is the left child; the node on the path is the right one.
    Left,
    /// The sibling is the right child; the node on the path is the left one.
    Right,
}

/// The parent of the node `current` and its sibling `step.0`, which stands on
/// the side `step.1`.
pub open spec fn combine<H: Hasher>(current: H::Output, step: (H::Output, Position)) -> H::Output {
    match step.1 {
        Position::Right => H::parent_digest(current, step.0),
        Position::Left => H::parent_digest(step.0, current),
    }
}

/// The hash reached from `current` by combining it with each sibling of
/// `path` in turn, from the leaf level upwards.
pub open spec fn fold_path<H: Hasher>(current: H::Output, path: Seq<(H::Output, Position)>) -> H::Output
    decreases path.len(),
{
    if path.len() == 0 {
        current
    } else {
        fold_path::<H>(combine::<H>(current, path[0]), path.skip(1))
    }
}

/// An inclusion proof: one `(sibling, position)` pair per level, ordered from
/// the leaf level to the level just below the root. It stands on its own and
/// needs no tree to be checked.
pub struct Proof<H: Hasher> {
    pub siblings: Vec<(H::Output, Position)>,
}

impl<H: Hasher> View for Proof<H> {
    type V = Seq<(H::Output, Position)>;

    open spec fn view(&self) -> Seq<(H::Output, Position)> {
        self.siblings@
    }
}

impl<H: Hasher> Proof<H> {
    /// Whether replaying this proof from `leaf` arrives at `root`.
    pub open spec fn accepts(&self, leaf: H::Output, root: H::Output) -> bool {
        fold_path::<H>(leaf, self@) == root
    }

    /// The proof made of the steps `siblings`, leaf level first.
    pub fn new(siblings: Vec<(H::Output, Position)>) -> (proof: Self)
        ensures
            proof@ == siblings@,
    {
        Proof { siblings }
    }

    /// Whether the proof has no step, as the proof for the only leaf of a
    /// tree has.
    pub fn is_empty(&self) -> (empty: bool)
        ensures
            empty == (self@.len() == 0),
    {
        self.siblings.len() == 0
    }

    /// Replays the path from `leaf` and compares the hash reached with `root`.
    pub fn verify(&self, leaf: H::Output, root: H::Output) -> (ok: bool)
        ensures
            ok == self.accepts(leaf, root),
    {
        let mut current = leaf;
        let mut i: usize = 0;
        assert(self@.skip(0) =~= self@);
        while i < self.siblings.len()
            invariant
                i <= self.siblings.len(),
                fold_path::<H>(current, self@.skip(i as int)) == fold_path::<H>(leaf, self@),
            decreases self.siblings.len() - i,
        {
            let sibling = self.siblings[i].0;
            let position = self.siblings[i].1;
            assert(self@.skip(i as int).skip(1) =~= self@.skip(i + 1));
            current = match position {
                Position::Right => H::hash_parent(&current, &sibling),
                Position::Left => H::hash_parent(&sibling, &current),
            };
            i += 1;
        }
        H::hash_eq(&current, &root)
    }
}

/// The other side.
pub open spec fn flipped(position: Position) -> Position {
    match position {
        Position::Left => Position::Right,
        Position::Right => Position::Left,
    }
}

/// Replaying a path in two parts: first the steps below `i`, then the rest
/// from the node that they reach.
pub proof fn lemma_fold_split<H: Hasher>(
    current: H::Output,
    path: Seq<(H::Output, Position)>,
    i: int,
)
    requires
        0 <= i <= path.len(),
    ensures
        fold_path::<H>(current, path) == fold_path::<H>(
            fold_path::<H>(current, path.take(i)),
            path.skip(i),
        ),
    decreases i,
{
    if i == 0 {
        assert(path.skip(0) =~= path);
    } else {
        let next = combine::<H>(current, path[0]);
        lemma_fold_split::<H>(next, path.skip(1), i - 1);
        assert(path.take(i).skip(1) =~= path.skip(1).take(i - 1));
        assert(path.skip(1).skip(i - 1) =~= path.skip(i));
    }
}

/// With a hasher free of collisions, a proof that is accepted for one leaf
/// hash is rejected for every other leaf hash.
pub proof fn lemma_wrong_leaf_rejected<H: Hasher>(
    leaf: H::Output,
    other: H::Output,
    root: H::Output,
    path: Seq<(H::Output, Position)>,
)
    requires
        collision_free::<H>(),
        fold_path::<H>(leaf, path) == root,
        other != leaf,
    ensures
        fold_path::<H>(other, path) != root,
    decreases path.len(),
{
    if path.len() > 0 {
        lemma_wrong_leaf_rejected::<H>(
            combine::<H>(leaf, path[0]),
            combine::<H>(other, path[0]),
            root,
            path.skip(1),
        );
    }
}

/// With a hasher free of collisions, an accepted proof is rejected once its
/// step `i` is replaced by one that gives another parent at that level.
proof fn lemma_changed_step_rejected<H: Hasher>(
    leaf: H::Output,
    root: H::Output,
    path: Seq<(H::Output, Position)>,
    changed: Seq<(H::Output, Position)>,
    i: int,
)
    requires
        collision_free::<H>(),
        fold_path::<H>(leaf, path) == root,
        0 <= i < path.len(),
        changed == path.update(i, changed[i]),
        combine::<H>(fold_path::<H>(leaf, path.take(i)), changed[i]) != combine::<H>(
            fold_path::<H>(leaf, path.take(i)),
            path[i],
        ),
    ensures
        fold_path::<H>(leaf, changed) != root,
{
    let node = fold_path::<H>(leaf, path.take(i));
    lemma_fold_split::<H>(leaf, path, i);
    lemma_fold_split::<H>(leaf, changed, i);
    assert(changed.take(i) =~= path.take(i));
    assert(changed.skip(i).skip(1) =~= path.skip(i).skip(1));
    lemma_wrong_leaf_rejected::<H>(
        combine::<H>(node, path[i]),
        combine::<H>(node, changed[i]),
        root,
        path.skip(i).skip(1),
    );
}

/// With a hasher free of collisions, replacing the sibling hash of any one
/// step of an accepted proof by another hash makes the proof rejected.
pub proof fn lemma_tampered_sibling_rejected<H: Hasher>(
    leaf: H::Output,
    root: H::Output,
    path: Seq<(H::Output, Position)>,
    i: int,
    forged: H::Output,
)
    requires
        collision_free::<H>(),
        fold_path::<H>(leaf, path) == root,
        0 <= i < path.len(),
        forged != path[i].0,
    ensures
        fold_path::<H>(leaf, path.update(i, (forged, path[i].1))) != root,
{
    let tampered = path.update(i, (forged, path[i].1));
    lemma_changed_step_rejected::<H>(leaf, root, path, tampered, i);
}

/// With a hasher free of collisions, turning the position of any one step of
/// an accepted proof to the other side makes the proof rejected, unless the
/// node on the path at that step is its own sibling.
pub proof fn lemma_flipped_position_rejected<H: Hasher>(
    leaf: H::Output,
    root: H::Output,
    path: Seq<(H::Output, Position)>,
    i: int,
)
    requires
        collision_free::<H>(),
        fold_path::<H>(leaf, path) == root,
        0 <= i < path.len(),
        path[i].0 != fold_path::<H>(leaf, path.take(i)),
    ensures
        fold_path::<H>(leaf, path.update(i, (path[i].0, flipped(path[i].1)))) != root,
{
    let tampered = path.update(i, (path[i].0, flipped(path[i].1)));
    lemma_changed_step_rejected::<H>(leaf, root, path, tampered, i);
}

/// Where the node on the path is its own sibling, as the last node of a
/// level of odd size is, both sides give the same parent: turning that
/// step's position changes nothing.
pub proof fn lemma_flipped_self_pair_unchanged<H: Hasher>(
    leaf: H::Output,
    path: Seq<(H::Output, Position)>,
    i: int,
)
    requires
        0 <= i < path.len(),
        path[i].0 == fold_path::<H>(leaf, path.take(i)),
    ensures
        fold_path::<H>(leaf, path.update(i, (path[i].0, flipped(path[i].1)))) == fold_path::<H>(
            leaf,
            path,
        ),
{
    let tampered = path.update(i, (path[i].0, flipped(path[i].1)));
    lemma_fold_split::<H>(leaf, path, i);
    lemma_fold_split::<H>(leaf, tampered, i);
    assert(tampered.take(i) =~= path.take(i));
    assert(tampered.skip(i).skip(1) =~= path.skip(i).skip(1));
}

} // verus!
