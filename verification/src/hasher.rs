//! The hashing strategy a tree is built with, and the SHA-256 strategy.

use sha2::{Digest, Sha256};
use vstd::prelude::*;

verus! {

/// A stateless hashing strategy.
///
/// Both operations are pure: what they return is fixed by the spec functions
/// `leaf_digest` and `parent_digest`, so that equal inputs give equal outputs.
/// `Output` is a fixed-size value; `hash_eq` is its byte-exact equality.
pub trait Hasher {
    type Output: Copy;

    /// The hash of a raw leaf, as a mathematical function of its bytes.
    spec fn leaf_digest(data: Seq<u8>) -> Self::Output;

    /// The hash of an inner node, as a mathematical function of its two
    /// children, in order.
    spec fn parent_digest(left: Self::Output, right: Self::Output) -> Self::Output;

    /// Hashes a raw leaf.
    fn hash_leaf(data: &[u8]) -> (out: Self::Output)
        ensures
            out == Self::leaf_digest(data@),
    ;

    /// Combines the hashes of two children, the left one first, into the
    /// hash of their parent.
    fn hash_parent(left: &Self::Output, right: &Self::Output) -> (out: Self::Output)
        ensures
            out == Self::parent_digest(*left, *right),
    ;

    /// Whether two hashes are the same value.
    fn hash_eq(a: &Self::Output, b: &Self::Output) -> (same: bool)
        ensures
            same == (*a == *b),
    ;
}

/// The hasher has no collision on inner nodes: two pairs of children with
/// the same parent hash are the same pair.
///
/// What is proved under this condition says, read the other way round, that
/// whoever gets a forged proof accepted holds two different pairs of children
/// with the same parent hash.
pub open spec fn collision_free<H: Hasher>() -> bool {
    forall|a: H::Output, b: H::Output, c: H::Output, d: H::Output|
        #![trigger H::parent_digest(a, b), H::parent_digest(c, d)]
        H::parent_digest(a, b) == H::parent_digest(c, d) ==> a == c && b == d
}

/// With a hasher free of collisions the order of the children matters: two
/// different hashes give one parent as left and right child and another as
/// right and left child.
pub proof fn lemma_order_matters<H: Hasher>(a: H::Output, b: H::Output)
    requires
        collision_free::<H>(),
        a != b,
    ensures
        H::parent_digest(a, b) != H::parent_digest(b, a),
{
}

/// The SHA-256 digest of a byte string, as computed by `sha2`.
pub uninterp spec fn sha256(data: Seq<u8>) -> Seq<u8>;

/// The 32-byte array that holds the bytes `bytes`.
pub open spec fn digest_array(bytes: Seq<u8>) -> [u8; 32] {
    choose|a: [u8; 32]| a@ == bytes
}

/// Calls `sha2::Sha256::digest` (the `digest` method of `sha2::Digest`) on
/// `data`. The contract claims only that the 32 bytes returned are a function
/// of the input bytes, named `sha256`.
#[verifier::external_body]
fn sha256_digest(data: &[u8]) -> (out: [u8; 32])
    ensures
        out@ == sha256(data@),
{
    Sha256::digest(data).into()
}

/// Hashes leaves and inner nodes with SHA-256: a leaf by its bytes, an inner
/// node by the 64 bytes of its left child followed by its right child.
#[derive(Clone, Copy, Debug)]
pub struct Sha256Hasher;

impl Hasher for Sha256Hasher {
    type Output = [u8; 32];

    open spec fn leaf_digest(data: Seq<u8>) -> [u8; 32] {
        digest_array(sha256(data))
    }

    open spec fn parent_digest(left: [u8; 32], right: [u8; 32]) -> [u8; 32] {
        digest_array(sha256(left@ + right@))
    }

    fn hash_leaf(data: &[u8]) -> (out: [u8; 32])
        ensures
            out@ == sha256(data@),
    {
        let out = sha256_digest(data);
        proof {
            lemma_digest_array(out);
        }
        out
    }

    fn hash_parent(left: &[u8; 32], right: &[u8; 32]) -> (out: [u8; 32])
        ensures
            out@ == sha256(left@ + right@),
    {
        let mut joined: Vec<u8> = Vec::with_capacity(64);
        let mut i: usize = 0;
        while i < 32
            invariant
                i <= 32,
                joined@ == left@.take(i as int),
            decreases 32 - i,
        {
            joined.push(left[i]);
            i += 1;
        }
        let mut j: usize = 0;
        while j < 32
            invariant
                j <= 32,
                joined@ == left@ + right@.take(j as int),
            decreases 32 - j,
        {
            joined.push(right[j]);
            j += 1;
        }
        let out = sha256_digest(joined.as_slice());
        proof {
            assert(right@.take(32) =~= right@);
            lemma_digest_array(out);
        }
        out
    }

    fn hash_eq(a: &[u8; 32], b: &[u8; 32]) -> (same: bool) {
        let mut i: usize = 0;
        while i < 32
            invariant
                i <= 32,
                forall|k: int| 0 <= k < i ==> a@[k] == b@[k],
            decreases 32 - i,
        {
            if a[i] != b[i] {
                return false;
            }
            i += 1;
        }
        assert(*a =~= *b);
        true
    }
}

/// An array is the array that holds its own bytes.
pub proof fn lemma_digest_array(a: [u8; 32])
    ensures
        digest_array(a@) == a,
{
}

} // verus!
