use merkle_tree::{Hasher, Position, ProofError, Tree};

/// A toy strategy on 64-bit values: easy to follow by hand.
struct Toy;

impl Hasher for Toy {
    type Output = u64;

    // The two mathematical functions exist for proofs only and never run.
    fn leaf_digest(_: vstd::seq::Seq<u8>) -> u64 {
        unreachable!()
    }

    fn parent_digest(_: u64, _: u64) -> u64 {
        unreachable!()
    }

    fn hash_leaf(data: &[u8]) -> u64 {
        data.iter().fold(1u64, |acc, b| acc.wrapping_mul(257).wrapping_add(*b as u64))
    }

    fn hash_parent(left: &u64, right: &u64) -> u64 {
        left.wrapping_mul(1_000_003).wrapping_add(*right).wrapping_add(17)
    }

    fn hash_eq(a: &u64, b: &u64) -> bool {
        a == b
    }
}

#[test]
fn a_tree_takes_any_hasher() {
    let leaves: Vec<&[u8]> = vec![b"a", b"b", b"c", b"d"];
    let tree: Tree<Toy> = Tree::new(&leaves).unwrap();
    let h: Vec<u64> = leaves.iter().map(|l| Toy::hash_leaf(l)).collect();
    assert_eq!(tree.leaves(), h);
    assert_eq!(tree.height(), 2);
    let left = Toy::hash_parent(&h[0], &h[1]);
    let right = Toy::hash_parent(&h[2], &h[3]);
    assert_eq!(tree.root(), Toy::hash_parent(&left, &right));
    let proof = tree.prove(2).unwrap();
    assert_eq!(
        proof.siblings,
        vec![(h[3], Position::Right), (left, Position::Left)]
    );
    assert!(proof.verify(h[2], tree.root()));
    assert!(!proof.verify(h[3], tree.root()));
}

#[test]
fn any_hasher_refuses_an_empty_tree() {
    let leaves: Vec<&[u8]> = Vec::new();
    assert!(matches!(Tree::<Toy>::new(&leaves), Err(ProofError::EmptyTree)));
}
