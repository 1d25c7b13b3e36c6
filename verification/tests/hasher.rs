use merkle_tree::{Hasher, Sha256Hasher, Tree};

fn hex(text: &str) -> [u8; 32] {
    let digits: Vec<u8> = text
        .bytes()
        .map(|c| match c {
            b'0'..=b'9' => c - b'0',
            b'a'..=b'f' => c - b'a' + 10,
            _ => panic!("not a hex digit"),
        })
        .collect();
    assert_eq!(digits.len(), 64);
    let mut out = [0u8; 32];
    for i in 0..32 {
        out[i] = digits[2 * i] * 16 + digits[2 * i + 1];
    }
    out
}

#[test]
fn test_hash_leaf() {
    let data = b"test leaf";
    let hash = Sha256Hasher::hash_leaf(data);
    assert_eq!(hash.len(), 32);
}

#[test]
fn test_hash_parent() {
    let left = b"left child";
    let right = b"right child";
    let left_hash = Sha256Hasher::hash_leaf(left);
    let right_hash = Sha256Hasher::hash_leaf(right);
    let hash = Sha256Hasher::hash_parent(&left_hash, &right_hash);
    assert_eq!(hash.len(), 32);
}

#[test]
fn hash_leaf_is_sha256_of_the_bytes() {
    assert_eq!(
        Sha256Hasher::hash_leaf(b"abc"),
        hex("ba7816bf8f01cfea414140de5dae2223b00361a396177a9cb410ff61f20015ad")
    );
    assert_eq!(
        Sha256Hasher::hash_leaf(b""),
        hex("e3b0c44298fc1c149afbf4c8996fb92427ae41e4649b934ca495991b7852b855")
    );
}

#[test]
fn hash_leaf_differs_from_its_input() {
    let data = [7u8; 32];
    assert_ne!(Sha256Hasher::hash_leaf(&data), data);
}

#[test]
fn hash_parent_is_sha256_of_left_then_right() {
    let left = Sha256Hasher::hash_leaf(b"left child");
    let right = Sha256Hasher::hash_leaf(b"right child");
    let mut joined = Vec::new();
    joined.extend_from_slice(&left);
    joined.extend_from_slice(&right);
    assert_eq!(
        Sha256Hasher::hash_parent(&left, &right),
        Sha256Hasher::hash_leaf(&joined)
    );
}

#[test]
fn hash_parent_of_zero_blocks() {
    // SHA-256 of 64 zero bytes.
    let zero = [0u8; 32];
    assert_eq!(
        Sha256Hasher::hash_parent(&zero, &zero),
        hex("f5a5fd42d16a20302798ef6ed309979b43003d2320d9f0e8ea9831a92759fb4b")
    );
}

#[test]
fn hashing_is_deterministic() {
    assert_eq!(
        Sha256Hasher::hash_leaf(b"same"),
        Sha256Hasher::hash_leaf(b"same")
    );
    let a = Sha256Hasher::hash_leaf(b"a");
    let b = Sha256Hasher::hash_leaf(b"b");
    assert_eq!(
        Sha256Hasher::hash_parent(&a, &b),
        Sha256Hasher::hash_parent(&a, &b)
    );
}

#[test]
fn hash_parent_depends_on_the_order() {
    let a = Sha256Hasher::hash_leaf(b"a");
    let b = Sha256Hasher::hash_leaf(b"b");
    assert_ne!(a, b);
    assert_ne!(
        Sha256Hasher::hash_parent(&a, &b),
        Sha256Hasher::hash_parent(&b, &a)
    );
}

#[test]
fn hash_eq_is_byte_exact() {
    let a = Sha256Hasher::hash_leaf(b"a");
    let mut b = a;
    assert!(Sha256Hasher::hash_eq(&a, &b));
    b[31] ^= 1;
    assert!(!Sha256Hasher::hash_eq(&a, &b));
    b[31] ^= 1;
    b[0] ^= 0x80;
    assert!(!Sha256Hasher::hash_eq(&a, &b));
}

#[test]
fn tree_hashes_with_its_hasher() {
    let left = Sha256Hasher::hash_leaf(b"l");
    let right = Sha256Hasher::hash_leaf(b"r");
    assert_eq!(Tree::<Sha256Hasher>::hash_leaf(b"l"), left);
    assert_eq!(
        Tree::<Sha256Hasher>::hash_parent(&left, &right),
        Sha256Hasher::hash_parent(&left, &right)
    );
}
