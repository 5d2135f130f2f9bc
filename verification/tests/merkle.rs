use shielded_pool::errors::ShieldedError;
use shielded_pool::merkle::{hash_pair, zero_leaf, MerkleTree, MAX_LEAVES, TREE_DEPTH};

fn hex32(text: &str) -> [u8; 32] {
    let mut out = [0u8; 32];
    for (i, byte) in out.iter_mut().enumerate() {
        *byte = u8::from_str_radix(&text[2 * i..2 * i + 2], 16).unwrap();
    }
    out
}

fn blank_tree() -> MerkleTree {
    MerkleTree {
        next_index: 77,
        filled_subtrees: [[9u8; 32]; TREE_DEPTH],
        zeros: [[8u8; 32]; TREE_DEPTH],
        root: [7u8; 32],
    }
}

fn empty_tree() -> MerkleTree {
    let mut tree = blank_tree();
    tree.init();
    tree
}

/// The root of the whole tree over `leaves`, computed level by level.
fn full_root(leaves: &[[u8; 32]]) -> [u8; 32] {
    let mut level: Vec<[u8; 32]> = leaves.to_vec();
    let mut empty = zero_leaf();
    for _ in 0..TREE_DEPTH {
        if level.len() % 2 == 1 {
            level.push(empty);
        }
        let mut above: Vec<[u8; 32]> = Vec::new();
        for pair in level.chunks(2) {
            above.push(hash_pair(&pair[0], &pair[1]));
        }
        empty = hash_pair(&empty, &empty);
        if above.is_empty() {
            above.push(empty);
        }
        level = above;
    }
    level[0]
}

#[test]
fn zero_leaf_is_the_digest_of_its_tag() {
    assert_eq!(
        zero_leaf(),
        hex32("075b019cb7ae0816962fe88efb85e317e56432cf7297042cc9d23059d706a080")
    );
}

#[test]
fn hash_pair_is_the_digest_of_both_children() {
    assert_eq!(
        hash_pair(&[1u8; 32], &[2u8; 32]),
        hex32("346d8c96a2454213fcc0daff3c96ad0398148181b9fa6488f7ae2c0af5b20aa0")
    );
    assert_ne!(
        hash_pair(&[1u8; 32], &[2u8; 32]),
        hash_pair(&[2u8; 32], &[1u8; 32])
    );
}

#[test]
fn init_makes_the_empty_tree() {
    let tree = empty_tree();
    assert_eq!(tree.next_index, 0);
    assert_eq!(tree.zeros, tree.filled_subtrees);
    assert_eq!(tree.zeros[0], zero_leaf());
    assert_eq!(
        tree.zeros[1],
        hex32("62119de7bf138deb0b69f58a567a8fbceeafaf05b068aa91f7be36bd05c726a1")
    );
    assert_eq!(
        tree.zeros[19],
        hex32("b8a605c7ab0c296d48c4b64806a53d377cc14eb71738c202f91344b6256bfb4f")
    );
    assert_eq!(
        tree.current_root(),
        hex32("3639729e3e3f0bd40b84a1923ff67659b84e75d3185686b8ff9e3891c872eac7")
    );
}

#[test]
fn insert_gives_the_root_of_all_leaves() {
    let roots = [
        "52d912ba075518f2a93c4208c53b183e3b39368958238a09775bb503fa6ffe55",
        "a916e0391cb0bc415e3a530979166a1c0f0f5fbcaf9e9c40800e7d2a24ee7734",
        "988d250d42a7f85bc04ce16341a9e2b3ef39b30c3d6e6315aeadbd0484c46f3b",
        "3b4ba848a26322cded4a2442a1606d7f3199ab2424cf3946e5fcb4d7f8e67751",
        "f19d04cf70a98c18f7df93f512b1cc4c8ef540ab9954bf72c043694119761298",
    ];
    let mut tree = empty_tree();
    for (i, root) in roots.iter().enumerate() {
        assert_eq!(tree.insert([i as u8 + 1; 32]), Ok(i as u64));
        assert_eq!(tree.next_index, i as u32 + 1);
        assert_eq!(tree.current_root(), hex32(root));
    }
}

#[test]
fn insertion_appends_to_the_leaves() {
    let mut tree = empty_tree();
    let mut leaves: Vec<[u8; 32]> = Vec::new();
    assert_eq!(tree.current_root(), full_root(&leaves));
    for i in 0..37u8 {
        leaves.push([i ^ 0x5a; 32]);
        assert_eq!(tree.insert([i ^ 0x5a; 32]), Ok(i as u64));
        assert_eq!(tree.current_root(), full_root(&leaves));
    }
}

#[test]
fn tree_is_determined_by_its_leaves() {
    let mut one = empty_tree();
    let mut other = empty_tree();
    for i in 0..11u8 {
        one.insert([i; 32]).unwrap();
    }
    for i in 0..11u8 {
        other.insert([i; 32]).unwrap();
    }
    assert_eq!(one, other);
    other.insert([11u8; 32]).unwrap();
    assert_ne!(one, other);
}

#[test]
fn leaf_is_under_the_root() {
    let mut tree = empty_tree();
    tree.insert([1u8; 32]).unwrap();
    tree.insert([2u8; 32]).unwrap();
    tree.insert([3u8; 32]).unwrap();
    // The siblings of leaf 2: an empty leaf, the first two leaves, empty subtrees.
    let mut digest = hash_pair(&[3u8; 32], &tree.zeros[0]);
    digest = hash_pair(&hash_pair(&[1u8; 32], &[2u8; 32]), &digest);
    for level in 2..TREE_DEPTH {
        digest = hash_pair(&digest, &tree.zeros[level]);
    }
    assert_eq!(digest, tree.current_root());
}

#[test]
fn children_depend_on_the_side() {
    let tree = blank_tree();
    assert_eq!(tree.children(3, 6, [1u8; 32]), ([1u8; 32], [8u8; 32]));
    assert_eq!(tree.children(3, 7, [1u8; 32]), ([9u8; 32], [1u8; 32]));
}

#[test]
fn capacity_is_two_to_the_depth() {
    assert_eq!(MAX_LEAVES, 1u64 << TREE_DEPTH);
}

#[test]
fn full_tree_refuses_a_leaf() {
    let mut tree = empty_tree();
    tree.next_index = MAX_LEAVES as u32 - 1;
    assert_eq!(tree.insert([1u8; 32]), Ok(MAX_LEAVES - 1));
    let before = tree.clone();
    assert_eq!(tree.insert([2u8; 32]), Err(ShieldedError::TreeFull));
    assert_eq!(tree, before);
    tree.next_index = u32::MAX;
    assert_eq!(tree.insert([2u8; 32]), Err(ShieldedError::TreeFull));
}

#[test]
fn stored_sizes() {
    assert_eq!(MerkleTree::SIZE, 1316);
    assert_eq!(shielded_pool::state::Pool::SIZE, 1871);
    assert_eq!(shielded_pool::state::Nullifier::SIZE, 33);
    assert_eq!(shielded_pool::groth16::VerifyingKey::SIZE, 768);
}
