use stark_primitives::merkle::MerkleTree;

fn hex_to_bytes(s: &str) -> Vec<u8> {
    let chars: Vec<u32> = s.chars().map(|c| c.to_digit(16).unwrap()).collect();
    chars.chunks(2).map(|p| (p[0] * 16 + p[1]) as u8).collect()
}

#[test]
fn single_leaf_root_is_its_digest() {
    // A one-leaf tree commits to the digest of the single item; the digest
    // of "abc" under SHA3-256 is a published test vector.
    let data = vec![b"abc".to_vec()];
    let root = MerkleTree::commit(&data);
    assert_eq!(
        root,
        hex_to_bytes("3a985da74fe225b2045c172d6bd390bd855f086e3e9d525b46bfe24511431532")
    );
}

#[test]
fn two_leaf_root_hashes_the_pair() {
    let data = vec![vec![1u8, 2], vec![3u8, 4]];
    let root = MerkleTree::commit(&data);
    assert_eq!(
        root,
        hex_to_bytes("7ff5e8221f8754c5accbe92d669b8d75820ca83d2dedd2fe08ded09b599230a6")
    );
}

#[test]
fn round_trip_for_every_index() {
    let data: Vec<Vec<u8>> = (0u8..8).map(|i| vec![i, i + 1, 7 * i]).collect();
    let root = MerkleTree::commit(&data);
    for index in 0..data.len() {
        let path = MerkleTree::open(index, &data);
        assert_eq!(path.len(), 3);
        assert!(MerkleTree::verify(&root, index, &data[index], &path));
    }
}

#[test]
fn round_trip_small_sizes() {
    for n in [1usize, 2, 4] {
        let data: Vec<Vec<u8>> = (0..n as u8).map(|i| vec![i; 4]).collect();
        let root = MerkleTree::commit(&data);
        for index in 0..n {
            let path = MerkleTree::open(index, &data);
            assert!(MerkleTree::verify(&root, index, &data[index], &path));
        }
    }
}

#[test]
fn flipping_a_bit_of_the_element_fails() {
    let data: Vec<Vec<u8>> = (0u8..4).map(|i| vec![i, 10 + i]).collect();
    let root = MerkleTree::commit(&data);
    let path = MerkleTree::open(2, &data);
    let mut tampered = data[2].clone();
    tampered[0] ^= 1;
    assert!(!MerkleTree::verify(&root, 2, &tampered, &path));
}

#[test]
fn flipping_a_bit_of_the_path_fails() {
    let data: Vec<Vec<u8>> = (0u8..4).map(|i| vec![i, 10 + i]).collect();
    let root = MerkleTree::commit(&data);
    let mut path = MerkleTree::open(1, &data);
    path[1][0] ^= 1;
    assert!(!MerkleTree::verify(&root, 1, &data[1], &path));
}

#[test]
fn wrong_index_fails() {
    let data: Vec<Vec<u8>> = (0u8..4).map(|i| vec![i, 10 + i]).collect();
    let root = MerkleTree::commit(&data);
    let path = MerkleTree::open(1, &data);
    assert!(!MerkleTree::verify(&root, 2, &data[1], &path));
}

#[test]
fn wrong_root_fails() {
    let data: Vec<Vec<u8>> = (0u8..2).map(|i| vec![i]).collect();
    let mut root = MerkleTree::commit(&data);
    let path = MerkleTree::open(0, &data);
    root[31] ^= 0x80;
    assert!(!MerkleTree::verify(&root, 0, &data[0], &path));
}
