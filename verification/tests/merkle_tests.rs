use agnostir::merkle::{blake3_merkle_root, hash_merkle_node};
use agnostir::{
    blake3_merkle_commit, blake3_merkle_interleaved_leaves, blake3_merkle_open_interleaved,
    blake3_merkle_precompute_levels, blake3_merkle_root_from_levels,
    blake3_merkle_verify_interleaved_column,
};
use ark_ff::{BigInteger, PrimeField};
use ark_secp256k1::Fr as SecpScalar;
use rand::rngs::SmallRng;
use rand::{Rng, SeedableRng};

fn random_scalar(rng: &mut SmallRng) -> SecpScalar {
    let mut bytes = [0u8; 32];
    rng.fill(&mut bytes);
    SecpScalar::from_le_bytes_mod_order(&bytes)
}

fn limbs(x: &SecpScalar) -> Vec<u64> {
    x.into_bigint().0.to_vec()
}

#[test]
fn interleaved_open_and_verify_roundtrip() {
    let mut rng = SmallRng::seed_from_u64(7);

    let rows = 4;
    let block_len = 5; // Deliberately not a power of two to test padding.
    let segments: Vec<Vec<SecpScalar>> = (0..rows)
        .map(|_| (0..block_len).map(|_| random_scalar(&mut rng)).collect())
        .collect();
    let segment_limbs: Vec<Vec<Vec<u64>>> =
        segments.iter().map(|row| row.iter().map(limbs).collect()).collect();

    let leaves = blake3_merkle_interleaved_leaves(&segment_limbs);
    let levels = blake3_merkle_precompute_levels(&leaves);
    let root = blake3_merkle_root_from_levels(&levels);
    let queries = vec![0, 2, 4];
    let paths = blake3_merkle_open_interleaved(&leaves, &levels, &queries);

    for (path, &query_idx) in paths.iter().zip(queries.iter()) {
        let column: Vec<Vec<u64>> = (0..rows).map(|r| limbs(&segments[r][query_idx])).collect();
        assert!(blake3_merkle_verify_interleaved_column(&column, query_idx, path, &root));
    }

    let mut tampered_path = paths[0].clone();
    tampered_path[0][0] ^= 1;
    let column: Vec<Vec<u64>> = (0..rows).map(|r| limbs(&segments[r][queries[0]])).collect();
    assert!(!blake3_merkle_verify_interleaved_column(&column, queries[0], &tampered_path, &root));
}

#[test]
fn leaf_bytes_match_the_field_encoding() {
    let mut rng = SmallRng::seed_from_u64(11);
    let x = random_scalar(&mut rng);
    let column = vec![limbs(&x)];
    let leaves = blake3_merkle_interleaved_leaves(&[vec![limbs(&x)]]);
    // A single column: its leaf is the hash of the element's little-endian bytes.
    let expected = *blake3::hash(&x.into_bigint().to_bytes_le()).as_bytes();
    assert_eq!(leaves[0], expected);
    // The column hash is the leaf the verifier recomputes.
    let levels = blake3_merkle_precompute_levels(&[leaves[0], leaves[0]]);
    let root = blake3_merkle_root_from_levels(&levels);
    let paths = blake3_merkle_open_interleaved(&[leaves[0], leaves[0]], &levels, &[1]);
    assert!(blake3_merkle_verify_interleaved_column(&column, 1, &paths[0], &root));
}

#[test]
fn node_hash_is_blake3_of_the_concatenation() {
    let left = [1u8; 32];
    let right = [2u8; 32];
    let mut both = [0u8; 64];
    both[..32].copy_from_slice(&left);
    both[32..].copy_from_slice(&right);
    assert_eq!(hash_merkle_node(&left, &right), *blake3::hash(&both).as_bytes());
    assert_ne!(hash_merkle_node(&left, &right), hash_merkle_node(&right, &left));
}

#[test]
fn root_of_two_leaves_is_their_node() {
    let a = [3u8; 32];
    let b = [4u8; 32];
    assert_eq!(blake3_merkle_root(&[a, b]), hash_merkle_node(&a, &b));
    let c = [5u8; 32];
    let d = [6u8; 32];
    let expected = hash_merkle_node(&hash_merkle_node(&a, &b), &hash_merkle_node(&c, &d));
    assert_eq!(blake3_merkle_root(&[a, b, c, d]), expected);
    let levels = blake3_merkle_precompute_levels(&[a, b, c, d]);
    assert_eq!(blake3_merkle_root_from_levels(&levels), expected);
}

#[test]
fn commit_of_a_single_element_codeword() {
    let root = blake3_merkle_commit(&[vec![7u64, 0, 0, 0]]);
    let mut bytes = [0u8; 32];
    bytes[0] = 7;
    let leaf = *blake3::hash(&bytes).as_bytes();
    assert_eq!(root, hash_merkle_node(&leaf, &[0u8; 32]));
}
