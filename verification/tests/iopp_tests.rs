use agnostir::interleaved_iopp::{
    prover_first_round, prover_second_round, to_limbs, verifier_challenge, verify, VerifierChallenge,
};
use agnostir::poly::evaluate_multilinear_table;
use agnostir::{
    blake3_merkle_interleaved_leaves, blake3_merkle_precompute_levels, blake3_merkle_root_from_levels,
    random_permutation, EraCode, ErrorCorrectingCode, IdentityCode, KoalaBear,
};
use rand::rngs::SmallRng;
use rand::SeedableRng;

fn random_vector(rng: &mut SmallRng, n: usize) -> Vec<KoalaBear> {
    (0..n).map(|_| KoalaBear::random(rng)).collect()
}

struct Run {
    era_code: EraCode<IdentityCode>,
    z: Vec<KoalaBear>,
    msg: Vec<KoalaBear>,
    root: [u8; 32],
    segments: Vec<Vec<KoalaBear>>,
    leaves: Vec<[u8; 32]>,
    levels: Vec<Vec<[u8; 32]>>,
}

/// An interleaved message of `2^k` entries in `2^eta` rows, encoded row by row
/// with an ERA code over the identity code and committed column by column.
fn setup(k: usize, eta: usize, repetition: usize, seed: u64) -> (Run, SmallRng) {
    let mut rng = SmallRng::seed_from_u64(seed);
    let seg_msg = 1usize << (k - eta);
    let block_length = seg_msg * repetition;
    let p1 = random_permutation(&mut rng, block_length);
    let p2 = random_permutation(&mut rng, block_length);
    let m1 = random_vector(&mut rng, block_length);
    let m2 = random_vector(&mut rng, block_length);
    let era_code = EraCode::new(IdentityCode::new(seg_msg), repetition, p1, p2, m1, m2);
    let msg = random_vector(&mut rng, 1usize << k);
    let rows = 1usize << eta;
    let segments: Vec<Vec<KoalaBear>> =
        (0..rows).map(|r| era_code.encode(&msg[r * seg_msg..(r + 1) * seg_msg])).collect();
    let limbs: Vec<Vec<Vec<u64>>> = segments.iter().map(to_limbs).collect();
    let leaves = blake3_merkle_interleaved_leaves(&limbs);
    let levels = blake3_merkle_precompute_levels(&leaves);
    let root = blake3_merkle_root_from_levels(&levels);
    let z = random_vector(&mut rng, k);
    (Run { era_code, z, msg, root, segments, leaves, levels }, rng)
}

#[test]
fn honest_iopp_run_is_accepted() {
    let (k, eta) = (6, 2);
    let (run, mut rng) = setup(k, eta, 3, 7);
    let first = prover_first_round(&run.msg, &run.z, eta, k);
    assert_eq!(first.folded_msg.len(), 1 << (k - eta));
    assert_eq!(first.y, evaluate_multilinear_table(&run.msg, &run.z));
    let challenge = verifier_challenge(run.era_code.block_length(), 10, &mut rng);
    let second = prover_second_round(&run.segments, &run.leaves, &run.levels, &challenge, eta);
    assert_eq!(second.columns.len(), 10);
    for (col, &q) in second.columns.iter().zip(challenge.query_indices.iter()) {
        let expected: Vec<KoalaBear> = run.segments.iter().map(|s| s[q]).collect();
        assert_eq!(*col, expected);
    }
    let ok = verify(&run.z, eta, k, &run.root, &first, &challenge, &second, |m: &[KoalaBear]| {
        run.era_code.encode(m)
    });
    assert!(ok);
}

#[test]
fn iopp_rejects_a_wrong_claim() {
    let (k, eta) = (6, 2);
    let (run, mut rng) = setup(k, eta, 3, 11);
    let mut first = prover_first_round(&run.msg, &run.z, eta, k);
    first.y = first.y.add(KoalaBear::one());
    let challenge = verifier_challenge(run.era_code.block_length(), 8, &mut rng);
    let second = prover_second_round(&run.segments, &run.leaves, &run.levels, &challenge, eta);
    let ok = verify(&run.z, eta, k, &run.root, &first, &challenge, &second, |m: &[KoalaBear]| {
        run.era_code.encode(m)
    });
    assert!(!ok);
}

#[test]
fn iopp_rejects_a_tampered_column() {
    let (k, eta) = (6, 2);
    let (run, _) = setup(k, eta, 3, 13);
    let first = prover_first_round(&run.msg, &run.z, eta, k);
    let challenge = VerifierChallenge { query_indices: vec![0, 5, 17] };
    let mut second = prover_second_round(&run.segments, &run.leaves, &run.levels, &challenge, eta);
    second.columns[1][0] = second.columns[1][0].add(KoalaBear::one());
    let ok = verify(&run.z, eta, k, &run.root, &first, &challenge, &second, |m: &[KoalaBear]| {
        run.era_code.encode(m)
    });
    assert!(!ok);
}
