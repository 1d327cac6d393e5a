use agnostir::codeswitching::{
    build_codeswitch_oracles, split_and_encode, split_claim_ip, split_claim_tip,
    validate_oracle_reference, CodeswitchError, CodeswitchOraclesInput, OracleReference,
};
use agnostir::{IdentityCode, KoalaBear};

fn f(x: u32) -> KoalaBear {
    KoalaBear::from_u32(x)
}

#[test]
fn test_split_claim_ip_scaffolding() {
    let msg: Vec<KoalaBear> = (1..=8).map(f).collect();
    let v_b: Vec<KoalaBear> = vec![f(2), f(0), f(1), f(1), f(3), f(1), f(0), f(2)];
    let sigma = f(46); // 9 + 37

    let claims = split_claim_ip(&msg, &v_b, sigma, 4);

    assert_eq!(claims.len(), 2);
    assert_eq!(claims[0].chunk_index, 0);
    assert_eq!(claims[1].chunk_index, 1);
    assert_eq!(claims[0].target, f(9));
    assert_eq!(claims[1].target, f(37));
    assert_eq!(claims[0].witness_len(), 4);
}

#[test]
fn test_split_claim_tip_scaffolding() {
    let msg: Vec<KoalaBear> = (1..=8).map(f).collect();
    let msg_prime: Vec<KoalaBear> = vec![f(2), f(2), f(2), f(2), f(3), f(3), f(3), f(3)];
    let v_b: Vec<KoalaBear> = vec![f(1); 8];
    let sigma = f(98); // 20 + 78

    let claims = split_claim_tip(&msg, &msg_prime, &v_b, sigma, 4);

    assert_eq!(claims.len(), 2);
    assert_eq!(claims[0].chunk_index, 0);
    assert_eq!(claims[1].chunk_index, 1);
    assert_eq!(claims[0].target, f(20));
    assert_eq!(claims[1].target, f(78));
    assert_eq!(claims[0].witness_len(), 4);
}

#[test]
fn test_split_and_encode_with_identity_code() {
    let output_code = IdentityCode::new(4);
    let msg: Vec<KoalaBear> = (0..8).map(f).collect();

    let split = split_and_encode(&msg, &output_code);

    assert_eq!(split.chunk_count(), 2);
    assert_eq!(split.chunks, split.codewords);
}

fn oracles_input(permutation_1: Vec<usize>, permutation_2: Vec<usize>) -> CodeswitchOraclesInput {
    CodeswitchOraclesInput {
        n_era: 8,
        generator_vector: (0..12).map(f).collect(),
        permutation_1,
        permutation_2,
        multiplier_1: (100..108).map(f).collect(),
        multiplier_2: (200..208).map(f).collect(),
    }
}

#[test]
fn test_build_codeswitch_oracles_shapes() {
    let output_code = IdentityCode::new(4);
    let input = oracles_input(vec![3, 2, 1, 0, 7, 6, 5, 4], vec![0, 2, 4, 6, 1, 3, 5, 7]);

    let out = build_codeswitch_oracles(&input, &output_code);

    assert_eq!(out.identity.chunk_count(), 2);
    assert_eq!(out.permutation_1.chunk_count(), 2);
    assert_eq!(out.permutation_2.chunk_count(), 2);
    assert_eq!(out.multiplier_1.chunk_count(), 2);
    assert_eq!(out.multiplier_2.chunk_count(), 2);
    assert_eq!(out.generator.chunk_count(), 3);

    let flattened = out.flattened_index_oracles();
    assert_eq!(flattened.len(), 13);
}

#[test]
fn valid_oracles_input_and_split_shapes_pass_their_checks() {
    let input = oracles_input(vec![3, 2, 1, 0, 7, 6, 5, 4], vec![0, 2, 4, 6, 1, 3, 5, 7]);
    input.validate();
    let output_code = IdentityCode::new(4);
    let msg: Vec<KoalaBear> = (0..8).map(f).collect();
    let enc = split_and_encode(&msg, &output_code);
    enc.assert_shape(4, 4);
    assert_eq!(enc.chunk_count(), 2);
}

#[test]
fn oracles_identity_chunks_hold_the_indices() {
    let output_code = IdentityCode::new(4);
    let input = oracles_input(vec![3, 2, 1, 0, 7, 6, 5, 4], vec![0, 2, 4, 6, 1, 3, 5, 7]);
    let out = build_codeswitch_oracles(&input, &output_code);
    assert_eq!(out.identity.chunks[1], vec![f(4), f(5), f(6), f(7)]);
    assert_eq!(out.permutation_1.chunks[0], vec![f(3), f(2), f(1), f(0)]);
    assert_eq!(out.multiplier_2.chunks[1], vec![f(204), f(205), f(206), f(207)]);
}

#[test]
fn split_ip_claim_targets_sum_to_sigma() {
    let msg: Vec<KoalaBear> = (1..=12).map(f).collect();
    let v_b: Vec<KoalaBear> = (0..12).map(|i| f(i % 3)).collect();
    // dot = sum_i (i+1) * (i mod 3)
    let sigma = f((0..12u32).map(|i| (i + 1) * (i % 3)).sum());
    let claims = split_claim_ip(&msg, &v_b, sigma, 3);
    assert_eq!(claims.len(), 4);
    let total = claims.iter().fold(KoalaBear::zero(), |acc, c| acc.add(c.target));
    assert_eq!(total, sigma);
    assert_eq!(claims[2].coeffs, vec![f(0), f(1), f(2)]);
}

#[test]
fn oracle_reference_validation() {
    assert_eq!(validate_oracle_reference(OracleReference::MessageBlock(1), 2, 0), Ok(()));
    assert_eq!(validate_oracle_reference(OracleReference::Auxiliary(0), 2, 1), Ok(()));
    assert_eq!(
        validate_oracle_reference(OracleReference::Auxiliary(1), 2, 1),
        Err(CodeswitchError::InvalidOracleReference {
            reference: OracleReference::Auxiliary(1),
            message_block_count: 2,
            auxiliary_count: 1,
        })
    );
    assert!(validate_oracle_reference(OracleReference::MessageBlock(2), 2, 5).is_err());
}
