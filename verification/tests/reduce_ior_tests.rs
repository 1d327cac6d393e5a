use agnostir::codeswitching::reduce_ior::{
    batch_to_reduced_claim, codeswitch, EvaluationOpenings, run_reduce_ior_scaffold, validate_claims, validate_input_shape, CodeswitchClaims,
    CodeswitchParameters, DipClaim, IpClaim, ReduceIorInput, Round1Block,
};
use agnostir::codeswitching::{CodeswitchError, OracleReference};
use agnostir::poly::{eq_weights, evaluate_multilinear_table};
use agnostir::{random_permutation, ErrorCorrectingCode, IdentityCode, KoalaBear, OptimizedEraCode};
use rand::rngs::SmallRng;
use rand::{Rng, SeedableRng};

fn random_field_vector(rng: &mut SmallRng, n: usize) -> Vec<KoalaBear> {
    (0..n).map(|_| KoalaBear::new(rng.random())).collect()
}

fn build_params(
    rng: &mut SmallRng,
    message_interleaving: usize,
    start_code_log_k: usize,
    start_code_log_n: usize,
    new_code_log_k: usize,
) -> CodeswitchParameters<IdentityCode> {
    let new_code_message_len = 1 << new_code_log_k;
    let base_code = IdentityCode::new(new_code_message_len);
    let repetition = 2;
    let interleaving = 0;
    let segment_block_length = repetition * base_code.block_length();
    let p1 = random_permutation(rng, segment_block_length);
    let p2 = random_permutation(rng, segment_block_length);
    let m1 = random_field_vector(rng, segment_block_length);
    let m2 = random_field_vector(rng, segment_block_length);
    let era_code = OptimizedEraCode::new(base_code, repetition, interleaving, p1, p2, m1, m2);
    CodeswitchParameters::new(
        message_interleaving,
        0,
        interleaving,
        3,
        start_code_log_k,
        start_code_log_n,
        new_code_log_k,
        era_code,
    )
}

fn build_fixture() -> (CodeswitchParameters<IdentityCode>, ReduceIorInput) {
    let mut rng = SmallRng::seed_from_u64(777);

    let new_code_log_k = 2;
    let start_code_log_k = 2;
    let start_code_log_n = 3;
    let new_code_message_len = 1 << new_code_log_k;
    let start_code_message_len = 1 << start_code_log_k;

    let params = build_params(&mut rng, 1, start_code_log_k, start_code_log_n, new_code_log_k);

    let witness_message = random_field_vector(&mut rng, start_code_message_len);
    let eval_point = random_field_vector(&mut rng, start_code_log_k);

    let z1_num_variables = start_code_log_k - new_code_log_k;
    let z2 = eval_point[z1_num_variables..].to_vec();
    let z1 = eval_point[..z1_num_variables].to_vec();

    let y_evals: Vec<KoalaBear> = witness_message
        .chunks_exact(new_code_message_len)
        .map(|chunk| evaluate_multilinear_table(chunk, &z2))
        .collect();
    let eval_value = eq_weights(&z1)
        .iter()
        .zip(&y_evals)
        .fold(KoalaBear::zero(), |acc, (weight, y)| acc.add(weight.mul(*y)));

    let oracle_word = params.era_code().encode(&witness_message);

    let input = ReduceIorInput { eval_point, eval_value, oracle_word, witness_message };
    (params, input)
}

fn check_scaffold_runs_with_empty_claims() {
    let (params, input) = build_fixture();
    let mut rng = SmallRng::seed_from_u64(2026);

    let output = run_reduce_ior_scaffold(&params, input, CodeswitchClaims::empty(), &mut rng)
        .expect("scaffold should succeed");

    assert_eq!(output.round1_blocks.len(), params.message_interleaving());
    assert_eq!(output.spot_checks.len(), params.num_spot_checks());
    assert_eq!(output.sumcheck.r.len(), params.log_new_code_message());
    assert_eq!(output.reduced_claim.witness_message.len(), params.new_code_message_len());
    assert_eq!(output.reduced_claim.oracle_word.len(), params.new_code_block_len());
}

fn check_scaffold_rejects_inconsistent_eval_value() {
    let (params, mut input) = build_fixture();
    let mut rng = SmallRng::seed_from_u64(2027);

    input.eval_value = input.eval_value.add(KoalaBear::one());

    let err = run_reduce_ior_scaffold(&params, input, CodeswitchClaims::empty(), &mut rng)
        .expect_err("bad eval value should be rejected");

    assert_eq!(err, CodeswitchError::EvalConsistencyCheckFailed);
}

#[test]
fn mod_scaffold_runs_with_empty_claims() {
    check_scaffold_runs_with_empty_claims();
}

#[test]
fn mod_scaffold_rejects_inconsistent_eval_value() {
    check_scaffold_rejects_inconsistent_eval_value();
}

#[test]
fn tests_scaffold_runs_with_empty_claims() {
    check_scaffold_runs_with_empty_claims();
}

#[test]
fn tests_scaffold_rejects_inconsistent_eval_value() {
    check_scaffold_rejects_inconsistent_eval_value();
}

#[test]
fn accepted_value_is_the_multilinear_evaluation() {
    // Two blocks of four: the claim is on the whole eight-entry witness.
    let mut rng = SmallRng::seed_from_u64(4242);
    let params = build_params(&mut rng, 2, 3, 3, 2);
    let witness_message = random_field_vector(&mut rng, 8);
    let eval_point = random_field_vector(&mut rng, 3);
    let eval_value = evaluate_multilinear_table(&witness_message, &eval_point);
    let oracle_word = random_field_vector(&mut rng, 8);
    let input = ReduceIorInput { eval_point, eval_value, oracle_word, witness_message };
    let out = codeswitch(&params, input.clone()).expect("the true evaluation is accepted");
    assert_eq!(out.round1_blocks.len(), 2);
    assert_eq!(out.z1, input.eval_point[..1].to_vec());
    assert_eq!(out.round1_blocks[1].message, input.witness_message[4..].to_vec());
    // The openings are the block messages evaluated at r, and the reduced claim is at r.
    assert_eq!(out.openings.a_eval[0], evaluate_multilinear_table(&input.witness_message[..4], &out.sumcheck.r));
    assert_eq!(out.reduced_claim.point, out.sumcheck.r);

    let mut wrong = input;
    wrong.eval_value = wrong.eval_value.add(KoalaBear::one());
    assert_eq!(codeswitch(&params, wrong).unwrap_err(), CodeswitchError::EvalConsistencyCheckFailed);
}

#[test]
fn shape_errors_come_in_order() {
    let (params, input) = build_fixture();
    assert_eq!(validate_input_shape(&params, &input), Ok(()));

    let mut bad = input.clone();
    bad.witness_message.pop();
    bad.eval_point.pop();
    assert_eq!(
        validate_input_shape(&params, &bad),
        Err(CodeswitchError::WitnessLengthMismatch { expected: 4, found: 3 })
    );
    let mut bad = input.clone();
    bad.eval_point.push(KoalaBear::one());
    assert_eq!(
        validate_input_shape(&params, &bad),
        Err(CodeswitchError::EvalPointLengthMismatch { expected: 2, found: 3 })
    );
    let mut bad = input.clone();
    bad.oracle_word.pop();
    assert_eq!(
        validate_input_shape(&params, &bad),
        Err(CodeswitchError::OracleLengthMismatch { expected: 8, found: 7 })
    );

    let mut rng = SmallRng::seed_from_u64(5);
    let wrong_interleaving = build_params(&mut rng, 2, 2, 3, 2);
    assert_eq!(
        validate_input_shape(&wrong_interleaving, &input),
        Err(CodeswitchError::MessageInterleavingMismatch { expected: 1, found: 2 })
    );
    let bad_split = build_params(&mut rng, 1, 1, 3, 2);
    assert_eq!(
        validate_input_shape(&bad_split, &input),
        Err(CodeswitchError::InvalidLogSplit { log_start_code_message: 1, log_new_code_message: 2 })
    );
}

fn block(oracle_len: usize) -> Round1Block {
    Round1Block {
        message: vec![KoalaBear::zero(); 4],
        oracle_word: vec![KoalaBear::zero(); oracle_len],
        y_eval: KoalaBear::zero(),
        z_ood: vec![KoalaBear::zero(); 2],
        y_ood: KoalaBear::zero(),
    }
}

#[test]
fn claim_errors_come_in_order() {
    let (params, _) = build_fixture();
    let blocks = vec![block(4)];
    let ip = |oracle, v: usize, w: usize| IpClaim {
        oracle,
        vector: vec![KoalaBear::one(); v],
        sigma: KoalaBear::zero(),
        witness: vec![KoalaBear::one(); w],
    };
    let mut claims = CodeswitchClaims::empty();
    claims.auxiliary_oracles.push(vec![KoalaBear::one(); 4]);
    claims.ip_claims.push(ip(OracleReference::Auxiliary(0), 4, 4));
    claims.ip_claims.push(ip(OracleReference::MessageBlock(0), 4, 4));
    assert_eq!(validate_claims(&params, &blocks, &claims), Ok(()));

    claims.ip_claims.push(ip(OracleReference::MessageBlock(1), 3, 4));
    assert_eq!(
        validate_claims(&params, &blocks, &claims),
        Err(CodeswitchError::InvalidOracleReference {
            reference: OracleReference::MessageBlock(1),
            message_block_count: 1,
            auxiliary_count: 1,
        })
    );
    claims.ip_claims.pop();
    claims.ip_claims.push(ip(OracleReference::MessageBlock(0), 3, 5));
    assert_eq!(
        validate_claims(&params, &blocks, &claims),
        Err(CodeswitchError::ClaimVectorLengthMismatch { expected: 4, found: 3 })
    );
    claims.ip_claims.pop();
    claims.dip_claims.push(DipClaim {
        left_oracle: OracleReference::Auxiliary(0),
        right_oracle: OracleReference::MessageBlock(0),
        vector: vec![KoalaBear::one(); 4],
        sigma: KoalaBear::zero(),
        left_witness: vec![KoalaBear::one(); 4],
        right_witness: vec![KoalaBear::one(); 2],
    });
    assert_eq!(
        validate_claims(&params, &blocks, &claims),
        Err(CodeswitchError::ClaimWitnessLengthMismatch { expected: 4, found: 2 })
    );
    // The oracle lengths are checked before any claim.
    assert_eq!(
        validate_claims(&params, &[block(5)], &claims),
        Err(CodeswitchError::ClaimOracleLengthMismatch { expected: 4, found: 5 })
    );
}

#[test]
fn scaffold_with_claims_batches_them() {
    let (params, input) = build_fixture();
    let mut claims = CodeswitchClaims::empty();
    claims.auxiliary_oracles.push(vec![KoalaBear::from_u32(3); 4]);
    claims.ip_claims.push(IpClaim {
        oracle: OracleReference::Auxiliary(0),
        vector: vec![KoalaBear::one(); 4],
        sigma: KoalaBear::from_u32(9),
        witness: vec![KoalaBear::from_u32(2); 4],
    });
    let mut rng = SmallRng::seed_from_u64(31);
    let out = run_reduce_ior_scaffold(&params, input, claims, &mut rng).expect("valid claims");
    let g = out.gamma;
    // Witness: gamma * msg + gamma^2 * msg (the one block), then gamma^3 * witness.
    let m = &out.round1_blocks[0].message;
    let g2 = g.mul(g);
    let g3 = g2.mul(g);
    for j in 0..4 {
        let expected = KoalaBear::zero()
            .add(m[j].mul(g))
            .add(m[j].mul(g2))
            .add(KoalaBear::from_u32(2).mul(g3));
        assert_eq!(out.reduced_claim.witness_message[j], expected);
    }
    // Sigma: beta y_eval + beta^2 y_ood + beta^3 * 9.
    let b = out.sumcheck.beta;
    let b2 = b.mul(b);
    let b3 = b2.mul(b);
    let blk = &out.round1_blocks[0];
    let expected_sigma = KoalaBear::zero()
        .add(b.mul(blk.y_eval))
        .add(b2.mul(blk.y_ood))
        .add(b3.mul(KoalaBear::from_u32(9)));
    assert_eq!(out.sumcheck.sigma, expected_sigma);
}

#[test]
fn batched_claim_of_blocks_groups_the_weights_per_block() {
    let mut rng = SmallRng::seed_from_u64(5);
    let params = build_params(&mut rng, 2, 2, 3, 1);
    let k = params.new_code_message_len();
    let n = params.new_code_block_len();
    let f = KoalaBear::from_u32;
    let blocks: Vec<Round1Block> = (0..2u32)
        .map(|b| Round1Block {
            message: (0..k as u32).map(|i| f(10 * b + i + 1)).collect(),
            oracle_word: (0..n as u32).map(|i| f(100 * b + i + 3)).collect(),
            y_eval: f(0),
            z_ood: vec![],
            y_ood: f(0),
        })
        .collect();
    let claims = CodeswitchClaims { auxiliary_oracles: vec![], ip_claims: vec![], dip_claims: vec![] };
    let openings = EvaluationOpenings {
        a_eval: vec![f(7), f(11)],
        a_ood: vec![f(13), f(17)],
        a_ip: vec![],
        a_dip_left: vec![],
        a_dip_right: vec![],
    };
    let gamma = f(3);
    let r = vec![f(2)];
    let c = batch_to_reduced_claim(gamma, &params, &r, &blocks, &claims, &openings).expect("no references");
    // l = 2: weights gamma^1, gamma^2 on the evaluations, gamma^3, gamma^4 on the out-of-domain values.
    assert_eq!(c.point, r);
    assert_eq!(c.value, f(3 * 7 + 9 * 11 + 27 * 13 + 81 * 17));
    let w0 = 3 + 27;
    let w1 = 9 + 81;
    for j in 0..n {
        let expected = f(w0 * (j as u32 + 3) + w1 * (j as u32 + 103));
        assert_eq!(c.oracle_word[j], expected);
    }
    for j in 0..k {
        let expected = f(w0 * (j as u32 + 1) + w1 * (j as u32 + 11));
        assert_eq!(c.witness_message[j], expected);
    }
}
