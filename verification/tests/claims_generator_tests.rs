use agnostir::codeswitching::claims::{inner_product, split_claim_ip, split_claim_tip, triple_product};
use agnostir::codeswitching::claims_generator::{
    generate_codeswitch_claims, generate_codeswitch_claims_up_to_base_code_encoding,
};
use agnostir::codeswitching::codeswitch_claims::{
    append_coord, apply_permutation, build_base_code_sumcheck_tip_tables, build_first_permute_fixed_point,
    geometric_power_vector, hadamard_product, pow_field, prefix_products_vec, prefix_sum_accumulate_row_at_point,
    prefix_sums_vec, repeat_split_encoding, repeat_vector, CodeswitchClaimsInput, CodeswitchSpotcheck,
};
use agnostir::codeswitching::oracles::split_and_encode;
use agnostir::codeswitching::reduce_ior::eq_poly_outside;
use agnostir::poly::{eq_weights, evaluate_multilinear_table};
use agnostir::{ErrorCorrectingCode, IdentityCode, KoalaBear};
use rand::rngs::SmallRng;
use rand::SeedableRng;

fn f(x: u32) -> KoalaBear {
    KoalaBear::from_u32(x)
}

/// A point of a multilinear polynomial, by its coordinates.
struct MultilinearPoint(Vec<KoalaBear>);

impl MultilinearPoint {
    fn eq_weights(&self) -> Vec<KoalaBear> {
        eq_weights(&self.0)
    }

    fn num_variables(&self) -> usize {
        self.0.len()
    }

    fn eq_poly_outside(&self, other: &MultilinearPoint) -> KoalaBear {
        eq_poly_outside(&self.0, &other.0)
    }
}

/// A table of a multilinear polynomial's values on the hypercube.
struct EvaluationsList(Vec<KoalaBear>);

impl EvaluationsList {
    fn new(values: Vec<KoalaBear>) -> Self {
        EvaluationsList(values)
    }

    fn evaluate(&self, point: &MultilinearPoint) -> KoalaBear {
        evaluate_multilinear_table(&self.0, &point.0)
    }
}

#[test]
fn test_generate_codeswitch_claims_up_to_base_code_encoding_panics_on_bad_base_code_generator_matrix() {
    let era_code = IdentityCode::new(4);
    let base_code = IdentityCode::new(4);
    let output_code = IdentityCode::new(2);

    let input = CodeswitchClaimsInput {
        msg: vec![f(1), f(2), f(3), f(4)],
        spotchecks: vec![CodeswitchSpotcheck { alpha: 1, sigma_cs: f(2) }],
        // Deliberately incorrect for CodeB' = Identity(2).
        base_code_prime_generator_matrix: vec![f(1), f(1), f(1), f(1)],
        permutation_1: vec![0, 1, 2, 3],
        permutation_2: vec![0, 1, 2, 3],
        multiplier_1: vec![f(1), f(1), f(1), f(1)],
        multiplier_2: vec![f(1), f(1), f(1), f(1)],
    };

    let mut rng = SmallRng::seed_from_u64(9);
    let out = generate_codeswitch_claims_up_to_base_code_encoding(&input, &era_code, &base_code, &output_code, &mut rng);
    // The base-code sumcheck claim does not match sigma_code_b_at_r_x: refused.
    assert!(out.is_none());
}

#[test]
fn test_generate_codeswitch_claims_up_to_base_code_encoding_basic() {
    let era_code = IdentityCode::new(4);
    let base_code = IdentityCode::new(4);
    let output_code = IdentityCode::new(2);

    let input = CodeswitchClaimsInput {
        msg: vec![f(1), f(2), f(3), f(4)],
        spotchecks: vec![
            CodeswitchSpotcheck {
                alpha: 1,
                sigma_cs: f(2),
            },
            CodeswitchSpotcheck {
                alpha: 3,
                sigma_cs: f(4),
            },
        ],
        // Generator matrix of CodeB' = Identity(2), flattened row-major.
        base_code_prime_generator_matrix: vec![f(1), f(0), f(0), f(1)],
        permutation_1: vec![1, 0, 3, 2],
        permutation_2: vec![0, 1, 2, 3],
        multiplier_1: vec![f(5), f(6), f(7), f(8)],
        multiplier_2: vec![
            f(10).inverse().expect("non-zero"),
            f(16).inverse().expect("non-zero"),
            f(44).inverse().expect("non-zero"),
            f(68).inverse().expect("non-zero"),
        ],
    };

    let mut rng = SmallRng::seed_from_u64(42);
    let out = generate_codeswitch_claims_up_to_base_code_encoding(
        &input,
        &era_code,
        &base_code,
        &output_code,
        &mut rng,
    )
    .expect("the claims of an honest run hold");

    assert_eq!(out.word_era, vec![f(1), f(2), f(3), f(4)]);
    assert_eq!(out.era_oracles.chunk_count(), 2);
    assert_eq!(out.word_code_b, vec![f(1), f(2), f(3), f(4)]);
    assert_eq!(out.code_b_oracles.chunk_count(), 2);

    let repeat_factor = out.word_era.len() / out.word_code_b.len();
    let expected_word_rep = repeat_vector(&out.word_code_b, repeat_factor);
    assert_eq!(out.word_rep, expected_word_rep);

    let expected_rep_oracles = repeat_split_encoding(&out.code_b_oracles, repeat_factor);
    assert_eq!(&out.rep_oracles.chunks, &expected_rep_oracles.chunks);
    assert_eq!(&out.rep_oracles.codewords, &expected_rep_oracles.codewords);

    let expected_word_perm = apply_permutation(&out.word_rep, &input.permutation_1);
    assert_eq!(out.word_perm, expected_word_perm);
    let expected_perm_oracles = split_and_encode(&out.word_perm, &output_code);
    assert_eq!(&out.perm_oracles.chunks, &expected_perm_oracles.chunks);
    assert_eq!(
        &out.perm_oracles.codewords,
        &expected_perm_oracles.codewords
    );

    let expected_word_mult = hadamard_product(
        &out.word_perm,
        &input.multiplier_1,
    );
    assert_eq!(out.word_mult, expected_word_mult);

    let expected_word_acc = prefix_sums_vec(&out.word_mult);
    assert_eq!(out.word_acc, expected_word_acc);

    // Replay verifier randomness.
    let mut replay_rng = SmallRng::seed_from_u64(42);
    let expected_z = vec![
        KoalaBear::random(&mut replay_rng),
        KoalaBear::random(&mut replay_rng),
    ];
    let expected_beta = KoalaBear::random(&mut replay_rng);
    let expected_r_x = vec![
        KoalaBear::random(&mut replay_rng),
        KoalaBear::random(&mut replay_rng),
    ];
    let expected_r_y = vec![
        KoalaBear::random(&mut replay_rng),
        KoalaBear::random(&mut replay_rng),
    ];
    let expected_z_perm = vec![
        KoalaBear::random(&mut replay_rng),
        KoalaBear::random(&mut replay_rng),
    ];
    let expected_permutation_alpha = KoalaBear::random(&mut replay_rng);
    let expected_permutation_beta = KoalaBear::random(&mut replay_rng);
    let expected_permutation_a_1_z_ood = vec![
        KoalaBear::random(&mut replay_rng),
        KoalaBear::random(&mut replay_rng),
    ];
    let expected_permutation_a_2_z_ood = vec![
        KoalaBear::random(&mut replay_rng),
        KoalaBear::random(&mut replay_rng),
    ];
    let expected_permutation_b_1_z_ood = vec![
        KoalaBear::random(&mut replay_rng),
        KoalaBear::random(&mut replay_rng),
    ];
    let expected_permutation_b_2_z_ood = vec![
        KoalaBear::random(&mut replay_rng),
        KoalaBear::random(&mut replay_rng),
    ];
    let expected_permutation_r_perm = vec![
        KoalaBear::random(&mut replay_rng),
        KoalaBear::random(&mut replay_rng),
    ];
    let expected_permutation_a_transition_sumcheck_challenges = vec![
        KoalaBear::random(&mut replay_rng),
        KoalaBear::random(&mut replay_rng),
    ];
    let expected_permutation_b_transition_sumcheck_challenges = vec![
        KoalaBear::random(&mut replay_rng),
        KoalaBear::random(&mut replay_rng),
    ];
    let expected_z_ood_mult = vec![
        KoalaBear::random(&mut replay_rng),
        KoalaBear::random(&mut replay_rng),
    ];
    let expected_r_mult_challenge = KoalaBear::random(&mut replay_rng);
    let expected_z_ood_acc = vec![
        KoalaBear::random(&mut replay_rng),
        KoalaBear::random(&mut replay_rng),
    ];
    let expected_r_acc = vec![
        KoalaBear::random(&mut replay_rng),
        KoalaBear::random(&mut replay_rng),
    ];
    let expected_z_ood_perm_2 = vec![
        KoalaBear::random(&mut replay_rng),
        KoalaBear::random(&mut replay_rng),
    ];
    let _expected_permutation_alpha_2 = KoalaBear::random(&mut replay_rng);
    let _expected_permutation_beta_2 = KoalaBear::random(&mut replay_rng);
    let _expected_permutation_2_a_1_z_ood = vec![
        KoalaBear::random(&mut replay_rng),
        KoalaBear::random(&mut replay_rng),
    ];
    let _expected_permutation_2_a_2_z_ood = vec![
        KoalaBear::random(&mut replay_rng),
        KoalaBear::random(&mut replay_rng),
    ];
    let _expected_permutation_2_b_1_z_ood = vec![
        KoalaBear::random(&mut replay_rng),
        KoalaBear::random(&mut replay_rng),
    ];
    let _expected_permutation_2_b_2_z_ood = vec![
        KoalaBear::random(&mut replay_rng),
        KoalaBear::random(&mut replay_rng),
    ];
    let _expected_permutation_2_r_perm = vec![
        KoalaBear::random(&mut replay_rng),
        KoalaBear::random(&mut replay_rng),
    ];
    let _expected_permutation_2_a_transition_sumcheck_challenges = vec![
        KoalaBear::random(&mut replay_rng),
        KoalaBear::random(&mut replay_rng),
    ];
    let _expected_permutation_2_b_transition_sumcheck_challenges = vec![
        KoalaBear::random(&mut replay_rng),
        KoalaBear::random(&mut replay_rng),
    ];
    let expected_z_ood_mult_2 = vec![
        KoalaBear::random(&mut replay_rng),
        KoalaBear::random(&mut replay_rng),
    ];
    let expected_r_mult_challenge_2 = KoalaBear::random(&mut replay_rng);
    let expected_z_ood_acc_2 = vec![
        KoalaBear::random(&mut replay_rng),
        KoalaBear::random(&mut replay_rng),
    ];
    let expected_r_acc_2 = vec![
        KoalaBear::random(&mut replay_rng),
        KoalaBear::random(&mut replay_rng),
    ];

    assert_eq!(out.z_ood_era, expected_z);
    assert_eq!(out.beta, expected_beta);
    assert_eq!(out.r_x_code_b, expected_r_x);
    assert_eq!(out.base_code_sumcheck_challenges, expected_r_y);
    assert_eq!(out.z_ood_perm, expected_z_perm);
    assert_eq!(out.permutation_alpha, expected_permutation_alpha);
    assert_eq!(out.permutation_beta, expected_permutation_beta);
    assert_eq!(out.permutation_a_1_z_ood, expected_permutation_a_1_z_ood);
    assert_eq!(out.permutation_a_2_z_ood, expected_permutation_a_2_z_ood);
    assert_eq!(out.permutation_b_1_z_ood, expected_permutation_b_1_z_ood);
    assert_eq!(out.permutation_b_2_z_ood, expected_permutation_b_2_z_ood);
    assert_eq!(out.permutation_r_perm, expected_permutation_r_perm);
    assert_eq!(
        out.permutation_a_transition_sumcheck_challenges,
        expected_permutation_a_transition_sumcheck_challenges
    );
    assert_eq!(
        out.permutation_b_transition_sumcheck_challenges,
        expected_permutation_b_transition_sumcheck_challenges
    );
    assert_eq!(out.z_ood_mult, expected_z_ood_mult);
    assert_eq!(out.r_mult_challenge, expected_r_mult_challenge);
    assert_eq!(out.z_ood_acc, expected_z_ood_acc);
    assert_eq!(out.r_acc, expected_r_acc);
    assert_eq!(out.z_ood_perm_2, expected_z_ood_perm_2);
    assert_eq!(out.z_ood_mult_2, expected_z_ood_mult_2);
    assert_eq!(out.r_mult_challenge_2, expected_r_mult_challenge_2);
    assert_eq!(out.z_ood_acc_2, expected_z_ood_acc_2);
    assert_eq!(out.r_acc_2, expected_r_acc_2);

    let sigma_ood_expected = EvaluationsList::new(out.word_era.clone())
        .evaluate(&MultilinearPoint(out.z_ood_era.clone()));
    assert_eq!(out.sigma_ood_era, sigma_ood_expected);

    let beta_1 = pow_field(out.beta, 1);
    let beta_3 = pow_field(out.beta, 3);
    assert_eq!(out.v_cs[1], beta_1);
    assert_eq!(out.v_cs[3], beta_3);
    assert_eq!(out.v_cs[0], KoalaBear::zero());
    assert_eq!(out.v_cs[2], KoalaBear::zero());

    let sigma_cs_expected = beta_1.mul(f(2)).add(beta_3.mul(f(4)));
    assert_eq!(out.sigma_cs, sigma_cs_expected);

    let sigma_code_b_at_r_x_expected = EvaluationsList::new(out.word_code_b.clone())
        .evaluate(&MultilinearPoint(out.r_x_code_b.clone()));
    assert_eq!(out.sigma_code_b_at_r_x, sigma_code_b_at_r_x_expected);

    let (generator_left_table, generator_right_table, message_table) =
        build_base_code_sumcheck_tip_tables(
            &input.base_code_prime_generator_matrix,
            &out.r_x_code_b,
            &input.msg,
            2,
        );

    let claimed_sum_over_y = generator_left_table
        .iter()
        .zip(generator_right_table.iter())
        .zip(message_table.iter())
        .fold(KoalaBear::zero(), |acc, ((&left, &right), &message_value)| {
            acc.add(left.mul(right).mul(message_value))
        });
    assert_eq!(claimed_sum_over_y, out.sigma_code_b_at_r_x);

    // TIPSumcheck compresses adjacent pairs each round, so the sampled
    // randomness is in low-to-high variable order.
    let r_y_eval_point = MultilinearPoint(
        out.base_code_sumcheck_challenges
            .iter()
            .copied()
            .rev()
            .collect(),
    );
    let generator_left_eval =
        EvaluationsList::new(generator_left_table).evaluate(&r_y_eval_point);
    let generator_right_eval =
        EvaluationsList::new(generator_right_table).evaluate(&r_y_eval_point);
    let message_eval = EvaluationsList::new(message_table).evaluate(&r_y_eval_point);

    assert_eq!(out.sigma_code_b_g_left_at_r_y, generator_left_eval);
    assert_eq!(out.sigma_code_b_g_right_at_r_y, generator_right_eval);
    assert_eq!(out.sigma_code_b_msg_at_r_y, message_eval);
    assert_eq!(
        out.base_code_sumcheck_reduced_claim,
        out.sigma_code_b_g_left_at_r_y
            .mul(out.sigma_code_b_g_right_at_r_y)
            .mul(out.sigma_code_b_msg_at_r_y)
    );
    assert_eq!(
        out.base_code_sumcheck_round_polys.len(),
        out.word_code_b.len().ilog2() as usize
    );

    let k_prime = output_code.message_size();

    let eq_r_x_code_b = MultilinearPoint(out.r_x_code_b.clone()).eq_weights();
    let expected_base_code_word_ip_claims = split_claim_ip(
        &out.word_code_b,
        &eq_r_x_code_b,
        out.sigma_code_b_at_r_x,
        k_prime,
    );
    assert_eq!(
        out.base_code_word_ip_claims,
        expected_base_code_word_ip_claims
    );

    let (r_x_left_half, r_x_right_half) = out.r_x_code_b.split_at(out.r_x_code_b.len() / 2);
    let (r_y_left_half, r_y_right_half) = r_y_eval_point
        .0
        .split_at(r_y_eval_point.num_variables() / 2);

    let mut r_x_left_r_y_left = Vec::new();
    r_x_left_r_y_left.extend_from_slice(r_x_left_half);
    r_x_left_r_y_left.extend_from_slice(r_y_left_half);
    let eq_r_x_left_r_y_left = MultilinearPoint(r_x_left_r_y_left).eq_weights();
    let expected_base_code_g_left_ip_claims = split_claim_ip(
        &input.base_code_prime_generator_matrix,
        &eq_r_x_left_r_y_left,
        out.sigma_code_b_g_left_at_r_y,
        k_prime,
    );
    assert_eq!(
        out.base_code_g_left_ip_claims,
        expected_base_code_g_left_ip_claims
    );

    let mut r_x_right_r_y_right = Vec::new();
    r_x_right_r_y_right.extend_from_slice(r_x_right_half);
    r_x_right_r_y_right.extend_from_slice(r_y_right_half);
    let eq_r_x_right_r_y_right = MultilinearPoint(r_x_right_r_y_right).eq_weights();
    let expected_base_code_g_right_ip_claims = split_claim_ip(
        &input.base_code_prime_generator_matrix,
        &eq_r_x_right_r_y_right,
        out.sigma_code_b_g_right_at_r_y,
        k_prime,
    );
    assert_eq!(
        out.base_code_g_right_ip_claims,
        expected_base_code_g_right_ip_claims
    );

    let eq_r_y_code_b = r_y_eval_point.eq_weights();
    let expected_base_code_msg_ip_claims = split_claim_ip(
        &input.msg,
        &eq_r_y_code_b,
        out.sigma_code_b_msg_at_r_y,
        k_prime,
    );
    assert_eq!(
        out.base_code_msg_ip_claims,
        expected_base_code_msg_ip_claims
    );

    let mut expected_r_rep = vec![KoalaBear::zero(); repeat_factor.ilog2() as usize];
    expected_r_rep.extend_from_slice(&out.r_x_code_b);
    assert_eq!(out.r_rep, expected_r_rep);

    let expected_sigma_rep_at_r_rep = EvaluationsList::new(out.word_rep.clone())
        .evaluate(&MultilinearPoint(out.r_rep.clone()));
    assert_eq!(out.sigma_rep_at_r_rep, expected_sigma_rep_at_r_rep);
    assert_eq!(out.sigma_rep_at_r_rep, out.sigma_code_b_at_r_x);

    let eq_r_rep = MultilinearPoint(out.r_rep.clone()).eq_weights();
    let expected_repeat_ip_claims =
        split_claim_ip(&out.word_rep, &eq_r_rep, out.sigma_rep_at_r_rep, k_prime);
    assert_eq!(out.repeat_ip_claims, expected_repeat_ip_claims);

    let expected_sigma_ood_perm = EvaluationsList::new(out.word_perm.clone())
        .evaluate(&MultilinearPoint(out.z_ood_perm.clone()));
    assert_eq!(out.sigma_ood_perm, expected_sigma_ood_perm);

    let eq_z_ood_perm = MultilinearPoint(out.z_ood_perm.clone()).eq_weights();
    let expected_perm_ood_ip_claims =
        split_claim_ip(&out.word_perm, &eq_z_ood_perm, out.sigma_ood_perm, k_prime);
    assert_eq!(out.perm_ood_ip_claims, expected_perm_ood_ip_claims);

    let expected_permutation_identity_vector: Vec<KoalaBear> = (0..out.word_rep.len())
        .map(|index| f(index as u32))
        .collect();
    let expected_permutation_pi_1_vector: Vec<KoalaBear> = input
        .permutation_1
        .iter()
        .copied()
        .map(|value| f(value as u32))
        .collect();
    assert_eq!(
        out.permutation_identity_vector,
        expected_permutation_identity_vector
    );
    assert_eq!(
        out.permutation_pi_1_vector,
        expected_permutation_pi_1_vector
    );

    let expected_permutation_a_1: Vec<KoalaBear> = out
        .word_rep
        .iter()
        .zip(out.permutation_pi_1_vector.iter())
        .map(|(&word_value, &pi_value)| {
            out.permutation_alpha.sub(word_value.add(out.permutation_beta.mul(pi_value)))
        })
        .collect();
    let expected_permutation_b_1: Vec<KoalaBear> = out
        .word_perm
        .iter()
        .zip(out.permutation_identity_vector.iter())
        .map(|(&word_value, &id_value)| {
            out.permutation_alpha.sub(word_value.add(out.permutation_beta.mul(id_value)))
        })
        .collect();
    assert_eq!(out.permutation_a_1, expected_permutation_a_1);
    assert_eq!(out.permutation_b_1, expected_permutation_b_1);

    let expected_permutation_a_2 = prefix_products_vec(&out.permutation_a_1);
    let expected_permutation_b_2 = prefix_products_vec(&out.permutation_b_1);
    assert_eq!(out.permutation_a_2, expected_permutation_a_2);
    assert_eq!(out.permutation_b_2, expected_permutation_b_2);

    let expected_permutation_a_1_oracles = split_and_encode(&out.permutation_a_1, &output_code);
    let expected_permutation_a_2_oracles = split_and_encode(&out.permutation_a_2, &output_code);
    let expected_permutation_b_1_oracles = split_and_encode(&out.permutation_b_1, &output_code);
    let expected_permutation_b_2_oracles = split_and_encode(&out.permutation_b_2, &output_code);
    assert_eq!(
        &out.permutation_a_1_oracles.chunks,
        &expected_permutation_a_1_oracles.chunks
    );
    assert_eq!(
        &out.permutation_a_1_oracles.codewords,
        &expected_permutation_a_1_oracles.codewords
    );
    assert_eq!(
        &out.permutation_a_2_oracles.chunks,
        &expected_permutation_a_2_oracles.chunks
    );
    assert_eq!(
        &out.permutation_a_2_oracles.codewords,
        &expected_permutation_a_2_oracles.codewords
    );
    assert_eq!(
        &out.permutation_b_1_oracles.chunks,
        &expected_permutation_b_1_oracles.chunks
    );
    assert_eq!(
        &out.permutation_b_1_oracles.codewords,
        &expected_permutation_b_1_oracles.codewords
    );
    assert_eq!(
        &out.permutation_b_2_oracles.chunks,
        &expected_permutation_b_2_oracles.chunks
    );
    assert_eq!(
        &out.permutation_b_2_oracles.codewords,
        &expected_permutation_b_2_oracles.codewords
    );

    let expected_permutation_a_1_sigma_ood = EvaluationsList::new(out.permutation_a_1.clone())
        .evaluate(&MultilinearPoint(out.permutation_a_1_z_ood.clone()));
    let expected_permutation_a_2_sigma_ood = EvaluationsList::new(out.permutation_a_2.clone())
        .evaluate(&MultilinearPoint(out.permutation_a_2_z_ood.clone()));
    let expected_permutation_b_1_sigma_ood = EvaluationsList::new(out.permutation_b_1.clone())
        .evaluate(&MultilinearPoint(out.permutation_b_1_z_ood.clone()));
    let expected_permutation_b_2_sigma_ood = EvaluationsList::new(out.permutation_b_2.clone())
        .evaluate(&MultilinearPoint(out.permutation_b_2_z_ood.clone()));
    assert_eq!(
        out.permutation_a_1_sigma_ood,
        expected_permutation_a_1_sigma_ood
    );
    assert_eq!(
        out.permutation_a_2_sigma_ood,
        expected_permutation_a_2_sigma_ood
    );
    assert_eq!(
        out.permutation_b_1_sigma_ood,
        expected_permutation_b_1_sigma_ood
    );
    assert_eq!(
        out.permutation_b_2_sigma_ood,
        expected_permutation_b_2_sigma_ood
    );

    let expected_permutation_a_1_ood_ip_claims = split_claim_ip(
        &out.permutation_a_1,
        &MultilinearPoint(out.permutation_a_1_z_ood.clone()).eq_weights(),
        out.permutation_a_1_sigma_ood,
        k_prime,
    );
    let expected_permutation_a_2_ood_ip_claims = split_claim_ip(
        &out.permutation_a_2,
        &MultilinearPoint(out.permutation_a_2_z_ood.clone()).eq_weights(),
        out.permutation_a_2_sigma_ood,
        k_prime,
    );
    let expected_permutation_b_1_ood_ip_claims = split_claim_ip(
        &out.permutation_b_1,
        &MultilinearPoint(out.permutation_b_1_z_ood.clone()).eq_weights(),
        out.permutation_b_1_sigma_ood,
        k_prime,
    );
    let expected_permutation_b_2_ood_ip_claims = split_claim_ip(
        &out.permutation_b_2,
        &MultilinearPoint(out.permutation_b_2_z_ood.clone()).eq_weights(),
        out.permutation_b_2_sigma_ood,
        k_prime,
    );
    assert_eq!(
        out.permutation_a_1_ood_ip_claims,
        expected_permutation_a_1_ood_ip_claims
    );
    assert_eq!(
        out.permutation_a_2_ood_ip_claims,
        expected_permutation_a_2_ood_ip_claims
    );
    assert_eq!(
        out.permutation_b_1_ood_ip_claims,
        expected_permutation_b_1_ood_ip_claims
    );
    assert_eq!(
        out.permutation_b_2_ood_ip_claims,
        expected_permutation_b_2_ood_ip_claims
    );

    let expected_fixed_point =
        build_first_permute_fixed_point(out.word_rep.len().ilog2() as usize);
    assert_eq!(out.permutation_fixed_point, expected_fixed_point);

    let expected_a_1_sigma_fixed = EvaluationsList::new(out.permutation_a_1.clone())
        .evaluate(&MultilinearPoint(out.permutation_fixed_point.clone()));
    let expected_b_1_sigma_fixed = EvaluationsList::new(out.permutation_b_1.clone())
        .evaluate(&MultilinearPoint(out.permutation_fixed_point.clone()));
    assert_eq!(out.permutation_a_1_sigma_fixed, expected_a_1_sigma_fixed);
    assert_eq!(out.permutation_b_1_sigma_fixed, expected_b_1_sigma_fixed);

    let eq_permutation_fixed =
        MultilinearPoint(out.permutation_fixed_point.clone()).eq_weights();
    let expected_permutation_a_1_fixed_ip_claims = split_claim_ip(
        &out.permutation_a_1,
        &eq_permutation_fixed,
        out.permutation_a_1_sigma_fixed,
        k_prime,
    );
    let expected_permutation_b_1_fixed_ip_claims = split_claim_ip(
        &out.permutation_b_1,
        &eq_permutation_fixed,
        out.permutation_b_1_sigma_fixed,
        k_prime,
    );
    assert_eq!(
        out.permutation_a_1_fixed_ip_claims,
        expected_permutation_a_1_fixed_ip_claims
    );
    assert_eq!(
        out.permutation_b_1_fixed_ip_claims,
        expected_permutation_b_1_fixed_ip_claims
    );

    let expected_sigma_a_at_r_perm = EvaluationsList::new(out.permutation_a_1.clone())
        .evaluate(&MultilinearPoint(out.permutation_r_perm.clone()));
    let expected_sigma_b_at_r_perm = EvaluationsList::new(out.permutation_b_1.clone())
        .evaluate(&MultilinearPoint(out.permutation_r_perm.clone()));
    let expected_sigma_id_at_r_perm =
        EvaluationsList::new(out.permutation_identity_vector.clone())
            .evaluate(&MultilinearPoint(out.permutation_r_perm.clone()));
    let expected_sigma_word_rep_at_r_perm = EvaluationsList::new(out.word_rep.clone())
        .evaluate(&MultilinearPoint(out.permutation_r_perm.clone()));
    let expected_sigma_word_perm_at_r_perm = EvaluationsList::new(out.word_perm.clone())
        .evaluate(&MultilinearPoint(out.permutation_r_perm.clone()));
    let expected_sigma_pi_1_at_r_perm =
        EvaluationsList::new(out.permutation_pi_1_vector.clone())
            .evaluate(&MultilinearPoint(out.permutation_r_perm.clone()));

    assert_eq!(
        out.permutation_sigma_a_at_r_perm,
        expected_sigma_a_at_r_perm
    );
    assert_eq!(
        out.permutation_sigma_b_at_r_perm,
        expected_sigma_b_at_r_perm
    );
    assert_eq!(
        out.permutation_sigma_id_at_r_perm,
        expected_sigma_id_at_r_perm
    );
    assert_eq!(
        out.permutation_sigma_word_rep_at_r_perm,
        expected_sigma_word_rep_at_r_perm
    );
    assert_eq!(
        out.permutation_sigma_word_perm_at_r_perm,
        expected_sigma_word_perm_at_r_perm
    );
    assert_eq!(
        out.permutation_sigma_pi_1_at_r_perm,
        expected_sigma_pi_1_at_r_perm
    );

    assert_eq!(
        out.permutation_sigma_a_at_r_perm,
        out.permutation_alpha.sub(
            out.permutation_sigma_word_rep_at_r_perm
                .add(out.permutation_beta.mul(out.permutation_sigma_pi_1_at_r_perm))
        )
    );
    assert_eq!(
        out.permutation_sigma_b_at_r_perm,
        out.permutation_alpha.sub(
            out.permutation_sigma_word_perm_at_r_perm
                .add(out.permutation_beta.mul(out.permutation_sigma_id_at_r_perm))
        )
    );

    let eq_r_perm = MultilinearPoint(out.permutation_r_perm.clone()).eq_weights();
    assert_eq!(
        out.permutation_a_1_r_perm_ip_claims,
        split_claim_ip(
            &out.permutation_a_1,
            &eq_r_perm,
            out.permutation_sigma_a_at_r_perm,
            k_prime,
        )
    );
    assert_eq!(
        out.permutation_b_1_r_perm_ip_claims,
        split_claim_ip(
            &out.permutation_b_1,
            &eq_r_perm,
            out.permutation_sigma_b_at_r_perm,
            k_prime,
        )
    );
    assert_eq!(
        out.permutation_word_rep_r_perm_ip_claims,
        split_claim_ip(
            &out.word_rep,
            &eq_r_perm,
            out.permutation_sigma_word_rep_at_r_perm,
            k_prime,
        )
    );
    assert_eq!(
        out.permutation_word_perm_r_perm_ip_claims,
        split_claim_ip(
            &out.word_perm,
            &eq_r_perm,
            out.permutation_sigma_word_perm_at_r_perm,
            k_prime,
        )
    );
    assert_eq!(
        out.permutation_identity_r_perm_ip_claims,
        split_claim_ip(
            &out.permutation_identity_vector,
            &eq_r_perm,
            out.permutation_sigma_id_at_r_perm,
            k_prime,
        )
    );
    assert_eq!(
        out.permutation_pi_1_r_perm_ip_claims,
        split_claim_ip(
            &out.permutation_pi_1_vector,
            &eq_r_perm,
            out.permutation_sigma_pi_1_at_r_perm,
            k_prime,
        )
    );

    assert_eq!(out.permutation_r_a.len(), out.permutation_r_perm.len());
    assert_eq!(out.permutation_r_b.len(), out.permutation_r_perm.len());
    assert_eq!(
        out.permutation_a_transition_sumcheck_round_polys.len(),
        out.permutation_r_perm.len()
    );
    assert_eq!(
        out.permutation_b_transition_sumcheck_round_polys.len(),
        out.permutation_r_perm.len()
    );

    assert_eq!(
        out.permutation_a_sigma_one_at_r_a,
        EvaluationsList::new(out.permutation_a_2.clone())
            .evaluate(&MultilinearPoint(out.permutation_r_a.clone()))
    );
    assert_eq!(
        out.permutation_b_sigma_one_at_r_b,
        EvaluationsList::new(out.permutation_b_2.clone())
            .evaluate(&MultilinearPoint(out.permutation_r_b.clone()))
    );

    let (&r_a_1, r_a_tail) = out.permutation_r_a.split_first().unwrap();
    let (&r_b_1, r_b_tail) = out.permutation_r_b.split_first().unwrap();
    let r_a_tail_0 = append_coord(r_a_tail, KoalaBear::zero());
    let r_a_tail_1 = append_coord(r_a_tail, KoalaBear::one());
    let r_b_tail_0 = append_coord(r_b_tail, KoalaBear::zero());
    let r_b_tail_1 = append_coord(r_b_tail, KoalaBear::one());

    let expected_a_sigma_i_r_tail_j = [
        [
            EvaluationsList::new(out.permutation_a_1.clone())
                .evaluate(&MultilinearPoint(r_a_tail_0.clone())),
            EvaluationsList::new(out.permutation_a_1.clone())
                .evaluate(&MultilinearPoint(r_a_tail_1.clone())),
        ],
        [
            EvaluationsList::new(out.permutation_a_2.clone())
                .evaluate(&MultilinearPoint(r_a_tail_0.clone())),
            EvaluationsList::new(out.permutation_a_2.clone())
                .evaluate(&MultilinearPoint(r_a_tail_1.clone())),
        ],
    ];
    let expected_b_sigma_i_r_tail_j = [
        [
            EvaluationsList::new(out.permutation_b_1.clone())
                .evaluate(&MultilinearPoint(r_b_tail_0.clone())),
            EvaluationsList::new(out.permutation_b_1.clone())
                .evaluate(&MultilinearPoint(r_b_tail_1.clone())),
        ],
        [
            EvaluationsList::new(out.permutation_b_2.clone())
                .evaluate(&MultilinearPoint(r_b_tail_0.clone())),
            EvaluationsList::new(out.permutation_b_2.clone())
                .evaluate(&MultilinearPoint(r_b_tail_1.clone())),
        ],
    ];
    assert_eq!(
        out.permutation_a_sigma_i_r_a_tail_j,
        expected_a_sigma_i_r_tail_j
    );
    assert_eq!(
        out.permutation_b_sigma_i_r_b_tail_j,
        expected_b_sigma_i_r_tail_j
    );

    let expected_a_sigma_r_a_0 = KoalaBear::one().sub(r_a_1).mul(expected_a_sigma_i_r_tail_j[0][0])
        .add(r_a_1.mul(expected_a_sigma_i_r_tail_j[1][0]));
    let expected_a_sigma_r_a_1 = KoalaBear::one().sub(r_a_1).mul(expected_a_sigma_i_r_tail_j[0][1])
        .add(r_a_1.mul(expected_a_sigma_i_r_tail_j[1][1]));
    let expected_b_sigma_r_b_0 = KoalaBear::one().sub(r_b_1).mul(expected_b_sigma_i_r_tail_j[0][0])
        .add(r_b_1.mul(expected_b_sigma_i_r_tail_j[1][0]));
    let expected_b_sigma_r_b_1 = KoalaBear::one().sub(r_b_1).mul(expected_b_sigma_i_r_tail_j[0][1])
        .add(r_b_1.mul(expected_b_sigma_i_r_tail_j[1][1]));
    assert_eq!(out.permutation_a_sigma_r_a_0, expected_a_sigma_r_a_0);
    assert_eq!(out.permutation_a_sigma_r_a_1, expected_a_sigma_r_a_1);
    assert_eq!(out.permutation_b_sigma_r_b_0, expected_b_sigma_r_b_0);
    assert_eq!(out.permutation_b_sigma_r_b_1, expected_b_sigma_r_b_1);

    let eq_r_a_r_perm = MultilinearPoint(out.permutation_r_a.clone())
        .eq_poly_outside(&MultilinearPoint(out.permutation_r_perm.clone()));
    let eq_r_b_r_perm = MultilinearPoint(out.permutation_r_b.clone())
        .eq_poly_outside(&MultilinearPoint(out.permutation_r_perm.clone()));
    assert_eq!(
        out.permutation_a_transition_reduced_claim,
        eq_r_a_r_perm.mul(
            out.permutation_a_sigma_one_at_r_a
                .sub(out.permutation_a_sigma_r_a_0.mul(out.permutation_a_sigma_r_a_1))
        )
    );
    assert_eq!(
        out.permutation_b_transition_reduced_claim,
        eq_r_b_r_perm.mul(
            out.permutation_b_sigma_one_at_r_b
                .sub(out.permutation_b_sigma_r_b_0.mul(out.permutation_b_sigma_r_b_1))
        )
    );

    assert_eq!(
        out.permutation_a_2_r_a_ip_claims,
        split_claim_ip(
            &out.permutation_a_2,
            &MultilinearPoint(out.permutation_r_a.clone()).eq_weights(),
            out.permutation_a_sigma_one_at_r_a,
            k_prime,
        )
    );
    assert_eq!(
        out.permutation_b_2_r_b_ip_claims,
        split_claim_ip(
            &out.permutation_b_2,
            &MultilinearPoint(out.permutation_r_b.clone()).eq_weights(),
            out.permutation_b_sigma_one_at_r_b,
            k_prime,
        )
    );

    assert_eq!(
        out.permutation_a_r_a_tail_ip_claims[0][0],
        split_claim_ip(
            &out.permutation_a_1,
            &MultilinearPoint(r_a_tail_0).eq_weights(),
            out.permutation_a_sigma_i_r_a_tail_j[0][0],
            k_prime,
        )
    );
    assert_eq!(
        out.permutation_a_r_a_tail_ip_claims[0][1],
        split_claim_ip(
            &out.permutation_a_1,
            &MultilinearPoint(r_a_tail_1).eq_weights(),
            out.permutation_a_sigma_i_r_a_tail_j[0][1],
            k_prime,
        )
    );
    assert_eq!(
        out.permutation_b_r_b_tail_ip_claims[0][0],
        split_claim_ip(
            &out.permutation_b_1,
            &MultilinearPoint(r_b_tail_0).eq_weights(),
            out.permutation_b_sigma_i_r_b_tail_j[0][0],
            k_prime,
        )
    );
    assert_eq!(
        out.permutation_b_r_b_tail_ip_claims[0][1],
        split_claim_ip(
            &out.permutation_b_1,
            &MultilinearPoint(r_b_tail_1).eq_weights(),
            out.permutation_b_sigma_i_r_b_tail_j[0][1],
            k_prime,
        )
    );

    let expected_mult_oracles = split_and_encode(&out.word_mult, &output_code);
    assert_eq!(&out.mult_oracles.chunks, &expected_mult_oracles.chunks);
    assert_eq!(
        &out.mult_oracles.codewords,
        &expected_mult_oracles.codewords
    );

    let expected_sigma_ood_mult = EvaluationsList::new(out.word_mult.clone())
        .evaluate(&MultilinearPoint(out.z_ood_mult.clone()));
    assert_eq!(out.sigma_ood_mult, expected_sigma_ood_mult);
    assert_eq!(
        out.mult_ood_ip_claims,
        split_claim_ip(
            &out.word_mult,
            &MultilinearPoint(out.z_ood_mult.clone()).eq_weights(),
            out.sigma_ood_mult,
            k_prime,
        )
    );

    let expected_r_mult = geometric_power_vector(out.r_mult_challenge, out.word_mult.len());
    assert_eq!(out.r_mult, expected_r_mult);

    let expected_sigma_mult = triple_product(
        &out.word_perm,
        &input.multiplier_1,
        &out.r_mult,
    );
    assert_eq!(out.sigma_mult, expected_sigma_mult);
    assert_eq!(
        out.sigma_mult,
        inner_product(&out.word_mult, &out.r_mult)
    );

    assert_eq!(
        out.multiply_tip_claims,
        split_claim_tip(
            &out.word_perm,
            &input.multiplier_1,
            &out.r_mult,
            out.sigma_mult,
            k_prime,
        )
    );
    assert_eq!(
        out.mult_r_ip_claims,
        split_claim_ip(&out.word_mult, &out.r_mult, out.sigma_mult, k_prime)
    );

    let expected_acc_oracles = split_and_encode(&out.word_acc, &output_code);
    assert_eq!(&out.acc_oracles.chunks, &expected_acc_oracles.chunks);
    assert_eq!(&out.acc_oracles.codewords, &expected_acc_oracles.codewords);

    let expected_sigma_ood_acc = EvaluationsList::new(out.word_acc.clone())
        .evaluate(&MultilinearPoint(out.z_ood_acc.clone()));
    assert_eq!(out.sigma_ood_acc, expected_sigma_ood_acc);
    assert_eq!(
        out.acc_ood_ip_claims,
        split_claim_ip(
            &out.word_acc,
            &MultilinearPoint(out.z_ood_acc.clone()).eq_weights(),
            out.sigma_ood_acc,
            k_prime,
        )
    );

    let expected_acc_map_row_at_r_acc = prefix_sum_accumulate_row_at_point(&out.r_acc);
    assert_eq!(out.acc_map_row_at_r_acc, expected_acc_map_row_at_r_acc);
    assert_eq!(
        out.sigma_acc,
        EvaluationsList::new(out.word_acc.clone())
            .evaluate(&MultilinearPoint(out.r_acc.clone()))
    );
    assert_eq!(
        out.sigma_acc,
        inner_product(
            &out.word_mult,
            &out.acc_map_row_at_r_acc
        )
    );
    assert_eq!(
        out.acc_mult_ip_claims,
        split_claim_ip(
            &out.word_mult,
            &out.acc_map_row_at_r_acc,
            out.sigma_acc,
            k_prime
        )
    );
    assert_eq!(
        out.acc_r_ip_claims,
        split_claim_ip(
            &out.word_acc,
            &MultilinearPoint(out.r_acc.clone()).eq_weights(),
            out.sigma_acc,
            k_prime,
        )
    );

    let expected_word_perm_2 = apply_permutation(&out.word_acc, &input.permutation_2);
    assert_eq!(out.word_perm_2, expected_word_perm_2);
    let expected_word_mult_2 = hadamard_product(
        &out.word_perm_2,
        &input.multiplier_2,
    );
    assert_eq!(out.word_mult_2, expected_word_mult_2);
    assert_eq!(out.word_acc_2, prefix_sums_vec(&out.word_mult_2));
    assert_eq!(out.word_acc_2, out.word_era);

    assert_eq!(
        out.sigma_ood_perm_2,
        EvaluationsList::new(out.word_perm_2.clone())
            .evaluate(&MultilinearPoint(out.z_ood_perm_2.clone()))
    );
    assert_eq!(
        out.perm_2_ood_ip_claims,
        split_claim_ip(
            &out.word_perm_2,
            &MultilinearPoint(out.z_ood_perm_2.clone()).eq_weights(),
            out.sigma_ood_perm_2,
            k_prime,
        )
    );

    assert_eq!(
        out.sigma_ood_mult_2,
        EvaluationsList::new(out.word_mult_2.clone())
            .evaluate(&MultilinearPoint(out.z_ood_mult_2.clone()))
    );
    assert_eq!(
        out.mult_2_ood_ip_claims,
        split_claim_ip(
            &out.word_mult_2,
            &MultilinearPoint(out.z_ood_mult_2.clone()).eq_weights(),
            out.sigma_ood_mult_2,
            k_prime,
        )
    );
    assert_eq!(
        out.r_mult_2,
        geometric_power_vector(out.r_mult_challenge_2, out.word_mult_2.len())
    );
    assert_eq!(
        out.sigma_mult_2,
        triple_product(
            &out.word_perm_2,
            &input.multiplier_2,
            &out.r_mult_2,
        )
    );
    assert_eq!(
        out.sigma_mult_2,
        inner_product(&out.word_mult_2, &out.r_mult_2)
    );
    assert_eq!(
        out.multiply_tip_claims_2,
        split_claim_tip(
            &out.word_perm_2,
            &input.multiplier_2,
            &out.r_mult_2,
            out.sigma_mult_2,
            k_prime,
        )
    );
    assert_eq!(
        out.mult_2_r_ip_claims,
        split_claim_ip(&out.word_mult_2, &out.r_mult_2, out.sigma_mult_2, k_prime)
    );

    assert_eq!(
        out.sigma_ood_acc_2,
        EvaluationsList::new(out.word_acc_2.clone())
            .evaluate(&MultilinearPoint(out.z_ood_acc_2.clone()))
    );
    assert_eq!(
        out.acc_2_ood_ip_claims,
        split_claim_ip(
            &out.word_acc_2,
            &MultilinearPoint(out.z_ood_acc_2.clone()).eq_weights(),
            out.sigma_ood_acc_2,
            k_prime,
        )
    );
    assert_eq!(
        out.acc_map_row_at_r_acc_2,
        prefix_sum_accumulate_row_at_point(&out.r_acc_2)
    );
    assert_eq!(
        out.sigma_acc_2,
        EvaluationsList::new(out.word_acc_2.clone())
            .evaluate(&MultilinearPoint(out.r_acc_2.clone()))
    );
    assert_eq!(
        out.sigma_acc_2,
        inner_product(
            &out.word_mult_2,
            &out.acc_map_row_at_r_acc_2
        )
    );
    assert_eq!(
        out.acc_mult_2_ip_claims,
        split_claim_ip(
            &out.word_mult_2,
            &out.acc_map_row_at_r_acc_2,
            out.sigma_acc_2,
            k_prime,
        )
    );
    assert_eq!(
        out.acc_2_r_ip_claims,
        split_claim_ip(
            &out.word_acc_2,
            &MultilinearPoint(out.r_acc_2.clone()).eq_weights(),
            out.sigma_acc_2,
            k_prime,
        )
    );

    assert_eq!(out.ood_ip_claims.len(), 2);
    assert_eq!(out.codeswitch_ip_claims.len(), 2);
    assert_eq!(out.base_code_word_ip_claims.len(), 2);
    assert_eq!(out.base_code_g_left_ip_claims.len(), 2);
    assert_eq!(out.base_code_g_right_ip_claims.len(), 2);
    assert_eq!(out.base_code_msg_ip_claims.len(), 2);
    assert_eq!(out.repeat_ip_claims.len(), 2);
    assert_eq!(out.perm_ood_ip_claims.len(), 2);
    assert_eq!(out.mult_ood_ip_claims.len(), 2);
    assert_eq!(out.mult_r_ip_claims.len(), 2);
    assert_eq!(out.acc_ood_ip_claims.len(), 2);
    assert_eq!(out.permutation_a_1_ood_ip_claims.len(), 2);
    assert_eq!(out.permutation_a_2_ood_ip_claims.len(), 2);
    assert_eq!(out.permutation_b_1_ood_ip_claims.len(), 2);
    assert_eq!(out.permutation_b_2_ood_ip_claims.len(), 2);
    assert_eq!(out.permutation_a_1_fixed_ip_claims.len(), 2);
    assert_eq!(out.permutation_b_1_fixed_ip_claims.len(), 2);
    assert_eq!(out.permutation_a_1_r_perm_ip_claims.len(), 2);
    assert_eq!(out.permutation_b_1_r_perm_ip_claims.len(), 2);
    assert_eq!(out.permutation_word_rep_r_perm_ip_claims.len(), 2);
    assert_eq!(out.permutation_word_perm_r_perm_ip_claims.len(), 2);
    assert_eq!(out.permutation_identity_r_perm_ip_claims.len(), 2);
    assert_eq!(out.permutation_pi_1_r_perm_ip_claims.len(), 2);
    assert_eq!(out.permutation_a_2_r_a_ip_claims.len(), 2);
    assert_eq!(out.permutation_b_2_r_b_ip_claims.len(), 2);
    assert_eq!(out.permutation_a_r_a_tail_ip_claims[0][0].len(), 2);
    assert_eq!(out.permutation_a_r_a_tail_ip_claims[0][1].len(), 2);
    assert_eq!(out.permutation_a_r_a_tail_ip_claims[1][0].len(), 2);
    assert_eq!(out.permutation_a_r_a_tail_ip_claims[1][1].len(), 2);
    assert_eq!(out.permutation_b_r_b_tail_ip_claims[0][0].len(), 2);
    assert_eq!(out.permutation_b_r_b_tail_ip_claims[0][1].len(), 2);
    assert_eq!(out.permutation_b_r_b_tail_ip_claims[1][0].len(), 2);
    assert_eq!(out.permutation_b_r_b_tail_ip_claims[1][1].len(), 2);
    assert_eq!(out.acc_mult_ip_claims.len(), 2);
    assert_eq!(out.acc_r_ip_claims.len(), 2);
    assert_eq!(out.perm_2_ood_ip_claims.len(), 2);
    assert_eq!(out.mult_2_ood_ip_claims.len(), 2);
    assert_eq!(out.mult_2_r_ip_claims.len(), 2);
    assert_eq!(out.acc_2_ood_ip_claims.len(), 2);
    assert_eq!(out.acc_mult_2_ip_claims.len(), 2);
    assert_eq!(out.acc_2_r_ip_claims.len(), 2);

    assert_eq!(out.ip_claims.len(), 126);
    assert_eq!(out.aux_oracles.len(), 17);
    assert_eq!(out.tip_claims.len(), 4);
}

#[test]
fn test_generate_codeswitch_claims_matches_full_helper() {
    let era_code = IdentityCode::new(4);
    let base_code = IdentityCode::new(4);
    let output_code = IdentityCode::new(2);

    let input = CodeswitchClaimsInput {
        msg: vec![f(1), f(2), f(3), f(4)],
        spotchecks: vec![CodeswitchSpotcheck {
            alpha: 1,
            sigma_cs: f(2),
        }],
        base_code_prime_generator_matrix: vec![f(1), f(0), f(0), f(1)],
        permutation_1: vec![0, 1, 2, 3],
        permutation_2: vec![0, 1, 2, 3],
        multiplier_1: vec![f(3), f(4), f(5), f(6)],
        multiplier_2: vec![
            f(3).inverse().expect("non-zero"),
            f(11).inverse().expect("non-zero"),
            f(26).inverse().expect("non-zero"),
            f(50).inverse().expect("non-zero"),
        ],
    };

    let mut full_rng = SmallRng::seed_from_u64(11);
    let out_full = generate_codeswitch_claims(
        input.clone(),
        &era_code,
        &base_code,
        &output_code,
        &mut full_rng,
    )
    .expect("the claims of an honest run hold");

    let mut helper_rng = SmallRng::seed_from_u64(11);
    let out_helper = generate_codeswitch_claims_up_to_base_code_encoding(
        &input,
        &era_code,
        &base_code,
        &output_code,
        &mut helper_rng,
    )
    .expect("the claims of an honest run hold");

    assert_eq!(out_full.word_era, out_helper.word_era);
    assert_eq!(out_full.word_perm, out_helper.word_perm);
    assert_eq!(out_full.word_mult, out_helper.word_mult);
    assert_eq!(out_full.word_acc, out_helper.word_acc);
    assert_eq!(out_full.word_perm_2, out_helper.word_perm_2);
    assert_eq!(out_full.word_mult_2, out_helper.word_mult_2);
    assert_eq!(out_full.word_acc_2, out_helper.word_acc_2);
    assert_eq!(out_full.z_ood_mult, out_helper.z_ood_mult);
    assert_eq!(out_full.z_ood_acc, out_helper.z_ood_acc);
    assert_eq!(out_full.r_mult, out_helper.r_mult);
    assert_eq!(out_full.sigma_mult, out_helper.sigma_mult);
    assert_eq!(out_full.permutation_r_perm, out_helper.permutation_r_perm);
    assert_eq!(
        out_full.permutation_a_transition_reduced_claim,
        out_helper.permutation_a_transition_reduced_claim
    );
    assert_eq!(
        out_full.permutation_b_transition_reduced_claim,
        out_helper.permutation_b_transition_reduced_claim
    );
    assert_eq!(out_full.ip_claims, out_helper.ip_claims);
    assert_eq!(out_full.tip_claims, out_helper.tip_claims);
    assert_eq!(out_full.aux_oracles.len(), out_helper.aux_oracles.len());
}

#[test]
fn consistent_inputs_give_claims_for_every_seed() {
    let era_code = IdentityCode::new(4);
    let base_code = IdentityCode::new(4);
    let output_code = IdentityCode::new(2);
    let input = CodeswitchClaimsInput {
        msg: vec![f(1), f(2), f(3), f(4)],
        spotchecks: vec![
            CodeswitchSpotcheck { alpha: 1, sigma_cs: f(2) },
            CodeswitchSpotcheck { alpha: 3, sigma_cs: f(4) },
        ],
        base_code_prime_generator_matrix: vec![f(1), f(0), f(0), f(1)],
        permutation_1: vec![1, 2, 3, 0],
        permutation_2: vec![0, 1, 2, 3],
        multiplier_1: vec![f(5), f(6), f(7), f(8)],
        multiplier_2: vec![
            f(10).inverse().expect("non-zero"),
            f(28).inverse().expect("non-zero"),
            f(56).inverse().expect("non-zero"),
            f(64).inverse().expect("non-zero"),
        ],
    };
    for seed in [42u64, 1, 2, 3, 4, 5] {
        let mut rng = SmallRng::seed_from_u64(seed);
        let out = generate_codeswitch_claims_up_to_base_code_encoding(
            &input,
            &era_code,
            &base_code,
            &output_code,
            &mut rng,
        )
        .expect("consistent inputs give claims");
        assert_eq!(out.word_perm, vec![f(2), f(3), f(4), f(1)]);
        assert_eq!(out.word_mult, vec![f(10), f(18), f(28), f(8)]);
        assert_eq!(out.word_acc, vec![f(10), f(28), f(56), f(64)]);
        assert_eq!(out.word_acc_2, out.word_era);
        assert_eq!(out.word_era, vec![f(1), f(2), f(3), f(4)]);
        assert_eq!(out.sigma_rep_at_r_rep, out.sigma_code_b_at_r_x);
    }
}

#[test]
fn a_wrong_spot_check_gives_no_claims() {
    let era_code = IdentityCode::new(4);
    let base_code = IdentityCode::new(4);
    let output_code = IdentityCode::new(2);
    let input = CodeswitchClaimsInput {
        msg: vec![f(1), f(2), f(3), f(4)],
        spotchecks: vec![CodeswitchSpotcheck { alpha: 1, sigma_cs: f(3) }],
        base_code_prime_generator_matrix: vec![f(1), f(0), f(0), f(1)],
        permutation_1: vec![0, 1, 2, 3],
        permutation_2: vec![0, 1, 2, 3],
        multiplier_1: vec![f(1); 4],
        multiplier_2: vec![f(1); 4],
    };
    let mut rng = SmallRng::seed_from_u64(7);
    let out = generate_codeswitch_claims_up_to_base_code_encoding(&input, &era_code, &base_code, &output_code, &mut rng);
    assert!(out.is_none());
}

#[test]
fn eq_table_at_a_point_is_the_equality_polynomial() {
    let a = vec![f(3), f(5), f(7)];
    let b = vec![f(11), f(2), f(9)];
    let table = MultilinearPoint(a.clone()).eq_weights();
    let at_b = EvaluationsList::new(table).evaluate(&MultilinearPoint(b.clone()));
    assert_eq!(at_b, MultilinearPoint(b).eq_poly_outside(&MultilinearPoint(a)));
}

#[test]
fn accumulated_word_at_a_point_is_the_word_against_the_accumulate_row() {
    let m = vec![f(4), f(9), f(1), f(7)];
    let r = vec![f(6), f(13)];
    let acc = prefix_sums_vec(&m);
    let at_r = EvaluationsList::new(acc).evaluate(&MultilinearPoint(r.clone()));
    let row = prefix_sum_accumulate_row_at_point(&r);
    assert_eq!(at_r, inner_product(&m, &row));
}

#[test]
fn repeated_word_at_zeros_then_point_is_the_word_at_the_point() {
    let w = vec![f(4), f(9), f(1), f(7)];
    let rx = vec![f(6), f(13)];
    let rep = repeat_vector(&w, 4);
    let mut point = vec![f(0), f(0)];
    point.extend_from_slice(&rx);
    let at = EvaluationsList::new(rep).evaluate(&MultilinearPoint(point));
    assert_eq!(at, EvaluationsList::new(w).evaluate(&MultilinearPoint(rx)));
}
