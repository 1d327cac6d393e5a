use agnostir::codeswitching::sumcheck::{
    build_permutation_transition_tables, interpolate_cubic_from_0_half_1_2, IPSumcheck, PermutationTransitionSumcheck, TIPSumcheck,
};
use agnostir::poly::evaluate_multilinear_table;
use agnostir::KoalaBear;
use rand::rngs::SmallRng;
use rand::SeedableRng;

fn f(x: u32) -> KoalaBear {
    KoalaBear::from_u32(x)
}

/// `a + c * (b - a)`: a table entry pair folded at `c`.
fn fold(a: KoalaBear, b: KoalaBear, c: KoalaBear) -> KoalaBear {
    a.add(c.mul(b.sub(a)))
}

#[test]
fn test_compute_sumcheck_poly_evaluates_midpoint() {
    let sumcheck = IPSumcheck::new(vec![f(1), f(3), f(5), f(7)], vec![f(2), f(4), f(6), f(8)]);
    let [v_0, v_half] = sumcheck.compute_sumcheck_poly();
    assert_eq!(v_0, f(32));
    assert_eq!(v_half, f(48));
}

#[test]
fn ip_test_compress_tables_interpolates_at_challenge() {
    let mut sumcheck = IPSumcheck::new(vec![f(1), f(3), f(5), f(7)], vec![f(2), f(4), f(6), f(8)]);
    let half = f(2).inverse().expect("2 must be invertible");
    sumcheck.compress_tables(half);
    assert_eq!(sumcheck.left(), vec![f(2), f(6)].as_slice());
    assert_eq!(sumcheck.right(), vec![f(3), f(7)].as_slice());
}

#[test]
fn ip_test_compress_tables_respects_endpoints() {
    let mut at_zero = IPSumcheck::new(vec![f(1), f(3), f(5), f(7)], vec![f(2), f(4), f(6), f(8)]);
    at_zero.compress_tables(KoalaBear::zero());
    assert_eq!(at_zero.left(), vec![f(1), f(5)].as_slice());
    assert_eq!(at_zero.right(), vec![f(2), f(6)].as_slice());

    let mut at_one = IPSumcheck::new(vec![f(1), f(3), f(5), f(7)], vec![f(2), f(4), f(6), f(8)]);
    at_one.compress_tables(KoalaBear::one());
    assert_eq!(at_one.left(), vec![f(3), f(7)].as_slice());
    assert_eq!(at_one.right(), vec![f(4), f(8)].as_slice());
}

#[test]
fn ip_test_run_sumcheck_protocol_outputs_claim_and_randomness() {
    let left = vec![f(1), f(3), f(5), f(7)];
    let right = vec![f(2), f(4), f(6), f(8)];
    let mut sumcheck = IPSumcheck::new(left.clone(), right.clone());

    let mut rng = SmallRng::seed_from_u64(123);
    let output = sumcheck.run_sumcheck_protocol(&mut rng);

    assert_eq!(output.round_polys.len(), 2);
    assert_eq!(output.randomness.len(), 2);

    let mut replay_rng = SmallRng::seed_from_u64(123);
    let alpha_0 = KoalaBear::random(&mut replay_rng);
    let alpha_1 = KoalaBear::random(&mut replay_rng);
    assert_eq!(output.randomness, vec![alpha_0, alpha_1]);

    assert_eq!(output.round_polys[0], [f(32), f(48)]);

    let left_round_1 = [fold(left[0], left[1], alpha_0), fold(left[2], left[3], alpha_0)];
    let right_round_1 = [fold(right[0], right[1], alpha_0), fold(right[2], right[3], alpha_0)];

    let two_inv = f(2).inverse().expect("2 must be invertible");
    let four_inv = two_inv.square();
    let round_1_v_0 = left_round_1[0].mul(right_round_1[0]);
    let round_1_v_half = four_inv
        .mul(left_round_1[0].add(left_round_1[1]))
        .mul(right_round_1[0].add(right_round_1[1]));
    assert_eq!(output.round_polys[1], [round_1_v_0, round_1_v_half]);

    let final_left = fold(left_round_1[0], left_round_1[1], alpha_1);
    let final_right = fold(right_round_1[0], right_round_1[1], alpha_1);

    assert_eq!(sumcheck.left(), vec![final_left].as_slice());
    assert_eq!(sumcheck.right(), vec![final_right].as_slice());
    assert_eq!(output.final_claim, final_left.mul(final_right));
}

fn tip_tables() -> (Vec<KoalaBear>, Vec<KoalaBear>, Vec<KoalaBear>) {
    (
        vec![f(1), f(3), f(5), f(7)],
        vec![f(2), f(4), f(6), f(8)],
        vec![f(3), f(5), f(7), f(9)],
    )
}

#[test]
fn test_compute_sumcheck_poly_evaluates_midpoint_and_two() {
    let (a, b, c) = tip_tables();
    let sumcheck = TIPSumcheck::new(a, b, c);
    let [v_0, v_half, v_two] = sumcheck.compute_sumcheck_poly();
    assert_eq!(v_0, f(216));
    assert_eq!(v_half, f(360));
    assert_eq!(v_two, f(1200));
}

#[test]
fn tip_test_compress_tables_interpolates_at_challenge() {
    let (a, b, c) = tip_tables();
    let mut sumcheck = TIPSumcheck::new(a, b, c);
    let half = f(2).inverse().expect("2 must be invertible");
    sumcheck.compress_tables(half);
    assert_eq!(sumcheck.first(), vec![f(2), f(6)].as_slice());
    assert_eq!(sumcheck.second(), vec![f(3), f(7)].as_slice());
    assert_eq!(sumcheck.third(), vec![f(4), f(8)].as_slice());
}

#[test]
fn tip_test_compress_tables_respects_endpoints() {
    let (a, b, c) = tip_tables();
    let mut at_zero = TIPSumcheck::new(a, b, c);
    at_zero.compress_tables(KoalaBear::zero());
    assert_eq!(at_zero.first(), vec![f(1), f(5)].as_slice());
    assert_eq!(at_zero.second(), vec![f(2), f(6)].as_slice());
    assert_eq!(at_zero.third(), vec![f(3), f(7)].as_slice());

    let (a, b, c) = tip_tables();
    let mut at_one = TIPSumcheck::new(a, b, c);
    at_one.compress_tables(KoalaBear::one());
    assert_eq!(at_one.first(), vec![f(3), f(7)].as_slice());
    assert_eq!(at_one.second(), vec![f(4), f(8)].as_slice());
    assert_eq!(at_one.third(), vec![f(5), f(9)].as_slice());
}

#[test]
fn tip_test_run_sumcheck_protocol_outputs_claim_and_randomness() {
    let (first, second, third) = tip_tables();
    let mut sumcheck = TIPSumcheck::new(first.clone(), second.clone(), third.clone());

    let mut rng = SmallRng::seed_from_u64(123);
    let output = sumcheck.run_sumcheck_protocol(&mut rng);

    assert_eq!(output.round_polys.len(), 2);
    assert_eq!(output.randomness.len(), 2);

    let mut replay_rng = SmallRng::seed_from_u64(123);
    let alpha_0 = KoalaBear::random(&mut replay_rng);
    let alpha_1 = KoalaBear::random(&mut replay_rng);
    assert_eq!(output.randomness, vec![alpha_0, alpha_1]);

    assert_eq!(output.round_polys[0], [f(216), f(360), f(1200)]);

    let first_round_1 = [fold(first[0], first[1], alpha_0), fold(first[2], first[3], alpha_0)];
    let second_round_1 = [fold(second[0], second[1], alpha_0), fold(second[2], second[3], alpha_0)];
    let third_round_1 = [fold(third[0], third[1], alpha_0), fold(third[2], third[3], alpha_0)];

    let two = f(2);
    let two_inv = two.inverse().expect("2 must be invertible");
    let eight_inv = two_inv.square().mul(two_inv);

    let round_1_v_0 = first_round_1[0].mul(second_round_1[0]).mul(third_round_1[0]);
    let round_1_v_half = eight_inv
        .mul(first_round_1[0].add(first_round_1[1]))
        .mul(second_round_1[0].add(second_round_1[1]))
        .mul(third_round_1[0].add(third_round_1[1]));
    let first_at_two = fold(first_round_1[0], first_round_1[1], two);
    let second_at_two = fold(second_round_1[0], second_round_1[1], two);
    let third_at_two = fold(third_round_1[0], third_round_1[1], two);
    let round_1_v_two = first_at_two.mul(second_at_two).mul(third_at_two);

    assert_eq!(output.round_polys[1], [round_1_v_0, round_1_v_half, round_1_v_two]);

    let final_first = fold(first_round_1[0], first_round_1[1], alpha_1);
    let final_second = fold(second_round_1[0], second_round_1[1], alpha_1);
    let final_third = fold(third_round_1[0], third_round_1[1], alpha_1);

    assert_eq!(sumcheck.first(), vec![final_first].as_slice());
    assert_eq!(sumcheck.second(), vec![final_second].as_slice());
    assert_eq!(sumcheck.third(), vec![final_third].as_slice());
    assert_eq!(output.final_claim, final_first.mul(final_second).mul(final_third));
}

#[test]
fn test_build_permutation_transition_tables_layout() {
    let first = vec![f(1), f(2), f(3), f(4)];
    let second = vec![f(5), f(6), f(7), f(8)];
    let tables = build_permutation_transition_tables(&first, &second);
    assert_eq!(tables.upper, second);
    assert_eq!(tables.lower_left, vec![f(1), f(3), f(5), f(7)]);
    assert_eq!(tables.lower_right, vec![f(2), f(4), f(6), f(8)]);
}

#[test]
fn permutation_test_run_sumcheck_protocol_outputs_claim_and_randomness() {
    let first = vec![f(1), f(2), f(3), f(4)];
    let second = vec![f(5), f(6), f(7), f(8)];
    let eq = vec![f(9), f(10), f(11), f(12)];

    let tables = build_permutation_transition_tables(&first, &second);
    let mut sumcheck = PermutationTransitionSumcheck::new(tables, eq.clone());

    let mut rng = SmallRng::seed_from_u64(99);
    let output = sumcheck.run_sumcheck_protocol(&mut rng);

    assert_eq!(output.round_polys.len(), 2);
    assert_eq!(output.randomness.len(), 2);

    let mut replay_rng = SmallRng::seed_from_u64(99);
    let alpha_0 = KoalaBear::random(&mut replay_rng);
    let alpha_1 = KoalaBear::random(&mut replay_rng);
    assert_eq!(output.randomness, vec![alpha_0, alpha_1]);

    let eval_point = vec![alpha_1, alpha_0];
    let tables = build_permutation_transition_tables(&first, &second);
    let expected_eq = evaluate_multilinear_table(&eq, &eval_point);
    let expected_upper = evaluate_multilinear_table(&tables.upper, &eval_point);
    let expected_lower_left = evaluate_multilinear_table(&tables.lower_left, &eval_point);
    let expected_lower_right = evaluate_multilinear_table(&tables.lower_right, &eval_point);

    assert_eq!(output.eq_value, expected_eq);
    assert_eq!(output.upper_value, expected_upper);
    assert_eq!(output.lower_left_value, expected_lower_left);
    assert_eq!(output.lower_right_value, expected_lower_right);
    assert_eq!(
        output.final_claim,
        expected_eq.mul(expected_upper.sub(expected_lower_left.mul(expected_lower_right)))
    );
}

#[test]
fn permutation_round_polys_chain_through_cubic_interpolation() {
    let first = vec![f(3), f(1), f(4), f(1), f(5), f(9), f(2), f(6)];
    let second = vec![f(5), f(3), f(5), f(8), f(9), f(7), f(9), f(3)];
    let eq = vec![f(2), f(7), f(1), f(8), f(2), f(8), f(1), f(8)];
    let tables = build_permutation_transition_tables(&first, &second);
    let mut sumcheck = PermutationTransitionSumcheck::new(tables, eq);
    let mut rng = SmallRng::seed_from_u64(5);
    let out = sumcheck.run_sumcheck_protocol(&mut rng);
    let mut claim = out.sum_claim;
    for (p, c) in out.round_polys.iter().zip(out.randomness.iter()) {
        claim = interpolate_cubic_from_0_half_1_2(p[0], p[1], claim.sub(p[0]), p[2], *c);
    }
    assert_eq!(claim, out.final_claim);
}

#[test]
fn permutation_first_round_is_one_polynomial() {
    let first = vec![f(1), f(2), f(3), f(4)];
    let second = vec![f(5), f(6), f(7), f(8)];
    let eq = vec![f(9), f(10), f(11), f(12)];
    let tables = build_permutation_transition_tables(&first, &second);
    let (u, l0, l1) = (tables.upper.clone(), tables.lower_left.clone(), tables.lower_right.clone());
    let sumcheck = PermutationTransitionSumcheck::new(tables, eq.clone());
    let p = sumcheck.compute_sumcheck_poly();
    let two = f(2);
    let half = two.inverse().unwrap();
    let h = |t: KoalaBear| {
        let mut acc = KoalaBear::zero();
        for b in 0..2 {
            let x = |v: &Vec<KoalaBear>| fold(v[2 * b], v[2 * b + 1], t);
            acc = acc.add(x(&eq).mul(x(&u).sub(x(&l0).mul(x(&l1)))));
        }
        acc
    };
    assert_eq!(p[0], h(KoalaBear::zero()));
    assert_eq!(p[1], h(half));
    assert_eq!(p[2], h(two));
}
