use agnostir::codes::expand_accumulate::ilog2_floor;
use agnostir::codes::optimized_era::chunk_len;
use agnostir::codeswitching::codeswitch_claims::{
    append_coord, apply_permutation, build_first_permute_fixed_point, geometric_power_vector,
    hadamard_product, pow_field, prefix_products_vec, prefix_sums_vec, repeat_vector,
};
use agnostir::codeswitching::sumcheck::permutation::pow2_log;
use agnostir::codeswitching::sumcheck::{
    extrapolate_quadratic_at_two, interpolate_cubic_from_0_half_1_2,
    interpolate_quadratic_from_0_half_1, three_inverse, two_inverse, IPSumcheck, TIPSumcheck,
};
use agnostir::ntt::{inverse_wavelet_transform, transpose, wavelet_transform};
use agnostir::poly::{eq_weights, evaluate_multilinear_table};
use agnostir::{random_permutation, sparse_mat_vec, KoalaBear, SparseMatEntry};
use rand::rngs::SmallRng;
use rand::SeedableRng;

fn f(x: u32) -> KoalaBear {
    KoalaBear::from_u32(x)
}

fn fs(xs: &[u32]) -> Vec<KoalaBear> {
    xs.iter().map(|&x| f(x)).collect()
}

fn dot(a: &[KoalaBear], b: &[KoalaBear]) -> KoalaBear {
    a.iter().zip(b).fold(KoalaBear::zero(), |acc, (x, y)| acc.add(x.mul(*y)))
}

const P_MINUS_ONE: u32 = 2130706432;

#[test]
fn field_arithmetic_is_modular() {
    assert_eq!(f(P_MINUS_ONE).add(f(1)), KoalaBear::zero());
    assert_eq!(f(P_MINUS_ONE + 1), KoalaBear::zero());
    assert_eq!(f(0).sub(f(1)), f(P_MINUS_ONE));
    assert_eq!(f(1).neg(), f(P_MINUS_ONE));
    assert_eq!(f(P_MINUS_ONE).mul(f(P_MINUS_ONE)), f(1));
    assert_eq!(f(7).square(), f(49));
    assert_eq!(f(123).as_canonical_u32(), 123);
    assert!(KoalaBear::zero().is_zero());
    assert!(!KoalaBear::one().is_zero());
}

#[test]
fn field_inverse_is_two_sided_and_zero_has_none() {
    let three_inv = f(3).inverse().expect("3 is invertible");
    assert_eq!(three_inv.mul(f(3)), KoalaBear::one());
    assert_eq!(three_inv, three_inverse());
    assert_eq!(f(2).inverse(), Some(two_inverse()));
    assert_eq!(two_inverse().as_canonical_u32(), 1065353217);
    assert_eq!(three_inverse().as_canonical_u32(), 710235478);
    assert_eq!(KoalaBear::zero().inverse(), None);
}

#[test]
fn wavelet_transform_is_subset_sums_and_inverts() {
    let mut v = fs(&[1, 2, 3, 4]);
    wavelet_transform(&mut v);
    assert_eq!(v, fs(&[1, 3, 4, 10]));
    inverse_wavelet_transform(&mut v);
    assert_eq!(v, fs(&[1, 2, 3, 4]));

    let start = fs(&[9, 8, 7, 6, 5, 4, 3, 2, 1, 0, 11, 12, 13, 14, 15, 16]);
    let mut w = start.clone();
    wavelet_transform(&mut w);
    assert_eq!(w[15], start.iter().fold(KoalaBear::zero(), |a, x| a.add(*x)));
    inverse_wavelet_transform(&mut w);
    assert_eq!(w, start);
}

#[test]
fn transpose_twice_is_identity() {
    let start: Vec<u32> = vec![1, 2, 3, 4, 5, 6];
    let mut m = start.clone();
    transpose(&mut m, 2, 3);
    assert_eq!(m, vec![1, 4, 2, 5, 3, 6]);
    transpose(&mut m, 3, 2);
    assert_eq!(m, start);
}

#[test]
fn eq_weights_inner_product_is_the_multilinear_evaluation() {
    let table = fs(&[3, 1, 4, 1, 5, 9, 2, 6]);
    let z = fs(&[7, 11, 13]);
    let weights = eq_weights(&z);
    assert_eq!(weights.len(), 8);
    assert_eq!(dot(&weights, &table), evaluate_multilinear_table(&table, &z));
    assert_eq!(weights.iter().fold(KoalaBear::zero(), |a, x| a.add(*x)), KoalaBear::one());
}

#[test]
fn multilinear_evaluation_on_the_hypercube_reads_the_table() {
    let table = fs(&[10, 20, 30, 40]);
    // The first coordinate is the high bit of the index.
    assert_eq!(evaluate_multilinear_table(&table, &fs(&[0, 0])), f(10));
    assert_eq!(evaluate_multilinear_table(&table, &fs(&[0, 1])), f(20));
    assert_eq!(evaluate_multilinear_table(&table, &fs(&[1, 0])), f(30));
    assert_eq!(evaluate_multilinear_table(&table, &fs(&[1, 1])), f(40));
    assert_eq!(eq_weights(&fs(&[1, 0])), fs(&[0, 0, 1, 0]));
    // At x = 2: 10 + 2 * (20 - 10) on the low bit with high bit 0.
    assert_eq!(evaluate_multilinear_table(&table, &fs(&[0, 2])), f(30));
}

#[test]
fn quadratic_and_cubic_interpolation_formulas() {
    let half = two_inverse();
    // (2x + 1)^2: 1 at 0, 4 at 1/2, 9 at 1, 25 at 2, 49 at 3.
    assert_eq!(interpolate_quadratic_from_0_half_1(f(1), f(4), f(9), f(2)), f(25));
    assert_eq!(interpolate_quadratic_from_0_half_1(f(1), f(4), f(9), f(3)), f(49));
    assert_eq!(interpolate_quadratic_from_0_half_1(f(1), f(4), f(9), half), f(4));
    assert_eq!(extrapolate_quadratic_at_two(f(1), f(4), f(9)), f(25));
    // x^3: 0 at 0, 1/8 at 1/2, 1 at 1, 8 at 2, 27 at 3.
    let eighth = half.mul(half).mul(half);
    assert_eq!(interpolate_cubic_from_0_half_1_2(f(0), eighth, f(1), f(8), f(3)), f(27));
    assert_eq!(interpolate_cubic_from_0_half_1_2(f(0), eighth, f(1), f(8), f(5)), f(125));
}

#[test]
fn ip_round_polynomial_predicts_the_compressed_claim() {
    let left = fs(&[4, 8, 15, 16, 23, 42, 5, 7]);
    let right = fs(&[1, 2, 3, 5, 8, 13, 21, 34]);
    let claim = dot(&left, &right);
    let mut sumcheck = IPSumcheck::new(left, right);
    let [v_0, v_half] = sumcheck.compute_sumcheck_poly();
    let challenge = f(987654321);
    let predicted = interpolate_quadratic_from_0_half_1(v_0, v_half, claim.sub(v_0), challenge);
    sumcheck.compress_tables(challenge);
    assert_eq!(predicted, dot(sumcheck.left(), sumcheck.right()));
}

#[test]
fn tip_round_polynomial_predicts_the_compressed_claim() {
    let a = fs(&[4, 8, 15, 16, 23, 42, 5, 7]);
    let b = fs(&[1, 2, 3, 5, 8, 13, 21, 34]);
    let c = fs(&[2, 7, 1, 8, 2, 8, 1, 8]);
    let triple = |a: &[KoalaBear], b: &[KoalaBear], c: &[KoalaBear]| {
        (0..a.len()).fold(KoalaBear::zero(), |acc, i| acc.add(a[i].mul(b[i]).mul(c[i])))
    };
    let claim = triple(&a, &b, &c);
    let mut sumcheck = TIPSumcheck::new(a, b, c);
    let [v_0, v_half, v_two] = sumcheck.compute_sumcheck_poly();
    let challenge = f(123456789);
    let predicted =
        interpolate_cubic_from_0_half_1_2(v_0, v_half, claim.sub(v_0), v_two, challenge);
    sumcheck.compress_tables(challenge);
    assert_eq!(predicted, triple(sumcheck.first(), sumcheck.second(), sumcheck.third()));
}

#[test]
fn ip_sumcheck_final_claim_is_the_evaluation_at_the_challenges() {
    let left = fs(&[4, 8, 15, 16, 23, 42, 5, 7]);
    let right = fs(&[1, 2, 3, 5, 8, 13, 21, 34]);
    let mut sumcheck = IPSumcheck::new(left.clone(), right.clone());
    let mut rng = SmallRng::seed_from_u64(5);
    let out = sumcheck.run_sumcheck_protocol(&mut rng);
    assert_eq!(out.randomness.len(), 3);
    // Round `i` binds the lowest remaining variable, so the point is read backwards.
    let point: Vec<KoalaBear> = out.randomness.iter().rev().copied().collect();
    let expected = evaluate_multilinear_table(&left, &point)
        .mul(evaluate_multilinear_table(&right, &point));
    assert_eq!(out.final_claim, expected);
    // The first round's polynomial sums to the claim: h(0) + h(1) = sum.
    let [v_0, _] = out.round_polys[0];
    let h_1 = (0..4).fold(KoalaBear::zero(), |acc, b| acc.add(left[2 * b + 1].mul(right[2 * b + 1])));
    assert_eq!(v_0.add(h_1), dot(&left, &right));
}

#[test]
fn vector_helpers_exact_values() {
    assert_eq!(pow_field(f(3), 5), f(243));
    assert_eq!(pow_field(f(3), 0), f(1));
    assert_eq!(pow_field(f(2), 31), f(16777215));
    assert_eq!(geometric_power_vector(f(2), 4), fs(&[1, 2, 4, 8]));
    assert_eq!(prefix_sums_vec(&fs(&[1, 2, 3])), fs(&[1, 3, 6]));
    assert_eq!(prefix_products_vec(&fs(&[2, 3, 4])), fs(&[2, 6, 24]));
    assert_eq!(repeat_vector(&[1u32, 2], 3), vec![1, 2, 1, 2, 1, 2]);
    assert_eq!(apply_permutation(&['a', 'b', 'c'], &[2, 0, 1]), vec!['c', 'a', 'b']);
    assert_eq!(hadamard_product(&fs(&[2, 3]), &fs(&[5, 7])), fs(&[10, 21]));
    assert_eq!(append_coord(&[1u8, 2], 3), vec![1, 2, 3]);
    assert_eq!(build_first_permute_fixed_point(4), fs(&[0, 0, 1, 0]));
}

#[test]
fn sparse_matrix_times_vector() {
    let x = fs(&[1, 2, 3]);
    let entries = vec![
        SparseMatEntry { row: 0, col: 0, val: f(5) },
        SparseMatEntry { row: 2, col: 0, val: f(7) },
        SparseMatEntry { row: 1, col: 1, val: f(11) },
        SparseMatEntry { row: 1, col: 1, val: f(13) },
    ];
    // Output element `i` sums its `nnz_per_col` entries `val * x[row]`.
    assert_eq!(sparse_mat_vec(&x, &entries, 2, 2), fs(&[5 + 21, 22 + 26]));
}

#[test]
fn integer_helpers() {
    assert_eq!(ilog2_floor(1), 0);
    assert_eq!(ilog2_floor(2), 1);
    assert_eq!(ilog2_floor(1023), 9);
    assert_eq!(ilog2_floor(1024), 10);
    assert_eq!(pow2_log(8), 3);
    assert_eq!(chunk_len(100, Some(7), 4), 7);
    assert_eq!(chunk_len(0, None, 4), 0);
    assert_eq!(chunk_len(1, Some(5), 4), 1);
    assert_eq!(chunk_len(100, Some(500), 4), 100);
    assert_eq!(chunk_len(100, None, 4), 100);
    assert_eq!(chunk_len(100000, None, 4), 8192);
}

#[test]
fn random_permutation_is_a_permutation() {
    let mut rng = SmallRng::seed_from_u64(3);
    for n in [0usize, 1, 2, 17, 100] {
        let mut p = random_permutation(&mut rng, n);
        p.sort();
        assert_eq!(p, (0..n).collect::<Vec<_>>());
    }
    let mut a = SmallRng::seed_from_u64(8);
    let mut b = SmallRng::seed_from_u64(8);
    assert_eq!(random_permutation(&mut a, 50), random_permutation(&mut b, 50));
    // The shuffle moves something for a long enough input.
    let mut c = SmallRng::seed_from_u64(9);
    assert_ne!(random_permutation(&mut c, 50), (0..50).collect::<Vec<_>>());
}

#[test]
fn first_round_value_is_the_multilinear_evaluation() {
    use_first_round(3, 1);
    use_first_round(4, 2);
    use_first_round(4, 0);
    use_first_round(4, 4);
}

fn use_first_round(k: usize, eta: usize) {
    let mut rng = SmallRng::seed_from_u64(100 + k as u64 * 10 + eta as u64);
    let message: Vec<KoalaBear> = (0..(1usize << k)).map(|_| KoalaBear::random(&mut rng)).collect();
    let z: Vec<KoalaBear> = (0..k).map(|_| KoalaBear::random(&mut rng)).collect();
    let first = agnostir::interleaved_iopp::prover_first_round(&message, &z, eta, k);
    assert_eq!(first.folded_msg.len(), 1usize << (k - eta));
    assert_eq!(first.y, evaluate_multilinear_table(&message, &z));
}
