//! The vectors, witnesses and input/output records of the code-switching
//! claims generator.
use vstd::arithmetic::power::pow;
use vstd::arithmetic::power2::pow2;
use vstd::prelude::*;

use crate::codeswitching::claims::{SplitIpClaim, SplitTipClaim};
use crate::codeswitching::oracles::SplitEncoding;
use crate::field::{fe, KoalaBear, P};
use crate::poly::{eq_table, eq_weights};
use crate::vectors::{gather, hadamard, lemma_fe_mul, lemma_sum_take_step, prefix_products, prefix_sums, product, repeat_seq, sum};

verus! {

/// One verifier spotcheck: a 0-based oracle index and the claimed value there.
#[derive(Debug, Clone)]
pub struct CodeswitchSpotcheck {
    pub alpha: usize,
    pub sigma_cs: KoalaBear,
}

/// Input of the claims generator.
#[derive(Debug, Clone)]
pub struct CodeswitchClaimsInput {
    /// Prover witness message `msg`.
    pub msg: Vec<KoalaBear>,
    /// Spotcheck pairs `(alpha_j, sigma_cs_j)`.
    pub spotchecks: Vec<CodeswitchSpotcheck>,
    /// Flattened generator matrix of the base code (row-major), of shape
    /// `sqrt(n_code_b) x sqrt(k)`.
    pub base_code_prime_generator_matrix: Vec<KoalaBear>,
    /// First permutation over `[0, n_era)`.
    pub permutation_1: Vec<usize>,
    /// Second permutation over `[0, n_era)`.
    pub permutation_2: Vec<usize>,
    /// First multiply vector `v_1` of length `n_era`.
    pub multiplier_1: Vec<KoalaBear>,
    /// Second multiply vector `v_2` of length `n_era`.
    pub multiplier_2: Vec<KoalaBear>,
}

/// Output of the claims generator: every intermediate word, its oracles, the
/// sampled challenges, the claimed values and the split claims.
#[derive(Debug, Clone)]
pub struct CodeswitchClaimsOutput {
    pub word_era: Vec<KoalaBear>,
    pub era_oracles: SplitEncoding,
    pub z_ood_era: Vec<KoalaBear>,
    pub sigma_ood_era: KoalaBear,
    pub ood_ip_claims: Vec<SplitIpClaim>,
    pub beta: KoalaBear,
    pub v_cs: Vec<KoalaBear>,
    pub sigma_cs: KoalaBear,
    pub codeswitch_ip_claims: Vec<SplitIpClaim>,
    pub word_code_b: Vec<KoalaBear>,
    pub code_b_oracles: SplitEncoding,
    pub r_x_code_b: Vec<KoalaBear>,
    pub sigma_code_b_at_r_x: KoalaBear,
    pub base_code_sumcheck_round_polys: Vec<[KoalaBear; 3]>,
    pub base_code_sumcheck_challenges: Vec<KoalaBear>,
    pub base_code_sumcheck_reduced_claim: KoalaBear,
    pub sigma_code_b_g_left_at_r_y: KoalaBear,
    pub sigma_code_b_g_right_at_r_y: KoalaBear,
    pub sigma_code_b_msg_at_r_y: KoalaBear,
    pub base_code_word_ip_claims: Vec<SplitIpClaim>,
    pub base_code_g_left_ip_claims: Vec<SplitIpClaim>,
    pub base_code_g_right_ip_claims: Vec<SplitIpClaim>,
    pub base_code_msg_ip_claims: Vec<SplitIpClaim>,
    pub word_rep: Vec<KoalaBear>,
    pub rep_oracles: SplitEncoding,
    pub r_rep: Vec<KoalaBear>,
    pub sigma_rep_at_r_rep: KoalaBear,
    pub repeat_ip_claims: Vec<SplitIpClaim>,
    pub word_perm: Vec<KoalaBear>,
    pub perm_oracles: SplitEncoding,
    pub z_ood_perm: Vec<KoalaBear>,
    pub sigma_ood_perm: KoalaBear,
    pub perm_ood_ip_claims: Vec<SplitIpClaim>,
    pub permutation_alpha: KoalaBear,
    pub permutation_beta: KoalaBear,
    pub permutation_identity_vector: Vec<KoalaBear>,
    pub permutation_pi_1_vector: Vec<KoalaBear>,
    pub permutation_a_1: Vec<KoalaBear>,
    pub permutation_a_2: Vec<KoalaBear>,
    pub permutation_b_1: Vec<KoalaBear>,
    pub permutation_b_2: Vec<KoalaBear>,
    pub permutation_a_1_oracles: SplitEncoding,
    pub permutation_a_2_oracles: SplitEncoding,
    pub permutation_b_1_oracles: SplitEncoding,
    pub permutation_b_2_oracles: SplitEncoding,
    pub permutation_a_1_z_ood: Vec<KoalaBear>,
    pub permutation_a_2_z_ood: Vec<KoalaBear>,
    pub permutation_b_1_z_ood: Vec<KoalaBear>,
    pub permutation_b_2_z_ood: Vec<KoalaBear>,
    pub permutation_a_1_sigma_ood: KoalaBear,
    pub permutation_a_2_sigma_ood: KoalaBear,
    pub permutation_b_1_sigma_ood: KoalaBear,
    pub permutation_b_2_sigma_ood: KoalaBear,
    pub permutation_a_1_ood_ip_claims: Vec<SplitIpClaim>,
    pub permutation_a_2_ood_ip_claims: Vec<SplitIpClaim>,
    pub permutation_b_1_ood_ip_claims: Vec<SplitIpClaim>,
    pub permutation_b_2_ood_ip_claims: Vec<SplitIpClaim>,
    pub permutation_fixed_point: Vec<KoalaBear>,
    pub permutation_a_1_sigma_fixed: KoalaBear,
    pub permutation_b_1_sigma_fixed: KoalaBear,
    pub permutation_a_1_fixed_ip_claims: Vec<SplitIpClaim>,
    pub permutation_b_1_fixed_ip_claims: Vec<SplitIpClaim>,
    pub permutation_r_perm: Vec<KoalaBear>,
    pub permutation_sigma_a_at_r_perm: KoalaBear,
    pub permutation_sigma_b_at_r_perm: KoalaBear,
    pub permutation_sigma_id_at_r_perm: KoalaBear,
    pub permutation_sigma_word_rep_at_r_perm: KoalaBear,
    pub permutation_sigma_word_perm_at_r_perm: KoalaBear,
    pub permutation_sigma_pi_1_at_r_perm: KoalaBear,
    pub permutation_a_1_r_perm_ip_claims: Vec<SplitIpClaim>,
    pub permutation_b_1_r_perm_ip_claims: Vec<SplitIpClaim>,
    pub permutation_word_rep_r_perm_ip_claims: Vec<SplitIpClaim>,
    pub permutation_word_perm_r_perm_ip_claims: Vec<SplitIpClaim>,
    pub permutation_identity_r_perm_ip_claims: Vec<SplitIpClaim>,
    pub permutation_pi_1_r_perm_ip_claims: Vec<SplitIpClaim>,
    pub permutation_a_transition_sum_claim: KoalaBear,
    pub permutation_a_transition_sumcheck_round_polys: Vec<[KoalaBear; 3]>,
    pub permutation_a_transition_sumcheck_challenges: Vec<KoalaBear>,
    pub permutation_a_transition_reduced_claim: KoalaBear,
    pub permutation_r_a: Vec<KoalaBear>,
    pub permutation_a_sigma_one_at_r_a: KoalaBear,
    pub permutation_a_sigma_i_r_a_tail_j: [[KoalaBear; 2]; 2],
    pub permutation_a_sigma_r_a_0: KoalaBear,
    pub permutation_a_sigma_r_a_1: KoalaBear,
    pub permutation_a_2_r_a_ip_claims: Vec<SplitIpClaim>,
    pub permutation_a_r_a_tail_ip_claims: [[Vec<SplitIpClaim>; 2]; 2],
    pub permutation_b_transition_sum_claim: KoalaBear,
    pub permutation_b_transition_sumcheck_round_polys: Vec<[KoalaBear; 3]>,
    pub permutation_b_transition_sumcheck_challenges: Vec<KoalaBear>,
    pub permutation_b_transition_reduced_claim: KoalaBear,
    pub permutation_r_b: Vec<KoalaBear>,
    pub permutation_b_sigma_one_at_r_b: KoalaBear,
    pub permutation_b_sigma_i_r_b_tail_j: [[KoalaBear; 2]; 2],
    pub permutation_b_sigma_r_b_0: KoalaBear,
    pub permutation_b_sigma_r_b_1: KoalaBear,
    pub permutation_b_2_r_b_ip_claims: Vec<SplitIpClaim>,
    pub permutation_b_r_b_tail_ip_claims: [[Vec<SplitIpClaim>; 2]; 2],
    pub word_mult: Vec<KoalaBear>,
    pub mult_oracles: SplitEncoding,
    pub z_ood_mult: Vec<KoalaBear>,
    pub sigma_ood_mult: KoalaBear,
    pub mult_ood_ip_claims: Vec<SplitIpClaim>,
    pub r_mult_challenge: KoalaBear,
    pub r_mult: Vec<KoalaBear>,
    pub sigma_mult: KoalaBear,
    pub multiply_tip_claims: Vec<SplitTipClaim>,
    pub mult_r_ip_claims: Vec<SplitIpClaim>,
    pub word_acc: Vec<KoalaBear>,
    pub acc_oracles: SplitEncoding,
    pub z_ood_acc: Vec<KoalaBear>,
    pub sigma_ood_acc: KoalaBear,
    pub acc_ood_ip_claims: Vec<SplitIpClaim>,
    pub r_acc: Vec<KoalaBear>,
    pub acc_map_row_at_r_acc: Vec<KoalaBear>,
    pub sigma_acc: KoalaBear,
    pub acc_mult_ip_claims: Vec<SplitIpClaim>,
    pub acc_r_ip_claims: Vec<SplitIpClaim>,
    pub word_perm_2: Vec<KoalaBear>,
    pub perm_2_oracles: SplitEncoding,
    pub z_ood_perm_2: Vec<KoalaBear>,
    pub sigma_ood_perm_2: KoalaBear,
    pub perm_2_ood_ip_claims: Vec<SplitIpClaim>,
    pub word_mult_2: Vec<KoalaBear>,
    pub mult_2_oracles: SplitEncoding,
    pub z_ood_mult_2: Vec<KoalaBear>,
    pub sigma_ood_mult_2: KoalaBear,
    pub mult_2_ood_ip_claims: Vec<SplitIpClaim>,
    pub r_mult_challenge_2: KoalaBear,
    pub r_mult_2: Vec<KoalaBear>,
    pub sigma_mult_2: KoalaBear,
    pub multiply_tip_claims_2: Vec<SplitTipClaim>,
    pub mult_2_r_ip_claims: Vec<SplitIpClaim>,
    pub word_acc_2: Vec<KoalaBear>,
    pub acc_2_oracles: SplitEncoding,
    pub z_ood_acc_2: Vec<KoalaBear>,
    pub sigma_ood_acc_2: KoalaBear,
    pub acc_2_ood_ip_claims: Vec<SplitIpClaim>,
    pub r_acc_2: Vec<KoalaBear>,
    pub acc_map_row_at_r_acc_2: Vec<KoalaBear>,
    pub sigma_acc_2: KoalaBear,
    pub acc_mult_2_ip_claims: Vec<SplitIpClaim>,
    pub acc_2_r_ip_claims: Vec<SplitIpClaim>,
    pub aux_oracles: Vec<SplitEncoding>,
    pub ip_claims: Vec<SplitIpClaim>,
    pub tip_claims: Vec<SplitTipClaim>,
}

/// `b^e` in the field, multiplied out left to right.
pub open spec fn fpow(b: KoalaBear, e: nat) -> KoalaBear
    decreases e,
{
    if e == 0 {
        fe(1)
    } else {
        fpow(b, (e - 1) as nat).spec_mul(b)
    }
}

/// The field power is the reduction of the integer power.
pub proof fn lemma_fpow(b: KoalaBear, e: nat)
    ensures
        fpow(b, e) == fe(pow(b.v(), e)),
    decreases e,
{
    reveal(pow);
    if e > 0 {
        lemma_fpow(b, (e - 1) as nat);
        crate::ring::lemma_mul_l(pow(b.v(), (e - 1) as nat), b);
        vstd::arithmetic::mul::lemma_mul_is_commutative(pow(b.v(), (e - 1) as nat), b.v());
    }
}

/// `base^exp` by repeated squaring.
pub fn pow_field(base: KoalaBear, exp: usize) -> (r: KoalaBear)
    ensures
        r == fpow(base, exp as nat),
{
    let mut result = KoalaBear::one();
    let mut cur = base;
    let mut e = exp;
    let ghost b = base.v();
    let ghost pi = P as int;
    proof {
        reveal(pow);
        vstd::arithmetic::power::lemma_pow1(b);
        crate::ring::lemma_fe_wf(1);
        assert(result.v() == 1);
        assert(result.v() * pow(cur.v(), e as nat) == pow(b, exp as nat));
    }
    while e > 0
        invariant
            pi == P as int,
            result.wf(),
            fe(result.v() * pow(cur.v(), e as nat)) == fe(pow(b, exp as nat)),
            exp == 0 ==> e == 0 && result == fe(1),
        decreases e,
    {
        let ghost (r0, c0, e0) = (result.v(), cur.v(), e as nat);
        let odd = e % 2 == 1;
        if odd {
            result = result.mul(cur);
        }
        cur = cur.mul(cur);
        e = e / 2;
        proof {
            let e1 = e as nat;
            // pow(c0, e0) == pow(c0, 2 e1 + [odd]) == pow(c0 * c0, e1) * c0^[odd]
            vstd::arithmetic::power::lemma_pow_multiplies(c0, 2, e1);
            vstd::arithmetic::power::lemma_pow_adds(c0, 2 * e1, 1);
            vstd::arithmetic::power::lemma_pow1(c0);
            assert(pow(c0, 2) == c0 * c0) by {
                reveal(pow);
                vstd::arithmetic::power::lemma_pow1(c0);
            }
            // The new square is reduced: its power is congruent to the unreduced one.
            vstd::arithmetic::power::lemma_pow_mod_noop(c0 * c0, e1, pi);
            crate::ring::lemma_fe_wf(c0 * c0);
            crate::ring::lemma_fe_wf(r0 * c0);
            assert(cur.v() == (c0 * c0) % pi);
            let q = pow(c0 * c0, e1);
            let qr = pow(cur.v(), e1);
            assert(qr % pi == q % pi);
            if odd {
                assert(e0 == 2 * e1 + 1);
                assert(result.v() == (r0 * c0) % pi);
                // result' * qr == (r0 c0 mod p) (q mod p) == r0 c0 q == r0 pow(c0, e0) (mod p)
                vstd::arithmetic::div_mod::lemma_mul_mod_noop(r0 * c0, qr, pi);
                vstd::arithmetic::div_mod::lemma_mul_mod_noop(r0 * c0, q, pi);
                vstd::arithmetic::div_mod::lemma_mul_mod_noop_right(r0 * c0, qr, pi);
                vstd::arithmetic::div_mod::lemma_mul_mod_noop_right(r0 * c0, q, pi);
                vstd::arithmetic::div_mod::lemma_mul_mod_noop_left(r0 * c0, qr, pi);
                assert(((r0 * c0) % pi * qr) % pi == (r0 * c0 * q) % pi);
                assert(r0 * c0 * q == r0 * pow(c0, e0)) by (nonlinear_arith)
                    requires
                        q == pow(c0 * c0, e1),
                        pow(c0 * c0, e1) == pow(pow(c0, 2), e1),
                        pow(c0, 2) == c0 * c0,
                        pow(pow(c0, 2), e1) == pow(c0, 2 * e1),
                        pow(c0, 2 * e1 + 1) == pow(c0, 2 * e1) * pow(c0, 1),
                        pow(c0, 1) == c0,
                        e0 == 2 * e1 + 1,
                ;
                assert((result.v() * qr) % pi == (r0 * pow(c0, e0)) % pi);
            } else {
                assert(e0 == 2 * e1);
                vstd::arithmetic::div_mod::lemma_mul_mod_noop_right(r0, qr, pi);
                vstd::arithmetic::div_mod::lemma_mul_mod_noop_right(r0, q, pi);
                assert(r0 * q == r0 * pow(c0, e0)) by (nonlinear_arith)
                    requires
                        q == pow(c0 * c0, e1),
                        pow(c0 * c0, e1) == pow(pow(c0, 2), e1),
                        pow(c0, 2) == c0 * c0,
                        pow(pow(c0, 2), e1) == pow(c0, 2 * e1),
                        e0 == 2 * e1,
                ;
                assert((result.v() * qr) % pi == (r0 * pow(c0, e0)) % pi);
            }
        }
    }
    proof {
        lemma_fpow(base, exp as nat);
        reveal(pow);
        crate::ring::lemma_canon(result);
    }
    result
}


/// Entry `col` of the `eq(point, .)`-weighted sum of the rows of a
/// `rows x cols` row-major matrix.
pub open spec fn weighted_column(g: Seq<KoalaBear>, w: Seq<KoalaBear>, cols: int, col: int) -> KoalaBear {
    sum(Seq::new(w.len(), |row: int| w[row].spec_mul(g[row * cols + col])))
}

/// The rows of the generator matrix weighted by `eq(row_point, .)` and added up.
pub fn evaluate_generator_matrix_rows_at_point(
    generator_matrix_flat: &[KoalaBear],
    row_count: usize,
    col_count: usize,
    row_point: &[KoalaBear],
) -> (r: Vec<KoalaBear>)
    requires
        generator_matrix_flat@.len() == row_count * col_count,
        pow2(row_point@.len() as nat) == row_count,
    ensures
        r@ == Seq::new(
            col_count as nat,
            |col: int| weighted_column(generator_matrix_flat@, eq_table(row_point@), col_count as int, col),
        ),
{
    let w = eq_weights(row_point);
    let ghost want = Seq::new(
        col_count as nat,
        |col: int| weighted_column(generator_matrix_flat@, w@, col_count as int, col),
    );
    let glen = generator_matrix_flat.len();
    let mut out: Vec<KoalaBear> = Vec::with_capacity(col_count);
    let mut col: usize = 0;
    while col < col_count
        invariant
            glen == generator_matrix_flat@.len(),
            generator_matrix_flat@.len() == row_count * col_count,
            w@.len() == row_count,
            want == Seq::new(
                col_count as nat,
                |col: int| weighted_column(generator_matrix_flat@, w@, col_count as int, col),
            ),
            col <= col_count,
            out@ == want.take(col as int),
        decreases col_count - col,
    {
        let ghost terms = Seq::new(w@.len(), |row: int| w@[row].spec_mul(generator_matrix_flat@[row * col_count + col]));
        let mut acc = KoalaBear::zero();
        let mut row: usize = 0;
        while row < row_count
            invariant
                glen == generator_matrix_flat@.len(),
                generator_matrix_flat@.len() == row_count * col_count,
                w@.len() == row_count,
                col < col_count,
                row <= row_count,
                terms == Seq::new(w@.len(), |row: int| w@[row].spec_mul(generator_matrix_flat@[row * col_count + col])),
                acc == sum(terms.take(row as int)),
            decreases row_count - row,
        {
            proof {
                crate::vectors::lemma_grid_index(row as int, col as int, col_count as int, row_count as int);
                lemma_sum_take_step(terms, row as int);
            }
            acc = acc.add(w[row].mul(generator_matrix_flat[row * col_count + col]));
            row += 1;
        }
        assert(terms.take(row as int) =~= terms);
        out.push(acc);
        col += 1;
        assert(out@ =~= want.take(col as int));
    }
    assert(want.take(col as int) =~= want);
    out
}

/// The two generator tables of the base-code sumcheck, each entry of the
/// `c x c` grid (`c = sqrt(k)`) taking the left evaluation of its row and the
/// right evaluation of its column, and a copy of the message.
pub fn build_base_code_sumcheck_tip_tables(
    base_code_prime_generator_matrix: &[KoalaBear],
    r_x_code_b: &[KoalaBear],
    msg: &[KoalaBear],
    log_k: usize,
) -> (r: (Vec<KoalaBear>, Vec<KoalaBear>, Vec<KoalaBear>))
    requires
        r_x_code_b@.len() > 0,
        r_x_code_b@.len() % 2 == 0,
        r_x_code_b@.len() / 2 < 64,
        log_k % 2 == 0,
        log_k < 64,
        msg@.len() == pow2(log_k as nat),
        msg@.len() <= usize::MAX,
        pow2((r_x_code_b@.len() / 2) as nat) * pow2((log_k / 2) as nat) <= usize::MAX,
        base_code_prime_generator_matrix@.len() == pow2((r_x_code_b@.len() / 2) as nat) * pow2(
            (log_k / 2) as nat,
        ),
    ensures
        ({
            let g = base_code_prime_generator_matrix@;
            let h = (r_x_code_b@.len() / 2) as int;
            let c = pow2((log_k / 2) as nat) as int;
            let left = eq_table(r_x_code_b@.take(h));
            let right = eq_table(r_x_code_b@.skip(h));
            &&& r.0@ == Seq::new((c * c) as nat, |x: int| weighted_column(g, left, c, x / c))
            &&& r.1@ == Seq::new((c * c) as nat, |x: int| weighted_column(g, right, c, x % c))
            &&& r.2@ == msg@
        }),
{
    let half = r_x_code_b.len() / 2;
    proof {
        vstd::arithmetic::power2::lemma_pow2_pos((log_k / 2) as nat);
        vstd::arithmetic::power2::lemma_pow2_pos(half as nat);
        assert(pow2((log_k / 2) as nat) <= usize::MAX) by (nonlinear_arith)
            requires
                pow2((r_x_code_b@.len() / 2) as nat) * pow2((log_k / 2) as nat) <= usize::MAX,
                pow2((r_x_code_b@.len() / 2) as nat) >= 1,
        ;
        assert(pow2(half as nat) <= usize::MAX) by (nonlinear_arith)
            requires
                pow2((r_x_code_b@.len() / 2) as nat) * pow2((log_k / 2) as nat) <= usize::MAX,
                pow2((log_k / 2) as nat) >= 1,
                half == r_x_code_b@.len() / 2,
        ;
        vstd::arithmetic::power2::lemma_pow2_adds((log_k / 2) as nat, (log_k / 2) as nat);
    }
    let row_count = crate::interleaved_iopp::pow2_usize(half);
    let col_count = crate::interleaved_iopp::pow2_usize(log_k / 2);
    let left_point = crate::copy_range(r_x_code_b, 0, half);
    let right_point = crate::copy_range(r_x_code_b, half, r_x_code_b.len());
    assert(left_point@ =~= r_x_code_b@.take(half as int));
    assert(right_point@ =~= r_x_code_b@.skip(half as int));
    let left_eval = evaluate_generator_matrix_rows_at_point(
        base_code_prime_generator_matrix,
        row_count,
        col_count,
        left_point.as_slice(),
    );
    let right_eval = evaluate_generator_matrix_rows_at_point(
        base_code_prime_generator_matrix,
        row_count,
        col_count,
        right_point.as_slice(),
    );
    let ghost c = col_count as int;
    let mut left_table: Vec<KoalaBear> = Vec::with_capacity(msg.len());
    let mut right_table: Vec<KoalaBear> = Vec::with_capacity(msg.len());
    let mut i: usize = 0;
    while i < col_count
        invariant
            c == col_count,
            col_count * col_count == msg@.len(),
            left_eval@.len() == col_count,
            right_eval@.len() == col_count,
            i <= col_count,
            left_table@.len() == i * col_count,
            right_table@.len() == i * col_count,
            forall|x: int| 0 <= x < i * col_count ==> #[trigger] left_table@[x] == left_eval@[x / c],
            forall|x: int| 0 <= x < i * col_count ==> #[trigger] right_table@[x] == right_eval@[x % c],
        decreases col_count - i,
    {
        let mut j: usize = 0;
        while j < col_count
            invariant
                c == col_count,
                col_count * col_count == msg@.len(),
                left_eval@.len() == col_count,
                right_eval@.len() == col_count,
                i < col_count,
                j <= col_count,
                left_table@.len() == i * col_count + j,
                right_table@.len() == i * col_count + j,
                forall|x: int| 0 <= x < i * col_count + j ==> #[trigger] left_table@[x] == left_eval@[x / c],
                forall|x: int| 0 <= x < i * col_count + j ==> #[trigger] right_table@[x] == right_eval@[x % c],
            decreases col_count - j,
        {
            proof {
                crate::vectors::lemma_grid_index(i as int, j as int, c, c);
            }
            left_table.push(left_eval[i]);
            right_table.push(right_eval[j]);
            j += 1;
        }
        proof {
            assert(i * col_count + col_count == (i + 1) * col_count) by (nonlinear_arith);
        }
        i += 1;
    }
    let m = crate::copy_range(msg, 0, msg.len());
    proof {
        assert(m@ =~= msg@);
        let g = base_code_prime_generator_matrix@;
        let h = (r_x_code_b@.len() / 2) as int;
        assert forall|x: int| 0 <= x < c * c implies #[trigger] left_table@[x] == weighted_column(
            g,
            eq_table(r_x_code_b@.take(h)),
            c,
            x / c,
        ) by {
            crate::vectors::lemma_grid_coords(x, c, c);
        }
        assert forall|x: int| 0 <= x < c * c implies #[trigger] right_table@[x] == weighted_column(
            g,
            eq_table(r_x_code_b@.skip(h)),
            c,
            x % c,
        ) by {
            crate::vectors::lemma_grid_coords(x, c, c);
        }
        assert(left_table@ =~= Seq::new((c * c) as nat, |x: int| weighted_column(g, eq_table(r_x_code_b@.take(h)), c, x / c)));
        assert(right_table@ =~= Seq::new((c * c) as nat, |x: int| weighted_column(g, eq_table(r_x_code_b@.skip(h)), c, x % c)));
    }
    (left_table, right_table, m)
}

/// `repeat_factor` copies of `values`, one after another.
pub fn repeat_vector<T: Copy>(values: &[T], repeat_factor: usize) -> (r: Vec<T>)
    requires
        repeat_factor > 0,
        values@.len() * repeat_factor <= usize::MAX,
    ensures
        r@ == repeat_seq(values@, repeat_factor as nat),
{
    let n = values.len();
    let mut out: Vec<T> = Vec::with_capacity(n * repeat_factor);
    let mut k: usize = 0;
    while k < repeat_factor
        invariant
            n == values@.len(),
            n * repeat_factor <= usize::MAX,
            k <= repeat_factor,
            out@.len() == k * n,
            forall|x: int| 0 <= x < k * n ==> #[trigger] out@[x] == values@[x % (n as int)],
        decreases repeat_factor - k,
    {
        let mut i: usize = 0;
        while i < n
            invariant
                n == values@.len(),
                k < repeat_factor,
                i <= n,
                out@.len() == k * n + i,
                forall|x: int| 0 <= x < k * n + i ==> #[trigger] out@[x] == values@[x % (n as int)],
            decreases n - i,
        {
            proof {
                crate::vectors::lemma_grid_index(k as int, i as int, n as int, k as int + 1);
            }
            out.push(values[i]);
            i += 1;
        }
        proof {
            assert(k * n + n == (k + 1) * n) by (nonlinear_arith);
        }
        k += 1;
    }
    assert(out@ =~= repeat_seq(values@, repeat_factor as nat)) by {
        assert(out@.len() == values@.len() * repeat_factor) by (nonlinear_arith)
            requires
                out@.len() == repeat_factor * n,
                n == values@.len(),
        ;
    }
    out
}

/// A copy of a list of vectors.
fn copy_vecs(v: &Vec<Vec<KoalaBear>>) -> (r: Vec<Vec<KoalaBear>>)
    ensures
        crate::codeswitching::oracles::views(r@) == crate::codeswitching::oracles::views(v@),
{
    let mut out: Vec<Vec<KoalaBear>> = Vec::with_capacity(v.len());
    let mut i: usize = 0;
    while i < v.len()
        invariant
            i <= v@.len(),
            crate::codeswitching::oracles::views(out@) == crate::codeswitching::oracles::views(v@).take(i as int),
        decreases v@.len() - i,
    {
        let c = crate::copy_range(v[i].as_slice(), 0, v[i].len());
        assert(c@ =~= v@[i as int]@);
        let ghost before = out@;
        out.push(c);
        assert(crate::codeswitching::oracles::views(out@) =~= crate::codeswitching::oracles::views(before).push(c@));
        i += 1;
        assert(crate::codeswitching::oracles::views(out@) =~= crate::codeswitching::oracles::views(v@).take(i as int));
    }
    assert(crate::codeswitching::oracles::views(v@).take(i as int) =~= crate::codeswitching::oracles::views(v@));
    out
}

/// Appends the lists of `b` to `a`.
fn append_vecs(a: &mut Vec<Vec<KoalaBear>>, b: &Vec<Vec<KoalaBear>>)
    ensures
        crate::codeswitching::oracles::views(final(a)@) == crate::codeswitching::oracles::views(old(a)@)
            + crate::codeswitching::oracles::views(b@),
{
    let mut c = copy_vecs(b);
    let ghost (va, vc) = (crate::codeswitching::oracles::views(a@), crate::codeswitching::oracles::views(c@));
    a.append(&mut c);
    assert(crate::codeswitching::oracles::views(a@) =~= va + vc);
}

/// `repeat_factor` copies of the chunks and of the codewords of `encoding`.
pub fn repeat_split_encoding(encoding: &SplitEncoding, repeat_factor: usize) -> (r: SplitEncoding)
    requires
        repeat_factor > 0,
    ensures
        crate::codeswitching::oracles::views(r.chunks@) == repeat_seq(
            crate::codeswitching::oracles::views(encoding.chunks@),
            repeat_factor as nat,
        ),
        crate::codeswitching::oracles::views(r.codewords@) == repeat_seq(
            crate::codeswitching::oracles::views(encoding.codewords@),
            repeat_factor as nat,
        ),
{
    let ghost vc = crate::codeswitching::oracles::views(encoding.chunks@);
    let ghost vw = crate::codeswitching::oracles::views(encoding.codewords@);
    let mut chunks: Vec<Vec<KoalaBear>> = Vec::new();
    let mut codewords: Vec<Vec<KoalaBear>> = Vec::new();
    let mut k: usize = 0;
    assert(crate::codeswitching::oracles::views(chunks@) =~= Seq::<Seq<KoalaBear>>::empty());
    assert(crate::codeswitching::oracles::views(codewords@) =~= Seq::<Seq<KoalaBear>>::empty());
    while k < repeat_factor
        invariant
            vc == crate::codeswitching::oracles::views(encoding.chunks@),
            vw == crate::codeswitching::oracles::views(encoding.codewords@),
            k <= repeat_factor,
            crate::codeswitching::oracles::views(chunks@) == repeat_seq(vc, k as nat),
            crate::codeswitching::oracles::views(codewords@) == repeat_seq(vw, k as nat),
        decreases repeat_factor - k,
    {
        let ghost (c0, w0) = (crate::codeswitching::oracles::views(chunks@), crate::codeswitching::oracles::views(codewords@));
        append_vecs(&mut chunks, &encoding.chunks);
        append_vecs(&mut codewords, &encoding.codewords);
        proof {
            lemma_repeat_step(vc, k as nat);
            lemma_repeat_step(vw, k as nat);
        }
        k += 1;
    }
    SplitEncoding { chunks, codewords }
}

/// One more copy appends the sequence once more.
proof fn lemma_repeat_step<T>(s: Seq<T>, k: nat)
    ensures
        repeat_seq(s, k + 1) == repeat_seq(s, k) + s,
{
    let n = s.len() as int;
    assert(s.len() * (k + 1) == s.len() * k + s.len()) by (nonlinear_arith);
    assert forall|x: int| 0 <= x < s.len() * (k + 1) implies #[trigger] repeat_seq(s, k + 1)[x] == (repeat_seq(s, k)
        + s)[x] by {
        if x < s.len() * k {
        } else {
            let i = x - s.len() * k;
            assert(x == k * n + i) by (nonlinear_arith)
                requires
                    i == x - s.len() * k,
                    n == s.len(),
            ;
            crate::vectors::lemma_grid_index(k as int, i, n, k as int + 1);
        }
    }
    assert(repeat_seq(s, k + 1) =~= repeat_seq(s, k) + s);
}

/// The entries of `values` in the order of `permutation`.
pub fn apply_permutation<T: Copy>(values: &[T], permutation: &[usize]) -> (r: Vec<T>)
    requires
        values@.len() == permutation@.len(),
        forall|i: int| 0 <= i < permutation@.len() ==> #[trigger] permutation@[i] < values@.len(),
    ensures
        r@ == gather(values@, permutation@),
{
    crate::vectors::gather_vec(values, permutation)
}

/// The entrywise product of two equally long vectors.
pub fn hadamard_product(lhs: &[KoalaBear], rhs: &[KoalaBear]) -> (r: Vec<KoalaBear>)
    requires
        lhs@.len() == rhs@.len(),
    ensures
        r@ == hadamard(lhs@, rhs@),
{
    let mut out: Vec<KoalaBear> = Vec::with_capacity(lhs.len());
    let mut i: usize = 0;
    while i < lhs.len()
        invariant
            lhs@.len() == rhs@.len(),
            i <= lhs@.len(),
            out@ == hadamard(lhs@, rhs@).take(i as int),
        decreases lhs@.len() - i,
    {
        out.push(lhs[i].mul(rhs[i]));
        i += 1;
        assert(out@ =~= hadamard(lhs@, rhs@).take(i as int));
    }
    assert(out@ =~= hadamard(lhs@, rhs@));
    out
}

/// `(1, b, b^2, ..., b^(len-1))`.
pub fn geometric_power_vector(base: KoalaBear, len: usize) -> (r: Vec<KoalaBear>)
    requires
        len > 0,
    ensures
        r@ == Seq::new(len as nat, |i: int| fpow(base, i as nat)),
{
    let mut out: Vec<KoalaBear> = Vec::with_capacity(len);
    let mut cur = KoalaBear::one();
    let mut i: usize = 0;
    while i < len
        invariant
            i <= len,
            cur == fpow(base, i as nat),
            out@ == Seq::new(len as nat, |i: int| fpow(base, i as nat)).take(i as int),
        decreases len - i,
    {
        out.push(cur);
        cur = cur.mul(base);
        i += 1;
        assert(out@ =~= Seq::new(len as nat, |i: int| fpow(base, i as nat)).take(i as int));
    }
    assert(out@ =~= Seq::new(len as nat, |i: int| fpow(base, i as nat)));
    out
}

/// The running sums of a non-empty vector.
pub fn prefix_sums_vec(values: &[KoalaBear]) -> (r: Vec<KoalaBear>)
    requires
        values@.len() > 0,
    ensures
        r@ == prefix_sums(values@),
{
    let mut out = crate::copy_range(values, 0, values.len());
    assert(out@ =~= values@);
    crate::vectors::prefix_sum_in_place(&mut out);
    out
}

/// The sums `t[i] + t[i+1] + ...`, accumulated from the end.
pub open spec fn suffix_sum(t: Seq<KoalaBear>, i: int) -> KoalaBear
    decreases t.len() - i,
{
    if i >= t.len() || i < 0 {
        fe(0)
    } else {
        suffix_sum(t, i + 1).spec_add(t[i])
    }
}

/// The row of the accumulate (prefix-sum) map at `point`: entry `i` is the sum
/// of `eq(point, j)` over `j >= i`.
pub fn prefix_sum_accumulate_row_at_point(point: &[KoalaBear]) -> (r: Vec<KoalaBear>)
    requires
        pow2(point@.len() as nat) <= usize::MAX,
    ensures
        r@ == Seq::new(eq_table(point@).len(), |i: int| suffix_sum(eq_table(point@), i)),
{
    let w = eq_weights(point);
    let n = w.len();
    let mut row: Vec<KoalaBear> = crate::codes::era::zeros(n);
    let mut suffix = KoalaBear::zero();
    let mut index: usize = n;
    while index > 0
        invariant
            n == w@.len(),
            row@.len() == n,
            index <= n,
            suffix == suffix_sum(w@, index as int),
            forall|i: int| index <= i < n ==> #[trigger] row@[i] == suffix_sum(w@, i),
        decreases index,
    {
        index -= 1;
        suffix = suffix.add(w[index]);
        row.set(index, suffix);
    }
    assert(row@ =~= Seq::new(eq_table(point@).len(), |i: int| suffix_sum(eq_table(point@), i)));
    row
}

/// The running products of a non-empty vector.
pub fn prefix_products_vec(values: &[KoalaBear]) -> (r: Vec<KoalaBear>)
    requires
        values@.len() > 0,
    ensures
        r@ == prefix_products(values@),
{
    let mut out: Vec<KoalaBear> = Vec::with_capacity(values.len());
    let mut acc = KoalaBear::one();
    let mut i: usize = 0;
    while i < values.len()
        invariant
            i <= values@.len(),
            acc == product(values@.take(i as int)),
            out@ == prefix_products(values@).take(i as int),
        decreases values@.len() - i,
    {
        proof {
            assert(values@.take(i + 1).drop_last() =~= values@.take(i as int));
        }
        acc = acc.mul(values[i]);
        out.push(acc);
        i += 1;
        assert(out@ =~= prefix_products(values@).take(i as int));
    }
    assert(out@ =~= prefix_products(values@));
    out
}

/// The field image of an index read as a `u32`.
pub open spec fn index_fe(x: int) -> KoalaBear {
    fe((x as u32) as int)
}

/// The vectors of the first permutation check: the identity and permutation
/// vectors, `a_1 = alpha - (word_rep + beta pi_1)`, `b_1 = alpha - (word_perm
/// + beta id)`, and their running products `a_2`, `b_2`.
pub fn build_first_permute_witness_vectors(
    word_rep: &[KoalaBear],
    word_perm: &[KoalaBear],
    permutation_1: &[usize],
    permutation_alpha: KoalaBear,
    permutation_beta: KoalaBear,
) -> (r: (Vec<KoalaBear>, Vec<KoalaBear>, Vec<KoalaBear>, Vec<KoalaBear>, Vec<KoalaBear>, Vec<KoalaBear>))
    requires
        word_rep@.len() == word_perm@.len(),
        permutation_1@.len() == word_rep@.len(),
        word_rep@.len() > 0,
    ensures
        ({
            let n = word_rep@.len();
            let id = Seq::new(n, |i: int| index_fe(i));
            let pi = Seq::new(n, |i: int| index_fe(permutation_1@[i] as int));
            let a1 = Seq::new(
                n,
                |i: int| permutation_alpha.spec_sub(word_rep@[i].spec_add(permutation_beta.spec_mul(pi[i]))),
            );
            let b1 = Seq::new(
                n,
                |i: int| permutation_alpha.spec_sub(word_perm@[i].spec_add(permutation_beta.spec_mul(id[i]))),
            );
            &&& r.0@ == id
            &&& r.1@ == pi
            &&& r.2@ == a1
            &&& r.3@ == prefix_products(a1)
            &&& r.4@ == b1
            &&& r.5@ == prefix_products(b1)
        }),
{
    let n = word_rep.len();
    let ghost id = Seq::new(n as nat, |i: int| index_fe(i));
    let ghost pi = Seq::new(n as nat, |i: int| index_fe(permutation_1@[i] as int));
    let mut idv: Vec<KoalaBear> = Vec::with_capacity(n);
    let mut piv: Vec<KoalaBear> = Vec::with_capacity(n);
    let mut a1: Vec<KoalaBear> = Vec::with_capacity(n);
    let mut b1: Vec<KoalaBear> = Vec::with_capacity(n);
    let mut i: usize = 0;
    while i < n
        invariant
            n == word_rep@.len(),
            n == word_perm@.len(),
            n == permutation_1@.len(),
            id == Seq::new(n as nat, |i: int| index_fe(i)),
            pi == Seq::new(n as nat, |i: int| index_fe(permutation_1@[i] as int)),
            i <= n,
            idv@ == id.take(i as int),
            piv@ == pi.take(i as int),
            a1@ == Seq::new(
                n as nat,
                |i: int| permutation_alpha.spec_sub(word_rep@[i].spec_add(permutation_beta.spec_mul(pi[i]))),
            ).take(i as int),
            b1@ == Seq::new(
                n as nat,
                |i: int| permutation_alpha.spec_sub(word_perm@[i].spec_add(permutation_beta.spec_mul(id[i]))),
            ).take(i as int),
        decreases n - i,
    {
        let id_i = KoalaBear::from_u32(i as u32);
        let pi_i = KoalaBear::from_u32(permutation_1[i] as u32);
        idv.push(id_i);
        piv.push(pi_i);
        a1.push(permutation_alpha.sub(word_rep[i].add(permutation_beta.mul(pi_i))));
        b1.push(permutation_alpha.sub(word_perm[i].add(permutation_beta.mul(id_i))));
        i += 1;
        assert(idv@ =~= id.take(i as int));
        assert(piv@ =~= pi.take(i as int));
        assert(a1@ =~= Seq::new(
            n as nat,
            |i: int| permutation_alpha.spec_sub(word_rep@[i].spec_add(permutation_beta.spec_mul(pi[i]))),
        ).take(i as int));
        assert(b1@ =~= Seq::new(
            n as nat,
            |i: int| permutation_alpha.spec_sub(word_perm@[i].spec_add(permutation_beta.spec_mul(id[i]))),
        ).take(i as int));
    }
    proof {
        assert(idv@ =~= id);
        assert(piv@ =~= pi);
    }
    let a2 = prefix_products_vec(a1.as_slice());
    let b2 = prefix_products_vec(b1.as_slice());
    proof {
        assert(a1@ =~= Seq::new(
            n as nat,
            |i: int| permutation_alpha.spec_sub(word_rep@[i].spec_add(permutation_beta.spec_mul(pi[i]))),
        ));
        assert(b1@ =~= Seq::new(
            n as nat,
            |i: int| permutation_alpha.spec_sub(word_perm@[i].spec_add(permutation_beta.spec_mul(id[i]))),
        ));
    }
    (idv, piv, a1, a2, b1, b2)
}

/// `coords` with `coord` appended.
pub fn append_coord<T: Copy>(coords: &[T], coord: T) -> (r: Vec<T>)
    ensures
        r@ == coords@.push(coord),
{
    let mut out: Vec<T> = Vec::new();
    let mut i: usize = 0;
    while i < coords.len()
        invariant
            i <= coords@.len(),
            out@ == coords@.take(i as int),
        decreases coords@.len() - i,
    {
        out.push(coords[i]);
        i += 1;
        assert(out@ =~= coords@.take(i as int));
    }
    out.push(coord);
    assert(out@ =~= coords@.push(coord));
    out
}

/// The fixed point `(0, ..., 0, 1, 0)` of `dimension` coordinates.
pub fn build_first_permute_fixed_point(dimension: usize) -> (r: Vec<KoalaBear>)
    requires
        dimension >= 2,
    ensures
        r@ == Seq::new((dimension - 2) as nat, |i: int| fe(0)).push(fe(1)).push(fe(0)),
{
    let mut point = crate::codes::era::zeros(dimension - 2);
    proof {
        assert(point@ =~= Seq::new((dimension - 2) as nat, |i: int| fe(0))) by {
            assert forall|i: int| 0 <= i < point@.len() implies point@[i] == fe(0) by {
                assert(crate::codes::era::all_zero(point@));
            }
        }
    }
    point.push(KoalaBear::one());
    point.push(KoalaBear::zero());
    point
}

} // verus!
