//! The code-switching claims generator: it encodes the witness, commits to
//! each intermediate word of the ERA encoding, and reduces every consistency
//! check between them to chunk-level inner-product and triple-product claims.
use vstd::arithmetic::power2::pow2;
use vstd::prelude::*;

use crate::codeswitching::claims::{chunk, split_claim_ip, split_claim_tip, triple_dot, SplitIpClaim, SplitTipClaim};
use crate::codeswitching::claims::{inner_product, triple_product};
use crate::codeswitching::oracles::{is_split_encoding, split_and_encode, views, SplitEncoding};
use crate::codeswitching::reduce_ior::sample_random_point;
use crate::codeswitching::codeswitch_claims::{
    append_coord, apply_permutation, build_base_code_sumcheck_tip_tables, repeat_split_encoding, repeat_vector, build_first_permute_fixed_point, pow_field, CodeswitchClaimsInput, CodeswitchClaimsOutput,
    CodeswitchSpotcheck, build_first_permute_witness_vectors, fpow,
    geometric_power_vector, hadamard_product, index_fe, prefix_sum_accumulate_row_at_point, prefix_sums_vec,
    suffix_sum, weighted_column,
};
use crate::codeswitching::sumcheck::permutation::{reversed, transition_lower};
use crate::codeswitching::sumcheck::{
    build_permutation_transition_tables, compress, fold_table, is_pow2, log2, PermutationTransitionSumcheck,
    PermutationTransitionSumcheckOutput, TIPSumcheck,
};
use crate::copy_range;
use crate::field::fe;
use crate::field::KoalaBear;
use crate::poly::{eq_table, eq_weights, evaluate_multilinear_table, mle_eval};
use crate::vectors::{all_wf, dot, gather, hadamard, is_permutation, prefix_products, prefix_sums, repeat_seq, sum};
use crate::ErrorCorrectingCode;

verus! {

/// `claims` are the chunk claims that splitting the inner product of `w` with
/// `v` into chunks of `k` entries gives: claim `i` holds chunk `i` of `v` and
/// the inner product of chunk `i` of `w` with it.
pub open spec fn ip_split_of(claims: Seq<SplitIpClaim>, w: Seq<KoalaBear>, v: Seq<KoalaBear>, k: nat) -> bool {
    &&& claims.len() == w.len() / k
    &&& forall|i: int|
        0 <= i < claims.len() ==> {
            &&& (#[trigger] claims[i]).chunk_index == i
            &&& claims[i].coeffs@ == chunk(v, k, i)
            &&& claims[i].target == dot(chunk(w, k, i), chunk(v, k, i))
        }
}

/// `claims` are the chunk claims of the triple product of `a`, `b` and `v`.
pub open spec fn tip_split_of(
    claims: Seq<SplitTipClaim>,
    a: Seq<KoalaBear>,
    b: Seq<KoalaBear>,
    v: Seq<KoalaBear>,
    k: nat,
) -> bool {
    &&& claims.len() == a.len() / k
    &&& forall|i: int|
        0 <= i < claims.len() ==> {
            &&& (#[trigger] claims[i]).chunk_index == i
            &&& claims[i].coeffs@ == chunk(v, k, i)
            &&& claims[i].target == triple_dot(chunk(a, k, i), chunk(b, k, i), chunk(v, k, i))
        }
}

/// Splits the claim `<w, v> = sigma` into chunk claims; `None` when the claim
/// is false.
pub fn checked_split_ip(w: &[KoalaBear], v: &[KoalaBear], sigma: KoalaBear, k: usize) -> (r: Option<Vec<SplitIpClaim>>)
    requires
        k > 0,
        w@.len() == v@.len(),
        w@.len() % (k as nat) == 0,
        w@.len() > 0,
    ensures
        r is Some <==> sigma == dot(w@, v@),
        r matches Some(c) ==> ip_split_of(c@, w@, v@, k as nat),
{
    let s = inner_product(w, v);
    if s == sigma {
        Some(split_claim_ip(w, v, sigma, k))
    } else {
        None
    }
}

/// Splits the claim `<a * b, v> = sigma` into chunk claims; `None` when the
/// claim is false.
pub fn checked_split_tip(a: &[KoalaBear], b: &[KoalaBear], v: &[KoalaBear], sigma: KoalaBear, k: usize) -> (r:
    Option<Vec<SplitTipClaim>>)
    requires
        k > 0,
        a@.len() == b@.len(),
        a@.len() == v@.len(),
        a@.len() % (k as nat) == 0,
        a@.len() > 0,
    ensures
        r is Some <==> sigma == triple_dot(a@, b@, v@),
        r matches Some(c) ==> tip_split_of(c@, a@, b@, v@, k as nat),
{
    let s = triple_product(a, b, v);
    if s == sigma {
        Some(split_claim_tip(a, b, v, sigma, k))
    } else {
        None
    }
}

/// On canonical entries, the value of the multilinear extension of `w` at
/// `point` is the inner product of `w` with the table of `eq(point, .)`.
pub proof fn lemma_eval_is_dot(w: Seq<KoalaBear>, point: Seq<KoalaBear>)
    requires
        w.len() == pow2(point.len()),
        all_wf(w),
        all_wf(point),
    ensures
        mle_eval(w, point) == dot(w, eq_table(point)),
{
    crate::poly::lemma_eq_eval(w, point);
    crate::poly::lemma_eq_len(point);
    let e = eq_table(point);
    assert forall|i: int| 0 <= i < w.len() implies #[trigger] hadamard(e, w)[i] == hadamard(w, e)[i] by {
        crate::vectors::lemma_mul_comm(e[i], w[i]);
    }
    assert(hadamard(e, w) =~= hadamard(w, e));
}

/// Folding `m 2^k` entries with `k` challenges leaves `m` entries.
proof fn lemma_fold_len(t: Seq<KoalaBear>, rs: Seq<KoalaBear>, m: nat)
    requires
        t.len() == m * pow2(rs.len()),
    ensures
        fold_table(t, rs).len() == m,
    decreases rs.len(),
{
    if rs.len() > 0 {
        vstd::arithmetic::power2::lemma_pow2_unfold(rs.len());
        assert(t.len() == (2 * m) * pow2(rs.drop_last().len())) by (nonlinear_arith)
            requires
                t.len() == m * pow2(rs.len()),
                pow2(rs.len()) == 2 * pow2((rs.len() - 1) as nat),
                rs.drop_last().len() == rs.len() - 1,
        ;
        lemma_fold_len(t, rs.drop_last(), 2 * m);
    } else {
        vstd::arithmetic::power2::lemma2_to64();
        assert(m * 1 == m);
    }
}

/// Folding a table whose entries all equal a canonical `x` leaves entries equal to `x`.
proof fn lemma_fold_const(t: Seq<KoalaBear>, x: KoalaBear, rs: Seq<KoalaBear>)
    requires
        x.wf(),
        forall|i: int| 0 <= i < t.len() ==> #[trigger] t[i] == x,
    ensures
        forall|j: int| 0 <= j < fold_table(t, rs).len() ==> #[trigger] fold_table(t, rs)[j] == x,
    decreases rs.len(),
{
    if rs.len() > 0 {
        lemma_fold_const(t, x, rs.drop_last());
        let p = fold_table(t, rs.drop_last());
        let c = rs.last();
        assert forall|j: int| 0 <= j < fold_table(t, rs).len() implies #[trigger] fold_table(t, rs)[j] == x by {
            assert(p[2 * j] == x && p[2 * j + 1] == x);
            crate::vectors::lemma_fe_v(0);
            crate::ring::lemma_mul_r(c, 0);
            assert(c.v() * 0 == 0);
            crate::ring::lemma_add_r(x, 0);
            crate::ring::lemma_canon(x);
        }
    }
}

/// The entries of the table of `eq(r, .)` add up to one.
pub proof fn lemma_eq_sum_one(r: Seq<KoalaBear>)
    requires
        all_wf(r),
    ensures
        sum(eq_table(r)) == fe(1),
{
    let n = pow2(r.len());
    crate::poly::lemma_eq_len(r);
    let e = eq_table(r);
    crate::vectors::lemma_fe_v(1);
    let ones = Seq::new(n, |i: int| fe(1));
    lemma_eval_is_dot(ones, r);
    lemma_fold_len(ones, r.reverse(), 1);
    lemma_fold_const(ones, fe(1), r.reverse());
    assert forall|i: int| 0 <= i < n implies #[trigger] hadamard(ones, e)[i] == e[i] by {
        crate::poly::lemma_eq_wf(r, i);
        crate::ring::lemma_mul_l(1, e[i]);
        crate::ring::lemma_canon(e[i]);
    }
    crate::vectors::lemma_mul_comm(fe(1), fe(1));
    assert(hadamard(ones, e) =~= e);
    // dot(ones, e) == mle_eval(ones, r) == fe(1)
}

/// The inner product of a canonical table with the table of `eq(r, .)`, as
/// the reduction of an integer sum.
proof fn lemma_dot_eq_int(x: Seq<KoalaBear>, r: Seq<KoalaBear>)
    requires
        x.len() == pow2(r.len()),
    ensures
        dot(x, eq_table(r)) == fe(crate::ring::isum_g(x.len(), |i: int| x[i].v() * eq_table(r)[i].v())),
{
    crate::poly::lemma_eq_len(r);
    crate::ring::lemma_sum_terms(hadamard(x, eq_table(r)), |i: int| x[i].v() * eq_table(r)[i].v());
}

/// The multilinear extension is affine in the table: at `r`, the table
/// `alpha - (w + beta p)` takes `alpha - (w(r) + beta p(r))`.
#[verifier::rlimit(40)]
pub proof fn lemma_mle_affine(w: Seq<KoalaBear>, p: Seq<KoalaBear>, r: Seq<KoalaBear>, alpha: KoalaBear, beta: KoalaBear)
    requires
        w.len() == pow2(r.len()),
        p.len() == w.len(),
        all_wf(w),
        all_wf(p),
        all_wf(r),
    ensures
        mle_eval(Seq::new(w.len(), |i: int| alpha.spec_sub(w[i].spec_add(beta.spec_mul(p[i])))), r) == alpha.spec_sub(
            mle_eval(w, r).spec_add(beta.spec_mul(mle_eval(p, r))),
        ),
{
    let n = w.len();
    let a = Seq::new(n, |i: int| alpha.spec_sub(w[i].spec_add(beta.spec_mul(p[i]))));
    crate::poly::lemma_eq_len(r);
    let e = eq_table(r);
    let (av, bv) = (alpha.v(), beta.v());
    let q = |i: int| av - (w[i].v() + bv * p[i].v());
    let fe0 = |i: int| e[i].v();
    let fe1 = |i: int| w[i].v() * e[i].v();
    let fe2 = |i: int| p[i].v() * e[i].v();
    let fz = |i: int| 0int;
    let fq = |i: int| q(i) * e[i].v();
    let s0 = crate::ring::isum_g(n, fe0);
    let s1 = crate::ring::isum_g(n, fe1);
    let s2 = crate::ring::isum_g(n, fe2);
    let pp = crate::field::P as int;
    assert(mle_eval(a, r) == fe(crate::ring::isum_g(n, fq))) by {
        assert forall|i: int| 0 <= i < n implies #[trigger] a[i] == fe(q(i)) by {
            crate::ring::lemma_add_r(w[i], bv * p[i].v());
            crate::ring::lemma_sub_r(alpha, w[i].v() + bv * p[i].v());
        }
        assert forall|i: int| 0 <= i < n implies #[trigger] a[i].wf() by {
            crate::vectors::lemma_fe_v(q(i));
        }
        lemma_eval_is_dot(a, r);
        assert forall|i: int| 0 <= i < n implies #[trigger] hadamard(a, e)[i] == fe(fq(i)) by {
            crate::ring::lemma_mul_l(q(i), e[i]);
        }
        crate::ring::lemma_sum_terms(hadamard(a, e), fq);
    }
    assert(mle_eval(w, r) == fe(s1) && mle_eval(p, r) == fe(s2)) by {
        lemma_eval_is_dot(w, r);
        lemma_eval_is_dot(p, r);
        lemma_dot_eq_int(w, r);
        lemma_dot_eq_int(p, r);
    }
    assert(crate::ring::isum_g(n, fq) == av * s0 - s1 - bv * s2) by {
        crate::ring::lemma_isum_lin4(n, fe0, fe1, fe2, fz, av, -1, -bv, 0);
        assert forall|i: int| 0 <= i < n implies #[trigger] fq(i) == av * fe0(i) + (-1) * fe1(i) + (-bv) * fe2(i) + 0
            * fz(i) by {
            let (x, y, z, t) = (av, w[i].v(), p[i].v(), e[i].v());
            assert((x - (y + bv * z)) * t == x * t + (-1) * (y * t) + (-bv) * (z * t) + 0 * 0) by (nonlinear_arith);
        }
        crate::ring::lemma_isum_ext(n, fq, |b: int| av * fe0(b) + (-1) * fe1(b) + (-bv) * fe2(b) + 0 * fz(b));
        let z = crate::ring::isum_g(n, fz);
        assert(av * s0 + (-1) * s1 + (-bv) * s2 + 0 * z == av * s0 - s1 - bv * s2) by (nonlinear_arith);
    }
    assert(s0 % pp == 1) by {
        lemma_eq_sum_one(r);
        assert forall|i: int| 0 <= i < n implies #[trigger] e[i] == fe(fe0(i)) by {
            crate::poly::lemma_eq_wf(r, i);
            crate::ring::lemma_canon(e[i]);
        }
        crate::ring::lemma_sum_terms(e, fe0);
        crate::vectors::lemma_fe_v(s0);
        crate::vectors::lemma_fe_v(1);
    }
    let k = s0 / pp;
    assert(s0 == pp * k + 1) by {
        vstd::arithmetic::div_mod::lemma_fundamental_div_mod(s0, pp);
    }
    crate::ring::lemma_mul_r(beta, s2);
    crate::vectors::lemma_fe_add(s1, bv * s2);
    crate::ring::lemma_sub_r(alpha, s1 + bv * s2);
    assert((av * s0 - s1 - bv * s2) - (av - (s1 + bv * s2)) == (av * k) * pp) by (nonlinear_arith)
        requires
            s0 == pp * k + 1,
    ;
    crate::ring::lemma_congruent(av * s0 - s1 - bv * s2, av - (s1 + bv * s2), av * k);
}

/// A sum whose terms vanish from `m` on is the sum of its first `m` terms.
proof fn lemma_isum_trunc(n: nat, m: nat, f: spec_fn(int) -> int)
    requires
        m <= n,
        forall|j: int| m <= j < n ==> #[trigger] f(j) == 0,
    ensures
        crate::ring::isum_g(n, f) == crate::ring::isum_g(m, f),
    decreases n,
{
    if n > m {
        lemma_isum_trunc((n - 1) as nat, m, f);
    }
}

/// The suffix sums of `e` as reductions of integer sums.
proof fn lemma_suffix_int(e: Seq<KoalaBear>, j: int)
    requires
        0 <= j <= e.len(),
    ensures
        suffix_sum(e, j) == fe(crate::ring::isum_g(e.len(), |i: int| if i >= j { e[i].v() } else { 0 })),
    decreases e.len() - j,
{
    let n = e.len();
    if j == n {
        crate::ring::lemma_isum_ext(n, |i: int| if i >= j { e[i].v() } else { 0 }, |i: int| 0int);
        crate::ring::lemma_isum_zero(n);
    } else {
        lemma_suffix_int(e, j + 1);
        let f0 = |i: int| if i >= j + 1 { e[i].v() } else { 0 };
        let f1 = |i: int| if i >= j { e[i].v() } else { 0 };
        lemma_isum_bump(n, f0, f1, j, e[j].v());
        crate::ring::lemma_add_l(crate::ring::isum_g(n, f0), e[j]);
    }
}

/// Accumulating then pairing with `e` is pairing with the suffix sums of `e`:
/// `<prefix_sums(m), e> = <m, (e_j + e_{j+1} + ...)_j>`.
#[verifier::rlimit(40)]
pub proof fn lemma_accumulate_row(m: Seq<KoalaBear>, e: Seq<KoalaBear>)
    requires
        m.len() == e.len(),
        all_wf(m),
    ensures
        dot(prefix_sums(m), e) == dot(m, Seq::new(e.len(), |j: int| suffix_sum(e, j))),
{
    let n = m.len();
    let mv = |j: int| m[j].v();
    let ev = |i: int| e[i].v();
    let h = |i: int, j: int| if j <= i { mv(j) * ev(i) } else { 0 };
    let pre = |i: int| crate::ring::isum_g((i + 1) as nat, mv);
    let suf = |j: int| crate::ring::isum_g(n, |i: int| if i >= j { e[i].v() } else { 0 });
    let row = Seq::new(e.len(), |j: int| suffix_sum(e, j));
    let ps = prefix_sums(m);
    // left side
    assert(dot(ps, e) == fe(crate::ring::isum_g(n, crate::ring::row_sums(n, h)))) by {
        assert forall|i: int| 0 <= i < n implies #[trigger] hadamard(ps, e)[i] == fe(
            crate::ring::row_sums(n, h)(i),
        ) by {
            assert forall|b: int| 0 <= b < m.take(i + 1).len() implies #[trigger] m.take(i + 1)[b] == fe(mv(b)) by {
                crate::ring::lemma_canon(m[b]);
            }
            crate::ring::lemma_sum_terms(m.take(i + 1), mv);
            crate::ring::lemma_mul_l(pre(i), e[i]);
            lemma_isum_trunc(n, (i + 1) as nat, |j: int| h(i, j));
            assert forall|j: int| 0 <= j < i + 1 implies #[trigger] h(i, j) == ev(i) * mv(j) by {
                vstd::arithmetic::mul::lemma_mul_is_commutative(mv(j), ev(i));
            }
            crate::ring::lemma_isum_ext((i + 1) as nat, |j: int| h(i, j), |j: int| ev(i) * mv(j));
            crate::ring::lemma_isum_scale((i + 1) as nat, ev(i), mv);
            vstd::arithmetic::mul::lemma_mul_is_commutative(pre(i), ev(i));
        }
        crate::ring::lemma_sum_terms(hadamard(ps, e), crate::ring::row_sums(n, h));
    }
    // right side
    assert(dot(m, row) == fe(crate::ring::isum_g(n, crate::ring::col_sums(n, h)))) by {
        assert forall|j: int| 0 <= j < n implies #[trigger] hadamard(m, row)[j] == fe(crate::ring::col_sums(n, h)(j)) by {
            lemma_suffix_int(e, j);
            assert(row[j] == fe(suf(j)));
            crate::ring::lemma_mul_r(m[j], suf(j));
            let fj = |i: int| if i >= j { e[i].v() } else { 0 };
            assert forall|i: int| 0 <= i < n implies #[trigger] h(i, j) == mv(j) * fj(i) by {
                assert(mv(j) * 0 == 0);
            }
            crate::ring::lemma_isum_ext(n, |i: int| h(i, j), |i: int| mv(j) * fj(i));
            crate::ring::lemma_isum_scale(n, mv(j), fj);
            assert(crate::ring::col_sums(n, h)(j) == crate::ring::isum_g(n, |i: int| h(i, j)));
            assert(suf(j) == crate::ring::isum_g(n, fj));
        }
        crate::ring::lemma_sum_terms(hadamard(m, row), crate::ring::col_sums(n, h));
    }
    crate::ring::lemma_isum_swap(n, n, h);
}

/// The inner product of the tables of `eq(x, .)` and `eq(y, .)` is the
/// equality polynomial `eq(x, y)`.
#[verifier::rlimit(40)]
pub proof fn lemma_eq_tables_dot(x: Seq<KoalaBear>, y: Seq<KoalaBear>)
    requires
        x.len() == y.len(),
    ensures
        dot(eq_table(x), eq_table(y)) == crate::codeswitching::reduce_ior::eq_eval(x, y),
    decreases x.len(),
{
    crate::poly::lemma_eq_len(x);
    crate::poly::lemma_eq_len(y);
    if x.len() == 0 {
        crate::vectors::lemma_fe_mul(1, 1);
        crate::vectors::lemma_fe_add(0, 1);
        assert(hadamard(eq_table(x), eq_table(y)) =~= seq![fe(1)]);
        let s1 = seq![fe(1)];
        assert(s1.drop_last() =~= Seq::<KoalaBear>::empty());
        assert(sum(s1.drop_last()) == fe(0));
        assert(sum(s1) == sum(s1.drop_last()).spec_add(s1.last()));
        assert(dot(eq_table(x), eq_table(y)) == fe(1));
        assert(crate::codeswitching::reduce_ior::eq_eval(x, y) == fe(1));
    } else {
        let (xp, yp) = (x.drop_last(), y.drop_last());
        lemma_eq_tables_dot(xp, yp);
        let (tx, ty) = (eq_table(xp), eq_table(yp));
        crate::poly::lemma_eq_len(xp);
        crate::poly::lemma_eq_len(yp);
        let m = tx.len();
        let (cx, cy) = (x.last(), y.last());
        let u = fe(1).spec_sub(cx);
        let w = fe(1).spec_sub(cy);
        let kk = u.v() * w.v() + cx.v() * cy.v();
        let g = |i: int|
            if i % 2 == 0 {
                tx[i / 2].v() * u.v() * (ty[i / 2].v() * w.v())
            } else {
                tx[i / 2].v() * cx.v() * (ty[i / 2].v() * cy.v())
            };
        let h = hadamard(eq_table(x), eq_table(y));
        assert forall|i: int| 0 <= i < h.len() implies #[trigger] h[i] == fe(g(i)) by {
            if i % 2 == 0 {
                crate::vectors::lemma_fe_mul(tx[i / 2].v() * u.v(), ty[i / 2].v() * w.v());
            } else {
                crate::vectors::lemma_fe_mul(tx[i / 2].v() * cx.v(), ty[i / 2].v() * cy.v());
            }
        }
        crate::ring::lemma_sum_terms(h, g);
        crate::ring::lemma_isum_pairs(m, g);
        let sxy = |j: int| tx[j].v() * ty[j].v();
        assert forall|j: int| 0 <= j < m implies #[trigger] (g(2 * j) + g(2 * j + 1)) == kk * sxy(j) by {
            assert((2 * j) % 2 == 0 && (2 * j) / 2 == j);
            assert((2 * j + 1) % 2 == 1 && (2 * j + 1) / 2 == j);
            let (a, b) = (tx[j].v(), ty[j].v());
            assert(a * u.v() * (b * w.v()) + a * cx.v() * (b * cy.v()) == (u.v() * w.v() + cx.v() * cy.v()) * (a * b))
                by (nonlinear_arith);
        }
        crate::ring::lemma_isum_ext(m, |j: int| g(2 * j) + g(2 * j + 1), |j: int| kk * sxy(j));
        crate::ring::lemma_isum_scale(m, kk, sxy);
        crate::ring::lemma_sum_terms(hadamard(tx, ty), sxy);
        let s = crate::ring::isum_g(m, sxy);
        crate::vectors::lemma_fe_add(cx.v() * cy.v(), u.v() * w.v());
        assert(crate::codeswitching::reduce_ior::eq_factor(cx, cy) == fe(kk)) by {
            assert(cx.v() * cy.v() + u.v() * w.v() == kk);
        }
        crate::vectors::lemma_fe_mul(s, kk);
        vstd::arithmetic::mul::lemma_mul_is_commutative(s, kk);
        assert(dot(tx, ty) == fe(s));
        assert(crate::codeswitching::reduce_ior::eq_factor(cx, cy) == fe(kk));
        assert(crate::codeswitching::reduce_ior::eq_eval(x, y) == fe(s).spec_mul(fe(kk)));
        assert(h.len() == 2 * m);
        assert(dot(eq_table(x), eq_table(y)) == fe(crate::ring::isum_g(2 * m, g)));
        assert(crate::ring::isum_g(2 * m, g) == kk * s);
        assert(fe(s).spec_mul(fe(kk)) == fe(kk * s));
    }
}

/// A table at the tail of `r` with `bit` appended, as an integer sum over
/// the pairs of the table: only the entry of each pair at `bit` counts.
#[verifier::rlimit(40)]
proof fn lemma_eval_at_bit(f: Seq<KoalaBear>, tail: Seq<KoalaBear>, bit: int)
    requires
        f.len() == 2 * pow2(tail.len()),
        all_wf(f),
        all_wf(tail),
        bit == 0 || bit == 1,
    ensures
        mle_eval(f, tail.push(fe(bit))) == fe(
            crate::ring::isum_g(pow2(tail.len()), |c: int| eq_table(tail)[c].v() * f[2 * c + bit].v()),
        ),
{
    let h = pow2(tail.len());
    let tp = tail.push(fe(bit));
    crate::vectors::lemma_fe_v(bit);
    crate::vectors::lemma_fe_v(1);
    crate::vectors::lemma_fe_v(1 - bit);
    vstd::arithmetic::power2::lemma_pow2_unfold(tp.len());
    assert(tp.drop_last() =~= tail);
    assert(all_wf(tp));
    lemma_eval_is_dot(f, tp);
    crate::poly::lemma_eq_len(tail);
    let e = eq_table(tail);
    let wb = |x: int| if x % 2 == 0 { 1 - bit } else { bit };
    let ga = |x: int| f[x].v() * (e[x / 2].v() * wb(x));
    let w0 = fe(1).spec_sub(fe(bit));
    assert(w0 == fe(1 - bit));
    assert(fe(1 - bit).v() == 1 - bit && fe(bit).v() == bit);
    let hd = hadamard(f, eq_table(tp));
    assert forall|x: int| 0 <= x < hd.len() implies #[trigger] hd[x] == fe(ga(x)) by {
        crate::ring::lemma_mul_r(f[x], e[x / 2].v() * wb(x));
    }
    crate::ring::lemma_sum_terms(hd, ga);
    crate::ring::lemma_isum_pairs(h, ga);
    let gc = |c: int| e[c].v() * f[2 * c + bit].v();
    assert forall|c: int| 0 <= c < h implies #[trigger] (ga(2 * c) + ga(2 * c + 1)) == gc(c) by {
        assert((2 * c) % 2 == 0 && (2 * c) / 2 == c);
        assert((2 * c + 1) % 2 == 1 && (2 * c + 1) / 2 == c);
        let (a0, a1, ev) = (f[2 * c].v(), f[2 * c + 1].v(), e[c].v());
        if bit == 0 {
            assert(a0 * (ev * 1) + a1 * (ev * 0) == ev * a0) by (nonlinear_arith);
        } else {
            assert(a0 * (ev * 0) + a1 * (ev * 1) == ev * a1) by (nonlinear_arith);
        }
    }
    crate::ring::lemma_isum_ext(h, |c: int| ga(2 * c) + ga(2 * c + 1), gc);
}

/// A lower table of the transition sumcheck at `r` is the interpolation, at
/// `r[0]`, of the two witness tables at the tail of `r` with `bit` appended.
#[verifier::rlimit(60)]
pub proof fn lemma_lower_eval(f: Seq<KoalaBear>, s: Seq<KoalaBear>, r: Seq<KoalaBear>, bit: int)
    requires
        f.len() == s.len(),
        r.len() >= 1,
        f.len() == pow2(r.len()),
        all_wf(f),
        all_wf(s),
        all_wf(r),
        bit == 0 || bit == 1,
    ensures
        mle_eval(transition_lower(f, s, bit), r) == lerp(
            r[0],
            mle_eval(f, tail_with(r, fe(bit))),
            mle_eval(s, tail_with(r, fe(bit))),
        ),
{
    let n = f.len();
    let tail = r.skip(1);
    let h = pow2(tail.len());
    vstd::arithmetic::power2::lemma_pow2_unfold(r.len());
    assert(n == 2 * h);
    assert(n / 2 == h);
    let lt = transition_lower(f, s, bit);
    let r0 = r[0];
    let u = fe(1).spec_sub(r0);
    crate::vectors::lemma_fe_v(1 - r0.v());
    crate::poly::lemma_eq_len(tail);
    let e = eq_table(tail);
    let fa = |c: int| eq_table(tail)[c].v() * f[2 * c + bit].v();
    let fb = |c: int| eq_table(tail)[c].v() * s[2 * c + bit].v();
    let ai = crate::ring::isum_g(h, fa);
    let bi = crate::ring::isum_g(h, fb);
    assert(tail_with(r, fe(bit)) == tail.push(fe(bit)));
    lemma_eval_at_bit(f, tail, bit);
    lemma_eval_at_bit(s, tail, bit);
    assert(mle_eval(lt, r) == fe(u.v() * ai + r0.v() * bi)) by {
        assert(all_wf(lt));
        crate::poly::lemma_eq_eval(lt, r);
        let one = seq![r0];
        assert(r =~= one + tail);
        let e1 = eq_table(one);
        assert(one.drop_last() =~= Seq::<KoalaBear>::empty());
        assert(eq_table(one.drop_last()) == seq![fe(1)]);
        assert(one.last() == r0);
        assert(e1.len() == 2);
        assert(e1[0] == fe(1).spec_mul(u) && e1[1] == fe(1).spec_mul(r0));
        assert(e1[0] == u && e1[1] == r0);
        assert(eq_table(r) == eq_table(one + tail));
        crate::ring::lemma_mul_l(1, u);
        crate::ring::lemma_mul_l(1, r0);
        crate::ring::lemma_canon(u);
        crate::ring::lemma_canon(r0);
        vstd::arithmetic::power2::lemma2_to64();
        let q = |x: int| if x < h { u.v() } else { r0.v() };
        let gl = |x: int| if x < h { q(x) * e[x].v() * f[2 * x + bit].v() } else { q(x) * e[x - h].v() * s[2 * (x - h) + bit].v() };
        let hd = hadamard(eq_table(r), lt);
        crate::poly::lemma_eq_len(r);
        assert(hd.len() == n);
        assert forall|x: int| 0 <= x < n implies #[trigger] hd[x] == fe(gl(x)) by {
            if x < h {
                crate::poly::lemma_eq_tensor(one, tail, 0, x);
                assert(0 * h + x == x);
                assert(eq_table(r)[x] == u.spec_mul(e[x]));
                assert(lt[x] == f[2 * x + bit]);
                crate::ring::lemma_mul_l(u.v() * e[x].v(), lt[x]);
                assert(hd[x] == eq_table(r)[x].spec_mul(lt[x]));
            } else {
                crate::poly::lemma_eq_tensor(one, tail, 1, x - h);
                assert(1 * h + (x - h) == x);
                assert(eq_table(r)[x] == r0.spec_mul(e[x - h]));
                assert(lt[x] == s[2 * (x - h) + bit]);
                crate::ring::lemma_mul_l(r0.v() * e[x - h].v(), lt[x]);
                assert(hd[x] == eq_table(r)[x].spec_mul(lt[x]));
            }
        }
        crate::ring::lemma_sum_terms(hd, gl);
        crate::ring::lemma_isum_shift(h, h, gl);
        assert forall|c: int| 0 <= c < h implies #[trigger] gl(c) == u.v() * fa(c) by {
            vstd::arithmetic::mul::lemma_mul_is_associative(u.v(), e[c].v(), f[2 * c + bit].v());
        }
        crate::ring::lemma_isum_ext(h, gl, |c: int| u.v() * fa(c));
        crate::ring::lemma_isum_scale(h, u.v(), fa);
        assert forall|c: int| 0 <= c < h implies #[trigger] crate::ring::shifted(h as int, gl)(c) == r0.v() * fb(c) by {
            assert(h + c - h == c);
            assert(!(h + c < h));
            vstd::arithmetic::mul::lemma_mul_is_associative(r0.v(), e[c].v(), s[2 * c + bit].v());
        }
        crate::ring::lemma_isum_ext(h, crate::ring::shifted(h as int, gl), |c: int| r0.v() * fb(c));
        crate::ring::lemma_isum_scale(h, r0.v(), fb);
        assert(h + h == n);
        assert(crate::ring::isum_g(h, gl) == u.v() * ai);
        assert(crate::ring::isum_g(h, crate::ring::shifted(h as int, gl)) == r0.v() * bi);
        assert(crate::ring::isum_g(n, gl) == u.v() * ai + r0.v() * bi);
        assert(dot(eq_table(r), lt) == fe(crate::ring::isum_g(n, gl)));
    }
    crate::ring::lemma_mul_r(u, ai);
    crate::ring::lemma_mul_r(r0, bi);
    crate::vectors::lemma_fe_add(u.v() * ai, r0.v() * bi);
}

/// Binding a table in two runs of challenges is binding it in their concatenation.
proof fn lemma_fold_concat(t: Seq<KoalaBear>, a: Seq<KoalaBear>, b: Seq<KoalaBear>)
    ensures
        fold_table(t, a + b) == fold_table(fold_table(t, a), b),
    decreases b.len(),
{
    if b.len() == 0 {
        assert(a + b =~= a);
    } else {
        assert((a + b).drop_last() =~= a + b.drop_last());
        assert((a + b).last() == b.last());
        lemma_fold_concat(t, a, b.drop_last());
    }
}

/// Binding a variable of a repeated table repeats the bound table.
proof fn lemma_compress_repeat(w: Seq<KoalaBear>, f: nat, c: KoalaBear)
    requires
        w.len() > 0,
        w.len() % 2 == 0,
        f > 0,
    ensures
        compress(repeat_seq(w, f), c) == repeat_seq(compress(w, c), f),
{
    let l = w.len() as int;
    let m = l / 2;
    let lhs = compress(repeat_seq(w, f), c);
    let rhs = repeat_seq(compress(w, c), f);
    assert((l * f) / 2 == m * f) by (nonlinear_arith)
        requires
            l == 2 * m,
            m > 0,
    ;
    assert forall|b: int| 0 <= b < m * f implies #[trigger] lhs[b] == rhs[b] by {
        let q = b / m;
        let r = b % m;
        vstd::arithmetic::div_mod::lemma_fundamental_div_mod(b, m);
        vstd::arithmetic::div_mod::lemma_mod_bound(b, m);
        assert(2 * b == q * l + 2 * r) by (nonlinear_arith)
            requires
                b == m * q + r,
                l == 2 * m,
        ;
        vstd::arithmetic::div_mod::lemma_fundamental_div_mod_converse(2 * b, l, q, 2 * r);
        vstd::arithmetic::div_mod::lemma_fundamental_div_mod_converse(2 * b + 1, l, q, 2 * r + 1);
        assert(2 * b + 1 < l * f) by (nonlinear_arith)
            requires
                b < m * f,
                l == 2 * m,
        ;
    }
    assert(lhs =~= rhs);
}

/// Binding the variables of the repeated block repeats the bound block.
proof fn lemma_fold_repeat(w: Seq<KoalaBear>, f: nat, rs: Seq<KoalaBear>, m: nat)
    requires
        m > 0,
        f > 0,
        w.len() == m * pow2(rs.len()),
    ensures
        fold_table(repeat_seq(w, f), rs) == repeat_seq(fold_table(w, rs), f),
    decreases rs.len(),
{
    if rs.len() > 0 {
        vstd::arithmetic::power2::lemma_pow2_unfold(rs.len());
        assert(w.len() == (2 * m) * pow2(rs.drop_last().len())) by (nonlinear_arith)
            requires
                w.len() == m * pow2(rs.len()),
                pow2(rs.len()) == 2 * pow2((rs.len() - 1) as nat),
                rs.drop_last().len() == rs.len() - 1,
        ;
        lemma_fold_repeat(w, f, rs.drop_last(), 2 * m);
        lemma_fold_len(w, rs.drop_last(), 2 * m);
        lemma_compress_repeat(fold_table(w, rs.drop_last()), f, rs.last());
    }
}

/// The repeated word at `(0, ..., 0, rx)` takes the value of the word at `rx`.
pub proof fn lemma_repeat_eval(w: Seq<KoalaBear>, f: nat, zeros: Seq<KoalaBear>, rx: Seq<KoalaBear>)
    requires
        w.len() == pow2(rx.len()),
        rx.len() > 0,
        f == pow2(zeros.len()),
        forall|i: int| 0 <= i < zeros.len() ==> #[trigger] zeros[i] == fe(0),
    ensures
        mle_eval(repeat_seq(w, f), zeros + rx) == mle_eval(w, rx),
{
    vstd::arithmetic::power2::lemma_pow2_pos(zeros.len());
    assert((zeros + rx).reverse() =~= rx.reverse() + zeros.reverse());
    lemma_fold_concat(repeat_seq(w, f), rx.reverse(), zeros.reverse());
    assert(w.len() == 1 * pow2(rx.reverse().len()));
    lemma_fold_repeat(w, f, rx.reverse(), 1);
    lemma_fold_len(w, rx.reverse(), 1);
    let folded = fold_table(w, rx.reverse());
    let v = folded[0];
    assert(v.wf()) by {
        let rs = rx.reverse();
        let p = fold_table(w, rs.drop_last());
        assert(folded == compress(p, rs.last()));
        crate::vectors::lemma_fe_v(p[0].v() + rs.last().spec_mul(p[1].spec_sub(p[0])).v());
    }
    let rep = repeat_seq(folded, f);
    assert forall|i: int| 0 <= i < rep.len() implies #[trigger] rep[i] == v by {
        assert(i % 1 == 0);
    }
    lemma_fold_const(rep, v, zeros.reverse());
    assert(rep.len() == f * pow2(0)) by {
        vstd::arithmetic::power2::lemma2_to64();
    }
    assert(rep.len() == 1 * pow2(zeros.reverse().len()));
    lemma_fold_len(rep, zeros.reverse(), 1);
}

/// A weighted column of the generator matrix as the reduction of an integer sum.
proof fn lemma_weighted_column_int(g: Seq<KoalaBear>, e: Seq<KoalaBear>, c: int, a: int)
    ensures
        weighted_column(g, e, c, a) == fe(crate::ring::isum_g(e.len(), |i: int| e[i].v() * g[i * c + a].v())),
{
    crate::ring::lemma_sum_terms(
        Seq::new(e.len(), |row: int| e[row].spec_mul(g[row * c + a])),
        |i: int| e[i].v() * g[i * c + a].v(),
    );
}

/// The generator matrix contracted with `eq(rl, .)` on its rows and with
/// `eq(yl, .)` on its columns, as an integer double sum.
proof fn lemma_tensor_dot_int(g: Seq<KoalaBear>, rl: Seq<KoalaBear>, yl: Seq<KoalaBear>)
    requires
        g.len() == pow2(rl.len()) * pow2(yl.len()),
    ensures
        dot(g, eq_table(rl + yl)) == fe(
            crate::ring::isum_g(
                pow2(yl.len()),
                |a: int| eq_table(yl)[a].v() * crate::ring::isum_g(
                    pow2(rl.len()),
                    |i: int| eq_table(rl)[i].v() * g[i * pow2(yl.len()) + a].v(),
                ),
            ),
        ),
{
    let rr = pow2(rl.len());
    let c = pow2(yl.len());
    crate::poly::lemma_eq_len(rl);
    crate::poly::lemma_eq_len(yl);
    crate::poly::lemma_eq_len(rl + yl);
    vstd::arithmetic::power2::lemma_pow2_adds(rl.len(), yl.len());
    let er = eq_table(rl);
    let el = eq_table(yl);
    let t = eq_table(rl + yl);
    let gz = |z: int| g[z].v() * (er[z / (c as int)].v() * el[z % (c as int)].v());
    let hd = hadamard(g, t);
    vstd::arithmetic::power2::lemma_pow2_pos(yl.len());
    assert forall|z: int| 0 <= z < hd.len() implies #[trigger] hd[z] == fe(gz(z)) by {
        crate::vectors::lemma_grid_coords(z, c as int, rr as int);
        crate::poly::lemma_eq_tensor(rl, yl, z / (c as int), z % (c as int));
        crate::ring::lemma_mul_r(g[z], er[z / (c as int)].v() * el[z % (c as int)].v());
    }
    crate::ring::lemma_sum_terms(hd, gz);
    crate::ring::lemma_isum_blocks(rr, c, gz);
    let h = |i: int, a: int| el[a].v() * (er[i].v() * g[i * c + a].v());
    assert forall|i: int| 0 <= i < rr implies #[trigger] crate::ring::block_sums(c, gz)(i) == crate::ring::row_sums(c, h)(i)
        by {
        assert forall|a: int| 0 <= a < c implies #[trigger] crate::ring::shifted(i * c, gz)(a) == h(i, a) by {
            crate::vectors::lemma_grid_index(i, a, c as int, rr as int);
            let (x, y, w) = (g[i * c + a].v(), er[i].v(), el[a].v());
            assert(x * (y * w) == w * (y * x)) by (nonlinear_arith);
        }
        crate::ring::lemma_isum_ext(c, crate::ring::shifted(i * c, gz), |a: int| h(i, a));
    }
    crate::ring::lemma_isum_ext(rr, crate::ring::block_sums(c, gz), crate::ring::row_sums(c, h));
    crate::ring::lemma_isum_swap(rr, c, h);
    assert forall|a: int| 0 <= a < c implies #[trigger] crate::ring::col_sums(rr, h)(a) == el[a].v() * crate::ring::isum_g(
        rr,
        |i: int| er[i].v() * g[i * c + a].v(),
    ) by {
        let fa = |i: int| er[i].v() * g[i * c + a].v();
        crate::ring::lemma_isum_scale(rr, el[a].v(), fa);
        crate::ring::lemma_isum_ext(rr, |i: int| h(i, a), |i: int| el[a].v() * fa(i));
    }
    crate::ring::lemma_isum_ext(
        c,
        crate::ring::col_sums(rr, h),
        |a: int| el[a].v() * crate::ring::isum_g(rr, |i: int| er[i].v() * g[i * c + a].v()),
    );
}

/// The left table of the base-code sumcheck at `ry` is the generator matrix
/// contracted with `eq(rl, .)` on its rows and `eq` of the first half of `ry`
/// on its columns.
#[verifier::rlimit(60)]
pub proof fn lemma_left_table_eval(g: Seq<KoalaBear>, rl: Seq<KoalaBear>, ry: Seq<KoalaBear>, hy: nat)
    requires
        ry.len() == 2 * hy,
        all_wf(ry),
        g.len() == pow2(rl.len()) * pow2(hy),
    ensures
        mle_eval(
            Seq::new(pow2(hy) * pow2(hy), |x: int| weighted_column(g, eq_table(rl), pow2(hy) as int, x / (pow2(hy) as int))),
            ry,
        ) == dot(g, eq_table(rl + ry.take(hy as int))),
{
    let c = pow2(hy);
    let ci = c as int;
    let rr = pow2(rl.len());
    let yl = ry.take(hy as int);
    let yr = ry.skip(hy as int);
    let left = Seq::new(c * c, |x: int| weighted_column(g, eq_table(rl), ci, x / ci));
    assert(ry =~= yl + yr);
    vstd::arithmetic::power2::lemma_pow2_adds(hy, hy);
    vstd::arithmetic::power2::lemma_pow2_pos(hy);
    crate::poly::lemma_eq_len(rl);
    crate::poly::lemma_eq_len(yl);
    crate::poly::lemma_eq_len(yr);
    crate::poly::lemma_eq_len(ry);
    let er = eq_table(rl);
    let el = eq_table(yl);
    let eh = eq_table(yr);
    let sa = |a: int| crate::ring::isum_g(rr, |i: int| eq_table(rl)[i].v() * g[i * ci + a].v());
    let wcv = |a: int| weighted_column(g, er, ci, a).v();
    assert forall|a: int| #![trigger weighted_column(g, er, ci, a)] weighted_column(g, er, ci, a) == fe(sa(a)) by {
        lemma_weighted_column_int(g, er, ci, a);
    }
    assert(all_wf(left)) by {
        assert forall|x: int| 0 <= x < left.len() implies #[trigger] left[x].wf() by {
            crate::vectors::lemma_fe_v(sa(x / ci));
        }
    }
    crate::poly::lemma_eq_eval(left, ry);
    let gx = |x: int| el[x / ci].v() * eh[x % ci].v() * wcv(x / ci);
    let hd = hadamard(eq_table(ry), left);
    assert forall|x: int| 0 <= x < hd.len() implies #[trigger] hd[x] == fe(gx(x)) by {
        crate::vectors::lemma_grid_coords(x, ci, ci);
        crate::poly::lemma_eq_tensor(yl, yr, x / ci, x % ci);
        crate::ring::lemma_mul_l(el[x / ci].v() * eh[x % ci].v(), left[x]);
    }
    crate::ring::lemma_sum_terms(hd, gx);
    crate::ring::lemma_isum_blocks(c, c, gx);
    let fer = |b: int| eh[b].v();
    let se = crate::ring::isum_g(c, fer);
    let f1 = |a: int| el[a].v() * wcv(a);
    assert forall|a: int| 0 <= a < c implies #[trigger] crate::ring::block_sums(c, gx)(a) == se * f1(a) by {
        assert forall|b: int| 0 <= b < c implies #[trigger] crate::ring::shifted(a * ci, gx)(b) == f1(a) * fer(b) by {
            crate::vectors::lemma_grid_index(a, b, ci, ci);
            let (p, q, w) = (el[a].v(), eh[b].v(), wcv(a));
            assert(p * q * w == p * w * q) by (nonlinear_arith);
        }
        crate::ring::lemma_isum_ext(c, crate::ring::shifted(a * ci, gx), |b: int| f1(a) * fer(b));
        crate::ring::lemma_isum_scale(c, f1(a), fer);
        vstd::arithmetic::mul::lemma_mul_is_commutative(f1(a), se);
    }
    crate::ring::lemma_isum_ext(c, crate::ring::block_sums(c, gx), |a: int| se * f1(a));
    crate::ring::lemma_isum_scale(c, se, f1);
    let t1 = crate::ring::isum_g(c, f1);
    assert(mle_eval(left, ry) == fe(se * t1));
    // the weights of the second half add up to one
    assert(se % (crate::field::P as int) == 1) by {
        lemma_eq_sum_one(yr);
        assert forall|b: int| 0 <= b < c implies #[trigger] eh[b] == fe(fer(b)) by {
            crate::poly::lemma_eq_wf(yr, b);
            crate::ring::lemma_canon(eh[b]);
        }
        crate::ring::lemma_sum_terms(eh, fer);
        crate::vectors::lemma_fe_v(se);
        crate::vectors::lemma_fe_v(1);
    }
    let k = se / (crate::field::P as int);
    vstd::arithmetic::div_mod::lemma_fundamental_div_mod(se, crate::field::P as int);
    assert(se * t1 - t1 == (k * t1) * (crate::field::P as int)) by (nonlinear_arith)
        requires
            se == (crate::field::P as int) * k + 1,
    ;
    crate::ring::lemma_congruent(se * t1, t1, k * t1);
    // from the weighted columns to their integer sums
    let f2 = |a: int| eq_table(yl)[a].v() * crate::ring::isum_g(rr, |i: int| eq_table(rl)[i].v() * g[i * ci + a].v());
    let l2 = Seq::new(c, |a: int| el[a].spec_mul(weighted_column(g, er, ci, a)));
    crate::ring::lemma_sum_terms(l2, f1);
    assert forall|a: int| 0 <= a < c implies #[trigger] l2[a] == fe(f2(a)) by {
        crate::ring::lemma_mul_r(el[a], sa(a));
    }
    crate::ring::lemma_sum_terms(l2, f2);
    lemma_tensor_dot_int(g, rl, yl);
}

/// The right table of the base-code sumcheck at `ry` is the generator matrix
/// contracted with `eq(rr, .)` on its rows and `eq` of the second half of `ry`
/// on its columns.
#[verifier::rlimit(60)]
pub proof fn lemma_right_table_eval(g: Seq<KoalaBear>, rr: Seq<KoalaBear>, ry: Seq<KoalaBear>, hy: nat)
    requires
        ry.len() == 2 * hy,
        all_wf(ry),
        g.len() == pow2(rr.len()) * pow2(hy),
    ensures
        mle_eval(
            Seq::new(pow2(hy) * pow2(hy), |x: int| weighted_column(g, eq_table(rr), pow2(hy) as int, x % (pow2(hy) as int))),
            ry,
        ) == dot(g, eq_table(rr + ry.skip(hy as int))),
{
    let c = pow2(hy);
    let ci = c as int;
    let rn = pow2(rr.len());
    let yl = ry.take(hy as int);
    let yr = ry.skip(hy as int);
    let right = Seq::new(c * c, |x: int| weighted_column(g, eq_table(rr), ci, x % ci));
    assert(ry =~= yl + yr);
    vstd::arithmetic::power2::lemma_pow2_adds(hy, hy);
    vstd::arithmetic::power2::lemma_pow2_pos(hy);
    crate::poly::lemma_eq_len(rr);
    crate::poly::lemma_eq_len(yl);
    crate::poly::lemma_eq_len(yr);
    crate::poly::lemma_eq_len(ry);
    let er = eq_table(rr);
    let el = eq_table(yl);
    let eh = eq_table(yr);
    let sa = |b: int| crate::ring::isum_g(rn, |i: int| eq_table(rr)[i].v() * g[i * ci + b].v());
    let wcv = |b: int| weighted_column(g, er, ci, b).v();
    assert forall|b: int| #![trigger weighted_column(g, er, ci, b)] weighted_column(g, er, ci, b) == fe(sa(b)) by {
        lemma_weighted_column_int(g, er, ci, b);
    }
    assert(all_wf(right)) by {
        assert forall|x: int| 0 <= x < right.len() implies #[trigger] right[x].wf() by {
            crate::vectors::lemma_fe_v(sa(x % ci));
        }
    }
    crate::poly::lemma_eq_eval(right, ry);
    let gx = |x: int| el[x / ci].v() * eh[x % ci].v() * wcv(x % ci);
    let hd = hadamard(eq_table(ry), right);
    assert forall|x: int| 0 <= x < hd.len() implies #[trigger] hd[x] == fe(gx(x)) by {
        crate::vectors::lemma_grid_coords(x, ci, ci);
        crate::poly::lemma_eq_tensor(yl, yr, x / ci, x % ci);
        crate::ring::lemma_mul_l(el[x / ci].v() * eh[x % ci].v(), right[x]);
    }
    crate::ring::lemma_sum_terms(hd, gx);
    crate::ring::lemma_isum_blocks(c, c, gx);
    let fel = |a: int| el[a].v();
    let sl = crate::ring::isum_g(c, fel);
    let f1 = |b: int| eh[b].v() * wcv(b);
    let t1 = crate::ring::isum_g(c, f1);
    assert forall|a: int| 0 <= a < c implies #[trigger] crate::ring::block_sums(c, gx)(a) == t1 * fel(a) by {
        assert forall|b: int| 0 <= b < c implies #[trigger] crate::ring::shifted(a * ci, gx)(b) == fel(a) * f1(b) by {
            crate::vectors::lemma_grid_index(a, b, ci, ci);
            let (p, q, w) = (el[a].v(), eh[b].v(), wcv(b));
            assert(p * q * w == p * (q * w)) by (nonlinear_arith);
        }
        crate::ring::lemma_isum_ext(c, crate::ring::shifted(a * ci, gx), |b: int| fel(a) * f1(b));
        crate::ring::lemma_isum_scale(c, fel(a), f1);
        vstd::arithmetic::mul::lemma_mul_is_commutative(fel(a), t1);
    }
    crate::ring::lemma_isum_ext(c, crate::ring::block_sums(c, gx), |a: int| t1 * fel(a));
    crate::ring::lemma_isum_scale(c, t1, fel);
    assert(mle_eval(right, ry) == fe(t1 * sl));
    assert(sl % (crate::field::P as int) == 1) by {
        lemma_eq_sum_one(yl);
        assert forall|a: int| 0 <= a < c implies #[trigger] el[a] == fe(fel(a)) by {
            crate::poly::lemma_eq_wf(yl, a);
            crate::ring::lemma_canon(el[a]);
        }
        crate::ring::lemma_sum_terms(el, fel);
        crate::vectors::lemma_fe_v(sl);
        crate::vectors::lemma_fe_v(1);
    }
    let k = sl / (crate::field::P as int);
    vstd::arithmetic::div_mod::lemma_fundamental_div_mod(sl, crate::field::P as int);
    assert(t1 * sl - t1 == (k * t1) * (crate::field::P as int)) by (nonlinear_arith)
        requires
            sl == (crate::field::P as int) * k + 1,
    ;
    crate::ring::lemma_congruent(t1 * sl, t1, k * t1);
    let f2 = |b: int| eq_table(yr)[b].v() * crate::ring::isum_g(rn, |i: int| eq_table(rr)[i].v() * g[i * ci + b].v());
    let l2 = Seq::new(c, |b: int| eh[b].spec_mul(weighted_column(g, er, ci, b)));
    crate::ring::lemma_sum_terms(l2, f1);
    assert forall|b: int| 0 <= b < c implies #[trigger] l2[b] == fe(f2(b)) by {
        crate::ring::lemma_mul_r(eh[b], sa(b));
    }
    crate::ring::lemma_sum_terms(l2, f2);
    lemma_tensor_dot_int(g, rr, yr);
}

/// Chunk `i` of a repeated word is chunk `i mod (|w| / k)` of the word, when
/// `k` divides `|w|`.
proof fn lemma_chunk_of_repeat(w: Seq<KoalaBear>, f: nat, k: nat, i: int)
    requires
        k > 0,
        w.len() % k == 0,
        w.len() > 0,
        0 <= i < (w.len() / k) * f,
    ensures
        chunk(repeat_seq(w, f), k, i) == chunk(w, k, i % ((w.len() / k) as int)),
{
    let m = (w.len() / k) as int;
    let ki = k as int;
    let l = w.len() as int;
    vstd::arithmetic::div_mod::lemma_fundamental_div_mod(l, ki);
    assert(l == m * ki);
    assert(m > 0) by (nonlinear_arith)
        requires
            l == m * ki,
            l > 0,
            ki > 0,
    ;
    let q = i / m;
    let r = i % m;
    vstd::arithmetic::div_mod::lemma_fundamental_div_mod(i, m);
    vstd::arithmetic::div_mod::lemma_mod_bound(i, m);
    assert(i * ki + ki <= l * f) by (nonlinear_arith)
        requires
            i < m * f,
            l == m * ki,
            ki > 0,
    ;
    assert(0 <= r * ki && r * ki + ki <= l) by (nonlinear_arith)
        requires
            0 <= r < m,
            l == m * ki,
            ki > 0,
    ;
    assert((i + 1) * ki - i * ki == ki && (r + 1) * ki - r * ki == ki) by (nonlinear_arith);
    assert(0 <= i * ki) by (nonlinear_arith)
        requires
            0 <= i,
            ki > 0,
    ;
    let lhs = chunk(repeat_seq(w, f), k, i);
    let rhs = chunk(w, k, r);
    assert forall|t: int| 0 <= t < ki implies #[trigger] lhs[t] == rhs[t] by {
        assert(i * ki + t == q * l + (r * ki + t)) by (nonlinear_arith)
            requires
                i == m * q + r,
                l == m * ki,
        ;
        assert(0 <= i * ki + t) by (nonlinear_arith)
            requires
                0 <= i,
                0 <= t,
                ki > 0,
        ;
        vstd::arithmetic::div_mod::lemma_fundamental_div_mod_converse(i * ki + t, l, q, r * ki + t);
        assert(lhs[t] == repeat_seq(w, f)[i * ki + t]);
        assert(repeat_seq(w, f).len() == l * f);
        assert(repeat_seq(w, f)[i * ki + t] == w[(i * ki + t) % l]);
        assert(rhs[t] == w[r * ki + t]);
    }
    assert((i + 1) * ki - i * ki == ki && (r + 1) * ki - r * ki == ki) by (nonlinear_arith);
    assert(lhs =~= rhs);
}

/// Repeating a split encoding of `w` chunk by chunk gives a split encoding of
/// `w` repeated, when the chunk length divides `|w|`.
proof fn lemma_repeat_split<C: ErrorCorrectingCode>(cb: SplitEncoding, rep: SplitEncoding, w: Seq<KoalaBear>, f: nat, code: C)
    requires
        is_split_encoding(cb, w, code),
        views(rep.chunks@) == repeat_seq(views(cb.chunks@), f),
        views(rep.codewords@) == repeat_seq(views(cb.codewords@), f),
        w.len() > 0,
        w.len() % code.spec_message_size() == 0,
        f > 0,
    ensures
        is_split_encoding(rep, repeat_seq(w, f), code),
{
    let kk = code.spec_message_size();
    let kp = kk as int;
    let m = (w.len() / kk) as int;
    let vc = views(cb.chunks@);
    let vw = views(cb.codewords@);
    assert((w.len() as int) == m * kp) by {
        vstd::arithmetic::div_mod::lemma_fundamental_div_mod(w.len() as int, kp);
    }
    assert((w.len() * f) as int / kp == m * f) by {
        assert((w.len() * f) as int == (m * f) * kp) by (nonlinear_arith)
            requires
                (w.len() as int) == m * kp,
        ;
        vstd::arithmetic::div_mod::lemma_div_multiples_vanish((m * f) as int, kp);
    }
    assert(views(rep.chunks@).len() == m * f);
    assert(views(rep.codewords@).len() == m * f);
    assert forall|i: int| 0 <= i < rep.chunks@.len() implies (#[trigger] rep.chunks@[i])@ == chunk(
        repeat_seq(w, f),
        kk,
        i,
    ) by {
        assert(views(rep.chunks@)[i] == rep.chunks@[i]@);
        assert(repeat_seq(vc, f)[i] == vc[i % m]);
        lemma_chunk_of_repeat(w, f, kk, i);
    }
    assert forall|i: int| 0 <= i < rep.codewords@.len() implies (#[trigger] rep.codewords@[i])@ == code.spec_encode(
        rep.chunks@[i]@,
    ) by {
        assert(views(rep.codewords@)[i] == rep.codewords@[i]@);
        assert(views(rep.chunks@)[i] == rep.chunks@[i]@);
        assert(repeat_seq(vw, f)[i] == vw[i % m]);
        assert(repeat_seq(vc, f)[i] == vc[i % m]);
    }
}

/// The value of `w` at `point` and the chunk claims of `<w, eq(point)>`.
pub struct PointClaim {
    pub sigma: KoalaBear,
    pub claims: Vec<SplitIpClaim>,
}

/// Evaluates `w` at `point` and splits the claim `<w, eq(point)> = w(point)`;
/// `None` when the inner product does not give the evaluation.
pub fn point_claim(w: &[KoalaBear], point: &[KoalaBear], k: usize) -> (r: Option<PointClaim>)
    requires
        k > 0,
        w@.len() == pow2(point@.len() as nat),
        w@.len() <= usize::MAX,
        w@.len() % (k as nat) == 0,
    ensures
        r is Some <==> mle_eval(w@, point@) == dot(w@, eq_table(point@)),
        all_wf(w@) && all_wf(point@) ==> r is Some,
        r matches Some(c) ==> {
            &&& c.sigma == mle_eval(w@, point@)
            &&& ip_split_of(c.claims@, w@, eq_table(point@), k as nat)
        },
{
    proof {
        vstd::arithmetic::power2::lemma_pow2_pos(point@.len() as nat);
        if all_wf(w@) && all_wf(point@) {
            lemma_eval_is_dot(w@, point@);
        }
    }
    let sigma = evaluate_multilinear_table(w, point);
    let eq = eq_weights(point);
    match checked_split_ip(w, eq.as_slice(), sigma, k) {
        Some(claims) => Some(PointClaim { sigma, claims }),
        None => None,
    }
}

/// A commitment to a word: its split encoding, an out-of-domain point drawn
/// after it, the word's value there, and the chunk claims of that value.
pub struct OodCommit {
    pub oracles: SplitEncoding,
    pub z: Vec<KoalaBear>,
    pub sigma: KoalaBear,
    pub claims: Vec<SplitIpClaim>,
}

/// What a commitment to `w` under `code` with an out-of-domain point holds.
pub open spec fn ood_commit_ok<C: ErrorCorrectingCode>(c: OodCommit, w: Seq<KoalaBear>, code: C) -> bool {
    &&& is_split_encoding(c.oracles, w, code)
    &&& c.z@.len() == log2(w.len())
    &&& all_wf(c.z@)
    &&& c.sigma == mle_eval(w, c.z@)
    &&& ip_split_of(c.claims@, w, eq_table(c.z@), code.spec_message_size())
}

/// Split-encodes `w`, draws the out-of-domain point from `rng`, evaluates `w`
/// there and splits that claim; `None` when the inner product with the `eq`
/// table does not give the evaluation.
pub fn ood_commit<C: ErrorCorrectingCode>(w: &[KoalaBear], code: &C, rng: &mut rand::rngs::SmallRng) -> (r: Option<
    OodCommit,
>)
    requires
        code.inv(),
        code.spec_message_size() > 0,
        is_pow2(w@.len()),
        w@.len() <= usize::MAX,
        w@.len() % code.spec_message_size() == 0,
    ensures
        all_wf(w@) ==> r is Some,
        r matches Some(c) ==> ood_commit_ok(c, w@, *code),
{
    let oracles = split_and_encode(w, code);
    let dim = crate::codeswitching::sumcheck::permutation::pow2_log(w.len());
    proof {
        crate::codeswitching::sumcheck::permutation::lemma_pow2_log2(w@.len());
    }
    let z = sample_random_point(rng, dim);
    let k = code.message_size();
    match point_claim(w, z.as_slice(), k) {
        Some(p) => Some(OodCommit { oracles, z, sigma: p.sigma, claims: p.claims }),
        None => None,
    }
}

/// `2^d` is a power of two with logarithm `d`.
pub proof fn lemma_pow2_facts(d: nat)
    ensures
        is_pow2(pow2(d)),
        log2(pow2(d)) == d,
        pow2(d) >= 1,
    decreases d,
{
    vstd::arithmetic::power2::lemma_pow2_pos(d);
    if d > 0 {
        lemma_pow2_facts((d - 1) as nat);
        vstd::arithmetic::power2::lemma_pow2_unfold(d);
        vstd::arithmetic::power2::lemma_pow2_pos((d - 1) as nat);
        assert(pow2(d) / 2 == pow2((d - 1) as nat));
        assert(pow2(d) % 2 == 0);
    } else {
        vstd::arithmetic::power2::lemma2_to64();
    }
}

/// The openings of one permutation check: the witness vectors, their
/// commitments, the openings at the fixed point and at `r^perm`, and the two
/// transition sumchecks with their openings at the reversed challenges.
pub struct PermutationCheck {
    pub alpha: KoalaBear,
    pub beta: KoalaBear,
    pub identity_vector: Vec<KoalaBear>,
    pub pi_vector: Vec<KoalaBear>,
    pub a_1: Vec<KoalaBear>,
    pub a_2: Vec<KoalaBear>,
    pub b_1: Vec<KoalaBear>,
    pub b_2: Vec<KoalaBear>,
    pub a_1_ood: OodCommit,
    pub a_2_ood: OodCommit,
    pub b_1_ood: OodCommit,
    pub b_2_ood: OodCommit,
    pub fixed_point: Vec<KoalaBear>,
    pub a_1_fixed: PointClaim,
    pub b_1_fixed: PointClaim,
    pub r_perm: Vec<KoalaBear>,
    pub a_1_at_r: PointClaim,
    pub b_1_at_r: PointClaim,
    pub word_in_at_r: PointClaim,
    pub word_out_at_r: PointClaim,
    pub id_at_r: PointClaim,
    pub pi_at_r: PointClaim,
    pub a_transition: PermutationTransitionSumcheckOutput,
    pub b_transition: PermutationTransitionSumcheckOutput,
    pub r_a: Vec<KoalaBear>,
    pub r_b: Vec<KoalaBear>,
    pub a_2_at_r_a: PointClaim,
    pub b_2_at_r_b: PointClaim,
    pub a_tail: TailClaims,
    pub b_tail: TailClaims,
    pub a_sigma_r_a_0: KoalaBear,
    pub a_sigma_r_a_1: KoalaBear,
    pub b_sigma_r_b_0: KoalaBear,
    pub b_sigma_r_b_1: KoalaBear,
}

/// The openings of the two witness vectors of one side at the tail of the
/// reversed challenges with `0` and `1` appended: `cIJ` opens vector `I` at the
/// tail with `J` appended.
pub struct TailClaims {
    pub c00: PointClaim,
    pub c01: PointClaim,
    pub c10: PointClaim,
    pub c11: PointClaim,
}

/// `(1 - r) lo + r hi`.
pub open spec fn lerp(r: KoalaBear, lo: KoalaBear, hi: KoalaBear) -> KoalaBear {
    fe(1).spec_sub(r).spec_mul(lo).spec_add(r.spec_mul(hi))
}

/// `(1 - r) lo + r hi`.
fn lerp_exec(r: KoalaBear, lo: KoalaBear, hi: KoalaBear) -> (x: KoalaBear)
    ensures
        x == lerp(r, lo, hi),
{
    KoalaBear::one().sub(r).mul(lo).add(r.mul(hi))
}

/// `r^a`'s tail with `bit` appended: the point `(r_2, ..., r_d, bit)`.
pub open spec fn tail_with(r: Seq<KoalaBear>, bit: KoalaBear) -> Seq<KoalaBear> {
    r.skip(1).push(bit)
}

/// The openings and claims of one side (`a` or `b`) of a permutation check
/// after its transition sumcheck: `first`, `second` are the side's two witness
/// vectors, `r_perm` the point of the check, `t` the sumcheck's transcript.
pub open spec fn transition_side_ok(
    first: Seq<KoalaBear>,
    second: Seq<KoalaBear>,
    r_perm: Seq<KoalaBear>,
    t: PermutationTransitionSumcheckOutput,
    r: Seq<KoalaBear>,
    one: PointClaim,
    tail: TailClaims,
    s0: KoalaBear,
    s1: KoalaBear,
    k: nat,
) -> bool {
    let t0 = tail_with(r, fe(0));
    let t1 = tail_with(r, fe(1));
    &&& r == t.randomness@.reverse()
    &&& r.len() == r_perm.len()
    &&& all_wf(r)
    &&& one.sigma == mle_eval(second, r)
    &&& ip_split_of(one.claims@, second, eq_table(r), k)
    &&& tail.c00.sigma == mle_eval(first, t0) && ip_split_of(tail.c00.claims@, first, eq_table(t0), k)
    &&& tail.c01.sigma == mle_eval(first, t1) && ip_split_of(tail.c01.claims@, first, eq_table(t1), k)
    &&& tail.c10.sigma == mle_eval(second, t0) && ip_split_of(tail.c10.claims@, second, eq_table(t0), k)
    &&& tail.c11.sigma == mle_eval(second, t1) && ip_split_of(tail.c11.claims@, second, eq_table(t1), k)
    &&& s0 == lerp(r[0], tail.c00.sigma, tail.c10.sigma)
    &&& s1 == lerp(r[0], tail.c01.sigma, tail.c11.sigma)
    &&& t.eq_value == mle_eval(eq_table(r_perm), r)
    &&& t.eq_value == crate::codeswitching::reduce_ior::eq_eval(r, r_perm)
    &&& t.upper_value == one.sigma
    &&& t.lower_left_value == mle_eval(transition_lower(first, second, 0), r)
    &&& t.lower_right_value == mle_eval(transition_lower(first, second, 1), r)
    &&& t.final_claim == t.eq_value.spec_mul(one.sigma.spec_sub(t.lower_left_value.spec_mul(t.lower_right_value)))
    &&& t.lower_left_value == s0
    &&& t.lower_right_value == s1
    &&& t.final_claim == crate::codeswitching::reduce_ior::eq_eval(r, r_perm).spec_mul(one.sigma.spec_sub(s0.spec_mul(s1)))
}

/// What a permutation check of `word_out = word_in[perm]` holds.
pub open spec fn permutation_check_ok<C: ErrorCorrectingCode>(
    c: PermutationCheck,
    word_in: Seq<KoalaBear>,
    word_out: Seq<KoalaBear>,
    perm: Seq<usize>,
    code: C,
) -> bool {
    let n = word_in.len();
    let k = code.spec_message_size();
    let id = Seq::new(n, |i: int| index_fe(i));
    let pi = Seq::new(n, |i: int| index_fe(perm[i] as int));
    let a1 = Seq::new(n, |i: int| c.alpha.spec_sub(word_in[i].spec_add(c.beta.spec_mul(pi[i]))));
    let b1 = Seq::new(n, |i: int| c.alpha.spec_sub(word_out[i].spec_add(c.beta.spec_mul(id[i]))));
    let dim = log2(n);
    &&& c.alpha.wf() && c.beta.wf()
    &&& c.identity_vector@ == id && c.pi_vector@ == pi
    &&& c.a_1@ == a1 && c.a_2@ == prefix_products(a1)
    &&& c.b_1@ == b1 && c.b_2@ == prefix_products(b1)
    &&& ood_commit_ok(c.a_1_ood, c.a_1@, code) && ood_commit_ok(c.a_2_ood, c.a_2@, code)
    &&& ood_commit_ok(c.b_1_ood, c.b_1@, code) && ood_commit_ok(c.b_2_ood, c.b_2@, code)
    &&& c.fixed_point@ == Seq::new((dim - 2) as nat, |i: int| fe(0)).push(fe(1)).push(fe(0))
    &&& c.a_1_fixed.sigma == mle_eval(c.a_1@, c.fixed_point@)
    &&& ip_split_of(c.a_1_fixed.claims@, c.a_1@, eq_table(c.fixed_point@), k)
    &&& c.b_1_fixed.sigma == mle_eval(c.b_1@, c.fixed_point@)
    &&& ip_split_of(c.b_1_fixed.claims@, c.b_1@, eq_table(c.fixed_point@), k)
    &&& c.r_perm@.len() == dim && all_wf(c.r_perm@)
    &&& c.a_1_at_r.sigma == mle_eval(c.a_1@, c.r_perm@)
    &&& ip_split_of(c.a_1_at_r.claims@, c.a_1@, eq_table(c.r_perm@), k)
    &&& c.b_1_at_r.sigma == mle_eval(c.b_1@, c.r_perm@)
    &&& ip_split_of(c.b_1_at_r.claims@, c.b_1@, eq_table(c.r_perm@), k)
    &&& c.word_in_at_r.sigma == mle_eval(word_in, c.r_perm@)
    &&& ip_split_of(c.word_in_at_r.claims@, word_in, eq_table(c.r_perm@), k)
    &&& c.word_out_at_r.sigma == mle_eval(word_out, c.r_perm@)
    &&& ip_split_of(c.word_out_at_r.claims@, word_out, eq_table(c.r_perm@), k)
    &&& c.id_at_r.sigma == mle_eval(id, c.r_perm@)
    &&& ip_split_of(c.id_at_r.claims@, id, eq_table(c.r_perm@), k)
    &&& c.pi_at_r.sigma == mle_eval(pi, c.r_perm@)
    &&& ip_split_of(c.pi_at_r.claims@, pi, eq_table(c.r_perm@), k)
    &&& c.a_1_at_r.sigma == c.alpha.spec_sub(c.word_in_at_r.sigma.spec_add(c.beta.spec_mul(c.pi_at_r.sigma)))
    &&& c.b_1_at_r.sigma == c.alpha.spec_sub(c.word_out_at_r.sigma.spec_add(c.beta.spec_mul(c.id_at_r.sigma)))
    &&& transition_side_ok(c.a_1@, c.a_2@, c.r_perm@, c.a_transition, c.r_a@, c.a_2_at_r_a, c.a_tail, c.a_sigma_r_a_0, c.a_sigma_r_a_1, k)
    &&& transition_side_ok(c.b_1@, c.b_2@, c.r_perm@, c.b_transition, c.r_b@, c.b_2_at_r_b, c.b_tail, c.b_sigma_r_b_0, c.b_sigma_r_b_1, k)
}

/// The transition sumcheck of one side and its openings.
struct TransitionSide {
    t: PermutationTransitionSumcheckOutput,
    r: Vec<KoalaBear>,
    one: PointClaim,
    tail: TailClaims,
    s0: KoalaBear,
    s1: KoalaBear,
}

/// Runs the transition sumcheck of `(first, second)` against `eq(r_perm)`,
/// opens both vectors at the reversed challenges and their tails, and checks
/// the sumcheck's openings against them; `None` when a check fails.
fn transition_side(
    first: &Vec<KoalaBear>,
    second: &Vec<KoalaBear>,
    r_perm: &Vec<KoalaBear>,
    k: usize,
    rng: &mut rand::rngs::SmallRng,
) -> (r: Option<TransitionSide>)
    requires
        first@.len() == second@.len(),
        first@.len() == pow2(r_perm@.len() as nat),
        r_perm@.len() >= 1,
        first@.len() <= usize::MAX,
        k > 0,
        first@.len() % (k as nat) == 0,
    ensures
        all_wf(first@) && all_wf(second@) ==> r is Some,
        r matches Some(x) ==> transition_side_ok(first@, second@, r_perm@, x.t, x.r@, x.one, x.tail, x.s0, x.s1, k as nat),
{
    let n = first.len();
    proof {
        lemma_pow2_facts(r_perm@.len() as nat);
        vstd::arithmetic::power2::lemma_pow2_strictly_increases(0, r_perm@.len() as nat);
        vstd::arithmetic::power2::lemma2_to64();
    }
    let tables = build_permutation_transition_tables(first.as_slice(), second.as_slice());
    let eq = eq_weights(r_perm.as_slice());
    let mut sc = PermutationTransitionSumcheck::new(tables, eq);
    let t = sc.run_sumcheck_protocol(rng);
    let r = reversed(t.randomness.as_slice());
    let d = r.len();
    let tail = copy_range(r.as_slice(), 1, d);
    let t0 = append_coord(tail.as_slice(), KoalaBear::zero());
    let t1 = append_coord(tail.as_slice(), KoalaBear::one());
    proof {
        assert(tail@ =~= r@.skip(1));
    }
    proof {
        crate::poly::lemma_eq_len(r_perm@);
        assert forall|i: int| 0 <= i < eq_table(r_perm@).len() implies #[trigger] eq_table(r_perm@)[i].wf() by {
            crate::poly::lemma_eq_wf(r_perm@, i);
        }
        assert(r@.reverse() =~= t.randomness@);
        crate::poly::lemma_eq_eval(eq_table(r_perm@), r@);
        lemma_eq_tables_dot(r@, r_perm@);
    }
    let one = point_claim(second.as_slice(), r.as_slice(), k)?;
    let c00 = point_claim(first.as_slice(), t0.as_slice(), k)?;
    let c01 = point_claim(first.as_slice(), t1.as_slice(), k)?;
    let c10 = point_claim(second.as_slice(), t0.as_slice(), k)?;
    let c11 = point_claim(second.as_slice(), t1.as_slice(), k)?;
    let s0 = lerp_exec(r[0], c00.sigma, c10.sigma);
    let s1 = lerp_exec(r[0], c01.sigma, c11.sigma);
    proof {
        if all_wf(first@) && all_wf(second@) {
            lemma_lower_eval(first@, second@, r@, 0);
            lemma_lower_eval(first@, second@, r@, 1);
        }
    }
    if !(t.lower_left_value == s0) || !(t.lower_right_value == s1) {
        return None;
    }
    Some(TransitionSide { t, r, one, tail: TailClaims { c00, c01, c10, c11 }, s0, s1 })
}

/// The permutation check of `word_out = word_in[perm]`: draws `alpha` and
/// `beta`, builds and commits the witness vectors with out-of-domain
/// openings, opens them at the fixed point, draws `r^perm`, opens every vector
/// there and checks the two linear relations, then runs the `a` and `b`
/// transition sumchecks.  `None` when one of the checks fails.
pub fn permutation_check<C: ErrorCorrectingCode>(
    word_in: &Vec<KoalaBear>,
    word_out: &Vec<KoalaBear>,
    perm: &Vec<usize>,
    code: &C,
    rng: &mut rand::rngs::SmallRng,
) -> (r: Option<PermutationCheck>)
    requires
        code.inv(),
        code.spec_message_size() > 0,
        word_in@.len() == word_out@.len(),
        perm@.len() == word_in@.len(),
        is_pow2(word_in@.len()),
        word_in@.len() >= 4,
        word_in@.len() <= usize::MAX,
        word_in@.len() % code.spec_message_size() == 0,
    ensures
        all_wf(word_in@) && all_wf(word_out@) ==> r is Some,
        r matches Some(c) ==> permutation_check_ok(c, word_in@, word_out@, perm@, *code),
{
    let n = word_in.len();
    let k = code.message_size();
    let dim = crate::codeswitching::sumcheck::permutation::pow2_log(n);
    proof {
        crate::codeswitching::sumcheck::permutation::lemma_pow2_log2(n as nat);
        lemma_pow2_facts(dim as nat);
        if dim < 2 {
            vstd::arithmetic::power2::lemma2_to64();
            if dim == 1 {
                assert(pow2(1) == 2);
            } else {
                assert(pow2(0) == 1);
            }
        }
    }
    let alpha = KoalaBear::random(rng);
    let beta = KoalaBear::random(rng);
    let (identity_vector, pi_vector, a_1, a_2, b_1, b_2) = build_first_permute_witness_vectors(
        word_in.as_slice(),
        word_out.as_slice(),
        perm.as_slice(),
        alpha,
        beta,
    );
    let a_1_ood = ood_commit(a_1.as_slice(), code, rng)?;
    let a_2_ood = ood_commit(a_2.as_slice(), code, rng)?;
    let b_1_ood = ood_commit(b_1.as_slice(), code, rng)?;
    let b_2_ood = ood_commit(b_2.as_slice(), code, rng)?;
    let fixed_point = build_first_permute_fixed_point(dim);
    let a_1_fixed = point_claim(a_1.as_slice(), fixed_point.as_slice(), k)?;
    let b_1_fixed = point_claim(b_1.as_slice(), fixed_point.as_slice(), k)?;
    let r_perm = sample_random_point(rng, dim);
    let a_1_at_r = point_claim(a_1.as_slice(), r_perm.as_slice(), k)?;
    let b_1_at_r = point_claim(b_1.as_slice(), r_perm.as_slice(), k)?;
    let word_in_at_r = point_claim(word_in.as_slice(), r_perm.as_slice(), k)?;
    let word_out_at_r = point_claim(word_out.as_slice(), r_perm.as_slice(), k)?;
    let id_at_r = point_claim(identity_vector.as_slice(), r_perm.as_slice(), k)?;
    let pi_at_r = point_claim(pi_vector.as_slice(), r_perm.as_slice(), k)?;
    proof {
        if all_wf(word_in@) && all_wf(word_out@) {
            assert forall|i: int| 0 <= i < n implies #[trigger] pi_vector@[i].wf() && identity_vector@[i].wf() by {
                crate::vectors::lemma_fe_v(perm@[i] as int);
                crate::vectors::lemma_fe_v(i);
            }
            lemma_mle_affine(word_in@, pi_vector@, r_perm@, alpha, beta);
            lemma_mle_affine(word_out@, identity_vector@, r_perm@, alpha, beta);
            assert(a_1@ =~= Seq::new(n as nat, |i: int| alpha.spec_sub(word_in@[i].spec_add(beta.spec_mul(pi_vector@[i])))));
            assert(b_1@ =~= Seq::new(n as nat, |i: int| alpha.spec_sub(word_out@[i].spec_add(beta.spec_mul(identity_vector@[i])))));
        }
    }
    if !(a_1_at_r.sigma == alpha.sub(word_in_at_r.sigma.add(beta.mul(pi_at_r.sigma)))) || !(b_1_at_r.sigma == alpha.sub(
        word_out_at_r.sigma.add(beta.mul(id_at_r.sigma)),
    )) {
        return None;
    }
    let a = transition_side(&a_1, &a_2, &r_perm, k, rng)?;
    let b = transition_side(&b_1, &b_2, &r_perm, k, rng)?;
    Some(
        PermutationCheck {
            alpha,
            beta,
            identity_vector,
            pi_vector,
            a_1,
            a_2,
            b_1,
            b_2,
            a_1_ood,
            a_2_ood,
            b_1_ood,
            b_2_ood,
            fixed_point,
            a_1_fixed,
            b_1_fixed,
            r_perm,
            a_1_at_r,
            b_1_at_r,
            word_in_at_r,
            word_out_at_r,
            id_at_r,
            pi_at_r,
            a_transition: a.t,
            b_transition: b.t,
            r_a: a.r,
            r_b: b.r,
            a_2_at_r_a: a.one,
            b_2_at_r_b: b.one,
            a_tail: a.tail,
            b_tail: b.tail,
            a_sigma_r_a_0: a.s0,
            a_sigma_r_a_1: a.s1,
            b_sigma_r_b_0: b.s0,
            b_sigma_r_b_1: b.s1,
        },
    )
}

/// One multiply and accumulate round of the claims generator.
pub struct MultAcc {
    pub word_mult: Vec<KoalaBear>,
    pub mult: OodCommit,
    pub r_mult_challenge: KoalaBear,
    pub r_mult: Vec<KoalaBear>,
    pub sigma_mult: KoalaBear,
    pub tip_claims: Vec<SplitTipClaim>,
    pub mult_r_claims: Vec<SplitIpClaim>,
    pub word_acc: Vec<KoalaBear>,
    pub acc: OodCommit,
    pub r_acc: Vec<KoalaBear>,
    pub acc_row: Vec<KoalaBear>,
    pub sigma_acc: KoalaBear,
    pub acc_mult_claims: Vec<SplitIpClaim>,
    pub acc_r_claims: Vec<SplitIpClaim>,
}

/// What a multiply and accumulate round on `word_perm` with `multiplier` holds.
pub open spec fn mult_acc_ok<C: ErrorCorrectingCode>(
    m: MultAcc,
    word_perm: Seq<KoalaBear>,
    multiplier: Seq<KoalaBear>,
    code: C,
) -> bool {
    let n = word_perm.len();
    let k = code.spec_message_size();
    &&& m.word_mult@ == hadamard(word_perm, multiplier)
    &&& ood_commit_ok(m.mult, m.word_mult@, code)
    &&& m.r_mult_challenge.wf()
    &&& m.r_mult@ == Seq::new(n, |i: int| fpow(m.r_mult_challenge, i as nat))
    &&& m.sigma_mult == triple_dot(word_perm, multiplier, m.r_mult@)
    &&& m.sigma_mult == dot(m.word_mult@, m.r_mult@)
    &&& tip_split_of(m.tip_claims@, word_perm, multiplier, m.r_mult@, k)
    &&& ip_split_of(m.mult_r_claims@, m.word_mult@, m.r_mult@, k)
    &&& m.word_acc@ == prefix_sums(m.word_mult@)
    &&& ood_commit_ok(m.acc, m.word_acc@, code)
    &&& m.r_acc@.len() == log2(n) && all_wf(m.r_acc@)
    &&& m.acc_row@ == Seq::new(eq_table(m.r_acc@).len(), |i: int| suffix_sum(eq_table(m.r_acc@), i))
    &&& m.sigma_acc == mle_eval(m.word_acc@, m.r_acc@)
    &&& m.sigma_acc == dot(m.word_mult@, m.acc_row@)
    &&& ip_split_of(m.acc_mult_claims@, m.word_mult@, m.acc_row@, k)
    &&& ip_split_of(m.acc_r_claims@, m.word_acc@, eq_table(m.r_acc@), k)
}

/// Multiplies `word_perm` by `multiplier`, commits the product, reduces it to
/// a triple-product claim at the geometric vector of a drawn challenge, then
/// accumulates, commits the running sums and reduces them at a drawn point
/// through the row of the accumulate map.  `None` when a claim is false.
pub fn mult_acc<C: ErrorCorrectingCode>(
    word_perm: &Vec<KoalaBear>,
    multiplier: &Vec<KoalaBear>,
    code: &C,
    rng: &mut rand::rngs::SmallRng,
) -> (r: Option<MultAcc>)
    requires
        code.inv(),
        code.spec_message_size() > 0,
        word_perm@.len() == multiplier@.len(),
        is_pow2(word_perm@.len()),
        word_perm@.len() <= usize::MAX,
        word_perm@.len() % code.spec_message_size() == 0,
    ensures
        r is Some,
        r matches Some(m) ==> mult_acc_ok(m, word_perm@, multiplier@, *code),
{
    let n = word_perm.len();
    let k = code.message_size();
    let dim = crate::codeswitching::sumcheck::permutation::pow2_log(n);
    proof {
        crate::codeswitching::sumcheck::permutation::lemma_pow2_log2(n as nat);
        lemma_pow2_facts(dim as nat);
    }
    let word_mult = hadamard_product(word_perm.as_slice(), multiplier.as_slice());
    let mult = ood_commit(word_mult.as_slice(), code, rng)?;
    let r_mult_challenge = KoalaBear::random(rng);
    let r_mult = geometric_power_vector(r_mult_challenge, n);
    let sigma_mult = triple_product(word_perm.as_slice(), multiplier.as_slice(), r_mult.as_slice());
    let tip_claims = checked_split_tip(word_perm.as_slice(), multiplier.as_slice(), r_mult.as_slice(), sigma_mult, k)?;
    let mult_r_claims = checked_split_ip(word_mult.as_slice(), r_mult.as_slice(), sigma_mult, k)?;
    let word_acc = prefix_sums_vec(word_mult.as_slice());
    let acc = ood_commit(word_acc.as_slice(), code, rng)?;
    let r_acc = sample_random_point(rng, dim);
    let acc_row = prefix_sum_accumulate_row_at_point(r_acc.as_slice());
    proof {
        crate::poly::lemma_eq_len(r_acc@);
    }
    let acc_r = point_claim(word_acc.as_slice(), r_acc.as_slice(), k)?;
    let sigma_acc = acc_r.sigma;
    let acc_mult_sigma = inner_product(word_mult.as_slice(), acc_row.as_slice());
    proof {
        assert forall|i: int| 0 <= i < word_mult@.len() implies #[trigger] word_mult@[i].wf() by {
            crate::vectors::lemma_fe_v(word_perm@[i].v() * multiplier@[i].v());
        }
        assert forall|i: int| 0 <= i < word_acc@.len() implies #[trigger] word_acc@[i].wf() by {
            crate::vectors::lemma_sum_fe(word_mult@.take(i + 1));
        }
        lemma_eval_is_dot(word_acc@, r_acc@);
        lemma_accumulate_row(word_mult@, eq_table(r_acc@));
        assert(acc_row@ =~= Seq::new(eq_table(r_acc@).len(), |j: int| suffix_sum(eq_table(r_acc@), j)));
    }
    let acc_mult_claims = split_claim_ip(word_mult.as_slice(), acc_row.as_slice(), acc_mult_sigma, k);
    Some(
        MultAcc {
            word_mult,
            mult,
            r_mult_challenge,
            r_mult,
            sigma_mult,
            tip_claims,
            mult_r_claims,
            word_acc,
            acc,
            r_acc,
            acc_row,
            sigma_acc,
            acc_mult_claims,
            acc_r_claims: acc_r.claims,
        },
    )
}

/// The codeswitch vector: `beta^alpha` at every spot-checked position
/// `alpha`, zero elsewhere.
pub open spec fn codeswitch_vector(spots: Seq<CodeswitchSpotcheck>, beta: KoalaBear, n: nat) -> Seq<KoalaBear> {
    Seq::new(
        n,
        |i: int|
            if exists|j: int| 0 <= j < spots.len() && spots[j].alpha == i {
                fpow(beta, i as nat)
            } else {
                fe(0)
            },
    )
}

/// The aggregated spot-check value `sum_j beta^alpha_j sigma_j`.
pub open spec fn codeswitch_sigma(spots: Seq<CodeswitchSpotcheck>, beta: KoalaBear) -> KoalaBear {
    sum(Seq::new(spots.len(), |j: int| fpow(beta, spots[j].alpha as nat).spec_mul(spots[j].sigma_cs)))
}

/// The codeswitch vector of length `n` and the aggregated spot-check value.
pub fn build_codeswitch_vector(spots: &Vec<CodeswitchSpotcheck>, beta: KoalaBear, n: usize) -> (r: (
    Vec<KoalaBear>,
    KoalaBear,
))
    requires
        forall|j: int| 0 <= j < spots@.len() ==> (#[trigger] spots@[j]).alpha < n,
    ensures
        r.0@ == codeswitch_vector(spots@, beta, n as nat),
        r.1 == codeswitch_sigma(spots@, beta),
{
    let mut v = crate::codes::era::zeros(n);
    let mut j: usize = 0;
    while j < spots.len()
        invariant
            forall|t: int| 0 <= t < spots@.len() ==> (#[trigger] spots@[t]).alpha < n,
            j <= spots@.len(),
            v@.len() == n,
            forall|i: int|
                0 <= i < n ==> #[trigger] v@[i] == (if exists|t: int| 0 <= t < j && spots@[t].alpha == i {
                    fpow(beta, i as nat)
                } else {
                    fe(0)
                }),
        decreases spots@.len() - j,
    {
        let a = spots[j].alpha;
        let p = pow_field(beta, a);
        v.set(a, p);
        proof {
            assert forall|i: int| 0 <= i < n implies #[trigger] v@[i] == (if exists|t: int|
                0 <= t < j + 1 && spots@[t].alpha == i {
                fpow(beta, i as nat)
            } else {
                fe(0)
            }) by {
                if i == a {
                    assert(spots@[j as int].alpha == i);
                } else {
                    if exists|t: int| 0 <= t < j + 1 && spots@[t].alpha == i {
                        let t = choose|t: int| 0 <= t < j + 1 && spots@[t].alpha == i;
                        assert(t != j);
                    }
                }
            }
        }
        j += 1;
    }
    assert(v@ =~= codeswitch_vector(spots@, beta, n as nat));
    let ghost terms = Seq::new(spots@.len(), |j: int| fpow(beta, spots@[j].alpha as nat).spec_mul(spots@[j].sigma_cs));
    let mut acc = KoalaBear::zero();
    let mut j: usize = 0;
    while j < spots.len()
        invariant
            j <= spots@.len(),
            terms == Seq::new(spots@.len(), |j: int| fpow(beta, spots@[j].alpha as nat).spec_mul(spots@[j].sigma_cs)),
            acc == sum(terms.take(j as int)),
        decreases spots@.len() - j,
    {
        proof {
            crate::vectors::lemma_sum_take_step(terms, j as int);
        }
        let p = pow_field(beta, spots[j].alpha);
        acc = acc.add(p.mul(spots[j].sigma_cs));
        j += 1;
    }
    assert(terms.take(j as int) =~= terms);
    (v, acc)
}

/// The spot checks name pairwise distinct positions.
pub open spec fn distinct_alphas(spots: Seq<CodeswitchSpotcheck>) -> bool {
    forall|i: int, j: int| 0 <= i < j < spots.len() ==> spots[i].alpha != spots[j].alpha
}

/// Every spot check reads its position of `w` correctly.
pub open spec fn spots_consistent(spots: Seq<CodeswitchSpotcheck>, w: Seq<KoalaBear>) -> bool {
    &&& distinct_alphas(spots)
    &&& forall|j: int| 0 <= j < spots.len() ==> (#[trigger] spots[j]).sigma_cs == w[spots[j].alpha as int]
}

/// Changing one term of an integer sum changes the sum by the same amount.
proof fn lemma_isum_bump(n: nat, f0: spec_fn(int) -> int, f1: spec_fn(int) -> int, a: int, d: int)
    requires
        0 <= a < n,
        forall|i: int| 0 <= i < n ==> #[trigger] f1(i) == f0(i) + (if i == a { d } else { 0 }),
    ensures
        crate::ring::isum_g(n, f1) == crate::ring::isum_g(n, f0) + d,
    decreases n,
{
    if n > 0 {
        if a < n - 1 {
            lemma_isum_bump((n - 1) as nat, f0, f1, a, d);
        } else {
            crate::ring::lemma_isum_ext((n - 1) as nat, f0, f1);
        }
    }
}

/// The integer terms of the inner product of `w` with the codeswitch vector
/// of the first `m` spot checks.
spec fn spot_terms(spots: Seq<CodeswitchSpotcheck>, beta: KoalaBear, w: Seq<KoalaBear>, m: int) -> spec_fn(int) -> int {
    |i: int|
        if exists|j: int| 0 <= j < m && spots[j].alpha == i {
            w[i].v() * fpow(beta, i as nat).v()
        } else {
            0
        }
}

proof fn lemma_spot_terms(spots: Seq<CodeswitchSpotcheck>, beta: KoalaBear, w: Seq<KoalaBear>, m: int)
    requires
        0 <= m <= spots.len(),
        distinct_alphas(spots),
        forall|j: int| 0 <= j < spots.len() ==> (#[trigger] spots[j]).alpha < w.len(),
    ensures
        crate::ring::isum_g(w.len(), spot_terms(spots, beta, w, m)) == crate::ring::isum_g(
            m as nat,
            |j: int| w[spots[j].alpha as int].v() * fpow(beta, spots[j].alpha as nat).v(),
        ),
    decreases m,
{
    let h = |j: int| w[spots[j].alpha as int].v() * fpow(beta, spots[j].alpha as nat).v();
    if m == 0 {
        crate::ring::lemma_isum_ext(w.len(), spot_terms(spots, beta, w, 0), |i: int| 0int);
        crate::ring::lemma_isum_zero(w.len());
    } else {
        lemma_spot_terms(spots, beta, w, m - 1);
        let a = spots[m - 1].alpha as int;
        assert forall|i: int| 0 <= i < w.len() implies #[trigger] spot_terms(spots, beta, w, m)(i) == spot_terms(
            spots,
            beta,
            w,
            m - 1,
        )(i) + (if i == a { h(m - 1) } else { 0 }) by {
            if i == a {
                assert(spots[m - 1].alpha == i);
                if exists|j: int| 0 <= j < m - 1 && spots[j].alpha == i {
                    let j = choose|j: int| 0 <= j < m - 1 && spots[j].alpha == i;
                    assert(spots[j].alpha != spots[m - 1].alpha);
                }
            } else {
                if exists|j: int| 0 <= j < m && spots[j].alpha == i {
                    let j = choose|j: int| 0 <= j < m && spots[j].alpha == i;
                    assert(j != m - 1);
                }
            }
        }
        lemma_isum_bump(w.len(), spot_terms(spots, beta, w, m - 1), spot_terms(spots, beta, w, m), a, h(m - 1));
    }
}

/// When the spot checks read `w` correctly, the inner product of `w` with the
/// codeswitch vector is the aggregated spot-check value.
pub proof fn lemma_codeswitch_sigma(spots: Seq<CodeswitchSpotcheck>, beta: KoalaBear, w: Seq<KoalaBear>)
    requires
        spots_consistent(spots, w),
        forall|j: int| 0 <= j < spots.len() ==> (#[trigger] spots[j]).alpha < w.len(),
    ensures
        dot(w, codeswitch_vector(spots, beta, w.len())) == codeswitch_sigma(spots, beta),
{
    let v = codeswitch_vector(spots, beta, w.len());
    let m = spots.len() as int;
    let g = spot_terms(spots, beta, w, m);
    assert forall|i: int| 0 <= i < w.len() implies #[trigger] hadamard(w, v)[i] == fe(g(i)) by {
        if !(exists|j: int| 0 <= j < m && spots[j].alpha == i) {
            crate::vectors::lemma_fe_v(0);
            assert(w[i].v() * 0 == 0);
        }
    }
    crate::ring::lemma_sum_terms(hadamard(w, v), g);
    lemma_spot_terms(spots, beta, w, m);
    let h = |j: int| w[spots[j].alpha as int].v() * fpow(beta, spots[j].alpha as nat).v();
    let terms = Seq::new(spots.len(), |j: int| fpow(beta, spots[j].alpha as nat).spec_mul(spots[j].sigma_cs));
    assert forall|j: int| 0 <= j < terms.len() implies #[trigger] terms[j] == fe(h(j)) by {
        assert(spots[j].sigma_cs == w[spots[j].alpha as int]);
        vstd::arithmetic::mul::lemma_mul_is_commutative(
            w[spots[j].alpha as int].v(),
            fpow(beta, spots[j].alpha as nat).v(),
        );
    }
    crate::ring::lemma_sum_terms(terms, h);
}

/// Folding two tables of one length gives tables of one length.
pub proof fn lemma_fold_same_len(a: Seq<KoalaBear>, b: Seq<KoalaBear>, rs: Seq<KoalaBear>)
    requires
        a.len() == b.len(),
    ensures
        fold_table(a, rs).len() == fold_table(b, rs).len(),
    decreases rs.len(),
{
    if rs.len() > 0 {
        lemma_fold_same_len(a, b, rs.drop_last());
    }
}

/// The left table of the base-code sumcheck: entry `x` of the `c x c` grid
/// (`c = sqrt(k)`) is the column `x / c` of the generator matrix weighted by
/// `eq` of the first half of `rx`.
pub open spec fn base_left_table(g: Seq<KoalaBear>, rx: Seq<KoalaBear>, k: nat) -> Seq<KoalaBear> {
    let c = pow2(log2(k) / 2) as int;
    Seq::new((c * c) as nat, |x: int| weighted_column(g, eq_table(rx.take((rx.len() / 2) as int)), c, x / c))
}

/// The right table of the base-code sumcheck: entry `x` is the column `x mod c`
/// of the generator matrix weighted by `eq` of the second half of `rx`.
pub open spec fn base_right_table(g: Seq<KoalaBear>, rx: Seq<KoalaBear>, k: nat) -> Seq<KoalaBear> {
    let c = pow2(log2(k) / 2) as int;
    Seq::new((c * c) as nat, |x: int| weighted_column(g, eq_table(rx.skip((rx.len() / 2) as int)), c, x % c))
}

/// The value at `rx` of the multilinear extension of the message encoded by
/// the tensor square of the generator matrix, as the base-code sumcheck
/// factors it: the triple product of the two weighted tables and the message.
pub open spec fn tensor_encoding_at(g: Seq<KoalaBear>, msg: Seq<KoalaBear>, rx: Seq<KoalaBear>) -> KoalaBear {
    triple_dot(base_left_table(g, rx, msg.len()), base_right_table(g, rx, msg.len()), msg)
}

/// The ERA chain on a base codeword: repeat it `factor` times, gather by
/// `p1`, multiply by `m1`, accumulate, gather by `p2`, multiply by `m2` and
/// accumulate.
pub open spec fn era_chain(
    base_word: Seq<KoalaBear>,
    factor: nat,
    p1: Seq<usize>,
    m1: Seq<KoalaBear>,
    p2: Seq<usize>,
    m2: Seq<KoalaBear>,
) -> Seq<KoalaBear> {
    prefix_sums(hadamard(gather(prefix_sums(hadamard(gather(repeat_seq(base_word, factor), p1), m1)), p2), m2))
}

/// The inputs on which every consistency check of the claims generator holds:
/// the message and the base codeword are canonical, the spot checks read the
/// ERA codeword at distinct positions, the tensor square of the generator
/// matrix encodes the message to the base codeword (their multilinear
/// extensions agree at every canonical point), and the ERA codeword is the
/// ERA chain of the base codeword with the given permutations and
/// multipliers.
#[verifier::opaque]
pub open spec fn generator_input_consistent<CE: ErrorCorrectingCode, CB: ErrorCorrectingCode>(
    input: CodeswitchClaimsInput,
    era_code: CE,
    base_code: CB,
) -> bool {
    let msg = input.msg@;
    let word_b = base_code.spec_encode(msg);
    let word_era = era_code.spec_encode(msg);
    let factor = era_code.spec_block_length() / base_code.spec_block_length();
    &&& all_wf(msg)
    &&& all_wf(word_b)
    &&& spots_consistent(input.spotchecks@, word_era)
    &&& forall|rx: Seq<KoalaBear>|
        rx.len() == log2(word_b.len()) && all_wf(rx) ==> #[trigger] tensor_encoding_at(
            input.base_code_prime_generator_matrix@,
            msg,
            rx,
        ) == mle_eval(word_b, rx)
    &&& word_era == era_chain(
        word_b,
        factor,
        input.permutation_1@,
        input.multiplier_1@,
        input.permutation_2@,
        input.multiplier_2@,
    )
}

/// What consistent generator inputs give, one fact at a time.
proof fn lemma_consistent_facts<CE: ErrorCorrectingCode, CB: ErrorCorrectingCode>(
    input: CodeswitchClaimsInput,
    era_code: CE,
    base_code: CB,
)
    requires
        generator_input_consistent(input, era_code, base_code),
    ensures
        all_wf(input.msg@),
        all_wf(base_code.spec_encode(input.msg@)),
        spots_consistent(input.spotchecks@, era_code.spec_encode(input.msg@)),
        era_code.spec_encode(input.msg@) == era_chain(
            base_code.spec_encode(input.msg@),
            era_code.spec_block_length() / base_code.spec_block_length(),
            input.permutation_1@,
            input.multiplier_1@,
            input.permutation_2@,
            input.multiplier_2@,
        ),
{
    reveal(generator_input_consistent);
}

/// Under consistent generator inputs the base-code sumcheck claim holds at
/// every canonical point.
proof fn lemma_consistent_base_claim<CE: ErrorCorrectingCode, CB: ErrorCorrectingCode>(
    input: CodeswitchClaimsInput,
    era_code: CE,
    base_code: CB,
    rx: Seq<KoalaBear>,
)
    requires
        generator_input_consistent(input, era_code, base_code),
        rx.len() == log2(base_code.spec_encode(input.msg@).len()),
        all_wf(rx),
    ensures
        tensor_encoding_at(input.base_code_prime_generator_matrix@, input.msg@, rx) == mle_eval(
            base_code.spec_encode(input.msg@),
            rx,
        ),
{
    reveal(generator_input_consistent);
}

/// The shapes the claims generator works on: the codes are well formed, the
/// message fits both the ERA code and the base code, the block lengths and the
/// message length are powers of two that the output code's message size
/// divides (with an even number of variables for the base code and the
/// message), the ERA block length is a multiple of the base block length, the
/// generator matrix has `sqrt(n_base) sqrt(k)` entries, every spot check lies
/// inside the ERA codeword, both permutations permute the ERA positions, and
/// both multiply vectors have the ERA block length.
pub open spec fn generator_input_ok<CE: ErrorCorrectingCode, CB: ErrorCorrectingCode, CO: ErrorCorrectingCode>(
    input: CodeswitchClaimsInput,
    era_code: CE,
    base_code: CB,
    output_code: CO,
) -> bool {
    let k = input.msg@.len();
    let n = era_code.spec_block_length();
    let nb = base_code.spec_block_length();
    let kp = output_code.spec_message_size();
    let g = pow2(log2(nb) / 2) * pow2(log2(k) / 2);
    &&& era_code.inv() && base_code.inv() && output_code.inv()
    &&& kp > 0
    &&& k == era_code.spec_message_size() && k == base_code.spec_message_size()
    &&& is_pow2(n) && n >= 4 && n <= usize::MAX && n % kp == 0
    &&& is_pow2(nb) && nb >= 2 && log2(nb) % 2 == 0 && log2(nb) < 64 && nb <= n && n % nb == 0 && nb % kp == 0
    &&& is_pow2(k) && log2(k) % 2 == 0 && log2(k) < 64 && k % kp == 0
    &&& input.base_code_prime_generator_matrix@.len() == g && g <= usize::MAX && g % kp == 0
    &&& forall|j: int| 0 <= j < input.spotchecks@.len() ==> (#[trigger] input.spotchecks@[j]).alpha < n
    &&& is_permutation(input.permutation_1@, n) && is_permutation(input.permutation_2@, n)
    &&& input.multiplier_1@.len() == n && input.multiplier_2@.len() == n
}

/// What the output of the claims generator holds for the first permutation
/// check, of `word_perm = word_rep[permutation_1]`.
pub open spec fn first_permutation_ok<C: ErrorCorrectingCode>(o: CodeswitchClaimsOutput, perm: Seq<usize>, code: C) -> bool {
    let w_in = o.word_rep@;
    let w_out = o.word_perm@;
    let n = w_in.len();
    let k = code.spec_message_size();
    let (alpha, beta) = (o.permutation_alpha, o.permutation_beta);
    let id = Seq::new(n, |i: int| index_fe(i));
    let pi = Seq::new(n, |i: int| index_fe(perm[i] as int));
    let a1 = Seq::new(n, |i: int| alpha.spec_sub(w_in[i].spec_add(beta.spec_mul(pi[i]))));
    let b1 = Seq::new(n, |i: int| alpha.spec_sub(w_out[i].spec_add(beta.spec_mul(id[i]))));
    let r = o.permutation_r_perm@;
    let ra = o.permutation_r_a@;
    let rb = o.permutation_r_b@;
    let ta = o.permutation_a_sigma_i_r_a_tail_j;
    let tb = o.permutation_b_sigma_i_r_b_tail_j;
    &&& alpha.wf() && beta.wf()
    &&& o.permutation_identity_vector@ == id && o.permutation_pi_1_vector@ == pi
    &&& o.permutation_a_1@ == a1 && o.permutation_a_2@ == prefix_products(a1)
    &&& o.permutation_b_1@ == b1 && o.permutation_b_2@ == prefix_products(b1)
    &&& ood_commit_ok(OodCommit { oracles: o.permutation_a_1_oracles, z: o.permutation_a_1_z_ood, sigma: o.permutation_a_1_sigma_ood, claims: o.permutation_a_1_ood_ip_claims }, a1, code)
    &&& ood_commit_ok(OodCommit { oracles: o.permutation_a_2_oracles, z: o.permutation_a_2_z_ood, sigma: o.permutation_a_2_sigma_ood, claims: o.permutation_a_2_ood_ip_claims }, prefix_products(a1), code)
    &&& ood_commit_ok(OodCommit { oracles: o.permutation_b_1_oracles, z: o.permutation_b_1_z_ood, sigma: o.permutation_b_1_sigma_ood, claims: o.permutation_b_1_ood_ip_claims }, b1, code)
    &&& ood_commit_ok(OodCommit { oracles: o.permutation_b_2_oracles, z: o.permutation_b_2_z_ood, sigma: o.permutation_b_2_sigma_ood, claims: o.permutation_b_2_ood_ip_claims }, prefix_products(b1), code)
    &&& o.permutation_a_1_sigma_fixed == mle_eval(a1, o.permutation_fixed_point@)
    &&& ip_split_of(o.permutation_a_1_fixed_ip_claims@, a1, eq_table(o.permutation_fixed_point@), k)
    &&& o.permutation_b_1_sigma_fixed == mle_eval(b1, o.permutation_fixed_point@)
    &&& ip_split_of(o.permutation_b_1_fixed_ip_claims@, b1, eq_table(o.permutation_fixed_point@), k)
    &&& r.len() == log2(n) && all_wf(r)
    &&& o.permutation_sigma_a_at_r_perm == mle_eval(a1, r)
    &&& o.permutation_sigma_b_at_r_perm == mle_eval(b1, r)
    &&& o.permutation_sigma_word_rep_at_r_perm == mle_eval(w_in, r)
    &&& o.permutation_sigma_word_perm_at_r_perm == mle_eval(w_out, r)
    &&& o.permutation_sigma_id_at_r_perm == mle_eval(id, r)
    &&& o.permutation_sigma_pi_1_at_r_perm == mle_eval(pi, r)
    &&& ip_split_of(o.permutation_a_1_r_perm_ip_claims@, a1, eq_table(r), k)
    &&& ip_split_of(o.permutation_b_1_r_perm_ip_claims@, b1, eq_table(r), k)
    &&& ip_split_of(o.permutation_word_rep_r_perm_ip_claims@, w_in, eq_table(r), k)
    &&& ip_split_of(o.permutation_word_perm_r_perm_ip_claims@, w_out, eq_table(r), k)
    &&& ip_split_of(o.permutation_identity_r_perm_ip_claims@, id, eq_table(r), k)
    &&& ip_split_of(o.permutation_pi_1_r_perm_ip_claims@, pi, eq_table(r), k)
    &&& o.permutation_sigma_a_at_r_perm == alpha.spec_sub(o.permutation_sigma_word_rep_at_r_perm.spec_add(beta.spec_mul(o.permutation_sigma_pi_1_at_r_perm)))
    &&& o.permutation_sigma_b_at_r_perm == alpha.spec_sub(o.permutation_sigma_word_perm_at_r_perm.spec_add(beta.spec_mul(o.permutation_sigma_id_at_r_perm)))
    &&& ra == o.permutation_a_transition_sumcheck_challenges@.reverse() && ra.len() == r.len() && all_wf(ra)
    &&& rb == o.permutation_b_transition_sumcheck_challenges@.reverse() && rb.len() == r.len() && all_wf(rb)
    &&& o.permutation_a_sigma_one_at_r_a == mle_eval(prefix_products(a1), ra)
    &&& o.permutation_b_sigma_one_at_r_b == mle_eval(prefix_products(b1), rb)
    &&& ip_split_of(o.permutation_a_2_r_a_ip_claims@, prefix_products(a1), eq_table(ra), k)
    &&& ip_split_of(o.permutation_b_2_r_b_ip_claims@, prefix_products(b1), eq_table(rb), k)
    &&& ta[0][0] == mle_eval(a1, tail_with(ra, fe(0))) && ta[0][1] == mle_eval(a1, tail_with(ra, fe(1)))
    &&& ta[1][0] == mle_eval(prefix_products(a1), tail_with(ra, fe(0))) && ta[1][1] == mle_eval(prefix_products(a1), tail_with(ra, fe(1)))
    &&& tb[0][0] == mle_eval(b1, tail_with(rb, fe(0))) && tb[0][1] == mle_eval(b1, tail_with(rb, fe(1)))
    &&& tb[1][0] == mle_eval(prefix_products(b1), tail_with(rb, fe(0))) && tb[1][1] == mle_eval(prefix_products(b1), tail_with(rb, fe(1)))
    &&& ip_split_of(o.permutation_a_r_a_tail_ip_claims[0][0]@, a1, eq_table(tail_with(ra, fe(0))), k)
    &&& ip_split_of(o.permutation_a_r_a_tail_ip_claims[0][1]@, a1, eq_table(tail_with(ra, fe(1))), k)
    &&& ip_split_of(o.permutation_a_r_a_tail_ip_claims[1][0]@, prefix_products(a1), eq_table(tail_with(ra, fe(0))), k)
    &&& ip_split_of(o.permutation_a_r_a_tail_ip_claims[1][1]@, prefix_products(a1), eq_table(tail_with(ra, fe(1))), k)
    &&& ip_split_of(o.permutation_b_r_b_tail_ip_claims[0][0]@, b1, eq_table(tail_with(rb, fe(0))), k)
    &&& ip_split_of(o.permutation_b_r_b_tail_ip_claims[0][1]@, b1, eq_table(tail_with(rb, fe(1))), k)
    &&& ip_split_of(o.permutation_b_r_b_tail_ip_claims[1][0]@, prefix_products(b1), eq_table(tail_with(rb, fe(0))), k)
    &&& ip_split_of(o.permutation_b_r_b_tail_ip_claims[1][1]@, prefix_products(b1), eq_table(tail_with(rb, fe(1))), k)
    &&& o.permutation_a_sigma_r_a_0 == lerp(ra[0], ta[0][0], ta[1][0]) && o.permutation_a_sigma_r_a_1 == lerp(ra[0], ta[0][1], ta[1][1])
    &&& o.permutation_b_sigma_r_b_0 == lerp(rb[0], tb[0][0], tb[1][0]) && o.permutation_b_sigma_r_b_1 == lerp(rb[0], tb[0][1], tb[1][1])
    &&& o.permutation_a_transition_reduced_claim == crate::codeswitching::reduce_ior::eq_eval(ra, r).spec_mul(
        o.permutation_a_sigma_one_at_r_a.spec_sub(o.permutation_a_sigma_r_a_0.spec_mul(o.permutation_a_sigma_r_a_1)))
    &&& o.permutation_b_transition_reduced_claim == crate::codeswitching::reduce_ior::eq_eval(rb, r).spec_mul(
        o.permutation_b_sigma_one_at_r_b.spec_sub(o.permutation_b_sigma_r_b_0.spec_mul(o.permutation_b_sigma_r_b_1)))
}

/// What the claims generator's output holds, step by step, for `input`
/// under the three codes.
pub open spec fn generator_output_ok<CE: ErrorCorrectingCode, CB: ErrorCorrectingCode, CO: ErrorCorrectingCode>(
    input: CodeswitchClaimsInput,
    era_code: CE,
    base_code: CB,
    output_code: CO,
    o: CodeswitchClaimsOutput,
) -> bool {
    let msg = input.msg@;
    let n = era_code.spec_block_length();
    let nb = base_code.spec_block_length();
    let kp = output_code.spec_message_size();
    let ry = o.base_code_sumcheck_challenges@.reverse();
    let rx = o.r_x_code_b@;
    let hx = (rx.len() / 2) as int;
    let hy = (ry.len() / 2) as int;
    &&& o.word_era@ == era_code.spec_encode(msg)
    &&& ood_commit_ok(OodCommit { oracles: o.era_oracles, z: o.z_ood_era, sigma: o.sigma_ood_era, claims: o.ood_ip_claims }, o.word_era@, output_code)
    &&& o.beta.wf()
    &&& o.v_cs@ == codeswitch_vector(input.spotchecks@, o.beta, n)
    &&& o.sigma_cs == codeswitch_sigma(input.spotchecks@, o.beta)
    &&& o.sigma_cs == dot(o.word_era@, o.v_cs@)
    &&& ip_split_of(o.codeswitch_ip_claims@, o.word_era@, o.v_cs@, kp)
    &&& o.word_code_b@ == base_code.spec_encode(msg)
    &&& is_split_encoding(o.code_b_oracles, o.word_code_b@, output_code)
    &&& rx.len() == log2(nb) && all_wf(rx)
    &&& o.sigma_code_b_at_r_x == mle_eval(o.word_code_b@, rx)
    &&& tensor_encoding_at(input.base_code_prime_generator_matrix@, msg, rx) == o.sigma_code_b_at_r_x
    &&& o.base_code_sumcheck_challenges@.len() == log2(msg.len()) && all_wf(o.base_code_sumcheck_challenges@)
    &&& o.base_code_sumcheck_reduced_claim == o.sigma_code_b_g_left_at_r_y.spec_mul(o.sigma_code_b_g_right_at_r_y).spec_mul(o.sigma_code_b_msg_at_r_y)
    &&& ip_split_of(o.base_code_word_ip_claims@, o.word_code_b@, eq_table(rx), kp)
    &&& o.sigma_code_b_g_left_at_r_y == mle_eval(base_left_table(input.base_code_prime_generator_matrix@, rx, msg.len()), ry)
    &&& o.sigma_code_b_g_left_at_r_y == dot(input.base_code_prime_generator_matrix@, eq_table(rx.take(hx) + ry.take(hy)))
    &&& ip_split_of(o.base_code_g_left_ip_claims@, input.base_code_prime_generator_matrix@, eq_table(rx.take(hx) + ry.take(hy)), kp)
    &&& o.sigma_code_b_g_right_at_r_y == mle_eval(base_right_table(input.base_code_prime_generator_matrix@, rx, msg.len()), ry)
    &&& o.sigma_code_b_g_right_at_r_y == dot(input.base_code_prime_generator_matrix@, eq_table(rx.skip(hx) + ry.skip(hy)))
    &&& ip_split_of(o.base_code_g_right_ip_claims@, input.base_code_prime_generator_matrix@, eq_table(rx.skip(hx) + ry.skip(hy)), kp)
    &&& o.sigma_code_b_msg_at_r_y == dot(msg, eq_table(ry))
    &&& ip_split_of(o.base_code_msg_ip_claims@, msg, eq_table(ry), kp)
    &&& o.word_rep@ == repeat_seq(o.word_code_b@, (n / nb) as nat)
    &&& views(o.rep_oracles.chunks@) == repeat_seq(views(o.code_b_oracles.chunks@), (n / nb) as nat)
    &&& views(o.rep_oracles.codewords@) == repeat_seq(views(o.code_b_oracles.codewords@), (n / nb) as nat)
    &&& is_split_encoding(o.rep_oracles, o.word_rep@, output_code)
    &&& o.r_rep@ == Seq::new(log2((n / nb) as nat), |i: int| fe(0)) + rx
    &&& o.sigma_rep_at_r_rep == mle_eval(o.word_rep@, o.r_rep@)
    &&& o.sigma_rep_at_r_rep == o.sigma_code_b_at_r_x
    &&& ip_split_of(o.repeat_ip_claims@, o.word_rep@, eq_table(o.r_rep@), kp)
    &&& o.word_perm@ == gather(o.word_rep@, input.permutation_1@)
    &&& ood_commit_ok(OodCommit { oracles: o.perm_oracles, z: o.z_ood_perm, sigma: o.sigma_ood_perm, claims: o.perm_ood_ip_claims }, o.word_perm@, output_code)
    &&& first_permutation_ok(o, input.permutation_1@, output_code)
    &&& mult_acc_ok(MultAcc {
        word_mult: o.word_mult, mult: OodCommit { oracles: o.mult_oracles, z: o.z_ood_mult, sigma: o.sigma_ood_mult, claims: o.mult_ood_ip_claims },
        r_mult_challenge: o.r_mult_challenge, r_mult: o.r_mult, sigma_mult: o.sigma_mult, tip_claims: o.multiply_tip_claims,
        mult_r_claims: o.mult_r_ip_claims, word_acc: o.word_acc,
        acc: OodCommit { oracles: o.acc_oracles, z: o.z_ood_acc, sigma: o.sigma_ood_acc, claims: o.acc_ood_ip_claims },
        r_acc: o.r_acc, acc_row: o.acc_map_row_at_r_acc, sigma_acc: o.sigma_acc, acc_mult_claims: o.acc_mult_ip_claims,
        acc_r_claims: o.acc_r_ip_claims }, o.word_perm@, input.multiplier_1@, output_code)
    &&& o.word_perm_2@ == gather(o.word_acc@, input.permutation_2@)
    &&& ood_commit_ok(OodCommit { oracles: o.perm_2_oracles, z: o.z_ood_perm_2, sigma: o.sigma_ood_perm_2, claims: o.perm_2_ood_ip_claims }, o.word_perm_2@, output_code)
    &&& mult_acc_ok(MultAcc {
        word_mult: o.word_mult_2, mult: OodCommit { oracles: o.mult_2_oracles, z: o.z_ood_mult_2, sigma: o.sigma_ood_mult_2, claims: o.mult_2_ood_ip_claims },
        r_mult_challenge: o.r_mult_challenge_2, r_mult: o.r_mult_2, sigma_mult: o.sigma_mult_2, tip_claims: o.multiply_tip_claims_2,
        mult_r_claims: o.mult_2_r_ip_claims, word_acc: o.word_acc_2,
        acc: OodCommit { oracles: o.acc_2_oracles, z: o.z_ood_acc_2, sigma: o.sigma_ood_acc_2, claims: o.acc_2_ood_ip_claims },
        r_acc: o.r_acc_2, acc_row: o.acc_map_row_at_r_acc_2, sigma_acc: o.sigma_acc_2, acc_mult_claims: o.acc_mult_2_ip_claims,
        acc_r_claims: o.acc_2_r_ip_claims }, o.word_perm_2@, input.multiplier_2@, output_code)
    &&& o.word_acc_2@ == o.word_era@
}

/// Whether two vectors hold the same entries.
fn same_vec(a: &Vec<KoalaBear>, b: &Vec<KoalaBear>) -> (r: bool)
    ensures
        r == (a@ == b@),
{
    if a.len() != b.len() {
        return false;
    }
    let mut i: usize = 0;
    while i < a.len()
        invariant
            a@.len() == b@.len(),
            i <= a@.len(),
            forall|t: int| 0 <= t < i ==> a@[t] == b@[t],
        decreases a@.len() - i,
    {
        if !(a[i] == b[i]) {
            return false;
        }
        i += 1;
    }
    assert(a@ =~= b@);
    true
}

/// Appends copies of the claims of `src` to `dst`.
fn push_ip(dst: &mut Vec<SplitIpClaim>, src: &Vec<SplitIpClaim>)
    ensures
        final(dst)@.len() == old(dst)@.len() + src@.len(),
{
    let mut i: usize = 0;
    while i < src.len()
        invariant
            i <= src@.len(),
            dst@.len() == old(dst)@.len() + i,
        decreases src@.len() - i,
    {
        dst.push(src[i].clone());
        i += 1;
    }
}

/// The claims generator for code switching from the ERA code to `output_code`.
///
/// Encodes `msg` under the ERA code and commits the codeword, opens it at a
/// drawn out-of-domain point, and reduces the spot checks to one inner-product
/// claim with the codeswitch vector.  Then it checks the ERA encoding step by
/// step: the base codeword against the generator matrix through a
/// triple-product sumcheck, its repetition, the first permutation (with its
/// permutation check), the first multiply and accumulate, the second
/// permutation (with its permutation check), and the second multiply and
/// accumulate, which must give back the ERA codeword.  Every committed word
/// is split-encoded under `output_code` and opened at a drawn point, and every
/// claim is split into chunk claims of `output_code`'s message size.
///
/// On consistent inputs (`generator_input_consistent`) it returns `Some`.
/// It returns `None` only when a check on the inputs fails: the aggregated
/// spot checks do not match the ERA codeword, the base-code sumcheck claim
/// does not match the base codeword at `r^x`, an evaluation of a word with a
/// non-canonical entry does not match its inner product with the `eq` table,
/// or the final accumulation does not give back the ERA codeword.
#[verifier::rlimit(100)]
#[verifier::spinoff_prover]
pub fn generate_codeswitch_claims_up_to_base_code_encoding<
    CE: ErrorCorrectingCode,
    CB: ErrorCorrectingCode,
    CO: ErrorCorrectingCode,
>(
    input: &CodeswitchClaimsInput,
    era_code: &CE,
    base_code: &CB,
    output_code: &CO,
    rng: &mut rand::rngs::SmallRng,
) -> (out: Option<CodeswitchClaimsOutput>)
    requires
        generator_input_ok(*input, *era_code, *base_code, *output_code),
    ensures
        generator_input_consistent(*input, *era_code, *base_code) ==> out is Some,
        out matches Some(o) ==> {
            let msg = input.msg@;
            let n = era_code.spec_block_length();
            let nb = base_code.spec_block_length();
            let kp = output_code.spec_message_size();
            let ry = o.base_code_sumcheck_challenges@.reverse();
            let rx = o.r_x_code_b@;
            let hx = (rx.len() / 2) as int;
            let hy = (ry.len() / 2) as int;
            &&& o.word_era@ == era_code.spec_encode(msg)
            &&& ood_commit_ok(OodCommit { oracles: o.era_oracles, z: o.z_ood_era, sigma: o.sigma_ood_era, claims: o.ood_ip_claims }, o.word_era@, *output_code)
            &&& o.beta.wf()
            &&& o.v_cs@ == codeswitch_vector(input.spotchecks@, o.beta, n)
            &&& o.sigma_cs == codeswitch_sigma(input.spotchecks@, o.beta)
            &&& o.sigma_cs == dot(o.word_era@, o.v_cs@)
            &&& ip_split_of(o.codeswitch_ip_claims@, o.word_era@, o.v_cs@, kp)
            &&& o.word_code_b@ == base_code.spec_encode(msg)
            &&& is_split_encoding(o.code_b_oracles, o.word_code_b@, *output_code)
            &&& rx.len() == log2(nb) && all_wf(rx)
            &&& o.sigma_code_b_at_r_x == mle_eval(o.word_code_b@, rx)
            &&& tensor_encoding_at(input.base_code_prime_generator_matrix@, msg, rx) == o.sigma_code_b_at_r_x
            &&& o.base_code_sumcheck_challenges@.len() == log2(msg.len()) && all_wf(o.base_code_sumcheck_challenges@)
            &&& o.base_code_sumcheck_reduced_claim == o.sigma_code_b_g_left_at_r_y.spec_mul(o.sigma_code_b_g_right_at_r_y).spec_mul(o.sigma_code_b_msg_at_r_y)
            &&& ip_split_of(o.base_code_word_ip_claims@, o.word_code_b@, eq_table(rx), kp)
            &&& o.sigma_code_b_g_left_at_r_y == mle_eval(base_left_table(input.base_code_prime_generator_matrix@, rx, msg.len()), ry)
            &&& o.sigma_code_b_g_left_at_r_y == dot(input.base_code_prime_generator_matrix@, eq_table(rx.take(hx) + ry.take(hy)))
            &&& ip_split_of(o.base_code_g_left_ip_claims@, input.base_code_prime_generator_matrix@, eq_table(rx.take(hx) + ry.take(hy)), kp)
            &&& o.sigma_code_b_g_right_at_r_y == mle_eval(base_right_table(input.base_code_prime_generator_matrix@, rx, msg.len()), ry)
            &&& o.sigma_code_b_g_right_at_r_y == dot(input.base_code_prime_generator_matrix@, eq_table(rx.skip(hx) + ry.skip(hy)))
            &&& ip_split_of(o.base_code_g_right_ip_claims@, input.base_code_prime_generator_matrix@, eq_table(rx.skip(hx) + ry.skip(hy)), kp)
            &&& o.sigma_code_b_msg_at_r_y == dot(msg, eq_table(ry))
            &&& ip_split_of(o.base_code_msg_ip_claims@, msg, eq_table(ry), kp)
            &&& o.word_rep@ == repeat_seq(o.word_code_b@, (n / nb) as nat)
            &&& views(o.rep_oracles.chunks@) == repeat_seq(views(o.code_b_oracles.chunks@), (n / nb) as nat)
            &&& views(o.rep_oracles.codewords@) == repeat_seq(views(o.code_b_oracles.codewords@), (n / nb) as nat)
            &&& is_split_encoding(o.rep_oracles, o.word_rep@, *output_code)
            &&& o.r_rep@ == Seq::new(log2((n / nb) as nat), |i: int| fe(0)) + rx
            &&& o.sigma_rep_at_r_rep == mle_eval(o.word_rep@, o.r_rep@)
            &&& o.sigma_rep_at_r_rep == o.sigma_code_b_at_r_x
            &&& ip_split_of(o.repeat_ip_claims@, o.word_rep@, eq_table(o.r_rep@), kp)
            &&& o.word_perm@ == gather(o.word_rep@, input.permutation_1@)
            &&& ood_commit_ok(OodCommit { oracles: o.perm_oracles, z: o.z_ood_perm, sigma: o.sigma_ood_perm, claims: o.perm_ood_ip_claims }, o.word_perm@, *output_code)
            &&& first_permutation_ok(o, input.permutation_1@, *output_code)
            &&& mult_acc_ok(MultAcc {
                word_mult: o.word_mult, mult: OodCommit { oracles: o.mult_oracles, z: o.z_ood_mult, sigma: o.sigma_ood_mult, claims: o.mult_ood_ip_claims },
                r_mult_challenge: o.r_mult_challenge, r_mult: o.r_mult, sigma_mult: o.sigma_mult, tip_claims: o.multiply_tip_claims,
                mult_r_claims: o.mult_r_ip_claims, word_acc: o.word_acc,
                acc: OodCommit { oracles: o.acc_oracles, z: o.z_ood_acc, sigma: o.sigma_ood_acc, claims: o.acc_ood_ip_claims },
                r_acc: o.r_acc, acc_row: o.acc_map_row_at_r_acc, sigma_acc: o.sigma_acc, acc_mult_claims: o.acc_mult_ip_claims,
                acc_r_claims: o.acc_r_ip_claims }, o.word_perm@, input.multiplier_1@, *output_code)
            &&& o.word_perm_2@ == gather(o.word_acc@, input.permutation_2@)
            &&& ood_commit_ok(OodCommit { oracles: o.perm_2_oracles, z: o.z_ood_perm_2, sigma: o.sigma_ood_perm_2, claims: o.perm_2_ood_ip_claims }, o.word_perm_2@, *output_code)
            &&& mult_acc_ok(MultAcc {
                word_mult: o.word_mult_2, mult: OodCommit { oracles: o.mult_2_oracles, z: o.z_ood_mult_2, sigma: o.sigma_ood_mult_2, claims: o.mult_2_ood_ip_claims },
                r_mult_challenge: o.r_mult_challenge_2, r_mult: o.r_mult_2, sigma_mult: o.sigma_mult_2, tip_claims: o.multiply_tip_claims_2,
                mult_r_claims: o.mult_2_r_ip_claims, word_acc: o.word_acc_2,
                acc: OodCommit { oracles: o.acc_2_oracles, z: o.z_ood_acc_2, sigma: o.sigma_ood_acc_2, claims: o.acc_2_ood_ip_claims },
                r_acc: o.r_acc_2, acc_row: o.acc_map_row_at_r_acc_2, sigma_acc: o.sigma_acc_2, acc_mult_claims: o.acc_mult_2_ip_claims,
                acc_r_claims: o.acc_2_r_ip_claims }, o.word_perm_2@, input.multiplier_2@, *output_code)
            &&& o.word_acc_2@ == o.word_era@
        },
{
    let msg = &input.msg;
    let k = msg.len();
    let kp = output_code.message_size();
    let n = era_code.block_length();
    let nb = base_code.block_length();
    let ghost ok = generator_input_consistent(*input, *era_code, *base_code);
    proof {
        era_code.lemma_encode_len(msg@);
        base_code.lemma_encode_len(msg@);
        if ok {
            lemma_consistent_facts(*input, *era_code, *base_code);
        }
    }
    // Steps 1-2: the ERA codeword, its commitment and its out-of-domain opening.
    let word_era = era_code.encode(msg.as_slice());
    let era = ood_commit(word_era.as_slice(), output_code, rng)?;
    // Steps 3-6: the spot checks as one inner-product claim.
    let beta = KoalaBear::random(rng);
    let (v_cs, sigma_cs) = build_codeswitch_vector(&input.spotchecks, beta, n);
    assert(ok ==> sigma_cs == dot(word_era@, v_cs@)) by {
        if ok {
            lemma_codeswitch_sigma(input.spotchecks@, beta, word_era@);
        }
    }
    let codeswitch_ip_claims = checked_split_ip(word_era.as_slice(), v_cs.as_slice(), sigma_cs, kp)?;
    // The base codeword and its commitment.
    let word_code_b = base_code.encode(msg.as_slice());
    let code_b_oracles = split_and_encode(word_code_b.as_slice(), output_code);
    // Steps 10-11: the point r^x and the base codeword there.
    let log_nb = crate::codeswitching::sumcheck::permutation::pow2_log(nb);
    let log_k = crate::codeswitching::sumcheck::permutation::pow2_log(k);
    proof {
        crate::codeswitching::sumcheck::permutation::lemma_pow2_log2(nb as nat);
        crate::codeswitching::sumcheck::permutation::lemma_pow2_log2(k as nat);
        vstd::arithmetic::power2::lemma_pow2_pos((log_k / 2) as nat);
        vstd::arithmetic::power2::lemma_pow2_pos((log_nb / 2) as nat);
        if log_nb == 0 {
            vstd::arithmetic::power2::lemma2_to64();
        }
    }
    let r_x = sample_random_point(rng, log_nb);
    let sigma_code_b_at_r_x = evaluate_multilinear_table(word_code_b.as_slice(), r_x.as_slice());
    // Step 12: the base-code sumcheck.
    let (left, right, mtab) = build_base_code_sumcheck_tip_tables(
        input.base_code_prime_generator_matrix.as_slice(),
        r_x.as_slice(),
        msg.as_slice(),
        log_k,
    );
    proof {
        let c = pow2((log_k / 2) as nat);
        vstd::arithmetic::power2::lemma_pow2_adds((log_k / 2) as nat, (log_k / 2) as nat);
        assert(((log_k / 2) + (log_k / 2)) as nat == log_k as nat);
        assert(c * c == k);
        lemma_pow2_facts(log_k as nat);
    }
    let claimed = triple_product(left.as_slice(), right.as_slice(), mtab.as_slice());
    assert(claimed == tensor_encoding_at(input.base_code_prime_generator_matrix@, msg@, r_x@)) by {
        let g = input.base_code_prime_generator_matrix@;
        assert(left@ =~= base_left_table(g, r_x@, msg@.len()));
        assert(right@ =~= base_right_table(g, r_x@, msg@.len()));
    }
    assert(ok ==> claimed == sigma_code_b_at_r_x) by {
        if ok {
            lemma_consistent_base_claim(*input, *era_code, *base_code, r_x@);
        }
    }
    if !(claimed == sigma_code_b_at_r_x) {
        return None;
    }
    let mut base_sumcheck = TIPSumcheck::new(left, right, mtab);
    let ghost (t1, t2, t3) = (base_sumcheck.spec_first(), base_sumcheck.spec_second(), base_sumcheck.spec_third());
    let base_out = base_sumcheck.run_sumcheck_protocol(rng);
    proof {
        let rs = base_out.randomness@;
        lemma_fold_same_len(t1, t2, rs);
        lemma_fold_same_len(t1, t3, rs);
    }
    // Step 13: the three tables at r^y.
    let g_left = base_sumcheck.first()[0];
    let g_right = base_sumcheck.second()[0];
    let msg_at = base_sumcheck.third()[0];
    // Step 14: split claims at r^x, (r^x_1, r^y_1), (r^x_2, r^y_2) and r^y.
    let r_y = reversed(base_out.randomness.as_slice());
    assert(g_left == mle_eval(base_left_table(input.base_code_prime_generator_matrix@, r_x@, msg@.len()), r_y@)
        && g_right == mle_eval(base_right_table(input.base_code_prime_generator_matrix@, r_x@, msg@.len()), r_y@))
        by {
        assert(r_y@.reverse() =~= base_out.randomness@);
        assert(t1 =~= base_left_table(input.base_code_prime_generator_matrix@, r_x@, msg@.len()));
        assert(t2 =~= base_right_table(input.base_code_prime_generator_matrix@, r_x@, msg@.len()));
    }
    let hx = log_nb / 2;
    let hy = log_k / 2;
    let rxl = copy_range(r_x.as_slice(), 0, hx);
    let rxr = copy_range(r_x.as_slice(), hx, log_nb);
    let ryl = copy_range(r_y.as_slice(), 0, hy);
    let ryr = copy_range(r_y.as_slice(), hy, log_k);
    let p_left = concat(rxl.as_slice(), ryl.as_slice());
    let p_right = concat(rxr.as_slice(), ryr.as_slice());
    proof {
        assert(rxl@ =~= r_x@.take(hx as int));
        assert(rxr@ =~= r_x@.skip(hx as int));
        assert(ryl@ =~= r_y@.take(hy as int));
        assert(ryr@ =~= r_y@.skip(hy as int));
        vstd::arithmetic::power2::lemma_pow2_adds(hx as nat, hy as nat);
        vstd::arithmetic::power2::lemma_pow2_adds((log_nb - hx) as nat, (log_k - hy) as nat);
        assert((log_nb - hx) as nat == hx as nat);
        assert((log_k - hy) as nat == hy as nat);
        lemma_pow2_facts(log_nb as nat);
        vstd::arithmetic::power2::lemma_pow2_pos(hx as nat);
        vstd::arithmetic::power2::lemma_pow2_pos(hy as nat);
        vstd::arithmetic::mul::lemma_mul_strictly_positive(pow2(hx as nat) as int, pow2(hy as nat) as int);
    }
    let eq_rx = eq_weights(r_x.as_slice());
    assert(ok ==> sigma_code_b_at_r_x == dot(word_code_b@, eq_rx@)) by {
        if ok {
            lemma_eval_is_dot(word_code_b@, r_x@);
        }
    }
    let base_code_word_ip_claims = checked_split_ip(word_code_b.as_slice(), eq_rx.as_slice(), sigma_code_b_at_r_x, kp)?;
    let eq_left = eq_weights(p_left.as_slice());
    let eq_right = eq_weights(p_right.as_slice());
    assert(g_left == dot(input.base_code_prime_generator_matrix@, eq_left@) && g_right == dot(
        input.base_code_prime_generator_matrix@,
        eq_right@,
    )) by {
        let g = input.base_code_prime_generator_matrix@;
        let hyn = hy as nat;
        assert(r_y@.len() == 2 * hyn);
        assert(r_y@.reverse() =~= base_out.randomness@);
        assert(all_wf(r_y@));
        lemma_left_table_eval(g, r_x@.take(hx as int), r_y@, hyn);
        lemma_right_table_eval(g, r_x@.skip(hx as int), r_y@, hyn);
        assert(base_left_table(g, r_x@, msg@.len()) =~= Seq::new(
            pow2(hyn) * pow2(hyn),
            |x: int| weighted_column(g, eq_table(r_x@.take(hx as int)), pow2(hyn) as int, x / (pow2(hyn) as int)),
        ));
        assert(base_right_table(g, r_x@, msg@.len()) =~= Seq::new(
            pow2(hyn) * pow2(hyn),
            |x: int| weighted_column(g, eq_table(r_x@.skip(hx as int)), pow2(hyn) as int, x % (pow2(hyn) as int)),
        ));
    }
    let base_code_g_left_ip_claims = split_claim_ip(
        input.base_code_prime_generator_matrix.as_slice(),
        eq_left.as_slice(),
        g_left,
        kp,
    );
    let base_code_g_right_ip_claims = split_claim_ip(
        input.base_code_prime_generator_matrix.as_slice(),
        eq_right.as_slice(),
        g_right,
        kp,
    );
    let eq_ry = eq_weights(r_y.as_slice());
    assert(ok ==> msg_at == dot(msg@, eq_ry@)) by {
        if ok {
            assert(r_y@.reverse() =~= base_out.randomness@);
            assert(msg_at == mle_eval(msg@, r_y@));
            lemma_eval_is_dot(msg@, r_y@);
        }
    }
    let base_code_msg_ip_claims = checked_split_ip(msg.as_slice(), eq_ry.as_slice(), msg_at, kp)?;
    // Steps 15-17: the repeated base codeword, its simulated commitment and its
    // claim at (0, r^x).
    let factor = n / nb;
    let log_n = crate::codeswitching::sumcheck::permutation::pow2_log(n);
    proof {
        crate::codeswitching::sumcheck::permutation::lemma_pow2_log2(n as nat);
        if log_nb > log_n {
            vstd::arithmetic::power2::lemma_pow2_strictly_increases(log_n as nat, log_nb as nat);
        }
        vstd::arithmetic::power2::lemma_pow2_subtracts(log_nb as nat, log_n as nat);
        lemma_pow2_facts((log_n - log_nb) as nat);
        vstd::arithmetic::power2::lemma_pow2_adds((log_n - log_nb) as nat, log_nb as nat);
        assert(((log_n - log_nb) + log_nb) as nat == log_n as nat);
        vstd::arithmetic::div_mod::lemma_fundamental_div_mod(n as int, nb as int);
        assert(factor * nb == n);
    }
    let word_rep = repeat_vector(word_code_b.as_slice(), factor);
    let rep_oracles = repeat_split_encoding(&code_b_oracles, factor);
    proof {
        lemma_repeat_split(code_b_oracles, rep_oracles, word_code_b@, factor as nat, *output_code);
    }
    let log_f = crate::codeswitching::sumcheck::permutation::pow2_log(factor);
    let zs = crate::codes::era::zeros(log_f);
    let r_rep = concat(zs.as_slice(), r_x.as_slice());
    assert(mle_eval(word_rep@, r_rep@) == sigma_code_b_at_r_x) by {
        crate::codeswitching::sumcheck::permutation::lemma_pow2_log2(factor as nat);
        assert forall|i: int| 0 <= i < zs@.len() implies #[trigger] zs@[i] == fe(0) by {
            assert(crate::codes::era::all_zero(zs@));
        }
        lemma_repeat_eval(word_code_b@, factor as nat, zs@, r_x@);
    }
    proof {
        assert(crate::codes::era::all_zero(r_rep@.take(log_f as int)));
    }
    let rep = point_claim(word_rep.as_slice(), r_rep.as_slice(), kp)?;
    // Steps 18-19: the first permutation and its commitment.
    let word_perm = apply_permutation(word_rep.as_slice(), input.permutation_1.as_slice());
    let perm = ood_commit(word_perm.as_slice(), output_code, rng)?;
    // Step 20: the first permutation check.
    let pc1 = permutation_check(&word_rep, &word_perm, &input.permutation_1, output_code, rng)?;
    // Steps 21-31: the first multiply and accumulate.
    let ma1 = mult_acc(&word_perm, &input.multiplier_1, output_code, rng)?;
    // Step 33: the second permutation and its commitment.
    let word_perm_2 = apply_permutation(ma1.word_acc.as_slice(), input.permutation_2.as_slice());
    let perm_2 = ood_commit(word_perm_2.as_slice(), output_code, rng)?;
    // Step 34: the second permutation check.
    let pc2 = permutation_check(&ma1.word_acc, &word_perm_2, &input.permutation_2, output_code, rng)?;
    // Step 35: the second multiply and accumulate, which gives back the ERA codeword.
    let ma2 = mult_acc(&word_perm_2, &input.multiplier_2, output_code, rng)?;
    if !same_vec(&ma2.word_acc, &word_era) {
        return None;
    }
    // All chunk claims, in protocol order.
    let mut ip_claims: Vec<SplitIpClaim> = Vec::new();
    push_ip(&mut ip_claims, &era.claims);
    push_ip(&mut ip_claims, &codeswitch_ip_claims);
    push_ip(&mut ip_claims, &base_code_word_ip_claims);
    push_ip(&mut ip_claims, &base_code_g_left_ip_claims);
    push_ip(&mut ip_claims, &base_code_g_right_ip_claims);
    push_ip(&mut ip_claims, &base_code_msg_ip_claims);
    push_ip(&mut ip_claims, &rep.claims);
    push_ip(&mut ip_claims, &perm.claims);
    push_permutation_claims(&mut ip_claims, &pc1);
    push_ip(&mut ip_claims, &ma1.mult.claims);
    push_ip(&mut ip_claims, &ma1.mult_r_claims);
    push_ip(&mut ip_claims, &ma1.acc.claims);
    push_ip(&mut ip_claims, &ma1.acc_mult_claims);
    push_ip(&mut ip_claims, &ma1.acc_r_claims);
    push_ip(&mut ip_claims, &perm_2.claims);
    push_permutation_claims(&mut ip_claims, &pc2);
    push_ip(&mut ip_claims, &ma2.mult.claims);
    push_ip(&mut ip_claims, &ma2.mult_r_claims);
    push_ip(&mut ip_claims, &ma2.acc.claims);
    push_ip(&mut ip_claims, &ma2.acc_mult_claims);
    push_ip(&mut ip_claims, &ma2.acc_r_claims);
    let mut tip_claims: Vec<SplitTipClaim> = Vec::new();
    push_tip(&mut tip_claims, &ma1.tip_claims);
    push_tip(&mut tip_claims, &ma2.tip_claims);
    let mut aux_oracles: Vec<SplitEncoding> = Vec::new();
    aux_oracles.push(era.oracles.clone());
    aux_oracles.push(code_b_oracles.clone());
    aux_oracles.push(rep_oracles.clone());
    aux_oracles.push(perm.oracles.clone());
    aux_oracles.push(ma1.mult.oracles.clone());
    aux_oracles.push(ma1.acc.oracles.clone());
    aux_oracles.push(perm_2.oracles.clone());
    aux_oracles.push(pc2.a_1_ood.oracles.clone());
    aux_oracles.push(pc2.a_2_ood.oracles.clone());
    aux_oracles.push(pc2.b_1_ood.oracles.clone());
    aux_oracles.push(pc2.b_2_ood.oracles.clone());
    aux_oracles.push(ma2.mult.oracles.clone());
    aux_oracles.push(ma2.acc.oracles.clone());
    aux_oracles.push(pc1.a_1_ood.oracles.clone());
    aux_oracles.push(pc1.a_2_ood.oracles.clone());
    aux_oracles.push(pc1.b_1_ood.oracles.clone());
    aux_oracles.push(pc1.b_2_ood.oracles.clone());
    let a = pc1.a_tail;
    let b = pc1.b_tail;
    Some(
        CodeswitchClaimsOutput {
            word_era,
            era_oracles: era.oracles,
            z_ood_era: era.z,
            sigma_ood_era: era.sigma,
            ood_ip_claims: era.claims,
            beta,
            v_cs,
            sigma_cs,
            codeswitch_ip_claims,
            word_code_b,
            code_b_oracles,
            r_x_code_b: r_x,
            sigma_code_b_at_r_x,
            base_code_sumcheck_round_polys: base_out.round_polys,
            base_code_sumcheck_challenges: base_out.randomness,
            base_code_sumcheck_reduced_claim: base_out.final_claim,
            sigma_code_b_g_left_at_r_y: g_left,
            sigma_code_b_g_right_at_r_y: g_right,
            sigma_code_b_msg_at_r_y: msg_at,
            base_code_word_ip_claims,
            base_code_g_left_ip_claims,
            base_code_g_right_ip_claims,
            base_code_msg_ip_claims,
            word_rep,
            rep_oracles,
            r_rep,
            sigma_rep_at_r_rep: rep.sigma,
            repeat_ip_claims: rep.claims,
            word_perm,
            perm_oracles: perm.oracles,
            z_ood_perm: perm.z,
            sigma_ood_perm: perm.sigma,
            perm_ood_ip_claims: perm.claims,
            permutation_alpha: pc1.alpha,
            permutation_beta: pc1.beta,
            permutation_identity_vector: pc1.identity_vector,
            permutation_pi_1_vector: pc1.pi_vector,
            permutation_a_1: pc1.a_1,
            permutation_a_2: pc1.a_2,
            permutation_b_1: pc1.b_1,
            permutation_b_2: pc1.b_2,
            permutation_a_1_oracles: pc1.a_1_ood.oracles,
            permutation_a_2_oracles: pc1.a_2_ood.oracles,
            permutation_b_1_oracles: pc1.b_1_ood.oracles,
            permutation_b_2_oracles: pc1.b_2_ood.oracles,
            permutation_a_1_z_ood: pc1.a_1_ood.z,
            permutation_a_2_z_ood: pc1.a_2_ood.z,
            permutation_b_1_z_ood: pc1.b_1_ood.z,
            permutation_b_2_z_ood: pc1.b_2_ood.z,
            permutation_a_1_sigma_ood: pc1.a_1_ood.sigma,
            permutation_a_2_sigma_ood: pc1.a_2_ood.sigma,
            permutation_b_1_sigma_ood: pc1.b_1_ood.sigma,
            permutation_b_2_sigma_ood: pc1.b_2_ood.sigma,
            permutation_a_1_ood_ip_claims: pc1.a_1_ood.claims,
            permutation_a_2_ood_ip_claims: pc1.a_2_ood.claims,
            permutation_b_1_ood_ip_claims: pc1.b_1_ood.claims,
            permutation_b_2_ood_ip_claims: pc1.b_2_ood.claims,
            permutation_fixed_point: pc1.fixed_point,
            permutation_a_1_sigma_fixed: pc1.a_1_fixed.sigma,
            permutation_b_1_sigma_fixed: pc1.b_1_fixed.sigma,
            permutation_a_1_fixed_ip_claims: pc1.a_1_fixed.claims,
            permutation_b_1_fixed_ip_claims: pc1.b_1_fixed.claims,
            permutation_r_perm: pc1.r_perm,
            permutation_sigma_a_at_r_perm: pc1.a_1_at_r.sigma,
            permutation_sigma_b_at_r_perm: pc1.b_1_at_r.sigma,
            permutation_sigma_id_at_r_perm: pc1.id_at_r.sigma,
            permutation_sigma_word_rep_at_r_perm: pc1.word_in_at_r.sigma,
            permutation_sigma_word_perm_at_r_perm: pc1.word_out_at_r.sigma,
            permutation_sigma_pi_1_at_r_perm: pc1.pi_at_r.sigma,
            permutation_a_1_r_perm_ip_claims: pc1.a_1_at_r.claims,
            permutation_b_1_r_perm_ip_claims: pc1.b_1_at_r.claims,
            permutation_word_rep_r_perm_ip_claims: pc1.word_in_at_r.claims,
            permutation_word_perm_r_perm_ip_claims: pc1.word_out_at_r.claims,
            permutation_identity_r_perm_ip_claims: pc1.id_at_r.claims,
            permutation_pi_1_r_perm_ip_claims: pc1.pi_at_r.claims,
            permutation_a_transition_sum_claim: pc1.a_transition.sum_claim,
            permutation_a_transition_sumcheck_round_polys: pc1.a_transition.round_polys,
            permutation_a_transition_sumcheck_challenges: pc1.a_transition.randomness,
            permutation_a_transition_reduced_claim: pc1.a_transition.final_claim,
            permutation_r_a: pc1.r_a,
            permutation_a_sigma_one_at_r_a: pc1.a_2_at_r_a.sigma,
            permutation_a_sigma_i_r_a_tail_j: [[a.c00.sigma, a.c01.sigma], [a.c10.sigma, a.c11.sigma]],
            permutation_a_sigma_r_a_0: pc1.a_sigma_r_a_0,
            permutation_a_sigma_r_a_1: pc1.a_sigma_r_a_1,
            permutation_a_2_r_a_ip_claims: pc1.a_2_at_r_a.claims,
            permutation_a_r_a_tail_ip_claims: [[a.c00.claims, a.c01.claims], [a.c10.claims, a.c11.claims]],
            permutation_b_transition_sum_claim: pc1.b_transition.sum_claim,
            permutation_b_transition_sumcheck_round_polys: pc1.b_transition.round_polys,
            permutation_b_transition_sumcheck_challenges: pc1.b_transition.randomness,
            permutation_b_transition_reduced_claim: pc1.b_transition.final_claim,
            permutation_r_b: pc1.r_b,
            permutation_b_sigma_one_at_r_b: pc1.b_2_at_r_b.sigma,
            permutation_b_sigma_i_r_b_tail_j: [[b.c00.sigma, b.c01.sigma], [b.c10.sigma, b.c11.sigma]],
            permutation_b_sigma_r_b_0: pc1.b_sigma_r_b_0,
            permutation_b_sigma_r_b_1: pc1.b_sigma_r_b_1,
            permutation_b_2_r_b_ip_claims: pc1.b_2_at_r_b.claims,
            permutation_b_r_b_tail_ip_claims: [[b.c00.claims, b.c01.claims], [b.c10.claims, b.c11.claims]],
            word_mult: ma1.word_mult,
            mult_oracles: ma1.mult.oracles,
            z_ood_mult: ma1.mult.z,
            sigma_ood_mult: ma1.mult.sigma,
            mult_ood_ip_claims: ma1.mult.claims,
            r_mult_challenge: ma1.r_mult_challenge,
            r_mult: ma1.r_mult,
            sigma_mult: ma1.sigma_mult,
            multiply_tip_claims: ma1.tip_claims,
            mult_r_ip_claims: ma1.mult_r_claims,
            word_acc: ma1.word_acc,
            acc_oracles: ma1.acc.oracles,
            z_ood_acc: ma1.acc.z,
            sigma_ood_acc: ma1.acc.sigma,
            acc_ood_ip_claims: ma1.acc.claims,
            r_acc: ma1.r_acc,
            acc_map_row_at_r_acc: ma1.acc_row,
            sigma_acc: ma1.sigma_acc,
            acc_mult_ip_claims: ma1.acc_mult_claims,
            acc_r_ip_claims: ma1.acc_r_claims,
            word_perm_2,
            perm_2_oracles: perm_2.oracles,
            z_ood_perm_2: perm_2.z,
            sigma_ood_perm_2: perm_2.sigma,
            perm_2_ood_ip_claims: perm_2.claims,
            word_mult_2: ma2.word_mult,
            mult_2_oracles: ma2.mult.oracles,
            z_ood_mult_2: ma2.mult.z,
            sigma_ood_mult_2: ma2.mult.sigma,
            mult_2_ood_ip_claims: ma2.mult.claims,
            r_mult_challenge_2: ma2.r_mult_challenge,
            r_mult_2: ma2.r_mult,
            sigma_mult_2: ma2.sigma_mult,
            multiply_tip_claims_2: ma2.tip_claims,
            mult_2_r_ip_claims: ma2.mult_r_claims,
            word_acc_2: ma2.word_acc,
            acc_2_oracles: ma2.acc.oracles,
            z_ood_acc_2: ma2.acc.z,
            sigma_ood_acc_2: ma2.acc.sigma,
            acc_2_ood_ip_claims: ma2.acc.claims,
            r_acc_2: ma2.r_acc,
            acc_map_row_at_r_acc_2: ma2.acc_row,
            sigma_acc_2: ma2.sigma_acc,
            acc_mult_2_ip_claims: ma2.acc_mult_claims,
            acc_2_r_ip_claims: ma2.acc_r_claims,
            aux_oracles,
            ip_claims,
            tip_claims,
        },
    )
}

/// The claims generator over the whole protocol: see
/// [`generate_codeswitch_claims_up_to_base_code_encoding`].
pub fn generate_codeswitch_claims<CE: ErrorCorrectingCode, CB: ErrorCorrectingCode, CO: ErrorCorrectingCode>(
    input: CodeswitchClaimsInput,
    era_code: &CE,
    base_code: &CB,
    output_code: &CO,
    rng: &mut rand::rngs::SmallRng,
) -> (out: Option<CodeswitchClaimsOutput>)
    requires
        generator_input_ok(input, *era_code, *base_code, *output_code),
    ensures
        generator_input_consistent(input, *era_code, *base_code) ==> out is Some,
        out matches Some(o) ==> generator_output_ok(input, *era_code, *base_code, *output_code, o),
{
    generate_codeswitch_claims_up_to_base_code_encoding(&input, era_code, base_code, output_code, rng)
}

/// The concatenation `a b`.
fn concat(a: &[KoalaBear], b: &[KoalaBear]) -> (r: Vec<KoalaBear>)
    ensures
        r@ == a@ + b@,
{
    let mut out = copy_range(a, 0, a.len());
    let mut i: usize = 0;
    assert(out@ =~= a@ + b@.take(0));
    while i < b.len()
        invariant
            i <= b@.len(),
            out@ == a@ + b@.take(i as int),
        decreases b@.len() - i,
    {
        out.push(b[i]);
        i += 1;
        assert(out@ =~= a@ + b@.take(i as int));
    }
    assert(b@.take(i as int) =~= b@);
    out
}

/// Appends copies of the triple-product claims of `src` to `dst`.
fn push_tip(dst: &mut Vec<SplitTipClaim>, src: &Vec<SplitTipClaim>) {
    let mut i: usize = 0;
    while i < src.len()
        invariant
            i <= src@.len(),
        decreases src@.len() - i,
    {
        dst.push(src[i].clone());
        i += 1;
    }
}

/// Appends the chunk claims of a permutation check, in protocol order.
fn push_permutation_claims(dst: &mut Vec<SplitIpClaim>, c: &PermutationCheck) {
    push_ip(dst, &c.a_1_ood.claims);
    push_ip(dst, &c.a_2_ood.claims);
    push_ip(dst, &c.b_1_ood.claims);
    push_ip(dst, &c.b_2_ood.claims);
    push_ip(dst, &c.a_1_fixed.claims);
    push_ip(dst, &c.b_1_fixed.claims);
    push_ip(dst, &c.a_1_at_r.claims);
    push_ip(dst, &c.b_1_at_r.claims);
    push_ip(dst, &c.word_in_at_r.claims);
    push_ip(dst, &c.word_out_at_r.claims);
    push_ip(dst, &c.id_at_r.claims);
    push_ip(dst, &c.pi_at_r.claims);
    push_ip(dst, &c.a_2_at_r_a.claims);
    push_ip(dst, &c.b_2_at_r_b.claims);
    push_ip(dst, &c.a_tail.c00.claims);
    push_ip(dst, &c.a_tail.c01.claims);
    push_ip(dst, &c.a_tail.c10.claims);
    push_ip(dst, &c.a_tail.c11.claims);
    push_ip(dst, &c.b_tail.c00.claims);
    push_ip(dst, &c.b_tail.c01.claims);
    push_ip(dst, &c.b_tail.c10.claims);
    push_ip(dst, &c.b_tail.c11.claims);
}

} // verus!
