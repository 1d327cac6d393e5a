//! Sumcheck for the transition claim `sum_x eq(x) (u(x) - l0(x) l1(x))`,
//! run as an inner-product sumcheck on `eq * u` and a triple-product
//! sumcheck on `eq * l0 * l1` sharing their challenges.
use vstd::prelude::*;

use super::ip::{ip_h0, ip_h_half, ip_terms_0, lemma_ip_round};
use super::tip::{at_two, lemma_tip_round, tip_h0, tip_h2, tip_h_half, tip_terms_0, tip_terms_two};
use super::{
    compress, extrap_two, inv2, extrapolate_quadratic_at_two, fold_table, interp_cubic, interp_quad,
    interpolate_cubic_from_0_half_1_2, interpolate_quadratic_from_0_half_1, is_pow2, lemma_fold_push,
    lemma_cubic_extends_quad, lemma_interp_cubic_sub, lemma_pow2_half, log2, IPSumcheck, TIPSumcheck,
};
use crate::codeswitching::claims::triple_dot;
use crate::linear::{lemma_sum_vsub, vsub};
use crate::field::{fe, KoalaBear};
use vstd::arithmetic::power2::pow2;
use crate::poly::{evaluate_multilinear_table, mle_eval};
use crate::ring::{isum_g, lemma_canon, lemma_isum_ext, lemma_isum_lin4, lemma_mul_l, lemma_mul_r, lemma_sub_r, lemma_sum_terms};
use crate::vectors::{all_wf, dot, hadamard, lemma_fe_add, lemma_fe_mul, lemma_fe_sub, lemma_sum_take_step, sum};

verus! {

/// The three tables of a transition claim.
#[derive(Debug, Clone)]
pub struct PermutationTransitionTables {
    pub upper: Vec<KoalaBear>,
    pub lower_left: Vec<KoalaBear>,
    pub lower_right: Vec<KoalaBear>,
}

/// Entry `i` of the lower tables: from `first` in the first half and from
/// `second` in the second half, at the even (`bit = 0`) or odd (`bit = 1`)
/// position of the pair `i mod n/2`.
pub open spec fn transition_lower(first: Seq<KoalaBear>, second: Seq<KoalaBear>, bit: int) -> Seq<KoalaBear> {
    let h = first.len() / 2;
    Seq::new(
        first.len(),
        |i: int|
            if i < h {
                first[2 * i + bit]
            } else {
                second[2 * (i - h) + bit]
            },
    )
}

/// Builds the transition tables of two witness tables: `upper` is `second`,
/// and the lower tables read, for each index, the pair of the index's tail in
/// `first` (leading bit zero) or `second` (leading bit one).
pub fn build_permutation_transition_tables(first: &[KoalaBear], second: &[KoalaBear]) -> (r:
    PermutationTransitionTables)
    requires
        first@.len() == second@.len(),
        is_pow2(first@.len()),
        first@.len() >= 2,
    ensures
        r.upper@ == second@,
        r.lower_left@ == transition_lower(first@, second@, 0),
        r.lower_right@ == transition_lower(first@, second@, 1),
{
    let n = first.len();
    let half = n / 2;
    let mut lower_left: Vec<KoalaBear> = Vec::with_capacity(n);
    let mut lower_right: Vec<KoalaBear> = Vec::with_capacity(n);
    let mut index: usize = 0;
    while index < n
        invariant
            n == first@.len(),
            n == second@.len(),
            n % 2 == 0,
            half == n / 2,
            index <= n,
            lower_left@ == transition_lower(first@, second@, 0).take(index as int),
            lower_right@ == transition_lower(first@, second@, 1).take(index as int),
        decreases n - index,
    {
        if index < half {
            lower_left.push(first[2 * index]);
            lower_right.push(first[2 * index + 1]);
        } else {
            let tail = index - half;
            lower_left.push(second[2 * tail]);
            lower_right.push(second[2 * tail + 1]);
        }
        index += 1;
        assert(lower_left@ =~= transition_lower(first@, second@, 0).take(index as int));
        assert(lower_right@ =~= transition_lower(first@, second@, 1).take(index as int));
    }
    assert(lower_left@ =~= transition_lower(first@, second@, 0));
    assert(lower_right@ =~= transition_lower(first@, second@, 1));
    let upper = crate::copy_range(second, 0, n);
    assert(upper@ =~= second@);
    PermutationTransitionTables { upper, lower_left, lower_right }
}

/// The terms `eq_i (u_i - l0_i l1_i)` of the transition claim.
pub open spec fn transition_terms(
    u: Seq<KoalaBear>,
    l0: Seq<KoalaBear>,
    l1: Seq<KoalaBear>,
    eq: Seq<KoalaBear>,
) -> Seq<KoalaBear> {
    Seq::new(u.len(), |i: int| eq[i].spec_mul(u[i].spec_sub(l0[i].spec_mul(l1[i]))))
}

/// The transition claim `sum_i eq_i (u_i - l0_i l1_i)`.
pub open spec fn transition_claim(
    u: Seq<KoalaBear>,
    l0: Seq<KoalaBear>,
    l1: Seq<KoalaBear>,
    eq: Seq<KoalaBear>,
) -> KoalaBear {
    sum(transition_terms(u, l0, l1, eq))
}

/// The transition claim of four equally long tables, summed left to right.
pub fn transition_sum_claim(
    upper: &[KoalaBear],
    lower_left: &[KoalaBear],
    lower_right: &[KoalaBear],
    eq_table: &[KoalaBear],
) -> (r: KoalaBear)
    requires
        upper@.len() == lower_left@.len(),
        upper@.len() == lower_right@.len(),
        upper@.len() == eq_table@.len(),
    ensures
        r == transition_claim(upper@, lower_left@, lower_right@, eq_table@),
{
    let ghost t = transition_terms(upper@, lower_left@, lower_right@, eq_table@);
    let mut acc = KoalaBear::zero();
    let mut i: usize = 0;
    while i < upper.len()
        invariant
            upper@.len() == lower_left@.len(),
            upper@.len() == lower_right@.len(),
            upper@.len() == eq_table@.len(),
            t == transition_terms(upper@, lower_left@, lower_right@, eq_table@),
            i <= upper@.len(),
            acc == sum(t.take(i as int)),
        decreases upper@.len() - i,
    {
        proof {
            lemma_sum_take_step(t, i as int);
        }
        acc = acc.add(eq_table[i].mul(upper[i].sub(lower_left[i].mul(lower_right[i]))));
        i += 1;
    }
    assert(t.take(i as int) =~= t);
    acc
}

/// The transition claim is the inner product of `eq` with `u` minus the triple
/// product of `eq`, `l0` and `l1`.
pub proof fn lemma_transition_split(u: Seq<KoalaBear>, l0: Seq<KoalaBear>, l1: Seq<KoalaBear>, eq: Seq<KoalaBear>)
    requires
        u.len() == l0.len(),
        u.len() == l1.len(),
        u.len() == eq.len(),
    ensures
        transition_claim(u, l0, l1, eq) == dot(eq, u).spec_sub(triple_dot(eq, l0, l1)),
{
    let n = u.len();
    let fu = |i: int| eq[i].v() * u[i].v();
    let fl = |i: int| eq[i].v() * l0[i].v() * l1[i].v();
    let ft = |i: int| eq[i].v() * (u[i].v() - l0[i].v() * l1[i].v());
    let fz = |i: int| 0int;
    assert forall|i: int| 0 <= i < n implies #[trigger] transition_terms(u, l0, l1, eq)[i] == fe(ft(i)) by {
        lemma_sub_r(u[i], l0[i].v() * l1[i].v());
        lemma_mul_r(eq[i], u[i].v() - l0[i].v() * l1[i].v());
    }
    lemma_sum_terms(transition_terms(u, l0, l1, eq), ft);
    lemma_sum_terms(hadamard(eq, u), fu);
    assert forall|i: int| 0 <= i < n implies #[trigger] hadamard(hadamard(eq, l0), l1)[i] == fe(fl(i)) by {
        lemma_mul_l(eq[i].v() * l0[i].v(), l1[i]);
    }
    lemma_sum_terms(hadamard(hadamard(eq, l0), l1), fl);
    assert forall|i: int| 0 <= i < n implies #[trigger] ft(i) == 1 * fu(i) + (-1) * fl(i) + 0 * fz(i) + 0 * fz(i) by {
        let (e, a, b, c) = (eq[i].v(), u[i].v(), l0[i].v(), l1[i].v());
        assert(e * (a - b * c) == e * a - e * b * c) by (nonlinear_arith);
    }
    lemma_isum_lin4(n, fu, fl, fz, fz, 1, -1, 0, 0);
    lemma_isum_ext(n, ft, |i: int| 1 * fu(i) + (-1) * fl(i) + 0 * fz(i) + 0 * fz(i));
    lemma_fe_sub(isum_g(n, fu), isum_g(n, fl));
}

/// The round polynomial of the transition sumcheck on the current tables, at
/// `0`, `1/2` and `2`: the inner-product part minus the triple-product part,
/// with each part's value at `1` taken from its running claim.
pub open spec fn transition_round_poly(
    e: Seq<KoalaBear>,
    u: Seq<KoalaBear>,
    l0: Seq<KoalaBear>,
    l1: Seq<KoalaBear>,
) -> Seq<KoalaBear> {
    let uh0 = ip_h0(e, u);
    let uhh = ip_h_half(e, u);
    let uh1 = dot(e, u).spec_sub(uh0);
    let lh0 = tip_h0(e, l0, l1);
    let lhh = tip_h_half(e, l0, l1);
    let lh2 = tip_h2(e, l0, l1);
    seq![uh0.spec_sub(lh0), uhh.spec_sub(lhh), extrap_two(uh0, uhh, uh1).spec_sub(lh2)]
}

/// Prover state of the transition sumcheck.
#[derive(Clone)]
pub struct PermutationTransitionSumcheck {
    upper_table: Vec<KoalaBear>,
    lower_left_table: Vec<KoalaBear>,
    lower_right_table: Vec<KoalaBear>,
    eq_table: Vec<KoalaBear>,
    upper_sumcheck: IPSumcheck,
    lower_sumcheck: TIPSumcheck,
    current_upper_claim: KoalaBear,
    current_lower_claim: KoalaBear,
    current_claim: KoalaBear,
    challenges: Ghost<Seq<KoalaBear>>,
}

/// The transcript of a run.
#[derive(Debug, Clone)]
pub struct PermutationTransitionSumcheckOutput {
    /// Claimed sum over the hypercube.
    pub sum_claim: KoalaBear,
    /// Prover messages for each round, stored as `(h(0), h(1/2), h(2))`.
    pub round_polys: Vec<[KoalaBear; 3]>,
    /// Verifier challenges sampled per round.
    pub randomness: Vec<KoalaBear>,
    /// Final reduced claim.
    pub final_claim: KoalaBear,
    /// Final opening `upper(r)`.
    pub upper_value: KoalaBear,
    /// Final opening `lower_left(r)`.
    pub lower_left_value: KoalaBear,
    /// Final opening `lower_right(r)`.
    pub lower_right_value: KoalaBear,
    /// Final opening `eq(r, r_perm)`.
    pub eq_value: KoalaBear,
}

/// The quantities of one round.
struct RoundComponents {
    upper_h_0: KoalaBear,
    upper_h_half: KoalaBear,
    upper_h_1: KoalaBear,
    lower_h_0: KoalaBear,
    lower_h_half: KoalaBear,
    lower_h_1: KoalaBear,
    lower_h_two: KoalaBear,
    h_0: KoalaBear,
    h_half: KoalaBear,
    h_1: KoalaBear,
    h_two: KoalaBear,
}

/// The per-round differences add up to the difference of the claims.
proof fn lemma_round_sum(uh0: KoalaBear, lh0: KoalaBear, cu: KoalaBear, cl: KoalaBear)
    ensures
        uh0.spec_sub(lh0).spec_add(cu.spec_sub(uh0).spec_sub(cl.spec_sub(lh0))) == cu.spec_sub(cl),
{
    let (a, b, x, y) = (uh0.v(), lh0.v(), cu.v(), cl.v());
    crate::ring::lemma_sub_l(x - a, fe(y - b));
    crate::ring::lemma_fe_wf(y - b);
    lemma_fe_sub(x - a, y - b);
    lemma_fe_add(a - b, (x - a) - (y - b));
}

/// The reduced claim of one-entry tables.
proof fn lemma_final_claim(e: KoalaBear, u: KoalaBear, l0: KoalaBear, l1: KoalaBear)
    ensures
        dot(seq![e], seq![u]).spec_sub(triple_dot(seq![e], seq![l0], seq![l1])) == e.spec_mul(
            u.spec_sub(l0.spec_mul(l1)),
        ),
{
    let s1 = hadamard(seq![e], seq![u]);
    let s2 = hadamard(hadamard(seq![e], seq![l0]), seq![l1]);
    let g1 = |i: int| e.v() * u.v();
    let g2 = |i: int| e.v() * l0.v() * l1.v();
    assert(s1[0] == fe(g1(0)));
    lemma_sum_terms(s1, g1);
    lemma_mul_l(e.v() * l0.v(), l1);
    assert(s2[0] == fe(g2(0)));
    lemma_sum_terms(s2, g2);
    assert(isum_g(1, g1) == g1(0)) by {
        reveal_with_fuel(isum_g, 2);
    }
    assert(isum_g(1, g2) == g2(0)) by {
        reveal_with_fuel(isum_g, 2);
    }
    lemma_fe_sub(e.v() * u.v(), e.v() * l0.v() * l1.v());
    lemma_sub_r(u, l0.v() * l1.v());
    lemma_mul_r(e, u.v() - l0.v() * l1.v());
    assert(e.v() * (u.v() - l0.v() * l1.v()) == e.v() * u.v() - e.v() * l0.v() * l1.v()) by (nonlinear_arith);
}

/// `(cu - cl) - (u0 - l0) = (cu - u0) - (cl - l0)` in the field.
proof fn lemma_sub_regroup(cu: KoalaBear, cl: KoalaBear, u0: KoalaBear, l0: KoalaBear)
    ensures
        cu.spec_sub(cl).spec_sub(u0.spec_sub(l0)) == cu.spec_sub(u0).spec_sub(cl.spec_sub(l0)),
{
    let (a, b, x, y) = (cu.v(), cl.v(), u0.v(), l0.v());
    lemma_fe_sub(a - b, x - y);
    lemma_fe_sub(a - x, b - y);
    crate::ring::lemma_fe_wf(a - b);
    crate::ring::lemma_fe_wf(x - y);
    crate::ring::lemma_fe_wf(a - x);
    crate::ring::lemma_fe_wf(b - y);
    lemma_canon(cu.spec_sub(cl));
    lemma_canon(u0.spec_sub(l0));
    lemma_canon(cu.spec_sub(u0));
    lemma_canon(cl.spec_sub(l0));
    crate::vectors::lemma_fe_sub(a - b, x - y);
    assert((a - b) - (x - y) == (a - x) - (b - y));
}

/// The claim after a round is the round polynomial, interpolated through its
/// values at `0`, `1/2`, `1` (the running claim minus the value at `0`) and
/// `2`, evaluated at the challenge: it equals the upper part's quadratic at
/// the challenge minus the lower part's cubic there.
#[verifier::spinoff_prover]
#[verifier::rlimit(40)]
pub proof fn lemma_transition_round(
    e: Seq<KoalaBear>,
    u: Seq<KoalaBear>,
    l0: Seq<KoalaBear>,
    l1: Seq<KoalaBear>,
    c: KoalaBear,
)
    requires
        c.wf(),
    ensures
        ({
            let p = transition_round_poly(e, u, l0, l1);
            let claim = dot(e, u).spec_sub(triple_dot(e, l0, l1));
            interp_cubic(p[0], p[1], claim.spec_sub(p[0]), p[2], c)
        }) == interp_quad(ip_h0(e, u), ip_h_half(e, u), dot(e, u).spec_sub(ip_h0(e, u)), c).spec_sub(
            interp_cubic(
                tip_h0(e, l0, l1),
                tip_h_half(e, l0, l1),
                triple_dot(e, l0, l1).spec_sub(tip_h0(e, l0, l1)),
                tip_h2(e, l0, l1),
                c,
            ),
        ),
{
    let uh0 = ip_h0(e, u);
    let uhh = ip_h_half(e, u);
    let cu = dot(e, u);
    let uh1 = cu.spec_sub(uh0);
    let lh0 = tip_h0(e, l0, l1);
    let lhh = tip_h_half(e, l0, l1);
    let cl = triple_dot(e, l0, l1);
    let lh1 = cl.spec_sub(lh0);
    let lh2 = tip_h2(e, l0, l1);
    let ex = extrap_two(uh0, uhh, uh1);
    lemma_sub_regroup(cu, cl, uh0, lh0);
    lemma_sum_wf(ip_terms_0(e, u));
    lemma_sum_wf(tip_terms_0(e, l0, l1));
    lemma_sum_wf(tip_terms_two(e, l0, l1));
    lemma_sum_wf(hadamard(e, u));
    crate::ring::lemma_fe_wf(uhh.v());
    crate::ring::lemma_fe_wf(cu.v() - uh0.v());
    crate::ring::lemma_fe_wf(cl.v() - lh0.v());
    assert(uhh.wf());
    assert(lhh.wf());
    assert(ex.wf());
    assert(cl.wf()) by {
        lemma_sum_wf(hadamard(hadamard(e, l0), l1));
    }
    lemma_interp_cubic_sub(uh0, uhh, uh1, ex, lh0, lhh, lh1, lh2, c);
    lemma_cubic_extends_quad(uh0, uhh, uh1, c);
}

/// A field sum is a canonical element.
proof fn lemma_sum_wf(s: Seq<KoalaBear>)
    ensures
        sum(s).wf(),
    decreases s.len(),
{
    if s.len() == 0 {
        crate::ring::lemma_fe_wf(0);
    } else {
        crate::ring::lemma_fe_wf(sum(s.drop_last()).v() + s.last().v());
    }
}

/// The summand of the transition round polynomial at `0`:
/// `eq(0, b) (upper(0, b) - lower_left(0, b) lower_right(0, b))`.
pub open spec fn transition_terms_0(
    e: Seq<KoalaBear>,
    u: Seq<KoalaBear>,
    l0: Seq<KoalaBear>,
    l1: Seq<KoalaBear>,
) -> Seq<KoalaBear> {
    Seq::new(e.len() / 2, |b: int| e[2 * b].spec_mul(u[2 * b].spec_sub(l0[2 * b].spec_mul(l1[2 * b]))))
}

/// The round polynomial's value at `0` is one sum over the half hypercube:
/// `sum_b eq(0, b) (upper(0, b) - lower_left(0, b) lower_right(0, b))`.
pub proof fn lemma_transition_value_at_zero(e: Seq<KoalaBear>, u: Seq<KoalaBear>, l0: Seq<KoalaBear>, l1: Seq<KoalaBear>)
    requires
        u.len() == e.len(),
        l0.len() == e.len(),
        l1.len() == e.len(),
    ensures
        transition_round_poly(e, u, l0, l1)[0] == sum(transition_terms_0(e, u, l0, l1)),
{
    let tu = ip_terms_0(e, u);
    let tl = tip_terms_0(e, l0, l1);
    assert forall|b: int| 0 <= b < e.len() / 2 implies #[trigger] transition_terms_0(e, u, l0, l1)[b] == vsub(
        tu,
        tl,
    )[b] by {
        let (x, y, p, q) = (e[2 * b], u[2 * b], l0[2 * b], l1[2 * b]);
        lemma_sub_r(y, p.v() * q.v());
        lemma_mul_r(x, y.v() - p.v() * q.v());
        lemma_mul_l(x.v() * p.v(), q);
        lemma_fe_sub(x.v() * y.v(), x.v() * p.v() * q.v());
        assert(x.v() * (y.v() - p.v() * q.v()) == x.v() * y.v() - x.v() * p.v() * q.v()) by (nonlinear_arith);
    }
    assert(transition_terms_0(e, u, l0, l1) =~= vsub(tu, tl));
    lemma_sum_vsub(tu, tl);
}

/// The terms `eq(2, b) upper(2, b)` of the upper part at `2`.
pub open spec fn ip_terms_two(e: Seq<KoalaBear>, u: Seq<KoalaBear>) -> Seq<KoalaBear> {
    Seq::new(e.len() / 2, |b: int| at_two(e, b).spec_mul(at_two(u, b)))
}

/// The summand of the transition round polynomial at `2`:
/// `eq(2, b) (upper(2, b) - lower_left(2, b) lower_right(2, b))`, where a
/// table's value at `2` is `v(1) + (v(1) - v(0))`.
pub open spec fn transition_terms_2(
    e: Seq<KoalaBear>,
    u: Seq<KoalaBear>,
    l0: Seq<KoalaBear>,
    l1: Seq<KoalaBear>,
) -> Seq<KoalaBear> {
    Seq::new(
        e.len() / 2,
        |b: int| at_two(e, b).spec_mul(at_two(u, b).spec_sub(at_two(l0, b).spec_mul(at_two(l1, b)))),
    )
}

/// A table's value at `2` as the reduction of `2 v(1) - v(0)`.
proof fn lemma_at_two_int(t: Seq<KoalaBear>, b: int)
    ensures
        at_two(t, b) == fe(2 * t[2 * b + 1].v() - t[2 * b].v()),
{
    crate::ring::lemma_add_r(t[2 * b + 1], t[2 * b + 1].v() - t[2 * b].v());
}

/// The upper part's extrapolation to `2` is the sum of its terms at `2`.
proof fn lemma_ip_extrap(e: Seq<KoalaBear>, u: Seq<KoalaBear>)
    requires
        e.len() == u.len(),
        e.len() % 2 == 0,
    ensures
        extrap_two(ip_h0(e, u), ip_h_half(e, u), dot(e, u).spec_sub(ip_h0(e, u))) == sum(ip_terms_two(e, u)),
{
    let m = (e.len() / 2) as nat;
    let f0 = |j: int| e[2 * j].v() * u[2 * j].v();
    let f1 = |j: int| (e[2 * j + 1].v() - e[2 * j].v()) * u[2 * j].v() + e[2 * j].v() * (u[2 * j + 1].v() - u[2 * j].v());
    let f2 = |j: int| (e[2 * j + 1].v() - e[2 * j].v()) * (u[2 * j + 1].v() - u[2 * j].v());
    let fz = |j: int| 0int;
    let s0 = isum_g(m, f0);
    let s1 = isum_g(m, f1);
    let s2 = isum_g(m, f2);
    // At 0.
    lemma_sum_terms(ip_terms_0(e, u), f0);
    // At 1/2: four times the half terms.
    let fh = |j: int| (e[2 * j].v() + e[2 * j + 1].v()) * (u[2 * j].v() + u[2 * j + 1].v());
    assert forall|j: int| 0 <= j < m implies #[trigger] super::ip::ip_terms_half(e, u)[j] == fe(fh(j)) by {
        lemma_fe_mul(e[2 * j].v() + e[2 * j + 1].v(), u[2 * j].v() + u[2 * j + 1].v());
    }
    lemma_sum_terms(super::ip::ip_terms_half(e, u), fh);
    assert forall|j: int| 0 <= j < m implies #[trigger] fh(j) == 4 * f0(j) + 2 * f1(j) + 1 * f2(j) + 0 * fz(j) by {
        let (a0, a1, b0, b1) = (e[2 * j].v(), e[2 * j + 1].v(), u[2 * j].v(), u[2 * j + 1].v());
        assert((a0 + a1) * (b0 + b1) == 4 * (a0 * b0) + 2 * ((a1 - a0) * b0 + a0 * (b1 - b0)) + 1 * ((a1 - a0) * (b1
            - b0)) + 0 * 0) by (nonlinear_arith);
    }
    lemma_isum_ext(m, fh, |j: int| 4 * f0(j) + 2 * f1(j) + 1 * f2(j) + 0 * fz(j));
    lemma_isum_lin4(m, f0, f1, f2, fz, 4, 2, 1, 0);
    let hh = 4 * s0 + 2 * s1 + s2;
    // The whole sum.
    let g = |i: int| e[i].v() * u[i].v();
    lemma_sum_terms(hadamard(e, u), g);
    assert(2 * m == e.len());
    crate::ring::lemma_isum_pairs(m, g);
    assert forall|j: int| 0 <= j < m implies #[trigger] (g(2 * j) + g(2 * j + 1)) == 2 * f0(j) + 1 * f1(j) + 1 * f2(j)
        + 0 * fz(j) by {
        let (a0, a1, b0, b1) = (e[2 * j].v(), e[2 * j + 1].v(), u[2 * j].v(), u[2 * j + 1].v());
        assert(a0 * b0 + a1 * b1 == 2 * (a0 * b0) + 1 * ((a1 - a0) * b0 + a0 * (b1 - b0)) + 1 * ((a1 - a0) * (b1
            - b0)) + 0 * 0) by (nonlinear_arith);
    }
    lemma_isum_ext(m, |j: int| g(2 * j) + g(2 * j + 1), |j: int| 2 * f0(j) + 1 * f1(j) + 1 * f2(j) + 0 * fz(j));
    lemma_isum_lin4(m, f0, f1, f2, fz, 2, 1, 1, 0);
    let dd = 2 * s0 + s1 + s2;
    // At 2.
    let f4 = |j: int| (2 * e[2 * j + 1].v() - e[2 * j].v()) * (2 * u[2 * j + 1].v() - u[2 * j].v());
    assert forall|j: int| 0 <= j < m implies #[trigger] ip_terms_two(e, u)[j] == fe(f4(j)) by {
        lemma_at_two_int(e, j);
        lemma_at_two_int(u, j);
        lemma_fe_mul(2 * e[2 * j + 1].v() - e[2 * j].v(), 2 * u[2 * j + 1].v() - u[2 * j].v());
    }
    lemma_sum_terms(ip_terms_two(e, u), f4);
    assert forall|j: int| 0 <= j < m implies #[trigger] f4(j) == 1 * f0(j) + 2 * f1(j) + 4 * f2(j) + 0 * fz(j) by {
        let (a0, a1, b0, b1) = (e[2 * j].v(), e[2 * j + 1].v(), u[2 * j].v(), u[2 * j + 1].v());
        assert((2 * a1 - a0) * (2 * b1 - b0) == 1 * (a0 * b0) + 2 * ((a1 - a0) * b0 + a0 * (b1 - b0)) + 4 * ((a1
            - a0) * (b1 - b0)) + 0 * 0) by (nonlinear_arith);
    }
    lemma_isum_ext(m, f4, |j: int| 1 * f0(j) + 2 * f1(j) + 4 * f2(j) + 0 * fz(j));
    lemma_isum_lin4(m, f0, f1, f2, fz, 1, 2, 4, 0);
    // The field values.
    let i = 1065353217int;
    lemma_fe_mul(i, i);
    lemma_fe_mul(i * i, hh);
    lemma_fe_sub(dd, s0);
    super::lemma_extrap_two_int(s0, i * i * hh, dd - s0);
    let pp = 2130706433int;
    let k = -2 * hh * (pp + 2);
    assert(3 * s0 + 6 * (dd - s0) - 8 * (i * i * hh) - (s0 + 2 * s1 + 4 * s2) == k * pp) by (nonlinear_arith)
        requires
            i == 1065353217,
            pp == 2130706433,
            hh == 4 * s0 + 2 * s1 + s2,
            dd == 2 * s0 + s1 + s2,
            k == -2 * hh * (pp + 2),
    ;
    crate::ring::lemma_congruent(3 * s0 + 6 * (dd - s0) - 8 * (i * i * hh), s0 + 2 * s1 + 4 * s2, k);
}

/// The round polynomial's value at `2` is one sum over the half hypercube:
/// `sum_b eq(2, b) (upper(2, b) - lower_left(2, b) lower_right(2, b))`.
pub proof fn lemma_transition_value_at_two(e: Seq<KoalaBear>, u: Seq<KoalaBear>, l0: Seq<KoalaBear>, l1: Seq<KoalaBear>)
    requires
        u.len() == e.len(),
        l0.len() == e.len(),
        l1.len() == e.len(),
        e.len() % 2 == 0,
    ensures
        transition_round_poly(e, u, l0, l1)[2] == sum(transition_terms_2(e, u, l0, l1)),
{
    let tu = ip_terms_two(e, u);
    let tl = tip_terms_two(e, l0, l1);
    assert forall|b: int| 0 <= b < e.len() / 2 implies #[trigger] transition_terms_2(e, u, l0, l1)[b] == vsub(
        tu,
        tl,
    )[b] by {
        let (x, y, p, q) = (at_two(e, b), at_two(u, b), at_two(l0, b), at_two(l1, b));
        lemma_sub_r(y, p.v() * q.v());
        lemma_mul_r(x, y.v() - p.v() * q.v());
        lemma_mul_l(x.v() * p.v(), q);
        lemma_fe_sub(x.v() * y.v(), x.v() * p.v() * q.v());
        assert(x.v() * (y.v() - p.v() * q.v()) == x.v() * y.v() - x.v() * p.v() * q.v()) by (nonlinear_arith);
    }
    assert(transition_terms_2(e, u, l0, l1) =~= vsub(tu, tl));
    lemma_sum_vsub(tu, tl);
    lemma_ip_extrap(e, u);
}

/// A table's value at `1/2` in the bound variable: `v(0) + 2^{-1} (v(1) - v(0))`.
pub open spec fn at_half(t: Seq<KoalaBear>, b: int) -> KoalaBear {
    t[2 * b].spec_add(inv2().spec_mul(t[2 * b + 1].spec_sub(t[2 * b])))
}

/// The summand of the transition round polynomial at `1/2`:
/// `eq(1/2, b) (upper(1/2, b) - lower_left(1/2, b) lower_right(1/2, b))`.
pub open spec fn transition_terms_half(
    e: Seq<KoalaBear>,
    u: Seq<KoalaBear>,
    l0: Seq<KoalaBear>,
    l1: Seq<KoalaBear>,
) -> Seq<KoalaBear> {
    Seq::new(
        e.len() / 2,
        |b: int| at_half(e, b).spec_mul(at_half(u, b).spec_sub(at_half(l0, b).spec_mul(at_half(l1, b)))),
    )
}

/// A table's value at `1/2` is half the sum of its two values.
proof fn lemma_at_half_int(t: Seq<KoalaBear>, b: int)
    ensures
        at_half(t, b) == fe(1065353217 * (t[2 * b].v() + t[2 * b + 1].v())),
{
    let i = 1065353217int;
    let (x0, x1) = (t[2 * b].v(), t[2 * b + 1].v());
    lemma_fe_mul(i, x1 - x0);
    crate::ring::lemma_add_r(t[2 * b], i * (x1 - x0));
    crate::ring::lemma_congruent(x0 + i * (x1 - x0), i * (x0 + x1), -x0);
    assert(x0 + i * (x1 - x0) - i * (x0 + x1) == -x0 * 2130706433) by (nonlinear_arith)
        requires
            i == 1065353217,
    ;
}

/// `(i x) ((i y) - (i p) (i q)) = i^2 x y - i^3 x p q`.
proof fn lemma_half_product(i: int, x: int, y: int, p: int, q: int)
    ensures
        (i * x) * ((i * y) - (i * p) * (i * q)) == (i * i) * (x * y) + (-(i * i * i)) * (x * p * q) + 0 * 0 + 0 * 0,
{
    assert((i * x) * (i * y) == (i * i) * (x * y)) by (nonlinear_arith);
    assert((i * p) * (i * q) == (i * i) * (p * q)) by (nonlinear_arith);
    assert((i * x) * ((i * i) * (p * q)) == (i * i * i) * (x * p * q)) by (nonlinear_arith);
    vstd::arithmetic::mul::lemma_mul_is_distributive_sub(i * x, i * y, (i * p) * (i * q));
    assert((-(i * i * i)) * (x * p * q) == -((i * i * i) * (x * p * q))) by (nonlinear_arith);
}

/// The pair sums `t(0, j) + t(1, j)`.
pub open spec fn pair_sum(t: Seq<KoalaBear>, j: int) -> int {
    t[2 * j].v() + t[2 * j + 1].v()
}

/// One summand at `1/2` as the reduction of an integer.
proof fn lemma_half_term(e: Seq<KoalaBear>, u: Seq<KoalaBear>, l0: Seq<KoalaBear>, l1: Seq<KoalaBear>, j: int)
    requires
        0 <= j < e.len() / 2,
    ensures
        transition_terms_half(e, u, l0, l1)[j] == fe(
            (1065353217int * 1065353217int) * (pair_sum(e, j) * pair_sum(u, j)) + (-(1065353217int * 1065353217int
                * 1065353217int)) * (pair_sum(e, j) * pair_sum(l0, j) * pair_sum(l1, j)) + 0 * 0 + 0 * 0,
        ),
{
    let i = 1065353217int;
    lemma_at_half_int(e, j);
    lemma_at_half_int(u, j);
    lemma_at_half_int(l0, j);
    lemma_at_half_int(l1, j);
    let (x, y, p, q) = (pair_sum(e, j), pair_sum(u, j), pair_sum(l0, j), pair_sum(l1, j));
    lemma_fe_mul(i * p, i * q);
    lemma_fe_sub(i * y, (i * p) * (i * q));
    lemma_fe_mul(i * x, (i * y) - (i * p) * (i * q));
    lemma_half_product(i, x, y, p, q);
}

/// The round polynomial's value at `1/2` is one sum over the half hypercube:
/// `sum_b eq(1/2, b) (upper(1/2, b) - lower_left(1/2, b) lower_right(1/2, b))`.
pub proof fn lemma_transition_value_at_half(e: Seq<KoalaBear>, u: Seq<KoalaBear>, l0: Seq<KoalaBear>, l1: Seq<KoalaBear>)
    requires
        u.len() == e.len(),
        l0.len() == e.len(),
        l1.len() == e.len(),
    ensures
        transition_round_poly(e, u, l0, l1)[1] == sum(transition_terms_half(e, u, l0, l1)),
{
    let i = 1065353217int;
    let m = (e.len() / 2) as nat;
    let fu = |j: int| pair_sum(e, j) * pair_sum(u, j);
    let fl = |j: int| pair_sum(e, j) * pair_sum(l0, j) * pair_sum(l1, j);
    let fz = |j: int| 0int;
    assert forall|j: int| 0 <= j < m implies #[trigger] super::ip::ip_terms_half(e, u)[j] == fe(fu(j)) by {
        lemma_fe_mul(pair_sum(e, j), pair_sum(u, j));
    }
    lemma_sum_terms(super::ip::ip_terms_half(e, u), fu);
    assert forall|j: int| 0 <= j < m implies #[trigger] super::tip::tip_terms_half(e, l0, l1)[j] == fe(fl(j)) by {
        lemma_fe_mul(pair_sum(e, j), pair_sum(l0, j));
        lemma_fe_mul(pair_sum(e, j) * pair_sum(l0, j), pair_sum(l1, j));
    }
    lemma_sum_terms(super::tip::tip_terms_half(e, l0, l1), fl);
    let su = isum_g(m, fu);
    let sl = isum_g(m, fl);
    lemma_fe_mul(i, i);
    lemma_fe_mul(i * i, su);
    lemma_fe_mul(i * i, i);
    lemma_fe_mul(i * i * i, sl);
    lemma_fe_sub(i * i * su, i * i * i * sl);
    let ft = |j: int| (i * i) * fu(j) + (-(i * i * i)) * fl(j) + 0 * fz(j) + 0 * fz(j);
    assert forall|j: int| 0 <= j < m implies #[trigger] transition_terms_half(e, u, l0, l1)[j] == fe(ft(j)) by {
        lemma_half_term(e, u, l0, l1, j);
    }
    lemma_sum_terms(transition_terms_half(e, u, l0, l1), ft);
    lemma_isum_lin4(m, fu, fl, fz, fz, i * i, -(i * i * i), 0, 0);
    assert((i * i) * su + (-(i * i * i)) * sl + 0 * isum_g(m, fz) + 0 * isum_g(m, fz) == i * i * su - i * i * i * sl)
        by (nonlinear_arith);
}

impl PermutationTransitionSumcheck {
    pub closed spec fn spec_upper(&self) -> Seq<KoalaBear> {
        self.upper_table@
    }

    pub closed spec fn spec_lower_left(&self) -> Seq<KoalaBear> {
        self.lower_left_table@
    }

    pub closed spec fn spec_lower_right(&self) -> Seq<KoalaBear> {
        self.lower_right_table@
    }

    pub closed spec fn spec_eq(&self) -> Seq<KoalaBear> {
        self.eq_table@
    }

    /// The challenges bound so far.
    pub closed spec fn spec_challenges(&self) -> Seq<KoalaBear> {
        self.challenges@
    }

    /// The current claim about the remaining sum.
    pub closed spec fn spec_current_claim(&self) -> KoalaBear {
        self.current_claim
    }

    /// Folds one of the initial tables with the challenges so far.
    pub open spec fn folded(&self, t: Seq<KoalaBear>) -> Seq<KoalaBear> {
        fold_table(t, self.spec_challenges())
    }

    /// The number of variables still unbound.
    pub open spec fn rounds_left(&self) -> int {
        log2(self.spec_eq().len()) - self.spec_challenges().len()
    }

    /// The state is consistent: the two inner sumchecks hold the initial
    /// tables folded with the challenges so far, and the running claims are
    /// the sums over the remaining hypercube.
    pub closed spec fn wf(&self) -> bool {
        let e = fold_table(self.eq_table@, self.challenges@);
        let u = fold_table(self.upper_table@, self.challenges@);
        let l0 = fold_table(self.lower_left_table@, self.challenges@);
        let l1 = fold_table(self.lower_right_table@, self.challenges@);
        &&& self.upper_table@.len() == self.eq_table@.len()
        &&& self.lower_left_table@.len() == self.eq_table@.len()
        &&& self.lower_right_table@.len() == self.eq_table@.len()
        &&& is_pow2(self.eq_table@.len())
        &&& all_wf(self.challenges@)
        &&& self.upper_sumcheck.spec_left() == e
        &&& self.upper_sumcheck.spec_right() == u
        &&& self.lower_sumcheck.spec_first() == e
        &&& self.lower_sumcheck.spec_second() == l0
        &&& self.lower_sumcheck.spec_third() == l1
        &&& e.len() == u.len() && e.len() == l0.len() && e.len() == l1.len()
        &&& is_pow2(e.len())
        &&& log2(e.len()) + self.challenges@.len() == log2(self.eq_table@.len())
        &&& self.current_upper_claim == dot(e, u)
        &&& self.current_lower_claim == triple_dot(e, l0, l1)
        &&& self.current_claim == self.current_upper_claim.spec_sub(self.current_lower_claim)
    }

    /// Facts that follow from consistency.
    pub proof fn lemma_wf_facts(&self)
        requires
            self.wf(),
        ensures
            self.rounds_left() >= 0,
            all_wf(self.spec_challenges()),
            self.spec_upper().len() == self.spec_eq().len(),
            self.spec_lower_left().len() == self.spec_eq().len(),
            self.spec_lower_right().len() == self.spec_eq().len(),
            is_pow2(self.spec_eq().len()),
    {
    }

    /// Once every variable is bound, the tables have `2^(challenges)` entries
    /// and the folded tables one.
    pub proof fn lemma_table_lengths(&self)
        requires
            self.wf(),
            self.rounds_left() == 0,
        ensures
            self.spec_eq().len() == pow2(self.spec_challenges().len()),
            self.spec_upper().len() == pow2(self.spec_challenges().len()),
            self.spec_lower_left().len() == pow2(self.spec_challenges().len()),
            self.spec_lower_right().len() == pow2(self.spec_challenges().len()),
            self.folded(self.spec_eq()).len() == 1,
    {
        lemma_pow2_log2(self.eq_table@.len());
        let e = fold_table(self.eq_table@, self.challenges@);
        lemma_log2_zero(e.len());
    }

    /// The reduced claim formed from the openings is the last running claim.
    proof fn lemma_final(&self, e: KoalaBear, u: KoalaBear, l0: KoalaBear, l1: KoalaBear)
        requires
            self.wf(),
            self.rounds_left() == 0,
            e == mle_eval(self.spec_eq(), self.spec_challenges().reverse()),
            u == mle_eval(self.spec_upper(), self.spec_challenges().reverse()),
            l0 == mle_eval(self.spec_lower_left(), self.spec_challenges().reverse()),
            l1 == mle_eval(self.spec_lower_right(), self.spec_challenges().reverse()),
        ensures
            e.spec_mul(u.spec_sub(l0.spec_mul(l1))) == self.spec_current_claim(),
    {
        self.lemma_table_lengths();
        let ch = self.challenges@;
        assert(ch.reverse().reverse() =~= ch);
        let fe_ = fold_table(self.eq_table@, ch);
        let fu = fold_table(self.upper_table@, ch);
        let fl0 = fold_table(self.lower_left_table@, ch);
        let fl1 = fold_table(self.lower_right_table@, ch);
        assert(fe_ =~= seq![e]);
        assert(fu =~= seq![u]);
        assert(fl0 =~= seq![l0]);
        assert(fl1 =~= seq![l1]);
        lemma_final_claim(e, u, l0, l1);
    }

    /// Sets up the sumcheck for the transition claim of `tables` against `eq_table`.
    pub fn new(tables: PermutationTransitionTables, eq_table: Vec<KoalaBear>) -> (r: PermutationTransitionSumcheck)
        requires
            tables.upper@.len() == tables.lower_left@.len(),
            tables.upper@.len() == tables.lower_right@.len(),
            tables.upper@.len() == eq_table@.len(),
            is_pow2(tables.upper@.len()),
        ensures
            r.wf(),
            r.spec_upper() == tables.upper@,
            r.spec_lower_left() == tables.lower_left@,
            r.spec_lower_right() == tables.lower_right@,
            r.spec_eq() == eq_table@,
            r.spec_challenges() == Seq::<KoalaBear>::empty(),
            r.spec_current_claim() == transition_claim(tables.upper@, tables.lower_left@, tables.lower_right@, eq_table@),
    {
        let upper_table = tables.upper;
        let lower_left_table = tables.lower_left;
        let lower_right_table = tables.lower_right;
        let sum_upper_claim = super::super::claims::inner_product(eq_table.as_slice(), upper_table.as_slice());
        let sum_lower_claim = super::super::claims::triple_product(
            eq_table.as_slice(),
            lower_left_table.as_slice(),
            lower_right_table.as_slice(),
        );
        let sum_claim = transition_sum_claim(
            upper_table.as_slice(),
            lower_left_table.as_slice(),
            lower_right_table.as_slice(),
            eq_table.as_slice(),
        );
        proof {
            lemma_transition_split(upper_table@, lower_left_table@, lower_right_table@, eq_table@);
        }
        let upper_sumcheck = IPSumcheck::new(
            crate::copy_range(eq_table.as_slice(), 0, eq_table.len()),
            crate::copy_range(upper_table.as_slice(), 0, upper_table.len()),
        );
        let lower_sumcheck = TIPSumcheck::new(
            crate::copy_range(eq_table.as_slice(), 0, eq_table.len()),
            crate::copy_range(lower_left_table.as_slice(), 0, lower_left_table.len()),
            crate::copy_range(lower_right_table.as_slice(), 0, lower_right_table.len()),
        );
        proof {
            assert(eq_table@.subrange(0, eq_table@.len() as int) =~= eq_table@);
            assert(upper_table@.subrange(0, upper_table@.len() as int) =~= upper_table@);
            assert(lower_left_table@.subrange(0, lower_left_table@.len() as int) =~= lower_left_table@);
            assert(lower_right_table@.subrange(0, lower_right_table@.len() as int) =~= lower_right_table@);
        }
        PermutationTransitionSumcheck {
            upper_table,
            lower_left_table,
            lower_right_table,
            eq_table,
            upper_sumcheck,
            lower_sumcheck,
            current_upper_claim: sum_upper_claim,
            current_lower_claim: sum_lower_claim,
            current_claim: sum_claim,
            challenges: Ghost(Seq::empty()),
        }
    }

    fn round_components(&self) -> (r: RoundComponents)
        requires
            self.wf(),
            self.rounds_left() > 0,
        ensures
            ({
                let e = self.folded(self.spec_eq());
                let u = self.folded(self.spec_upper());
                let l0 = self.folded(self.spec_lower_left());
                let l1 = self.folded(self.spec_lower_right());
                let p = transition_round_poly(e, u, l0, l1);
                &&& r.upper_h_0 == ip_h0(e, u)
                &&& r.upper_h_half == ip_h_half(e, u)
                &&& r.upper_h_1 == dot(e, u).spec_sub(ip_h0(e, u))
                &&& r.lower_h_0 == tip_h0(e, l0, l1)
                &&& r.lower_h_half == tip_h_half(e, l0, l1)
                &&& r.lower_h_1 == triple_dot(e, l0, l1).spec_sub(tip_h0(e, l0, l1))
                &&& r.lower_h_two == tip_h2(e, l0, l1)
                &&& r.h_0 == p[0]
                &&& r.h_half == p[1]
                &&& r.h_two == p[2]
                &&& r.h_0.spec_add(r.h_1) == self.spec_current_claim()
            }),
    {
        proof {
            let e = fold_table(self.eq_table@, self.challenges@);
            lemma_pow2_half(e.len());
        }
        let uh = self.upper_sumcheck.compute_sumcheck_poly();
        let lh = self.lower_sumcheck.compute_sumcheck_poly();
        let upper_h_0 = uh[0];
        let upper_h_half = uh[1];
        let lower_h_0 = lh[0];
        let lower_h_half = lh[1];
        let lower_h_two = lh[2];
        let upper_h_1 = self.current_upper_claim.sub(upper_h_0);
        let lower_h_1 = self.current_lower_claim.sub(lower_h_0);
        let upper_h_two = extrapolate_quadratic_at_two(upper_h_0, upper_h_half, upper_h_1);
        let h_0 = upper_h_0.sub(lower_h_0);
        let h_half = upper_h_half.sub(lower_h_half);
        let h_1 = upper_h_1.sub(lower_h_1);
        let h_two = upper_h_two.sub(lower_h_two);
        proof {
            lemma_round_sum(upper_h_0, lower_h_0, self.current_upper_claim, self.current_lower_claim);
        }
        RoundComponents {
            upper_h_0,
            upper_h_half,
            upper_h_1,
            lower_h_0,
            lower_h_half,
            lower_h_1,
            lower_h_two,
            h_0,
            h_half,
            h_1,
            h_two,
        }
    }

    /// The round polynomial at `0`, `1/2` and `2`.
    #[verifier::rlimit(40)]
    pub fn compute_sumcheck_poly(&self) -> (r: [KoalaBear; 3])
        requires
            self.wf(),
            self.rounds_left() > 0,
        ensures
            r@ == transition_round_poly(
                self.folded(self.spec_eq()),
                self.folded(self.spec_upper()),
                self.folded(self.spec_lower_left()),
                self.folded(self.spec_lower_right()),
            ),
            ({
                let e = self.folded(self.spec_eq());
                let u = self.folded(self.spec_upper());
                let l0 = self.folded(self.spec_lower_left());
                let l1 = self.folded(self.spec_lower_right());
                r@ == seq![
                    sum(transition_terms_0(e, u, l0, l1)),
                    sum(transition_terms_half(e, u, l0, l1)),
                    sum(transition_terms_2(e, u, l0, l1)),
                ]
            }),
    {
        let round = self.round_components();
        proof {
            let e = self.folded(self.spec_eq());
            let u = self.folded(self.spec_upper());
            let l0 = self.folded(self.spec_lower_left());
            let l1 = self.folded(self.spec_lower_right());
            lemma_pow2_half(e.len());
            lemma_transition_value_at_zero(e, u, l0, l1);
            lemma_transition_value_at_half(e, u, l0, l1);
            lemma_transition_value_at_two(e, u, l0, l1);
        }
        let r = [round.h_0, round.h_half, round.h_two];
        assert(r@ =~= transition_round_poly(
            self.folded(self.spec_eq()),
            self.folded(self.spec_upper()),
            self.folded(self.spec_lower_left()),
            self.folded(self.spec_lower_right()),
        ));
        r
    }

    /// Binds the next variable to `challenge`; the running claims move to the
    /// values at `challenge` of the interpolated round polynomials.
    pub fn compress_tables(&mut self, challenge: KoalaBear)
        requires
            old(self).wf(),
            old(self).rounds_left() > 0,
            challenge.wf(),
        ensures
            final(self).wf(),
            final(self).spec_challenges() == old(self).spec_challenges().push(challenge),
            final(self).spec_upper() == old(self).spec_upper(),
            final(self).spec_lower_left() == old(self).spec_lower_left(),
            final(self).spec_lower_right() == old(self).spec_lower_right(),
            final(self).spec_eq() == old(self).spec_eq(),
            ({
                let p = transition_round_poly(
                    old(self).folded(old(self).spec_eq()),
                    old(self).folded(old(self).spec_upper()),
                    old(self).folded(old(self).spec_lower_left()),
                    old(self).folded(old(self).spec_lower_right()),
                );
                final(self).spec_current_claim() == interp_cubic(
                    p[0],
                    p[1],
                    old(self).spec_current_claim().spec_sub(p[0]),
                    p[2],
                    challenge,
                )
            }),
    {
        let round = self.round_components();
        let ghost ch = self.challenges@;
        let ghost e = fold_table(self.eq_table@, ch);
        let ghost u = fold_table(self.upper_table@, ch);
        let ghost l0 = fold_table(self.lower_left_table@, ch);
        let ghost l1 = fold_table(self.lower_right_table@, ch);
        proof {
            lemma_transition_round(e, u, l0, l1, challenge);
            lemma_pow2_half(e.len());
            lemma_ip_round(e, u, challenge);
            lemma_tip_round(e, l0, l1, challenge);
            lemma_fold_push(self.eq_table@, ch, challenge);
            lemma_fold_push(self.upper_table@, ch, challenge);
            lemma_fold_push(self.lower_left_table@, ch, challenge);
            lemma_fold_push(self.lower_right_table@, ch, challenge);
        }
        self.upper_sumcheck.compress_tables(challenge);
        self.lower_sumcheck.compress_tables(challenge);
        self.current_upper_claim = interpolate_quadratic_from_0_half_1(
            round.upper_h_0,
            round.upper_h_half,
            round.upper_h_1,
            challenge,
        );
        self.current_lower_claim = interpolate_cubic_from_0_half_1_2(
            round.lower_h_0,
            round.lower_h_half,
            round.lower_h_1,
            round.lower_h_two,
            challenge,
        );
        self.current_claim = self.current_upper_claim.sub(self.current_lower_claim);
        self.challenges = Ghost(ch.push(challenge));
        proof {
            assert forall|i: int| 0 <= i < self.challenges@.len() implies #[trigger] self.challenges@[i].wf() by {
                if i < ch.len() {
                    assert(self.challenges@[i] == ch[i]);
                }
            }
        }
    }

    /// Runs every round, drawing each challenge from `rng`, then opens the four
    /// tables at the reversed challenges and forms the reduced claim
    /// `eq(r) (u(r) - l0(r) l1(r))`, which equals the last running claim.
    pub fn run_sumcheck_protocol(&mut self, rng: &mut rand::rngs::SmallRng) -> (out:
        PermutationTransitionSumcheckOutput)
        requires
            old(self).wf(),
            old(self).spec_challenges().len() == 0,
        ensures
            final(self).wf(),
            out.sum_claim == old(self).spec_current_claim(),
            out.randomness@.len() == log2(old(self).spec_eq().len()),
            final(self).spec_challenges() == out.randomness@,
            all_wf(out.randomness@),
            out.round_polys@.len() == out.randomness@.len(),
            forall|i: int|
                0 <= i < out.round_polys@.len() ==> (#[trigger] out.round_polys@[i])@ == transition_round_poly(
                    fold_table(old(self).spec_eq(), out.randomness@.take(i)),
                    fold_table(old(self).spec_upper(), out.randomness@.take(i)),
                    fold_table(old(self).spec_lower_left(), out.randomness@.take(i)),
                    fold_table(old(self).spec_lower_right(), out.randomness@.take(i)),
                ),
            out.eq_value == mle_eval(old(self).spec_eq(), out.randomness@.reverse()),
            out.upper_value == mle_eval(old(self).spec_upper(), out.randomness@.reverse()),
            out.lower_left_value == mle_eval(old(self).spec_lower_left(), out.randomness@.reverse()),
            out.lower_right_value == mle_eval(old(self).spec_lower_right(), out.randomness@.reverse()),
            out.final_claim == out.eq_value.spec_mul(
                out.upper_value.spec_sub(out.lower_left_value.spec_mul(out.lower_right_value)),
            ),
            out.final_claim == final(self).spec_current_claim(),
    {
        let ghost start = *self;
        let sum_claim = self.current_claim;
        let mut round_polys: Vec<[KoalaBear; 3]> = Vec::new();
        let mut randomness: Vec<KoalaBear> = Vec::new();
        proof {
            self.lemma_wf_facts();
        }
        let round_count = pow2_log(self.eq_table.len());
        let mut k: usize = 0;
        while k < round_count
            invariant
                self.wf(),
                self.spec_upper() == start.spec_upper(),
                self.spec_lower_left() == start.spec_lower_left(),
                self.spec_lower_right() == start.spec_lower_right(),
                self.spec_eq() == start.spec_eq(),
                round_count == log2(self.spec_eq().len()),
                k <= round_count,
                self.spec_challenges() == randomness@,
                randomness@.len() == k,
                round_polys@.len() == randomness@.len(),
                forall|i: int|
                    0 <= i < round_polys@.len() ==> (#[trigger] round_polys@[i])@ == transition_round_poly(
                        fold_table(start.spec_eq(), randomness@.take(i)),
                        fold_table(start.spec_upper(), randomness@.take(i)),
                        fold_table(start.spec_lower_left(), randomness@.take(i)),
                        fold_table(start.spec_lower_right(), randomness@.take(i)),
                    ),
            decreases round_count - k,
        {
            let round_poly = self.compute_sumcheck_poly();
            let ghost before = randomness@;
            round_polys.push(round_poly);
            let challenge = KoalaBear::random(rng);
            randomness.push(challenge);
            self.compress_tables(challenge);
            proof {
                assert(randomness@.take(before.len() as int) =~= before);
                assert forall|i: int| 0 <= i < before.len() implies randomness@.take(i) =~= #[trigger] before.take(i) by {
                }
            }
            k += 1;
        }
        proof {
            assert(randomness@.reverse().reverse() =~= randomness@);
            self.lemma_table_lengths();
        }
        let eval_point = reversed(randomness.as_slice());
        let eq_value = evaluate_multilinear_table(self.eq_table.as_slice(), eval_point.as_slice());
        let upper_value = evaluate_multilinear_table(self.upper_table.as_slice(), eval_point.as_slice());
        let lower_left_value = evaluate_multilinear_table(self.lower_left_table.as_slice(), eval_point.as_slice());
        let lower_right_value = evaluate_multilinear_table(self.lower_right_table.as_slice(), eval_point.as_slice());
        let final_claim = eq_value.mul(upper_value.sub(lower_left_value.mul(lower_right_value)));
        proof {
            self.lemma_final(eq_value, upper_value, lower_left_value, lower_right_value);
        }
        PermutationTransitionSumcheckOutput {
            sum_claim,
            round_polys,
            randomness,
            final_claim,
            upper_value,
            lower_left_value,
            lower_right_value,
            eq_value,
        }
    }
}

/// The logarithm of a power of two.
pub fn pow2_log(n: usize) -> (r: usize)
    requires
        is_pow2(n as nat),
    ensures
        r == log2(n as nat),
{
    proof {
        lemma_log2_le(n as nat);
    }
    let mut m = n;
    let mut k: usize = 0;
    while m > 1
        invariant
            is_pow2(m as nat),
            k + log2(m as nat) == log2(n as nat),
            log2(n as nat) <= n,
        decreases m,
    {
        proof {
            lemma_pow2_half(m as nat);
        }
        m = m / 2;
        k += 1;
    }
    k
}

/// The logarithm of `n` is at most `n`.
proof fn lemma_log2_le(n: nat)
    ensures
        log2(n) <= n,
    decreases n,
{
    if n > 1 {
        lemma_log2_le(n / 2);
    }
}

/// A power of two is `2` to its logarithm.
pub proof fn lemma_pow2_log2(n: nat)
    requires
        is_pow2(n),
    ensures
        n == pow2(log2(n)),
    decreases n,
{
    if n > 1 {
        lemma_pow2_log2(n / 2);
        vstd::arithmetic::power2::lemma_pow2_unfold(log2(n));
    } else {
        vstd::arithmetic::power2::lemma2_to64();
    }
}

/// A power of two with logarithm zero is one.
proof fn lemma_log2_zero(n: nat)
    requires
        is_pow2(n),
        log2(n) == 0,
    ensures
        n == 1,
{
}

/// `v` in reverse order.
pub fn reversed(v: &[KoalaBear]) -> (r: Vec<KoalaBear>)
    ensures
        r@ == v@.reverse(),
{
    let mut out: Vec<KoalaBear> = Vec::with_capacity(v.len());
    let mut i: usize = v.len();
    while i > 0
        invariant
            i <= v@.len(),
            out@ == v@.reverse().take(v@.len() - i),
        decreases i,
    {
        i -= 1;
        out.push(v[i]);
        assert(out@ =~= v@.reverse().take(v@.len() - i));
    }
    assert(out@ =~= v@.reverse());
    out
}

} // verus!
