//! Sumcheck for the triple product `sum_x a(x) b(x) c(x)` of three tables.
use vstd::prelude::*;

use super::{compress, interp_cubic, lemma_interp_cubic_int, compress_table, fold_table, inv2, is_pow2, log2, two_inverse};
use crate::codeswitching::claims::triple_dot;
use crate::field::{fe, KoalaBear, P};
use crate::ring::{isum_g, lemma_add_r, lemma_congruent, lemma_isum_ext, lemma_isum_lin4, lemma_isum_pairs, lemma_mul_l, lemma_mul_r, lemma_sum_terms};
use crate::vectors::{hadamard, lemma_fe_mul, lemma_fe_sub};
use crate::vectors::{all_wf, lemma_sum_take_step, sum};

verus! {

/// The terms `a(0, b) b(0, b) c(0, b)` of the round polynomial at `0`.
pub open spec fn tip_terms_0(a: Seq<KoalaBear>, b: Seq<KoalaBear>, c: Seq<KoalaBear>) -> Seq<KoalaBear> {
    Seq::new(a.len() / 2, |j: int| a[2 * j].spec_mul(b[2 * j]).spec_mul(c[2 * j]))
}

/// The terms `(a(0,j) + a(1,j)) (b(0,j) + b(1,j)) (c(0,j) + c(1,j))`, eight times the terms at `1/2`.
pub open spec fn tip_terms_half(a: Seq<KoalaBear>, b: Seq<KoalaBear>, c: Seq<KoalaBear>) -> Seq<KoalaBear> {
    Seq::new(
        a.len() / 2,
        |j: int|
            a[2 * j].spec_add(a[2 * j + 1]).spec_mul(b[2 * j].spec_add(b[2 * j + 1])).spec_mul(
                c[2 * j].spec_add(c[2 * j + 1]),
            ),
    )
}

/// A table's value at `2` in the bound variable: `v(1) + (v(1) - v(0))`.
pub open spec fn at_two(t: Seq<KoalaBear>, j: int) -> KoalaBear {
    t[2 * j + 1].spec_add(t[2 * j + 1].spec_sub(t[2 * j]))
}

/// The terms `a(2, j) b(2, j) c(2, j)` of the round polynomial at `2`.
pub open spec fn tip_terms_two(a: Seq<KoalaBear>, b: Seq<KoalaBear>, c: Seq<KoalaBear>) -> Seq<KoalaBear> {
    Seq::new(a.len() / 2, |j: int| at_two(a, j).spec_mul(at_two(b, j)).spec_mul(at_two(c, j)))
}

/// The round polynomial at `0`.
pub open spec fn tip_h0(a: Seq<KoalaBear>, b: Seq<KoalaBear>, c: Seq<KoalaBear>) -> KoalaBear {
    sum(tip_terms_0(a, b, c))
}

/// The round polynomial at `1/2`: `8^{-1}` times the sum of the half terms.
pub open spec fn tip_h_half(a: Seq<KoalaBear>, b: Seq<KoalaBear>, c: Seq<KoalaBear>) -> KoalaBear {
    inv2().spec_mul(inv2()).spec_mul(inv2()).spec_mul(sum(tip_terms_half(a, b, c)))
}

/// The round polynomial at `2`.
pub open spec fn tip_h2(a: Seq<KoalaBear>, b: Seq<KoalaBear>, c: Seq<KoalaBear>) -> KoalaBear {
    sum(tip_terms_two(a, b, c))
}

/// Prover state: the three tables, with their last variables bound so far.
#[derive(Debug, Clone)]
pub struct TIPSumcheck {
    first: Vec<KoalaBear>,
    second: Vec<KoalaBear>,
    third: Vec<KoalaBear>,
}

/// The transcript of a run.
#[derive(Debug, Clone)]
pub struct TIPSumcheckOutput {
    /// Prover messages for each round, stored as `(h(0), h(1/2), h(2))`.
    pub round_polys: Vec<[KoalaBear; 3]>,
    /// Verifier challenges, in round order.
    pub randomness: Vec<KoalaBear>,
    /// Final reduced claim `a(randomness) * b(randomness) * c(randomness)`.
    pub final_claim: KoalaBear,
}

impl TIPSumcheck {
    pub closed spec fn spec_first(&self) -> Seq<KoalaBear> {
        self.first@
    }

    pub closed spec fn spec_second(&self) -> Seq<KoalaBear> {
        self.second@
    }

    pub closed spec fn spec_third(&self) -> Seq<KoalaBear> {
        self.third@
    }

    /// The three tables have one common even length.
    pub open spec fn even_tables(&self) -> bool {
        &&& self.spec_first().len() == self.spec_second().len()
        &&& self.spec_first().len() == self.spec_third().len()
        &&& self.spec_first().len() % 2 == 0
    }

    /// The first table as it stands.
    pub fn first(&self) -> (r: &[KoalaBear])
        ensures
            r@ == self.spec_first(),
    {
        self.first.as_slice()
    }

    /// The second table as it stands.
    pub fn second(&self) -> (r: &[KoalaBear])
        ensures
            r@ == self.spec_second(),
    {
        self.second.as_slice()
    }

    /// The third table as it stands.
    pub fn third(&self) -> (r: &[KoalaBear])
        ensures
            r@ == self.spec_third(),
    {
        self.third.as_slice()
    }

    pub fn new(first: Vec<KoalaBear>, second: Vec<KoalaBear>, third: Vec<KoalaBear>) -> (r: TIPSumcheck)
        ensures
            r.spec_first() == first@,
            r.spec_second() == second@,
            r.spec_third() == third@,
    {
        TIPSumcheck { first, second, third }
    }

    /// The round polynomial at `0`, `1/2` and `2`.
    pub fn compute_sumcheck_poly(&self) -> (r: [KoalaBear; 3])
        requires
            self.even_tables(),
        ensures
            r[0] == tip_h0(self.spec_first(), self.spec_second(), self.spec_third()),
            r[1] == tip_h_half(self.spec_first(), self.spec_second(), self.spec_third()),
            r[2] == tip_h2(self.spec_first(), self.spec_second(), self.spec_third()),
    {
        let n = self.first.len();
        let half = n / 2;
        let ghost a = self.first@;
        let ghost b = self.second@;
        let ghost c = self.third@;
        let mut v0 = KoalaBear::zero();
        let mut j: usize = 0;
        while j < half
            invariant
                half == a.len() / 2,
                n == a.len(),
                a == self.first@,
                b == self.second@,
                c == self.third@,
                self.even_tables(),
                j <= half,
                v0 == sum(tip_terms_0(a, b, c).take(j as int)),
            decreases half - j,
        {
            proof {
                lemma_sum_take_step(tip_terms_0(a, b, c), j as int);
            }
            v0 = v0.add(self.first[2 * j].mul(self.second[2 * j]).mul(self.third[2 * j]));
            j += 1;
        }
        assert(tip_terms_0(a, b, c).take(half as int) =~= tip_terms_0(a, b, c));
        let two_inv = two_inverse();
        let eight_inv = two_inv.square().mul(two_inv);
        let mut acc = KoalaBear::zero();
        let mut j: usize = 0;
        while j < half
            invariant
                half == a.len() / 2,
                n == a.len(),
                a == self.first@,
                b == self.second@,
                c == self.third@,
                self.even_tables(),
                j <= half,
                acc == sum(tip_terms_half(a, b, c).take(j as int)),
            decreases half - j,
        {
            proof {
                lemma_sum_take_step(tip_terms_half(a, b, c), j as int);
            }
            let s1 = self.first[2 * j].add(self.first[2 * j + 1]);
            let s2 = self.second[2 * j].add(self.second[2 * j + 1]);
            let s3 = self.third[2 * j].add(self.third[2 * j + 1]);
            acc = acc.add(s1.mul(s2).mul(s3));
            j += 1;
        }
        assert(tip_terms_half(a, b, c).take(half as int) =~= tip_terms_half(a, b, c));
        let mut v2 = KoalaBear::zero();
        let mut j: usize = 0;
        while j < half
            invariant
                half == a.len() / 2,
                n == a.len(),
                a == self.first@,
                b == self.second@,
                c == self.third@,
                self.even_tables(),
                j <= half,
                v2 == sum(tip_terms_two(a, b, c).take(j as int)),
            decreases half - j,
        {
            proof {
                lemma_sum_take_step(tip_terms_two(a, b, c), j as int);
            }
            let d1 = self.first[2 * j + 1].sub(self.first[2 * j]);
            let d2 = self.second[2 * j + 1].sub(self.second[2 * j]);
            let d3 = self.third[2 * j + 1].sub(self.third[2 * j]);
            let t1 = self.first[2 * j + 1].add(d1);
            let t2 = self.second[2 * j + 1].add(d2);
            let t3 = self.third[2 * j + 1].add(d3);
            v2 = v2.add(t1.mul(t2).mul(t3));
            j += 1;
        }
        assert(tip_terms_two(a, b, c).take(half as int) =~= tip_terms_two(a, b, c));
        [v0, eight_inv.mul(acc), v2]
    }

    /// Binds the last variable of all three tables to `challenge`.
    pub fn compress_tables(&mut self, challenge: KoalaBear)
        requires
            old(self).even_tables(),
        ensures
            final(self).spec_first() == compress(old(self).spec_first(), challenge),
            final(self).spec_second() == compress(old(self).spec_second(), challenge),
            final(self).spec_third() == compress(old(self).spec_third(), challenge),
    {
        self.first = compress_table(self.first.as_slice(), challenge);
        self.second = compress_table(self.second.as_slice(), challenge);
        self.third = compress_table(self.third.as_slice(), challenge);
    }

    /// Runs every round: each sends `(h(0), h(1/2), h(2))`, draws a challenge
    /// from `rng` and binds the last variable to it; the final claim is the
    /// product of the three one-entry tables.
    pub fn run_sumcheck_protocol(&mut self, rng: &mut rand::rngs::SmallRng) -> (out: TIPSumcheckOutput)
        requires
            old(self).spec_first().len() == old(self).spec_second().len(),
            old(self).spec_first().len() == old(self).spec_third().len(),
            is_pow2(old(self).spec_first().len()),
        ensures
            out.randomness@.len() == log2(old(self).spec_first().len()),
            out.round_polys@.len() == out.randomness@.len(),
            all_wf(out.randomness@),
            forall|i: int|
                0 <= i < out.round_polys@.len() ==> {
                    let a = fold_table(old(self).spec_first(), out.randomness@.take(i));
                    let b = fold_table(old(self).spec_second(), out.randomness@.take(i));
                    let c = fold_table(old(self).spec_third(), out.randomness@.take(i));
                    &&& #[trigger] out.round_polys@[i][0] == tip_h0(a, b, c)
                    &&& out.round_polys@[i][1] == tip_h_half(a, b, c)
                    &&& out.round_polys@[i][2] == tip_h2(a, b, c)
                },
            final(self).spec_first() == fold_table(old(self).spec_first(), out.randomness@),
            final(self).spec_second() == fold_table(old(self).spec_second(), out.randomness@),
            final(self).spec_third() == fold_table(old(self).spec_third(), out.randomness@),
            final(self).spec_first().len() == 1,
            out.final_claim == final(self).spec_first()[0].spec_mul(final(self).spec_second()[0]).spec_mul(
                final(self).spec_third()[0],
            ),
    {
        let ghost a0 = self.first@;
        let ghost b0 = self.second@;
        let ghost c0 = self.third@;
        let mut round_polys: Vec<[KoalaBear; 3]> = Vec::new();
        let mut randomness: Vec<KoalaBear> = Vec::new();
        while self.first.len() > 1
            invariant
                self.first@ == fold_table(a0, randomness@),
                self.second@ == fold_table(b0, randomness@),
                self.third@ == fold_table(c0, randomness@),
                self.first@.len() == self.second@.len(),
                self.first@.len() == self.third@.len(),
                is_pow2(self.first@.len()),
                randomness@.len() + log2(self.first@.len()) == log2(a0.len()),
                round_polys@.len() == randomness@.len(),
                all_wf(randomness@),
                forall|i: int|
                    0 <= i < round_polys@.len() ==> {
                        let a = fold_table(a0, randomness@.take(i));
                        let b = fold_table(b0, randomness@.take(i));
                        let c = fold_table(c0, randomness@.take(i));
                        &&& #[trigger] round_polys@[i][0] == tip_h0(a, b, c)
                        &&& round_polys@[i][1] == tip_h_half(a, b, c)
                        &&& round_polys@[i][2] == tip_h2(a, b, c)
                    },
            decreases self.first@.len(),
        {
            proof {
                super::lemma_pow2_half(self.first@.len());
            }
            let round_poly = self.compute_sumcheck_poly();
            let ghost before = randomness@;
            round_polys.push(round_poly);
            let alpha = KoalaBear::random(rng);
            randomness.push(alpha);
            self.compress_tables(alpha);
            proof {
                super::lemma_fold_push(a0, before, alpha);
                super::lemma_fold_push(b0, before, alpha);
                super::lemma_fold_push(c0, before, alpha);
                assert(randomness@.take(before.len() as int) =~= before);
                assert forall|i: int| 0 <= i < before.len() implies randomness@.take(i) =~= #[trigger] before.take(i) by {
                }
            }
        }
        proof {
            if self.first@.len() == 0 {
                assert(!is_pow2(0));
            }
        }
        let final_claim = self.first[0].mul(self.second[0]).mul(self.third[0]);
        TIPSumcheckOutput { round_polys, randomness, final_claim }
    }
}


/// Products of two sums, term by term.
proof fn lemma_dist_4x2(m1: int, m2: int, m3: int, m4: int, z1: int, z2: int)
    ensures
        (m1 + m2 + m3 + m4) * (z1 + z2) == m1 * z1 + m1 * z2 + m2 * z1 + m2 * z2 + m3 * z1 + m3 * z2 + m4 * z1 + m4
            * z2,
{
    assert((m1 + m2 + m3 + m4) * (z1 + z2) == (m1 + m2 + m3 + m4) * z1 + (m1 + m2 + m3 + m4) * z2) by (nonlinear_arith);
    assert((m1 + m2 + m3 + m4) * z1 == m1 * z1 + m2 * z1 + m3 * z1 + m4 * z1) by (nonlinear_arith);
    assert((m1 + m2 + m3 + m4) * z2 == m1 * z2 + m2 * z2 + m3 * z2 + m4 * z2) by (nonlinear_arith);
}

/// Swapping the middle factors of a product of two products.
proof fn lemma_swap4(a: int, b: int, c: int, d: int)
    ensures
        (a * b) * (c * d) == (a * c) * (b * d),
{
    vstd::arithmetic::mul::lemma_mul_is_associative(a, b, c * d);
    vstd::arithmetic::mul::lemma_mul_is_associative(b, c, d);
    vstd::arithmetic::mul::lemma_mul_is_commutative(b, c);
    vstd::arithmetic::mul::lemma_mul_is_associative(c, b, d);
    vstd::arithmetic::mul::lemma_mul_is_associative(a, c, b * d);
}

/// Rearranging a product of three scaled factors.
proof fn lemma_mono3(s1: int, u: int, s2: int, v: int, s3: int, w: int)
    ensures
        ((s1 * u) * (s2 * v)) * (s3 * w) == (s1 * s2 * s3) * (u * v * w),
{
    lemma_swap4(s1, u, s2, v);
    lemma_swap4(s1 * s2, u * v, s3, w);
}

/// A common factor of three terms.
proof fn lemma_factor3(k: int, u: int, v: int, w: int)
    ensures
        k * u + k * v + k * w == k * (u + v + w),
{
    assert(k * u + k * v + k * w == k * (u + v + w)) by (nonlinear_arith);
}

/// `(s x0 + t dx)(s y0 + t dy)(s z0 + t dz)` with its coefficients in `s`, `t` spelled out.
proof fn lemma_affine3(x0: int, dx: int, y0: int, dy: int, z0: int, dz: int, s: int, t: int)
    ensures
        ((s * x0 + t * dx) * (s * y0 + t * dy)) * (s * z0 + t * dz) == (s * s * s) * (x0 * y0 * z0) + (s * s
            * t) * (dx * y0 * z0 + x0 * dy * z0 + x0 * y0 * dz) + (s * t * t) * (dx * dy * z0 + dx * y0 * dz + x0
            * dy * dz) + (t * t * t) * (dx * dy * dz),
{
    let xa = s * x0;
    let xb = t * dx;
    let ya = s * y0;
    let yb = t * dy;
    let za = s * z0;
    let zb = t * dz;
    assert((xa + xb) * (ya + yb) == xa * ya + xa * yb + xb * ya + xb * yb) by (nonlinear_arith);
    lemma_dist_4x2(xa * ya, xa * yb, xb * ya, xb * yb, za, zb);
    lemma_mono3(s, x0, s, y0, s, z0);
    lemma_mono3(s, x0, s, y0, t, dz);
    lemma_mono3(s, x0, t, dy, s, z0);
    lemma_mono3(s, x0, t, dy, t, dz);
    lemma_mono3(t, dx, s, y0, s, z0);
    lemma_mono3(t, dx, s, y0, t, dz);
    lemma_mono3(t, dx, t, dy, s, z0);
    lemma_mono3(t, dx, t, dy, t, dz);
    assert(s * s * t == s * t * s && s * s * t == t * s * s) by (nonlinear_arith);
    assert(s * t * t == t * s * t && s * t * t == t * t * s) by (nonlinear_arith);
    lemma_factor3(s * s * t, dx * y0 * z0, x0 * dy * z0, x0 * y0 * dz);
    lemma_factor3(s * t * t, dx * dy * z0, dx * y0 * dz, x0 * dy * dz);
}

/// Regrouping the interpolation by the four coefficient sums.
proof fn lemma_regroup(s0: int, s1: int, s2: int, s3: int, l0: int, lh: int, l1: int, l2: int, i3: int)
    ensures
        s0 * l0 + (i3 * (8 * s0 + 4 * s1 + 2 * s2 + s3)) * lh + ((2 * s0 + s1 + s2 + s3) - s0) * l1 + (s0 + 2 * s1
            + 4 * s2 + 8 * s3) * l2 == s0 * (l0 + 8 * i3 * lh + l1 + l2) + s1 * (4 * i3 * lh + l1 + 2 * l2) + s2
            * (2 * i3 * lh + l1 + 4 * l2) + s3 * (i3 * lh + l1 + 8 * l2),
{
    let w = i3 * lh;
    assert((i3 * (8 * s0 + 4 * s1 + 2 * s2 + s3)) * lh == (8 * s0 + 4 * s1 + 2 * s2 + s3) * w) by (nonlinear_arith)
        requires
            w == i3 * lh,
    ;
    assert((8 * s0 + 4 * s1 + 2 * s2 + s3) * w == 8 * (s0 * w) + 4 * (s1 * w) + 2 * (s2 * w) + s3 * w) by (nonlinear_arith);
    assert(((2 * s0 + s1 + s2 + s3) - s0) * l1 == s0 * l1 + s1 * l1 + s2 * l1 + s3 * l1) by (nonlinear_arith);
    assert((s0 + 2 * s1 + 4 * s2 + 8 * s3) * l2 == s0 * l2 + 2 * (s1 * l2) + 4 * (s2 * l2) + 8 * (s3 * l2)) by (nonlinear_arith);
    assert(s0 * (l0 + 8 * w + l1 + l2) == s0 * l0 + 8 * (s0 * w) + s0 * l1 + s0 * l2) by (nonlinear_arith);
    assert(s1 * (4 * w + l1 + 2 * l2) == 4 * (s1 * w) + s1 * l1 + 2 * (s1 * l2)) by (nonlinear_arith);
    assert(s2 * (2 * w + l1 + 4 * l2) == 2 * (s2 * w) + s2 * l1 + 4 * (s2 * l2)) by (nonlinear_arith);
    assert(s3 * (w + l1 + 8 * l2) == s3 * w + s3 * l1 + 8 * (s3 * l2)) by (nonlinear_arith);
    assert(8 * i3 * lh == 8 * w && 4 * i3 * lh == 4 * w && 2 * i3 * lh == 2 * w) by (nonlinear_arith)
        requires
            w == i3 * lh,
    ;
}

/// Collecting the multiples of `p`.
proof fn lemma_collect(
    s0: int,
    s1: int,
    s2: int,
    s3: int,
    e0: int,
    e1: int,
    e2: int,
    e3: int,
    q0: int,
    q1: int,
    q2: int,
    q3: int,
    x: int,
    pp: int,
)
    requires
        e0 - 1 == pp * q0,
        e1 - x == pp * q1,
        e2 - x * x == pp * q2,
        e3 - x * x * x == pp * q3,
    ensures
        s0 * e0 + s1 * e1 + s2 * e2 + s3 * e3 - (s0 + x * s1 + (x * x) * s2 + (x * x * x) * s3) == pp * (s0 * q0
            + s1 * q1 + s2 * q2 + s3 * q3),
{
    assert(s0 * e0 - s0 == s0 * (pp * q0)) by (nonlinear_arith)
        requires
            e0 - 1 == pp * q0,
    ;
    assert(s1 * e1 - x * s1 == s1 * (pp * q1)) by (nonlinear_arith)
        requires
            e1 - x == pp * q1,
    ;
    assert(s2 * e2 - (x * x) * s2 == s2 * (pp * q2)) by (nonlinear_arith)
        requires
            e2 - x * x == pp * q2,
    ;
    assert(s3 * e3 - (x * x * x) * s3 == s3 * (pp * q3)) by (nonlinear_arith)
        requires
            e3 - x * x * x == pp * q3,
    ;
    assert(s0 * (pp * q0) == pp * (s0 * q0)) by (nonlinear_arith);
    assert(s1 * (pp * q1) == pp * (s1 * q1)) by (nonlinear_arith);
    assert(s2 * (pp * q2) == pp * (s2 * q2)) by (nonlinear_arith);
    assert(s3 * (pp * q3) == pp * (s3 * q3)) by (nonlinear_arith);
    let u0 = s0 * q0;
    let u1 = s1 * q1;
    let u2 = s2 * q2;
    let u3 = s3 * q3;
    assert(pp * u0 + pp * u1 + pp * u2 + pp * u3 == pp * (u0 + u1 + u2 + u3)) by (nonlinear_arith);
}

/// The four coefficients, in the bound variable, of the product of pair `j` of the three tables.
pub open spec fn tk(a: Seq<KoalaBear>, b: Seq<KoalaBear>, e: Seq<KoalaBear>, j: int, k: int) -> int {
    let (a0, a1, b0, b1, e0, e1) = (a[2 * j].v(), a[2 * j + 1].v(), b[2 * j].v(), b[2 * j + 1].v(), e[2 * j].v(), e[2
        * j + 1].v());
    let (da, db, de) = (a1 - a0, b1 - b0, e1 - e0);
    if k == 0 {
        a0 * b0 * e0
    } else if k == 1 {
        da * b0 * e0 + a0 * db * e0 + a0 * b0 * de
    } else if k == 2 {
        da * db * e0 + da * b0 * de + a0 * db * de
    } else {
        da * db * de
    }
}

/// The sum over all pairs of coefficient `k`.
pub open spec fn tsum(a: Seq<KoalaBear>, b: Seq<KoalaBear>, e: Seq<KoalaBear>, k: int) -> int {
    isum_g((a.len() / 2) as nat, |j: int| tk(a, b, e, j, k))
}

/// The sum over the pairs of `s0 k0 + s1 k1 + s2 k2 + s3 k3`.
proof fn lemma_tsum_lin(
    a: Seq<KoalaBear>,
    b: Seq<KoalaBear>,
    e: Seq<KoalaBear>,
    g: spec_fn(int) -> int,
    x0: int,
    x1: int,
    x2: int,
    x3: int,
)
    requires
        forall|j: int|
            0 <= j < a.len() / 2 ==> #[trigger] g(j) == x0 * tk(a, b, e, j, 0) + x1 * tk(a, b, e, j, 1) + x2 * tk(
                a,
                b,
                e,
                j,
                2,
            ) + x3 * tk(a, b, e, j, 3),
    ensures
        isum_g((a.len() / 2) as nat, g) == x0 * tsum(a, b, e, 0) + x1 * tsum(a, b, e, 1) + x2 * tsum(a, b, e, 2)
            + x3 * tsum(a, b, e, 3),
{
    let m = (a.len() / 2) as nat;
    let f0 = |j: int| tk(a, b, e, j, 0);
    let f1 = |j: int| tk(a, b, e, j, 1);
    let f2 = |j: int| tk(a, b, e, j, 2);
    let f3 = |j: int| tk(a, b, e, j, 3);
    lemma_isum_lin4(m, f0, f1, f2, f3, x0, x1, x2, x3);
    lemma_isum_ext(m, g, |j: int| x0 * f0(j) + x1 * f1(j) + x2 * f2(j) + x3 * f3(j));
}

/// The round values of the triple-product sumcheck as reductions of
/// combinations of the coefficient sums.
proof fn lemma_tip_values(a: Seq<KoalaBear>, b: Seq<KoalaBear>, e: Seq<KoalaBear>)
    requires
        a.len() == b.len(),
        a.len() == e.len(),
        a.len() % 2 == 0,
    ensures
        sum(tip_terms_0(a, b, e)) == fe(tsum(a, b, e, 0)),
        sum(tip_terms_half(a, b, e)) == fe(
            8 * tsum(a, b, e, 0) + 4 * tsum(a, b, e, 1) + 2 * tsum(a, b, e, 2) + 1 * tsum(a, b, e, 3),
        ),
        sum(tip_terms_two(a, b, e)) == fe(
            1 * tsum(a, b, e, 0) + 2 * tsum(a, b, e, 1) + 4 * tsum(a, b, e, 2) + 8 * tsum(a, b, e, 3),
        ),
{
    let m = (a.len() / 2) as nat;
    let k0 = |j: int| tk(a, b, e, j, 0);
    assert forall|j: int| 0 <= j < m implies #[trigger] tip_terms_0(a, b, e)[j] == fe(k0(j)) by {
        lemma_mul_l(a[2 * j].v() * b[2 * j].v(), e[2 * j]);
    }
    lemma_sum_terms(tip_terms_0(a, b, e), k0);
    let fhh = |j: int|
        ((a[2 * j].v() + a[2 * j + 1].v()) * (b[2 * j].v() + b[2 * j + 1].v())) * (e[2 * j].v() + e[2 * j
            + 1].v());
    assert forall|j: int| 0 <= j < m implies #[trigger] tip_terms_half(a, b, e)[j] == fe(fhh(j)) by {
        lemma_fe_mul(a[2 * j].v() + a[2 * j + 1].v(), b[2 * j].v() + b[2 * j + 1].v());
        lemma_fe_mul(
            (a[2 * j].v() + a[2 * j + 1].v()) * (b[2 * j].v() + b[2 * j + 1].v()),
            e[2 * j].v() + e[2 * j + 1].v(),
        );
    }
    lemma_sum_terms(tip_terms_half(a, b, e), fhh);
    assert forall|j: int| 0 <= j < m implies #[trigger] fhh(j) == 8 * tk(a, b, e, j, 0) + 4 * tk(a, b, e, j, 1)
        + 2 * tk(a, b, e, j, 2) + 1 * tk(a, b, e, j, 3) by {
        let (a0, a1, b0, b1, e0, e1) = (a[2 * j].v(), a[2 * j + 1].v(), b[2 * j].v(), b[2 * j + 1].v(), e[2
            * j].v(), e[2 * j + 1].v());
        lemma_affine3(a0, a1 - a0, b0, b1 - b0, e0, e1 - e0, 2, 1);
    }
    lemma_tsum_lin(a, b, e, fhh, 8, 4, 2, 1);
    let ftw = |j: int|
        ((a[2 * j + 1].v() + (a[2 * j + 1].v() - a[2 * j].v())) * (b[2 * j + 1].v() + (b[2 * j + 1].v() - b[2
            * j].v()))) * (e[2 * j + 1].v() + (e[2 * j + 1].v() - e[2 * j].v()));
    assert forall|j: int| 0 <= j < m implies #[trigger] tip_terms_two(a, b, e)[j] == fe(ftw(j)) by {
        lemma_add_r(a[2 * j + 1], a[2 * j + 1].v() - a[2 * j].v());
        lemma_add_r(b[2 * j + 1], b[2 * j + 1].v() - b[2 * j].v());
        lemma_add_r(e[2 * j + 1], e[2 * j + 1].v() - e[2 * j].v());
        let ta = a[2 * j + 1].v() + (a[2 * j + 1].v() - a[2 * j].v());
        let tb = b[2 * j + 1].v() + (b[2 * j + 1].v() - b[2 * j].v());
        let te = e[2 * j + 1].v() + (e[2 * j + 1].v() - e[2 * j].v());
        lemma_fe_mul(ta, tb);
        lemma_fe_mul(ta * tb, te);
    }
    lemma_sum_terms(tip_terms_two(a, b, e), ftw);
    assert forall|j: int| 0 <= j < m implies #[trigger] ftw(j) == 1 * tk(a, b, e, j, 0) + 2 * tk(a, b, e, j, 1)
        + 4 * tk(a, b, e, j, 2) + 8 * tk(a, b, e, j, 3) by {
        let (a0, a1, b0, b1, e0, e1) = (a[2 * j].v(), a[2 * j + 1].v(), b[2 * j].v(), b[2 * j + 1].v(), e[2
            * j].v(), e[2 * j + 1].v());
        lemma_affine3(a0, a1 - a0, b0, b1 - b0, e0, e1 - e0, 1, 2);
    }
    lemma_tsum_lin(a, b, e, ftw, 1, 2, 4, 8);
}

/// The claim and the triple product after binding to `c`, as reductions of
/// combinations of the coefficient sums.
proof fn lemma_tip_claims(a: Seq<KoalaBear>, b: Seq<KoalaBear>, e: Seq<KoalaBear>, c: KoalaBear)
    requires
        a.len() == b.len(),
        a.len() == e.len(),
        a.len() % 2 == 0,
        c.wf(),
    ensures
        triple_dot(a, b, e) == fe(
            2 * tsum(a, b, e, 0) + 1 * tsum(a, b, e, 1) + 1 * tsum(a, b, e, 2) + 1 * tsum(a, b, e, 3),
        ),
        triple_dot(compress(a, c), compress(b, c), compress(e, c)) == fe(
            1 * tsum(a, b, e, 0) + c.v() * tsum(a, b, e, 1) + (c.v() * c.v()) * tsum(a, b, e, 2) + (c.v() * c.v()
                * c.v()) * tsum(a, b, e, 3),
        ),
{
    let m = (a.len() / 2) as nat;
    let x = c.v();
    let fp = |i: int| a[i].v() * b[i].v() * e[i].v();
    assert forall|i: int| 0 <= i < a.len() implies #[trigger] hadamard(hadamard(a, b), e)[i] == fe(fp(i)) by {
        lemma_mul_l(a[i].v() * b[i].v(), e[i]);
    }
    lemma_sum_terms(hadamard(hadamard(a, b), e), fp);
    assert(2 * m == a.len());
    lemma_isum_pairs(m, fp);
    let fcl = |j: int| fp(2 * j) + fp(2 * j + 1);
    assert forall|j: int| 0 <= j < m implies #[trigger] fcl(j) == 2 * tk(a, b, e, j, 0) + 1 * tk(a, b, e, j, 1) + 1
        * tk(a, b, e, j, 2) + 1 * tk(a, b, e, j, 3) by {
        let (a0, a1, b0, b1, e0, e1) = (a[2 * j].v(), a[2 * j + 1].v(), b[2 * j].v(), b[2 * j + 1].v(), e[2
            * j].v(), e[2 * j + 1].v());
        lemma_affine3(a0, a1 - a0, b0, b1 - b0, e0, e1 - e0, 1, 1);
        lemma_affine3(a0, a1 - a0, b0, b1 - b0, e0, e1 - e0, 1, 0);
        assert(1 * a0 + 1 * (a1 - a0) == a1);
        assert(1 * b0 + 1 * (b1 - b0) == b1);
        assert(1 * e0 + 1 * (e1 - e0) == e1);
        assert(1 * a0 + 0 * (a1 - a0) == a0);
        assert(1 * b0 + 0 * (b1 - b0) == b0);
        assert(1 * e0 + 0 * (e1 - e0) == e0);
    }
    lemma_tsum_lin(a, b, e, fcl, 2, 1, 1, 1);
    let ca = compress(a, c);
    let cb = compress(b, c);
    let ce = compress(e, c);
    let fcc = |j: int|
        ((a[2 * j].v() + x * (a[2 * j + 1].v() - a[2 * j].v())) * (b[2 * j].v() + x * (b[2 * j + 1].v() - b[2
            * j].v()))) * (e[2 * j].v() + x * (e[2 * j + 1].v() - e[2 * j].v()));
    assert forall|j: int| 0 <= j < m implies #[trigger] hadamard(hadamard(ca, cb), ce)[j] == fe(fcc(j)) by {
        let (a0, a1, b0, b1, e0, e1) = (a[2 * j], a[2 * j + 1], b[2 * j], b[2 * j + 1], e[2 * j], e[2 * j + 1]);
        lemma_mul_r(c, a1.v() - a0.v());
        lemma_add_r(a0, x * (a1.v() - a0.v()));
        lemma_mul_r(c, b1.v() - b0.v());
        lemma_add_r(b0, x * (b1.v() - b0.v()));
        lemma_mul_r(c, e1.v() - e0.v());
        lemma_add_r(e0, x * (e1.v() - e0.v()));
        let ta = a0.v() + x * (a1.v() - a0.v());
        let tb = b0.v() + x * (b1.v() - b0.v());
        let te = e0.v() + x * (e1.v() - e0.v());
        lemma_fe_mul(ta, tb);
        lemma_fe_mul(ta * tb, te);
    }
    lemma_sum_terms(hadamard(hadamard(ca, cb), ce), fcc);
    assert forall|j: int| 0 <= j < m implies #[trigger] fcc(j) == 1 * tk(a, b, e, j, 0) + x * tk(a, b, e, j, 1) + (x
        * x) * tk(a, b, e, j, 2) + (x * x * x) * tk(a, b, e, j, 3) by {
        let (a0, a1, b0, b1, e0, e1) = (a[2 * j].v(), a[2 * j + 1].v(), b[2 * j].v(), b[2 * j + 1].v(), e[2
            * j].v(), e[2 * j + 1].v());
        lemma_affine3(a0, a1 - a0, b0, b1 - b0, e0, e1 - e0, 1, x);
    }
    lemma_tsum_lin(a, b, e, fcc, 1, x, x * x, x * x * x);
}

/// Lagrange interpolation through the values of a cubic with coefficient sums
/// `s0, ..., s3` gives back the cubic's value at the point.
proof fn lemma_cubic_congruence(s0: int, s1: int, s2: int, s3: int, c: KoalaBear)
    requires
        c.wf(),
    ensures
        ({
            let i3 = 1065353217int * 1065353217int * 1065353217int;
            interp_cubic(
                fe(s0),
                fe(i3 * (8 * s0 + 4 * s1 + 2 * s2 + 1 * s3)),
                fe((2 * s0 + 1 * s1 + 1 * s2 + 1 * s3) - s0),
                fe(1 * s0 + 2 * s1 + 4 * s2 + 8 * s3),
                c,
            ) == fe(1 * s0 + c.v() * s1 + (c.v() * c.v()) * s2 + (c.v() * c.v() * c.v()) * s3)
        }),
{
    let x = c.v();
    let i3 = 1065353217int * 1065353217int * 1065353217int;
    let shh = 8 * s0 + 4 * s1 + 2 * s2 + 1 * s3;
    lemma_interp_cubic_int(s0, i3 * shh, (2 * s0 + 1 * s1 + 1 * s2 + 1 * s3) - s0, 1 * s0 + 2 * s1 + 4 * s2 + 8
        * s3, c);
    let ii = 1065353217int;
    let jj = 710235478int;
    let x2 = x * x;
    let x3 = x * x * x;
    let l0 = -(x3 - (ii + 3) * x2 + (3 * ii + 2) * x - 2 * ii);
    let lh = (8 * jj) * (x3 - 3 * x2 + 2 * x);
    let l1 = -2 * (x3 - (ii + 2) * x2 + (2 * ii) * x);
    let l2 = jj * (x3 - (ii + 1) * x2 + ii * x);
    let res = s0 * l0 + (i3 * shh) * lh + ((2 * s0 + 1 * s1 + 1 * s2 + 1 * s3) - s0) * l1 + (1 * s0 + 2 * s1 + 4
        * s2 + 8 * s3) * l2;
    lemma_regroup(s0, s1, s2, s3, l0, lh, l1, l2, i3);
    assert(i3 == 1209151906314928986691469313int);
    let e0 = l0 + 8 * i3 * lh + l1 + l2;
    let e1 = 4 * i3 * lh + l1 + 2 * l2;
    let e2 = 2 * i3 * lh + l1 + 4 * l2;
    let e3 = i3 * lh + l1 + 8 * l2;
    let q0 = 25795240680158244809470552787int * x3 - 77385722040474734428766776098int * x2
        + 51590481360316489619296223309int * x + 1;
    let q1 = 12897620340079122404735276394int * x3 - 38692861020237367214916064658int * x2
        + 25795240680158244810180788263int * x;
    let q2 = 6448810170039561202367638198int * x3 - 19346430510118683608523385547int * x2
        + 12897620340079122406155747348int * x;
    let q3 = 3224405085019780601183819101int * x3 - 9673215255059341806392399210int * x2
        + 6448810170039561205208580108int * x;
    assert(l0 == -x3 + 1065353220 * x2 - 3196059653 * x + 2130706434);
    assert(lh == 5681883824 * x3 - 17045651472 * x2 + 11363767648 * x);
    assert(l1 == -2 * x3 + 2130706438 * x2 - 4261412868 * x);
    assert(l2 == 710235478 * x3 - 756651652025068204 * x2 + 756651651314832726 * x);
    assert(e0 == 54962085257996467673527766147326978771int * x3 - 164886255773989403021339950088679238434int * x2
        + 109924170515992935347812183937090846797int * x + 2130706434);
    assert(e0 - 1 == (P as int) * q0);
    assert(e1 - x == (P as int) * q1);
    assert(e2 - x2 == (P as int) * q2);
    assert(e3 - x3 == (P as int) * q3);
    lemma_collect(s0, s1, s2, s3, e0, e1, e2, e3, q0, q1, q2, q3, x, P as int);
    lemma_congruent(res, 1 * s0 + x * s1 + (x * x) * s2 + (x * x * x) * s3, s0 * q0 + s1 * q1 + s2 * q2 + s3 * q3);
}

/// A round of the triple-product sumcheck is consistent: with the claim
/// `sigma = sum_x a(x) b(x) c(x)`, the cubic through `h(0)`, `h(1/2)`,
/// `h(1) = sigma - h(0)` and `h(2)`, evaluated at any challenge, is the triple
/// product of the three tables with their last variable bound to it.
pub proof fn lemma_tip_round(a: Seq<KoalaBear>, b: Seq<KoalaBear>, e: Seq<KoalaBear>, c: KoalaBear)
    requires
        a.len() == b.len(),
        a.len() == e.len(),
        a.len() % 2 == 0,
        c.wf(),
    ensures
        interp_cubic(
            tip_h0(a, b, e),
            tip_h_half(a, b, e),
            triple_dot(a, b, e).spec_sub(tip_h0(a, b, e)),
            tip_h2(a, b, e),
            c,
        ) == triple_dot(compress(a, c), compress(b, c), compress(e, c)),
{
    let s0 = tsum(a, b, e, 0);
    let s1 = tsum(a, b, e, 1);
    let s2 = tsum(a, b, e, 2);
    let s3 = tsum(a, b, e, 3);
    lemma_tip_values(a, b, e);
    lemma_tip_claims(a, b, e, c);
    let i2: int = 1065353217;
    let shh = 8 * s0 + 4 * s1 + 2 * s2 + 1 * s3;
    lemma_fe_mul(i2, i2);
    lemma_fe_mul(i2 * i2, i2);
    lemma_fe_mul(i2 * i2 * i2, shh);
    lemma_fe_sub(2 * s0 + 1 * s1 + 1 * s2 + 1 * s3, s0);
    lemma_cubic_congruence(s0, s1, s2, s3, c);
}

} // verus!
