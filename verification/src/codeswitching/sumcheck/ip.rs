//! Sumcheck for the inner product `sum_x l(x) r(x)` of two tables.
use vstd::prelude::*;

use super::{compress, interp_quad, compress_table, fold_table, inv2, is_pow2, log2, two_inverse};
use crate::field::{fe, KoalaBear, P};
use crate::ring::{isum_g, lemma_add_r, lemma_congruent, lemma_isum_ext, lemma_isum_lin4, lemma_isum_pairs, lemma_mul_r, lemma_sum_terms};
use crate::vectors::{dot, hadamard, lemma_fe_add, lemma_fe_mul, lemma_fe_sub};
use crate::vectors::{all_wf, lemma_sum_take_step, sum};

verus! {

/// The terms `l(0, b) r(0, b)` of the round polynomial at `0`.
pub open spec fn ip_terms_0(l: Seq<KoalaBear>, r: Seq<KoalaBear>) -> Seq<KoalaBear> {
    Seq::new(l.len() / 2, |b: int| l[2 * b].spec_mul(r[2 * b]))
}

/// The terms `(l(0, b) + l(1, b)) (r(0, b) + r(1, b))`, four times the terms at `1/2`.
pub open spec fn ip_terms_half(l: Seq<KoalaBear>, r: Seq<KoalaBear>) -> Seq<KoalaBear> {
    Seq::new(
        l.len() / 2,
        |b: int| l[2 * b].spec_add(l[2 * b + 1]).spec_mul(r[2 * b].spec_add(r[2 * b + 1])),
    )
}

/// The round polynomial at `0`: `sum_b l(0, b) r(0, b)`.
pub open spec fn ip_h0(l: Seq<KoalaBear>, r: Seq<KoalaBear>) -> KoalaBear {
    sum(ip_terms_0(l, r))
}

/// The round polynomial at `1/2`: `4^{-1} sum_b (l(0,b) + l(1,b)) (r(0,b) + r(1,b))`.
pub open spec fn ip_h_half(l: Seq<KoalaBear>, r: Seq<KoalaBear>) -> KoalaBear {
    inv2().spec_mul(inv2()).spec_mul(sum(ip_terms_half(l, r)))
}

/// Prover state: the two tables, with their last variables bound so far.
#[derive(Debug, Clone)]
pub struct IPSumcheck {
    left: Vec<KoalaBear>,
    right: Vec<KoalaBear>,
}

/// The transcript of a run.
#[derive(Debug, Clone)]
pub struct IPSumcheckOutput {
    /// Prover messages for each round, stored as `(h(0), h(1/2))`.
    pub round_polys: Vec<[KoalaBear; 2]>,
    /// Verifier challenges, in round order.
    pub randomness: Vec<KoalaBear>,
    /// Final reduced claim `l(randomness) * r(randomness)`.
    pub final_claim: KoalaBear,
}

impl IPSumcheck {
    pub closed spec fn spec_left(&self) -> Seq<KoalaBear> {
        self.left@
    }

    pub closed spec fn spec_right(&self) -> Seq<KoalaBear> {
        self.right@
    }

    /// The left table as it stands.
    pub fn left(&self) -> (r: &[KoalaBear])
        ensures
            r@ == self.spec_left(),
    {
        self.left.as_slice()
    }

    /// The right table as it stands.
    pub fn right(&self) -> (r: &[KoalaBear])
        ensures
            r@ == self.spec_right(),
    {
        self.right.as_slice()
    }

    pub fn new(left: Vec<KoalaBear>, right: Vec<KoalaBear>) -> (r: IPSumcheck)
        ensures
            r.spec_left() == left@,
            r.spec_right() == right@,
    {
        IPSumcheck { left, right }
    }

    /// The round polynomial at `0` and at `1/2`.
    pub fn compute_sumcheck_poly(&self) -> (r: [KoalaBear; 2])
        requires
            self.spec_left().len() == self.spec_right().len(),
            self.spec_left().len() % 2 == 0,
        ensures
            r[0] == ip_h0(self.spec_left(), self.spec_right()),
            r[1] == ip_h_half(self.spec_left(), self.spec_right()),
    {
        let n = self.left.len();
        let half = n / 2;
        let ghost l = self.left@;
        let ghost rt = self.right@;
        let mut v0 = KoalaBear::zero();
        let mut b: usize = 0;
        while b < half
            invariant
                half == l.len() / 2,
                n == l.len(),
                l == self.left@,
                rt == self.right@,
                l.len() == rt.len(),
                l.len() % 2 == 0,
                b <= half,
                v0 == sum(ip_terms_0(l, rt).take(b as int)),
            decreases half - b,
        {
            proof {
                lemma_sum_take_step(ip_terms_0(l, rt), b as int);
            }
            v0 = v0.add(self.left[2 * b].mul(self.right[2 * b]));
            b += 1;
        }
        assert(ip_terms_0(l, rt).take(half as int) =~= ip_terms_0(l, rt));
        let two_inv = two_inverse();
        let four_inv = two_inv.square();
        let mut acc = KoalaBear::zero();
        let mut b: usize = 0;
        while b < half
            invariant
                half == l.len() / 2,
                n == l.len(),
                l == self.left@,
                rt == self.right@,
                l.len() == rt.len(),
                l.len() % 2 == 0,
                b <= half,
                acc == sum(ip_terms_half(l, rt).take(b as int)),
            decreases half - b,
        {
            proof {
                lemma_sum_take_step(ip_terms_half(l, rt), b as int);
            }
            let ls = self.left[2 * b].add(self.left[2 * b + 1]);
            let rs = self.right[2 * b].add(self.right[2 * b + 1]);
            acc = acc.add(ls.mul(rs));
            b += 1;
        }
        assert(ip_terms_half(l, rt).take(half as int) =~= ip_terms_half(l, rt));
        [v0, four_inv.mul(acc)]
    }

    /// Binds the last variable of both tables to `challenge`.
    pub fn compress_tables(&mut self, challenge: KoalaBear)
        requires
            old(self).spec_left().len() == old(self).spec_right().len(),
            old(self).spec_left().len() % 2 == 0,
        ensures
            final(self).spec_left() == compress(old(self).spec_left(), challenge),
            final(self).spec_right() == compress(old(self).spec_right(), challenge),
    {
        self.left = compress_table(self.left.as_slice(), challenge);
        self.right = compress_table(self.right.as_slice(), challenge);
    }

    /// Runs every round: each sends `(h(0), h(1/2))`, draws a challenge from
    /// `rng` and binds the last variable to it; the final claim is the product
    /// of the two one-entry tables.
    pub fn run_sumcheck_protocol(&mut self, rng: &mut rand::rngs::SmallRng) -> (out: IPSumcheckOutput)
        requires
            old(self).spec_left().len() == old(self).spec_right().len(),
            is_pow2(old(self).spec_left().len()),
        ensures
            out.randomness@.len() == log2(old(self).spec_left().len()),
            out.round_polys@.len() == out.randomness@.len(),
            all_wf(out.randomness@),
            forall|i: int|
                0 <= i < out.round_polys@.len() ==> #[trigger] out.round_polys@[i][0] == ip_h0(
                    fold_table(old(self).spec_left(), out.randomness@.take(i)),
                    fold_table(old(self).spec_right(), out.randomness@.take(i)),
                ) && out.round_polys@[i][1] == ip_h_half(
                    fold_table(old(self).spec_left(), out.randomness@.take(i)),
                    fold_table(old(self).spec_right(), out.randomness@.take(i)),
                ),
            final(self).spec_left() == fold_table(old(self).spec_left(), out.randomness@),
            final(self).spec_right() == fold_table(old(self).spec_right(), out.randomness@),
            final(self).spec_left().len() == 1,
            final(self).spec_right().len() == 1,
            out.final_claim == final(self).spec_left()[0].spec_mul(final(self).spec_right()[0]),
    {
        let ghost l0 = self.left@;
        let ghost r0 = self.right@;
        let mut round_polys: Vec<[KoalaBear; 2]> = Vec::new();
        let mut randomness: Vec<KoalaBear> = Vec::new();
        while self.left.len() > 1
            invariant
                self.left@ == fold_table(l0, randomness@),
                self.right@ == fold_table(r0, randomness@),
                self.left@.len() == self.right@.len(),
                is_pow2(self.left@.len()),
                randomness@.len() + log2(self.left@.len()) == log2(l0.len()),
                round_polys@.len() == randomness@.len(),
                all_wf(randomness@),
                forall|i: int|
                    0 <= i < round_polys@.len() ==> #[trigger] round_polys@[i][0] == ip_h0(
                        fold_table(l0, randomness@.take(i)),
                        fold_table(r0, randomness@.take(i)),
                    ) && round_polys@[i][1] == ip_h_half(
                        fold_table(l0, randomness@.take(i)),
                        fold_table(r0, randomness@.take(i)),
                    ),
            decreases self.left@.len(),
        {
            proof {
                super::lemma_pow2_half(self.left@.len());
            }
            let round_poly = self.compute_sumcheck_poly();
            let ghost before = randomness@;
            round_polys.push(round_poly);
            let alpha = KoalaBear::random(rng);
            randomness.push(alpha);
            self.compress_tables(alpha);
            proof {
                super::lemma_fold_push(l0, before, alpha);
                super::lemma_fold_push(r0, before, alpha);
                assert(randomness@.take(before.len() as int) =~= before);
                assert forall|i: int| 0 <= i < before.len() implies randomness@.take(i) =~= #[trigger] before.take(i) by {
                }
            }
        }
        proof {
            if self.left@.len() == 0 {
                assert(!is_pow2(0));
            }
        }
        let final_claim = self.left[0].mul(self.right[0]);
        IPSumcheckOutput { round_polys, randomness, final_claim }
    }
}


/// The products of one pair of entries of each table, at `1/2` (scaled by
/// four), summed over both ends, and at `c`, in terms of the coefficients of
/// the quadratic `(l0 + x dl) (r0 + x dr)`.
proof fn lemma_pair_identities(l0: int, l1: int, r0: int, r1: int, c: int)
    ensures
        (l0 + l1) * (r0 + r1) == 4 * (l0 * r0) + 2 * (l0 * (r1 - r0) + r0 * (l1 - l0)) + 1 * ((l1 - l0) * (r1
            - r0)) + 0 * 0,
        l0 * r0 + l1 * r1 == 2 * (l0 * r0) + 1 * (l0 * (r1 - r0) + r0 * (l1 - l0)) + 1 * ((l1 - l0) * (r1 - r0))
            + 0 * 0,
        (l0 + c * (l1 - l0)) * (r0 + c * (r1 - r0)) == 1 * (l0 * r0) + c * (l0 * (r1 - r0) + r0 * (l1 - l0)) + (c
            * c) * ((l1 - l0) * (r1 - r0)) + 0 * 0,
{
    let dl = l1 - l0;
    let dr = r1 - r0;
    assert((l0 + l1) * (r0 + r1) == (2 * l0 + dl) * (2 * r0 + dr)) by (nonlinear_arith)
        requires
            dl == l1 - l0,
            dr == r1 - r0,
    ;
    assert((2 * l0 + dl) * (2 * r0 + dr) == 4 * (l0 * r0) + 2 * (l0 * dr + r0 * dl) + dl * dr) by (nonlinear_arith);
    assert(l1 * r1 == (l0 + dl) * (r0 + dr)) by (nonlinear_arith)
        requires
            dl == l1 - l0,
            dr == r1 - r0,
    ;
    assert((l0 + dl) * (r0 + dr) == l0 * r0 + (l0 * dr + r0 * dl) + dl * dr) by (nonlinear_arith);
    let x = c * dl;
    let y = c * dr;
    assert((l0 + x) * (r0 + y) == l0 * r0 + l0 * y + r0 * x + x * y) by (nonlinear_arith);
    assert(l0 * y + r0 * x == c * (l0 * dr + r0 * dl)) by (nonlinear_arith)
        requires
            x == c * dl,
            y == c * dr,
    ;
    assert(x * y == (c * c) * (dl * dr)) by (nonlinear_arith)
        requires
            x == c * dl,
            y == c * dr,
    ;
}

/// A round of the inner-product sumcheck is consistent: with the claim
/// `sigma = <l, r>`, the quadratic through `h(0)`, `h(1/2)` and
/// `h(1) = sigma - h(0)`, evaluated at any challenge `c`, is the inner
/// product of the two tables with their last variable bound to `c`.
pub proof fn lemma_ip_round(l: Seq<KoalaBear>, r: Seq<KoalaBear>, c: KoalaBear)
    requires
        l.len() == r.len(),
        l.len() % 2 == 0,
        c.wf(),
    ensures
        interp_quad(ip_h0(l, r), ip_h_half(l, r), dot(l, r).spec_sub(ip_h0(l, r)), c) == dot(
            compress(l, c),
            compress(r, c),
        ),
{
    let m = (l.len() / 2) as nat;
    let cv = c.v();
    let fc = |b: int| l[2 * b].v() * r[2 * b].v();
    let fb = |b: int| l[2 * b].v() * (r[2 * b + 1].v() - r[2 * b].v()) + r[2 * b].v() * (l[2 * b + 1].v() - l[2
        * b].v());
    let fa = |b: int| (l[2 * b + 1].v() - l[2 * b].v()) * (r[2 * b + 1].v() - r[2 * b].v());
    let fz = |b: int| 0int;
    let fh = |b: int| (l[2 * b].v() + l[2 * b + 1].v()) * (r[2 * b].v() + r[2 * b + 1].v());
    let fd = |b: int| l[2 * b].v() * r[2 * b].v() + l[2 * b + 1].v() * r[2 * b + 1].v();
    let fe_ = |b: int| (l[2 * b].v() + cv * (l[2 * b + 1].v() - l[2 * b].v())) * (r[2 * b].v() + cv * (r[2
        * b + 1].v() - r[2 * b].v()));
    let sc = isum_g(m, fc);
    let sb = isum_g(m, fb);
    let sa = isum_g(m, fa);
    // Integer identities for each pair.
    let gh = |b: int| 4 * fc(b) + 2 * fb(b) + 1 * fa(b) + 0 * fz(b);
    let gd = |b: int| 2 * fc(b) + 1 * fb(b) + 1 * fa(b) + 0 * fz(b);
    let ge = |b: int| 1 * fc(b) + cv * fb(b) + (cv * cv) * fa(b) + 0 * fz(b);
    assert forall|b: int| 0 <= b < m implies #[trigger] fh(b) == gh(b) by {
        lemma_pair_identities(l[2 * b].v(), l[2 * b + 1].v(), r[2 * b].v(), r[2 * b + 1].v(), cv);
    }
    assert forall|b: int| 0 <= b < m implies #[trigger] fd(b) == gd(b) by {
        lemma_pair_identities(l[2 * b].v(), l[2 * b + 1].v(), r[2 * b].v(), r[2 * b + 1].v(), cv);
    }
    assert forall|b: int| 0 <= b < m implies #[trigger] fe_(b) == ge(b) by {
        lemma_pair_identities(l[2 * b].v(), l[2 * b + 1].v(), r[2 * b].v(), r[2 * b + 1].v(), cv);
    }
    lemma_isum_ext(m, fh, gh);
    lemma_isum_ext(m, fd, gd);
    lemma_isum_ext(m, fe_, ge);
    lemma_isum_lin4(m, fc, fb, fa, fz, 4, 2, 1, 0);
    lemma_isum_lin4(m, fc, fb, fa, fz, 2, 1, 1, 0);
    lemma_isum_lin4(m, fc, fb, fa, fz, 1, cv, cv * cv, 0);
    let sh = isum_g(m, fh);
    let sd = isum_g(m, fd);
    let se = isum_g(m, fe_);
    assert(sh == 4 * sc + 2 * sb + sa + 0 * isum_g(m, fz));
    assert(sd == 2 * sc + sb + sa + 0 * isum_g(m, fz));
    assert(se == sc + cv * sb + (cv * cv) * sa + 0 * isum_g(m, fz));
    // The field values as reductions of these sums.
    lemma_sum_terms(ip_terms_0(l, r), fc);
    assert forall|b: int| 0 <= b < m implies #[trigger] ip_terms_half(l, r)[b] == fe(fh(b)) by {
        lemma_fe_mul(l[2 * b].v() + l[2 * b + 1].v(), r[2 * b].v() + r[2 * b + 1].v());
    }
    lemma_sum_terms(ip_terms_half(l, r), fh);
    let fp = |i: int| l[i].v() * r[i].v();
    lemma_sum_terms(hadamard(l, r), fp);
    lemma_isum_pairs(m, fp);
    lemma_isum_ext(m, |b: int| fp(2 * b) + fp(2 * b + 1), fd);
    let cl = compress(l, c);
    let cr = compress(r, c);
    assert forall|b: int| 0 <= b < m implies #[trigger] hadamard(cl, cr)[b] == fe(fe_(b)) by {
        let l0 = l[2 * b];
        let l1 = l[2 * b + 1];
        let r0 = r[2 * b];
        let r1 = r[2 * b + 1];
        lemma_mul_r(c, l1.v() - l0.v());
        lemma_add_r(l0, cv * (l1.v() - l0.v()));
        lemma_mul_r(c, r1.v() - r0.v());
        lemma_add_r(r0, cv * (r1.v() - r0.v()));
        lemma_fe_mul(l0.v() + cv * (l1.v() - l0.v()), r0.v() + cv * (r1.v() - r0.v()));
    }
    lemma_sum_terms(hadamard(cl, cr), fe_);
    // Now everything is a reduction of an integer.
    let i2: int = 1065353217;
    let h0 = ip_h0(l, r);
    assert(h0 == fe(sc));
    lemma_fe_mul(i2, i2);
    lemma_fe_mul(i2 * i2, sh);
    let hh = ip_h_half(l, r);
    assert(hh == fe(i2 * i2 * sh));
    let sigma = dot(l, r);
    assert(sigma == fe(sd));
    lemma_fe_sub(sd, sc);
    let v1 = sigma.spec_sub(h0);
    assert(v1 == fe(sd - sc));
    lemma_fe_sub(sd - sc, sc);
    lemma_fe_sub(i2 * i2 * sh, sc);
    lemma_fe_mul(4, i2 * i2 * sh - sc);
    let bi = 4 * (i2 * i2 * sh - sc) - (sd - sc - sc);
    lemma_fe_sub(4 * (i2 * i2 * sh - sc), sd - sc - sc);
    let ai = (sd - sc - sc) - bi;
    lemma_fe_sub(sd - sc - sc, bi);
    crate::ring::lemma_canon(c);
    lemma_fe_mul(ai, cv);
    lemma_fe_add(ai * cv, bi);
    lemma_fe_mul(ai * cv + bi, cv);
    lemma_fe_add((ai * cv + bi) * cv, sc);
    let res = (ai * cv + bi) * cv + sc;
    assert(interp_quad(h0, hh, v1, c) == fe(res));
    let k = (P as int) + 2;
    assert(res - se == (P as int) * (k * sh * (cv - cv * cv))) by (nonlinear_arith)
        requires
            res == (ai * cv + bi) * cv + sc,
            ai == (sd - sc - sc) - bi,
            bi == 4 * (i2 * i2 * sh - sc) - (sd - sc - sc),
            sh == 4 * sc + 2 * sb + sa,
            sd == 2 * sc + sb + sa,
            se == sc + cv * sb + (cv * cv) * sa,
            i2 == 1065353217,
            k == (P as int) + 2,
            P == 2130706433,
    ;
    lemma_congruent(res, se, k * sh * (cv - cv * cv));
}

} // verus!
