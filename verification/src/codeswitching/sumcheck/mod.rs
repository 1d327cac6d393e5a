//! Sumcheck reductions over tables of evaluations on the Boolean hypercube.
//!
//! A table of length `2^t` lists a multilinear polynomial's values, the last
//! variable being the lowest bit of the index.  Each round binds that variable
//! to a challenge `c`, replacing every pair `(t[2b], t[2b+1])` by
//! `t[2b] + c * (t[2b+1] - t[2b])`.
use vstd::prelude::*;

use crate::field::{fe, KoalaBear, P};
use crate::vectors::all_wf;
use crate::ring::{lemma_add_r, lemma_canon, lemma_fe_wf, lemma_mul_l, lemma_neg_l, lemma_sub_r};
use crate::vectors::{lemma_fe_add, lemma_fe_mul};

pub mod ip;
pub mod permutation;
pub mod tip;

pub use ip::{IPSumcheck, IPSumcheckOutput};
pub use permutation::{
    build_permutation_transition_tables, PermutationTransitionSumcheck, PermutationTransitionSumcheckOutput,
    PermutationTransitionTables,
};
pub use tip::{TIPSumcheck, TIPSumcheckOutput};

verus! {

/// `n` is a power of two (`1, 2, 4, ...`).
pub open spec fn is_pow2(n: nat) -> bool
    decreases n,
{
    if n <= 1 {
        n == 1
    } else {
        n % 2 == 0 && is_pow2(n / 2)
    }
}

/// The base-two logarithm of a power of two.
pub open spec fn log2(n: nat) -> nat
    decreases n,
{
    if n <= 1 {
        0
    } else {
        1 + log2(n / 2)
    }
}

/// Binds the last variable of `t` to `c`.
pub open spec fn compress(t: Seq<KoalaBear>, c: KoalaBear) -> Seq<KoalaBear> {
    Seq::new(
        t.len() / 2,
        |b: int| t[2 * b].spec_add(c.spec_mul(t[2 * b + 1].spec_sub(t[2 * b]))),
    )
}

/// Binds the last variables of `t` to `rs[0]`, then `rs[1]`, and so on.
pub open spec fn fold_table(t: Seq<KoalaBear>, rs: Seq<KoalaBear>) -> Seq<KoalaBear>
    decreases rs.len(),
{
    if rs.len() == 0 {
        t
    } else {
        compress(fold_table(t, rs.drop_last()), rs.last())
    }
}

/// The inverse of two, `(p + 1) / 2`.
pub open spec fn inv2() -> KoalaBear {
    fe(1065353217)
}

/// The inverse of two in the field.
pub fn two_inverse() -> (r: KoalaBear)
    ensures
        r == inv2(),
        r.wf(),
{
    let two = KoalaBear::from_u32(2);
    match two.inverse() {
        Some(w) => {
            proof {
                let wv = w.v();
                lemma_fe_wf(2 * wv);
                assert((2 * wv) % (P as int) == 1);
                vstd::arithmetic::div_mod::lemma_fundamental_div_mod(2 * wv, P as int);
                let q = (2 * wv) / (P as int);
                assert(wv == 1065353217) by (nonlinear_arith)
                    requires
                        2 * wv == (P as int) * q + 1,
                        0 <= wv < P as int,
                        P == 2130706433,
                ;
                lemma_fe_wf(1065353217);
            }
            w
        },
        None => {
            // Two is not zero, so it has an inverse.
            proof {
                assert(false);
            }
            two
        },
    }
}

/// `t` with its last variable bound to `c`.
pub fn compress_table(t: &[KoalaBear], c: KoalaBear) -> (r: Vec<KoalaBear>)
    requires
        t@.len() % 2 == 0,
    ensures
        r@ == compress(t@, c),
        all_wf(r@),
{
    let n = t.len();
    let half = n / 2;
    let mut out: Vec<KoalaBear> = Vec::with_capacity(half);
    let mut b: usize = 0;
    while b < half
        invariant
            n == t@.len(),
            half == t@.len() / 2,
            t@.len() % 2 == 0,
            b <= half,
            out@ == compress(t@, c).take(b as int),
            all_wf(out@),
        decreases half - b,
    {
        let v = t[2 * b].add(c.mul(t[2 * b + 1].sub(t[2 * b])));
        out.push(v);
        b += 1;
        assert(out@ =~= compress(t@, c).take(b as int));
    }
    assert(out@ =~= compress(t@, c));
    out
}

/// Halving a power of two above one gives a power of two with logarithm one less.
pub proof fn lemma_pow2_half(n: nat)
    requires
        is_pow2(n),
        n > 1,
    ensures
        n % 2 == 0,
        is_pow2(n / 2),
        log2(n / 2) + 1 == log2(n),
        n / 2 >= 1,
{
}

/// Folding with one more challenge binds one more variable.
pub proof fn lemma_fold_push(t: Seq<KoalaBear>, rs: Seq<KoalaBear>, c: KoalaBear)
    ensures
        fold_table(t, rs.push(c)) == compress(fold_table(t, rs), c),
{
    assert(rs.push(c).drop_last() =~= rs);
}

/// Binding a variable to `0` keeps the entries at even positions, and to `1`
/// the entries at odd positions.
pub proof fn lemma_compress_endpoints(t: Seq<KoalaBear>)
    requires
        all_wf(t),
        t.len() % 2 == 0,
    ensures
        compress(t, fe(0)) == Seq::new(t.len() / 2, |b: int| t[2 * b]),
        compress(t, fe(1)) == Seq::new(t.len() / 2, |b: int| t[2 * b + 1]),
{
    assert forall|b: int|
        #![trigger compress(t, fe(0))[b]]
        #![trigger compress(t, fe(1))[b]]
        0 <= b < t.len() / 2 implies compress(t, fe(0))[b] == t[2 * b] && compress(t, fe(1))[b] == t[2 * b + 1] by {
        let x = t[2 * b];
        let y = t[2 * b + 1];
        assert(x.wf() && y.wf());
        lemma_canon(x);
        lemma_canon(y);
        let d = y.spec_sub(x);
        lemma_fe_wf(y.v() - x.v());
        lemma_canon(d);
        lemma_mul_l(0, d);
        lemma_add_r(x, 0);
        lemma_mul_l(1, d);
        lemma_add_r(x, y.v() - x.v());
        assert(fe(1).spec_mul(d) == d);
        assert(compress(t, fe(1))[b] == x.spec_add(fe(1).spec_mul(d)));
        assert(x.spec_add(d) == y);
        assert(fe(0).spec_mul(d) == fe(0));
        assert(x.spec_add(fe(0)) == x);
    }
    assert(compress(t, fe(0)) =~= Seq::new(t.len() / 2, |b: int| t[2 * b]));
    assert(compress(t, fe(1)) =~= Seq::new(t.len() / 2, |b: int| t[2 * b + 1]));
}


/// The quadratic through `(0, v0)`, `(1/2, vh)` and `(1, v1)`, evaluated at
/// `at`: with `b = 4 (vh - v0) - (v1 - v0)` and `a = (v1 - v0) - b`, the value
/// `(a at + b) at + v0`.
pub open spec fn interp_quad(v0: KoalaBear, vh: KoalaBear, v1: KoalaBear, at: KoalaBear) -> KoalaBear {
    let d1 = v1.spec_sub(v0);
    let dh = vh.spec_sub(v0);
    let b = fe(4).spec_mul(dh).spec_sub(d1);
    let a = d1.spec_sub(b);
    a.spec_mul(at).spec_add(b).spec_mul(at).spec_add(v0)
}

/// The quadratic through `(0, v0)`, `(1/2, vh)`, `(1, v1)`, evaluated at `at`.
pub fn interpolate_quadratic_from_0_half_1(
    value_0: KoalaBear,
    value_half: KoalaBear,
    value_1: KoalaBear,
    at: KoalaBear,
) -> (r: KoalaBear)
    ensures
        r == interp_quad(value_0, value_half, value_1, at),
{
    let c = value_0;
    let delta_1 = value_1.sub(value_0);
    let delta_half = value_half.sub(value_0);
    let four = KoalaBear::from_u32(4);
    let b = four.mul(delta_half).sub(delta_1);
    let a = delta_1.sub(b);
    a.mul(at).add(b).mul(at).add(c)
}


/// The inverse of three, `(p + 1) / 3`.
pub open spec fn inv3() -> KoalaBear {
    fe(710235478)
}

/// The inverse of three in the field.
pub fn three_inverse() -> (r: KoalaBear)
    ensures
        r == inv3(),
        r.wf(),
{
    let three = KoalaBear::from_u32(3);
    match three.inverse() {
        Some(w) => {
            proof {
                let wv = w.v();
                lemma_fe_wf(3 * wv);
                assert((3 * wv) % (P as int) == 1);
                vstd::arithmetic::div_mod::lemma_fundamental_div_mod(3 * wv, P as int);
                let q = (3 * wv) / (P as int);
                assert(wv == 710235478) by (nonlinear_arith)
                    requires
                        3 * wv == (P as int) * q + 1,
                        0 <= wv < P as int,
                        P == 2130706433,
                ;
                lemma_fe_wf(710235478);
            }
            w
        },
        None => {
            // Three is not zero, so it has an inverse.
            proof {
                assert(false);
            }
            three
        },
    }
}

/// The value at `2` of the quadratic through `(0, v0)`, `(1/2, vh)`, `(1, v1)`:
/// `3 v0 + 6 v1 - 8 vh`.
pub open spec fn extrap_two(v0: KoalaBear, vh: KoalaBear, v1: KoalaBear) -> KoalaBear {
    fe(3).spec_mul(v0).spec_add(fe(6).spec_mul(v1)).spec_sub(fe(8).spec_mul(vh))
}

/// The value at `2` of the quadratic through `(0, v0)`, `(1/2, vh)`, `(1, v1)`.
pub fn extrapolate_quadratic_at_two(value_0: KoalaBear, value_half: KoalaBear, value_1: KoalaBear) -> (r:
    KoalaBear)
    ensures
        r == extrap_two(value_0, value_half, value_1),
{
    let three = KoalaBear::from_u32(3);
    let six = KoalaBear::from_u32(6);
    let eight = KoalaBear::from_u32(8);
    three.mul(value_0).add(six.mul(value_1)).sub(eight.mul(value_half))
}

/// The cubic through `(0, v0)`, `(1/2, vh)`, `(1, v1)`, `(2, v2)`, evaluated at
/// `at` by Lagrange interpolation.
pub open spec fn interp_cubic(v0: KoalaBear, vh: KoalaBear, v1: KoalaBear, v2: KoalaBear, at: KoalaBear) -> KoalaBear {
    let two = fe(2);
    let one = fe(1);
    let half = inv2();
    let eight_thirds = fe(8).spec_mul(inv3());
    let l0 = at.spec_sub(half).spec_neg().spec_mul(at.spec_sub(one)).spec_mul(at.spec_sub(two));
    let lh = eight_thirds.spec_mul(at).spec_mul(at.spec_sub(one)).spec_mul(at.spec_sub(two));
    let l1 = two.spec_neg().spec_mul(at).spec_mul(at.spec_sub(half)).spec_mul(at.spec_sub(two));
    let l2 = inv3().spec_mul(at).spec_mul(at.spec_sub(half)).spec_mul(at.spec_sub(one));
    v0.spec_mul(l0).spec_add(vh.spec_mul(lh)).spec_add(v1.spec_mul(l1)).spec_add(v2.spec_mul(l2))
}

/// The cubic through `(0, v0)`, `(1/2, vh)`, `(1, v1)`, `(2, v2)`, evaluated at `at`.
pub fn interpolate_cubic_from_0_half_1_2(
    value_0: KoalaBear,
    value_half: KoalaBear,
    value_1: KoalaBear,
    value_2: KoalaBear,
    at: KoalaBear,
) -> (r: KoalaBear)
    ensures
        r == interp_cubic(value_0, value_half, value_1, value_2, at),
{
    let two = KoalaBear::from_u32(2);
    let two_inv = two_inverse();
    let three_inv = three_inverse();
    let one = KoalaBear::one();
    let half = two_inv;
    let eight_thirds = KoalaBear::from_u32(8).mul(three_inv);
    let lagrange_0 = at.sub(half).neg().mul(at.sub(one)).mul(at.sub(two));
    let lagrange_half = eight_thirds.mul(at).mul(at.sub(one)).mul(at.sub(two));
    let lagrange_1 = two.neg().mul(at).mul(at.sub(half)).mul(at.sub(two));
    let lagrange_2 = three_inv.mul(at).mul(at.sub(half)).mul(at.sub(one));
    value_0.mul(lagrange_0).add(value_half.mul(lagrange_half)).add(value_1.mul(lagrange_1)).add(
        value_2.mul(lagrange_2),
    )
}

/// `(x - p)(x - q)(x - r)` with its coefficients spelled out.
pub proof fn lemma_cubic3(x: int, p: int, q: int, r: int)
    ensures
        ((x - p) * (x - q)) * (x - r) == x * x * x - (p + q + r) * (x * x) + (p * q + p * r + q * r) * x - p * q
            * r,
{
    let x2 = x * x;
    let x3 = x2 * x;
    assert((x - p) * (x - q) == x2 - (p + q) * x + p * q) by (nonlinear_arith)
        requires
            x2 == x * x,
    ;
    let s = p + q;
    let t = p * q;
    assert((x2 - s * x + t) * (x - r) == x2 * x - (s + r) * x2 + (t + s * r) * x - t * r) by (nonlinear_arith)
        requires
            x2 == x * x,
    ;
    assert(x2 * x == x * x * x);
    assert(t * r == p * q * r);
    assert(t + s * r == p * q + p * r + q * r) by (nonlinear_arith)
        requires
            s == p + q,
            t == p * q,
    ;
}

/// The Lagrange interpolation at `0, 1/2, 1, 2` as the reduction of an integer
/// expression in the value `x` of the point.
pub proof fn lemma_interp_cubic_int(v0: int, vh: int, v1: int, v2: int, at: KoalaBear)
    requires
        at.wf(),
    ensures
        ({
            let x = at.v();
            let i = 1065353217int;
            let j = 710235478int;
            let x3 = x * x * x;
            let x2 = x * x;
            let l0 = -(x3 - (i + 3) * x2 + (3 * i + 2) * x - 2 * i);
            let lh = (8 * j) * (x3 - 3 * x2 + 2 * x);
            let l1 = -2 * (x3 - (i + 2) * x2 + (2 * i) * x);
            let l2 = j * (x3 - (i + 1) * x2 + i * x);
            interp_cubic(fe(v0), fe(vh), fe(v1), fe(v2), at) == fe(v0 * l0 + vh * lh + v1 * l1 + v2 * l2)
        }),
{
    let x = at.v();
    let i = 1065353217int;
    let j = 710235478int;
    lemma_canon(at);
    lemma_sub_r(at, i);
    lemma_sub_r(at, 1);
    lemma_sub_r(at, 2);
    lemma_neg_l(x - i);
    crate::vectors::lemma_fe_neg(2);
    lemma_fe_mul(-(x - i), x - 1);
    lemma_fe_mul(-(x - i) * (x - 1), x - 2);
    lemma_fe_mul(8, j);
    lemma_fe_mul(8 * j, x);
    lemma_fe_mul(8 * j * x, x - 1);
    lemma_fe_mul(8 * j * x * (x - 1), x - 2);
    lemma_fe_mul(-2, x);
    lemma_fe_mul(-2 * x, x - i);
    lemma_fe_mul(-2 * x * (x - i), x - 2);
    lemma_fe_mul(j, x);
    lemma_fe_mul(j * x, x - i);
    lemma_fe_mul(j * x * (x - i), x - 1);
    let a0 = -(x - i) * (x - 1) * (x - 2);
    let ah = 8 * j * x * (x - 1) * (x - 2);
    let a1 = -2 * x * (x - i) * (x - 2);
    let a2 = j * x * (x - i) * (x - 1);
    lemma_fe_mul(v0, a0);
    lemma_fe_mul(vh, ah);
    lemma_fe_mul(v1, a1);
    lemma_fe_mul(v2, a2);
    lemma_fe_add(v0 * a0, vh * ah);
    lemma_fe_add(v0 * a0 + vh * ah, v1 * a1);
    lemma_fe_add(v0 * a0 + vh * ah + v1 * a1, v2 * a2);
    // Expand each basis polynomial.
    lemma_cubic3(x, i, 1, 2);
    lemma_cubic3(x, 0, 1, 2);
    lemma_cubic3(x, 0, i, 2);
    lemma_cubic3(x, 0, i, 1);
    assert(a0 == -(((x - i) * (x - 1)) * (x - 2))) by (nonlinear_arith)
        requires
            a0 == -(x - i) * (x - 1) * (x - 2),
    ;
    assert(ah == (8 * j) * (((x - 0) * (x - 1)) * (x - 2))) by (nonlinear_arith)
        requires
            ah == 8 * j * x * (x - 1) * (x - 2),
    ;
    assert(a1 == -2 * (((x - 0) * (x - i)) * (x - 2))) by (nonlinear_arith)
        requires
            a1 == -2 * x * (x - i) * (x - 2),
    ;
    assert(a2 == j * (((x - 0) * (x - i)) * (x - 1))) by (nonlinear_arith)
        requires
            a2 == j * x * (x - i) * (x - 1),
    ;
}

/// The quadratic interpolation as the reduction of an integer expression.
proof fn lemma_interp_quad_int(u0: int, uh: int, u1: int, at: KoalaBear)
    requires
        at.wf(),
    ensures
        ({
            let x = at.v();
            interp_quad(fe(u0), fe(uh), fe(u1), at) == fe(
                (2 * u0 + 2 * u1 - 4 * uh) * (x * x) + (4 * uh - 3 * u0 - u1) * x + u0,
            )
        }),
{
    let x = at.v();
    lemma_canon(at);
    crate::vectors::lemma_fe_sub(u1, u0);
    crate::vectors::lemma_fe_sub(uh, u0);
    lemma_fe_mul(4, uh - u0);
    let bi = 4 * (uh - u0) - (u1 - u0);
    crate::vectors::lemma_fe_sub(4 * (uh - u0), u1 - u0);
    let ai = (u1 - u0) - bi;
    crate::vectors::lemma_fe_sub(u1 - u0, bi);
    lemma_fe_mul(ai, x);
    lemma_fe_add(ai * x, bi);
    lemma_fe_mul(ai * x + bi, x);
    lemma_fe_add((ai * x + bi) * x, u0);
    assert((ai * x + bi) * x + u0 == (2 * u0 + 2 * u1 - 4 * uh) * (x * x) + (4 * uh - 3 * u0 - u1) * x + u0)
        by (nonlinear_arith)
        requires
            bi == 4 * (uh - u0) - (u1 - u0),
            ai == (u1 - u0) - bi,
    ;
}

/// The quadratic extrapolation to `2` as the reduction of an integer expression.
pub proof fn lemma_extrap_two_int(u0: int, uh: int, u1: int)
    ensures
        extrap_two(fe(u0), fe(uh), fe(u1)) == fe(3 * u0 + 6 * u1 - 8 * uh),
{
    lemma_fe_mul(3, u0);
    lemma_fe_mul(6, u1);
    lemma_fe_mul(8, uh);
    lemma_fe_add(3 * u0, 6 * u1);
    crate::vectors::lemma_fe_sub(3 * u0 + 6 * u1, 8 * uh);
}

/// The cubic through the values of a quadratic at `0, 1/2, 1` and its
/// extrapolation to `2` is that quadratic.
pub proof fn lemma_cubic_extends_quad(v0: KoalaBear, vh: KoalaBear, v1: KoalaBear, at: KoalaBear)
    requires
        v0.wf(),
        vh.wf(),
        v1.wf(),
        at.wf(),
    ensures
        interp_cubic(v0, vh, v1, extrap_two(v0, vh, v1), at) == interp_quad(v0, vh, v1, at),
{
    let (u0, uh, u1, x) = (v0.v(), vh.v(), v1.v(), at.v());
    lemma_canon(v0);
    lemma_canon(vh);
    lemma_canon(v1);
    lemma_extrap_two_int(u0, uh, u1);
    let e = 3 * u0 + 6 * u1 - 8 * uh;
    lemma_interp_cubic_int(u0, uh, u1, e, at);
    lemma_interp_quad_int(u0, uh, u1, at);
    let i = 1065353217int;
    let j = 710235478int;
    let x3 = x * x * x;
    let x2 = x * x;
    let l0 = -(x3 - (i + 3) * x2 + (3 * i + 2) * x - 2 * i);
    let lh = (8 * j) * (x3 - 3 * x2 + 2 * x);
    let l1 = -2 * (x3 - (i + 2) * x2 + (2 * i) * x);
    let l2 = j * (x3 - (i + 1) * x2 + i * x);
    let d0 = (x - 1) * ((x - i) * x - 1);
    let dh = 4 * x * (x - 1) * (j - 1);
    let d1 = x * (2 * (x - i) * (x - 1) - 1);
    let pp = P as int;
    assert(l0 + 3 * l2 - (2 * x2 - 3 * x + 1) == d0 * pp) by (nonlinear_arith)
        requires
            x3 == x * x * x,
            x2 == x * x,
            i == 1065353217,
            j == 710235478,
            pp == 2130706433,
            l0 == -(x3 - (i + 3) * x2 + (3 * i + 2) * x - 2 * i),
            l2 == j * (x3 - (i + 1) * x2 + i * x),
            d0 == (x - 1) * ((x - i) * x - 1),
    ;
    assert(lh - 8 * l2 - (-4 * x2 + 4 * x) == dh * pp) by (nonlinear_arith)
        requires
            x3 == x * x * x,
            x2 == x * x,
            i == 1065353217,
            j == 710235478,
            pp == 2130706433,
            lh == (8 * j) * (x3 - 3 * x2 + 2 * x),
            l2 == j * (x3 - (i + 1) * x2 + i * x),
            dh == 4 * x * (x - 1) * (j - 1),
    ;
    assert(l1 + 6 * l2 - (2 * x2 - x) == d1 * pp) by (nonlinear_arith)
        requires
            x3 == x * x * x,
            x2 == x * x,
            i == 1065353217,
            j == 710235478,
            pp == 2130706433,
            l1 == -2 * (x3 - (i + 2) * x2 + (2 * i) * x),
            l2 == j * (x3 - (i + 1) * x2 + i * x),
            d1 == x * (2 * (x - i) * (x - 1) - 1),
    ;
    let cc = u0 * l0 + uh * lh + u1 * l1 + e * l2;
    let qq = (2 * u0 + 2 * u1 - 4 * uh) * x2 + (4 * uh - 3 * u0 - u1) * x + u0;
    let k = u0 * d0 + uh * dh + u1 * d1;
    let g0 = l0 + 3 * l2 - (2 * x2 - 3 * x + 1);
    let gh = lh - 8 * l2 - (-4 * x2 + 4 * x);
    let g1 = l1 + 6 * l2 - (2 * x2 - x);
    assert(e * l2 == 3 * (u0 * l2) + 6 * (u1 * l2) - 8 * (uh * l2)) by (nonlinear_arith)
        requires
            e == 3 * u0 + 6 * u1 - 8 * uh,
    ;
    assert((2 * u0 + 2 * u1 - 4 * uh) * x2 == 2 * (u0 * x2) + 2 * (u1 * x2) - 4 * (uh * x2)) by (nonlinear_arith);
    assert((4 * uh - 3 * u0 - u1) * x == 4 * (uh * x) - 3 * (u0 * x) - u1 * x) by (nonlinear_arith);
    assert(u0 * g0 == u0 * l0 + 3 * (u0 * l2) - 2 * (u0 * x2) + 3 * (u0 * x) - u0) by (nonlinear_arith)
        requires
            g0 == l0 + 3 * l2 - (2 * x2 - 3 * x + 1),
    ;
    assert(uh * gh == uh * lh - 8 * (uh * l2) + 4 * (uh * x2) - 4 * (uh * x)) by (nonlinear_arith)
        requires
            gh == lh - 8 * l2 - (-4 * x2 + 4 * x),
    ;
    assert(u1 * g1 == u1 * l1 + 6 * (u1 * l2) - 2 * (u1 * x2) + u1 * x) by (nonlinear_arith)
        requires
            g1 == l1 + 6 * l2 - (2 * x2 - x),
    ;
    assert(cc - qq == u0 * g0 + uh * gh + u1 * g1);
    assert(u0 * g0 + uh * gh + u1 * g1 == k * pp) by (nonlinear_arith)
        requires
            g0 == d0 * pp,
            gh == dh * pp,
            g1 == d1 * pp,
            k == u0 * d0 + uh * dh + u1 * d1,
    ;
    crate::ring::lemma_congruent(cc, qq, k);
}

/// The cubic interpolation is linear in the values: interpolating differences
/// gives the difference of the interpolations.
pub proof fn lemma_interp_cubic_sub(
    a0: KoalaBear,
    ah: KoalaBear,
    a1: KoalaBear,
    a2: KoalaBear,
    b0: KoalaBear,
    bh: KoalaBear,
    b1: KoalaBear,
    b2: KoalaBear,
    at: KoalaBear,
)
    requires
        a0.wf(),
        ah.wf(),
        a1.wf(),
        a2.wf(),
        b0.wf(),
        bh.wf(),
        b1.wf(),
        b2.wf(),
        at.wf(),
    ensures
        interp_cubic(a0.spec_sub(b0), ah.spec_sub(bh), a1.spec_sub(b1), a2.spec_sub(b2), at) == interp_cubic(
            a0,
            ah,
            a1,
            a2,
            at,
        ).spec_sub(interp_cubic(b0, bh, b1, b2, at)),
{
    lemma_canon(a0);
    lemma_canon(ah);
    lemma_canon(a1);
    lemma_canon(a2);
    lemma_canon(b0);
    lemma_canon(bh);
    lemma_canon(b1);
    lemma_canon(b2);
    let x = at.v();
    let i = 1065353217int;
    let j = 710235478int;
    let x3 = x * x * x;
    let x2 = x * x;
    let l0 = -(x3 - (i + 3) * x2 + (3 * i + 2) * x - 2 * i);
    let lh = (8 * j) * (x3 - 3 * x2 + 2 * x);
    let l1 = -2 * (x3 - (i + 2) * x2 + (2 * i) * x);
    let l2 = j * (x3 - (i + 1) * x2 + i * x);
    lemma_interp_cubic_int(a0.v(), ah.v(), a1.v(), a2.v(), at);
    lemma_interp_cubic_int(b0.v(), bh.v(), b1.v(), b2.v(), at);
    lemma_interp_cubic_int(a0.v() - b0.v(), ah.v() - bh.v(), a1.v() - b1.v(), a2.v() - b2.v(), at);
    let sa = a0.v() * l0 + ah.v() * lh + a1.v() * l1 + a2.v() * l2;
    let sb = b0.v() * l0 + bh.v() * lh + b1.v() * l1 + b2.v() * l2;
    crate::vectors::lemma_fe_sub(sa, sb);
    assert((a0.v() - b0.v()) * l0 + (ah.v() - bh.v()) * lh + (a1.v() - b1.v()) * l1 + (a2.v() - b2.v()) * l2
        == sa - sb) by (nonlinear_arith)
        requires
            sa == a0.v() * l0 + ah.v() * lh + a1.v() * l1 + a2.v() * l2,
            sb == b0.v() * l0 + bh.v() * lh + b1.v() * l1 + b2.v() * l2,
    ;
}

} // verus!
