//! Field expressions as reductions of integer expressions.
//!
//! Every field operation is the reduction modulo `p` of the integer
//! operation on the held values, so a nested field expression is the
//! reduction of the same expression over the integers.  The lemmas here
//! push one reduction outward at a time; identities between field
//! expressions then follow from identities (or congruences) of integers.
use vstd::arithmetic::div_mod::*;
use vstd::prelude::*;

use crate::field::{fe, KoalaBear, P};
use crate::vectors::{lemma_fe_add, lemma_fe_canonical, lemma_fe_congruent, lemma_fe_v, sum};

verus! {

pub proof fn lemma_add_l(x: int, c: KoalaBear)
    ensures
        fe(x).spec_add(c) == fe(x + c.v()),
{
    lemma_fe_v(x);
    lemma_add_mod_noop(x, c.v(), P as int);
    lemma_mod_twice(x, P as int);
    lemma_add_mod_noop(x % (P as int), c.v(), P as int);
}

pub proof fn lemma_add_r(c: KoalaBear, x: int)
    ensures
        c.spec_add(fe(x)) == fe(c.v() + x),
{
    lemma_add_l(x, c);
}

pub proof fn lemma_sub_l(x: int, c: KoalaBear)
    ensures
        fe(x).spec_sub(c) == fe(x - c.v()),
{
    lemma_fe_v(x);
    lemma_sub_mod_noop(x, c.v(), P as int);
    lemma_mod_twice(x, P as int);
    lemma_sub_mod_noop(x % (P as int), c.v(), P as int);
}

pub proof fn lemma_sub_r(c: KoalaBear, x: int)
    ensures
        c.spec_sub(fe(x)) == fe(c.v() - x),
{
    lemma_fe_v(x);
    lemma_sub_mod_noop(c.v(), x, P as int);
    lemma_mod_twice(x, P as int);
    lemma_sub_mod_noop(c.v(), x % (P as int), P as int);
}

pub proof fn lemma_mul_l(x: int, c: KoalaBear)
    ensures
        fe(x).spec_mul(c) == fe(x * c.v()),
{
    lemma_fe_v(x);
    lemma_mul_mod_noop(x, c.v(), P as int);
    lemma_mod_twice(x, P as int);
    lemma_mul_mod_noop(x % (P as int), c.v(), P as int);
}

pub proof fn lemma_mul_r(c: KoalaBear, x: int)
    ensures
        c.spec_mul(fe(x)) == fe(c.v() * x),
{
    lemma_mul_l(x, c);
    vstd::arithmetic::mul::lemma_mul_is_commutative(x, c.v());
    crate::vectors::lemma_mul_comm(c, fe(x));
}

pub proof fn lemma_neg_l(x: int)
    ensures
        fe(x).spec_neg() == fe(-x),
{
    crate::vectors::lemma_fe_neg(x);
}

/// A canonical element is the reduction of its own value.
pub proof fn lemma_canon(a: KoalaBear)
    requires
        a.wf(),
    ensures
        a == fe(a.v()),
{
    lemma_fe_canonical(a);
}

/// Congruent integers reduce to the same element.
pub proof fn lemma_congruent(x: int, y: int, k: int)
    requires
        x - y == k * (P as int),
    ensures
        fe(x) == fe(y),
{
    lemma_mod_multiples_basic(k, P as int);
    vstd::arithmetic::mul::lemma_mul_is_commutative(k, P as int);
    lemma_fe_congruent(x, y);
}

/// Every result of a field operation is canonical.
pub proof fn lemma_fe_wf(x: int)
    ensures
        fe(x).wf(),
        fe(x).v() == x % (P as int),
{
    lemma_fe_v(x);
}


/// `g(0) + g(1) + ... + g(n - 1)` over the integers.
pub open spec fn isum_g(n: nat, g: spec_fn(int) -> int) -> int
    decreases n,
{
    if n == 0 {
        0
    } else {
        isum_g((n - 1) as nat, g) + g(n - 1)
    }
}

/// A field sum whose terms are reductions of integers is the reduction of
/// their integer sum.
pub proof fn lemma_sum_terms(s: Seq<KoalaBear>, g: spec_fn(int) -> int)
    requires
        forall|b: int| 0 <= b < s.len() ==> #[trigger] s[b] == fe(g(b)),
    ensures
        sum(s) == fe(isum_g(s.len(), g)),
    decreases s.len(),
{
    if s.len() > 0 {
        lemma_sum_terms(s.drop_last(), g);
        lemma_fe_add(isum_g((s.len() - 1) as nat, g), g(s.len() - 1));
    }
}

/// Sums of pointwise equal terms are equal.
pub proof fn lemma_isum_ext(n: nat, g: spec_fn(int) -> int, h: spec_fn(int) -> int)
    requires
        forall|b: int| 0 <= b < n ==> #[trigger] g(b) == h(b),
    ensures
        isum_g(n, g) == isum_g(n, h),
    decreases n,
{
    if n > 0 {
        lemma_isum_ext((n - 1) as nat, g, h);
    }
}

/// The sum of a combination of four term families is the same combination of their sums.
pub proof fn lemma_isum_lin4(
    n: nat,
    f0: spec_fn(int) -> int,
    f1: spec_fn(int) -> int,
    f2: spec_fn(int) -> int,
    f3: spec_fn(int) -> int,
    x0: int,
    x1: int,
    x2: int,
    x3: int,
)
    ensures
        isum_g(n, |b: int| x0 * f0(b) + x1 * f1(b) + x2 * f2(b) + x3 * f3(b)) == x0 * isum_g(n, f0) + x1
            * isum_g(n, f1) + x2 * isum_g(n, f2) + x3 * isum_g(n, f3),
    decreases n,
{
    if n > 0 {
        let m = (n - 1) as nat;
        lemma_isum_lin4(m, f0, f1, f2, f3, x0, x1, x2, x3);
        let s0 = isum_g(m, f0);
        let s1 = isum_g(m, f1);
        let s2 = isum_g(m, f2);
        let s3 = isum_g(m, f3);
        let a0 = f0(n - 1);
        let a1 = f1(n - 1);
        let a2 = f2(n - 1);
        let a3 = f3(n - 1);
        vstd::arithmetic::mul::lemma_mul_is_distributive_add(x0, s0, a0);
        vstd::arithmetic::mul::lemma_mul_is_distributive_add(x1, s1, a1);
        vstd::arithmetic::mul::lemma_mul_is_distributive_add(x2, s2, a2);
        vstd::arithmetic::mul::lemma_mul_is_distributive_add(x3, s3, a3);
    }
}

/// Summing over `2m` indices pairs up the terms at `2b` and `2b + 1`.
pub proof fn lemma_isum_pairs(m: nat, g: spec_fn(int) -> int)
    ensures
        isum_g(2 * m, g) == isum_g(m, |b: int| g(2 * b) + g(2 * b + 1)),
    decreases m,
{
    if m > 0 {
        lemma_isum_pairs((m - 1) as nat, g);
        assert(isum_g(2 * m, g) == isum_g((2 * m - 1) as nat, g) + g(2 * m - 1));
        assert(isum_g((2 * m - 1) as nat, g) == isum_g((2 * m - 2) as nat, g) + g(2 * m - 2));
        assert((2 * m - 2) as nat == 2 * ((m - 1) as nat));
    }
}


/// The sum of pointwise sums is the sum of the two sums.
pub proof fn lemma_isum_add(n: nat, f: spec_fn(int) -> int, g: spec_fn(int) -> int)
    ensures
        isum_g(n, |b: int| f(b) + g(b)) == isum_g(n, f) + isum_g(n, g),
    decreases n,
{
    if n > 0 {
        lemma_isum_add((n - 1) as nat, f, g);
    }
}

/// A constant factor comes out of a sum.
pub proof fn lemma_isum_scale(n: nat, x: int, f: spec_fn(int) -> int)
    ensures
        isum_g(n, |b: int| x * f(b)) == x * isum_g(n, f),
    decreases n,
{
    if n > 0 {
        let m = (n - 1) as nat;
        lemma_isum_scale(m, x, f);
        assert(x * isum_g(m, f) + x * f(n - 1) == x * (isum_g(m, f) + f(n - 1))) by (nonlinear_arith);
    }
}

/// The terms of `g` from index `a` on.
pub open spec fn shifted(a: int, g: spec_fn(int) -> int) -> spec_fn(int) -> int {
    |c: int| g(a + c)
}

/// Block `i` of `s` consecutive terms of `g`, summed.
pub open spec fn block_sums(s: nat, g: spec_fn(int) -> int) -> spec_fn(int) -> int {
    |i: int| isum_g(s, shifted(i * s, g))
}

/// Row `i` of the double family `h`, summed over `s` columns.
pub open spec fn row_sums(s: nat, h: spec_fn(int, int) -> int) -> spec_fn(int) -> int {
    |i: int| isum_g(s, |c: int| h(i, c))
}

/// Column `c` of the double family `h`, summed over `r` rows.
pub open spec fn col_sums(r: nat, h: spec_fn(int, int) -> int) -> spec_fn(int) -> int {
    |c: int| isum_g(r, |i: int| h(i, c))
}

/// A sum of zeros is zero.
pub proof fn lemma_isum_zero(n: nat)
    ensures
        isum_g(n, |c: int| 0) == 0,
    decreases n,
{
    if n > 0 {
        lemma_isum_zero((n - 1) as nat);
    }
}

/// Summing `a + n` terms: the first `a`, then the `n` after them.
pub proof fn lemma_isum_shift(a: nat, n: nat, g: spec_fn(int) -> int)
    ensures
        isum_g(a + n, g) == isum_g(a, g) + isum_g(n, shifted(a as int, g)),
    decreases n,
{
    if n > 0 {
        lemma_isum_shift(a, (n - 1) as nat, g);
        assert((a + n - 1) as nat == a + (n - 1) as nat);
    }
}

/// Summing `r s` terms block by block, `s` terms per block.
pub proof fn lemma_isum_blocks(r: nat, s: nat, g: spec_fn(int) -> int)
    ensures
        isum_g(r * s, g) == isum_g(r, block_sums(s, g)),
    decreases r,
{
    if r == 0 {
        assert(r * s == 0);
    } else {
        let r1 = (r - 1) as nat;
        lemma_isum_blocks(r1, s, g);
        assert(r * s == r1 * s + s) by (nonlinear_arith)
            requires
                r1 == r - 1,
        ;
        lemma_isum_shift(r1 * s, s, g);
        assert(isum_g(r * s, g) == isum_g(r1 * s + s, g));
        let bs = block_sums(s, g);
        assert(isum_g(r, bs) == isum_g(r1, bs) + bs(r1 as int));
        assert(bs(r1 as int) == isum_g(s, shifted(r1 as int * s, g)));
        assert((r1 * s) as int == r1 as int * s);
        assert(isum_g(r1 * s + s, g) == isum_g(r1 * s, g) + isum_g(s, shifted((r1 * s) as int, g)));
    }
}

/// A double sum can be summed in either order.
pub proof fn lemma_isum_swap(r: nat, s: nat, h: spec_fn(int, int) -> int)
    ensures
        isum_g(r, row_sums(s, h)) == isum_g(s, col_sums(r, h)),
    decreases r,
{
    if r == 0 {
        lemma_isum_ext(s, col_sums(0, h), |c: int| 0);
        lemma_isum_zero(s);
    } else {
        let r1 = (r - 1) as nat;
        lemma_isum_swap(r1, s, h);
        let f = col_sums(r1, h);
        let g = |c: int| h(r1 as int, c);
        lemma_isum_add(s, f, g);
        assert forall|c: int| 0 <= c < s implies #[trigger] col_sums(r, h)(c) == f(c) + g(c) by {}
        lemma_isum_ext(s, col_sums(r, h), |c: int| f(c) + g(c));
        assert(row_sums(s, h)(r1 as int) == isum_g(s, g)) by {
            lemma_isum_ext(s, |c: int| h(r1 as int, c), g);
        }
    }
}

} // verus!
