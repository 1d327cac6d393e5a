//! Multilinear polynomials given by their values on the Boolean hypercube.
//!
//! A table of length `2^n` lists the values at the points `x` in index
//! order, the first coordinate of `x` being the highest bit of the index.
use vstd::arithmetic::power2::{lemma_pow2_pos, lemma_pow2_unfold, pow2};
use vstd::prelude::*;

use crate::codeswitching::sumcheck::{compress, compress_table, fold_table, lemma_fold_push};
use crate::field::{fe, KoalaBear};
use crate::ring::{isum_g, lemma_canon, lemma_isum_ext, lemma_isum_pairs, lemma_mul_l, lemma_mul_r, lemma_sub_r, lemma_add_r, lemma_sum_terms};
use crate::vectors::{all_wf, dot, hadamard, lemma_fe_mul};

verus! {

/// The value at `point` of the multilinear extension of `table`: bind the last
/// coordinate first, down to the first.
pub open spec fn mle_eval(table: Seq<KoalaBear>, point: Seq<KoalaBear>) -> KoalaBear {
    fold_table(table, point.reverse())[0]
}

/// Evaluates the multilinear extension of `table` at `point`.
pub fn evaluate_multilinear_table(table: &[KoalaBear], point: &[KoalaBear]) -> (r: KoalaBear)
    requires
        table@.len() == pow2(point@.len() as nat),
    ensures
        r == mle_eval(table@, point@),
{
    let n = point.len();
    let mut t: Vec<KoalaBear> = crate::copy_range(table, 0, table.len());
    assert(t@ =~= table@);
    let mut k: usize = 0;
    while k < n
        invariant
            n == point@.len(),
            k <= n,
            t@ == fold_table(table@, point@.reverse().take(k as int)),
            t@.len() == pow2((n - k) as nat),
        decreases n - k,
    {
        let c = point[n - 1 - k];
        proof {
            lemma_pow2_unfold((n - k) as nat);
            lemma_pow2_pos((n - k - 1) as nat);
            lemma_fold_push(table@, point@.reverse().take(k as int), c);
            assert(point@.reverse().take(k + 1) =~= point@.reverse().take(k as int).push(c));
        }
        t = compress_table(t.as_slice(), c);
        k += 1;
    }
    proof {
        assert(point@.reverse().take(n as int) =~= point@.reverse());
        assert(pow2(0) == 1) by {
            vstd::arithmetic::power2::lemma2_to64();
        }
    }
    t[0]
}


/// The table of `eq(z, x)` over the hypercube: the product over the
/// coordinates of `z_i` where `x_i = 1` and `1 - z_i` where `x_i = 0`, the
/// last coordinate being the lowest bit of the index.
pub open spec fn eq_table(z: Seq<KoalaBear>) -> Seq<KoalaBear>
    decreases z.len(),
{
    if z.len() == 0 {
        seq![fe(1)]
    } else {
        let t = eq_table(z.drop_last());
        let c = z.last();
        Seq::new(
            2 * t.len(),
            |x: int|
                if x % 2 == 0 {
                    t[x / 2].spec_mul(fe(1).spec_sub(c))
                } else {
                    t[x / 2].spec_mul(c)
                },
        )
    }
}

/// The table of `eq(point, x)` over the hypercube.
pub fn eq_weights(point: &[KoalaBear]) -> (r: Vec<KoalaBear>)
    requires
        pow2(point@.len() as nat) <= usize::MAX,
    ensures
        r@ == eq_table(point@),
        r@.len() == pow2(point@.len() as nat),
{
    let mut t: Vec<KoalaBear> = Vec::new();
    t.push(KoalaBear::one());
    proof {
        assert(eq_table(point@.take(0)) =~= seq![fe(1)]) by {
            assert(point@.take(0).len() == 0);
        }
        vstd::arithmetic::power2::lemma2_to64();
        assert(t@ =~= seq![fe(1)]);
    }
    let n = point.len();
    let mut i: usize = 0;
    while i < n
        invariant
            n == point@.len(),
            pow2(n as nat) <= usize::MAX,
            i <= n,
            t@ == eq_table(point@.take(i as int)),
            t@.len() == pow2(i as nat),
        decreases n - i,
    {
        let c = point[i];
        let one_minus = KoalaBear::one().sub(c);
        proof {
            lemma_pow2_unfold((i + 1) as nat);
            if i + 1 < n {
                vstd::arithmetic::power2::lemma_pow2_strictly_increases((i + 1) as nat, n as nat);
            }
            assert(point@.take(i + 1).drop_last() =~= point@.take(i as int));
        }
        let m = t.len();
        let mut next: Vec<KoalaBear> = Vec::with_capacity(2 * m);
        let mut j: usize = 0;
        while j < m
            invariant
                m == t@.len(),
                2 * m <= usize::MAX,
                j <= m,
                next@.len() == 2 * j,
                forall|x: int| 0 <= x < 2 * j ==> #[trigger] next@[x] == (if x % 2 == 0 {
                    t@[x / 2].spec_mul(one_minus)
                } else {
                    t@[x / 2].spec_mul(c)
                }),
            decreases m - j,
        {
            next.push(t[j].mul(one_minus));
            next.push(t[j].mul(c));
            j += 1;
        }
        proof {
            let want = eq_table(point@.take(i + 1));
            assert(point@.take(i + 1).last() == c);
            assert(one_minus == fe(1).spec_sub(c));
            assert(next@ =~= want);
        }
        t = next;
        i += 1;
    }
    proof {
        assert(point@.take(n as int) =~= point@);
    }
    t
}

/// Binding the first challenge, then the rest, is folding with all of them.
pub proof fn lemma_fold_prepend(t: Seq<KoalaBear>, c: KoalaBear, rs: Seq<KoalaBear>)
    ensures
        fold_table(t, seq![c] + rs) == fold_table(compress(t, c), rs),
    decreases rs.len(),
{
    if rs.len() == 0 {
        assert(seq![c] + rs =~= seq![c]);
        assert(seq![c].drop_last() =~= Seq::<KoalaBear>::empty());
        assert(fold_table(t, Seq::<KoalaBear>::empty()) == t);
        assert(fold_table(t, seq![c]) == compress(fold_table(t, seq![c].drop_last()), c));
    } else {
        lemma_fold_prepend(t, c, rs.drop_last());
        let s = seq![c] + rs;
        assert(s.drop_last() =~= seq![c] + rs.drop_last());
        assert(s.last() == rs.last());
        assert(fold_table(t, s) == compress(fold_table(t, s.drop_last()), s.last()));
        assert(fold_table(compress(t, c), rs) == compress(fold_table(compress(t, c), rs.drop_last()), rs.last()));
    }
}

/// The table of `eq(z, .)` has `2^(len z)` entries.
pub proof fn lemma_eq_len(z: Seq<KoalaBear>)
    ensures
        eq_table(z).len() == pow2(z.len()),
    decreases z.len(),
{
    if z.len() == 0 {
        vstd::arithmetic::power2::lemma2_to64();
    } else {
        lemma_eq_len(z.drop_last());
        lemma_pow2_unfold(z.len());
    }
}

/// Splitting off the last coordinate of `z`: the inner product with the table
/// of `eq(z, .)` is the inner product of the table of `eq` over the other
/// coordinates with the table bound at the last one.
proof fn lemma_eq_step(t: Seq<KoalaBear>, zp: Seq<KoalaBear>, c: KoalaBear)
    requires
        t.len() == 2 * pow2(zp.len()),
        c.wf(),
    ensures
        dot(eq_table(zp.push(c)), t) == dot(eq_table(zp), compress(t, c)),
{
    let z = zp.push(c);
    assert(z.drop_last() =~= zp);
    assert(z.last() == c);
    lemma_eq_len(zp);
    let cv = c.v();
    let ct = compress(t, c);
    let e = eq_table(zp);
    let m = e.len();
    let eqz = eq_table(z);
    assert(eqz.len() == 2 * m);
    let g = |x: int|
        if x % 2 == 0 {
            e[x / 2].v() * (1 - cv) * t[x].v()
        } else {
            e[x / 2].v() * cv * t[x].v()
        };
    let hp = |j: int| e[j].v() * (t[2 * j].v() + cv * (t[2 * j + 1].v() - t[2 * j].v()));
    assert forall|x: int| 0 <= x < eqz.len() implies #[trigger] hadamard(eqz, t)[x] == fe(g(x)) by {
        if x % 2 == 0 {
            crate::ring::lemma_sub_l(1, c);
            lemma_mul_r(e[x / 2], 1 - cv);
            lemma_mul_l(e[x / 2].v() * (1 - cv), t[x]);
        } else {
            lemma_mul_l(e[x / 2].v() * cv, t[x]);
        }
    }
    lemma_sum_terms(hadamard(eqz, t), g);
    lemma_isum_pairs(m, g);
    assert forall|j: int| 0 <= j < m implies #[trigger] hadamard(e, ct)[j] == fe(hp(j)) by {
        lemma_sub_r(t[2 * j + 1], t[2 * j].v());
        lemma_mul_r(c, t[2 * j + 1].v() - t[2 * j].v());
        lemma_add_r(t[2 * j], cv * (t[2 * j + 1].v() - t[2 * j].v()));
        lemma_mul_r(e[j], t[2 * j].v() + cv * (t[2 * j + 1].v() - t[2 * j].v()));
    }
    lemma_sum_terms(hadamard(e, ct), hp);
    assert forall|j: int| 0 <= j < m implies #[trigger] (g(2 * j) + g(2 * j + 1)) == hp(j) by {
        let ev = e[j].v();
        let a = t[2 * j].v();
        let b = t[2 * j + 1].v();
        assert((2 * j) % 2 == 0 && (2 * j) / 2 == j);
        assert((2 * j + 1) % 2 == 1 && (2 * j + 1) / 2 == j);
        assert(ev * (1 - cv) * a + ev * cv * b == ev * (a + cv * (b - a))) by (nonlinear_arith);
    }
    lemma_isum_ext(m, |j: int| g(2 * j) + g(2 * j + 1), hp);
}

/// The value of the multilinear extension at `z` is the inner product of the
/// table of `eq(z, .)` with the table (on canonical entries and points).
pub proof fn lemma_eq_eval(t: Seq<KoalaBear>, z: Seq<KoalaBear>)
    requires
        t.len() == pow2(z.len()),
        all_wf(t),
        all_wf(z),
    ensures
        dot(eq_table(z), t) == mle_eval(t, z),
    decreases z.len(),
{
    if z.len() == 0 {
        vstd::arithmetic::power2::lemma2_to64();
        assert(t.len() == 1);
        assert(eq_table(z) =~= seq![fe(1)]);
        let h = hadamard(eq_table(z), t);
        let g0 = |i: int| t[0].v();
        lemma_mul_l(1, t[0]);
        assert(h[0] == fe(g0(0)));
        lemma_sum_terms(h, g0);
        assert(isum_g(1, g0) == g0(0)) by {
            reveal_with_fuel(isum_g, 2);
        }
        lemma_canon(t[0]);
        assert(z.reverse() =~= Seq::<KoalaBear>::empty());
    } else {
        let zp = z.drop_last();
        let c = z.last();
        assert(c.wf());
        assert(all_wf(zp));
        lemma_pow2_unfold(z.len());
        let ct = compress(t, c);
        assert(all_wf(ct)) by {
            assert forall|j: int| 0 <= j < ct.len() implies #[trigger] ct[j].wf() by {
                crate::ring::lemma_fe_wf(t[2 * j].v() + c.spec_mul(t[2 * j + 1].spec_sub(t[2 * j])).v());
            }
        }
        lemma_eq_eval(ct, zp);
        assert(z.reverse() =~= seq![c] + zp.reverse());
        lemma_fold_prepend(t, c, zp.reverse());
        assert(zp.push(c) =~= z);
        lemma_eq_step(t, zp, c);
    }
}


/// Every entry of the table of `eq(z, .)` is canonical.
pub proof fn lemma_eq_wf(z: Seq<KoalaBear>, i: int)
    requires
        0 <= i < eq_table(z).len(),
    ensures
        eq_table(z)[i].wf(),
{
    if z.len() == 0 {
        crate::ring::lemma_fe_wf(1);
    } else {
        let t = eq_table(z.drop_last());
        let c = z.last();
        if i % 2 == 0 {
            crate::ring::lemma_fe_wf(t[i / 2].v() * fe(1).spec_sub(c).v());
        } else {
            crate::ring::lemma_fe_wf(t[i / 2].v() * c.v());
        }
    }
}

/// The table of `eq` over the concatenated point `z1 z2` is the tensor
/// product of the two tables: entry `r 2^(len z2) + c` is `eq(z1)[r] eq(z2)[c]`.
pub proof fn lemma_eq_tensor(z1: Seq<KoalaBear>, z2: Seq<KoalaBear>, r: int, c: int)
    requires
        0 <= r < pow2(z1.len()),
        0 <= c < pow2(z2.len()),
    ensures
        eq_table(z1 + z2)[r * pow2(z2.len()) + c] == eq_table(z1)[r].spec_mul(eq_table(z2)[c]),
    decreases z2.len(),
{
    lemma_eq_len(z1);
    lemma_eq_len(z2);
    if z2.len() == 0 {
        assert(z1 + z2 =~= z1);
        vstd::arithmetic::power2::lemma2_to64();
        assert(c == 0);
        lemma_eq_wf(z1, r);
        let e = eq_table(z1)[r];
        lemma_canon(e);
        lemma_mul_l(e.v(), fe(1));
        crate::ring::lemma_fe_wf(1);
        assert(fe(1).v() == 1);
        assert(e.v() * 1 == e.v());
    } else {
        let z2p = z2.drop_last();
        let cl = z2.last();
        let sp = pow2(z2p.len());
        lemma_pow2_unfold(z2.len());
        lemma_pow2_pos(z2p.len());
        assert((z1 + z2).drop_last() =~= z1 + z2p);
        assert((z1 + z2).last() == cl);
        let x = r * pow2(z2.len()) + c;
        assert(x == 2 * (r * sp + c / 2) + c % 2) by (nonlinear_arith)
            requires
                x == r * pow2(z2.len()) + c,
                pow2(z2.len()) == 2 * sp,
        ;
        assert(x / 2 == r * sp + c / 2 && x % 2 == c % 2);
        assert(0 <= c / 2 < sp);
        lemma_eq_tensor(z1, z2p, r, c / 2);
        lemma_eq_len(z1 + z2p);
        assert(0 <= r * sp + c / 2 < pow2(z1.len()) * sp) by (nonlinear_arith)
            requires
                0 <= r < pow2(z1.len()),
                0 <= c / 2 < sp,
        ;
        vstd::arithmetic::power2::lemma_pow2_adds(z1.len(), z2p.len());
        let a = eq_table(z1)[r];
        let b = eq_table(z2p)[c / 2];
        let f = if c % 2 == 0 { fe(1).spec_sub(cl) } else { cl };
        assert(eq_table(z1 + z2)[x] == eq_table(z1 + z2p)[x / 2].spec_mul(f));
        assert(eq_table(z2)[c] == b.spec_mul(f));
        lemma_mul_l(a.v() * b.v(), f);
        lemma_mul_r(a, b.v() * f.v());
        assert(a.v() * b.v() * f.v() == a.v() * (b.v() * f.v())) by (nonlinear_arith);
    }
}

} // verus!
