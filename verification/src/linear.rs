//! Pointwise sums and scalings of vectors over the field, and the lemmas that
//! sums and running sums are linear in them.
use vstd::prelude::*;

use crate::field::{fe, KoalaBear};
use crate::ring::{isum_g, lemma_isum_add, lemma_isum_ext, lemma_isum_scale, lemma_mul_r, lemma_sum_terms};
use crate::vectors::{isum, lemma_fe_add, lemma_sum_fe, prefix_sums, sum};
use crate::{sparse_product, sparse_row_terms, sparse_shape_ok, SparseMatEntry};

verus! {

/// The pointwise sum `a + b`.
pub open spec fn vadd(a: Seq<KoalaBear>, b: Seq<KoalaBear>) -> Seq<KoalaBear> {
    Seq::new(a.len(), |i: int| a[i].spec_add(b[i]))
}

/// The pointwise multiple `c a`.
pub open spec fn vscale(c: KoalaBear, a: Seq<KoalaBear>) -> Seq<KoalaBear> {
    Seq::new(a.len(), |i: int| c.spec_mul(a[i]))
}

/// The integer sum of `s` as a sum over its positions.
pub proof fn lemma_isum_positions(s: Seq<KoalaBear>)
    ensures
        isum(s) == isum_g(s.len(), |i: int| s[i].v()),
    decreases s.len(),
{
    if s.len() > 0 {
        let t = s.drop_last();
        lemma_isum_positions(t);
        lemma_isum_ext(t.len(), |i: int| t[i].v(), |i: int| s[i].v());
    }
}

/// The field sum of `s` is the reduction of the sum of its values.
pub proof fn lemma_sum_values(s: Seq<KoalaBear>)
    ensures
        sum(s) == fe(isum_g(s.len(), |i: int| s[i].v())),
{
    lemma_sum_fe(s);
    lemma_isum_positions(s);
}

/// The sum of a pointwise sum is the sum of the sums.
pub proof fn lemma_sum_vadd(a: Seq<KoalaBear>, b: Seq<KoalaBear>)
    requires
        a.len() == b.len(),
    ensures
        sum(vadd(a, b)) == sum(a).spec_add(sum(b)),
{
    let n = a.len();
    let fa = |i: int| a[i].v();
    let fb = |i: int| b[i].v();
    lemma_sum_terms(vadd(a, b), |i: int| fa(i) + fb(i));
    lemma_isum_add(n, fa, fb);
    lemma_sum_values(a);
    lemma_sum_values(b);
    lemma_fe_add(isum_g(n, fa), isum_g(n, fb));
}

/// The sum of a multiple is the multiple of the sum.
pub proof fn lemma_sum_vscale(c: KoalaBear, a: Seq<KoalaBear>)
    ensures
        sum(vscale(c, a)) == c.spec_mul(sum(a)),
{
    let n = a.len();
    let fa = |i: int| a[i].v();
    lemma_sum_terms(vscale(c, a), |i: int| c.v() * fa(i));
    lemma_isum_scale(n, c.v(), fa);
    lemma_sum_values(a);
    lemma_mul_r(c, isum_g(n, fa));
}

/// Running sums of a pointwise sum are the pointwise sums of the running sums.
pub proof fn lemma_prefix_sums_vadd(a: Seq<KoalaBear>, b: Seq<KoalaBear>)
    requires
        a.len() == b.len(),
    ensures
        prefix_sums(vadd(a, b)) == vadd(prefix_sums(a), prefix_sums(b)),
{
    assert forall|i: int| 0 <= i < a.len() implies #[trigger] prefix_sums(vadd(a, b))[i] == vadd(
        prefix_sums(a),
        prefix_sums(b),
    )[i] by {
        assert(vadd(a, b).take(i + 1) =~= vadd(a.take(i + 1), b.take(i + 1)));
        lemma_sum_vadd(a.take(i + 1), b.take(i + 1));
    }
    assert(prefix_sums(vadd(a, b)) =~= vadd(prefix_sums(a), prefix_sums(b)));
}

/// Running sums of a multiple are the multiple of the running sums.
pub proof fn lemma_prefix_sums_vscale(c: KoalaBear, a: Seq<KoalaBear>)
    ensures
        prefix_sums(vscale(c, a)) == vscale(c, prefix_sums(a)),
{
    assert forall|i: int| 0 <= i < a.len() implies #[trigger] prefix_sums(vscale(c, a))[i] == vscale(
        c,
        prefix_sums(a),
    )[i] by {
        assert(vscale(c, a).take(i + 1) =~= vscale(c, a.take(i + 1)));
        lemma_sum_vscale(c, a.take(i + 1));
    }
    assert(prefix_sums(vscale(c, a)) =~= vscale(c, prefix_sums(a)));
}

/// An entry index of row `i` lies below `y_len * nnz`.
proof fn lemma_entry_index(i: int, j: int, y_len: nat, nnz: nat)
    requires
        0 <= i < y_len,
        0 <= j < nnz,
    ensures
        0 <= i * nnz + j < y_len * nnz,
{
    assert(0 <= i * nnz + j < y_len * nnz) by (nonlinear_arith)
        requires
            0 <= i < y_len,
            0 <= j < nnz,
    ;
}

/// `(x + y) w = x w + y w` in the field.
proof fn lemma_distrib(x: KoalaBear, y: KoalaBear, w: KoalaBear)
    ensures
        x.spec_add(y).spec_mul(w) == x.spec_mul(w).spec_add(y.spec_mul(w)),
{
    crate::ring::lemma_mul_l(x.v() + y.v(), w);
    lemma_fe_add(x.v() * w.v(), y.v() * w.v());
    assert((x.v() + y.v()) * w.v() == x.v() * w.v() + y.v() * w.v()) by (nonlinear_arith);
}

/// `(c x) w = c (x w)` in the field.
proof fn lemma_assoc(c: KoalaBear, x: KoalaBear, w: KoalaBear)
    ensures
        c.spec_mul(x).spec_mul(w) == c.spec_mul(x.spec_mul(w)),
{
    crate::ring::lemma_mul_l(c.v() * x.v(), w);
    lemma_mul_r(c, x.v() * w.v());
    assert(c.v() * x.v() * w.v() == c.v() * (x.v() * w.v())) by (nonlinear_arith);
}

/// The sparse product is additive in the vector it multiplies.
pub proof fn lemma_sparse_product_vadd(
    a: Seq<KoalaBear>,
    b: Seq<KoalaBear>,
    entries: Seq<SparseMatEntry>,
    y_len: nat,
    nnz: nat,
)
    requires
        a.len() == b.len(),
        sparse_shape_ok(a.len(), entries, y_len, nnz),
    ensures
        sparse_product(vadd(a, b), entries, y_len, nnz) == vadd(
            sparse_product(a, entries, y_len, nnz),
            sparse_product(b, entries, y_len, nnz),
        ),
{
    assert forall|i: int| 0 <= i < y_len implies #[trigger] sparse_product(vadd(a, b), entries, y_len, nnz)[i]
        == vadd(sparse_product(a, entries, y_len, nnz), sparse_product(b, entries, y_len, nnz))[i] by {
        let ta = sparse_row_terms(a, entries, i, nnz);
        let tb = sparse_row_terms(b, entries, i, nnz);
        assert forall|j: int| 0 <= j < nnz implies #[trigger] sparse_row_terms(vadd(a, b), entries, i, nnz)[j]
            == vadd(ta, tb)[j] by {
            lemma_entry_index(i, j, y_len, nnz);
            let e = entries[i * nnz + j];
            assert(e.row < a.len());
            lemma_distrib(a[e.row as int], b[e.row as int], e.val);
        }
        assert(sparse_row_terms(vadd(a, b), entries, i, nnz) =~= vadd(ta, tb));
        lemma_sum_vadd(ta, tb);
    }
    assert(sparse_product(vadd(a, b), entries, y_len, nnz) =~= vadd(
        sparse_product(a, entries, y_len, nnz),
        sparse_product(b, entries, y_len, nnz),
    ));
}

/// The sparse product is homogeneous in the vector it multiplies.
pub proof fn lemma_sparse_product_vscale(
    c: KoalaBear,
    a: Seq<KoalaBear>,
    entries: Seq<SparseMatEntry>,
    y_len: nat,
    nnz: nat,
)
    requires
        sparse_shape_ok(a.len(), entries, y_len, nnz),
    ensures
        sparse_product(vscale(c, a), entries, y_len, nnz) == vscale(c, sparse_product(a, entries, y_len, nnz)),
{
    assert forall|i: int| 0 <= i < y_len implies #[trigger] sparse_product(vscale(c, a), entries, y_len, nnz)[i]
        == vscale(c, sparse_product(a, entries, y_len, nnz))[i] by {
        let ta = sparse_row_terms(a, entries, i, nnz);
        assert forall|j: int| 0 <= j < nnz implies #[trigger] sparse_row_terms(vscale(c, a), entries, i, nnz)[j]
            == vscale(c, ta)[j] by {
            lemma_entry_index(i, j, y_len, nnz);
            let e = entries[i * nnz + j];
            assert(e.row < a.len());
            lemma_assoc(c, a[e.row as int], e.val);
        }
        assert(sparse_row_terms(vscale(c, a), entries, i, nnz) =~= vscale(c, ta));
        lemma_sum_vscale(c, ta);
    }
    assert(sparse_product(vscale(c, a), entries, y_len, nnz) =~= vscale(c, sparse_product(a, entries, y_len, nnz)));
}

/// The low entry of a butterfly is additive:
/// `(x1 + x2) + 2 (y1 + y2) l = (x1 + 2 y1 l) + (x2 + 2 y2 l)`.
pub proof fn lemma_low_add(x1: KoalaBear, x2: KoalaBear, y1: KoalaBear, y2: KoalaBear, l: KoalaBear)
    ensures
        ({
            let t = y1.spec_add(y2).spec_mul(l);
            x1.spec_add(x2).spec_add(t).spec_add(t)
        }) == ({
            let t1 = y1.spec_mul(l);
            let t2 = y2.spec_mul(l);
            x1.spec_add(t1).spec_add(t1).spec_add(x2.spec_add(t2).spec_add(t2))
        }),
{
    let (a1, a2, b1, b2, w) = (x1.v(), x2.v(), y1.v(), y2.v(), l.v());
    let (sx, sy) = (a1 + a2, b1 + b2);
    crate::ring::lemma_mul_l(sy, l);
    lemma_fe_add(sx, sy * w);
    lemma_fe_add(sx + sy * w, sy * w);
    crate::ring::lemma_add_r(x1, b1 * w);
    lemma_fe_add(a1 + b1 * w, b1 * w);
    crate::ring::lemma_add_r(x2, b2 * w);
    lemma_fe_add(a2 + b2 * w, b2 * w);
    lemma_fe_add(a1 + b1 * w + b1 * w, a2 + b2 * w + b2 * w);
    assert(sx + sy * w + sy * w == (a1 + b1 * w + b1 * w) + (a2 + b2 * w + b2 * w)) by (nonlinear_arith)
        requires
            sx == a1 + a2,
            sy == b1 + b2,
    ;
}

/// The high entry of a butterfly is additive:
/// `(x1 + x2) + (y1 + y2) l = (x1 + y1 l) + (x2 + y2 l)`.
pub proof fn lemma_high_add(x1: KoalaBear, x2: KoalaBear, y1: KoalaBear, y2: KoalaBear, l: KoalaBear)
    ensures
        x1.spec_add(x2).spec_add(y1.spec_add(y2).spec_mul(l)) == x1.spec_add(y1.spec_mul(l)).spec_add(
            x2.spec_add(y2.spec_mul(l)),
        ),
{
    let (a1, a2, b1, b2, w) = (x1.v(), x2.v(), y1.v(), y2.v(), l.v());
    crate::ring::lemma_mul_l(b1 + b2, l);
    lemma_fe_add(a1 + a2, (b1 + b2) * w);
    crate::ring::lemma_add_r(x1, b1 * w);
    crate::ring::lemma_add_r(x2, b2 * w);
    lemma_fe_add(a1 + b1 * w, a2 + b2 * w);
    assert(a1 + a2 + (b1 + b2) * w == (a1 + b1 * w) + (a2 + b2 * w)) by (nonlinear_arith);
}

/// The low entry of a butterfly is homogeneous: `c x + 2 (c y) l = c (x + 2 y l)`.
pub proof fn lemma_low_scale(c: KoalaBear, x: KoalaBear, y: KoalaBear, l: KoalaBear)
    ensures
        ({
            let t = c.spec_mul(y).spec_mul(l);
            c.spec_mul(x).spec_add(t).spec_add(t)
        }) == c.spec_mul(({
            let t = y.spec_mul(l);
            x.spec_add(t).spec_add(t)
        })),
{
    let (k, a, b, w) = (c.v(), x.v(), y.v(), l.v());
    crate::ring::lemma_mul_l(k * b, l);
    lemma_fe_add(k * a, k * b * w);
    lemma_fe_add(k * a + k * b * w, k * b * w);
    crate::ring::lemma_add_r(x, b * w);
    lemma_fe_add(a + b * w, b * w);
    lemma_mul_r(c, a + b * w + b * w);
    assert(k * a + k * b * w + k * b * w == k * (a + b * w + b * w)) by (nonlinear_arith);
}

/// The high entry of a butterfly is homogeneous: `c x + (c y) l = c (x + y l)`.
pub proof fn lemma_high_scale(c: KoalaBear, x: KoalaBear, y: KoalaBear, l: KoalaBear)
    ensures
        c.spec_mul(x).spec_add(c.spec_mul(y).spec_mul(l)) == c.spec_mul(x.spec_add(y.spec_mul(l))),
{
    let (k, a, b, w) = (c.v(), x.v(), y.v(), l.v());
    crate::ring::lemma_mul_l(k * b, l);
    lemma_fe_add(k * a, k * b * w);
    crate::ring::lemma_add_r(x, b * w);
    lemma_mul_r(c, a + b * w);
    assert(k * a + k * b * w == k * (a + b * w)) by (nonlinear_arith);
}

/// The pointwise difference `a - b`.
pub open spec fn vsub(a: Seq<KoalaBear>, b: Seq<KoalaBear>) -> Seq<KoalaBear> {
    Seq::new(a.len(), |i: int| a[i].spec_sub(b[i]))
}

/// The sum of a pointwise difference is the difference of the sums.
pub proof fn lemma_sum_vsub(a: Seq<KoalaBear>, b: Seq<KoalaBear>)
    requires
        a.len() == b.len(),
    ensures
        sum(vsub(a, b)) == sum(a).spec_sub(sum(b)),
{
    let n = a.len();
    let fa = |i: int| a[i].v();
    let fb = |i: int| b[i].v();
    let fm = |i: int| -fb(i);
    lemma_sum_terms(vsub(a, b), |i: int| fa(i) + fm(i));
    lemma_isum_add(n, fa, fm);
    lemma_isum_scale(n, -1, fb);
    lemma_isum_ext(n, fm, |i: int| -1 * fb(i));
    lemma_sum_values(a);
    lemma_sum_values(b);
    crate::vectors::lemma_fe_sub(isum_g(n, fa), isum_g(n, fb));
}

} // verus!
