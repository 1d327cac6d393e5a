//! Transforms of vectors of field elements: the wavelet (subset-sum)
//! transform and its inverse, and matrix transposition.
use vstd::arithmetic::power2::{lemma_pow2_pos, lemma_pow2_unfold, pow2};
use vstd::prelude::*;

use crate::codeswitching::sumcheck::{is_pow2, lemma_pow2_half, log2};
use crate::field::KoalaBear;
use crate::ring::{lemma_add_l, lemma_canon, lemma_sub_l};
use crate::vectors::{all_wf, lemma_grid_coords, lemma_grid_index};

verus! {

/// One pass at stride `s`: every entry in the upper half of its block of
/// `2 s` entries gets the entry `s` places before it added.
pub open spec fn wavelet_pass(v: Seq<KoalaBear>, s: int) -> Seq<KoalaBear> {
    Seq::new(v.len(), |x: int| if x % (2 * s) >= s { v[x].spec_add(v[x - s]) } else { v[x] })
}

/// One inverse pass at stride `s`: the entry `s` places before is subtracted instead.
pub open spec fn inverse_wavelet_pass(v: Seq<KoalaBear>, s: int) -> Seq<KoalaBear> {
    Seq::new(v.len(), |x: int| if x % (2 * s) >= s { v[x].spec_sub(v[x - s]) } else { v[x] })
}

/// The passes at strides `1, 2, ..., 2^(k-1)`, in that order.
pub open spec fn wavelet_levels(v: Seq<KoalaBear>, k: nat) -> Seq<KoalaBear>
    decreases k,
{
    if k == 0 {
        v
    } else {
        wavelet_pass(wavelet_levels(v, (k - 1) as nat), pow2((k - 1) as nat) as int)
    }
}

/// The inverse passes at strides `2^(k-1), ..., 2, 1`, in that order.
pub open spec fn inverse_wavelet_levels(v: Seq<KoalaBear>, k: nat) -> Seq<KoalaBear>
    decreases k,
{
    if k == 0 {
        v
    } else {
        inverse_wavelet_levels(inverse_wavelet_pass(v, pow2((k - 1) as nat) as int), (k - 1) as nat)
    }
}

/// One pass of either kind at stride `stride`.
fn pass(values: &mut Vec<KoalaBear>, stride: usize, inverse: bool)
    requires
        stride > 0,
        2 * stride <= usize::MAX,
    ensures
        inverse ==> final(values)@ == inverse_wavelet_pass(old(values)@, stride as int),
        !inverse ==> final(values)@ == wavelet_pass(old(values)@, stride as int),
{
    let ghost orig = values@;
    let n = values.len();
    let block = 2 * stride;
    let mut x: usize = 0;
    while x < n
        invariant
            n == values@.len(),
            orig.len() == n,
            block == 2 * stride,
            stride > 0,
            x <= n,
            forall|y: int| x <= y < n ==> #[trigger] values@[y] == orig[y],
            inverse ==> forall|y: int| 0 <= y < x ==> #[trigger] values@[y] == inverse_wavelet_pass(
                orig,
                stride as int,
            )[y],
            !inverse ==> forall|y: int| 0 <= y < x ==> #[trigger] values@[y] == wavelet_pass(orig, stride as int)[y],
        decreases n - x,
    {
        if x % block >= stride {
            proof {
                vstd::arithmetic::div_mod::lemma_fundamental_div_mod(x as int, block as int);
                vstd::arithmetic::div_mod::lemma_mod_bound(x as int, block as int);
                let q = (x as int) / (block as int);
                let xs = x - stride;
                assert(xs as int == (block as int) * q + (x as int % block as int - stride));
                vstd::arithmetic::mul::lemma_mul_is_commutative(block as int, q);
                lemma_grid_index(q, x as int % block as int - stride, block as int, q + 1);
            }
            let lo = values[x - stride];
            let v = if inverse {
                values[x].sub(lo)
            } else {
                values[x].add(lo)
            };
            values.set(x, v);
        }
        x += 1;
    }
    proof {
        if inverse {
            assert(values@ =~= inverse_wavelet_pass(orig, stride as int));
        } else {
            assert(values@ =~= wavelet_pass(orig, stride as int));
        }
    }
}

/// The wavelet transform of a table of length `2^k`: passes at strides
/// `1, 2, 4, ...`, each adding to every upper-half entry of a block the
/// matching lower-half entry.
pub fn wavelet_transform(values: &mut Vec<KoalaBear>)
    requires
        is_pow2(old(values)@.len()),
    ensures
        final(values)@ == wavelet_levels(old(values)@, log2(old(values)@.len())),
{
    let ghost orig = values@;
    let n = values.len();
    proof {
        crate::codeswitching::sumcheck::permutation::lemma_pow2_log2(n as nat);
    }
    let mut stride: usize = 1;
    let ghost mut k: nat = 0;
    proof {
        vstd::arithmetic::power2::lemma2_to64();
    }
    while stride < n
        invariant
            n == values@.len(),
            n == orig.len(),
            n == pow2(log2(n as nat)),
            stride == pow2(k),
            k <= log2(n as nat),
            values@ == wavelet_levels(orig, k),
        decreases n - stride,
    {
        proof {
            if k == log2(n as nat) {
                assert(false);
            }
            lemma_pow2_unfold(k + 1);
            if k + 1 < log2(n as nat) {
                vstd::arithmetic::power2::lemma_pow2_strictly_increases(k + 1, log2(n as nat));
            }
            lemma_pow2_pos(k);
        }
        pass(values, stride, false);
        stride = stride * 2;
        proof {
            k = k + 1;
        }
    }
    proof {
        if k < log2(n as nat) {
            vstd::arithmetic::power2::lemma_pow2_strictly_increases(k, log2(n as nat));
        }
    }
}

/// The inverse wavelet transform: passes at strides `2^(k-1), ..., 2, 1`,
/// each subtracting the matching lower-half entry.
pub fn inverse_wavelet_transform(values: &mut Vec<KoalaBear>)
    requires
        is_pow2(old(values)@.len()),
    ensures
        final(values)@ == inverse_wavelet_levels(old(values)@, log2(old(values)@.len())),
{
    let ghost orig = values@;
    let n = values.len();
    if n <= 1 {
        return;
    }
    proof {
        crate::codeswitching::sumcheck::permutation::lemma_pow2_log2(n as nat);
        lemma_pow2_half(n as nat);
        crate::codeswitching::sumcheck::permutation::lemma_pow2_log2((n / 2) as nat);
    }
    let mut stride: usize = n / 2;
    let ghost mut k: nat = log2(n as nat);
    loop
        invariant_except_break
            n == values@.len(),
            n == orig.len(),
            n >= 2,
            k >= 1,
            stride == pow2((k - 1) as nat),
            stride <= n / 2,
            inverse_wavelet_levels(orig, log2(n as nat)) == inverse_wavelet_levels(values@, k),
        ensures
            values@ == inverse_wavelet_levels(orig, log2(n as nat)),
        decreases k,
    {
        proof {
            lemma_pow2_pos((k - 1) as nat);
        }
        let ghost before = values@;
        pass(values, stride, true);
        proof {
            assert(inverse_wavelet_levels(before, k) == inverse_wavelet_levels(values@, (k - 1) as nat));
        }
        if stride == 1 {
            proof {
                assert(k == 1) by {
                    if k > 1 {
                        vstd::arithmetic::power2::lemma_pow2_strictly_increases(0, (k - 1) as nat);
                        vstd::arithmetic::power2::lemma2_to64();
                    }
                }
            }
            break;
        }
        proof {
            assert(k >= 2) by {
                if k == 1 {
                    vstd::arithmetic::power2::lemma2_to64();
                }
            }
            lemma_pow2_unfold((k - 1) as nat);
        }
        stride = stride / 2;
        proof {
            k = (k - 1) as nat;
        }
    }
}

/// An inverse pass undoes the pass at the same stride.
proof fn lemma_pass_inverse(v: Seq<KoalaBear>, s: int)
    requires
        all_wf(v),
        s > 0,
    ensures
        inverse_wavelet_pass(wavelet_pass(v, s), s) == v,
        all_wf(wavelet_pass(v, s)),
{
    let w = wavelet_pass(v, s);
    assert forall|x: int| 0 <= x < v.len() implies #[trigger] inverse_wavelet_pass(w, s)[x] == v[x] && w[x].wf() by {
        if x % (2 * s) >= s {
            vstd::arithmetic::div_mod::lemma_mod_bound(x, 2 * s);
            assert(x - s >= 0) by {
                vstd::arithmetic::div_mod::lemma_fundamental_div_mod(x, 2 * s);
                vstd::arithmetic::div_mod::lemma_div_pos_is_pos(x, 2 * s);
                assert((2 * s) * (x / (2 * s)) >= 0) by (nonlinear_arith)
                    requires
                        s > 0,
                        x / (2 * s) >= 0,
                ;
            }
            assert((x - s) % (2 * s) < s) by {
                vstd::arithmetic::div_mod::lemma_fundamental_div_mod(x, 2 * s);
                let q = x / (2 * s);
                vstd::arithmetic::div_mod::lemma_fundamental_div_mod_converse(x - s, 2 * s, q, x % (2 * s) - s);
            }
            assert(v[x].wf() && v[x - s].wf());
            lemma_canon(v[x - s]);
            lemma_add_l(v[x].v(), v[x - s]);
            lemma_canon(v[x]);
            lemma_sub_l(v[x].v() + v[x - s].v(), v[x - s]);
            crate::ring::lemma_fe_wf(v[x].v() + v[x - s].v());
        }
    }
    assert(inverse_wavelet_pass(w, s) =~= v);
}

/// The inverse wavelet transform undoes the wavelet transform (on canonical entries).
pub proof fn lemma_wavelet_roundtrip(v: Seq<KoalaBear>, k: nat)
    requires
        all_wf(v),
    ensures
        inverse_wavelet_levels(wavelet_levels(v, k), k) == v,
        all_wf(wavelet_levels(v, k)),
    decreases k,
{
    if k > 0 {
        let k1 = (k - 1) as nat;
        lemma_wavelet_roundtrip(v, k1);
        lemma_pow2_pos(k1);
        lemma_pass_inverse(wavelet_levels(v, k1), pow2(k1) as int);
    }
}

/// The entries of a `rows x cols` row-major matrix, read column by column:
/// entry `c * rows + r` of the result is entry `r * cols + c` of `v`.
pub open spec fn transposed<T>(v: Seq<T>, rows: int, cols: int) -> Seq<T> {
    Seq::new(v.len(), |y: int| v[(y % rows) * cols + y / rows])
}

/// A copy of `v`.
pub fn copy_vec<T: Copy>(v: &Vec<T>) -> (r: Vec<T>)
    ensures
        r@ == v@,
{
    let mut out: Vec<T> = Vec::with_capacity(v.len());
    let mut i: usize = 0;
    while i < v.len()
        invariant
            i <= v@.len(),
            out@ == v@.take(i as int),
        decreases v@.len() - i,
    {
        out.push(v[i]);
        i += 1;
        assert(out@ =~= v@.take(i as int));
    }
    assert(out@ =~= v@);
    out
}

/// Transposes a `rows x cols` row-major matrix in place.
pub fn transpose<T: Copy>(values: &mut Vec<T>, rows: usize, cols: usize)
    requires
        rows * cols == old(values)@.len(),
    ensures
        final(values)@ == transposed(old(values)@, rows as int, cols as int),
{
    let ghost orig = values@;
    if rows <= 1 || cols <= 1 {
        proof {
            assert forall|y: int| 0 <= y < orig.len() implies #[trigger] transposed(orig, rows as int, cols as int)[y]
                == orig[y] by {
                if rows == 1 {
                    assert(y % 1 == 0 && y / 1 == y);
                } else if rows == 0 {
                    assert(orig.len() == 0);
                } else {
                    assert(cols <= 1);
                    if cols == 0 {
                        assert(orig.len() == 0) by (nonlinear_arith)
                            requires
                                rows * cols == orig.len(),
                                cols == 0,
                        ;
                    }
                    assert(orig.len() == rows);
                    vstd::arithmetic::div_mod::lemma_small_mod(y as nat, rows as nat);
                    vstd::arithmetic::div_mod::lemma_basic_div(y, rows as int);
                }
            }
            assert(values@ =~= transposed(orig, rows as int, cols as int));
        }
        return;
    }
    let n = values.len();
    let before: Vec<T> = copy_vec(values);
    let mut r: usize = 0;
    while r < rows
        invariant
            rows * cols == orig.len(),
            n == orig.len(),
            before@ == orig,
            values@.len() == orig.len(),
            rows > 1,
            cols > 1,
            r <= rows,
            forall|y: int| 0 <= y < orig.len() && y % (rows as int) < r ==> #[trigger] values@[y] == transposed(
                orig,
                rows as int,
                cols as int,
            )[y],
        decreases rows - r,
    {
        let mut c: usize = 0;
        while c < cols
            invariant
                rows * cols == orig.len(),
                n == orig.len(),
                before@ == orig,
                values@.len() == orig.len(),
                rows > 1,
                cols > 1,
                r < rows,
                c <= cols,
                forall|y: int|
                    0 <= y < orig.len() && (y % (rows as int) < r || (y % (rows as int) == r && y / (rows as int)
                        < c)) ==> #[trigger] values@[y] == transposed(orig, rows as int, cols as int)[y],
            decreases cols - c,
        {
            proof {
                lemma_grid_index(c as int, r as int, rows as int, cols as int);
                lemma_grid_index(r as int, c as int, cols as int, rows as int);
                vstd::arithmetic::mul::lemma_mul_is_commutative(rows as int, cols as int);
            }
            let v = before[r * cols + c];
            values.set(c * rows + r, v);
            proof {
                assert forall|y: int|
                    0 <= y < orig.len() && (y % (rows as int) < r || (y % (rows as int) == r && y / (rows as int)
                        < c + 1)) implies #[trigger] values@[y] == transposed(orig, rows as int, cols as int)[y] by {
                    vstd::arithmetic::mul::lemma_mul_is_commutative(rows as int, cols as int);
                    lemma_grid_coords(y, rows as int, cols as int);
                    if y % (rows as int) == r && y / (rows as int) == c {
                        assert(y == c * rows + r);
                    }
                }
            }
            c += 1;
        }
        proof {
            assert forall|y: int| 0 <= y < orig.len() && y % (rows as int) < r + 1 implies #[trigger] values@[y]
                == transposed(orig, rows as int, cols as int)[y] by {
                vstd::arithmetic::mul::lemma_mul_is_commutative(rows as int, cols as int);
                lemma_grid_coords(y, rows as int, cols as int);
            }
        }
        r += 1;
    }
    proof {
        assert forall|y: int| 0 <= y < orig.len() implies #[trigger] values@[y] == transposed(
            orig,
            rows as int,
            cols as int,
        )[y] by {
            vstd::arithmetic::div_mod::lemma_mod_bound(y, rows as int);
        }
        assert(values@ =~= transposed(orig, rows as int, cols as int));
    }
}

/// Transposing a `rows x cols` matrix and then the resulting `cols x rows`
/// matrix gives back the matrix it started from.
pub proof fn lemma_transpose_twice<T>(v: Seq<T>, rows: int, cols: int)
    requires
        rows > 0,
        cols > 0,
        v.len() == rows * cols,
    ensures
        transposed(transposed(v, rows, cols), cols, rows) == v,
{
    let t = transposed(v, rows, cols);
    assert forall|x: int| 0 <= x < v.len() implies #[trigger] transposed(t, cols, rows)[x] == v[x] by {
        vstd::arithmetic::mul::lemma_mul_is_commutative(rows, cols);
        lemma_grid_coords(x, cols, rows);
        let r = x / cols;
        let c = x % cols;
        let y = c * rows + r;
        lemma_grid_index(c, r, rows, cols);
        assert(y / rows == c && y % rows == r);
        assert(r * cols + c == x);
    }
    assert(transposed(t, cols, rows) =~= v);
}

} // verus!
