//! Expander-Accumulate (EA) linear-code encoding: a sparse-matrix
//! multiplication followed by a prefix-sum accumulation.
use vstd::prelude::*;

use crate::field::KoalaBear;
use crate::linear::{lemma_prefix_sums_vadd, lemma_prefix_sums_vscale, lemma_sparse_product_vadd, lemma_sparse_product_vscale, vadd, vscale};
use crate::vectors::{all_wf, prefix_sums, sum};
use crate::{sparse_mat_vec, sparse_product, sparse_shape_ok, SparseMatEntry};

verus! {

/// Parameters that control the EA code construction.
#[derive(Debug, Clone, Copy)]
pub struct EaParams {
    /// Codeword-length / message-length ratio.
    pub inverse_rate: usize,
    /// Multiplier used to compute column degree from log2(codeword_length).
    pub prob_multiplier: usize,
}

/// `floor(log2(n))`, and `0` for `n < 2`.
pub open spec fn floor_log2(n: nat) -> nat
    decreases n,
{
    if n < 2 {
        0
    } else {
        1 + floor_log2(n / 2)
    }
}

/// Computes [`floor_log2`].
pub fn ilog2_floor(n: usize) -> (r: usize)
    ensures
        r == floor_log2(n as nat),
{
    let mut m = n;
    let mut l: usize = 0;
    while m >= 2
        invariant
            l + floor_log2(m as nat) == floor_log2(n as nat),
            l + m <= n,
        decreases m,
    {
        m = m / 2;
        l = l + 1;
    }
    l
}

/// Column degree `floor(log2(codeword_length)) * prob_multiplier / inverse_rate`.
pub open spec fn ea_nnz_per_col(codeword_length: nat, params: EaParams) -> nat {
    ((floor_log2(codeword_length) * params.prob_multiplier) as int / params.inverse_rate as int) as nat
}

/// Pre-computed code description for the EA (Expander-Accumulate) code.
#[derive(Debug)]
pub struct EaCode {
    /// Message length.
    message_size: usize,
    /// Codeword length  (= inverse_rate * message_size).
    codeword_length: usize,
    /// Number of non-zeros per column in the sparse matrix.
    nnz_per_col: usize,
    /// Sparse matrix E stored as a flat array of entries
    /// (column-major, `nnz_per_col` entries per column).
    e: Vec<SparseMatEntry>,
}

impl EaCode {
    pub closed spec fn spec_message_size(&self) -> nat {
        self.message_size as nat
    }

    pub closed spec fn spec_codeword_length(&self) -> nat {
        self.codeword_length as nat
    }

    pub closed spec fn spec_nnz_per_col(&self) -> nat {
        self.nnz_per_col as nat
    }

    /// The sparse matrix, column-major.
    pub closed spec fn spec_entries(&self) -> Seq<SparseMatEntry> {
        self.e@
    }

    /// The matrix has the stated shape and addresses only message positions.
    pub open spec fn inv(&self) -> bool {
        &&& self.spec_entries().len() == self.spec_codeword_length() * self.spec_nnz_per_col()
        &&& sparse_shape_ok(
            self.spec_message_size(),
            self.spec_entries(),
            self.spec_codeword_length(),
            self.spec_nnz_per_col(),
        )
    }

    /// The codeword of `msg`: the prefix sums of `E msg`.
    pub open spec fn spec_encode(&self, msg: Seq<KoalaBear>) -> Seq<KoalaBear> {
        prefix_sums(
            sparse_product(msg, self.spec_entries(), self.spec_codeword_length(), self.spec_nnz_per_col()),
        )
    }

    /// Build a new EA code for a given `message_size` and `params`, drawing the
    /// sparse matrix from `rng`.
    pub fn new(message_size: usize, params: EaParams, rng: &mut rand::rngs::SmallRng) -> (r: EaCode)
        requires
            params.inverse_rate > 0,
            params.inverse_rate * message_size <= usize::MAX,
            floor_log2((params.inverse_rate * message_size) as nat) * params.prob_multiplier <= usize::MAX,
            (params.inverse_rate * message_size) * ea_nnz_per_col(
                (params.inverse_rate * message_size) as nat,
                params,
            ) <= usize::MAX,
        ensures
            r.inv(),
            r.spec_message_size() == message_size,
            r.spec_codeword_length() == params.inverse_rate * message_size,
            r.spec_nnz_per_col() == ea_nnz_per_col(r.spec_codeword_length(), params),
            forall|k: int|
                0 <= k < r.spec_entries().len() ==> (#[trigger] r.spec_entries()[k]).col == k
                    / r.spec_nnz_per_col() as int && r.spec_entries()[k].val.wf(),
    {
        let codeword_length = params.inverse_rate * message_size;
        let log2 = ilog2_floor(codeword_length);
        let nnz_per_col = log2 * params.prob_multiplier / params.inverse_rate;
        let mut e: Vec<SparseMatEntry> = Vec::with_capacity(codeword_length * nnz_per_col);
        let mut i: usize = 0;
        while i < codeword_length
            invariant
                i <= codeword_length,
                codeword_length * nnz_per_col <= usize::MAX,
                codeword_length == params.inverse_rate * message_size,
                params.inverse_rate > 0,
                e@.len() == i * nnz_per_col,
                forall|k: int|
                    0 <= k < e@.len() ==> (#[trigger] e@[k]).row < message_size && e@[k].col == k
                        / nnz_per_col as int && e@[k].val.wf(),
            decreases codeword_length - i,
        {
            let mut j: usize = 0;
            while j < nnz_per_col
                invariant
                    i < codeword_length,
                    j <= nnz_per_col,
                    codeword_length == params.inverse_rate * message_size,
                    params.inverse_rate > 0,
                    e@.len() == i * nnz_per_col + j,
                    forall|k: int|
                        0 <= k < e@.len() ==> (#[trigger] e@[k]).row < message_size && e@[k].col == k
                            / nnz_per_col as int && e@[k].val.wf(),
                decreases nnz_per_col - j,
            {
                proof {
                    if message_size == 0 {
                        assert(codeword_length == 0) by (nonlinear_arith)
                            requires
                                codeword_length == params.inverse_rate * message_size,
                                message_size == 0,
                        ;
                    }
                    vstd::arithmetic::div_mod::lemma_fundamental_div_mod_converse(
                        (i * nnz_per_col + j) as int,
                        nnz_per_col as int,
                        i as int,
                        j as int,
                    );
                }
                let row = crate::rng::random_index_below(rng, message_size);
                let val = KoalaBear::random(rng);
                e.push(SparseMatEntry { row, col: i, val });
                j += 1;
            }
            proof {
                vstd::arithmetic::mul::lemma_mul_is_distributive_add_other_way(nnz_per_col as int, i as int, 1);
                vstd::arithmetic::mul::lemma_mul_inequality(i as int + 1, codeword_length as int, nnz_per_col as int);
            }
            i += 1;
        }
        EaCode { message_size, codeword_length, nnz_per_col, e }
    }

    /// Returns the message size this code was built for.
    pub fn message_size(&self) -> (r: usize)
        ensures
            r == self.spec_message_size(),
    {
        self.message_size
    }

    /// Returns the codeword length for this code.
    pub fn codeword_length(&self) -> (r: usize)
        ensures
            r == self.spec_codeword_length(),
    {
        self.codeword_length
    }

    /// Encode a single message: multiply by the sparse matrix E, then
    /// prefix-sum (accumulate) the result.
    pub fn encode(&self, msg: &[KoalaBear]) -> (r: Vec<KoalaBear>)
        requires
            self.inv(),
            msg@.len() == self.spec_message_size(),
        ensures
            r@ == self.spec_encode(msg@),
            r@.len() == self.spec_codeword_length(),
            r@.len() > 0 ==> r@[0] == sparse_product(
                msg@,
                self.spec_entries(),
                self.spec_codeword_length(),
                self.spec_nnz_per_col(),
            )[0],
            forall|i: int|
                0 < i < r@.len() ==> #[trigger] r@[i] == r@[i - 1].spec_add(
                    sparse_product(msg@, self.spec_entries(), self.spec_codeword_length(), self.spec_nnz_per_col())[i],
                ),
    {
        proof {
            lemma_ea_accumulates(*self, msg@);
        }
        let mut codeword = sparse_mat_vec(msg, self.e.as_slice(), self.codeword_length, self.nnz_per_col);
        crate::vectors::prefix_sum_in_place(&mut codeword);
        codeword
    }
}

/// Linearity: the codeword of the zero message is zero.
pub proof fn lemma_ea_zero_message(code: EaCode, msg: Seq<KoalaBear>)
    requires
        code.inv(),
        msg.len() == code.spec_message_size(),
        forall|i: int| 0 <= i < msg.len() ==> msg[i] == crate::field::fe(0),
    ensures
        forall|i: int|
            0 <= i < code.spec_codeword_length() ==> #[trigger] code.spec_encode(msg)[i]
                == crate::field::fe(0),
{
    let y = sparse_product(msg, code.spec_entries(), code.spec_codeword_length(), code.spec_nnz_per_col());
    assert forall|i: int| 0 <= i < y.len() implies #[trigger] y[i] == crate::field::fe(0) by {
        let terms = crate::sparse_row_terms(msg, code.spec_entries(), i, code.spec_nnz_per_col());
        assert forall|j: int| 0 <= j < terms.len() implies #[trigger] terms[j] == crate::field::fe(0) by {
            vstd::arithmetic::mul::lemma_mul_inequality(i + 1, code.spec_codeword_length() as int, code.spec_nnz_per_col() as int);
            vstd::arithmetic::mul::lemma_mul_is_distributive_add_other_way(code.spec_nnz_per_col() as int, i, 1);
            let e = i * code.spec_nnz_per_col() + j;
            assert(0 <= e < code.spec_codeword_length() * code.spec_nnz_per_col()) by (nonlinear_arith)
                requires
                    0 <= i < code.spec_codeword_length(),
                    0 <= j < code.spec_nnz_per_col(),
                    e == i * code.spec_nnz_per_col() + j,
            ;
            let ent = code.spec_entries()[e];
            assert(ent.row < msg.len());
            crate::vectors::lemma_fe_v(0);
            assert(msg[ent.row as int] == crate::field::fe(0));
            assert(terms[j] == msg[ent.row as int].spec_mul(ent.val));
            assert(crate::field::fe(0).v() == 0);
            assert(crate::field::fe(0).spec_mul(ent.val) == crate::field::fe(0 * ent.val.v()));
            assert(0 * ent.val.v() == 0);
        }
        crate::vectors::lemma_sum_all_zero(terms);
    }
    assert forall|i: int| 0 <= i < y.len() implies #[trigger] prefix_sums(y)[i] == crate::field::fe(0) by {
        crate::vectors::lemma_sum_all_zero(y.take(i + 1));
    }
}

/// The code is linear: the codeword of a sum of messages is the sum of their
/// codewords.
pub proof fn lemma_ea_additive(code: EaCode, a: Seq<KoalaBear>, b: Seq<KoalaBear>)
    requires
        code.inv(),
        a.len() == code.spec_message_size(),
        b.len() == code.spec_message_size(),
    ensures
        code.spec_encode(vadd(a, b)) == vadd(code.spec_encode(a), code.spec_encode(b)),
{
    let (e, n, z) = (code.spec_entries(), code.spec_codeword_length(), code.spec_nnz_per_col());
    lemma_sparse_product_vadd(a, b, e, n, z);
    lemma_prefix_sums_vadd(sparse_product(a, e, n, z), sparse_product(b, e, n, z));
}

/// The code is linear: the codeword of a multiple of a message is that
/// multiple of its codeword.
pub proof fn lemma_ea_homogeneous(code: EaCode, c: KoalaBear, a: Seq<KoalaBear>)
    requires
        code.inv(),
        a.len() == code.spec_message_size(),
    ensures
        code.spec_encode(vscale(c, a)) == vscale(c, code.spec_encode(a)),
{
    let (e, n, z) = (code.spec_entries(), code.spec_codeword_length(), code.spec_nnz_per_col());
    lemma_sparse_product_vscale(c, a, e, n, z);
    lemma_prefix_sums_vscale(c, sparse_product(a, e, n, z));
}

/// The codeword accumulates the sparse product `y = E msg`: its first entry
/// is `y[0]` and each later entry adds the next entry of `y` to the one
/// before, so entry `i` is `y[0] + ... + y[i]`.
pub proof fn lemma_ea_accumulates(code: EaCode, msg: Seq<KoalaBear>)
    ensures
        ({
            let y = sparse_product(msg, code.spec_entries(), code.spec_codeword_length(), code.spec_nnz_per_col());
            let c = code.spec_encode(msg);
            &&& c.len() == code.spec_codeword_length()
            &&& c.len() > 0 ==> c[0] == y[0]
            &&& forall|i: int| 0 < i < c.len() ==> #[trigger] c[i] == c[i - 1].spec_add(y[i])
        }),
{
    let y = sparse_product(msg, code.spec_entries(), code.spec_codeword_length(), code.spec_nnz_per_col());
    let c = code.spec_encode(msg);
    if y.len() > 0 {
        crate::vectors::lemma_sum_take_step(y, 0);
        assert(y.take(0) =~= Seq::<KoalaBear>::empty());
        crate::vectors::lemma_fe_v(y[0].v());
        assert(sum(y.take(0)) == crate::field::fe(0));
        crate::ring::lemma_add_r(crate::field::fe(0), y[0].v());
        assert(c[0] == crate::field::fe(0).spec_add(y[0]));
    }
    assert forall|i: int| 0 < i < c.len() implies #[trigger] c[i] == c[i - 1].spec_add(y[i]) by {
        crate::vectors::lemma_sum_take_step(y, i);
    }
}

} // verus!
