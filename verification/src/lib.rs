//! Linear error-correcting codes over the KoalaBear field and the
//! code-switching sub-protocols built on them.
use vstd::prelude::*;

pub mod codes;
pub mod codeswitching;
pub mod field;
pub mod interleaved_iopp;
pub mod linear;
pub mod merkle;
pub mod ntt;
pub mod poly;
pub mod ring;
pub mod rng;
pub mod vectors;

pub use codes::basefold::{BasefoldCode, BasefoldParams};
pub use codes::brakedown::{BrakedownCode, BrakedownLevel};
pub use codes::era::{EraBuffers, EraCode};
pub use codes::expand_accumulate::{EaCode, EaParams};
pub use codes::identity::IdentityCode;
pub use codes::optimized_era::{EncodeNaiveBuffers, OptimizedEraCode, RadixSortBuffers};
pub use codes::tensor::TensorCode;
pub use codeswitching as codeswitch;
pub use merkle::{
    blake3_merkle_commit, blake3_merkle_commit_interleaved, blake3_merkle_interleaved_leaves,
    blake3_merkle_open_interleaved, blake3_merkle_precompute_levels, blake3_merkle_root_from_levels,
    blake3_merkle_verify_interleaved_column,
};
pub use field::KoalaBear;

use vectors::{is_permutation, lemma_sum_take_step, sum};

verus! {

/// A linear code over the KoalaBear field.
pub trait ErrorCorrectingCode {
    /// The code's own well-formedness (what its constructor establishes).
    spec fn inv(&self) -> bool;

    spec fn spec_message_size(&self) -> nat;

    spec fn spec_block_length(&self) -> nat;

    /// The codeword of `msg`.
    spec fn spec_encode(&self, msg: Seq<KoalaBear>) -> Seq<KoalaBear>;

    /// Every message of the right length has a codeword of the block length.
    proof fn lemma_encode_len(&self, msg: Seq<KoalaBear>)
        requires
            self.inv(),
            msg.len() == self.spec_message_size(),
        ensures
            self.spec_encode(msg).len() == self.spec_block_length(),
    ;

    fn message_size(&self) -> (r: usize)
        ensures
            r == self.spec_message_size(),
    ;

    fn block_length(&self) -> (r: usize)
        ensures
            r == self.spec_block_length(),
    ;

    fn encode(&self, msg: &[KoalaBear]) -> (r: Vec<KoalaBear>)
        requires
            self.inv(),
            msg@.len() == self.spec_message_size(),
        ensures
            r@ == self.spec_encode(msg@),
    ;
}

/// `msg[start..end]` as a vector.
pub fn copy_range(msg: &[KoalaBear], start: usize, end: usize) -> (r: Vec<KoalaBear>)
    requires
        start <= end <= msg@.len(),
    ensures
        r@ == msg@.subrange(start as int, end as int),
{
    let mut out: Vec<KoalaBear> = Vec::with_capacity(end - start);
    let mut i = start;
    while i < end
        invariant
            start <= i <= end <= msg@.len(),
            out@ == msg@.subrange(start as int, i as int),
        decreases end - i,
    {
        out.push(msg[i]);
        i += 1;
        assert(out@ =~= msg@.subrange(start as int, i as int));
    }
    out
}

/// The concatenation of the codewords of the first `count` segments of `msg`,
/// each segment being `code.spec_message_size()` long.
pub open spec fn interleaved_encoding<C: ErrorCorrectingCode>(
    code: C,
    msg: Seq<KoalaBear>,
    count: nat,
) -> Seq<KoalaBear>
    decreases count,
{
    if count == 0 {
        Seq::empty()
    } else {
        let k = code.spec_message_size() as int;
        interleaved_encoding(code, msg, (count - 1) as nat) + code.spec_encode(
            msg.subrange((count - 1) * k, count * k),
        )
    }
}

/// The `r`-th segment of length `k` of `msg`.
pub open spec fn segment(msg: Seq<KoalaBear>, k: nat, r: int) -> Seq<KoalaBear> {
    msg.subrange(r * k, (r + 1) * k)
}

/// Position `y` of the interleaved encoding is position `y mod n` of the
/// codeword of segment `y / n`.
pub proof fn lemma_interleaved_index<C: ErrorCorrectingCode>(code: C, msg: Seq<KoalaBear>, count: nat)
    requires
        code.inv(),
        msg.len() >= count * code.spec_message_size(),
    ensures
        interleaved_encoding(code, msg, count).len() == count * code.spec_block_length(),
        forall|y: int|
            0 <= y < count * code.spec_block_length() ==> #[trigger] interleaved_encoding(code, msg, count)[y]
                == code.spec_encode(segment(msg, code.spec_message_size(), y / code.spec_block_length() as int))[y
                % code.spec_block_length() as int],
    decreases count,
{
    let k = code.spec_message_size();
    let n = code.spec_block_length();
    if count > 0 {
        let c = count - 1;
        assert(msg.len() >= c * k) by (nonlinear_arith)
            requires
                msg.len() >= count * k,
                c == count - 1,
        ;
        lemma_interleaved_index(code, msg, c as nat);
        assert(c * k + k == count * k) by (nonlinear_arith)
            requires
                c == count - 1,
        ;
        assert(segment(msg, k, c) == msg.subrange(c * k, (count * k) as int));
        code.lemma_encode_len(segment(msg, k, c));
        assert(c * n + n == count * n) by (nonlinear_arith)
            requires
                c == count - 1,
        ;
        assert forall|y: int| 0 <= y < count * n implies #[trigger] interleaved_encoding(code, msg, count)[y]
            == code.spec_encode(segment(msg, k, y / n as int))[y % n as int] by {
            if y >= c * n {
                crate::vectors::lemma_grid_index(c, y - c * n, n as int, count as int);
                assert(c * n == n * c) by (nonlinear_arith);
            } else {
                assert(interleaved_encoding(code, msg, count)[y] == interleaved_encoding(code, msg, c as nat)[y]);
            }
        }
    }
}

/// The interleaved encoding is laid out row by row: its `r`-th block of
/// `block_length` entries is the codeword of the `r`-th segment of the
/// message, for every `r` below `count`.
pub proof fn lemma_interleaved_rows<C: ErrorCorrectingCode>(code: C, msg: Seq<KoalaBear>, count: nat, r: int)
    requires
        code.inv(),
        msg.len() >= count * code.spec_message_size(),
        0 <= r < count,
    ensures
        interleaved_encoding(code, msg, count).len() == count * code.spec_block_length(),
        interleaved_encoding(code, msg, count).subrange(
            r * code.spec_block_length(),
            (r + 1) * code.spec_block_length(),
        ) == code.spec_encode(segment(msg, code.spec_message_size(), r)),
{
    let k = code.spec_message_size();
    let n = code.spec_block_length() as int;
    lemma_interleaved_index(code, msg, count);
    let e = interleaved_encoding(code, msg, count);
    let w = code.spec_encode(segment(msg, k, r));
    assert(r * k + k <= count * k) by (nonlinear_arith)
        requires
            0 <= r < count,
    ;
    assert((r + 1) * k == r * k + k) by (nonlinear_arith);
    assert(0 <= r * k) by (nonlinear_arith)
        requires
            0 <= r,
    ;
    assert(segment(msg, k, r).len() == k);
    code.lemma_encode_len(segment(msg, k, r));
    assert((r + 1) * n == r * n + n) by (nonlinear_arith);
    assert(r * n + n <= count * n) by (nonlinear_arith)
        requires
            0 <= r < count,
            n >= 0,
    ;
    assert(0 <= r * n) by (nonlinear_arith)
        requires
            0 <= r,
            n >= 0,
    ;
    assert forall|y: int| 0 <= y < n implies #[trigger] e.subrange(r * n, (r + 1) * n)[y] == w[y] by {
        crate::vectors::lemma_grid_index(r, y, n, count as int);
        assert(r * n + y < count * n);
    }
    assert(e.subrange(r * n, (r + 1) * n) =~= w);
}

/// Encode by interleaving the message into `2^eta` segments and concatenating encodings.
pub fn encode_interleaved<C: ErrorCorrectingCode>(msg: &[KoalaBear], code: &C, eta: usize) -> (r: Vec<KoalaBear>)
    requires
        code.inv(),
        eta < usize::BITS,
        msg@.len() == code.spec_message_size() * vstd::arithmetic::power2::pow2(eta as nat),
        code.spec_block_length() * vstd::arithmetic::power2::pow2(eta as nat) <= usize::MAX,
    ensures
        r@ == interleaved_encoding(*code, msg@, vstd::arithmetic::power2::pow2(eta as nat)),
{
    proof {
        vstd::bits::lemma_usize_pow2_no_overflow(eta as nat);
        vstd::bits::lemma_usize_shl_is_mul(1, eta);
    }
    let segment_count: usize = 1usize << eta;
    let base_message_size = code.message_size();
    let block = code.block_length();
    let msg_len = msg.len();
    let mut out: Vec<KoalaBear> = Vec::with_capacity(block * segment_count);
    let mut segment: usize = 0;
    while segment < segment_count
        invariant
            code.inv(),
            segment <= segment_count,
            base_message_size == code.spec_message_size(),
            msg@.len() == base_message_size * segment_count,
            msg_len == msg@.len(),
            out@ == interleaved_encoding(*code, msg@, segment as nat),
        decreases segment_count - segment,
    {
        proof {
            vstd::arithmetic::mul::lemma_mul_inequality(segment as int + 1, segment_count as int, base_message_size as int);
            vstd::arithmetic::mul::lemma_mul_is_distributive_add_other_way(base_message_size as int, segment as int, 1);
        }
        let start = segment * base_message_size;
        let end = start + base_message_size;
        let seg = copy_range(msg, start, end);
        let enc = code.encode(&seg);
        let mut j: usize = 0;
        let ghost before = out@;
        while j < enc.len()
            invariant
                j <= enc@.len(),
                out@ == before + enc@.take(j as int),
            decreases enc@.len() - j,
        {
            out.push(enc[j]);
            j += 1;
            assert(out@ =~= before + enc@.take(j as int));
        }
        assert(enc@.take(enc@.len() as int) =~= enc@);
        segment += 1;
        assert(out@ == interleaved_encoding(*code, msg@, segment as nat));
    }
    out
}

/// Generate a random permutation of `0..n` using the Fisher–Yates shuffle.
pub fn random_permutation(rng: &mut rand::rngs::SmallRng, n: usize) -> (perm: Vec<usize>)
    ensures
        is_permutation(perm@, n as nat),
{
    let mut perm: Vec<usize> = Vec::with_capacity(n);
    let mut k: usize = 0;
    while k < n
        invariant
            k <= n,
            perm@.len() == k,
            forall|i: int| 0 <= i < k ==> perm@[i] == i,
        decreases n - k,
    {
        perm.push(k);
        k += 1;
    }
    assert(is_permutation(perm@, n as nat));
    let mut i: usize = n;
    while i > 1
        invariant
            i <= n,
            is_permutation(perm@, n as nat),
        decreases i,
    {
        i -= 1;
        let j = crate::rng::random_index_below(rng, i + 1);
        let a = perm[i];
        let b = perm[j];
        let ghost old_perm = perm@;
        perm.set(i, b);
        perm.set(j, a);
        assert forall|x: int, y: int| 0 <= x < y < perm@.len() implies perm@[x] != perm@[y] by {
            let sx = if x == i { j as int } else if x == j { i as int } else { x };
            let sy = if y == i { j as int } else if y == j { i as int } else { y };
            assert(perm@[x] == old_perm[sx]);
            assert(perm@[y] == old_perm[sy]);
        }
    }
    perm
}

/// A single non-zero entry `(row, col, val)` in a sparse matrix.
#[derive(Debug, Clone, Copy)]
pub struct SparseMatEntry {
    pub row: usize,
    pub col: usize,
    pub val: KoalaBear,
}

/// The terms `x[row] * val` of the entries `i * nnz_per_col .. (i + 1) * nnz_per_col`.
pub open spec fn sparse_row_terms(
    x: Seq<KoalaBear>,
    entries: Seq<SparseMatEntry>,
    i: int,
    nnz_per_col: nat,
) -> Seq<KoalaBear> {
    Seq::new(
        nnz_per_col,
        |j: int| x[entries[i * nnz_per_col + j].row as int].spec_mul(entries[i * nnz_per_col + j].val),
    )
}

/// The product of the sparse matrix `entries` (column-major, `nnz_per_col`
/// entries per output element) with `x`.
pub open spec fn sparse_product(
    x: Seq<KoalaBear>,
    entries: Seq<SparseMatEntry>,
    y_len: nat,
    nnz_per_col: nat,
) -> Seq<KoalaBear> {
    Seq::new(y_len, |i: int| sum(sparse_row_terms(x, entries, i, nnz_per_col)))
}

/// The entries address rows of `x` and there are `nnz_per_col` of them for each of the `y_len` outputs.
pub open spec fn sparse_shape_ok(
    x_len: nat,
    entries: Seq<SparseMatEntry>,
    y_len: nat,
    nnz_per_col: nat,
) -> bool {
    &&& y_len * nnz_per_col <= entries.len()
    &&& forall|e: int| 0 <= e < y_len * nnz_per_col ==> (#[trigger] entries[e]).row < x_len
}

/// Multiply a sparse matrix (stored column-major as a flat list of entries,
/// `nnz_per_col` entries per output element) by a dense vector `x`.
pub fn sparse_mat_vec(
    x: &[KoalaBear],
    entries: &[SparseMatEntry],
    y_len: usize,
    nnz_per_col: usize,
) -> (r: Vec<KoalaBear>)
    requires
        sparse_shape_ok(x@.len(), entries@, y_len as nat, nnz_per_col as nat),
    ensures
        r@ == sparse_product(x@, entries@, y_len as nat, nnz_per_col as nat),
{
    let mut out: Vec<KoalaBear> = Vec::with_capacity(y_len);
    let entries_len = entries.len();
    let mut i: usize = 0;
    while i < y_len
        invariant
            i <= y_len,
            sparse_shape_ok(x@.len(), entries@, y_len as nat, nnz_per_col as nat),
            entries_len == entries@.len(),
            out@ == sparse_product(x@, entries@, y_len as nat, nnz_per_col as nat).take(i as int),
        decreases y_len - i,
    {
        let mut acc = KoalaBear::zero();
        let mut j: usize = 0;
        let ghost terms = sparse_row_terms(x@, entries@, i as int, nnz_per_col as nat);
        while j < nnz_per_col
            invariant
                i < y_len,
                j <= nnz_per_col,
                sparse_shape_ok(x@.len(), entries@, y_len as nat, nnz_per_col as nat),
                entries_len == entries@.len(),
                terms == sparse_row_terms(x@, entries@, i as int, nnz_per_col as nat),
                acc == sum(terms.take(j as int)),
            decreases nnz_per_col - j,
        {
            proof {
                vstd::arithmetic::mul::lemma_mul_inequality(i as int + 1, y_len as int, nnz_per_col as int);
                vstd::arithmetic::mul::lemma_mul_is_distributive_add_other_way(nnz_per_col as int, i as int, 1);
                lemma_sum_take_step(terms, j as int);
            }
            let e = entries[i * nnz_per_col + j];
            acc = acc.add(x[e.row].mul(e.val));
            j += 1;
        }
        assert(terms.take(nnz_per_col as int) =~= terms);
        out.push(acc);
        i += 1;
        assert(out@ =~= sparse_product(x@, entries@, y_len as nat, nnz_per_col as nat).take(i as int));
    }
    assert(out@ =~= sparse_product(x@, entries@, y_len as nat, nnz_per_col as nat).take(y_len as int));
    out
}

} // verus!
