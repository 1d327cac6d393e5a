//! The tensor (product) code of an inner code `C`: a message of `k^2` entries
//! is laid out as a `k x k` grid, every row is encoded, then every column of
//! the resulting `k x n` grid, giving an `n x n` grid read row by row.
use vstd::prelude::*;

use crate::field::KoalaBear;
use crate::{copy_range, ErrorCorrectingCode};

verus! {

/// The tensor code built from an inner code.
#[derive(Debug)]
pub struct TensorCode<C> {
    inner: C,
    /// The inner code's message size.
    k: usize,
    /// The inner code's block length.
    n: usize,
}

impl<C> TensorCode<C> {
    /// Both squared sizes fit in a `usize`.
    #[verifier::type_invariant]
    spec fn sizes_fit(&self) -> bool {
        &&& self.k * self.k <= usize::MAX
        &&& self.n * self.n <= usize::MAX
    }
}

impl<C: ErrorCorrectingCode> TensorCode<C> {
    pub closed spec fn spec_inner(&self) -> C {
        self.inner
    }

    pub closed spec fn spec_k(&self) -> nat {
        self.k as nat
    }

    pub closed spec fn spec_n(&self) -> nat {
        self.n as nat
    }

    /// Row `r` of the message grid, encoded.
    pub open spec fn row_codeword(&self, msg: Seq<KoalaBear>, r: int) -> Seq<KoalaBear> {
        let k = self.spec_k() as int;
        self.spec_inner().spec_encode(msg.subrange(r * k, (r + 1) * k))
    }

    /// Column `c` of the grid of encoded rows, encoded.
    pub open spec fn column_codeword(&self, msg: Seq<KoalaBear>, c: int) -> Seq<KoalaBear> {
        self.spec_inner().spec_encode(Seq::new(self.spec_k(), |r: int| self.row_codeword(msg, r)[c]))
    }

    /// Wraps `inner`.
    pub fn new(inner: C) -> (r: TensorCode<C>)
        requires
            inner.spec_message_size() * inner.spec_message_size() <= usize::MAX,
            inner.spec_block_length() * inner.spec_block_length() <= usize::MAX,
        ensures
            r.spec_inner() == inner,
            r.spec_k() == inner.spec_message_size(),
            r.spec_n() == inner.spec_block_length(),
    {
        let k = inner.message_size();
        let n = inner.block_length();
        TensorCode { inner, k, n }
    }

    proof fn lemma_row(&self, msg: Seq<KoalaBear>, r: int)
        requires
            self.inv(),
            msg.len() == self.spec_k() * self.spec_k(),
            0 <= r < self.spec_k(),
        ensures
            (r + 1) * self.spec_k() <= msg.len(),
            0 <= r * self.spec_k(),
            r * self.spec_k() + self.spec_k() == (r + 1) * self.spec_k(),
            self.row_codeword(msg, r).len() == self.spec_n(),
    {
        let k = self.spec_k() as int;
        assert((r + 1) * k <= k * k) by (nonlinear_arith)
            requires
                0 <= r < k,
        ;
        assert(0 <= r * k) by (nonlinear_arith)
            requires
                0 <= r,
                0 <= k,
        ;
        assert(r * k + k == (r + 1) * k) by (nonlinear_arith);
        assert((r + 1) * k - r * k == k) by (nonlinear_arith);
        self.spec_inner().lemma_encode_len(msg.subrange(r * k, (r + 1) * k));
    }
}

impl<C: ErrorCorrectingCode> ErrorCorrectingCode for TensorCode<C> {
    open spec fn inv(&self) -> bool {
        &&& self.spec_inner().inv()
        &&& self.spec_k() == self.spec_inner().spec_message_size()
        &&& self.spec_n() == self.spec_inner().spec_block_length()
    }

    open spec fn spec_message_size(&self) -> nat {
        self.spec_k() * self.spec_k()
    }

    open spec fn spec_block_length(&self) -> nat {
        self.spec_n() * self.spec_n()
    }

    /// Entry `row * n + col` of the codeword is entry `row` of the encoded column `col`.
    open spec fn spec_encode(&self, msg: Seq<KoalaBear>) -> Seq<KoalaBear> {
        let n = self.spec_n() as int;
        Seq::new(self.spec_n() * self.spec_n(), |x: int| self.column_codeword(msg, x % n)[x / n])
    }

    proof fn lemma_encode_len(&self, msg: Seq<KoalaBear>) {
    }

    fn message_size(&self) -> (r: usize) {
        proof {
            use_type_invariant(self);
        }
        self.k * self.k
    }

    fn block_length(&self) -> (r: usize) {
        proof {
            use_type_invariant(self);
        }
        self.n * self.n
    }

    fn encode(&self, msg: &[KoalaBear]) -> (r: Vec<KoalaBear>) {
        proof {
            use_type_invariant(self);
        }
        let k = self.k;
        let n = self.n;
        let ghost m = msg@;
        // Encode every row.
        let mut row_encoded: Vec<Vec<KoalaBear>> = Vec::with_capacity(k);
        let mut row: usize = 0;
        while row < k
            invariant
                self.inv(),
                k == self.spec_k(),
                n == self.spec_n(),
                m == msg@,
                msg@.len() == k * k,
                k * k <= usize::MAX,
                row <= k,
                row_encoded@.len() == row,
                forall|r: int| 0 <= r < row ==> (#[trigger] row_encoded@[r])@ == self.row_codeword(m, r),
            decreases k - row,
        {
            proof {
                self.lemma_row(m, row as int);
            }
            let start = row * k;
            let seg = copy_range(msg, start, start + k);
            let enc = self.inner.encode(seg.as_slice());
            row_encoded.push(enc);
            row += 1;
        }
        // Encode every column of the encoded rows.
        let mut col_encoded: Vec<Vec<KoalaBear>> = Vec::with_capacity(n);
        let mut col: usize = 0;
        while col < n
            invariant
                self.inv(),
                k == self.spec_k(),
                n == self.spec_n(),
                m == msg@,
                msg@.len() == k * k,
                row_encoded@.len() == k,
                forall|r: int| 0 <= r < k ==> (#[trigger] row_encoded@[r])@ == self.row_codeword(m, r),
                col <= n,
                col_encoded@.len() == col,
                forall|c: int| 0 <= c < col ==> (#[trigger] col_encoded@[c])@ == self.column_codeword(m, c),
                forall|c: int| 0 <= c < col ==> (#[trigger] col_encoded@[c])@.len() == n,
            decreases n - col,
        {
            let mut column: Vec<KoalaBear> = Vec::with_capacity(k);
            let mut r: usize = 0;
            while r < k
                invariant
                    self.inv(),
                    k == self.spec_k(),
                    n == self.spec_n(),
                    m == msg@,
                    msg@.len() == k * k,
                    row_encoded@.len() == k,
                    forall|r: int| 0 <= r < k ==> (#[trigger] row_encoded@[r])@ == self.row_codeword(m, r),
                    col < n,
                    r <= k,
                    column@ == Seq::new(k as nat, |r: int| self.row_codeword(m, r)[col as int]).take(r as int),
                decreases k - r,
            {
                proof {
                    self.lemma_row(m, r as int);
                }
                column.push(row_encoded[r][col]);
                r += 1;
                assert(column@ =~= Seq::new(k as nat, |r: int| self.row_codeword(m, r)[col as int]).take(
                    r as int,
                ));
            }
            assert(column@ =~= Seq::new(k as nat, |r: int| self.row_codeword(m, r)[col as int]));
            let enc = self.inner.encode(column.as_slice());
            proof {
                self.spec_inner().lemma_encode_len(column@);
            }
            col_encoded.push(enc);
            col += 1;
        }
        // Read the grid row by row.
        let mut result: Vec<KoalaBear> = Vec::with_capacity(n * n);
        let mut rr: usize = 0;
        while rr < n
            invariant
                self.inv(),
                n == self.spec_n(),
                col_encoded@.len() == n,
                forall|c: int| 0 <= c < n ==> (#[trigger] col_encoded@[c])@ == self.column_codeword(m, c),
                forall|c: int| 0 <= c < n ==> (#[trigger] col_encoded@[c])@.len() == n,
                rr <= n,
                result@ == self.spec_encode(m).take((rr * n) as int),
            decreases n - rr,
        {
            let mut cc: usize = 0;
            while cc < n
                invariant
                    self.inv(),
                    n == self.spec_n(),
                    col_encoded@.len() == n,
                    forall|c: int| 0 <= c < n ==> (#[trigger] col_encoded@[c])@ == self.column_codeword(m, c),
                    forall|c: int| 0 <= c < n ==> (#[trigger] col_encoded@[c])@.len() == n,
                    rr < n,
                    cc <= n,
                    result@ == self.spec_encode(m).take((rr * n + cc) as int),
                decreases n - cc,
            {
                proof {
                    crate::vectors::lemma_grid_index(rr as int, cc as int, n as int, n as int);
                }
                result.push(col_encoded[cc][rr]);
                cc += 1;
                assert(result@ =~= self.spec_encode(m).take((rr * n + cc) as int));
            }
            proof {
                assert(rr * n + n == (rr + 1) * n) by (nonlinear_arith);
            }
            rr += 1;
        }
        assert(result@ =~= self.spec_encode(m));
        result
    }
}

} // verus!
