//! The ERA code: a base code, repeated, then two rounds of
//! permute / multiply / accumulate.
use vstd::prelude::*;

use crate::codes::optimized_era::{chunk_len, current_num_threads};
use crate::rng::{rip_shuffle_in_place, seeded_shuffle_rng};

use crate::field::{fe, KoalaBear};
use crate::vectors::{
    gather, gather_vec, hadamard, is_permutation, prefix_sums, sum, weighted_prefix_sum_chunked,
};
use crate::{interleaved_encoding, segment, ErrorCorrectingCode};

verus! {

/// `base` repeated cyclically up to length `n`.
pub open spec fn repeat_to(base: Seq<KoalaBear>, n: nat) -> Seq<KoalaBear> {
    Seq::new(n, |i: int| base[i % (base.len() as int)])
}

/// One ERA round: permute by `perm`, multiply by `mult`, accumulate.
pub open spec fn era_round(w: Seq<KoalaBear>, perm: Seq<usize>, mult: Seq<KoalaBear>) -> Seq<KoalaBear> {
    prefix_sums(hadamard(gather(w, perm), mult))
}

/// The ERA codeword built from the base codeword `base`.
pub open spec fn era_from_base(
    base: Seq<KoalaBear>,
    n: nat,
    p1: Seq<usize>,
    p2: Seq<usize>,
    m1: Seq<KoalaBear>,
    m2: Seq<KoalaBear>,
) -> Seq<KoalaBear> {
    era_round(era_round(repeat_to(base, n), p1, m1), p2, m2)
}

/// Pre-allocated scratch buffers for [`EraCode::encode_with_buffers`].
#[derive(Debug)]
pub struct EraBuffers {
    pub w0: Vec<KoalaBear>,
    pub m1: Vec<KoalaBear>,
    pub w1: Vec<KoalaBear>,
    pub m2: Vec<KoalaBear>,
    pub w2: Vec<KoalaBear>,
}

/// All of `s` is zero.
pub open spec fn all_zero(s: Seq<KoalaBear>) -> bool {
    forall|i: int| 0 <= i < s.len() ==> #[trigger] s[i] == fe(0)
}

/// `n` zeros.
pub fn zeros(n: usize) -> (r: Vec<KoalaBear>)
    ensures
        r@.len() == n,
        all_zero(r@),
{
    let mut v: Vec<KoalaBear> = Vec::with_capacity(n);
    let mut i: usize = 0;
    while i < n
        invariant
            i <= n,
            v@.len() == i,
            all_zero(v@),
        decreases n - i,
    {
        v.push(KoalaBear::zero());
        i += 1;
    }
    v
}

fn fill_zero(v: &mut Vec<KoalaBear>)
    ensures
        final(v)@.len() == old(v)@.len(),
        all_zero(final(v)@),
{
    let n = v.len();
    let mut i: usize = 0;
    while i < n
        invariant
            i <= n,
            v@.len() == n,
            forall|k: int| 0 <= k < i ==> #[trigger] v@[k] == fe(0),
        decreases n - i,
    {
        v.set(i, KoalaBear::zero());
        i += 1;
    }
}

impl EraBuffers {
    pub open spec fn sized(&self, n: nat) -> bool {
        &&& self.w0@.len() == n
        &&& self.m1@.len() == n
        &&& self.w1@.len() == n
        &&& self.m2@.len() == n
        &&& self.w2@.len() == n
    }

    /// Allocate buffers sized for the given `block_length`.
    pub fn new(block_length: usize) -> (r: EraBuffers)
        ensures
            r.sized(block_length as nat),
            all_zero(r.w0@) && all_zero(r.m1@) && all_zero(r.w1@) && all_zero(r.m2@) && all_zero(r.w2@),
    {
        EraBuffers {
            w0: zeros(block_length),
            m1: zeros(block_length),
            w1: zeros(block_length),
            m2: zeros(block_length),
            w2: zeros(block_length),
        }
    }

    /// Reset all buffers to zero.
    pub fn clear(&mut self)
        ensures
            final(self).w0@.len() == old(self).w0@.len(),
            final(self).m1@.len() == old(self).m1@.len(),
            final(self).w1@.len() == old(self).w1@.len(),
            final(self).m2@.len() == old(self).m2@.len(),
            final(self).w2@.len() == old(self).w2@.len(),
            all_zero(final(self).w0@) && all_zero(final(self).m1@) && all_zero(final(self).w1@)
                && all_zero(final(self).m2@) && all_zero(final(self).w2@),
    {
        fill_zero(&mut self.w0);
        fill_zero(&mut self.m1);
        fill_zero(&mut self.w1);
        fill_zero(&mut self.m2);
        fill_zero(&mut self.w2);
    }
}

/// The ERA code over a base code `C`.
#[derive(Debug)]
pub struct EraCode<C> {
    message_size: usize,
    block_length: usize,
    repetition_parameter: usize,
    base_code: C,
    p1_vector: Vec<usize>,
    p2_vector: Vec<usize>,
    m1_vector: Vec<KoalaBear>,
    m2_vector: Vec<KoalaBear>,
}

impl<C: ErrorCorrectingCode> EraCode<C> {
    pub closed spec fn spec_base_code(&self) -> C {
        self.base_code
    }

    pub closed spec fn spec_repetition(&self) -> nat {
        self.repetition_parameter as nat
    }

    pub closed spec fn spec_n(&self) -> nat {
        self.block_length as nat
    }

    pub closed spec fn spec_k(&self) -> nat {
        self.message_size as nat
    }

    pub closed spec fn spec_p1(&self) -> Seq<usize> {
        self.p1_vector@
    }

    pub closed spec fn spec_p2(&self) -> Seq<usize> {
        self.p2_vector@
    }

    pub closed spec fn spec_m1(&self) -> Seq<KoalaBear> {
        self.m1_vector@
    }

    pub closed spec fn spec_m2(&self) -> Seq<KoalaBear> {
        self.m2_vector@
    }

    /// The permutations permute `0..n`, the multipliers have length `n`, and
    /// `n` is `repetition * base block length`.
    pub open spec fn params_ok(&self) -> bool {
        &&& self.spec_base_code().inv()
        &&& self.spec_k() == self.spec_base_code().spec_message_size()
        &&& self.spec_n() == self.spec_repetition() * self.spec_base_code().spec_block_length()
        &&& is_permutation(self.spec_p1(), self.spec_n())
        &&& is_permutation(self.spec_p2(), self.spec_n())
        &&& self.spec_m1().len() == self.spec_n()
        &&& self.spec_m2().len() == self.spec_n()
    }

    /// The ERA codeword of `msg`.
    pub open spec fn era_encode(&self, msg: Seq<KoalaBear>) -> Seq<KoalaBear> {
        era_from_base(
            self.spec_base_code().spec_encode(msg),
            self.spec_n(),
            self.spec_p1(),
            self.spec_p2(),
            self.spec_m1(),
            self.spec_m2(),
        )
    }

    pub fn new(
        base_code: C,
        repetition_parameter: usize,
        p1_vector: Vec<usize>,
        p2_vector: Vec<usize>,
        m1_vector: Vec<KoalaBear>,
        m2_vector: Vec<KoalaBear>,
    ) -> (r: EraCode<C>)
        requires
            base_code.inv(),
            repetition_parameter * base_code.spec_block_length() <= usize::MAX,
            is_permutation(p1_vector@, (repetition_parameter * base_code.spec_block_length()) as nat),
            is_permutation(p2_vector@, (repetition_parameter * base_code.spec_block_length()) as nat),
            m1_vector@.len() == repetition_parameter * base_code.spec_block_length(),
            m2_vector@.len() == repetition_parameter * base_code.spec_block_length(),
        ensures
            r.params_ok(),
            r.spec_base_code() == base_code,
            r.spec_repetition() == repetition_parameter,
            r.spec_p1() == p1_vector@,
            r.spec_p2() == p2_vector@,
            r.spec_m1() == m1_vector@,
            r.spec_m2() == m2_vector@,
    {
        let message_size = base_code.message_size();
        let block_length = repetition_parameter * base_code.block_length();
        EraCode {
            message_size,
            block_length,
            repetition_parameter,
            base_code,
            p1_vector,
            p2_vector,
            m1_vector,
            m2_vector,
        }
    }

    proof fn lemma_base_len(&self, msg: Seq<KoalaBear>)
        requires
            self.params_ok(),
            msg.len() == self.spec_k(),
        ensures
            self.spec_base_code().spec_encode(msg).len() == self.spec_base_code().spec_block_length(),
            self.spec_n() > 0 ==> self.spec_base_code().spec_block_length() > 0,
    {
        self.spec_base_code().lemma_encode_len(msg);
        if self.spec_base_code().spec_block_length() == 0 {
            assert(self.spec_n() == 0) by (nonlinear_arith)
                requires
                    self.spec_n() == self.spec_repetition() * self.spec_base_code().spec_block_length(),
                    self.spec_base_code().spec_block_length() == 0,
            ;
        }
    }

    /// The base code.
    pub fn base_code(&self) -> (r: &C)
        ensures
            *r == self.spec_base_code(),
    {
        &self.base_code
    }

    /// First permutation with the repetition fused in: position `i` reads
    /// base position `p1[i] mod base_block_length`.
    pub fn repeat_permute(&self, base_encoding: &[KoalaBear]) -> (r: Vec<KoalaBear>)
        requires
            self.params_ok(),
            base_encoding@.len() == self.spec_base_code().spec_block_length(),
        ensures
            r@ == gather(repeat_to(base_encoding@, self.spec_n()), self.spec_p1()),
    {
        let n = self.block_length;
        let base_bl = self.base_code.block_length();
        proof {
            if self.spec_n() > 0 && base_bl == 0 {
                assert(self.spec_n() == 0) by (nonlinear_arith)
                    requires
                        self.spec_n() == self.spec_repetition() * self.spec_base_code().spec_block_length(),
                        self.spec_base_code().spec_block_length() == 0,
                ;
            }
        }
        let ghost rep = repeat_to(base_encoding@, n as nat);
        let mut w1: Vec<KoalaBear> = Vec::with_capacity(n);
        let mut i: usize = 0;
        while i < n
            invariant
                self.params_ok(),
                n == self.spec_n(),
                base_bl == base_encoding@.len(),
                n > 0 ==> base_bl > 0,
                rep == repeat_to(base_encoding@, n as nat),
                i <= n,
                w1@ == gather(rep, self.spec_p1()).take(i as int),
            decreases n - i,
        {
            let j = self.p1_vector[i];
            w1.push(base_encoding[j % base_bl]);
            i += 1;
            assert(w1@ =~= gather(rep, self.spec_p1()).take(i as int));
        }
        assert(w1@ =~= gather(rep, self.spec_p1()));
        w1
    }

    /// First accumulation: the prefix sums of `w` times the first multiplier vector.
    pub fn accumulate_first(&self, w: &mut Vec<KoalaBear>)
        requires
            self.params_ok(),
            old(w)@.len() == self.spec_n(),
        ensures
            final(w)@ == prefix_sums(hadamard(old(w)@, self.spec_m1())),
    {
        let chunk = chunk_len(w.len(), None, current_num_threads());
        weighted_prefix_sum_chunked(w, self.m1_vector.as_slice(), chunk);
    }

    /// Second permutation: position `i` reads `w1[p2[i]]`.
    pub fn permute_second(&self, w1: &[KoalaBear]) -> (r: Vec<KoalaBear>)
        requires
            self.params_ok(),
            w1@.len() == self.spec_n(),
        ensures
            r@ == gather(w1@, self.spec_p2()),
    {
        gather_vec(w1, self.p2_vector.as_slice())
    }

    /// Second accumulation: the prefix sums of `w` times the second multiplier vector.
    pub fn accumulate_second(&self, w: &mut Vec<KoalaBear>)
        requires
            self.params_ok(),
            old(w)@.len() == self.spec_n(),
        ensures
            final(w)@ == prefix_sums(hadamard(old(w)@, self.spec_m2())),
    {
        let chunk = chunk_len(w.len(), None, current_num_threads());
        weighted_prefix_sum_chunked(w, self.m2_vector.as_slice(), chunk);
    }

    /// Encode with the repetition fused into the first permutation:
    /// position `i` reads base position `p1[i] mod base_block_length`.
    pub fn encode_era(&self, msg: &[KoalaBear]) -> (r: Vec<KoalaBear>)
        requires
            self.params_ok(),
            msg@.len() == self.spec_k(),
        ensures
            r@ == self.era_encode(msg@),
    {
        let base_encoding = self.base_code.encode(msg);
        proof {
            self.lemma_base_len(msg@);
        }
        let mut w1 = self.repeat_permute(base_encoding.as_slice());
        self.accumulate_first(&mut w1);
        let mut w2 = self.permute_second(w1.as_slice());
        self.accumulate_second(&mut w2);
        w2
    }

    /// The base codeword repeated to the block length: position `i` holds base
    /// position `i mod base_block_length`.
    pub fn repeat_base(&self, base_encoding: &[KoalaBear]) -> (r: Vec<KoalaBear>)
        requires
            self.params_ok(),
            base_encoding@.len() == self.spec_base_code().spec_block_length(),
        ensures
            r@ == repeat_to(base_encoding@, self.spec_n()),
    {
        let n = self.block_length;
        let bl = self.base_code.block_length();
        proof {
            if self.spec_n() > 0 && bl == 0 {
                assert(self.spec_n() == 0) by (nonlinear_arith)
                    requires
                        self.spec_n() == self.spec_repetition() * self.spec_base_code().spec_block_length(),
                        self.spec_base_code().spec_block_length() == 0,
                ;
            }
        }
        let ghost rep = repeat_to(base_encoding@, n as nat);
        let mut w0: Vec<KoalaBear> = Vec::with_capacity(n);
        let mut i: usize = 0;
        while i < n
            invariant
                n == self.spec_n(),
                bl == base_encoding@.len(),
                n > 0 ==> bl > 0,
                rep == repeat_to(base_encoding@, n as nat),
                i <= n,
                w0@ == rep.take(i as int),
            decreases n - i,
        {
            w0.push(base_encoding[i % bl]);
            i += 1;
            assert(w0@ =~= rep.take(i as int));
        }
        assert(w0@ =~= rep);
        w0
    }

    /// One shuffle of the shuffle-based encoder: `w` rearranged by a
    /// permutation drawn from `rng`, so unchanged as a multiset.
    pub fn rip_shuffle_step(&self, w: &mut Vec<KoalaBear>, rng: &mut rand_xoshiro::Xoshiro256PlusPlus)
        ensures
            final(w)@.len() == old(w)@.len(),
            final(w)@.to_multiset() == old(w)@.to_multiset(),
    {
        rip_shuffle_in_place(w, rng);
    }

    /// What the shuffle-based encoder computes from the shuffled vectors `s1`
    /// and `s2`: `s1` rearranges the repeated base codeword of `msg`, `s2`
    /// rearranges the first round's running sums `prefix_sums(s1 * m1)`, and
    /// the codeword is `prefix_sums(s2 * m2)`.
    pub open spec fn rip_encoded(&self, msg: Seq<KoalaBear>, s1: Seq<KoalaBear>, s2: Seq<KoalaBear>, r: Seq<KoalaBear>) -> bool {
        &&& s1.to_multiset() == repeat_to(self.spec_base_code().spec_encode(msg), self.spec_n()).to_multiset()
        &&& s2.to_multiset() == prefix_sums(hadamard(s1, self.spec_m1())).to_multiset()
        &&& r == prefix_sums(hadamard(s2, self.spec_m2()))
    }

    /// Encode with the permutation steps done by `rip_shuffle`'s in-place
    /// shuffle in place of the stored permutations: repeat the base codeword,
    /// shuffle, multiply by `m1`, accumulate; shuffle, multiply by `m2`,
    /// accumulate.  Both shuffles draw from one generator seeded with `seed`.
    pub fn encode_rip(&self, msg: &[KoalaBear], seed: u64) -> (r: Vec<KoalaBear>)
        requires
            self.params_ok(),
            msg@.len() == self.spec_k(),
        ensures
            r@.len() == self.spec_n(),
            exists|s1: Seq<KoalaBear>, s2: Seq<KoalaBear>| #[trigger] self.rip_encoded(msg@, s1, s2, r@),
    {
        let base_encoding = self.base_code.encode(msg);
        proof {
            self.lemma_base_len(msg@);
        }
        let mut m1 = self.repeat_base(base_encoding.as_slice());
        let mut rng = seeded_shuffle_rng(seed);
        self.rip_shuffle_step(&mut m1, &mut rng);
        let ghost s1 = m1@;
        self.accumulate_first(&mut m1);
        let mut m2 = m1;
        self.rip_shuffle_step(&mut m2, &mut rng);
        let ghost s2 = m2@;
        self.accumulate_second(&mut m2);
        assert(self.rip_encoded(msg@, s1, s2, m2@));
        m2
    }

    /// Encode through the scratch buffers `buf`, one step per buffer:
    /// `w0` repetition, `m1`/`m2` permute and multiply, `w1`/`w2` accumulate.
    pub fn encode_with_buffers(&self, msg: &[KoalaBear], buf: &mut EraBuffers) -> (r: Vec<KoalaBear>)
        requires
            self.params_ok(),
            msg@.len() == self.spec_k(),
            old(buf).sized(self.spec_n()),
        ensures
            r@ == self.era_encode(msg@),
            final(buf).sized(self.spec_n()),
            final(buf).w0@ == repeat_to(self.spec_base_code().spec_encode(msg@), self.spec_n()),
            final(buf).w1@ == era_round(final(buf).w0@, self.spec_p1(), self.spec_m1()),
            final(buf).w2@ == r@,
    {
        buf.clear();
        let n = self.block_length;
        let base_encoding = self.base_code.encode(msg);
        let bl = self.base_code.block_length();
        proof {
            self.lemma_base_len(msg@);
        }
        let mut i: usize = 0;
        while i < n
            invariant
                buf.sized(n as nat),
                n == self.spec_n(),
                bl == base_encoding@.len(),
                n > 0 ==> bl > 0,
                i <= n,
                forall|k: int| 0 <= k < i ==> buf.w0@[k] == #[trigger] repeat_to(base_encoding@, n as nat)[k],
            decreases n - i,
        {
            buf.w0.set(i, base_encoding[i % bl]);
            i += 1;
        }
        assert(buf.w0@ =~= repeat_to(base_encoding@, n as nat));
        let ghost w0 = buf.w0@;
        let mut i: usize = 0;
        while i < n
            invariant
                self.params_ok(),
                buf.sized(n as nat),
                n == self.spec_n(),
                i <= n,
                buf.w0@ == w0,
                forall|k: int| 0 <= k < i ==> buf.m1@[k] == #[trigger] hadamard(gather(buf.w0@, self.spec_p1()), self.spec_m1())[k],
            decreases n - i,
        {
            let x = buf.w0[self.p1_vector[i]];
            buf.m1.set(i, x.mul(self.m1_vector[i]));
            i += 1;
        }
        assert(buf.m1@ =~= hadamard(gather(buf.w0@, self.spec_p1()), self.spec_m1()));
        let ghost m1 = buf.m1@;
        let mut acc = KoalaBear::zero();
        let mut i: usize = 0;
        while i < n
            invariant
                buf.sized(n as nat),
                n == self.spec_n(),
                i <= n,
                buf.w0@ == w0,
                buf.m1@ == m1,
                acc == sum(buf.m1@.take(i as int)),
                forall|k: int| 0 <= k < i ==> buf.w1@[k] == #[trigger] prefix_sums(buf.m1@)[k],
            decreases n - i,
        {
            proof {
                crate::vectors::lemma_sum_take_step(buf.m1@, i as int);
            }
            acc = acc.add(buf.m1[i]);
            buf.w1.set(i, acc);
            i += 1;
        }
        assert(buf.w1@ =~= prefix_sums(buf.m1@));
        let ghost w1 = buf.w1@;
        let mut i: usize = 0;
        while i < n
            invariant
                self.params_ok(),
                buf.sized(n as nat),
                n == self.spec_n(),
                i <= n,
                buf.w0@ == w0,
                buf.w1@ == w1,
                forall|k: int| 0 <= k < i ==> buf.m2@[k] == #[trigger] hadamard(gather(buf.w1@, self.spec_p2()), self.spec_m2())[k],
            decreases n - i,
        {
            let x = buf.w1[self.p2_vector[i]];
            buf.m2.set(i, x.mul(self.m2_vector[i]));
            i += 1;
        }
        assert(buf.m2@ =~= hadamard(gather(buf.w1@, self.spec_p2()), self.spec_m2()));
        let ghost m2 = buf.m2@;
        let mut acc = KoalaBear::zero();
        let mut i: usize = 0;
        while i < n
            invariant
                buf.sized(n as nat),
                n == self.spec_n(),
                i <= n,
                buf.w0@ == w0,
                buf.w1@ == w1,
                buf.m2@ == m2,
                acc == sum(buf.m2@.take(i as int)),
                forall|k: int| 0 <= k < i ==> buf.w2@[k] == #[trigger] prefix_sums(buf.m2@)[k],
            decreases n - i,
        {
            proof {
                crate::vectors::lemma_sum_take_step(buf.m2@, i as int);
            }
            acc = acc.add(buf.m2[i]);
            buf.w2.set(i, acc);
            i += 1;
        }
        assert(buf.w2@ =~= prefix_sums(buf.m2@));
        assert(buf.w2@.subrange(0, n as int) =~= buf.w2@);
        crate::copy_range(buf.w2.as_slice(), 0, n)
    }
}

impl<C: ErrorCorrectingCode> EraCode<C> {
    /// The repeated base codeword of row `r` of `msgs`.
    pub open spec fn row_rep(&self, msgs: Seq<KoalaBear>, r: int) -> Seq<KoalaBear> {
        repeat_to(self.spec_base_code().spec_encode(segment(msgs, self.spec_k(), r)), self.spec_n())
    }

    /// Row `r` after the first round.
    pub open spec fn row_w1(&self, msgs: Seq<KoalaBear>, r: int) -> Seq<KoalaBear> {
        era_round(self.row_rep(msgs, r), self.spec_p1(), self.spec_m1())
    }

    /// Row `r` after the second round: its ERA codeword.
    pub open spec fn row_w2(&self, msgs: Seq<KoalaBear>, r: int) -> Seq<KoalaBear> {
        era_round(self.row_w1(msgs, r), self.spec_p2(), self.spec_m2())
    }

    /// Encode `2^eta` messages of length `k` at once, keeping the rows
    /// interleaved column by column in the scratch vectors so that each
    /// permutation step moves whole columns.  The output is row-major: the
    /// codeword of row 0, then of row 1, and so on.
    pub fn encode_interleaved(&self, msgs: &[KoalaBear], eta: usize) -> (r: Vec<KoalaBear>)
        requires
            self.params_ok(),
            eta < usize::BITS,
            msgs@.len() == vstd::arithmetic::power2::pow2(eta as nat) * self.spec_k(),
            vstd::arithmetic::power2::pow2(eta as nat) * self.spec_n() <= usize::MAX,
        ensures
            r@ == interleaved_encoding(*self, msgs@, vstd::arithmetic::power2::pow2(eta as nat)),
    {
        proof {
            vstd::bits::lemma_usize_pow2_no_overflow(eta as nat);
            vstd::bits::lemma_usize_shl_is_mul(1, eta);
            vstd::arithmetic::power2::lemma_pow2_pos(eta as nat);
        }
        let rows: usize = 1usize << eta;
        let k = self.message_size;
        let n = self.block_length;
        let base_n = self.base_code.block_length();
        let total = rows * n;
        assert(total == n * rows) by (nonlinear_arith)
            requires
                total == rows * n,
        ;
        let ghost g = msgs@;
        let _msgs_len = msgs.len();
        let mut w0 = zeros(total);
        let mut buf = zeros(total);
        let mut tmp = zeros(total);

        // 1. Base-code encode + repetition, row by row, into column-major layout.
        let mut r: usize = 0;
        while r < rows
            invariant
                self.params_ok(),
                rows > 0,
                total == n * rows,
                n == self.spec_n(),
                k == self.spec_k(),
                base_n == self.spec_base_code().spec_block_length(),
                g == msgs@,
                msgs@.len() == rows * k,
                msgs@.len() <= usize::MAX,
                r <= rows,
                w0@.len() == total,
                forall|x: int| 0 <= x < total && x % (rows as int) < r ==> #[trigger] w0@[x]
                    == self.row_rep(g, x % (rows as int))[x / (rows as int)],
            decreases rows - r,
        {
            proof {
                vstd::arithmetic::mul::lemma_mul_inequality(r as int + 1, rows as int, k as int);
                vstd::arithmetic::mul::lemma_mul_is_distributive_add_other_way(k as int, r as int, 1);
                vstd::arithmetic::mul::lemma_mul_is_commutative(rows as int, k as int);
                assert(msgs@.len() <= usize::MAX);
            }
            let seg = crate::copy_range(msgs, r * k, r * k + k);
            let base_enc = self.base_code.encode(seg.as_slice());
            proof {
                self.lemma_base_len(seg@);
                assert(seg@ == segment(g, k as nat, r as int));
            }
            let mut i: usize = 0;
            while i < n
                invariant
                    self.params_ok(),
                    rows > 0,
                    r < rows,
                    total == n * rows,
                    n == self.spec_n(),
                    k == self.spec_k(),
                    base_n == base_enc@.len(),
                    n > 0 ==> base_n > 0,
                    base_enc@ == self.spec_base_code().spec_encode(segment(g, k as nat, r as int)),
                    i <= n,
                    w0@.len() == total,
                    forall|x: int|
                        0 <= x < total && (x % (rows as int) < r || (x % (rows as int) == r && x / (rows as int)
                            < i)) ==> #[trigger] w0@[x] == self.row_rep(g, x % (rows as int))[x / (rows as int)],
                decreases n - i,
            {
                proof {
                    crate::vectors::lemma_grid_index(i as int, r as int, rows as int, n as int);
                }
                let x = i * rows + r;
                w0.set(x, base_enc[i % base_n]);
                proof {
                    assert forall|y: int|
                        0 <= y < total && (y % (rows as int) < r || (y % (rows as int) == r && y / (rows as int)
                            < i + 1)) implies #[trigger] w0@[y] == self.row_rep(g, y % (rows as int))[y
                        / (rows as int)] by {
                        crate::vectors::lemma_grid_coords(y, rows as int, n as int);
                        if y != x as int {
                            if y % (rows as int) == r && y / (rows as int) == i {
                                assert(y == x);
                            }
                        }
                    }
                }
                i += 1;
            }
            proof {
                assert forall|x: int| 0 <= x < total && x % (rows as int) < r + 1 implies #[trigger] w0@[x]
                    == self.row_rep(g, x % (rows as int))[x / (rows as int)] by {
                    crate::vectors::lemma_grid_coords(x, rows as int, n as int);
                }
            }
            r += 1;
        }

        // 2-3. Permute columns by p1, then multiply by m1.
        let mut i: usize = 0;
        while i < n
            invariant
                self.params_ok(),
                rows > 0,
                total == n * rows,
                n == self.spec_n(),
                g == msgs@,
                i <= n,
                w0@.len() == total,
                buf@.len() == total,
                forall|x: int| 0 <= x < total ==> #[trigger] w0@[x] == self.row_rep(g, x % (rows as int))[x
                    / (rows as int)],
                forall|x: int| 0 <= x < i * rows ==> #[trigger] buf@[x] == hadamard(
                    gather(self.row_rep(g, x % (rows as int)), self.spec_p1()),
                    self.spec_m1(),
                )[x / (rows as int)],
            decreases n - i,
        {
            let src = self.p1_vector[i];
            let m1_i = self.m1_vector[i];
            let mut r: usize = 0;
            while r < rows
                invariant
                    self.params_ok(),
                    rows > 0,
                    total == n * rows,
                    n == self.spec_n(),
                    i < n,
                    src == self.spec_p1()[i as int],
                    m1_i == self.spec_m1()[i as int],
                    r <= rows,
                    w0@.len() == total,
                    buf@.len() == total,
                    forall|x: int| 0 <= x < total ==> #[trigger] w0@[x] == self.row_rep(g, x % (rows as int))[x
                        / (rows as int)],
                    forall|x: int| 0 <= x < i * rows + r ==> #[trigger] buf@[x] == hadamard(
                        gather(self.row_rep(g, x % (rows as int)), self.spec_p1()),
                        self.spec_m1(),
                    )[x / (rows as int)],
                decreases rows - r,
            {
                proof {
                    crate::vectors::lemma_grid_index(i as int, r as int, rows as int, n as int);
                    crate::vectors::lemma_grid_index(src as int, r as int, rows as int, n as int);
                }
                let v = w0[src * rows + r];
                buf.set(i * rows + r, v.mul(m1_i));
                proof {
                    assert forall|y: int| 0 <= y < i * rows + r + 1 implies #[trigger] buf@[y] == hadamard(
                        gather(self.row_rep(g, y % (rows as int)), self.spec_p1()),
                        self.spec_m1(),
                    )[y / (rows as int)] by {
                        crate::vectors::lemma_grid_coords(y, rows as int, n as int);
                    }
                }
                r += 1;
            }
            proof {
                vstd::arithmetic::mul::lemma_mul_is_distributive_add_other_way(rows as int, i as int, 1);
            }
            i += 1;
        }

        // 4. Prefix sums, one accumulator per row.
        let mut accs = zeros(rows);
        let mut i: usize = 0;
        while i < n
            invariant
                self.params_ok(),
                rows > 0,
                total == n * rows,
                n == self.spec_n(),
                g == msgs@,
                i <= n,
                buf@.len() == total,
                tmp@.len() == total,
                accs@.len() == rows,
                forall|x: int| 0 <= x < total ==> #[trigger] buf@[x] == hadamard(
                    gather(self.row_rep(g, x % (rows as int)), self.spec_p1()),
                    self.spec_m1(),
                )[x / (rows as int)],
                forall|q: int| 0 <= q < rows ==> #[trigger] accs@[q] == sum(
                    hadamard(gather(self.row_rep(g, q), self.spec_p1()), self.spec_m1()).take(i as int),
                ),
                forall|x: int| 0 <= x < i * rows ==> #[trigger] tmp@[x] == self.row_w1(g, x % (rows as int))[x
                    / (rows as int)],
            decreases n - i,
        {
            let mut r: usize = 0;
            while r < rows
                invariant
                    self.params_ok(),
                    rows > 0,
                    total == n * rows,
                    n == self.spec_n(),
                    i < n,
                    r <= rows,
                    buf@.len() == total,
                    tmp@.len() == total,
                    accs@.len() == rows,
                    forall|x: int| 0 <= x < total ==> #[trigger] buf@[x] == hadamard(
                        gather(self.row_rep(g, x % (rows as int)), self.spec_p1()),
                        self.spec_m1(),
                    )[x / (rows as int)],
                    forall|q: int| 0 <= q < rows ==> #[trigger] accs@[q] == sum(
                        hadamard(gather(self.row_rep(g, q), self.spec_p1()), self.spec_m1()).take(
                            if q < r { i + 1 } else { i as int },
                        ),
                    ),
                    forall|x: int| 0 <= x < i * rows + r ==> #[trigger] tmp@[x] == self.row_w1(g, x % (rows as int))[x
                        / (rows as int)],
                decreases rows - r,
            {
                proof {
                    crate::vectors::lemma_grid_index(i as int, r as int, rows as int, n as int);
                    let h = hadamard(gather(self.row_rep(g, r as int), self.spec_p1()), self.spec_m1());
                    crate::vectors::lemma_sum_take_step(h, i as int);
                }
                let x = i * rows + r;
                let a = accs[r].add(buf[x]);
                accs.set(r, a);
                tmp.set(x, a);
                proof {
                    assert forall|y: int| 0 <= y < i * rows + r + 1 implies #[trigger] tmp@[y] == self.row_w1(
                        g,
                        y % (rows as int),
                    )[y / (rows as int)] by {
                        crate::vectors::lemma_grid_coords(y, rows as int, n as int);
                    }
                }
                r += 1;
            }
            proof {
                vstd::arithmetic::mul::lemma_mul_is_distributive_add_other_way(rows as int, i as int, 1);
            }
            i += 1;
        }

        // 5-6. Permute columns by p2, then multiply by m2.
        let mut i: usize = 0;
        while i < n
            invariant
                self.params_ok(),
                rows > 0,
                total == n * rows,
                n == self.spec_n(),
                g == msgs@,
                i <= n,
                tmp@.len() == total,
                buf@.len() == total,
                forall|x: int| 0 <= x < total ==> #[trigger] tmp@[x] == self.row_w1(g, x % (rows as int))[x
                    / (rows as int)],
                forall|x: int| 0 <= x < i * rows ==> #[trigger] buf@[x] == hadamard(
                    gather(self.row_w1(g, x % (rows as int)), self.spec_p2()),
                    self.spec_m2(),
                )[x / (rows as int)],
            decreases n - i,
        {
            let src = self.p2_vector[i];
            let m2_i = self.m2_vector[i];
            let mut r: usize = 0;
            while r < rows
                invariant
                    self.params_ok(),
                    rows > 0,
                    total == n * rows,
                    n == self.spec_n(),
                    i < n,
                    src == self.spec_p2()[i as int],
                    m2_i == self.spec_m2()[i as int],
                    r <= rows,
                    tmp@.len() == total,
                    buf@.len() == total,
                    forall|x: int| 0 <= x < total ==> #[trigger] tmp@[x] == self.row_w1(g, x % (rows as int))[x
                        / (rows as int)],
                    forall|x: int| 0 <= x < i * rows + r ==> #[trigger] buf@[x] == hadamard(
                        gather(self.row_w1(g, x % (rows as int)), self.spec_p2()),
                        self.spec_m2(),
                    )[x / (rows as int)],
                decreases rows - r,
            {
                proof {
                    crate::vectors::lemma_grid_index(i as int, r as int, rows as int, n as int);
                    crate::vectors::lemma_grid_index(src as int, r as int, rows as int, n as int);
                }
                let v = tmp[src * rows + r];
                buf.set(i * rows + r, v.mul(m2_i));
                proof {
                    assert forall|y: int| 0 <= y < i * rows + r + 1 implies #[trigger] buf@[y] == hadamard(
                        gather(self.row_w1(g, y % (rows as int)), self.spec_p2()),
                        self.spec_m2(),
                    )[y / (rows as int)] by {
                        crate::vectors::lemma_grid_coords(y, rows as int, n as int);
                    }
                }
                r += 1;
            }
            proof {
                vstd::arithmetic::mul::lemma_mul_is_distributive_add_other_way(rows as int, i as int, 1);
            }
            i += 1;
        }

        // 7. Prefix sums again.
        let mut accs = zeros(rows);
        let mut i: usize = 0;
        while i < n
            invariant
                self.params_ok(),
                rows > 0,
                total == n * rows,
                n == self.spec_n(),
                g == msgs@,
                i <= n,
                buf@.len() == total,
                tmp@.len() == total,
                accs@.len() == rows,
                forall|x: int| 0 <= x < total ==> #[trigger] buf@[x] == hadamard(
                    gather(self.row_w1(g, x % (rows as int)), self.spec_p2()),
                    self.spec_m2(),
                )[x / (rows as int)],
                forall|q: int| 0 <= q < rows ==> #[trigger] accs@[q] == sum(
                    hadamard(gather(self.row_w1(g, q), self.spec_p2()), self.spec_m2()).take(i as int),
                ),
                forall|x: int| 0 <= x < i * rows ==> #[trigger] tmp@[x] == self.row_w2(g, x % (rows as int))[x
                    / (rows as int)],
            decreases n - i,
        {
            let mut r: usize = 0;
            while r < rows
                invariant
                    self.params_ok(),
                    rows > 0,
                    total == n * rows,
                    n == self.spec_n(),
                    i < n,
                    r <= rows,
                    buf@.len() == total,
                    tmp@.len() == total,
                    accs@.len() == rows,
                    forall|x: int| 0 <= x < total ==> #[trigger] buf@[x] == hadamard(
                        gather(self.row_w1(g, x % (rows as int)), self.spec_p2()),
                        self.spec_m2(),
                    )[x / (rows as int)],
                    forall|q: int| 0 <= q < rows ==> #[trigger] accs@[q] == sum(
                        hadamard(gather(self.row_w1(g, q), self.spec_p2()), self.spec_m2()).take(
                            if q < r { i + 1 } else { i as int },
                        ),
                    ),
                    forall|x: int| 0 <= x < i * rows + r ==> #[trigger] tmp@[x] == self.row_w2(g, x % (rows as int))[x
                        / (rows as int)],
                decreases rows - r,
            {
                proof {
                    crate::vectors::lemma_grid_index(i as int, r as int, rows as int, n as int);
                    let h = hadamard(gather(self.row_w1(g, r as int), self.spec_p2()), self.spec_m2());
                    crate::vectors::lemma_sum_take_step(h, i as int);
                }
                let x = i * rows + r;
                let a = accs[r].add(buf[x]);
                accs.set(r, a);
                tmp.set(x, a);
                proof {
                    assert forall|y: int| 0 <= y < i * rows + r + 1 implies #[trigger] tmp@[y] == self.row_w2(
                        g,
                        y % (rows as int),
                    )[y / (rows as int)] by {
                        crate::vectors::lemma_grid_coords(y, rows as int, n as int);
                    }
                }
                r += 1;
            }
            proof {
                vstd::arithmetic::mul::lemma_mul_is_distributive_add_other_way(rows as int, i as int, 1);
            }
            i += 1;
        }

        // 8. Transpose to row-major output.
        let mut out = zeros(total);
        let mut i: usize = 0;
        while i < n
            invariant
                self.params_ok(),
                rows > 0,
                total == n * rows,
                n == self.spec_n(),
                g == msgs@,
                i <= n,
                tmp@.len() == total,
                out@.len() == total,
                forall|x: int| 0 <= x < total ==> #[trigger] tmp@[x] == self.row_w2(g, x % (rows as int))[x
                    / (rows as int)],
                forall|y: int| 0 <= y < total && y % (n as int) < i ==> #[trigger] out@[y] == self.row_w2(
                    g,
                    y / (n as int),
                )[y % (n as int)],
            decreases n - i,
        {
            let mut r: usize = 0;
            while r < rows
                invariant
                    self.params_ok(),
                    rows > 0,
                    total == n * rows,
                    n == self.spec_n(),
                    i < n,
                    r <= rows,
                    tmp@.len() == total,
                    out@.len() == total,
                    forall|x: int| 0 <= x < total ==> #[trigger] tmp@[x] == self.row_w2(g, x % (rows as int))[x
                        / (rows as int)],
                    forall|y: int|
                        0 <= y < total && (y % (n as int) < i || (y % (n as int) == i && y / (n as int) < r))
                            ==> #[trigger] out@[y] == self.row_w2(g, y / (n as int))[y % (n as int)],
                decreases rows - r,
            {
                proof {
                    crate::vectors::lemma_grid_index(i as int, r as int, rows as int, n as int);
                    crate::vectors::lemma_grid_index(r as int, i as int, n as int, rows as int);
                    assert(rows * n == n * rows) by (nonlinear_arith);
                }
                let y = r * n + i;
                out.set(y, tmp[i * rows + r]);
                proof {
                    assert forall|z: int|
                        0 <= z < total && (z % (n as int) < i || (z % (n as int) == i && z / (n as int) < r + 1))
                            implies #[trigger] out@[z] == self.row_w2(g, z / (n as int))[z % (n as int)] by {
                        crate::vectors::lemma_grid_coords(z, n as int, rows as int);
                        assert(rows * n == n * rows) by (nonlinear_arith);
                        if z % (n as int) == i && z / (n as int) == r {
                            assert(z == y);
                        }
                    }
                }
                r += 1;
            }
            proof {
                assert forall|y: int| 0 <= y < total && y % (n as int) < i + 1 implies #[trigger] out@[y]
                    == self.row_w2(g, y / (n as int))[y % (n as int)] by {
                    assert(rows * n == n * rows) by (nonlinear_arith);
                    crate::vectors::lemma_grid_coords(y, n as int, rows as int);
                }
            }
            i += 1;
        }
        proof {
            let count = vstd::arithmetic::power2::pow2(eta as nat);
            assert(msgs@.len() == count * self.spec_k()) by (nonlinear_arith)
                requires
                    msgs@.len() == rows * k,
                    count == rows,
                    k == self.spec_k(),
            ;
            crate::lemma_interleaved_index(*self, g, count);
            assert(count * n == total) by (nonlinear_arith)
                requires
                    count == rows,
                    total == n * rows,
            ;
            assert forall|y: int| 0 <= y < total implies #[trigger] out@[y] == interleaved_encoding(
                *self,
                g,
                count,
            )[y] by {
                if n > 0 {
                    crate::vectors::lemma_grid_coords(y, n as int, rows as int);
                    assert(rows * n == n * rows) by (nonlinear_arith);
                }
            }
            assert(out@ =~= interleaved_encoding(*self, g, count));
        }
        out
    }
}

/// One round keeps an all-zero vector all zero.
pub(crate) proof fn lemma_era_round_zero(w: Seq<KoalaBear>, perm: Seq<usize>, mult: Seq<KoalaBear>)
    requires
        all_zero(w),
        perm.len() <= mult.len(),
        forall|i: int| 0 <= i < perm.len() ==> (#[trigger] perm[i]) < w.len(),
    ensures
        all_zero(era_round(w, perm, mult)),
{
    let h = hadamard(gather(w, perm), mult);
    assert forall|i: int| 0 <= i < h.len() implies #[trigger] h[i] == fe(0) by {
        let j = perm[i] as int;
        assert(w[j] == fe(0));
        assert(gather(w, perm)[i] == w[j]);
        crate::ring::lemma_mul_l(0, mult[i]);
        assert(0 * mult[i].v() == 0);
    }
    assert forall|i: int| 0 <= i < h.len() implies #[trigger] prefix_sums(h)[i] == fe(0) by {
        crate::vectors::lemma_sum_all_zero(h.take(i + 1));
    }
}

/// The zero message has the zero codeword whenever the base code maps it to zero.
pub proof fn lemma_era_zero_message<C: ErrorCorrectingCode>(code: EraCode<C>, msg: Seq<KoalaBear>)
    requires
        code.params_ok(),
        msg.len() == code.spec_k(),
        all_zero(code.spec_base_code().spec_encode(msg)),
    ensures
        all_zero(code.era_encode(msg)),
{
    code.lemma_base_len(msg);
    let base = code.spec_base_code().spec_encode(msg);
    let n = code.spec_n();
    let rep = repeat_to(base, n);
    assert(all_zero(rep)) by {
        assert forall|i: int| 0 <= i < rep.len() implies #[trigger] rep[i] == fe(0) by {
            vstd::arithmetic::div_mod::lemma_mod_bound(i, base.len() as int);
        }
    }
    lemma_era_round_zero(rep, code.spec_p1(), code.spec_m1());
    let w1 = era_round(rep, code.spec_p1(), code.spec_m1());
    lemma_era_round_zero(w1, code.spec_p2(), code.spec_m2());
}

impl<C: ErrorCorrectingCode> ErrorCorrectingCode for EraCode<C> {
    open spec fn inv(&self) -> bool {
        self.params_ok()
    }

    open spec fn spec_message_size(&self) -> nat {
        self.spec_k()
    }

    open spec fn spec_block_length(&self) -> nat {
        self.spec_n()
    }

    open spec fn spec_encode(&self, msg: Seq<KoalaBear>) -> Seq<KoalaBear> {
        self.era_encode(msg)
    }

    proof fn lemma_encode_len(&self, msg: Seq<KoalaBear>) {
    }

    fn message_size(&self) -> (r: usize) {
        self.message_size
    }

    fn block_length(&self) -> (r: usize) {
        self.block_length
    }

    fn encode(&self, msg: &[KoalaBear]) -> (r: Vec<KoalaBear>) {
        self.encode_era(msg)
    }
}

} // verus!
