//! The ERA code with the repetition folded into the first permutation, the
//! permutations stored as `u32`, and an interleaving of `2^eta` segments.
use vstd::prelude::*;

use crate::codes::era::{all_zero, era_from_base, lemma_era_round_zero, repeat_to, zeros};
use crate::field::fe;
use crate::field::KoalaBear;
use crate::vectors::{
    check_permutation, gather, hadamard, is_permutation, prefix_sums, sum, weighted_prefix_sum_chunked,
};
use crate::{segment, ErrorCorrectingCode};

verus! {

/// The entries of `v` read as indices.
pub open spec fn as_indices(v: Seq<u32>) -> Seq<usize> {
    Seq::new(v.len(), |i: int| v[i] as usize)
}

/// A `(key, value)` pair packed into one word: the key in the high half and
/// the value's representative in the low half, so that words order by key
/// first (and by value among equal keys).
pub open spec fn packed_entry(key: int, value: KoalaBear) -> u64 {
    (key * 4294967296 + value.v()) as u64
}

/// The pairs `(keys[i], input[i / rep])`, packed.
pub open spec fn keyed_entries(keys: Seq<usize>, input: Seq<KoalaBear>, rep: nat) -> Seq<u64> {
    Seq::new(keys.len(), |i: int| packed_entry(keys[i] as int, input[i / (rep as int)]))
}

/// The increasing order on words.
pub open spec fn word_leq() -> spec_fn(u64, u64) -> bool {
    |a: u64, b: u64| a <= b
}

/// The values held in the low halves of `s`.
pub open spec fn low_values(s: Seq<u64>) -> Seq<KoalaBear> {
    Seq::new(s.len(), |i: int| KoalaBear { val: (s[i] % 4294967296) as u32 })
}

/// The values of the pairs `(keys[i], input[i / rep])` once the pairs are
/// sorted by key (pairs with equal keys by value).
pub open spec fn sort_permuted(keys: Seq<usize>, input: Seq<KoalaBear>, rep: nat) -> Seq<KoalaBear> {
    low_values(keyed_entries(keys, input, rep).sort_by(word_leq()))
}

/// The increasing order on words is a total order.
pub proof fn lemma_word_leq_total()
    ensures
        vstd::relations::total_ordering(word_leq()),
{
    let r = word_leq();
    assert(vstd::relations::reflexive(r));
    assert(vstd::relations::antisymmetric(r));
    assert(vstd::relations::transitive(r));
    assert(vstd::relations::strongly_connected(r));
}

/// Sorting keeps the number of pairs.
pub proof fn lemma_sort_permuted_len(keys: Seq<usize>, input: Seq<KoalaBear>, rep: nat)
    ensures
        sort_permuted(keys, input, rep).len() == keys.len(),
{
    let e = keyed_entries(keys, input, rep);
    lemma_word_leq_total();
    e.lemma_sort_by_ensures(word_leq());
    vstd::seq_lib::to_multiset_len(e);
    vstd::seq_lib::to_multiset_len(e.sort_by(word_leq()));
}

/// Calls rayon's `ParallelSliceMut::par_sort_unstable` on `v`: the words end
/// up in increasing order, which is the one increasing arrangement of them.
#[verifier::external_body]
fn par_sort_words(v: &mut Vec<u64>)
    ensures
        final(v)@ == old(v)@.sort_by(word_leq()),
{
    rayon::slice::ParallelSliceMut::par_sort_unstable(v.as_mut_slice())
}

/// Calls `voracious_radix_sort::RadixSort::voracious_mt_sort` on `v` with
/// `thread_n` threads: the words end up in increasing order, which is the one
/// increasing arrangement of them.
#[verifier::external_body]
fn radix_sort_words(v: &mut Vec<u64>, thread_n: usize)
    ensures
        final(v)@ == old(v)@.sort_by(word_leq()),
{
    voracious_radix_sort::RadixSort::voracious_mt_sort(v, thread_n)
}

/// Calls `rayon::current_num_threads`.  Nothing is stated of the count, which
/// depends on the thread pool the caller runs in.
#[verifier::external_body]
pub(crate) fn current_num_threads() -> usize {
    rayon::current_num_threads()
}

/// Scratch space for [`OptimizedEraCode::encode_radix_sort_perm_with_buffer`]:
/// the packed pairs and the two accumulations.
#[derive(Debug)]
pub struct RadixSortBuffers {
    entries: Vec<u64>,
    first_accumulate: Vec<KoalaBear>,
    second_accumulate: Vec<KoalaBear>,
}

impl RadixSortBuffers {
    /// Whether all three buffers are empty.
    pub closed spec fn is_empty(&self) -> bool {
        &&& self.entries@.len() == 0
        &&& self.first_accumulate@.len() == 0
        &&& self.second_accumulate@.len() == 0
    }

    /// Empty buffers with room for `capacity` entries each.
    pub fn with_capacity(capacity: usize) -> (r: RadixSortBuffers)
        ensures
            r.is_empty(),
    {
        RadixSortBuffers {
            entries: Vec::with_capacity(capacity),
            first_accumulate: Vec::with_capacity(capacity),
            second_accumulate: Vec::with_capacity(capacity),
        }
    }
}

/// The words `keys[i] * 2^32 + input[i / rep]` pushed onto the emptied `entries`.
fn fill_keyed_entries(entries: &mut Vec<u64>, input: &[KoalaBear], keys: &[u32], rep: usize)
    requires
        keys@.len() > 0 ==> rep > 0,
        keys@.len() <= rep * input@.len(),
    ensures
        final(entries)@ == keyed_entries(as_indices(keys@), input@, rep as nat),
{
    entries.clear();
    let n = keys.len();
    let mut i: usize = 0;
    while i < n
        invariant
            n == keys@.len(),
            n > 0 ==> rep > 0,
            n <= rep * input@.len(),
            i <= n,
            entries@ == keyed_entries(as_indices(keys@), input@, rep as nat).take(i as int),
        decreases n - i,
    {
        proof {
            vstd::arithmetic::div_mod::lemma_div_is_ordered(i as int, (rep * input@.len() - 1) as int, rep as int);
            vstd::arithmetic::div_mod::lemma_div_multiples_vanish_fancy(
                input@.len() as int - 1,
                (rep - 1) as int,
                rep as int,
            );
            assert(i / rep < input@.len()) by (nonlinear_arith)
                requires
                    i < rep * input@.len(),
                    rep > 0,
            ;
        }
        let key = keys[i] as u64;
        let value = input[i / rep].val as u64;
        entries.push(key * 4294967296 + value);
        i += 1;
        assert(entries@ =~= keyed_entries(as_indices(keys@), input@, rep as nat).take(i as int));
    }
    assert(entries@ =~= keyed_entries(as_indices(keys@), input@, rep as nat));
}

/// `out` set to the low halves of `words`.
fn unpack_values(words: &[u64], out: &mut Vec<KoalaBear>)
    ensures
        final(out)@ == low_values(words@),
{
    out.clear();
    let mut i: usize = 0;
    while i < words.len()
        invariant
            i <= words@.len(),
            out@ == low_values(words@).take(i as int),
        decreases words@.len() - i,
    {
        out.push(KoalaBear { val: (words[i] % 4294967296) as u32 });
        i += 1;
        assert(out@ =~= low_values(words@).take(i as int));
    }
    assert(out@ =~= low_values(words@));
}

#[derive(Debug)]
pub struct OptimizedEraCode<C> {
    message_size: usize,
    block_length: usize,
    block_length_segment: usize,
    base_block_length: usize,
    repetition_parameter: usize,
    interleaving_parameter: usize,
    segment_count: usize,
    base_code: C,
    p1_vector: Vec<u32>,
    p2_vector: Vec<u32>,
    m1_vector: Vec<KoalaBear>,
    m2_vector: Vec<KoalaBear>,
    first_accumulate: Vec<KoalaBear>,
    second_accumulate: Vec<KoalaBear>,
}

/// Scratch space for [`OptimizedEraCode::encode_naive_with_buffer`]: the base
/// codewords and the two accumulations, each kept column by column (all
/// segments of one position next to each other).
#[derive(Debug)]
pub struct EncodeNaiveBuffers {
    base_columns: Vec<KoalaBear>,
    first_accumulate: Vec<KoalaBear>,
    second_accumulate: Vec<KoalaBear>,
}

impl EncodeNaiveBuffers {
    /// Whether all three buffers are empty.
    pub closed spec fn is_empty(&self) -> bool {
        &&& self.base_columns@.len() == 0
        &&& self.first_accumulate@.len() == 0
        &&& self.second_accumulate@.len() == 0
    }

    /// Empty buffers; they are sized on first use.
    pub fn new() -> (r: EncodeNaiveBuffers)
        ensures
            r.is_empty(),
    {
        EncodeNaiveBuffers { base_columns: Vec::new(), first_accumulate: Vec::new(), second_accumulate: Vec::new() }
    }
}

impl<C: ErrorCorrectingCode> OptimizedEraCode<C> {
    pub closed spec fn spec_base_code(&self) -> C {
        self.base_code
    }

    /// The base code.
    pub fn base_code(&self) -> (r: &C)
        ensures
            *r == self.spec_base_code(),
    {
        &self.base_code
    }

    pub closed spec fn spec_segment_count(&self) -> nat {
        self.segment_count as nat
    }

    pub closed spec fn spec_interleaving(&self) -> nat {
        self.interleaving_parameter as nat
    }

    pub closed spec fn spec_repetition(&self) -> nat {
        self.repetition_parameter as nat
    }

    /// Block length of one segment: `repetition * base block length`.
    pub closed spec fn spec_segment_block_length(&self) -> nat {
        self.block_length_segment as nat
    }

    pub closed spec fn spec_k(&self) -> nat {
        self.message_size as nat
    }

    pub closed spec fn spec_n(&self) -> nat {
        self.block_length as nat
    }

    /// First permutation, already reduced modulo the base block length.
    pub closed spec fn spec_p1(&self) -> Seq<usize> {
        as_indices(self.p1_vector@)
    }

    pub closed spec fn spec_p2(&self) -> Seq<usize> {
        as_indices(self.p2_vector@)
    }

    pub closed spec fn spec_m1(&self) -> Seq<KoalaBear> {
        self.m1_vector@
    }

    pub closed spec fn spec_m2(&self) -> Seq<KoalaBear> {
        self.m2_vector@
    }

    pub closed spec fn spec_base_block_length(&self) -> nat {
        self.base_block_length as nat
    }

    pub closed spec fn spec_scratch_len(&self) -> nat {
        self.first_accumulate@.len()
    }

    /// The stored parameters are consistent.
    pub open spec fn params_ok(&self) -> bool {
        &&& self.spec_base_code().inv()
        &&& self.spec_segment_count() == vstd::arithmetic::power2::pow2(self.spec_interleaving())
        &&& self.spec_k() == self.spec_base_code().spec_message_size() * self.spec_segment_count()
        &&& self.spec_base_block_length() == self.spec_base_code().spec_block_length()
        &&& self.spec_segment_block_length() == self.spec_repetition()
            * self.spec_base_code().spec_block_length()
        &&& self.spec_n() == self.spec_segment_block_length() * self.spec_segment_count()
        &&& self.spec_n() <= u32::MAX
        &&& self.spec_base_block_length() * self.spec_segment_count() <= usize::MAX
        &&& self.spec_p1().len() == self.spec_segment_block_length()
        &&& forall|i: int| 0 <= i < self.spec_p1().len() ==> #[trigger] self.spec_p1()[i]
            < self.spec_base_code().spec_block_length()
        &&& is_permutation(self.spec_p2(), self.spec_segment_block_length())
        &&& self.spec_m1().len() == self.spec_segment_block_length()
        &&& self.spec_m2().len() == self.spec_segment_block_length()
        &&& self.spec_scratch_len() == self.spec_n()
        &&& self.spec_second_scratch_len() == self.spec_n()
    }

    /// The base codeword of segment `s` of `msg`.
    pub open spec fn seg_base(&self, msg: Seq<KoalaBear>, s: int) -> Seq<KoalaBear> {
        self.spec_base_code().spec_encode(segment(msg, self.spec_base_code().spec_message_size(), s))
    }

    /// Segment `s` of `msg` after the first round.
    pub open spec fn seg_w1(&self, msg: Seq<KoalaBear>, s: int) -> Seq<KoalaBear> {
        prefix_sums(hadamard(gather(self.seg_base(msg, s), self.spec_p1()), self.spec_m1()))
    }

    /// Segment `s` of `msg` after the second round: its codeword.
    pub open spec fn seg_w2(&self, msg: Seq<KoalaBear>, s: int) -> Seq<KoalaBear> {
        prefix_sums(hadamard(gather(self.seg_w1(msg, s), self.spec_p2()), self.spec_m2()))
    }

    /// The codeword: position `i` of every segment, segment by segment, for each `i` in turn.
    pub open spec fn opt_encode(&self, msg: Seq<KoalaBear>) -> Seq<KoalaBear> {
        Seq::new(
            self.spec_n(),
            |x: int|
                self.seg_w2(msg, x % (self.spec_segment_count() as int))[x / (
                self.spec_segment_count() as int)],
        )
    }

    /// Builds the code; `p1` is reduced modulo the base block length and both
    /// permutations are stored as `u32`.
    pub fn new(
        base_code: C,
        repetition_parameter: usize,
        interleaving_parameter: usize,
        p1_vector: Vec<usize>,
        p2_vector: Vec<usize>,
        m1_vector: Vec<KoalaBear>,
        m2_vector: Vec<KoalaBear>,
    ) -> (r: OptimizedEraCode<C>)
        requires
            base_code.inv(),
            interleaving_parameter < usize::BITS,
            repetition_parameter * base_code.spec_block_length() * vstd::arithmetic::power2::pow2(
                interleaving_parameter as nat,
            ) <= u32::MAX,
            base_code.spec_message_size() * vstd::arithmetic::power2::pow2(interleaving_parameter as nat)
                <= usize::MAX,
            base_code.spec_block_length() * vstd::arithmetic::power2::pow2(interleaving_parameter as nat)
                <= usize::MAX,
            is_permutation(p1_vector@, (repetition_parameter * base_code.spec_block_length()) as nat),
            is_permutation(p2_vector@, (repetition_parameter * base_code.spec_block_length()) as nat),
            m1_vector@.len() == repetition_parameter * base_code.spec_block_length(),
            m2_vector@.len() == repetition_parameter * base_code.spec_block_length(),
        ensures
            r.params_ok(),
            r.spec_base_code() == base_code,
            r.spec_repetition() == repetition_parameter,
            r.spec_interleaving() == interleaving_parameter,
            forall|i: int| 0 <= i < p1_vector@.len() ==> #[trigger] r.spec_p1()[i] == (p1_vector@[i] as int
                % base_code.spec_block_length() as int) as usize,
            r.spec_p2() == p2_vector@,
            r.spec_m1() == m1_vector@,
            r.spec_m2() == m2_vector@,
    {
        proof {
            vstd::bits::lemma_usize_pow2_no_overflow(interleaving_parameter as nat);
            vstd::bits::lemma_usize_shl_is_mul(1, interleaving_parameter);
            vstd::arithmetic::power2::lemma_pow2_pos(interleaving_parameter as nat);
        }
        let segment_count: usize = 1usize << interleaving_parameter;
        let message_size = base_code.message_size() * segment_count;
        let base_block_length = base_code.block_length();
        proof {
            vstd::arithmetic::mul::lemma_mul_inequality(
                1,
                segment_count as int,
                (repetition_parameter * base_block_length) as int,
            );
            vstd::arithmetic::mul::lemma_mul_is_commutative(
                segment_count as int,
                (repetition_parameter * base_block_length) as int,
            );
        }
        let block_length_segment = repetition_parameter * base_block_length;
        let block_length = block_length_segment * segment_count;
        let mut p1: Vec<u32> = Vec::with_capacity(p1_vector.len());
        let mut i: usize = 0;
        while i < p1_vector.len()
            invariant
                i <= p1_vector@.len(),
                p1_vector@.len() == block_length_segment,
                block_length_segment <= u32::MAX,
                block_length_segment == repetition_parameter * base_block_length,
                p1@.len() == i,
                forall|j: int| 0 <= j < i ==> #[trigger] p1@[j] as int == (p1_vector@[j] as int) % (base_block_length as int)
                    && p1@[j] < base_block_length,
                is_permutation(p1_vector@, block_length_segment as nat),
            decreases p1_vector@.len() - i,
        {
            proof {
                assert(0 < base_block_length <= block_length_segment) by (nonlinear_arith)
                    requires
                        block_length_segment == repetition_parameter * base_block_length,
                        block_length_segment > 0,
                ;
            }
            let x = p1_vector[i] % base_block_length;
            assert(x < base_block_length);
            p1.push(x as u32);
            i += 1;
        }
        let mut p2: Vec<u32> = Vec::with_capacity(p2_vector.len());
        let mut i: usize = 0;
        while i < p2_vector.len()
            invariant
                i <= p2_vector@.len(),
                p2_vector@.len() == block_length_segment,
                block_length_segment <= u32::MAX,
                p2@.len() == i,
                forall|j: int| 0 <= j < i ==> #[trigger] p2@[j] as int == p2_vector@[j],
                is_permutation(p2_vector@, block_length_segment as nat),
            decreases p2_vector@.len() - i,
        {
            p2.push(p2_vector[i] as u32);
            i += 1;
        }
        proof {
            assert(as_indices(p2@) =~= p2_vector@);
        }
        OptimizedEraCode {
            message_size,
            block_length,
            block_length_segment,
            base_block_length,
            repetition_parameter,
            interleaving_parameter,
            segment_count,
            base_code,
            p1_vector: p1,
            p2_vector: p2,
            m1_vector,
            m2_vector,
            first_accumulate: zeros(block_length),
            second_accumulate: zeros(block_length),
        }
    }

    proof fn lemma_base_len(&self, msg: Seq<KoalaBear>, s: int)
        requires
            self.params_ok(),
            0 <= s < self.spec_segment_count(),
            msg.len() == self.spec_k(),
        ensures
            segment(msg, self.spec_base_code().spec_message_size(), s).len()
                == self.spec_base_code().spec_message_size(),
            self.spec_base_code().spec_encode(segment(msg, self.spec_base_code().spec_message_size(), s)).len()
                == self.spec_base_code().spec_block_length(),
    {
        let k = self.spec_base_code().spec_message_size();
        assert((s + 1) * k <= msg.len()) by (nonlinear_arith)
            requires
                0 <= s < self.spec_segment_count(),
                msg.len() == k * self.spec_segment_count(),
        ;
        assert(0 <= s * k) by (nonlinear_arith)
            requires
                0 <= s,
        ;
        assert((s + 1) * k - s * k == k) by (nonlinear_arith);
        self.spec_base_code().lemma_encode_len(segment(msg, k, s));
    }

    /// Encode segment by segment, keeping every position's values for all
    /// segments next to each other.  Allocates fresh scratch buffers.
    pub fn encode_naive(&self, msg: &[KoalaBear]) -> (r: Vec<KoalaBear>)
        requires
            self.params_ok(),
            msg@.len() == self.spec_k(),
        ensures
            r@ == self.opt_encode(msg@),
    {
        let mut buffers = EncodeNaiveBuffers::new();
        self.encode_naive_with_buffer(msg, &mut buffers)
    }

    /// [`Self::encode_naive`] with caller-provided scratch buffers, which are
    /// resized as needed.
    pub fn encode_naive_with_buffer(&self, msg: &[KoalaBear], buffers: &mut EncodeNaiveBuffers) -> (r: Vec<
        KoalaBear,
    >)
        requires
            self.params_ok(),
            msg@.len() == self.spec_k(),
        ensures
            r@ == self.opt_encode(msg@),
    {
        let segs = self.segment_count;
        let seg_len = self.base_code.message_size();
        let bl = self.base_block_length;
        let bls = self.block_length_segment;
        let ghost g = msg@;
        buffers.base_columns = zeros(bl * segs);
        buffers.first_accumulate = zeros(bls * segs);
        buffers.second_accumulate = zeros(bls * segs);
        proof {
            vstd::arithmetic::power2::lemma_pow2_pos(self.spec_interleaving());
        }

        // Encode each segment using the base code.
        let mut s: usize = 0;
        while s < segs
            invariant
                self.params_ok(),
                segs == self.spec_segment_count(),
                seg_len == self.spec_base_code().spec_message_size(),
                bl == self.spec_base_code().spec_block_length(),
                g == msg@,
                msg@.len() == self.spec_k(),
                s <= segs,
                segs > 0,
                bls == self.spec_segment_block_length(),
                buffers.base_columns@.len() == bl * segs,
                buffers.first_accumulate@.len() == bls * segs,
                buffers.second_accumulate@.len() == bls * segs,
                forall|x: int| 0 <= x < bl * segs && x % (segs as int) < s ==> #[trigger] buffers.base_columns@[x]
                    == self.seg_base(g, x % (segs as int))[x / (segs as int)],
            decreases segs - s,
        {
            proof {
                self.lemma_base_len(g, s as int);
                self.lemma_seg_bounds(s as int);
            }
            let start = s * seg_len;
            let seg = crate::copy_range(msg, start, start + seg_len);
            assert(seg@ == segment(g, seg_len as nat, s as int));
            let enc = self.base_code.encode(seg.as_slice());
            assert(enc@ == self.seg_base(g, s as int));
            let mut i: usize = 0;
            while i < bl
                invariant
                    self.params_ok(),
                    segs == self.spec_segment_count(),
                    segs > 0,
                    s < segs,
                    bl == enc@.len(),
                    enc@ == self.seg_base(g, s as int),
                    i <= bl,
                    bls == self.spec_segment_block_length(),
                    buffers.base_columns@.len() == bl * segs,
                    buffers.first_accumulate@.len() == bls * segs,
                    buffers.second_accumulate@.len() == bls * segs,
                    bl * segs <= usize::MAX,
                    forall|x: int|
                        0 <= x < bl * segs && (x % (segs as int) < s || (x % (segs as int) == s && x / (segs as int)
                            < i)) ==> #[trigger] buffers.base_columns@[x] == self.seg_base(g, x % (segs as int))[x / (
                        segs as int)],
                decreases bl - i,
            {
                proof {
                    crate::vectors::lemma_grid_index(i as int, s as int, segs as int, bl as int);
                }
                buffers.base_columns.set(i * segs + s, enc[i]);
                proof {
                    assert forall|y: int|
                        0 <= y < bl * segs && (y % (segs as int) < s || (y % (segs as int) == s && y / (segs as int)
                            < i + 1)) implies #[trigger] buffers.base_columns@[y] == self.seg_base(g, y % (segs as int))[y
                        / (segs as int)] by {
                        crate::vectors::lemma_grid_coords(y, segs as int, bl as int);
                        if y % (segs as int) == s && y / (segs as int) == i {
                            assert(y == i * segs + s);
                        }
                    }
                }
                i += 1;
            }
            proof {
                assert forall|x: int| 0 <= x < bl * segs && x % (segs as int) < s + 1 implies #[trigger] buffers.base_columns@[x]
                    == self.seg_base(g, x % (segs as int))[x / (segs as int)] by {
                    crate::vectors::lemma_grid_coords(x, segs as int, bl as int);
                }
            }
            s += 1;
        }

        // First permutation, multiply and accumulation, position by position.
        let mut acc = zeros(segs);
        let mut i: usize = 0;
        while i < bls
            invariant
                self.params_ok(),
                segs == self.spec_segment_count(),
                segs > 0,
                seg_len == self.spec_base_code().spec_message_size(),
                bl == self.spec_base_code().spec_block_length(),
                bls == self.spec_segment_block_length(),
                g == msg@,
                msg@.len() == self.spec_k(),
                i <= bls,
                acc@.len() == segs,
                buffers.base_columns@.len() == bl * segs,
                buffers.first_accumulate@.len() == bls * segs,
                buffers.second_accumulate@.len() == bls * segs,
                forall|x: int| 0 <= x < bl * segs ==> #[trigger] buffers.base_columns@[x] == self.seg_base(g, x % (segs as int))[x
                    / (segs as int)],
                forall|q: int| 0 <= q < segs ==> #[trigger] acc@[q] == sum(
                    hadamard(gather(self.seg_base(g, q), self.spec_p1()), self.spec_m1()).take(i as int),
                ),
                forall|x: int| 0 <= x < i * segs ==> #[trigger] buffers.first_accumulate@[x] == self.seg_w1(
                    g,
                    x % (segs as int),
                )[x / (segs as int)],
            decreases bls - i,
        {
            let src = self.p1_vector[i] as usize;
            let m = self.m1_vector[i];
            let mut s: usize = 0;
            while s < segs
                invariant
                    self.params_ok(),
                    segs == self.spec_segment_count(),
                    segs > 0,
                    seg_len == self.spec_base_code().spec_message_size(),
                    bl == self.spec_base_code().spec_block_length(),
                    bls == self.spec_segment_block_length(),
                    g == msg@,
                    msg@.len() == self.spec_k(),
                    i < bls,
                    src == self.spec_p1()[i as int],
                    m == self.spec_m1()[i as int],
                    s <= segs,
                    acc@.len() == segs,
                    buffers.base_columns@.len() == bl * segs,
                    buffers.first_accumulate@.len() == bls * segs,
                    buffers.second_accumulate@.len() == bls * segs,
                    forall|x: int| 0 <= x < bl * segs ==> #[trigger] buffers.base_columns@[x] == self.seg_base(g, 
                        x % (segs as int),
                    )[x / (segs as int)],
                    forall|q: int| 0 <= q < segs ==> #[trigger] acc@[q] == sum(
                        hadamard(gather(self.seg_base(g, q), self.spec_p1()), self.spec_m1()).take(
                            if q < s { i + 1 } else { i as int },
                        ),
                    ),
                    forall|x: int| 0 <= x < i * segs + s ==> #[trigger] buffers.first_accumulate@[x]
                        == self.seg_w1(g, x % (segs as int))[x / (segs as int)],
                decreases segs - s,
            {
                proof {
                    crate::vectors::lemma_grid_index(i as int, s as int, segs as int, bls as int);
                    crate::vectors::lemma_grid_index(src as int, s as int, segs as int, bl as int);
                    self.lemma_base_len(g, s as int);
                    crate::vectors::lemma_sum_take_step(
                        hadamard(gather(self.seg_base(g, s as int), self.spec_p1()), self.spec_m1()),
                        i as int,
                    );
                }
                let v = buffers.base_columns[src * segs + s];
                let a = acc[s].add(m.mul(v));
                acc.set(s, a);
                buffers.first_accumulate.set(i * segs + s, a);
                proof {
                    assert(m.spec_mul(v) == v.spec_mul(m)) by {
                        crate::vectors::lemma_mul_comm(m, v);
                    }
                    assert forall|y: int| 0 <= y < i * segs + s + 1 implies #[trigger] buffers.first_accumulate@[y]
                        == self.seg_w1(g, y % (segs as int))[y / (segs as int)] by {
                        crate::vectors::lemma_grid_coords(y, segs as int, bls as int);
                    }
                }
                s += 1;
            }
            proof {
                vstd::arithmetic::mul::lemma_mul_is_distributive_add_other_way(segs as int, i as int, 1);
            }
            i += 1;
        }

        // Second permutation, multiply and accumulation.
        let mut acc = zeros(segs);
        let mut i: usize = 0;
        while i < bls
            invariant
                self.params_ok(),
                segs == self.spec_segment_count(),
                segs > 0,
                bls == self.spec_segment_block_length(),
                g == msg@,
                msg@.len() == self.spec_k(),
                i <= bls,
                acc@.len() == segs,
                buffers.first_accumulate@.len() == bls * segs,
                buffers.second_accumulate@.len() == bls * segs,
                forall|x: int| 0 <= x < bls * segs ==> #[trigger] buffers.first_accumulate@[x] == self.seg_w1(
                    g,
                    x % (segs as int),
                )[x / (segs as int)],
                forall|q: int| 0 <= q < segs ==> #[trigger] acc@[q] == sum(
                    hadamard(gather(self.seg_w1(g, q), self.spec_p2()), self.spec_m2()).take(i as int),
                ),
                forall|x: int| 0 <= x < i * segs ==> #[trigger] buffers.second_accumulate@[x] == self.seg_w2(
                    g,
                    x % (segs as int),
                )[x / (segs as int)],
            decreases bls - i,
        {
            let src = self.p2_vector[i] as usize;
            let m = self.m2_vector[i];
            let mut s: usize = 0;
            while s < segs
                invariant
                    self.params_ok(),
                    segs == self.spec_segment_count(),
                    segs > 0,
                    bls == self.spec_segment_block_length(),
                    g == msg@,
                    msg@.len() == self.spec_k(),
                    i < bls,
                    src == self.spec_p2()[i as int],
                    m == self.spec_m2()[i as int],
                    s <= segs,
                    acc@.len() == segs,
                    buffers.first_accumulate@.len() == bls * segs,
                    buffers.second_accumulate@.len() == bls * segs,
                    forall|x: int| 0 <= x < bls * segs ==> #[trigger] buffers.first_accumulate@[x]
                        == self.seg_w1(g, x % (segs as int))[x / (segs as int)],
                    forall|q: int| 0 <= q < segs ==> #[trigger] acc@[q] == sum(
                        hadamard(gather(self.seg_w1(g, q), self.spec_p2()), self.spec_m2()).take(
                            if q < s { i + 1 } else { i as int },
                        ),
                    ),
                    forall|x: int| 0 <= x < i * segs + s ==> #[trigger] buffers.second_accumulate@[x]
                        == self.seg_w2(g, x % (segs as int))[x / (segs as int)],
                decreases segs - s,
            {
                proof {
                    crate::vectors::lemma_grid_index(i as int, s as int, segs as int, bls as int);
                    crate::vectors::lemma_grid_index(src as int, s as int, segs as int, bls as int);
                    crate::vectors::lemma_sum_take_step(
                        hadamard(gather(self.seg_w1(g, s as int), self.spec_p2()), self.spec_m2()),
                        i as int,
                    );
                }
                let v = buffers.first_accumulate[src * segs + s];
                let a = acc[s].add(m.mul(v));
                acc.set(s, a);
                buffers.second_accumulate.set(i * segs + s, a);
                proof {
                    assert(m.spec_mul(v) == v.spec_mul(m)) by {
                        crate::vectors::lemma_mul_comm(m, v);
                    }
                    assert forall|y: int| 0 <= y < i * segs + s + 1 implies #[trigger] buffers.second_accumulate@[y]
                        == self.seg_w2(g, y % (segs as int))[y / (segs as int)] by {
                        crate::vectors::lemma_grid_coords(y, segs as int, bls as int);
                    }
                }
                s += 1;
            }
            proof {
                vstd::arithmetic::mul::lemma_mul_is_distributive_add_other_way(segs as int, i as int, 1);
            }
            i += 1;
        }
        let n = bls * segs;
        let out = crate::copy_range(buffers.second_accumulate.as_slice(), 0, n);
        proof {
            assert(out@ =~= self.opt_encode(g));
        }
        out
    }

    proof fn lemma_seg_bounds(&self, s: int)
        requires
            self.params_ok(),
            0 <= s < self.spec_segment_count(),
        ensures
            (s + 1) * self.spec_base_code().spec_message_size() <= self.spec_k(),
            s * self.spec_base_code().spec_message_size() + self.spec_base_code().spec_message_size() == (s
                + 1) * self.spec_base_code().spec_message_size(),
    {
        let k = self.spec_base_code().spec_message_size();
        assert((s + 1) * k <= k * self.spec_segment_count()) by (nonlinear_arith)
            requires
                0 <= s < self.spec_segment_count(),
        ;
        assert(s * k + k == (s + 1) * k) by (nonlinear_arith);
    }
}


/// `out[i] = input[idx[i]]`.
fn permute_u32(input: &[KoalaBear], idx: &[u32]) -> (r: Vec<KoalaBear>)
    requires
        forall|i: int| 0 <= i < idx@.len() ==> #[trigger] idx@[i] < input@.len(),
    ensures
        r@ == gather(input@, as_indices(idx@)),
{
    let mut out: Vec<KoalaBear> = Vec::with_capacity(idx.len());
    let mut i: usize = 0;
    while i < idx.len()
        invariant
            i <= idx@.len(),
            forall|j: int| 0 <= j < idx@.len() ==> #[trigger] idx@[j] < input@.len(),
            out@ == gather(input@, as_indices(idx@)).take(i as int),
        decreases idx@.len() - i,
    {
        out.push(input[idx[i] as usize]);
        i += 1;
        assert(out@ =~= gather(input@, as_indices(idx@)).take(i as int));
    }
    assert(out@ =~= gather(input@, as_indices(idx@)));
    out
}

/// The chunk length used to split the running sums: the whole vector when it
/// has at most one entry; else the override, if any, capped at `len`; else
/// 8192 entries for long vectors and the whole vector for shorter ones.  (For
/// a short vector the per-thread share is always below 8192, so it is raised
/// to 8192 and then capped at `len`.)
pub fn chunk_len(len: usize, override_len: Option<usize>, threads: usize) -> (r: usize)
    ensures
        r == (if len <= 1 {
            len
        } else if override_len is Some {
            if override_len->0 < len { override_len->0 } else { len }
        } else if len >= 8192 {
            8192
        } else {
            len
        }),
{
    if len <= 1 {
        return len;
    }
    if let Some(o) = override_len {
        return if o < len { o } else { len };
    }
    let tuned: usize = 8192;
    if len >= tuned {
        return tuned;
    }
    let threads = if threads > 1 { threads } else { 1 };
    let ways = if threads <= usize::MAX / 4 { threads * 4 } else { usize::MAX };
    let mut chunk = len / ways;
    if chunk < tuned {
        chunk = tuned;
    }
    if chunk < len { chunk } else { len }
}

impl<C: ErrorCorrectingCode> OptimizedEraCode<C> {
    /// The scratch length of the second accumulation.
    pub closed spec fn spec_second_scratch_len(&self) -> nat {
        self.second_accumulate@.len()
    }

    /// The two codes have the same parameters (scratch space aside).
    pub open spec fn same_code(&self, other: &Self) -> bool {
        &&& self.spec_base_code() == other.spec_base_code()
        &&& self.spec_segment_count() == other.spec_segment_count()
        &&& self.spec_interleaving() == other.spec_interleaving()
        &&& self.spec_repetition() == other.spec_repetition()
        &&& self.spec_segment_block_length() == other.spec_segment_block_length()
        &&& self.spec_k() == other.spec_k()
        &&& self.spec_n() == other.spec_n()
        &&& self.spec_p1() == other.spec_p1()
        &&& self.spec_p2() == other.spec_p2()
        &&& self.spec_m1() == other.spec_m1()
        &&& self.spec_m2() == other.spec_m2()
        &&& self.spec_base_block_length() == other.spec_base_block_length()
        &&& self.spec_scratch_len() == other.spec_scratch_len()
        &&& self.spec_second_scratch_len() == other.spec_second_scratch_len()
    }

    /// What [`Self::validate_parameters`] checks.
    pub open spec fn parameters_valid(&self) -> bool {
        &&& self.spec_p1().len() == self.spec_segment_block_length()
        &&& forall|i: int| 0 <= i < self.spec_p1().len() ==> #[trigger] self.spec_p1()[i]
            < self.spec_base_block_length()
        &&& self.spec_p2().len() == self.spec_segment_block_length()
        &&& self.spec_m1().len() == self.spec_segment_block_length()
        &&& self.spec_m2().len() == self.spec_segment_block_length()
        &&& is_permutation(self.spec_p2(), self.spec_p2().len())
        &&& self.spec_scratch_len() == self.spec_segment_block_length()
        &&& self.spec_second_scratch_len() == self.spec_segment_block_length()
        &&& self.spec_base_code().spec_message_size() * self.spec_segment_count() == self.spec_k()
        &&& self.spec_repetition() * self.spec_base_code().spec_block_length()
            == self.spec_segment_block_length()
    }

    /// Whether `v` is a permutation of `0..v.len()`.
    pub fn check_permutation(v: &[usize]) -> (r: bool)
        ensures
            r == is_permutation(v@, v@.len()),
    {
        check_permutation(v)
    }

    /// Whether `v`, read as indices, is a permutation of `0..v.len()`.
    pub fn check_permutation_u32(v: &[u32]) -> (r: bool)
        ensures
            r == is_permutation(as_indices(v@), v@.len()),
    {
        let mut idx: Vec<usize> = Vec::with_capacity(v.len());
        let mut i: usize = 0;
        while i < v.len()
            invariant
                i <= v@.len(),
                idx@ == as_indices(v@).take(i as int),
            decreases v@.len() - i,
        {
            idx.push(v[i] as usize);
            i += 1;
            assert(idx@ =~= as_indices(v@).take(i as int));
        }
        assert(idx@ =~= as_indices(v@));
        check_permutation(idx.as_slice())
    }

    /// Checks the stored parameters against each other.  The scratch space is
    /// checked against one segment's block length, so a code with more than one
    /// segment does not pass.
    pub fn validate_parameters(&self) -> (r: bool)
        requires
            self.spec_base_code().inv(),
        ensures
            r == self.parameters_valid(),
    {
        let bls = self.block_length_segment;
        if self.p1_vector.len() != bls {
            return false;
        }
        let mut i: usize = 0;
        while i < self.p1_vector.len()
            invariant
                i <= self.spec_p1().len(),
                self.p1_vector@.len() == self.spec_p1().len(),
                forall|j: int| 0 <= j < i ==> #[trigger] self.spec_p1()[j] < self.spec_base_block_length(),
            decreases self.spec_p1().len() - i,
        {
            if self.p1_vector[i] as usize >= self.base_block_length {
                assert(self.spec_p1()[i as int] >= self.spec_base_block_length());
                return false;
            }
            i += 1;
        }
        if self.p2_vector.len() != bls || self.m1_vector.len() != bls || self.m2_vector.len() != bls {
            return false;
        }
        if !Self::check_permutation_u32(self.p2_vector.as_slice()) {
            return false;
        }
        if self.first_accumulate.len() != bls || self.second_accumulate.len() != bls {
            return false;
        }
        let k_ok = match self.base_code.message_size().checked_mul(self.segment_count) {
            Some(x) => x == self.message_size,
            None => false,
        };
        let n_ok = match self.repetition_parameter.checked_mul(self.base_code.block_length()) {
            Some(x) => x == bls,
            None => false,
        };
        k_ok && n_ok
    }

    /// The running sums of `values[i] * weights[i]`, computed chunk by chunk.
    pub fn prefix_sum_in_place(values: &mut Vec<KoalaBear>, weights: &[KoalaBear], chunk_len: usize)
        requires
            old(values)@.len() <= weights@.len(),
            old(values)@.len() == 0 || chunk_len > 0,
        ensures
            final(values)@ == prefix_sums(hadamard(old(values)@, weights@)),
    {
        weighted_prefix_sum_chunked(values, weights, chunk_len)
    }

    /// With a single segment the codeword is the two-round formula: the base
    /// codeword gathered by `p1`, multiplied by `m1` and accumulated, then
    /// gathered by `p2`, multiplied by `m2` and accumulated; the naive and the
    /// fast encoders both return it.
    pub proof fn lemma_single_segment(&self, msg: Seq<KoalaBear>)
        requires
            self.params_ok(),
            self.spec_segment_count() == 1,
            msg.len() == self.spec_k(),
        ensures
            self.opt_encode(msg) == prefix_sums(
                hadamard(
                    gather(
                        prefix_sums(
                            hadamard(gather(self.spec_base_code().spec_encode(msg), self.spec_p1()), self.spec_m1()),
                        ),
                        self.spec_p2(),
                    ),
                    self.spec_m2(),
                ),
            ),
            segment(msg, self.spec_base_code().spec_message_size(), 0) == msg,
            self.seg_base(msg, 0) == self.spec_base_code().spec_encode(msg),
            self.seg_base(msg, 0).len() == self.spec_base_block_length(),
            self.spec_n() == self.spec_segment_block_length(),
            self.opt_encode(msg) == self.seg_w2(msg, 0),
            self.seg_w1(msg, 0).len() == self.spec_n(),
    {
        assert(segment(msg, self.spec_base_code().spec_message_size(), 0) =~= msg);
        self.spec_base_code().lemma_encode_len(msg);
        assert(self.opt_encode(msg) =~= self.seg_w2(msg, 0));
    }

    /// Encodes a message of a single-segment code (no interleaving): base
    /// codeword, first permutation with multiply and accumulate, then the second.
    pub fn encode_fast(&self, msg: &[KoalaBear]) -> (r: Vec<KoalaBear>)
        requires
            self.params_ok(),
            self.spec_segment_count() == 1,
            msg@.len() == self.spec_k(),
        ensures
            r@ == self.opt_encode(msg@),
    {
        proof {
            self.lemma_single_segment(msg@);
        }
        let base = self.base_code.encode(msg);
        let chunk = chunk_len(self.block_length, None, current_num_threads());
        proof {
            assert forall|i: int| 0 <= i < self.p1_vector@.len() implies #[trigger] self.p1_vector@[i] < base@.len() by {
                assert(self.spec_p1()[i] == self.p1_vector@[i] as usize);
            }
        }
        let mut first = permute_u32(base.as_slice(), self.p1_vector.as_slice());
        Self::prefix_sum_in_place(&mut first, self.m1_vector.as_slice(), chunk);
        proof {
            assert forall|i: int| 0 <= i < self.p2_vector@.len() implies #[trigger] self.p2_vector@[i] < first@.len() by {
                assert(self.spec_p2()[i] == self.p2_vector@[i] as usize);
            }
        }
        let mut second = permute_u32(first.as_slice(), self.p2_vector.as_slice());
        Self::prefix_sum_in_place(&mut second, self.m2_vector.as_slice(), chunk);
        second
    }

    /// [`Self::encode_fast`] into the code's own scratch space, which the
    /// returned slice borrows.
    pub fn encode_blocked(&mut self, msg: &[KoalaBear]) -> (r: &[KoalaBear])
        requires
            old(self).params_ok(),
            old(self).spec_segment_count() == 1,
            msg@.len() == old(self).spec_k(),
        ensures
            r@ == old(self).opt_encode(msg@),
            final(self).same_code(old(self)),
            final(self).params_ok(),
    {
        proof {
            self.lemma_single_segment(msg@);
        }
        let base = self.base_code.encode(msg);
        let n = self.block_length;
        let chunk = chunk_len(n, None, current_num_threads());
        proof {
            assert forall|i: int| 0 <= i < self.p1_vector@.len() implies #[trigger] self.p1_vector@[i] < base@.len() by {
                assert(self.spec_p1()[i] == self.p1_vector@[i] as usize);
            }
            assert forall|i: int| 0 <= i < self.p2_vector@.len() implies #[trigger] self.p2_vector@[i] < n by {
                assert(self.spec_p2()[i] == self.p2_vector@[i] as usize);
            }
        }
        let ghost code0 = *self;
        let mut i: usize = 0;
        while i < n
            invariant
                n == self.spec_n(),
                self.first_accumulate@.len() == n,
                self.p1_vector@.len() == n,
                forall|i: int| 0 <= i < self.p1_vector@.len() ==> #[trigger] self.p1_vector@[i] < base@.len(),
                forall|i: int| 0 <= i < self.p2_vector@.len() ==> #[trigger] self.p2_vector@[i] < n,
                self.p2_vector@.len() == n,
                self.same_code(&code0),
                self.m1_vector@.len() == n,
                i <= n,
                forall|j: int| 0 <= j < i ==> #[trigger] self.first_accumulate@[j] == gather(base@, self.spec_p1())[j],
            decreases n - i,
        {
            let v = base[self.p1_vector[i] as usize];
            self.first_accumulate.set(i, v);
            i += 1;
        }
        assert(self.first_accumulate@ =~= gather(base@, self.spec_p1()));
        Self::prefix_sum_in_place(&mut self.first_accumulate, self.m1_vector.as_slice(), chunk);
        assert(self.first_accumulate@ == code0.seg_w1(msg@, 0));
        let mut i: usize = 0;
        while i < n
            invariant
                n == self.spec_n(),
                self.first_accumulate@.len() == n,
                self.second_accumulate@.len() == n,
                self.p2_vector@.len() == n,
                forall|i: int| 0 <= i < self.p2_vector@.len() ==> #[trigger] self.p2_vector@[i] < n,
                self.same_code(&code0),
                self.first_accumulate@ == code0.seg_w1(msg@, 0),
                self.m2_vector@.len() == n,
                i <= n,
                forall|j: int| 0 <= j < i ==> #[trigger] self.second_accumulate@[j] == gather(
                    self.first_accumulate@,
                    self.spec_p2(),
                )[j],
            decreases n - i,
        {
            let v = self.first_accumulate[self.p2_vector[i] as usize];
            self.second_accumulate.set(i, v);
            i += 1;
        }
        assert(self.second_accumulate@ =~= gather(self.first_accumulate@, self.spec_p2()));
        Self::prefix_sum_in_place(&mut self.second_accumulate, self.m2_vector.as_slice(), chunk);
        assert(self.second_accumulate@ == code0.opt_encode(msg@));
        self.second_accumulate.as_slice()
    }
}

impl<C: ErrorCorrectingCode> OptimizedEraCode<C> {
    /// The round after a sort-based permutation: each position `i` carries
    /// `input[i / rep]` under the key `keys[i]`, and the values come out in key order.
    pub open spec fn sort_round(&self, input: Seq<KoalaBear>, keys: Seq<usize>, mult: Seq<KoalaBear>) -> Seq<
        KoalaBear,
    > {
        prefix_sums(hadamard(sort_permuted(keys, input, self.spec_repetition()), mult))
    }

    /// The codeword of `msg` through two sort-based rounds.
    pub open spec fn sort_encode(&self, msg: Seq<KoalaBear>) -> Seq<KoalaBear> {
        let first = self.sort_round(self.spec_base_code().spec_encode(msg), self.spec_p1(), self.spec_m1());
        self.sort_round(first, self.spec_p2(), self.spec_m2())
    }

    proof fn lemma_sort_sizes(&self, msg: Seq<KoalaBear>)
        requires
            self.params_ok(),
            self.spec_segment_count() == 1,
            msg.len() == self.spec_k(),
        ensures
            self.spec_repetition() > 0 || self.spec_n() == 0,
            self.spec_p1().len() <= self.spec_repetition() * self.spec_base_code().spec_encode(msg).len(),
            self.spec_p2().len() <= self.spec_repetition() * self.spec_n(),
            self.spec_p1().len() == self.spec_n(),
            self.spec_p2().len() == self.spec_n(),
            self.spec_m1().len() == self.spec_n(),
            self.spec_m2().len() == self.spec_n(),
    {
        self.lemma_single_segment(msg);
        let rep = self.spec_repetition();
        let n = self.spec_n();
        if rep > 0 {
            assert(n <= rep * n) by (nonlinear_arith)
                requires
                    rep > 0,
            ;
        } else {
            assert(n == 0) by (nonlinear_arith)
                requires
                    n == rep * self.spec_base_code().spec_block_length(),
                    rep == 0,
            ;
        }
    }

    /// Permutes by sorting: the pairs `(keys[i], input[i / rep])` are sorted
    /// (rayon's parallel sort) and their values read off in order.
    fn permute_sort(&self, input: &[KoalaBear], keys: &[u32]) -> (r: Vec<KoalaBear>)
        requires
            keys@.len() > 0 ==> self.spec_repetition() > 0,
            keys@.len() <= self.spec_repetition() * input@.len(),
        ensures
            r@ == sort_permuted(as_indices(keys@), input@, self.spec_repetition()),
            r@.len() == keys@.len(),
    {
        proof {
            lemma_sort_permuted_len(as_indices(keys@), input@, self.spec_repetition());
        }
        let mut entries: Vec<u64> = Vec::with_capacity(keys.len());
        fill_keyed_entries(&mut entries, input, keys, self.repetition_parameter);
        par_sort_words(&mut entries);
        let mut out: Vec<KoalaBear> = Vec::with_capacity(keys.len());
        unpack_values(entries.as_slice(), &mut out);
        out
    }

    /// Permutes by sorting with the radix sort, through the buffers `entries` and `out`.
    fn permute_radix_sort(&self, input: &[KoalaBear], keys: &[u32], entries: &mut Vec<u64>, out: &mut Vec<
        KoalaBear,
    >)
        requires
            keys@.len() > 0 ==> self.spec_repetition() > 0,
            keys@.len() <= self.spec_repetition() * input@.len(),
        ensures
            final(out)@ == sort_permuted(as_indices(keys@), input@, self.spec_repetition()),
            final(out)@.len() == keys@.len(),
    {
        proof {
            lemma_sort_permuted_len(as_indices(keys@), input@, self.spec_repetition());
        }
        fill_keyed_entries(entries, input, keys, self.repetition_parameter);
        radix_sort_words(entries, current_num_threads());
        unpack_values(entries.as_slice(), out);
    }

    /// Encode with both permutations done by a parallel sort of `(key, value)` pairs.
    pub fn encode_sort_perm(&self, msg: &[KoalaBear]) -> (r: Vec<KoalaBear>)
        requires
            self.params_ok(),
            self.spec_segment_count() == 1,
            msg@.len() == self.spec_k(),
        ensures
            r@ == self.sort_encode(msg@),
    {
        proof {
            self.lemma_sort_sizes(msg@);
            self.lemma_single_segment(msg@);
        }
        let base_encoding = self.base_code.encode(msg);
        let chunk = chunk_len(self.block_length, None, current_num_threads());
        let mut first_accumulate = self.permute_sort(base_encoding.as_slice(), self.p1_vector.as_slice());
        Self::prefix_sum_in_place(&mut first_accumulate, self.m1_vector.as_slice(), chunk);
        let mut second_accumulate = self.permute_sort(first_accumulate.as_slice(), self.p2_vector.as_slice());
        Self::prefix_sum_in_place(&mut second_accumulate, self.m2_vector.as_slice(), chunk);
        second_accumulate
    }

    /// Encode with both permutations done by a radix sort of `(key, value)`
    /// pairs, through the scratch `buffers`; the codeword is left in them.
    pub fn encode_radix_sort_perm_with_buffer<'a>(&self, msg: &[KoalaBear], buffers: &'a mut RadixSortBuffers) -> (r:
        &'a [KoalaBear])
        requires
            self.params_ok(),
            self.spec_segment_count() == 1,
            msg@.len() == self.spec_k(),
        ensures
            r@ == self.sort_encode(msg@),
    {
        proof {
            self.lemma_sort_sizes(msg@);
            self.lemma_single_segment(msg@);
        }
        let base_encoding = self.base_code.encode(msg);
        let chunk = chunk_len(self.block_length, None, current_num_threads());
        self.permute_radix_sort(
            base_encoding.as_slice(),
            self.p1_vector.as_slice(),
            &mut buffers.entries,
            &mut buffers.first_accumulate,
        );
        Self::prefix_sum_in_place(&mut buffers.first_accumulate, self.m1_vector.as_slice(), chunk);
        self.permute_radix_sort(
            buffers.first_accumulate.as_slice(),
            self.p2_vector.as_slice(),
            &mut buffers.entries,
            &mut buffers.second_accumulate,
        );
        Self::prefix_sum_in_place(&mut buffers.second_accumulate, self.m2_vector.as_slice(), chunk);
        buffers.second_accumulate.as_slice()
    }

    /// Encode with the radix-sort permutations into fresh buffers.
    pub fn encode_radix_sort_perm(&self, msg: &[KoalaBear]) -> (r: Vec<KoalaBear>)
        requires
            self.params_ok(),
            self.spec_segment_count() == 1,
            msg@.len() == self.spec_k(),
        ensures
            r@ == self.sort_encode(msg@),
    {
        let mut buffers = RadixSortBuffers::with_capacity(0);
        let out = self.encode_radix_sort_perm_with_buffer(msg, &mut buffers);
        crate::copy_range(out, 0, out.len())
    }
}

impl<C: ErrorCorrectingCode> ErrorCorrectingCode for OptimizedEraCode<C> {
    open spec fn inv(&self) -> bool {
        self.params_ok() && self.spec_segment_count() == 1
    }

    open spec fn spec_message_size(&self) -> nat {
        self.spec_k()
    }

    open spec fn spec_block_length(&self) -> nat {
        self.spec_n()
    }

    open spec fn spec_encode(&self, msg: Seq<KoalaBear>) -> Seq<KoalaBear> {
        self.opt_encode(msg)
    }

    proof fn lemma_encode_len(&self, msg: Seq<KoalaBear>) {
    }

    fn message_size(&self) -> (r: usize) {
        self.message_size
    }

    fn block_length(&self) -> (r: usize) {
        self.block_length
    }

    fn encode(&self, msg: &[KoalaBear]) -> (r: Vec<KoalaBear>) {
        self.encode_fast(msg)
    }
}

/// The zero message has the zero codeword whenever the base code maps its
/// zero message to zero.
pub proof fn lemma_opt_zero_message<C: ErrorCorrectingCode>(code: OptimizedEraCode<C>, msg: Seq<KoalaBear>)
    requires
        code.params_ok(),
        msg.len() == code.spec_k(),
        all_zero(msg),
        all_zero(
            code.spec_base_code().spec_encode(Seq::new(code.spec_base_code().spec_message_size(), |i: int| fe(0))),
        ),
    ensures
        code.opt_encode(msg).len() == code.spec_n(),
        all_zero(code.opt_encode(msg)),
{
    let k = code.spec_base_code().spec_message_size();
    let sc = code.spec_segment_count() as int;
    let sbl = code.spec_segment_block_length() as int;
    let zero_k = Seq::new(k, |i: int| fe(0));
    assert forall|s: int| 0 <= s < sc implies all_zero(#[trigger] code.seg_w2(msg, s)) by {
        code.lemma_base_len(msg, s);
        code.lemma_seg_bounds(s);
        let seg = segment(msg, k, s);
        assert forall|j: int| 0 <= j < k implies #[trigger] seg[j] == zero_k[j] by {
            assert(0 <= s * k) by (nonlinear_arith)
                requires
                    0 <= s,
            ;
        }
        assert(seg =~= zero_k);
        let base = code.seg_base(msg, s);
        lemma_era_round_zero(base, code.spec_p1(), code.spec_m1());
        let w1 = code.seg_w1(msg, s);
        lemma_era_round_zero(w1, code.spec_p2(), code.spec_m2());
    }
    assert forall|x: int| 0 <= x < code.spec_n() implies #[trigger] code.opt_encode(msg)[x] == fe(0) by {
        crate::vectors::lemma_grid_coords(x, sc, sbl);
        let s = x % sc;
        assert(all_zero(code.seg_w2(msg, s)));
    }
}

} // verus!
