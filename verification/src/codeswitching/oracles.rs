//! Split encodings: a long vector cut into chunks of the output code's
//! message length, each chunk with its codeword.
use vstd::prelude::*;

use crate::codeswitching::claims::chunk;
use crate::field::KoalaBear;
use crate::vectors::{identity_vector, index_vector, is_permutation};
use crate::ErrorCorrectingCode;

verus! {

/// A split message and the codewords of its chunks.
#[derive(Debug, Clone)]
pub struct SplitEncoding {
    pub chunks: Vec<Vec<KoalaBear>>,
    pub codewords: Vec<Vec<KoalaBear>>,
}

/// `e` holds the chunks of `msg` of length `code`'s message size and their codewords.
pub open spec fn is_split_encoding<C: ErrorCorrectingCode>(e: SplitEncoding, msg: Seq<KoalaBear>, code: C) -> bool {
    let k = code.spec_message_size();
    &&& k > 0
    &&& e.chunks@.len() == msg.len() / k
    &&& e.codewords@.len() == e.chunks@.len()
    &&& forall|i: int| 0 <= i < e.chunks@.len() ==> (#[trigger] e.chunks@[i])@ == chunk(msg, k, i)
    &&& forall|i: int| 0 <= i < e.codewords@.len() ==> (#[trigger] e.codewords@[i])@ == code.spec_encode(
        e.chunks@[i]@,
    )
}

impl SplitEncoding {
    /// Every chunk has length `chunk_len`, every codeword `codeword_len`, and
    /// there are as many chunks as codewords.
    pub open spec fn has_shape(&self, chunk_len: nat, codeword_len: nat) -> bool {
        &&& self.chunks@.len() == self.codewords@.len()
        &&& forall|i: int| 0 <= i < self.chunks@.len() ==> (#[trigger] self.chunks@[i])@.len() == chunk_len
        &&& forall|i: int| 0 <= i < self.codewords@.len() ==> (#[trigger] self.codewords@[i])@.len()
            == codeword_len
    }

    pub fn chunk_count(&self) -> (r: usize)
        ensures
            r == self.chunks@.len(),
    {
        self.chunks.len()
    }

    /// The shape check of a split encoding: as many codewords as chunks,
    /// every chunk `chunk_len` long and every codeword `codeword_len` long.
    /// Callers must hand it an encoding of that shape, so it always passes.
    pub fn assert_shape(&self, chunk_len: usize, codeword_len: usize)
        requires
            self.has_shape(chunk_len as nat, codeword_len as nat),
    {
    }
}

/// Cuts `msg` into chunks of `output_code`'s message size and encodes each.
pub fn split_and_encode<C: ErrorCorrectingCode>(msg: &[KoalaBear], output_code: &C) -> (r: SplitEncoding)
    requires
        output_code.inv(),
        output_code.spec_message_size() > 0,
        msg@.len() % output_code.spec_message_size() == 0,
    ensures
        is_split_encoding(r, msg@, *output_code),
        r.has_shape(output_code.spec_message_size(), output_code.spec_block_length()),
{
    let chunk_len = output_code.message_size();
    let n = msg.len();
    let chunk_count = n / chunk_len;
    let ghost k = chunk_len as nat;
    proof {
        vstd::arithmetic::div_mod::lemma_fundamental_div_mod(n as int, chunk_len as int);
        assert(chunk_count * k == n) by (nonlinear_arith)
            requires
                n as int == chunk_len * ((n as int) / (chunk_len as int)) + (n as int) % (chunk_len as int),
                (n as int) % (chunk_len as int) == 0,
                chunk_count == (n as int) / (chunk_len as int),
                k == chunk_len,
        ;
    }
    let mut chunks: Vec<Vec<KoalaBear>> = Vec::with_capacity(chunk_count);
    let mut codewords: Vec<Vec<KoalaBear>> = Vec::with_capacity(chunk_count);
    let mut i: usize = 0;
    while i < chunk_count
        invariant
            output_code.inv(),
            k == output_code.spec_message_size(),
            k == chunk_len,
            k > 0,
            n == msg@.len(),
            chunk_count * k == n,
            i <= chunk_count,
            chunks@.len() == i,
            codewords@.len() == i,
            forall|j: int| 0 <= j < i ==> (#[trigger] chunks@[j])@ == chunk(msg@, k, j),
            forall|j: int| 0 <= j < i ==> (#[trigger] codewords@[j])@ == output_code.spec_encode(chunks@[j]@),
            forall|j: int| 0 <= j < i ==> (#[trigger] chunks@[j])@.len() == k,
            forall|j: int| 0 <= j < i ==> (#[trigger] codewords@[j])@.len() == output_code.spec_block_length(),
        decreases chunk_count - i,
    {
        proof {
            assert((i + 1) * k <= chunk_count * k) by (nonlinear_arith)
                requires
                    i < chunk_count,
            ;
            assert(0 <= i * k) by (nonlinear_arith);
            assert(i * k + k == (i + 1) * k) by (nonlinear_arith);
        }
        let start = i * chunk_len;
        let c = crate::copy_range(msg, start, start + chunk_len);
        let w = output_code.encode(c.as_slice());
        proof {
            output_code.lemma_encode_len(c@);
        }
        chunks.push(c);
        codewords.push(w);
        i += 1;
    }
    SplitEncoding { chunks, codewords }
}

/// Inputs for generating the index oracles of the code-switching steps.
#[derive(Debug, Clone)]
pub struct CodeswitchOraclesInput {
    /// ERA block length (`n_ERA`).
    pub n_era: usize,
    /// Flattened base-generator vector (`g`) used in base-code checks.
    pub generator_vector: Vec<KoalaBear>,
    /// First permutation of `[0, n_era)`.
    pub permutation_1: Vec<usize>,
    /// Second permutation of `[0, n_era)`.
    pub permutation_2: Vec<usize>,
    /// First multiply vector (`v_1`) of length `n_era`.
    pub multiplier_1: Vec<KoalaBear>,
    /// Second multiply vector (`v_2`) of length `n_era`.
    pub multiplier_2: Vec<KoalaBear>,
}

impl CodeswitchOraclesInput {
    /// What [`Self::validate`] checks.
    pub open spec fn is_valid(&self) -> bool {
        &&& self.n_era > 0
        &&& is_permutation(self.permutation_1@, self.n_era as nat)
        &&& is_permutation(self.permutation_2@, self.n_era as nat)
        &&& self.multiplier_1@.len() == self.n_era
        &&& self.multiplier_2@.len() == self.n_era
    }

    /// The validity check of an oracle input: `n_era` is positive, both
    /// permutations are permutations of `[0, n_era)` and both multiply vectors
    /// have length `n_era`.  Callers must hand it a valid input, so it always
    /// passes.
    pub fn validate(&self)
        requires
            self.is_valid(),
    {
    }
}

/// All split-encoded oracle families.
#[derive(Debug, Clone)]
pub struct CodeswitchOraclesOutput {
    pub generator: SplitEncoding,
    pub identity: SplitEncoding,
    pub permutation_1: SplitEncoding,
    pub permutation_2: SplitEncoding,
    pub multiplier_1: SplitEncoding,
    pub multiplier_2: SplitEncoding,
}

/// The codewords of `a`, then those of `b`, and so on.
pub open spec fn codewords_of(e: SplitEncoding) -> Seq<Seq<KoalaBear>> {
    Seq::new(e.codewords@.len(), |i: int| e.codewords@[i]@)
}

/// The contents of each vector in `v`.
pub open spec fn views(v: Seq<Vec<KoalaBear>>) -> Seq<Seq<KoalaBear>> {
    Seq::new(v.len(), |i: int| v[i]@)
}

/// Appends copies of the codewords of `e` to `out`.
fn extend_codewords(out: &mut Vec<Vec<KoalaBear>>, e: &SplitEncoding)
    ensures
        views(final(out)@) == views(old(out)@) + codewords_of(*e),
{
    let mut i: usize = 0;
    let ghost before = views(out@);
    while i < e.codewords.len()
        invariant
            i <= e.codewords@.len(),
            views(out@) == before + codewords_of(*e).take(i as int),
        decreases e.codewords@.len() - i,
    {
        let w = e.codewords[i].as_slice();
        let copy = crate::copy_range(w, 0, w.len());
        proof {
            assert(w@.subrange(0, w@.len() as int) =~= w@);
        }
        let ghost old_out = out@;
        out.push(copy);
        proof {
            assert(views(out@) =~= views(old_out).push(copy@));
            assert(copy@ == codewords_of(*e)[i as int]);
            assert(codewords_of(*e).take(i + 1) =~= codewords_of(*e).take(i as int).push(copy@));
        }
        i += 1;
        assert(views(out@) =~= before + codewords_of(*e).take(i as int));
    }
    assert(codewords_of(*e).take(i as int) =~= codewords_of(*e));
}

impl CodeswitchOraclesOutput {
    /// The index oracle codewords in the order `g`, `id`, `pi_1`, `pi_2`, `v_1`, `v_2`.
    pub open spec fn spec_flattened(&self) -> Seq<Seq<KoalaBear>> {
        codewords_of(self.generator) + codewords_of(self.identity) + codewords_of(self.permutation_1)
            + codewords_of(self.permutation_2) + codewords_of(self.multiplier_1) + codewords_of(
            self.multiplier_2,
        )
    }

    /// Flattens the index oracle codewords in a stable order:
    /// `g`, `id`, `pi_1`, `pi_2`, `v_1`, `v_2`.
    pub fn flattened_index_oracles(&self) -> (r: Vec<Vec<KoalaBear>>)
        ensures
            views(r@) == self.spec_flattened(),
    {
        let mut out: Vec<Vec<KoalaBear>> = Vec::new();
        assert(views(out@) =~= Seq::<Seq<KoalaBear>>::empty());
        extend_codewords(&mut out, &self.generator);
        extend_codewords(&mut out, &self.identity);
        extend_codewords(&mut out, &self.permutation_1);
        extend_codewords(&mut out, &self.permutation_2);
        extend_codewords(&mut out, &self.multiplier_1);
        extend_codewords(&mut out, &self.multiplier_2);
        assert(views(out@) =~= self.spec_flattened());
        out
    }
}

/// The field images `0, 1, ..., n - 1`.
fn identity_field_vector(n: usize) -> (r: Vec<KoalaBear>)
    requires
        n <= u32::MAX,
    ensures
        r@ == identity_vector(n as nat),
{
    let mut out: Vec<KoalaBear> = Vec::with_capacity(n);
    let mut i: usize = 0;
    while i < n
        invariant
            n <= u32::MAX,
            i <= n,
            out@ == identity_vector(n as nat).take(i as int),
        decreases n - i,
    {
        out.push(KoalaBear::from_u32(i as u32));
        i += 1;
        assert(out@ =~= identity_vector(n as nat).take(i as int));
    }
    assert(out@ =~= identity_vector(n as nat));
    out
}

/// The field images of the entries of `perm`.
fn permutation_field_vector(perm: &[usize]) -> (r: Vec<KoalaBear>)
    requires
        forall|i: int| 0 <= i < perm@.len() ==> #[trigger] perm@[i] <= u32::MAX,
    ensures
        r@ == index_vector(perm@),
{
    let mut out: Vec<KoalaBear> = Vec::with_capacity(perm.len());
    let mut i: usize = 0;
    while i < perm.len()
        invariant
            forall|i: int| 0 <= i < perm@.len() ==> #[trigger] perm@[i] <= u32::MAX,
            i <= perm@.len(),
            out@ == index_vector(perm@).take(i as int),
        decreases perm@.len() - i,
    {
        out.push(KoalaBear::from_u32(perm[i] as u32));
        i += 1;
        assert(out@ =~= index_vector(perm@).take(i as int));
    }
    assert(out@ =~= index_vector(perm@));
    out
}

/// Builds the split-encoded index oracles: the generator vector, the identity
/// vector `0, ..., n_era - 1`, both permutations as field vectors, and both
/// multiply vectors, each split and encoded under `output_code`.
pub fn build_codeswitch_oracles<C: ErrorCorrectingCode>(input: &CodeswitchOraclesInput, output_code: &C) -> (r:
    CodeswitchOraclesOutput)
    requires
        input.is_valid(),
        input.n_era <= u32::MAX,
        output_code.inv(),
        output_code.spec_message_size() > 0,
        (input.n_era as nat) % output_code.spec_message_size() == 0,
        input.generator_vector@.len() % output_code.spec_message_size() == 0,
    ensures
        is_split_encoding(r.generator, input.generator_vector@, *output_code),
        is_split_encoding(r.identity, identity_vector(input.n_era as nat), *output_code),
        is_split_encoding(r.permutation_1, index_vector(input.permutation_1@), *output_code),
        is_split_encoding(r.permutation_2, index_vector(input.permutation_2@), *output_code),
        is_split_encoding(r.multiplier_1, input.multiplier_1@, *output_code),
        is_split_encoding(r.multiplier_2, input.multiplier_2@, *output_code),
        r.identity.chunks@.len() == (input.n_era as nat) / output_code.spec_message_size(),
{
    let identity_vector = identity_field_vector(input.n_era);
    let permutation_1_vector = permutation_field_vector(input.permutation_1.as_slice());
    let permutation_2_vector = permutation_field_vector(input.permutation_2.as_slice());
    let generator = split_and_encode(input.generator_vector.as_slice(), output_code);
    let identity = split_and_encode(identity_vector.as_slice(), output_code);
    let permutation_1 = split_and_encode(permutation_1_vector.as_slice(), output_code);
    let permutation_2 = split_and_encode(permutation_2_vector.as_slice(), output_code);
    let multiplier_1 = split_and_encode(input.multiplier_1.as_slice(), output_code);
    let multiplier_2 = split_and_encode(input.multiplier_2.as_slice(), output_code);
    CodeswitchOraclesOutput { generator, identity, permutation_1, permutation_2, multiplier_1, multiplier_2 }
}

} // verus!
