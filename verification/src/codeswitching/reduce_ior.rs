//! The reduce-IOR scaffold: an evaluation claim on a start-code oracle is
//! split over message blocks of the new code, checked for consistency, and
//! batched with the code-switching claims into one reduced claim.
use vstd::arithmetic::power2::pow2;
use vstd::prelude::*;

use super::errors::{refers_to_existing, validate_oracle_reference, CodeswitchError, OracleReference};
use crate::codes::optimized_era::OptimizedEraCode;
use crate::field::{fe, KoalaBear};
use crate::poly::{eq_table, lemma_eq_eval, lemma_eq_len, lemma_eq_tensor, mle_eval};
use crate::ring::{block_sums, isum_g, lemma_isum_blocks, lemma_isum_ext, lemma_isum_scale, lemma_mul_l, lemma_mul_r, lemma_sum_terms, row_sums, shifted};
use crate::vectors::{all_wf, dot, hadamard, lemma_grid_coords, lemma_grid_index, lemma_sum_take_step, sum};
use crate::codeswitching::codeswitch_claims::fpow;
use crate::ErrorCorrectingCode;

verus! {

/// `2^x` computed as a shift.
pub fn shl_one(x: usize) -> (r: usize)
    requires
        x < usize::BITS,
    ensures
        r == pow2(x as nat),
{
    proof {
        vstd::bits::lemma_usize_pow2_no_overflow(x as nat);
        vstd::bits::lemma_usize_shl_is_mul(1, x);
    }
    1usize << x
}

/// Static parameters of the reduce-IOR scaffold.
#[derive(Debug)]
pub struct CodeswitchParameters<C> {
    message_interleaving: usize,
    base_code_interleaving: usize,
    era_interleaving: usize,
    repetition_parameter: usize,
    log_start_code_message: usize,
    log_start_code_blocklength: usize,
    log_new_code_message: usize,
    era_code: OptimizedEraCode<C>,
}

impl<C: ErrorCorrectingCode> CodeswitchParameters<C> {
    pub closed spec fn spec_message_interleaving(&self) -> nat {
        self.message_interleaving as nat
    }

    pub closed spec fn spec_base_code_interleaving(&self) -> nat {
        self.base_code_interleaving as nat
    }

    pub closed spec fn spec_era_interleaving(&self) -> nat {
        self.era_interleaving as nat
    }

    pub closed spec fn spec_num_spot_checks(&self) -> nat {
        self.repetition_parameter as nat
    }

    pub closed spec fn spec_log_start_code_message(&self) -> nat {
        self.log_start_code_message as nat
    }

    pub closed spec fn spec_log_start_code_blocklength(&self) -> nat {
        self.log_start_code_blocklength as nat
    }

    pub closed spec fn spec_log_new_code_message(&self) -> nat {
        self.log_new_code_message as nat
    }

    pub closed spec fn spec_era_code(&self) -> OptimizedEraCode<C> {
        self.era_code
    }

    /// The new code `C'`: the base code of the start code.
    pub open spec fn spec_new_code(&self) -> C {
        self.spec_era_code().spec_base_code()
    }

    /// All the logarithms leave room for their powers of two in a word.
    pub open spec fn logs_fit(&self) -> bool {
        &&& self.spec_log_start_code_message() < usize::BITS
        &&& self.spec_log_start_code_blocklength() < usize::BITS
        &&& self.spec_log_new_code_message() < usize::BITS
    }

    #[allow(clippy::too_many_arguments)]
    pub fn new(
        message_interleaving: usize,
        base_code_interleaving: usize,
        era_interleaving: usize,
        repetition_parameter: usize,
        log_start_code_message: usize,
        log_start_code_blocklength: usize,
        log_new_code_message: usize,
        era_code: OptimizedEraCode<C>,
    ) -> (r: CodeswitchParameters<C>)
        ensures
            r.spec_message_interleaving() == message_interleaving,
            r.spec_base_code_interleaving() == base_code_interleaving,
            r.spec_era_interleaving() == era_interleaving,
            r.spec_num_spot_checks() == repetition_parameter,
            r.spec_log_start_code_message() == log_start_code_message,
            r.spec_log_start_code_blocklength() == log_start_code_blocklength,
            r.spec_log_new_code_message() == log_new_code_message,
            r.spec_era_code() == era_code,
    {
        CodeswitchParameters {
            message_interleaving,
            base_code_interleaving,
            era_interleaving,
            repetition_parameter,
            log_start_code_message,
            log_start_code_blocklength,
            log_new_code_message,
            era_code,
        }
    }

    pub fn message_interleaving(&self) -> (r: usize)
        ensures
            r == self.spec_message_interleaving(),
    {
        self.message_interleaving
    }

    pub fn base_code_interleaving(&self) -> (r: usize)
        ensures
            r == self.spec_base_code_interleaving(),
    {
        self.base_code_interleaving
    }

    pub fn era_interleaving(&self) -> (r: usize)
        ensures
            r == self.spec_era_interleaving(),
    {
        self.era_interleaving
    }

    /// Number of spot checks sampled against the start-code oracle.
    pub fn num_spot_checks(&self) -> (r: usize)
        ensures
            r == self.spec_num_spot_checks(),
    {
        self.repetition_parameter
    }

    pub fn log_start_code_message(&self) -> (r: usize)
        ensures
            r == self.spec_log_start_code_message(),
    {
        self.log_start_code_message
    }

    pub fn log_start_code_blocklength(&self) -> (r: usize)
        ensures
            r == self.spec_log_start_code_blocklength(),
    {
        self.log_start_code_blocklength
    }

    pub fn log_new_code_message(&self) -> (r: usize)
        ensures
            r == self.spec_log_new_code_message(),
    {
        self.log_new_code_message
    }

    /// The number of variables of the block selector `z_1`:
    /// `log k - log k'`, or `None` when `log k' > log k`.
    pub fn z1_num_variables(&self) -> (r: Option<usize>)
        ensures
            r == (if self.spec_log_new_code_message() <= self.spec_log_start_code_message() {
                Some((self.spec_log_start_code_message() - self.spec_log_new_code_message()) as usize)
            } else {
                None
            }),
    {
        self.log_start_code_message.checked_sub(self.log_new_code_message)
    }

    pub fn start_code_blocklength(&self) -> (r: usize)
        requires
            self.spec_log_start_code_blocklength() < usize::BITS,
        ensures
            r == pow2(self.spec_log_start_code_blocklength()),
    {
        shl_one(self.log_start_code_blocklength)
    }

    pub fn new_code_message_len(&self) -> (r: usize)
        requires
            self.spec_log_new_code_message() < usize::BITS,
        ensures
            r == pow2(self.spec_log_new_code_message()),
    {
        shl_one(self.log_new_code_message)
    }

    pub fn start_code_message_len(&self) -> (r: usize)
        requires
            self.spec_log_start_code_message() < usize::BITS,
        ensures
            r == pow2(self.spec_log_start_code_message()),
    {
        shl_one(self.log_start_code_message)
    }

    /// The full start code (`ERA`) of the outer relation.
    pub fn era_code(&self) -> (r: &OptimizedEraCode<C>)
        ensures
            *r == self.spec_era_code(),
    {
        &self.era_code
    }

    /// The inner (new) code `C'` used per message block.
    pub fn new_code(&self) -> (r: &C)
        ensures
            *r == self.spec_new_code(),
    {
        self.era_code.base_code()
    }

    pub fn new_code_block_len(&self) -> (r: usize)
        ensures
            r == self.spec_new_code().spec_block_length(),
    {
        self.new_code().block_length()
    }
}

/// Public input of the reduce-IOR: the claim `H(eval_point) = eval_value` on
/// the start-code oracle word, with its witness message.
#[derive(Debug, Clone)]
pub struct ReduceIorInput {
    pub eval_point: Vec<KoalaBear>,
    pub eval_value: KoalaBear,
    pub oracle_word: Vec<KoalaBear>,
    pub witness_message: Vec<KoalaBear>,
}

/// The first shape check that `input` fails against `p`, in the order the
/// checks are made, or `None`.
pub open spec fn input_shape_error<C: ErrorCorrectingCode>(
    p: CodeswitchParameters<C>,
    input: ReduceIorInput,
) -> Option<CodeswitchError> {
    let log_k = p.spec_log_start_code_message();
    let log_k_new = p.spec_log_new_code_message();
    if log_k < log_k_new {
        Some(
            CodeswitchError::InvalidLogSplit {
                log_start_code_message: log_k as usize,
                log_new_code_message: log_k_new as usize,
            },
        )
    } else if p.spec_message_interleaving() != pow2((log_k - log_k_new) as nat) {
        Some(
            CodeswitchError::MessageInterleavingMismatch {
                expected: pow2((log_k - log_k_new) as nat) as usize,
                found: p.spec_message_interleaving() as usize,
            },
        )
    } else if p.spec_new_code().spec_message_size() != pow2(log_k_new) {
        Some(
            CodeswitchError::NewCodeMessageSizeMismatch {
                expected: pow2(log_k_new) as usize,
                found: p.spec_new_code().spec_message_size() as usize,
            },
        )
    } else if input.witness_message@.len() != pow2(log_k) {
        Some(
            CodeswitchError::WitnessLengthMismatch {
                expected: pow2(log_k) as usize,
                found: input.witness_message@.len() as usize,
            },
        )
    } else if input.eval_point@.len() != log_k {
        Some(
            CodeswitchError::EvalPointLengthMismatch {
                expected: log_k as usize,
                found: input.eval_point@.len() as usize,
            },
        )
    } else if input.oracle_word@.len() != pow2(p.spec_log_start_code_blocklength()) {
        Some(
            CodeswitchError::OracleLengthMismatch {
                expected: pow2(p.spec_log_start_code_blocklength()) as usize,
                found: input.oracle_word@.len() as usize,
            },
        )
    } else {
        None
    }
}

/// Checks the sizes of `input` against `params`; the error is that of the
/// first check that fails.
pub fn validate_input_shape<C: ErrorCorrectingCode>(params: &CodeswitchParameters<C>, input: &ReduceIorInput) -> (r:
    Result<(), CodeswitchError>)
    requires
        params.logs_fit(),
    ensures
        r is Ok <==> input_shape_error(*params, *input) is None,
        r is Err ==> input_shape_error(*params, *input) == Some(r->Err_0),
{
    let z1_num_variables = match params.z1_num_variables() {
        Some(v) => v,
        None => {
            return Err(
                CodeswitchError::InvalidLogSplit {
                    log_start_code_message: params.log_start_code_message(),
                    log_new_code_message: params.log_new_code_message(),
                },
            );
        },
    };
    let expected_interleaving = shl_one(z1_num_variables);
    if params.message_interleaving() != expected_interleaving {
        return Err(
            CodeswitchError::MessageInterleavingMismatch {
                expected: expected_interleaving,
                found: params.message_interleaving(),
            },
        );
    }
    let expected_new_code_message_len = params.new_code_message_len();
    let found_new_code_message_len = params.new_code().message_size();
    if found_new_code_message_len != expected_new_code_message_len {
        return Err(
            CodeswitchError::NewCodeMessageSizeMismatch {
                expected: expected_new_code_message_len,
                found: found_new_code_message_len,
            },
        );
    }
    let expected_witness_len = params.start_code_message_len();
    if input.witness_message.len() != expected_witness_len {
        return Err(
            CodeswitchError::WitnessLengthMismatch {
                expected: expected_witness_len,
                found: input.witness_message.len(),
            },
        );
    }
    if input.eval_point.len() != params.log_start_code_message() {
        return Err(
            CodeswitchError::EvalPointLengthMismatch {
                expected: params.log_start_code_message(),
                found: input.eval_point.len(),
            },
        );
    }
    let expected_oracle_len = params.start_code_blocklength();
    if input.oracle_word.len() != expected_oracle_len {
        return Err(
            CodeswitchError::OracleLengthMismatch { expected: expected_oracle_len, found: input.oracle_word.len() },
        );
    }
    Ok(())
}

/// Splits the evaluation point into the block selector `z_1` (its first
/// `log k - log k'` coordinates) and the in-block point `z_2` (the rest).
pub fn split_eval_point<C: ErrorCorrectingCode>(params: &CodeswitchParameters<C>, point: &[KoalaBear]) -> (r:
    Result<(Vec<KoalaBear>, Vec<KoalaBear>), CodeswitchError>)
    requires
        params.spec_log_new_code_message() <= params.spec_log_start_code_message() ==> params.spec_log_start_code_message()
            - params.spec_log_new_code_message() <= point@.len(),
    ensures
        r is Ok <==> params.spec_log_new_code_message() <= params.spec_log_start_code_message(),
        r is Ok ==> ({
            let d = params.spec_log_start_code_message() - params.spec_log_new_code_message();
            &&& r->Ok_0.0@ == point@.take(d)
            &&& r->Ok_0.1@ == point@.skip(d)
        }),
        r is Err ==> r->Err_0 == (CodeswitchError::InvalidLogSplit {
            log_start_code_message: params.spec_log_start_code_message() as usize,
            log_new_code_message: params.spec_log_new_code_message() as usize,
        }),
{
    let z1_num_variables = match params.z1_num_variables() {
        Some(v) => v,
        None => {
            return Err(
                CodeswitchError::InvalidLogSplit {
                    log_start_code_message: params.log_start_code_message(),
                    log_new_code_message: params.log_new_code_message(),
                },
            );
        },
    };
    let z1 = crate::copy_range(point, 0, z1_num_variables);
    let z2 = crate::copy_range(point, z1_num_variables, point.len());
    assert(z1@ =~= point@.take(z1_num_variables as int));
    assert(z2@ =~= point@.skip(z1_num_variables as int));
    Ok((z1, z2))
}


/// Per-block data of the first round.
#[derive(Debug, Clone)]
pub struct Round1Block {
    pub message: Vec<KoalaBear>,
    pub oracle_word: Vec<KoalaBear>,
    pub y_eval: KoalaBear,
    pub z_ood: Vec<KoalaBear>,
    pub y_ood: KoalaBear,
}

/// An inner-product claim on one oracle.
#[derive(Debug, Clone)]
pub struct IpClaim {
    pub oracle: OracleReference,
    pub vector: Vec<KoalaBear>,
    pub sigma: KoalaBear,
    pub witness: Vec<KoalaBear>,
}

/// A double-inner-product claim on two oracles.
#[derive(Debug, Clone)]
pub struct DipClaim {
    pub left_oracle: OracleReference,
    pub right_oracle: OracleReference,
    pub vector: Vec<KoalaBear>,
    pub sigma: KoalaBear,
    pub left_witness: Vec<KoalaBear>,
    pub right_witness: Vec<KoalaBear>,
}

/// The output of the code-switching claims: auxiliary oracles and claims on them.
#[derive(Debug, Clone)]
pub struct CodeswitchClaims {
    pub auxiliary_oracles: Vec<Vec<KoalaBear>>,
    pub ip_claims: Vec<IpClaim>,
    pub dip_claims: Vec<DipClaim>,
}

impl CodeswitchClaims {
    /// No auxiliary oracles and no claims.
    pub fn empty() -> (r: CodeswitchClaims)
        ensures
            r.auxiliary_oracles@.len() == 0,
            r.ip_claims@.len() == 0,
            r.dip_claims@.len() == 0,
    {
        CodeswitchClaims { auxiliary_oracles: Vec::new(), ip_claims: Vec::new(), dip_claims: Vec::new() }
    }
}

/// `n` field elements drawn from `rng`: a random point with `n` coordinates.
pub fn sample_random_point(rng: &mut rand::rngs::SmallRng, n: usize) -> (r: Vec<KoalaBear>)
    ensures
        r@.len() == n,
        all_wf(r@),
{
    let mut out: Vec<KoalaBear> = Vec::with_capacity(n);
    let mut i: usize = 0;
    while i < n
        invariant
            i <= n,
            out@.len() == i,
            all_wf(out@),
        decreases n - i,
    {
        out.push(KoalaBear::random(rng));
        i += 1;
    }
    out
}

/// Block `i` of `w`: the entries `i l .. (i + 1) l`.
pub open spec fn block_of(w: Seq<KoalaBear>, l: nat, i: int) -> Seq<KoalaBear> {
    w.subrange(i * l, (i + 1) * l)
}

/// `b` is the first-round data of the block `msg` at the in-block point `z2`,
/// encoded with `code`.
pub open spec fn is_round1_block<C: ErrorCorrectingCode>(
    b: Round1Block,
    msg: Seq<KoalaBear>,
    z2: Seq<KoalaBear>,
    code: C,
) -> bool {
    &&& b.message@ == msg
    &&& b.y_eval == mle_eval(msg, z2)
    &&& b.z_ood@.len() == z2.len()
    &&& all_wf(b.z_ood@)
    &&& b.y_ood == mle_eval(msg, b.z_ood@)
    &&& b.oracle_word@ == code.spec_encode(msg)
}

/// Cuts the witness into blocks of the new code's message length (a trailing
/// partial block is dropped) and, for each, evaluates it at `z2`, at a fresh
/// random point, and encodes it with the new code.
pub fn build_round1_blocks<C: ErrorCorrectingCode>(
    params: &CodeswitchParameters<C>,
    witness_message: &[KoalaBear],
    z2: &[KoalaBear],
    rng: &mut rand::rngs::SmallRng,
) -> (r: Vec<Round1Block>)
    requires
        params.spec_era_code().params_ok(),
        params.spec_log_new_code_message() < usize::BITS,
        z2@.len() == params.spec_log_new_code_message(),
        params.spec_new_code().spec_message_size() == pow2(params.spec_log_new_code_message()),
    ensures
        r@.len() == witness_message@.len() / pow2(params.spec_log_new_code_message()),
        forall|i: int|
            0 <= i < r@.len() ==> is_round1_block(
                #[trigger] r@[i],
                block_of(witness_message@, pow2(params.spec_log_new_code_message()), i),
                z2@,
                params.spec_new_code(),
            ),
{
    let l = params.new_code_message_len();
    let new_code = params.new_code();
    proof {
        vstd::arithmetic::power2::lemma_pow2_pos(params.spec_log_new_code_message());
    }
    let wlen = witness_message.len();
    let count = wlen / l;
    let mut blocks: Vec<Round1Block> = Vec::with_capacity(count);
    let mut i: usize = 0;
    while i < count
        invariant
            l == pow2(params.spec_log_new_code_message()),
            l > 0,
            count == witness_message@.len() as int / (l as int),
            wlen == witness_message@.len(),
            *new_code == params.spec_new_code(),
            new_code.inv(),
            new_code.spec_message_size() == l,
            z2@.len() == params.spec_log_new_code_message(),
            i <= count,
            blocks@.len() == i,
            forall|j: int|
                0 <= j < i ==> is_round1_block(#[trigger] blocks@[j], block_of(witness_message@, l as nat, j), z2@, *new_code),
        decreases count - i,
    {
        proof {
            vstd::arithmetic::div_mod::lemma_fundamental_div_mod(witness_message@.len() as int, l as int);
            assert((i + 1) * l <= witness_message@.len()) by (nonlinear_arith)
                requires
                    i < count,
                    count == witness_message@.len() as int / (l as int),
                    witness_message@.len() as int == l * (witness_message@.len() as int / l as int)
                        + witness_message@.len() as int % l as int,
                    witness_message@.len() as int % l as int >= 0,
            ;
            assert(i * l + l == (i + 1) * l) by (nonlinear_arith);
            assert(i * l + l <= wlen);
        }
        let start = i * l;
        let message = crate::copy_range(witness_message, start, start + l);
        assert(message@ == block_of(witness_message@, l as nat, i as int));
        let y_eval = crate::poly::evaluate_multilinear_table(message.as_slice(), z2);
        let z_ood = sample_random_point(rng, z2.len());
        let y_ood = crate::poly::evaluate_multilinear_table(message.as_slice(), z_ood.as_slice());
        let oracle_word = new_code.encode(message.as_slice());
        blocks.push(Round1Block { message, oracle_word, y_eval, z_ood, y_ood });
        i += 1;
    }
    blocks
}

/// The in-block evaluations `y_eval` of the blocks, in order.
pub open spec fn y_evals(blocks: Seq<Round1Block>) -> Seq<KoalaBear> {
    Seq::new(blocks.len(), |i: int| blocks[i].y_eval)
}

/// Checks `sum_b eq(z1, b) y_eval_b = eval_value`: the blocks must be as
/// many as the entries of `eq(z1, .)`, and the sum must match.
pub fn verify_eval_consistency(z1: &[KoalaBear], round1_blocks: &[Round1Block], eval_value: KoalaBear) -> (r: Result<
    (),
    CodeswitchError,
>)
    requires
        pow2(z1@.len() as nat) <= usize::MAX,
    ensures
        r is Ok <==> round1_blocks@.len() == pow2(z1@.len() as nat) && dot(eq_table(z1@), y_evals(round1_blocks@))
            == eval_value,
        r is Err ==> r->Err_0 == (if round1_blocks@.len() != pow2(z1@.len() as nat) {
            CodeswitchError::MessageInterleavingMismatch {
                expected: pow2(z1@.len() as nat) as usize,
                found: round1_blocks@.len() as usize,
            }
        } else {
            CodeswitchError::EvalConsistencyCheckFailed
        }),
{
    let eq_weights = crate::poly::eq_weights(z1);
    if eq_weights.len() != round1_blocks.len() {
        return Err(
            CodeswitchError::MessageInterleavingMismatch { expected: eq_weights.len(), found: round1_blocks.len() },
        );
    }
    let mut lhs = KoalaBear::zero();
    let mut i: usize = 0;
    let ghost h = hadamard(eq_weights@, y_evals(round1_blocks@));
    while i < eq_weights.len()
        invariant
            eq_weights@.len() == round1_blocks@.len(),
            h == hadamard(eq_weights@, y_evals(round1_blocks@)),
            i <= eq_weights@.len(),
            lhs == sum(h.take(i as int)),
        decreases eq_weights@.len() - i,
    {
        proof {
            lemma_sum_take_step(h, i as int);
        }
        lhs = lhs.add(eq_weights[i].mul(round1_blocks[i].y_eval));
        i += 1;
    }
    assert(h.take(i as int) =~= h);
    if lhs != eval_value {
        return Err(CodeswitchError::EvalConsistencyCheckFailed);
    }
    Ok(())
}


/// The first error that `check` finds among `items`, in order, or `None`.
pub open spec fn first_error<T>(items: Seq<T>, check: spec_fn(T) -> Option<CodeswitchError>) -> Option<
    CodeswitchError,
>
    decreases items.len(),
{
    if items.len() == 0 {
        None
    } else {
        let f = first_error(items.drop_last(), check);
        if f is Some {
            f
        } else {
            check(items.last())
        }
    }
}

proof fn lemma_first_error_step<T>(items: Seq<T>, check: spec_fn(T) -> Option<CodeswitchError>, i: int)
    requires
        0 <= i < items.len(),
    ensures
        first_error(items.take(i + 1), check) == (if first_error(items.take(i), check) is Some {
            first_error(items.take(i), check)
        } else {
            check(items[i])
        }),
{
    assert(items.take(i + 1).drop_last() =~= items.take(i));
}

proof fn lemma_first_error_prefix<T>(items: Seq<T>, check: spec_fn(T) -> Option<CodeswitchError>, k: int)
    requires
        0 <= k <= items.len(),
        first_error(items.take(k), check) is Some,
    ensures
        first_error(items, check) == first_error(items.take(k), check),
    decreases items.len() - k,
{
    if k < items.len() {
        lemma_first_error_step(items, check, k);
        lemma_first_error_prefix(items, check, k + 1);
    } else {
        assert(items.take(k) =~= items);
    }
}

/// An oracle of length `len` where `expected` is due.
pub open spec fn oracle_len_error(len: nat, expected: nat) -> Option<CodeswitchError> {
    if len != expected {
        Some(CodeswitchError::ClaimOracleLengthMismatch { expected: expected as usize, found: len as usize })
    } else {
        None
    }
}

/// A reference to no existing oracle.
pub open spec fn reference_error(r: OracleReference, nb: nat, na: nat) -> Option<CodeswitchError> {
    if refers_to_existing(r, nb, na) {
        None
    } else {
        Some(
            CodeswitchError::InvalidOracleReference {
                reference: r,
                message_block_count: nb as usize,
                auxiliary_count: na as usize,
            },
        )
    }
}

/// A claim vector of length `len` where `expected` is due.
pub open spec fn vector_len_error(len: nat, expected: nat) -> Option<CodeswitchError> {
    if len != expected {
        Some(CodeswitchError::ClaimVectorLengthMismatch { expected: expected as usize, found: len as usize })
    } else {
        None
    }
}

/// A claim witness of length `len` where `expected` is due.
pub open spec fn witness_len_error(len: nat, expected: nat) -> Option<CodeswitchError> {
    if len != expected {
        Some(CodeswitchError::ClaimWitnessLengthMismatch { expected: expected as usize, found: len as usize })
    } else {
        None
    }
}

/// The first of the checks on an inner-product claim that fails.
pub open spec fn ip_claim_error(c: IpClaim, nb: nat, na: nat, m: nat) -> Option<CodeswitchError> {
    if reference_error(c.oracle, nb, na) is Some {
        reference_error(c.oracle, nb, na)
    } else if vector_len_error(c.vector@.len(), m) is Some {
        vector_len_error(c.vector@.len(), m)
    } else {
        witness_len_error(c.witness@.len(), m)
    }
}

/// The first of the checks on a double-inner-product claim that fails.
pub open spec fn dip_claim_error(c: DipClaim, nb: nat, na: nat, m: nat) -> Option<CodeswitchError> {
    if reference_error(c.left_oracle, nb, na) is Some {
        reference_error(c.left_oracle, nb, na)
    } else if reference_error(c.right_oracle, nb, na) is Some {
        reference_error(c.right_oracle, nb, na)
    } else if vector_len_error(c.vector@.len(), m) is Some {
        vector_len_error(c.vector@.len(), m)
    } else if witness_len_error(c.left_witness@.len(), m) is Some {
        witness_len_error(c.left_witness@.len(), m)
    } else {
        witness_len_error(c.right_witness@.len(), m)
    }
}

pub open spec fn aux_check(o: nat) -> spec_fn(Vec<KoalaBear>) -> Option<CodeswitchError> {
    |v: Vec<KoalaBear>| oracle_len_error(v@.len(), o)
}

pub open spec fn block_check(o: nat) -> spec_fn(Round1Block) -> Option<CodeswitchError> {
    |b: Round1Block| oracle_len_error(b.oracle_word@.len(), o)
}

pub open spec fn ip_check(nb: nat, na: nat, m: nat) -> spec_fn(IpClaim) -> Option<CodeswitchError> {
    |c: IpClaim| ip_claim_error(c, nb, na, m)
}

pub open spec fn dip_check(nb: nat, na: nat, m: nat) -> spec_fn(DipClaim) -> Option<CodeswitchError> {
    |c: DipClaim| dip_claim_error(c, nb, na, m)
}

/// The first failing check on the claims, in order: the auxiliary oracles'
/// lengths, the block oracles' lengths, then each inner-product and each
/// double-inner-product claim (message length `m`, oracle length `o`).
pub open spec fn claims_error(blocks: Seq<Round1Block>, claims: CodeswitchClaims, m: nat, o: nat) -> Option<
    CodeswitchError,
> {
    let nb = blocks.len();
    let na = claims.auxiliary_oracles@.len();
    let aux = first_error(claims.auxiliary_oracles@, aux_check(o));
    let blk = first_error(blocks, block_check(o));
    let ip = first_error(claims.ip_claims@, ip_check(nb, na, m));
    let dip = first_error(claims.dip_claims@, dip_check(nb, na, m));
    if aux is Some {
        aux
    } else if blk is Some {
        blk
    } else if ip is Some {
        ip
    } else {
        dip
    }
}

/// The claims against the sizes of the new code and the available oracles.
pub fn validate_claims<C: ErrorCorrectingCode>(
    params: &CodeswitchParameters<C>,
    round1_blocks: &[Round1Block],
    claims: &CodeswitchClaims,
) -> (r: Result<(), CodeswitchError>)
    requires
        params.spec_log_new_code_message() < usize::BITS,
    ensures
        ({
            let e = claims_error(
                round1_blocks@,
                *claims,
                pow2(params.spec_log_new_code_message()),
                params.spec_new_code().spec_block_length(),
            );
            &&& r is Ok <==> e is None
            &&& r is Err ==> e == Some(r->Err_0)
        }),
{
    let expected_message_len = params.new_code_message_len();
    let expected_oracle_len = params.new_code_block_len();
    let nb = round1_blocks.len();
    let na = claims.auxiliary_oracles.len();
    let ghost m = expected_message_len as nat;
    let ghost o = expected_oracle_len as nat;
    let ghost aux = claims.auxiliary_oracles@;
    let ghost e = claims_error(round1_blocks@, *claims, m, o);

    let mut i: usize = 0;
    while i < na
        invariant
            na == aux.len(),
            aux == claims.auxiliary_oracles@,
            o == expected_oracle_len,
            expected_oracle_len == params.spec_new_code().spec_block_length(),
            expected_message_len == pow2(params.spec_log_new_code_message()),
            m == expected_message_len,
            i <= na,
            first_error(aux.take(i as int), aux_check(o)) is None,
        decreases na - i,
    {
        let len = claims.auxiliary_oracles[i].len();
        proof {
            lemma_first_error_step(aux, aux_check(o), i as int);
        }
        if len != expected_oracle_len {
            proof {
                lemma_first_error_prefix(aux, aux_check(o), i + 1);
            }
            return Err(CodeswitchError::ClaimOracleLengthMismatch { expected: expected_oracle_len, found: len });
        }
        i += 1;
    }
    assert(aux.take(na as int) =~= aux);

    let mut i: usize = 0;
    while i < nb
        invariant
            nb == round1_blocks@.len(),
            o == expected_oracle_len,
            expected_oracle_len == params.spec_new_code().spec_block_length(),
            expected_message_len == pow2(params.spec_log_new_code_message()),
            m == expected_message_len,
            aux == claims.auxiliary_oracles@,
            first_error(aux, aux_check(o)) is None,
            i <= nb,
            first_error(round1_blocks@.take(i as int), block_check(o)) is None,
        decreases nb - i,
    {
        let len = round1_blocks[i].oracle_word.len();
        proof {
            lemma_first_error_step(round1_blocks@, block_check(o), i as int);
        }
        if len != expected_oracle_len {
            proof {
                lemma_first_error_prefix(round1_blocks@, block_check(o), i + 1);
            }
            return Err(CodeswitchError::ClaimOracleLengthMismatch { expected: expected_oracle_len, found: len });
        }
        i += 1;
    }
    assert(round1_blocks@.take(nb as int) =~= round1_blocks@);

    let ghost ips = claims.ip_claims@;
    let n_ip = claims.ip_claims.len();
    let mut i: usize = 0;
    while i < n_ip
        invariant
            n_ip == ips.len(),
            ips == claims.ip_claims@,
            nb == round1_blocks@.len(),
            na == claims.auxiliary_oracles@.len(),
            m == expected_message_len,
            o == expected_oracle_len,
            expected_oracle_len == params.spec_new_code().spec_block_length(),
            expected_message_len == pow2(params.spec_log_new_code_message()),
            aux == claims.auxiliary_oracles@,
            first_error(aux, aux_check(o)) is None,
            first_error(round1_blocks@, block_check(o)) is None,
            i <= n_ip,
            first_error(ips.take(i as int), ip_check(nb as nat, na as nat, m)) is None,
        decreases n_ip - i,
    {
        let claim = &claims.ip_claims[i];
        proof {
            lemma_first_error_step(ips, ip_check(nb as nat, na as nat, m), i as int);
        }
        match validate_oracle_reference(claim.oracle, nb, na) {
            Ok(()) => {},
            Err(err) => {
                proof {
                    lemma_first_error_prefix(ips, ip_check(nb as nat, na as nat, m), i + 1);
                }
                return Err(err);
            },
        }
        if claim.vector.len() != expected_message_len {
            proof {
                lemma_first_error_prefix(ips, ip_check(nb as nat, na as nat, m), i + 1);
            }
            return Err(
                CodeswitchError::ClaimVectorLengthMismatch { expected: expected_message_len, found: claim.vector.len() },
            );
        }
        if claim.witness.len() != expected_message_len {
            proof {
                lemma_first_error_prefix(ips, ip_check(nb as nat, na as nat, m), i + 1);
            }
            return Err(
                CodeswitchError::ClaimWitnessLengthMismatch {
                    expected: expected_message_len,
                    found: claim.witness.len(),
                },
            );
        }
        i += 1;
    }
    assert(ips.take(n_ip as int) =~= ips);

    let ghost dips = claims.dip_claims@;
    let n_dip = claims.dip_claims.len();
    let mut i: usize = 0;
    while i < n_dip
        invariant
            n_dip == dips.len(),
            dips == claims.dip_claims@,
            nb == round1_blocks@.len(),
            na == claims.auxiliary_oracles@.len(),
            m == expected_message_len,
            o == expected_oracle_len,
            expected_oracle_len == params.spec_new_code().spec_block_length(),
            expected_message_len == pow2(params.spec_log_new_code_message()),
            aux == claims.auxiliary_oracles@,
            ips == claims.ip_claims@,
            first_error(aux, aux_check(o)) is None,
            first_error(round1_blocks@, block_check(o)) is None,
            first_error(ips, ip_check(nb as nat, na as nat, m)) is None,
            i <= n_dip,
            first_error(dips.take(i as int), dip_check(nb as nat, na as nat, m)) is None,
        decreases n_dip - i,
    {
        let claim = &claims.dip_claims[i];
        proof {
            lemma_first_error_step(dips, dip_check(nb as nat, na as nat, m), i as int);
        }
        match validate_oracle_reference(claim.left_oracle, nb, na) {
            Ok(()) => {},
            Err(err) => {
                proof {
                    lemma_first_error_prefix(dips, dip_check(nb as nat, na as nat, m), i + 1);
                }
                return Err(err);
            },
        }
        match validate_oracle_reference(claim.right_oracle, nb, na) {
            Ok(()) => {},
            Err(err) => {
                proof {
                    lemma_first_error_prefix(dips, dip_check(nb as nat, na as nat, m), i + 1);
                }
                return Err(err);
            },
        }
        if claim.vector.len() != expected_message_len {
            proof {
                lemma_first_error_prefix(dips, dip_check(nb as nat, na as nat, m), i + 1);
            }
            return Err(
                CodeswitchError::ClaimVectorLengthMismatch { expected: expected_message_len, found: claim.vector.len() },
            );
        }
        if claim.left_witness.len() != expected_message_len {
            proof {
                lemma_first_error_prefix(dips, dip_check(nb as nat, na as nat, m), i + 1);
            }
            return Err(
                CodeswitchError::ClaimWitnessLengthMismatch {
                    expected: expected_message_len,
                    found: claim.left_witness.len(),
                },
            );
        }
        if claim.right_witness.len() != expected_message_len {
            proof {
                lemma_first_error_prefix(dips, dip_check(nb as nat, na as nat, m), i + 1);
            }
            return Err(
                CodeswitchError::ClaimWitnessLengthMismatch {
                    expected: expected_message_len,
                    found: claim.right_witness.len(),
                },
            );
        }
        i += 1;
    }
    assert(dips.take(n_dip as int) =~= dips);
    Ok(())
}


/// A sampled spot check against the start-code oracle.
#[derive(Debug, Clone)]
pub struct SpotCheck {
    pub index: usize,
    pub value: KoalaBear,
}

/// Samples `num_spot_checks` positions of the start-code oracle and reads them.
pub fn sample_spot_checks<C: ErrorCorrectingCode>(
    params: &CodeswitchParameters<C>,
    oracle_word: &[KoalaBear],
    rng: &mut rand::rngs::SmallRng,
) -> (r: Vec<SpotCheck>)
    requires
        params.spec_log_start_code_blocklength() < usize::BITS,
        oracle_word@.len() == pow2(params.spec_log_start_code_blocklength()),
    ensures
        r@.len() == params.spec_num_spot_checks(),
        forall|i: int|
            0 <= i < r@.len() ==> (#[trigger] r@[i]).index < oracle_word@.len() && r@[i].value
                == oracle_word@[r@[i].index as int],
{
    let domain_size = params.start_code_blocklength();
    proof {
        vstd::arithmetic::power2::lemma_pow2_pos(params.spec_log_start_code_blocklength());
    }
    let n = params.num_spot_checks();
    let mut out: Vec<SpotCheck> = Vec::with_capacity(n);
    let mut i: usize = 0;
    while i < n
        invariant
            domain_size == oracle_word@.len(),
            domain_size > 0,
            i <= n,
            out@.len() == i,
            forall|j: int|
                0 <= j < i ==> (#[trigger] out@[j]).index < oracle_word@.len() && out@[j].value
                    == oracle_word@[out@[j].index as int],
        decreases n - i,
    {
        let index = crate::rng::random_index_below(rng, domain_size);
        out.push(SpotCheck { index, value: oracle_word[index] });
        i += 1;
    }
    out
}

/// `beta^(j + 1)`, by repeated multiplication starting from `beta`.
pub open spec fn beta_pow(beta: KoalaBear, j: nat) -> KoalaBear
    decreases j,
{
    if j == 0 {
        beta
    } else {
        beta_pow(beta, (j - 1) as nat).spec_mul(beta)
    }
}

/// The values that the sumcheck target combines: the in-block evaluations,
/// the out-of-domain evaluations, then the sums of the claims.
pub open spec fn sigma_values(blocks: Seq<Round1Block>, claims: CodeswitchClaims) -> Seq<KoalaBear> {
    Seq::new(blocks.len(), |i: int| blocks[i].y_eval) + Seq::new(blocks.len(), |i: int| blocks[i].y_ood) + Seq::new(
        claims.ip_claims@.len(),
        |i: int| claims.ip_claims@[i].sigma,
    ) + Seq::new(claims.dip_claims@.len(), |i: int| claims.dip_claims@[i].sigma)
}

/// `sum_j beta^(j + 1) v_j`.
pub open spec fn beta_combination(beta: KoalaBear, v: Seq<KoalaBear>) -> KoalaBear {
    sum(Seq::new(v.len(), |j: int| beta_pow(beta, j as nat).spec_mul(v[j])))
}

/// The sumcheck target: the values of [`sigma_values`] combined with the powers of `beta`.
pub fn compute_sigma(beta: KoalaBear, round1_blocks: &[Round1Block], claims: &CodeswitchClaims) -> (r: KoalaBear)
    ensures
        r == beta_combination(beta, sigma_values(round1_blocks@, *claims)),
{
    let ghost v = sigma_values(round1_blocks@, *claims);
    let ghost terms = Seq::new(v.len(), |j: int| beta_pow(beta, j as nat).spec_mul(v[j]));
    let nb = round1_blocks.len();
    let n_ip = claims.ip_claims.len();
    let n_dip = claims.dip_claims.len();
    let mut sigma = KoalaBear::zero();
    let mut beta_power = beta;
    let ghost mut j: int = 0;
    let mut i: usize = 0;
    while i < nb
        invariant
            nb == round1_blocks@.len(),
            v == sigma_values(round1_blocks@, *claims),
            terms == Seq::new(v.len(), |j: int| beta_pow(beta, j as nat).spec_mul(v[j])),
            i <= nb,
            j == i,
            j >= 0,
            beta_power == beta_pow(beta, j as nat),
            sigma == sum(terms.take(j)),
        decreases nb - i,
    {
        proof {
            lemma_sum_take_step(terms, j);
        }
        sigma = sigma.add(beta_power.mul(round1_blocks[i].y_eval));
        beta_power = beta_power.mul(beta);
        i += 1;
        proof {
            j = j + 1;
        }
    }
    let mut i: usize = 0;
    while i < nb
        invariant
            nb == round1_blocks@.len(),
            v == sigma_values(round1_blocks@, *claims),
            terms == Seq::new(v.len(), |j: int| beta_pow(beta, j as nat).spec_mul(v[j])),
            i <= nb,
            j == nb + i,
            j >= 0,
            beta_power == beta_pow(beta, j as nat),
            sigma == sum(terms.take(j)),
        decreases nb - i,
    {
        proof {
            lemma_sum_take_step(terms, j);
        }
        sigma = sigma.add(beta_power.mul(round1_blocks[i].y_ood));
        beta_power = beta_power.mul(beta);
        i += 1;
        proof {
            j = j + 1;
        }
    }
    let mut i: usize = 0;
    while i < n_ip
        invariant
            nb == round1_blocks@.len(),
            n_ip == claims.ip_claims@.len(),
            v == sigma_values(round1_blocks@, *claims),
            terms == Seq::new(v.len(), |j: int| beta_pow(beta, j as nat).spec_mul(v[j])),
            i <= n_ip,
            j == 2 * nb + i,
            j >= 0,
            beta_power == beta_pow(beta, j as nat),
            sigma == sum(terms.take(j)),
        decreases n_ip - i,
    {
        proof {
            lemma_sum_take_step(terms, j);
        }
        sigma = sigma.add(beta_power.mul(claims.ip_claims[i].sigma));
        beta_power = beta_power.mul(beta);
        i += 1;
        proof {
            j = j + 1;
        }
    }
    let mut i: usize = 0;
    while i < n_dip
        invariant
            nb == round1_blocks@.len(),
            n_ip == claims.ip_claims@.len(),
            n_dip == claims.dip_claims@.len(),
            v == sigma_values(round1_blocks@, *claims),
            terms == Seq::new(v.len(), |j: int| beta_pow(beta, j as nat).spec_mul(v[j])),
            i <= n_dip,
            j == 2 * nb + n_ip + i,
            j >= 0,
            beta_power == beta_pow(beta, j as nat),
            sigma == sum(terms.take(j)),
        decreases n_dip - i,
    {
        proof {
            lemma_sum_take_step(terms, j);
        }
        sigma = sigma.add(beta_power.mul(claims.dip_claims[i].sigma));
        beta_power = beta_power.mul(beta);
        i += 1;
        proof {
            j = j + 1;
        }
    }
    assert(terms.take(j) =~= terms);
    sigma
}


/// Claimed openings of all individual messages and witnesses at `r`.
#[derive(Debug, Clone)]
pub struct EvaluationOpenings {
    pub a_eval: Vec<KoalaBear>,
    pub a_ood: Vec<KoalaBear>,
    pub a_ip: Vec<KoalaBear>,
    pub a_dip_left: Vec<KoalaBear>,
    pub a_dip_right: Vec<KoalaBear>,
}

/// Every block message and claim witness is a table over `t` variables.
pub open spec fn tables_over(blocks: Seq<Round1Block>, claims: CodeswitchClaims, t: nat) -> bool {
    &&& forall|i: int| 0 <= i < blocks.len() ==> (#[trigger] blocks[i]).message@.len() == pow2(t)
    &&& forall|i: int| 0 <= i < claims.ip_claims@.len() ==> (#[trigger] claims.ip_claims@[i]).witness@.len() == pow2(t)
    &&& forall|i: int|
        0 <= i < claims.dip_claims@.len() ==> (#[trigger] claims.dip_claims@[i]).left_witness@.len() == pow2(t)
            && claims.dip_claims@[i].right_witness@.len() == pow2(t)
}

/// The openings at `r`: each block message and each claim witness evaluated there.
pub open spec fn openings_at(r: Seq<KoalaBear>, blocks: Seq<Round1Block>, claims: CodeswitchClaims) -> (
    Seq<KoalaBear>,
    Seq<KoalaBear>,
    Seq<KoalaBear>,
    Seq<KoalaBear>,
) {
    (
        Seq::new(blocks.len(), |i: int| mle_eval(blocks[i].message@, r)),
        Seq::new(claims.ip_claims@.len(), |i: int| mle_eval(claims.ip_claims@[i].witness@, r)),
        Seq::new(claims.dip_claims@.len(), |i: int| mle_eval(claims.dip_claims@[i].left_witness@, r)),
        Seq::new(claims.dip_claims@.len(), |i: int| mle_eval(claims.dip_claims@[i].right_witness@, r)),
    )
}

/// Evaluates every block message and claim witness at `r`; the out-of-domain
/// openings are those of the block messages again.
pub fn compute_openings_at_r(r: &[KoalaBear], round1_blocks: &[Round1Block], claims: &CodeswitchClaims) -> (o:
    EvaluationOpenings)
    requires
        tables_over(round1_blocks@, *claims, r@.len() as nat),
    ensures
        o.a_eval@ == openings_at(r@, round1_blocks@, *claims).0,
        o.a_ood@ == o.a_eval@,
        o.a_ip@ == openings_at(r@, round1_blocks@, *claims).1,
        o.a_dip_left@ == openings_at(r@, round1_blocks@, *claims).2,
        o.a_dip_right@ == openings_at(r@, round1_blocks@, *claims).3,
{
    let ghost want = openings_at(r@, round1_blocks@, *claims);
    let mut a_eval: Vec<KoalaBear> = Vec::new();
    let mut a_ood: Vec<KoalaBear> = Vec::new();
    let mut i: usize = 0;
    while i < round1_blocks.len()
        invariant
            tables_over(round1_blocks@, *claims, r@.len() as nat),
            want == openings_at(r@, round1_blocks@, *claims),
            i <= round1_blocks@.len(),
            a_eval@ == want.0.take(i as int),
            a_ood@ == want.0.take(i as int),
        decreases round1_blocks@.len() - i,
    {
        let v = crate::poly::evaluate_multilinear_table(round1_blocks[i].message.as_slice(), r);
        a_eval.push(v);
        a_ood.push(v);
        i += 1;
        assert(a_eval@ =~= want.0.take(i as int));
        assert(a_ood@ =~= want.0.take(i as int));
    }
    let mut a_ip: Vec<KoalaBear> = Vec::new();
    let mut i: usize = 0;
    while i < claims.ip_claims.len()
        invariant
            tables_over(round1_blocks@, *claims, r@.len() as nat),
            want == openings_at(r@, round1_blocks@, *claims),
            i <= claims.ip_claims@.len(),
            a_ip@ == want.1.take(i as int),
        decreases claims.ip_claims@.len() - i,
    {
        a_ip.push(crate::poly::evaluate_multilinear_table(claims.ip_claims[i].witness.as_slice(), r));
        i += 1;
        assert(a_ip@ =~= want.1.take(i as int));
    }
    let mut a_dip_left: Vec<KoalaBear> = Vec::new();
    let mut a_dip_right: Vec<KoalaBear> = Vec::new();
    let mut i: usize = 0;
    while i < claims.dip_claims.len()
        invariant
            tables_over(round1_blocks@, *claims, r@.len() as nat),
            want == openings_at(r@, round1_blocks@, *claims),
            i <= claims.dip_claims@.len(),
            a_dip_left@ == want.2.take(i as int),
            a_dip_right@ == want.3.take(i as int),
        decreases claims.dip_claims@.len() - i,
    {
        a_dip_left.push(crate::poly::evaluate_multilinear_table(claims.dip_claims[i].left_witness.as_slice(), r));
        a_dip_right.push(crate::poly::evaluate_multilinear_table(claims.dip_claims[i].right_witness.as_slice(), r));
        i += 1;
        assert(a_dip_left@ =~= want.2.take(i as int));
        assert(a_dip_right@ =~= want.3.take(i as int));
    }
    assert(a_eval@ =~= want.0);
    assert(a_ood@ =~= want.0);
    assert(a_ip@ =~= want.1);
    assert(a_dip_left@ =~= want.2);
    assert(a_dip_right@ =~= want.3);
    EvaluationOpenings { a_eval, a_ood, a_ip, a_dip_left, a_dip_right }
}

/// One factor `x y + (1 - x)(1 - y)` of the equality polynomial.
pub open spec fn eq_factor(x: KoalaBear, y: KoalaBear) -> KoalaBear {
    x.spec_mul(y).spec_add(fe(1).spec_sub(x).spec_mul(fe(1).spec_sub(y)))
}

/// The equality polynomial `eq(a, b) = prod_i (a_i b_i + (1 - a_i)(1 - b_i))`,
/// multiplied from the first coordinate on.
pub open spec fn eq_eval(a: Seq<KoalaBear>, b: Seq<KoalaBear>) -> KoalaBear
    decreases a.len(),
{
    if a.len() == 0 {
        fe(1)
    } else {
        eq_eval(a.drop_last(), b.drop_last()).spec_mul(eq_factor(a.last(), b.last()))
    }
}

/// Computes [`eq_eval`] of two points with the same number of coordinates.
pub fn eq_poly_outside(a: &[KoalaBear], b: &[KoalaBear]) -> (r: KoalaBear)
    requires
        a@.len() == b@.len(),
    ensures
        r == eq_eval(a@, b@),
{
    let one = KoalaBear::one();
    let mut acc = KoalaBear::one();
    let mut i: usize = 0;
    while i < a.len()
        invariant
            a@.len() == b@.len(),
            one == fe(1),
            i <= a@.len(),
            acc == eq_eval(a@.take(i as int), b@.take(i as int)),
        decreases a@.len() - i,
    {
        proof {
            assert(a@.take(i + 1).drop_last() =~= a@.take(i as int));
            assert(b@.take(i + 1).drop_last() =~= b@.take(i as int));
        }
        let x = a[i];
        let y = b[i];
        acc = acc.mul(x.mul(y).add(one.sub(x).mul(one.sub(y))));
        i += 1;
    }
    assert(a@.take(i as int) =~= a@);
    assert(b@.take(i as int) =~= b@);
    acc
}

/// The terms of the value at `r` of the batched polynomial: each opening
/// times its weight (`eq(z2, r)`, `eq(z_ood, r)` or the claim vector's value
/// at `r`), times the matching power of `beta`.
pub open spec fn y_r_terms(
    beta: KoalaBear,
    z2: Seq<KoalaBear>,
    r: Seq<KoalaBear>,
    blocks: Seq<Round1Block>,
    claims: CodeswitchClaims,
    o: EvaluationOpenings,
) -> Seq<KoalaBear> {
    let n1 = o.a_eval@.len();
    let n2 = o.a_ood@.len();
    let n3 = o.a_ip@.len();
    let n4 = o.a_dip_left@.len();
    let e = eq_eval(z2, r);
    Seq::new(n1, |i: int| beta_pow(beta, i as nat).spec_mul(o.a_eval@[i]).spec_mul(e)) + Seq::new(
        n2,
        |i: int| beta_pow(beta, (n1 + i) as nat).spec_mul(o.a_ood@[i]).spec_mul(eq_eval(blocks[i].z_ood@, r)),
    ) + Seq::new(
        n3,
        |i: int|
            beta_pow(beta, (n1 + n2 + i) as nat).spec_mul(o.a_ip@[i]).spec_mul(
                mle_eval(claims.ip_claims@[i].vector@, r),
            ),
    ) + Seq::new(
        n4,
        |i: int|
            beta_pow(beta, (n1 + n2 + n3 + i) as nat).spec_mul(o.a_dip_left@[i]).spec_mul(o.a_dip_right@[i]).spec_mul(
                mle_eval(claims.dip_claims@[i].vector@, r),
            ),
    )
}

/// The openings line up with the blocks and claims, and every point and
/// vector has the dimension of `r`.
pub open spec fn y_r_inputs_ok(
    z2: Seq<KoalaBear>,
    r: Seq<KoalaBear>,
    blocks: Seq<Round1Block>,
    claims: CodeswitchClaims,
    o: EvaluationOpenings,
) -> bool {
    &&& z2.len() == r.len()
    &&& o.a_ood@.len() == blocks.len()
    &&& o.a_ip@.len() == claims.ip_claims@.len()
    &&& o.a_dip_left@.len() == claims.dip_claims@.len()
    &&& o.a_dip_right@.len() == claims.dip_claims@.len()
    &&& forall|i: int| 0 <= i < blocks.len() ==> (#[trigger] blocks[i]).z_ood@.len() == r.len()
    &&& forall|i: int| 0 <= i < claims.ip_claims@.len() ==> (#[trigger] claims.ip_claims@[i]).vector@.len() == pow2(r.len())
    &&& forall|i: int|
        0 <= i < claims.dip_claims@.len() ==> (#[trigger] claims.dip_claims@[i]).vector@.len() == pow2(r.len())
}

/// The value at `r` of the batched polynomial, from the openings.
pub fn compute_y_r(
    beta: KoalaBear,
    z2: &[KoalaBear],
    r: &[KoalaBear],
    round1_blocks: &[Round1Block],
    claims: &CodeswitchClaims,
    openings: &EvaluationOpenings,
) -> (y: KoalaBear)
    requires
        y_r_inputs_ok(z2@, r@, round1_blocks@, *claims, *openings),
    ensures
        y == sum(y_r_terms(beta, z2@, r@, round1_blocks@, *claims, *openings)),
{
    let ghost terms = y_r_terms(beta, z2@, r@, round1_blocks@, *claims, *openings);
    let n1 = openings.a_eval.len();
    let n2 = openings.a_ood.len();
    let n3 = openings.a_ip.len();
    let n4 = openings.a_dip_left.len();
    let eq_z2_r = eq_poly_outside(z2, r);
    let mut y_r = KoalaBear::zero();
    let mut beta_power = beta;
    let ghost mut j: int = 0;
    let mut i: usize = 0;
    while i < n1
        invariant
            y_r_inputs_ok(z2@, r@, round1_blocks@, *claims, *openings),
            terms == y_r_terms(beta, z2@, r@, round1_blocks@, *claims, *openings),
            eq_z2_r == eq_eval(z2@, r@),
            n1 == openings.a_eval@.len(),
            i <= n1,
            j == i,
            beta_power == beta_pow(beta, j as nat),
            y_r == sum(terms.take(j)),
        decreases n1 - i,
    {
        proof {
            lemma_sum_take_step(terms, j);
        }
        y_r = y_r.add(beta_power.mul(openings.a_eval[i]).mul(eq_z2_r));
        beta_power = beta_power.mul(beta);
        i += 1;
        proof {
            j = j + 1;
        }
    }
    let mut i: usize = 0;
    while i < n2
        invariant
            y_r_inputs_ok(z2@, r@, round1_blocks@, *claims, *openings),
            terms == y_r_terms(beta, z2@, r@, round1_blocks@, *claims, *openings),
            n1 == openings.a_eval@.len(),
            n2 == openings.a_ood@.len(),
            i <= n2,
            j == n1 + i,
            beta_power == beta_pow(beta, j as nat),
            y_r == sum(terms.take(j)),
        decreases n2 - i,
    {
        proof {
            lemma_sum_take_step(terms, j);
        }
        let eq_ood_r = eq_poly_outside(round1_blocks[i].z_ood.as_slice(), r);
        y_r = y_r.add(beta_power.mul(openings.a_ood[i]).mul(eq_ood_r));
        beta_power = beta_power.mul(beta);
        i += 1;
        proof {
            j = j + 1;
        }
    }
    let mut i: usize = 0;
    while i < n3
        invariant
            y_r_inputs_ok(z2@, r@, round1_blocks@, *claims, *openings),
            terms == y_r_terms(beta, z2@, r@, round1_blocks@, *claims, *openings),
            n1 == openings.a_eval@.len(),
            n2 == openings.a_ood@.len(),
            n3 == openings.a_ip@.len(),
            i <= n3,
            j == n1 + n2 + i,
            beta_power == beta_pow(beta, j as nat),
            y_r == sum(terms.take(j)),
        decreases n3 - i,
    {
        proof {
            lemma_sum_take_step(terms, j);
        }
        let v_eval = crate::poly::evaluate_multilinear_table(claims.ip_claims[i].vector.as_slice(), r);
        y_r = y_r.add(beta_power.mul(openings.a_ip[i]).mul(v_eval));
        beta_power = beta_power.mul(beta);
        i += 1;
        proof {
            j = j + 1;
        }
    }
    let mut i: usize = 0;
    while i < n4
        invariant
            y_r_inputs_ok(z2@, r@, round1_blocks@, *claims, *openings),
            terms == y_r_terms(beta, z2@, r@, round1_blocks@, *claims, *openings),
            n1 == openings.a_eval@.len(),
            n2 == openings.a_ood@.len(),
            n3 == openings.a_ip@.len(),
            n4 == openings.a_dip_left@.len(),
            i <= n4,
            j == n1 + n2 + n3 + i,
            beta_power == beta_pow(beta, j as nat),
            y_r == sum(terms.take(j)),
        decreases n4 - i,
    {
        proof {
            lemma_sum_take_step(terms, j);
        }
        let v_eval = crate::poly::evaluate_multilinear_table(claims.dip_claims[i].vector.as_slice(), r);
        y_r = y_r.add(beta_power.mul(openings.a_dip_left[i]).mul(openings.a_dip_right[i]).mul(v_eval));
        beta_power = beta_power.mul(beta);
        i += 1;
        proof {
            j = j + 1;
        }
    }
    assert(terms.take(j) =~= terms);
    y_r
}

/// Recomputes the value at `r` from the openings and compares it with `y_r`.
pub fn ensure_opening_consistency(
    y_r: KoalaBear,
    beta: KoalaBear,
    z2: &[KoalaBear],
    r: &[KoalaBear],
    round1_blocks: &[Round1Block],
    claims: &CodeswitchClaims,
    openings: &EvaluationOpenings,
) -> (res: Result<(), CodeswitchError>)
    requires
        y_r_inputs_ok(z2@, r@, round1_blocks@, *claims, *openings),
    ensures
        res is Ok <==> y_r == sum(y_r_terms(beta, z2@, r@, round1_blocks@, *claims, *openings)),
        res is Err ==> res->Err_0 == CodeswitchError::OpeningConsistencyCheckFailed,
{
    let recomputed = compute_y_r(beta, z2, r, round1_blocks, claims, openings);
    if recomputed == y_r {
        Ok(())
    } else {
        Err(CodeswitchError::OpeningConsistencyCheckFailed)
    }
}


/// `base^e` by repeated multiplication.
pub fn pow_usize(base: KoalaBear, exponent: usize) -> (r: KoalaBear)
    ensures
        r == fpow(base, exponent as nat),
{
    let mut acc = KoalaBear::one();
    let mut i: usize = 0;
    while i < exponent
        invariant
            i <= exponent,
            acc == fpow(base, i as nat),
        decreases exponent - i,
    {
        acc = acc.mul(base);
        i += 1;
    }
    acc
}

/// Batching weight of the in-block opening of block `i`: `gamma^(i + 1)`.
pub open spec fn coeff_eval(g: KoalaBear, i: nat) -> KoalaBear {
    fpow(g, i + 1)
}

/// Batching weight of the out-of-domain opening of block `i`: `gamma^(l + i + 1)`.
pub open spec fn coeff_ood(g: KoalaBear, l: nat, i: nat) -> KoalaBear {
    fpow(g, l + i + 1)
}

/// Batching weight of inner-product claim `i`: `gamma^(2l + i + 1)`.
pub open spec fn coeff_ip(g: KoalaBear, l: nat, i: nat) -> KoalaBear {
    fpow(g, 2 * l + i + 1)
}

/// Batching weight of the left side of double claim `i`:
/// `gamma^(2l + n_ip + i + 1) gamma^(i + 1)`.
pub open spec fn coeff_dip_left(g: KoalaBear, l: nat, n_ip: nat, i: nat) -> KoalaBear {
    fpow(g, 2 * l + n_ip + i + 1).spec_mul(fpow(g, i + 1))
}

/// Batching weight of the right side of double claim `i`:
/// `gamma^(2l + n_ip + n_dip + i + 1) gamma^(i + 1)`.
pub open spec fn coeff_dip_right(g: KoalaBear, l: nat, n_ip: nat, n_dip: nat, i: nat) -> KoalaBear {
    fpow(g, 2 * l + n_ip + n_dip + i + 1).spec_mul(fpow(g, i + 1))
}

pub fn gamma_coeff_eval(gamma: KoalaBear, index: usize) -> (r: KoalaBear)
    requires
        index < usize::MAX,
    ensures
        r == coeff_eval(gamma, index as nat),
{
    pow_usize(gamma, index + 1)
}

pub fn gamma_coeff_ood(gamma: KoalaBear, l_msg: usize, index: usize) -> (r: KoalaBear)
    requires
        l_msg + index + 1 <= usize::MAX,
    ensures
        r == coeff_ood(gamma, l_msg as nat, index as nat),
{
    pow_usize(gamma, l_msg + index + 1)
}

pub fn gamma_coeff_ip(gamma: KoalaBear, l_msg: usize, index: usize) -> (r: KoalaBear)
    requires
        2 * l_msg + index + 1 <= usize::MAX,
    ensures
        r == coeff_ip(gamma, l_msg as nat, index as nat),
{
    pow_usize(gamma, (2 * l_msg) + index + 1)
}

pub fn gamma_coeff_dip_left(gamma: KoalaBear, l_msg: usize, num_ip: usize, index: usize) -> (r: KoalaBear)
    requires
        2 * l_msg + num_ip + index + 1 <= usize::MAX,
    ensures
        r == coeff_dip_left(gamma, l_msg as nat, num_ip as nat, index as nat),
{
    let base = pow_usize(gamma, (2 * l_msg) + num_ip + index + 1);
    let mix = pow_usize(gamma, index + 1);
    base.mul(mix)
}

pub fn gamma_coeff_dip_right(gamma: KoalaBear, l_msg: usize, num_ip: usize, num_dip: usize, index: usize) -> (r:
    KoalaBear)
    requires
        2 * l_msg + num_ip + num_dip + index + 1 <= usize::MAX,
    ensures
        r == coeff_dip_right(gamma, l_msg as nat, num_ip as nat, num_dip as nat, index as nat),
{
    let base = pow_usize(gamma, (2 * l_msg) + num_ip + num_dip + index + 1);
    let mix = pow_usize(gamma, index + 1);
    base.mul(mix)
}

/// `dst + scale src` over the common length of the two; the rest of `dst` is kept.
pub open spec fn scaled_add(dst: Seq<KoalaBear>, src: Seq<KoalaBear>, scale: KoalaBear) -> Seq<KoalaBear> {
    Seq::new(dst.len(), |j: int| if j < src.len() { dst[j].spec_add(src[j].spec_mul(scale)) } else { dst[j] })
}

/// In place `dst += scale * src`, over the common length.
pub fn add_scaled(dst: &mut Vec<KoalaBear>, src: &[KoalaBear], scale: KoalaBear)
    ensures
        final(dst)@ == scaled_add(old(dst)@, src@, scale),
{
    let ghost orig = dst@;
    let n = if dst.len() < src.len() { dst.len() } else { src.len() };
    let mut j: usize = 0;
    while j < n
        invariant
            n <= dst@.len(),
            n <= src@.len(),
            n == dst@.len() || n == src@.len(),
            dst@.len() == orig.len(),
            j <= n,
            forall|x: int| 0 <= x < j ==> #[trigger] dst@[x] == scaled_add(orig, src@, scale)[x],
            forall|x: int| j <= x < dst@.len() ==> #[trigger] dst@[x] == orig[x],
        decreases n - j,
    {
        let v = dst[j].add(src[j].mul(scale));
        dst.set(j, v);
        j += 1;
    }
    assert(dst@ =~= scaled_add(orig, src@, scale));
}

/// The words of the oracle that `reference` names.
pub open spec fn resolved(reference: OracleReference, blocks: Seq<Round1Block>, aux: Seq<Vec<KoalaBear>>) -> Seq<
    KoalaBear,
> {
    match reference {
        OracleReference::MessageBlock(i) => blocks[i as int].oracle_word@,
        OracleReference::Auxiliary(i) => aux[i as int]@,
    }
}

/// The oracle that `reference` names, if it exists.
pub fn resolve_oracle<'a>(
    reference: OracleReference,
    round1_blocks: &'a [Round1Block],
    auxiliary_oracles: &'a [Vec<KoalaBear>],
) -> (r: Option<&'a [KoalaBear]>)
    ensures
        r is Some <==> refers_to_existing(reference, round1_blocks@.len(), auxiliary_oracles@.len()),
        r is Some ==> r->0@ == resolved(reference, round1_blocks@, auxiliary_oracles@),
{
    match reference {
        OracleReference::MessageBlock(index) => {
            if index < round1_blocks.len() {
                Some(round1_blocks[index].oracle_word.as_slice())
            } else {
                None
            }
        },
        OracleReference::Auxiliary(index) => {
            if index < auxiliary_oracles.len() {
                Some(auxiliary_oracles[index].as_slice())
            } else {
                None
            }
        },
    }
}

/// The reduced claim: one multilinear evaluation claim on one oracle word.
#[derive(Debug, Clone)]
pub struct ReducedMepClaim {
    pub point: Vec<KoalaBear>,
    pub value: KoalaBear,
    pub oracle_word: Vec<KoalaBear>,
    pub witness_message: Vec<KoalaBear>,
}

/// `init` plus each `(coefficient, vector)` pair in turn, scaled and added.
pub open spec fn lin_comb(init: Seq<KoalaBear>, pairs: Seq<(KoalaBear, Seq<KoalaBear>)>) -> Seq<KoalaBear>
    decreases pairs.len(),
{
    if pairs.len() == 0 {
        init
    } else {
        scaled_add(lin_comb(init, pairs.drop_last()), pairs.last().1, pairs.last().0)
    }
}

/// Every oracle reference of the claims, in the order they are resolved.
pub open spec fn claim_references(claims: CodeswitchClaims) -> Seq<OracleReference> {
    Seq::new(claims.ip_claims@.len(), |i: int| claims.ip_claims@[i].oracle) + Seq::new(
        2 * claims.dip_claims@.len(),
        |k: int|
            if k % 2 == 0 {
                claims.dip_claims@[k / 2].left_oracle
            } else {
                claims.dip_claims@[k / 2].right_oracle
            },
    )
}

pub open spec fn reference_check(nb: nat, na: nat) -> spec_fn(OracleReference) -> Option<CodeswitchError> {
    |r: OracleReference| reference_error(r, nb, na)
}

/// The batched value: the openings with their weights, block by block (in-block,
/// then out-of-domain), then the inner-product claims, then the double claims
/// (left, then right).
pub open spec fn batch_value_terms(g: KoalaBear, l: nat, claims: CodeswitchClaims, o: EvaluationOpenings) -> Seq<
    KoalaBear,
> {
    let n_ip = claims.ip_claims@.len();
    let n_dip = claims.dip_claims@.len();
    Seq::new(
        2 * l,
        |k: int|
            if k % 2 == 0 {
                coeff_eval(g, (k / 2) as nat).spec_mul(o.a_eval@[k / 2])
            } else {
                coeff_ood(g, l, (k / 2) as nat).spec_mul(o.a_ood@[k / 2])
            },
    ) + Seq::new(n_ip, |i: int| coeff_ip(g, l, i as nat).spec_mul(o.a_ip@[i])) + Seq::new(
        2 * n_dip,
        |k: int|
            if k % 2 == 0 {
                coeff_dip_left(g, l, n_ip, (k / 2) as nat).spec_mul(o.a_dip_left@[k / 2])
            } else {
                coeff_dip_right(g, l, n_ip, n_dip, (k / 2) as nat).spec_mul(o.a_dip_right@[k / 2])
            },
    )
}

/// The oracle words combined, with the weights of [`batch_value_terms`].
pub open spec fn batch_oracle_pairs(g: KoalaBear, blocks: Seq<Round1Block>, claims: CodeswitchClaims) -> Seq<
    (KoalaBear, Seq<KoalaBear>),
> {
    let l = blocks.len();
    let n_ip = claims.ip_claims@.len();
    let n_dip = claims.dip_claims@.len();
    let aux = claims.auxiliary_oracles@;
    Seq::new(
        2 * l,
        |k: int|
            if k % 2 == 0 {
                (coeff_eval(g, (k / 2) as nat), blocks[k / 2].oracle_word@)
            } else {
                (coeff_ood(g, l, (k / 2) as nat), blocks[k / 2].oracle_word@)
            },
    ) + Seq::new(n_ip, |i: int| (coeff_ip(g, l, i as nat), resolved(claims.ip_claims@[i].oracle, blocks, aux)))
        + Seq::new(
        2 * n_dip,
        |k: int|
            if k % 2 == 0 {
                (
                    coeff_dip_left(g, l, n_ip, (k / 2) as nat),
                    resolved(claims.dip_claims@[k / 2].left_oracle, blocks, aux),
                )
            } else {
                (
                    coeff_dip_right(g, l, n_ip, n_dip, (k / 2) as nat),
                    resolved(claims.dip_claims@[k / 2].right_oracle, blocks, aux),
                )
            },
    )
}

/// The messages and witnesses combined, with the weights of [`batch_value_terms`].
pub open spec fn batch_witness_pairs(g: KoalaBear, blocks: Seq<Round1Block>, claims: CodeswitchClaims) -> Seq<
    (KoalaBear, Seq<KoalaBear>),
> {
    let l = blocks.len();
    let n_ip = claims.ip_claims@.len();
    let n_dip = claims.dip_claims@.len();
    Seq::new(
        2 * l,
        |k: int|
            if k % 2 == 0 {
                (coeff_eval(g, (k / 2) as nat), blocks[k / 2].message@)
            } else {
                (coeff_ood(g, l, (k / 2) as nat), blocks[k / 2].message@)
            },
    ) + Seq::new(n_ip, |i: int| (coeff_ip(g, l, i as nat), claims.ip_claims@[i].witness@)) + Seq::new(
        2 * n_dip,
        |k: int|
            if k % 2 == 0 {
                (coeff_dip_left(g, l, n_ip, (k / 2) as nat), claims.dip_claims@[k / 2].left_witness@)
            } else {
                (coeff_dip_right(g, l, n_ip, n_dip, (k / 2) as nat), claims.dip_claims@[k / 2].right_witness@)
            },
    )
}


/// `n` zeros.
pub open spec fn zero_seq(n: nat) -> Seq<KoalaBear> {
    Seq::new(n, |j: int| fe(0))
}

proof fn lemma_lin_comb_step(init: Seq<KoalaBear>, pairs: Seq<(KoalaBear, Seq<KoalaBear>)>, k: int)
    requires
        0 <= k < pairs.len(),
    ensures
        lin_comb(init, pairs.take(k + 1)) == scaled_add(lin_comb(init, pairs.take(k)), pairs[k].1, pairs[k].0),
{
    assert(pairs.take(k + 1).drop_last() =~= pairs.take(k));
}

/// Every exponent of the batching weights fits in a word.
pub open spec fn batch_sizes_fit(l: nat, n_ip: nat, n_dip: nat) -> bool {
    2 * l + n_ip + 2 * n_dip + 1 <= usize::MAX
}

/// Batches the blocks and claims at `r` with the powers of `gamma` into one
/// claim: the weighted sum of the openings, of the oracle words, and of the
/// messages and witnesses.  Refused with the first reference to a missing oracle.
pub fn batch_to_reduced_claim<C: ErrorCorrectingCode>(
    gamma: KoalaBear,
    params: &CodeswitchParameters<C>,
    r: &[KoalaBear],
    round1_blocks: &[Round1Block],
    claims: &CodeswitchClaims,
    openings: &EvaluationOpenings,
) -> (res: Result<ReducedMepClaim, CodeswitchError>)
    requires
        params.spec_log_new_code_message() < usize::BITS,
        openings.a_eval@.len() >= round1_blocks@.len(),
        openings.a_ood@.len() >= round1_blocks@.len(),
        openings.a_ip@.len() >= claims.ip_claims@.len(),
        openings.a_dip_left@.len() >= claims.dip_claims@.len(),
        openings.a_dip_right@.len() >= claims.dip_claims@.len(),
        batch_sizes_fit(round1_blocks@.len(), claims.ip_claims@.len(), claims.dip_claims@.len()),
    ensures
        ({
            let e = first_error(
                claim_references(*claims),
                reference_check(round1_blocks@.len(), claims.auxiliary_oracles@.len()),
            );
            &&& res is Ok <==> e is None
            &&& res is Err ==> e == Some(res->Err_0)
        }),
        res is Ok ==> ({
            let c = res->Ok_0;
            &&& c.point@ == r@
            &&& c.value == sum(batch_value_terms(gamma, round1_blocks@.len(), *claims, *openings))
            &&& c.oracle_word@ == lin_comb(
                zero_seq(params.spec_new_code().spec_block_length()),
                batch_oracle_pairs(gamma, round1_blocks@, *claims),
            )
            &&& c.witness_message@ == lin_comb(
                zero_seq(pow2(params.spec_log_new_code_message())),
                batch_witness_pairs(gamma, round1_blocks@, *claims),
            )
        }),
{
    let new_code_message_len = params.new_code_message_len();
    let new_code_block_len = params.new_code_block_len();
    let l_msg = round1_blocks.len();
    let num_ip = claims.ip_claims.len();
    let num_dip = claims.dip_claims.len();
    let na = claims.auxiliary_oracles.len();
    let ghost vt = batch_value_terms(gamma, l_msg as nat, *claims, *openings);
    let ghost op = batch_oracle_pairs(gamma, round1_blocks@, *claims);
    let ghost wp = batch_witness_pairs(gamma, round1_blocks@, *claims);
    let ghost refs = claim_references(*claims);
    let ghost chk = reference_check(l_msg as nat, na as nat);
    let ghost zo = zero_seq(new_code_block_len as nat);
    let ghost zw = zero_seq(new_code_message_len as nat);
    let mut y_prime = KoalaBear::zero();
    let mut oracle_prime = crate::codes::era::zeros(new_code_block_len);
    let mut witness_prime = crate::codes::era::zeros(new_code_message_len);
    assert(oracle_prime@ =~= zo);
    assert(witness_prime@ =~= zw);
    assert(vt.take(0) =~= Seq::<KoalaBear>::empty());
    assert(op.take(0) =~= Seq::<(KoalaBear, Seq<KoalaBear>)>::empty());
    assert(wp.take(0) =~= Seq::<(KoalaBear, Seq<KoalaBear>)>::empty());

    let mut i: usize = 0;
    while i < l_msg
        invariant
            l_msg == round1_blocks@.len(),
            num_ip == claims.ip_claims@.len(),
            num_dip == claims.dip_claims@.len(),
            openings.a_eval@.len() >= l_msg,
            openings.a_ood@.len() >= l_msg,
            batch_sizes_fit(l_msg as nat, num_ip as nat, num_dip as nat),
            vt == batch_value_terms(gamma, l_msg as nat, *claims, *openings),
            op == batch_oracle_pairs(gamma, round1_blocks@, *claims),
            wp == batch_witness_pairs(gamma, round1_blocks@, *claims),
            i <= l_msg,
            y_prime == sum(vt.take(2 * i)),
            oracle_prime@ == lin_comb(zo, op.take(2 * i)),
            witness_prime@ == lin_comb(zw, wp.take(2 * i)),
        decreases l_msg - i,
    {
        let block = &round1_blocks[i];
        let coeff_eval = gamma_coeff_eval(gamma, i);
        let coeff_ood = gamma_coeff_ood(gamma, l_msg, i);
        proof {
            lemma_sum_take_step(vt, 2 * i);
            lemma_sum_take_step(vt, 2 * i + 1);
            lemma_lin_comb_step(zo, op, 2 * i);
            lemma_lin_comb_step(zo, op, 2 * i + 1);
            lemma_lin_comb_step(zw, wp, 2 * i);
            lemma_lin_comb_step(zw, wp, 2 * i + 1);
            assert((2 * i) as int % 2 == 0 && (2 * i) as int / 2 == i);
            assert((2 * i + 1) as int % 2 == 1 && (2 * i + 1) as int / 2 == i);
        }
        y_prime = y_prime.add(coeff_eval.mul(openings.a_eval[i]));
        y_prime = y_prime.add(coeff_ood.mul(openings.a_ood[i]));
        add_scaled(&mut oracle_prime, block.oracle_word.as_slice(), coeff_eval);
        add_scaled(&mut oracle_prime, block.oracle_word.as_slice(), coeff_ood);
        add_scaled(&mut witness_prime, block.message.as_slice(), coeff_eval);
        add_scaled(&mut witness_prime, block.message.as_slice(), coeff_ood);
        i += 1;
    }

    let mut i: usize = 0;
    while i < num_ip
        invariant
            l_msg == round1_blocks@.len(),
            num_ip == claims.ip_claims@.len(),
            num_dip == claims.dip_claims@.len(),
            na == claims.auxiliary_oracles@.len(),
            openings.a_ip@.len() >= num_ip,
            batch_sizes_fit(l_msg as nat, num_ip as nat, num_dip as nat),
            vt == batch_value_terms(gamma, l_msg as nat, *claims, *openings),
            op == batch_oracle_pairs(gamma, round1_blocks@, *claims),
            wp == batch_witness_pairs(gamma, round1_blocks@, *claims),
            refs == claim_references(*claims),
            chk == reference_check(l_msg as nat, na as nat),
            i <= num_ip,
            y_prime == sum(vt.take(2 * l_msg + i)),
            oracle_prime@ == lin_comb(zo, op.take(2 * l_msg + i)),
            witness_prime@ == lin_comb(zw, wp.take(2 * l_msg + i)),
            first_error(refs.take(i as int), chk) is None,
        decreases num_ip - i,
    {
        let claim = &claims.ip_claims[i];
        let coeff = gamma_coeff_ip(gamma, l_msg, i);
        proof {
            lemma_sum_take_step(vt, 2 * l_msg + i);
            lemma_lin_comb_step(zo, op, 2 * l_msg + i);
            lemma_lin_comb_step(zw, wp, 2 * l_msg + i);
            lemma_first_error_step(refs, chk, i as int);
        }
        y_prime = y_prime.add(coeff.mul(openings.a_ip[i]));
        add_scaled(&mut witness_prime, claim.witness.as_slice(), coeff);
        match resolve_oracle(claim.oracle, round1_blocks, claims.auxiliary_oracles.as_slice()) {
            None => {
                proof {
                    lemma_first_error_prefix(refs, chk, i + 1);
                }
                return Err(
                    CodeswitchError::InvalidOracleReference {
                        reference: claim.oracle,
                        message_block_count: l_msg,
                        auxiliary_count: na,
                    },
                );
            },
            Some(oracle) => {
                add_scaled(&mut oracle_prime, oracle, coeff);
            },
        }
        i += 1;
    }

    let mut i: usize = 0;
    while i < num_dip
        invariant
            l_msg == round1_blocks@.len(),
            num_ip == claims.ip_claims@.len(),
            num_dip == claims.dip_claims@.len(),
            na == claims.auxiliary_oracles@.len(),
            openings.a_dip_left@.len() >= num_dip,
            openings.a_dip_right@.len() >= num_dip,
            batch_sizes_fit(l_msg as nat, num_ip as nat, num_dip as nat),
            vt == batch_value_terms(gamma, l_msg as nat, *claims, *openings),
            op == batch_oracle_pairs(gamma, round1_blocks@, *claims),
            wp == batch_witness_pairs(gamma, round1_blocks@, *claims),
            refs == claim_references(*claims),
            chk == reference_check(l_msg as nat, na as nat),
            i <= num_dip,
            y_prime == sum(vt.take(2 * l_msg + num_ip + 2 * i)),
            oracle_prime@ == lin_comb(zo, op.take(2 * l_msg + num_ip + 2 * i)),
            witness_prime@ == lin_comb(zw, wp.take(2 * l_msg + num_ip + 2 * i)),
            first_error(refs.take(num_ip + 2 * i), chk) is None,
        decreases num_dip - i,
    {
        let claim = &claims.dip_claims[i];
        let left_coeff = gamma_coeff_dip_left(gamma, l_msg, num_ip, i);
        let right_coeff = gamma_coeff_dip_right(gamma, l_msg, num_ip, num_dip, i);
        let ghost base = 2 * l_msg + num_ip + 2 * i;
        proof {
            lemma_sum_take_step(vt, base);
            lemma_sum_take_step(vt, base + 1);
            lemma_lin_comb_step(zo, op, base);
            lemma_lin_comb_step(zo, op, base + 1);
            lemma_lin_comb_step(zw, wp, base);
            lemma_lin_comb_step(zw, wp, base + 1);
            lemma_first_error_step(refs, chk, num_ip + 2 * i);
            lemma_first_error_step(refs, chk, num_ip + 2 * i + 1);
            assert((2 * i) as int % 2 == 0 && (2 * i) as int / 2 == i);
            assert((2 * i + 1) as int % 2 == 1 && (2 * i + 1) as int / 2 == i);
        }
        y_prime = y_prime.add(left_coeff.mul(openings.a_dip_left[i]));
        y_prime = y_prime.add(right_coeff.mul(openings.a_dip_right[i]));
        add_scaled(&mut witness_prime, claim.left_witness.as_slice(), left_coeff);
        add_scaled(&mut witness_prime, claim.right_witness.as_slice(), right_coeff);
        let left_oracle = match resolve_oracle(claim.left_oracle, round1_blocks, claims.auxiliary_oracles.as_slice()) {
            None => {
                proof {
                    lemma_first_error_prefix(refs, chk, num_ip + 2 * i + 1);
                }
                return Err(
                    CodeswitchError::InvalidOracleReference {
                        reference: claim.left_oracle,
                        message_block_count: l_msg,
                        auxiliary_count: na,
                    },
                );
            },
            Some(o) => o,
        };
        let right_oracle = match resolve_oracle(claim.right_oracle, round1_blocks, claims.auxiliary_oracles.as_slice()) {
            None => {
                proof {
                    lemma_first_error_prefix(refs, chk, num_ip + 2 * i + 2);
                }
                return Err(
                    CodeswitchError::InvalidOracleReference {
                        reference: claim.right_oracle,
                        message_block_count: l_msg,
                        auxiliary_count: na,
                    },
                );
            },
            Some(o) => o,
        };
        add_scaled(&mut oracle_prime, left_oracle, left_coeff);
        add_scaled(&mut oracle_prime, right_oracle, right_coeff);
        i += 1;
    }
    assert(vt.take(vt.len() as int) =~= vt);
    assert(op.take(op.len() as int) =~= op);
    assert(wp.take(wp.len() as int) =~= wp);
    assert(refs.take(refs.len() as int) =~= refs);
    let point = crate::copy_range(r, 0, r.len());
    assert(point@ =~= r@);
    Ok(ReducedMepClaim { point, value: y_prime, oracle_word: oracle_prime, witness_message: witness_prime })
}


proof fn lemma_first_error_none<T>(items: Seq<T>, check: spec_fn(T) -> Option<CodeswitchError>)
    ensures
        first_error(items, check) is None <==> forall|i: int| 0 <= i < items.len() ==> (#[trigger] check(items[i])) is None,
    decreases items.len(),
{
    if items.len() > 0 {
        lemma_first_error_none(items.drop_last(), check);
        if first_error(items, check) is None {
            assert forall|i: int| 0 <= i < items.len() implies (#[trigger] check(items[i])) is None by {
                if i < items.len() - 1 {
                    assert(items.drop_last()[i] == items[i]);
                }
            }
        } else {
            if first_error(items.drop_last(), check) is Some {
                let i = choose|i: int| 0 <= i < items.drop_last().len() && (#[trigger] check(items.drop_last()[i])) is Some;
                assert(items[i] == items.drop_last()[i]);
            }
        }
    }
}

/// The checks on the claims other than those on the block oracles' lengths,
/// for `nb` blocks.
pub open spec fn claims_error_given(nb: nat, claims: CodeswitchClaims, m: nat, o: nat) -> Option<CodeswitchError> {
    let na = claims.auxiliary_oracles@.len();
    let aux = first_error(claims.auxiliary_oracles@, aux_check(o));
    let ip = first_error(claims.ip_claims@, ip_check(nb, na, m));
    let dip = first_error(claims.dip_claims@, dip_check(nb, na, m));
    if aux is Some {
        aux
    } else if ip is Some {
        ip
    } else {
        dip
    }
}

/// The in-block evaluations `H_b(z_2)` of the `count` blocks of length `l` of `w`.
pub open spec fn block_evals(w: Seq<KoalaBear>, l: nat, count: nat, z2: Seq<KoalaBear>) -> Seq<KoalaBear> {
    Seq::new(count, |i: int| mle_eval(block_of(w, l, i), z2))
}

/// The evaluation claim holds blockwise: `sum_b eq(z_1, b) H_b(z_2) = eval_value`.
pub open spec fn eval_claim_holds<C: ErrorCorrectingCode>(p: CodeswitchParameters<C>, input: ReduceIorInput) -> bool {
    let d = (p.spec_log_start_code_message() - p.spec_log_new_code_message()) as nat;
    let z1 = input.eval_point@.take(d as int);
    let z2 = input.eval_point@.skip(d as int);
    dot(eq_table(z1), block_evals(input.witness_message@, pow2(p.spec_log_new_code_message()), pow2(d), z2))
        == input.eval_value
}

/// Why the scaffold refuses `input` and `claims`, if it does: the first failing
/// shape check, then the evaluation claim, then the checks on the claims.
pub open spec fn scaffold_error<C: ErrorCorrectingCode>(
    p: CodeswitchParameters<C>,
    input: ReduceIorInput,
    claims: CodeswitchClaims,
) -> Option<CodeswitchError> {
    let d = (p.spec_log_start_code_message() - p.spec_log_new_code_message()) as nat;
    if input_shape_error(p, input) is Some {
        input_shape_error(p, input)
    } else if !eval_claim_holds(p, input) {
        Some(CodeswitchError::EvalConsistencyCheckFailed)
    } else {
        claims_error_given(
            pow2(d),
            claims,
            pow2(p.spec_log_new_code_message()),
            p.spec_new_code().spec_block_length(),
        )
    }
}

/// The sumcheck part of the scaffold: the target, the point and its value.
#[derive(Debug, Clone)]
pub struct SumcheckScaffold {
    pub beta: KoalaBear,
    pub sigma: KoalaBear,
    pub r: Vec<KoalaBear>,
    pub y_r: KoalaBear,
}

/// Everything the scaffold produces.
#[derive(Debug, Clone)]
pub struct ReduceIorScaffoldOutput {
    pub z1: Vec<KoalaBear>,
    pub z2: Vec<KoalaBear>,
    pub round1_blocks: Vec<Round1Block>,
    pub spot_checks: Vec<SpotCheck>,
    pub claims: CodeswitchClaims,
    pub sumcheck: SumcheckScaffold,
    pub openings: EvaluationOpenings,
    pub gamma: KoalaBear,
    pub reduced_claim: ReducedMepClaim,
}

/// What holds of an output of the scaffold on `input` and `claims`, whatever
/// the random draws were.
pub open spec fn scaffold_output_ok<C: ErrorCorrectingCode>(
    p: CodeswitchParameters<C>,
    input: ReduceIorInput,
    claims: CodeswitchClaims,
    out: ReduceIorScaffoldOutput,
) -> bool {
    let d = (p.spec_log_start_code_message() - p.spec_log_new_code_message()) as nat;
    let l = pow2(p.spec_log_new_code_message());
    let blocks = out.round1_blocks@;
    let sc = out.sumcheck;
    &&& out.z1@ == input.eval_point@.take(d as int)
    &&& out.z2@ == input.eval_point@.skip(d as int)
    &&& blocks.len() == pow2(d)
    &&& forall|i: int|
        0 <= i < blocks.len() ==> is_round1_block(
            #[trigger] blocks[i],
            block_of(input.witness_message@, l, i),
            out.z2@,
            p.spec_new_code(),
        )
    &&& out.spot_checks@.len() == p.spec_num_spot_checks()
    &&& forall|i: int|
        0 <= i < out.spot_checks@.len() ==> (#[trigger] out.spot_checks@[i]).index < input.oracle_word@.len()
            && out.spot_checks@[i].value == input.oracle_word@[out.spot_checks@[i].index as int]
    &&& out.claims == claims
    &&& sc.sigma == beta_combination(sc.beta, sigma_values(blocks, claims))
    &&& sc.r@.len() == p.spec_log_new_code_message()
    &&& all_wf(sc.r@)
    &&& out.openings.a_eval@ == openings_at(sc.r@, blocks, claims).0
    &&& out.openings.a_ood@ == out.openings.a_eval@
    &&& out.openings.a_ip@ == openings_at(sc.r@, blocks, claims).1
    &&& out.openings.a_dip_left@ == openings_at(sc.r@, blocks, claims).2
    &&& out.openings.a_dip_right@ == openings_at(sc.r@, blocks, claims).3
    &&& sc.y_r == sum(y_r_terms(sc.beta, out.z2@, sc.r@, blocks, claims, out.openings))
    &&& out.reduced_claim.point@ == sc.r@
    &&& out.reduced_claim.value == sum(batch_value_terms(out.gamma, blocks.len(), claims, out.openings))
    &&& out.reduced_claim.oracle_word@ == lin_comb(
        zero_seq(p.spec_new_code().spec_block_length()),
        batch_oracle_pairs(out.gamma, blocks, claims),
    )
    &&& out.reduced_claim.witness_message@ == lin_comb(zero_seq(l), batch_witness_pairs(out.gamma, blocks, claims))
}


/// With every block oracle of length `o`, the checks on the claims are those
/// of [`claims_error_given`].
proof fn lemma_claims_error_given(blocks: Seq<Round1Block>, claims: CodeswitchClaims, m: nat, o: nat)
    requires
        forall|i: int| 0 <= i < blocks.len() ==> (#[trigger] blocks[i]).oracle_word@.len() == o,
    ensures
        claims_error(blocks, claims, m, o) == claims_error_given(blocks.len(), claims, m, o),
{
    lemma_first_error_none(blocks, block_check(o));
    assert forall|i: int| 0 <= i < blocks.len() implies (#[trigger] block_check(o)(blocks[i])) is None by {}
}

/// When the claims pass their checks, every witness and vector has length `m`
/// and every reference names an existing oracle.
proof fn lemma_claims_ok_facts(nb: nat, claims: CodeswitchClaims, m: nat, o: nat)
    requires
        claims_error_given(nb, claims, m, o) is None,
    ensures
        forall|i: int|
            0 <= i < claims.ip_claims@.len() ==> (#[trigger] claims.ip_claims@[i]).witness@.len() == m
                && claims.ip_claims@[i].vector@.len() == m,
        forall|i: int|
            0 <= i < claims.dip_claims@.len() ==> (#[trigger] claims.dip_claims@[i]).left_witness@.len() == m
                && claims.dip_claims@[i].right_witness@.len() == m && claims.dip_claims@[i].vector@.len() == m,
        first_error(claim_references(claims), reference_check(nb, claims.auxiliary_oracles@.len())) is None,
{
    let na = claims.auxiliary_oracles@.len();
    lemma_first_error_none(claims.ip_claims@, ip_check(nb, na, m));
    lemma_first_error_none(claims.dip_claims@, dip_check(nb, na, m));
    assert forall|i: int| 0 <= i < claims.ip_claims@.len() implies (#[trigger] claims.ip_claims@[i]).witness@.len()
        == m && claims.ip_claims@[i].vector@.len() == m by {
        assert(ip_check(nb, na, m)(claims.ip_claims@[i]) is None);
    }
    assert forall|i: int| 0 <= i < claims.dip_claims@.len() implies (#[trigger] claims.dip_claims@[i]).left_witness@.len()
        == m && claims.dip_claims@[i].right_witness@.len() == m && claims.dip_claims@[i].vector@.len() == m by {
        assert(dip_check(nb, na, m)(claims.dip_claims@[i]) is None);
    }
    let refs = claim_references(claims);
    let n_ip = claims.ip_claims@.len();
    assert forall|k: int| 0 <= k < refs.len() implies (#[trigger] reference_check(nb, na)(refs[k])) is None by {
        if k < n_ip {
            assert(ip_check(nb, na, m)(claims.ip_claims@[k]) is None);
        } else {
            let i = (k - n_ip) / 2;
            assert(dip_check(nb, na, m)(claims.dip_claims@[i]) is None);
        }
    }
    lemma_first_error_none(refs, reference_check(nb, na));
}

/// Runs the scaffold: checks the input's shape, splits the point, builds the
/// first-round blocks, checks the evaluation claim and the claims, samples
/// spot checks, forms the sumcheck target, opens everything at a random point
/// `r`, and batches it all into one reduced claim.
pub fn run_reduce_ior_scaffold<C: ErrorCorrectingCode>(
    params: &CodeswitchParameters<C>,
    input: ReduceIorInput,
    claims: CodeswitchClaims,
    rng: &mut rand::rngs::SmallRng,
) -> (res: Result<ReduceIorScaffoldOutput, CodeswitchError>)
    requires
        params.logs_fit(),
        params.spec_era_code().params_ok(),
        batch_sizes_fit(params.spec_message_interleaving(), claims.ip_claims@.len(), claims.dip_claims@.len()),
    ensures
        res is Ok <==> scaffold_error(*params, input, claims) is None,
        res is Err ==> scaffold_error(*params, input, claims) == Some(res->Err_0),
        res is Ok ==> scaffold_output_ok(*params, input, claims, res->Ok_0),
{
    match validate_input_shape(params, &input) {
        Ok(()) => {},
        Err(e) => {
            return Err(e);
        },
    }
    let ghost d = (params.spec_log_start_code_message() - params.spec_log_new_code_message()) as nat;
    let ghost l = pow2(params.spec_log_new_code_message());
    let ghost m = l;
    let ghost o = params.spec_new_code().spec_block_length();
    let (z1, z2) = match split_eval_point(params, input.eval_point.as_slice()) {
        Ok(pair) => pair,
        Err(e) => {
            return Err(e);
        },
    };
    proof {
        vstd::arithmetic::power2::lemma_pow2_adds(d, params.spec_log_new_code_message());
        vstd::arithmetic::power2::lemma_pow2_pos(params.spec_log_new_code_message());
        vstd::arithmetic::power2::lemma_pow2_pos(d);
        vstd::arithmetic::div_mod::lemma_div_multiples_vanish(pow2(d) as int, l as int);
        assert(d + params.spec_log_new_code_message() == params.spec_log_start_code_message());
        assert(input.witness_message@.len() == pow2(d) * l);
        assert(input.witness_message@.len() as int / (l as int) == pow2(d)) by {
            assert(pow2(d) * l == l * pow2(d)) by (nonlinear_arith);
        }
        vstd::bits::lemma_usize_pow2_no_overflow(d);
    }
    let round1_blocks = build_round1_blocks(params, input.witness_message.as_slice(), z2.as_slice(), rng);
    proof {
        assert(y_evals(round1_blocks@) =~= block_evals(input.witness_message@, l, pow2(d), z2@));
    }
    match verify_eval_consistency(z1.as_slice(), round1_blocks.as_slice(), input.eval_value) {
        Ok(()) => {},
        Err(e) => {
            return Err(e);
        },
    }
    proof {
        let new_code = params.spec_new_code();
        assert forall|i: int| 0 <= i < round1_blocks@.len() implies (#[trigger] round1_blocks@[i]).oracle_word@.len()
            == o by {
            let blk = block_of(input.witness_message@, l, i);
            assert(is_round1_block(round1_blocks@[i], blk, z2@, new_code));
            assert((i + 1) * l <= pow2(d) * l && 0 <= i * l) by (nonlinear_arith)
                requires
                    0 <= i < pow2(d),
            ;
            assert((i + 1) * l == i * l + l) by (nonlinear_arith);
            assert(blk.len() == l);
            new_code.lemma_encode_len(blk);
        }
        lemma_claims_error_given(round1_blocks@, claims, m, o);
    }
    match validate_claims(params, round1_blocks.as_slice(), &claims) {
        Ok(()) => {},
        Err(e) => {
            return Err(e);
        },
    }
    proof {
        lemma_claims_ok_facts(round1_blocks@.len(), claims, m, o);
    }
    let spot_checks = sample_spot_checks(params, input.oracle_word.as_slice(), rng);
    let beta = KoalaBear::random(rng);
    let sigma = compute_sigma(beta, round1_blocks.as_slice(), &claims);
    let r = sample_random_point(rng, params.log_new_code_message());
    proof {
        assert forall|i: int| 0 <= i < round1_blocks@.len() implies (#[trigger] round1_blocks@[i]).message@.len() == pow2(
            r@.len() as nat,
        ) by {
            assert(is_round1_block(round1_blocks@[i], block_of(input.witness_message@, l, i), z2@, params.spec_new_code()));
            assert((i + 1) * l <= pow2(d) * l && 0 <= i * l) by (nonlinear_arith)
                requires
                    0 <= i < pow2(d),
            ;
            assert((i + 1) * l == i * l + l) by (nonlinear_arith);
        }
    }
    let openings = compute_openings_at_r(r.as_slice(), round1_blocks.as_slice(), &claims);
    proof {
        assert forall|i: int| 0 <= i < round1_blocks@.len() implies (#[trigger] round1_blocks@[i]).z_ood@.len() == r@.len() by {
            assert(is_round1_block(round1_blocks@[i], block_of(input.witness_message@, l, i), z2@, params.spec_new_code()));
        }
    }
    let y_r = compute_y_r(beta, z2.as_slice(), r.as_slice(), round1_blocks.as_slice(), &claims, &openings);
    match ensure_opening_consistency(y_r, beta, z2.as_slice(), r.as_slice(), round1_blocks.as_slice(), &claims, &openings) {
        Ok(()) => {},
        Err(e) => {
            return Err(e);
        },
    }
    let gamma = KoalaBear::random(rng);
    let reduced_claim = match batch_to_reduced_claim(
        gamma,
        params,
        r.as_slice(),
        round1_blocks.as_slice(),
        &claims,
        &openings,
    ) {
        Ok(c) => c,
        Err(e) => {
            return Err(e);
        },
    };
    let sumcheck = SumcheckScaffold { beta, sigma, r, y_r };
    Ok(
        ReduceIorScaffoldOutput {
            z1,
            z2,
            round1_blocks,
            spot_checks,
            claims,
            sumcheck,
            openings,
            gamma,
            reduced_claim,
        },
    )
}


/// Calls `rand::SeedableRng::seed_from_u64` for a `SmallRng`.  Nothing is
/// stated of the generator it returns.
#[verifier::external_body]
fn seeded_small_rng(seed: u64) -> rand::rngs::SmallRng {
    rand::SeedableRng::seed_from_u64(seed)
}

/// There are no auxiliary oracles and no claims.
pub open spec fn no_claims(c: CodeswitchClaims) -> bool {
    c.auxiliary_oracles@.len() == 0 && c.ip_claims@.len() == 0 && c.dip_claims@.len() == 0
}

/// Runs the scaffold with no code-switching claims, drawing its randomness
/// from a generator seeded with a fixed constant.
pub fn codeswitch<C: ErrorCorrectingCode>(params: &CodeswitchParameters<C>, input: ReduceIorInput) -> (res: Result<
    ReduceIorScaffoldOutput,
    CodeswitchError,
>)
    requires
        params.logs_fit(),
        params.spec_era_code().params_ok(),
        batch_sizes_fit(params.spec_message_interleaving(), 0, 0),
    ensures
        res is Ok <==> input_shape_error(*params, input) is None && eval_claim_holds(*params, input),
        res is Err ==> (if input_shape_error(*params, input) is Some {
            input_shape_error(*params, input) == Some(res->Err_0)
        } else {
            res->Err_0 == CodeswitchError::EvalConsistencyCheckFailed
        }),
        res is Ok ==> no_claims(res->Ok_0.claims) && scaffold_output_ok(*params, input, res->Ok_0.claims, res->Ok_0),
        all_wf(input.witness_message@) && all_wf(input.eval_point@) ==> (res is Ok <==> input_shape_error(*params, input)
            is None && input.eval_value == mle_eval(input.witness_message@, input.eval_point@)),
{
    proof {
        if all_wf(input.witness_message@) && all_wf(input.eval_point@) && input_shape_error(*params, input) is None {
            lemma_eval_claim_is_evaluation(*params, input);
        }
    }
    let mut rng = seeded_small_rng(0xC0DE_CAFE);
    let claims = CodeswitchClaims::empty();
    let ghost c = claims;
    proof {
        let d = (params.spec_log_start_code_message() - params.spec_log_new_code_message()) as nat;
        assert(claims_error_given(
            pow2(d),
            c,
            pow2(params.spec_log_new_code_message()),
            params.spec_new_code().spec_block_length(),
        ) is None);
    }
    run_reduce_ior_scaffold(params, input, claims, &mut rng)
}


/// Evaluating blockwise: the `2^d` blocks of `w`, each evaluated at `z_2`,
/// weighted by `eq(z_1, .)`, sum to the evaluation of `w` at `z = z_1 z_2`.
pub proof fn lemma_blockwise_evaluation(w: Seq<KoalaBear>, z: Seq<KoalaBear>, d: nat)
    requires
        d <= z.len(),
        w.len() == pow2(z.len()),
        all_wf(w),
        all_wf(z),
    ensures
        dot(eq_table(z.take(d as int)), block_evals(w, pow2((z.len() - d) as nat), pow2(d), z.skip(d as int)))
            == mle_eval(w, z),
{
    let k = z.len();
    let z1 = z.take(d as int);
    let z2 = z.skip(d as int);
    let rr = pow2(d);
    let ss = pow2((k - d) as nat);
    vstd::arithmetic::power2::lemma_pow2_adds(d, (k - d) as nat);
    vstd::arithmetic::power2::lemma_pow2_pos((k - d) as nat);
    assert(z1 + z2 =~= z);
    lemma_eq_eval(w, z);
    let e1 = eq_table(z1);
    let e2 = eq_table(z2);
    let e = eq_table(z);
    lemma_eq_len(z1);
    lemma_eq_len(z2);
    lemma_eq_len(z);
    assert(all_wf(z2));
    // The left side of the claim over the integers.
    let g = |x: int| e1[x / (ss as int)].v() * e2[x % (ss as int)].v() * w[x].v();
    assert forall|x: int| 0 <= x < e.len() implies #[trigger] hadamard(e, w)[x] == fe(g(x)) by {
        lemma_grid_coords(x, ss as int, rr as int);
        let r = x / (ss as int);
        let c = x % (ss as int);
        lemma_eq_tensor(z1, z2, r, c);
        lemma_mul_l(e1[r].v() * e2[c].v(), w[x]);
    }
    lemma_sum_terms(hadamard(e, w), g);
    // Each block's value over the integers.
    let hh = |b: int, c: int| e2[c].v() * w[b * ss + c].v();
    let fb = row_sums(ss, hh);
    let be = block_evals(w, ss, rr, z2);
    assert forall|b: int| 0 <= b < rr implies #[trigger] be[b] == fe(fb(b)) by {
        let blk = block_of(w, ss, b);
        assert((b + 1) * ss <= rr * ss && 0 <= b * ss) by (nonlinear_arith)
            requires
                0 <= b < rr,
                ss >= 0,
        ;
        assert((b + 1) * ss == b * ss + ss) by (nonlinear_arith);
        assert(blk.len() == ss);
        assert(all_wf(blk));
        lemma_eq_eval(blk, z2);
        let terms = hadamard(e2, blk);
        assert forall|c: int| 0 <= c < terms.len() implies #[trigger] terms[c] == fe(hh(b, c)) by {}
        lemma_sum_terms(terms, |c: int| hh(b, c));
    }
    let h1 = |b: int| e1[b].v() * fb(b);
    assert forall|b: int| 0 <= b < rr implies #[trigger] hadamard(e1, be)[b] == fe(h1(b)) by {
        lemma_mul_r(e1[b], fb(b));
    }
    lemma_sum_terms(hadamard(e1, be), h1);
    // The two integer sums agree: split the long sum into blocks and factor out `eq(z_1)`.
    lemma_isum_blocks(rr, ss, g);
    assert forall|b: int| 0 <= b < rr implies #[trigger] block_sums(ss, g)(b) == h1(b) by {
        let x = e1[b].v();
        let f = |c: int| hh(b, c);
        assert forall|c: int| 0 <= c < ss implies #[trigger] shifted(b * ss, g)(c) == x * f(c) by {
            lemma_grid_index(b, c, ss as int, rr as int);
            assert(e1[b].v() * e2[c].v() * w[b * ss + c].v() == e1[b].v() * (e2[c].v() * w[b * ss + c].v()))
                by (nonlinear_arith);
        }
        lemma_isum_ext(ss, shifted(b * ss, g), |c: int| x * f(c));
        lemma_isum_scale(ss, x, f);
        assert(fb(b) == isum_g(ss, f));
    }
    lemma_isum_ext(rr, block_sums(ss, g), h1);
    assert(e.len() == rr * ss);
}

/// Once the input has the right shape, the scaffold's evaluation check holds
/// exactly when the claimed value is the evaluation at the point of the
/// multilinear extension of the witness.
pub proof fn lemma_eval_claim_is_evaluation<C: ErrorCorrectingCode>(p: CodeswitchParameters<C>, input: ReduceIorInput)
    requires
        input_shape_error(p, input) is None,
        all_wf(input.witness_message@),
        all_wf(input.eval_point@),
    ensures
        eval_claim_holds(p, input) <==> input.eval_value == mle_eval(input.witness_message@, input.eval_point@),
{
    let d = (p.spec_log_start_code_message() - p.spec_log_new_code_message()) as nat;
    assert((input.eval_point@.len() - d) as nat == p.spec_log_new_code_message());
    lemma_blockwise_evaluation(input.witness_message@, input.eval_point@, d);
}

/// With no claims to check and an input of the right shape, the scaffold
/// refuses exactly when the evaluation claim fails, and then with
/// `EvalConsistencyCheckFailed`.
pub proof fn lemma_scaffold_refuses_exactly_false_evaluations<C: ErrorCorrectingCode>(
    p: CodeswitchParameters<C>,
    input: ReduceIorInput,
    claims: CodeswitchClaims,
)
    requires
        input_shape_error(p, input) is None,
        claims.auxiliary_oracles@.len() == 0,
        claims.ip_claims@.len() == 0,
        claims.dip_claims@.len() == 0,
    ensures
        scaffold_error(p, input, claims) is None <==> eval_claim_holds(p, input),
        scaffold_error(p, input, claims) is Some ==> scaffold_error(p, input, claims) == Some(
            CodeswitchError::EvalConsistencyCheckFailed,
        ),
{
}

/// The batched value with the openings of the blocks alone: block `i`
/// contributes `gamma^(i+1)` times its evaluation plus `gamma^(l+i+1)` times
/// its out-of-domain value.
pub open spec fn grouped_block_values(g: KoalaBear, l: nat, o: EvaluationOpenings) -> Seq<KoalaBear> {
    Seq::new(
        l,
        |i: int| coeff_eval(g, i as nat).spec_mul(o.a_eval@[i]).spec_add(coeff_ood(g, l, i as nat).spec_mul(o.a_ood@[i])),
    )
}

/// Without inner-product claims, the value that `batch_to_reduced_claim`
/// batches is the sum over the blocks `i < l` of
/// `gamma^(i+1) a_eval[i] + gamma^(l+i+1) a_ood[i]`.
pub proof fn lemma_batched_value_of_blocks(g: KoalaBear, l: nat, claims: CodeswitchClaims, o: EvaluationOpenings)
    requires
        claims.ip_claims@.len() == 0,
        claims.dip_claims@.len() == 0,
    ensures
        sum(batch_value_terms(g, l, claims, o)) == sum(grouped_block_values(g, l, o)),
{
    let t = batch_value_terms(g, l, claims, o);
    let gi = |k: int| t[k].v();
    assert(t.len() == 2 * l);
    assert forall|k: int| 0 <= k < t.len() implies #[trigger] t[k] == fe(gi(k)) by {
        crate::ring::lemma_canon(t[k]);
    }
    crate::ring::lemma_sum_terms(t, gi);
    crate::ring::lemma_isum_pairs(l, gi);
    let grouped = grouped_block_values(g, l, o);
    let h = |b: int| gi(2 * b) + gi(2 * b + 1);
    assert forall|b: int| 0 <= b < grouped.len() implies #[trigger] grouped[b] == fe(h(b)) by {
        assert((2 * b) % 2 == 0 && (2 * b) / 2 == b);
        assert((2 * b + 1) % 2 == 1 && (2 * b + 1) / 2 == b);
    }
    crate::ring::lemma_sum_terms(grouped, h);
}

/// Adding `a` times `w`, then `b` times `w`, adds `a + b` times `w`.
proof fn lemma_scaled_add_twice(s: Seq<KoalaBear>, w: Seq<KoalaBear>, a: KoalaBear, b: KoalaBear)
    ensures
        scaled_add(scaled_add(s, w, a), w, b) == scaled_add(s, w, a.spec_add(b)),
{
    let lhs = scaled_add(scaled_add(s, w, a), w, b);
    let rhs = scaled_add(s, w, a.spec_add(b));
    assert forall|j: int| 0 <= j < s.len() && j < w.len() implies #[trigger] lhs[j] == rhs[j] by {
        let (x, y) = (s[j].v(), w[j].v());
        crate::ring::lemma_add_r(s[j], y * a.v());
        crate::vectors::lemma_fe_add(x + y * a.v(), y * b.v());
        crate::ring::lemma_mul_r(w[j], a.v() + b.v());
        crate::ring::lemma_add_r(s[j], y * (a.v() + b.v()));
        assert(y * (a.v() + b.v()) == y * a.v() + y * b.v()) by (nonlinear_arith);
    }
    assert(lhs =~= rhs);
}

/// A combination whose terms come in pairs with the same vector is the
/// combination of those vectors with the summed weights.
proof fn lemma_lin_comb_pairs(
    init: Seq<KoalaBear>,
    p: Seq<(KoalaBear, Seq<KoalaBear>)>,
    q: Seq<(KoalaBear, Seq<KoalaBear>)>,
)
    requires
        p.len() == 2 * q.len(),
        forall|i: int|
            0 <= i < q.len() ==> {
                &&& p[2 * i].1 == (#[trigger] q[i]).1
                &&& p[2 * i + 1].1 == q[i].1
                &&& q[i].0 == p[2 * i].0.spec_add(p[2 * i + 1].0)
            },
    ensures
        lin_comb(init, p) == lin_comb(init, q),
    decreases q.len(),
{
    if q.len() > 0 {
        let m = (q.len() - 1) as int;
        let p2 = p.drop_last().drop_last();
        assert forall|i: int| 0 <= i < q.drop_last().len() implies {
            &&& p2[2 * i].1 == (#[trigger] q.drop_last()[i]).1
            &&& p2[2 * i + 1].1 == q.drop_last()[i].1
            &&& q.drop_last()[i].0 == p2[2 * i].0.spec_add(p2[2 * i + 1].0)
        } by {
            assert(q.drop_last()[i] == q[i]);
        }
        lemma_lin_comb_pairs(init, p2, q.drop_last());
        assert(q[m] == q.last());
        assert(p.last() == p[2 * m + 1]);
        assert(p.drop_last().last() == p[2 * m]);
        lemma_scaled_add_twice(lin_comb(init, p2), q[m].1, p[2 * m].0, p[2 * m + 1].0);
        assert(lin_comb(init, p.drop_last()) == scaled_add(lin_comb(init, p2), p[2 * m].1, p[2 * m].0));
        assert(lin_comb(init, p) == scaled_add(lin_comb(init, p.drop_last()), p[2 * m + 1].1, p[2 * m + 1].0));
        assert(lin_comb(init, q) == scaled_add(lin_comb(init, q.drop_last()), q[m].1, q[m].0));
    }
}

/// The oracle words of the blocks with their summed batching weights
/// `gamma^(i+1) + gamma^(l+i+1)`.
pub open spec fn grouped_oracle_pairs(g: KoalaBear, blocks: Seq<Round1Block>) -> Seq<(KoalaBear, Seq<KoalaBear>)> {
    let l = blocks.len();
    Seq::new(l, |i: int| (coeff_eval(g, i as nat).spec_add(coeff_ood(g, l, i as nat)), blocks[i].oracle_word@))
}

/// The messages of the blocks with their summed batching weights
/// `gamma^(i+1) + gamma^(l+i+1)`.
pub open spec fn grouped_message_pairs(g: KoalaBear, blocks: Seq<Round1Block>) -> Seq<(KoalaBear, Seq<KoalaBear>)> {
    let l = blocks.len();
    Seq::new(l, |i: int| (coeff_eval(g, i as nat).spec_add(coeff_ood(g, l, i as nat)), blocks[i].message@))
}

/// Without inner-product claims, the oracle word and the witness that
/// `batch_to_reduced_claim` batches are the sums over the blocks `i < l` of
/// `(gamma^(i+1) + gamma^(l+i+1))` times the block's oracle word and message.
pub proof fn lemma_batched_words_of_blocks(
    g: KoalaBear,
    blocks: Seq<Round1Block>,
    claims: CodeswitchClaims,
    init: Seq<KoalaBear>,
)
    requires
        claims.ip_claims@.len() == 0,
        claims.dip_claims@.len() == 0,
    ensures
        lin_comb(init, batch_oracle_pairs(g, blocks, claims)) == lin_comb(init, grouped_oracle_pairs(g, blocks)),
        lin_comb(init, batch_witness_pairs(g, blocks, claims)) == lin_comb(init, grouped_message_pairs(g, blocks)),
{
    let po = batch_oracle_pairs(g, blocks, claims);
    let qo = grouped_oracle_pairs(g, blocks);
    let pw = batch_witness_pairs(g, blocks, claims);
    let qw = grouped_message_pairs(g, blocks);
    assert forall|i: int| 0 <= i < qo.len() implies {
        &&& po[2 * i].1 == (#[trigger] qo[i]).1
        &&& po[2 * i + 1].1 == qo[i].1
        &&& qo[i].0 == po[2 * i].0.spec_add(po[2 * i + 1].0)
    } by {
        assert((2 * i) % 2 == 0 && (2 * i) / 2 == i);
        assert((2 * i + 1) % 2 == 1 && (2 * i + 1) / 2 == i);
    }
    lemma_lin_comb_pairs(init, po, qo);
    assert forall|i: int| 0 <= i < qw.len() implies {
        &&& pw[2 * i].1 == (#[trigger] qw[i]).1
        &&& pw[2 * i + 1].1 == qw[i].1
        &&& qw[i].0 == pw[2 * i].0.spec_add(pw[2 * i + 1].0)
    } by {
        assert((2 * i) % 2 == 0 && (2 * i) / 2 == i);
        assert((2 * i + 1) % 2 == 1 && (2 * i + 1) / 2 == i);
    }
    lemma_lin_comb_pairs(init, pw, qw);
}

} // verus!
