//! Oracle handles and the errors of the reduce-IOR shape checks.
use vstd::prelude::*;

verus! {

/// Handle to an oracle that takes part in a claim.
#[derive(Debug, Clone, Copy, PartialEq, Eq, Structural)]
pub enum OracleReference {
    /// One of the block oracles of the first round.
    MessageBlock(usize),
    /// One of the auxiliary oracles that the claims introduce.
    Auxiliary(usize),
}

/// Why a reduce-IOR instance was refused.
#[derive(Debug, Clone, PartialEq, Eq, Structural)]
pub enum CodeswitchError {
    InvalidLogSplit { log_start_code_message: usize, log_new_code_message: usize },
    MessageInterleavingMismatch { expected: usize, found: usize },
    WitnessLengthMismatch { expected: usize, found: usize },
    EvalPointLengthMismatch { expected: usize, found: usize },
    OracleLengthMismatch { expected: usize, found: usize },
    NewCodeMessageSizeMismatch { expected: usize, found: usize },
    ClaimVectorLengthMismatch { expected: usize, found: usize },
    ClaimWitnessLengthMismatch { expected: usize, found: usize },
    ClaimOracleLengthMismatch { expected: usize, found: usize },
    InvalidOracleReference {
        reference: OracleReference,
        message_block_count: usize,
        auxiliary_count: usize,
    },
    EvalConsistencyCheckFailed,
    OpeningConsistencyCheckFailed,
}

/// Whether `reference` names an existing oracle, given how many block and
/// auxiliary oracles there are.
pub open spec fn refers_to_existing(
    reference: OracleReference,
    message_block_count: nat,
    auxiliary_count: nat,
) -> bool {
    match reference {
        OracleReference::MessageBlock(i) => i < message_block_count,
        OracleReference::Auxiliary(i) => i < auxiliary_count,
    }
}

/// Accepts a reference to an existing oracle and refuses any other with
/// `InvalidOracleReference`, which reports the reference and both counts.
pub fn validate_oracle_reference(
    reference: OracleReference,
    message_block_count: usize,
    auxiliary_count: usize,
) -> (r: Result<(), CodeswitchError>)
    ensures
        r is Ok <==> refers_to_existing(
            reference,
            message_block_count as nat,
            auxiliary_count as nat,
        ),
        r is Err ==> r->Err_0 == (CodeswitchError::InvalidOracleReference {
            reference,
            message_block_count,
            auxiliary_count,
        }),
{
    let is_valid = match reference {
        OracleReference::MessageBlock(index) => index < message_block_count,
        OracleReference::Auxiliary(index) => index < auxiliary_count,
    };
    if is_valid {
        Ok(())
    } else {
        Err(CodeswitchError::InvalidOracleReference { reference, message_block_count, auxiliary_count })
    }
}

} // verus!
