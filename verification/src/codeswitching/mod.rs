//! Claims, oracles and sumcheck reductions of the code-switching protocol.
pub mod claims;
pub mod claims_generator;
pub mod codeswitch_claims;
pub mod errors;
pub mod oracles;
pub mod reduce_ior;
pub mod sumcheck;

pub use claims::{split_claim_ip, split_claim_tip, SplitIpClaim, SplitTipClaim};
pub use errors::{validate_oracle_reference, CodeswitchError, OracleReference};
pub use oracles::{
    build_codeswitch_oracles, split_and_encode, CodeswitchOraclesInput, CodeswitchOraclesOutput,
    SplitEncoding,
};
pub use sumcheck::{IPSumcheck, IPSumcheckOutput, TIPSumcheck, TIPSumcheckOutput};
