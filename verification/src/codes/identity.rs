//! The identity code: every message is its own codeword.
use vstd::prelude::*;

use crate::field::KoalaBear;
use crate::{copy_range, ErrorCorrectingCode};

verus! {

/// The code whose codeword is the message itself.
#[derive(Debug, Clone, Copy)]
pub struct IdentityCode {
    message_size: usize,
}

impl IdentityCode {
    pub fn new(message_size: usize) -> (r: IdentityCode)
        ensures
            r.spec_message_size() == message_size,
            r.spec_block_length() == message_size,
            r.inv(),
    {
        IdentityCode { message_size }
    }
}

impl ErrorCorrectingCode for IdentityCode {
    open spec fn inv(&self) -> bool {
        true
    }

    closed spec fn spec_message_size(&self) -> nat {
        self.message_size as nat
    }

    closed spec fn spec_block_length(&self) -> nat {
        self.message_size as nat
    }

    /// The codeword is the message.
    open spec fn spec_encode(&self, msg: Seq<KoalaBear>) -> Seq<KoalaBear> {
        msg
    }

    proof fn lemma_encode_len(&self, msg: Seq<KoalaBear>) {
    }

    fn message_size(&self) -> (r: usize) {
        self.message_size
    }

    fn block_length(&self) -> (r: usize) {
        self.message_size
    }

    fn encode(&self, msg: &[KoalaBear]) -> (r: Vec<KoalaBear>) {
        copy_range(msg, 0, msg.len())
    }
}

} // verus!
