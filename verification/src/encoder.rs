//! The encoding entry point around the protocol engine.

use vstd::prelude::*;

use crate::errors::BencodeResult;
use crate::protocol::encode::encode;
use crate::protocol::encode::spec_encode;
use crate::types::Type;

verus! {

pub struct Encoder;

impl Encoder {
    /// Encode `t` into its canonical byte sequence; encoding never fails.
    pub fn encode(t: &Type) -> (r: BencodeResult<Vec<u8>>)
        ensures
            r matches Ok(bytes) && bytes@ == spec_encode(t@),
    {
        Ok(encode(t))
    }
}

} // verus!
