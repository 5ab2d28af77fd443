//! The decoding entry point around the protocol engine.

use vstd::prelude::*;

use crate::errors::BencodeError;
use crate::errors::BencodeResult;
use crate::errors::DecodeError;
use crate::protocol::decode::decode;
use crate::protocol::decode::spec_parse;
use crate::types::Type;
use crate::types::TypeView;

verus! {

pub struct Decoder;

impl Decoder {
    /// Decode exactly one value from `bytes`, requiring the whole input to
    /// be consumed.
    pub fn decode(bytes: &Vec<u8>) -> (r: BencodeResult<Type>)
        ensures
            match r {
                Ok(t) => spec_parse(bytes@) == Ok::<TypeView, DecodeError>(t@) && t@.wf()
                    && t@.bounded(),
                Err(e) => e matches BencodeError::Decode(d) && spec_parse(bytes@) == Err::<
                    TypeView,
                    DecodeError,
                >(d),
            },
    {
        match decode(bytes) {
            Err(err) => Err(BencodeError::Decode(err)),
            Ok(t) => Ok(t),
        }
    }
}

} // verus!
