//! Error taxonomies: decode failures, value-conversion failures, and the
//! failure kinds surfaced by the JSON bridge around the codec.
//!
//! Each enum carries a `message` method returning the diagnostic text, so
//! callers outside the verified core can print a failure without any
//! formatting machinery in here.

use vstd::prelude::*;

verus! {

/// The syntactic context in which an unexpected terminator byte was seen.
#[derive(Debug, Clone, Copy, PartialEq, Eq, Structural)]
pub enum EndByteContext {
    Integer,
    ByteString,
}

/// A decode failure. The first malformed byte aborts the whole decode, so a
/// decoder returns at most one of these per input.
#[derive(Debug, Clone, Copy, PartialEq, Eq, Structural)]
pub enum DecodeError {
    /// The input held no bytes at all.
    Empty,
    /// The leading byte of a value was none of `i`, `l`, `d` or a digit.
    InvalidStartByte,
    /// A byte that can neither extend nor terminate the current token.
    InvalidEndByte(EndByteContext),
    /// A digit run that is absent or does not fit a 64-bit integer.
    InvalidInteger,
    /// An integer with a redundant leading zero digit.
    IntegerWithLeadingZeros,
    /// The literal `-0`, which has no canonical meaning.
    NegativeZeroInteger,
    /// The input ended before the declared byte-string length was supplied.
    InvalidByteStringLength,
    /// The input ended inside a list, before its terminator.
    InvalidList,
    /// The input ended inside a dictionary, before its terminator.
    InvalidDictionary,
    /// A dictionary key that decoded to something other than a byte string.
    InvalidDictionaryKey,
    /// Bytes were left over after one complete top-level value.
    InvalidByteSequence,
}

impl DecodeError {
    /// The diagnostic text of this failure.
    pub open spec fn spec_message(self) -> Seq<char> {
        match self {
            DecodeError::Empty => "empty byte sequence"@,
            DecodeError::InvalidStartByte => "invalid start byte"@,
            DecodeError::InvalidEndByte(EndByteContext::Integer) => (
            "invalid end byte for type: integer"@),
            DecodeError::InvalidEndByte(EndByteContext::ByteString) => (
            "invalid end byte for type: byte string"@),
            DecodeError::InvalidInteger => "invalid integer"@,
            DecodeError::IntegerWithLeadingZeros => "integer with leading zeros is not allowed"@,
            DecodeError::NegativeZeroInteger => "negative zero is not allowed"@,
            DecodeError::InvalidByteStringLength => "invalid byte string length"@,
            DecodeError::InvalidList => "invalid list"@,
            DecodeError::InvalidDictionary => "invalid dictionary"@,
            DecodeError::InvalidDictionaryKey => "invalid type for dictionary key"@,
            DecodeError::InvalidByteSequence => "invalid byte sequence"@,
        }
    }

    pub fn message(&self) -> (r: String)
        ensures
            r@ == self.spec_message(),
    {
        match self {
            DecodeError::Empty => "empty byte sequence".to_string(),
            DecodeError::InvalidStartByte => "invalid start byte".to_string(),
            DecodeError::InvalidEndByte(EndByteContext::Integer) => (
            "invalid end byte for type: integer".to_string()),
            DecodeError::InvalidEndByte(EndByteContext::ByteString) => (
            "invalid end byte for type: byte string".to_string()),
            DecodeError::InvalidInteger => "invalid integer".to_string(),
            DecodeError::IntegerWithLeadingZeros => (
            "integer with leading zeros is not allowed".to_string()),
            DecodeError::NegativeZeroInteger => "negative zero is not allowed".to_string(),
            DecodeError::InvalidByteStringLength => "invalid byte string length".to_string(),
            DecodeError::InvalidList => "invalid list".to_string(),
            DecodeError::InvalidDictionary => "invalid dictionary".to_string(),
            DecodeError::InvalidDictionaryKey => "invalid type for dictionary key".to_string(),
            DecodeError::InvalidByteSequence => "invalid byte sequence".to_string(),
        }
    }
}

/// A failure to read a specific variant out of a [`crate::types::Type`].
#[derive(Debug, Clone, Copy, PartialEq, Eq, Structural)]
pub enum ConverterError {
    InvalidString,
    InvalidInteger,
    InvalidList,
    InvalidDictionary,
}

impl ConverterError {
    /// The diagnostic text of this failure.
    pub open spec fn spec_message(self) -> Seq<char> {
        match self {
            ConverterError::InvalidString => "invalid string"@,
            ConverterError::InvalidInteger => "invalid integer"@,
            ConverterError::InvalidList => "invalid list"@,
            ConverterError::InvalidDictionary => "invalid dictionary"@,
        }
    }

    pub fn message(&self) -> (r: String)
        ensures
            r@ == self.spec_message(),
    {
        match self {
            ConverterError::InvalidString => "invalid string".to_string(),
            ConverterError::InvalidInteger => "invalid integer".to_string(),
            ConverterError::InvalidList => "invalid list".to_string(),
            ConverterError::InvalidDictionary => "invalid dictionary".to_string(),
        }
    }
}

/// A failure while turning JSON text or a JSON file into a value tree.
#[derive(Debug, Clone, Copy, PartialEq, Eq, Structural)]
pub enum DeserializationError {
    JsonDeserializationError,
    FileError,
}

impl DeserializationError {
    /// The diagnostic text of this failure.
    pub open spec fn spec_message(self) -> Seq<char> {
        match self {
            DeserializationError::JsonDeserializationError => (
            "could not be serialized to json"@),
            DeserializationError::FileError => "could not open file"@,
        }
    }

    pub fn message(&self) -> (r: String)
        ensures
            r@ == self.spec_message(),
    {
        match self {
            DeserializationError::JsonDeserializationError => (
            "could not be serialized to json".to_string()),
            DeserializationError::FileError => "could not open file".to_string(),
        }
    }
}

/// A failure while turning a value tree into JSON text or a JSON file.
#[derive(Debug, Clone, Copy, PartialEq, Eq, Structural)]
pub enum SerializationError {
    JsonSerializationError,
    FileError,
    FileSerializationError,
}

impl SerializationError {
    /// The diagnostic text of this failure.
    pub open spec fn spec_message(self) -> Seq<char> {
        match self {
            SerializationError::JsonSerializationError => "could not be serialized to json"@,
            SerializationError::FileError => "could not open file"@,
            SerializationError::FileSerializationError => "could not save to .json file"@,
        }
    }

    pub fn message(&self) -> (r: String)
        ensures
            r@ == self.spec_message(),
    {
        match self {
            SerializationError::JsonSerializationError => (
            "could not be serialized to json".to_string()),
            SerializationError::FileError => "could not open file".to_string(),
            SerializationError::FileSerializationError => (
            "could not save to .json file".to_string()),
        }
    }
}

/// Any failure of the codec's own entry points.
#[derive(Debug, Clone, Copy, PartialEq, Eq, Structural)]
pub enum BencodeError {
    Decode(DecodeError),
}

impl BencodeError {
    /// The diagnostic text of this failure.
    pub open spec fn spec_message(self) -> Seq<char> {
        match self {
            BencodeError::Decode(e) => e.spec_message(),
        }
    }

    pub fn message(&self) -> (r: String)
        ensures
            r@ == self.spec_message(),
    {
        match self {
            BencodeError::Decode(e) => e.message(),
        }
    }
}

pub type BencodeResult<T> = Result<T, BencodeError>;

} // verus!
