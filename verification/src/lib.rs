pub mod decoder;
pub mod encoder;
pub mod errors;
pub mod protocol;
pub mod types;

pub use decoder::Decoder;
pub use encoder::Encoder;
pub use errors::BencodeError;
pub use errors::BencodeResult;
pub use types::Type;
