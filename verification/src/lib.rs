//! A G60 codec: bytes are packed into a sixty-character alphabet, eight
//! input bytes per eleven output symbols, with a strict canonical form.

pub use canonical::canonicalize_in_place;
pub use canonical::is_canonical;
pub use decoding::decode;
pub use decoding::decode_in_slice;
pub use decoding::decode_in_writer;
pub use encoding::encode;
pub use encoding::encode_in_slice;
pub use encoding::encode_in_writer;
pub use errors::DecodingError;
pub use errors::EncodingError;
pub use errors::Error;
pub use errors::VerificationError;
pub use g60_string::G60String;
pub use incorrect::verify_incorrect;
pub use naive::NaiveG60String;
pub use random::custom_random_bytes;
pub use random::custom_random_str;
pub use random::random_bytes;
pub use random::random_str;
pub use random::unsecure_random_bytes;
pub use random::unsecure_random_str;
pub use verification::verify;

pub mod canonical;
pub mod constants;
pub mod decoding;
pub mod encoding;
pub mod errors;
pub mod g60_string;
pub mod incorrect;
pub mod laws;
pub mod naive;
pub mod random;
pub mod utils;
pub mod verification;
