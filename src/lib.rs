//! Compact signed tokens: a value travels beside its HMAC-SHA256 tag, both
//! written in unpadded URL-safe base64 and joined by a single `.`.
pub mod codec;
pub mod mac;
pub mod token;

pub use codec::{b64_url, b64_url_decode, CodecError};
pub use token::{assemble_token, recover_value, sign, split_token, verify};
