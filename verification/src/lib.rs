//! A small credential vault: records are kept with their secret field
//! encrypted at rest (AES-256 in cipher-block-chaining mode, PKCS#7 padding,
//! base64 text encoding) and are recoverable only through that pipeline.
pub mod errors;
pub mod blocks;
pub mod padding;
pub mod cbc;
pub mod text64;
pub mod cipher;
pub mod store;
