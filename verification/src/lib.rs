//! A local file-encryption library.
//!
//! The library owns a persisted [`bundle::KeyBundle`] of secret material and
//! transforms byte buffers under one of two strategies: a direct, single-shot
//! AEAD call for small inputs, or a chunked STREAM construction for large
//! ones.  Every transformation is specified down to the byte against a
//! mathematical model of the cipher, and the key-file format is a verified
//! encoder/parser pair with a proved round trip.

pub mod bundle;
pub mod direct;
pub mod engine;
pub mod errors;
pub mod keyfile;
pub mod primitives;
pub mod stream;
