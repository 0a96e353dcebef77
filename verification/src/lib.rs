//! Verification of Content-Signature signed collections of records.
//!
//! A collection holds a sequence of JSON records, an integer timestamp and
//! signature metadata (a certificate URL and a base64 signature blob). The
//! library canonicalizes the records into a deterministic byte string,
//! prefixes it with the `Content-Signature:` protocol header, and prepares
//! everything an ECDSA P-384 / SHA-384 engine needs to check the result
//! against the signature.

pub mod canon;
pub mod json;
pub mod laws;
pub mod records;
pub mod verification;
