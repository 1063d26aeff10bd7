//! A toolkit for Decentralized Identifiers (DIDs): grammar parsing and
//! formatting for DID and DID-URL text forms, a document data model with its
//! validation rules, and an in-memory registry resolving control, equivalence
//! and key lookups across a set of documents.

/// Byte-sequence helpers shared by the parsing modules.
mod bytes;
/// Percent-encoding codec and method-name validation.
pub mod codec;
/// Decentralized identifier syntax parsing and generation.
pub mod did;
/// DID URL handling: parsing, formatting, and manipulation.
pub mod url;
/// VersionTime query parameter handling for DID URLs.
pub mod time;
/// The error kinds surfaced by every fallible operation of the toolkit.
pub mod errors;
/// The document data model and its validation rules.
pub mod document;
/// An in-memory registry of documents with cross-document resolution.
pub mod registry;
/// A two-sided optional value.
pub mod either;
/// An insertion-ordered set that refuses duplicates.
pub mod hash;
/// JSON Web Key material, carried opaquely.
pub mod jwk;
/// Multibase public key material, carried opaquely.
pub mod multibase;
/// Convenience re-exports of the public types.
pub mod prelude;
