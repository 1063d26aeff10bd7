use vstd::prelude::*;

verus! {

/// Everything that can go wrong while parsing identifier text, validating a
/// document, or resolving references through a registry. Parsing and
/// validation are all-or-nothing: a function either returns its full result
/// or one of these kinds, never a partial value.
#[derive(Clone, Copy, Debug, PartialEq, Eq, Structural)]
pub enum Error {
    /// The text is not `did:<name>:<id>` with both halves present.
    MalformedIdentifier,
    /// A method name held a byte outside `[a-z0-9]`, or was empty.
    InvalidMethodName,
    /// A `versionTime` query value was not `YYYY-MM-DDTHH:MM:SSZ` in range.
    InvalidVersionTime,
    /// A relative reference handed to `join` was empty.
    EmptyRelativeReference,
    /// A relative reference did not start with `/`, `?` or `#`.
    InvalidRelativeReference,
    /// A verification method carried both a JWK and a multibase key.
    ConflictingKeyMaterial,
    /// A verification-method reference needed a registry, but none was given.
    NoRegistryForReference,
    /// A referenced identifier was not present in the registry.
    UnknownReferencedIdentifier,
    /// A referenced document holds no verification method with the given id.
    VerificationMethodNotFound,
    /// A document with the same identifier is already stored.
    DuplicateIdentifier,
    /// An identifier named in a query was not present in the registry.
    UnknownIdentifier,
    /// Remote dereferencing was needed, but the registry's cache is disabled.
    RemoteCacheDisabled,
    /// The fetch collaborator could not retrieve a remote document.
    RemoteFetchFailed,
    /// A structured document form could not be decoded.
    MalformedDocument,
}

impl Error {
    /// A short human-readable description of the error kind.
    pub fn message(&self) -> String {
        match self {
            Error::MalformedIdentifier => String::from_str("malformed identifier"),
            Error::InvalidMethodName => String::from_str("method name has invalid characters"),
            Error::InvalidVersionTime => String::from_str("invalid versionTime value"),
            Error::EmptyRelativeReference => String::from_str("relative DID URL is empty"),
            Error::InvalidRelativeReference => String::from_str(
                "DID URL is not relative or is malformed",
            ),
            Error::ConflictingKeyMaterial => String::from_str(
                "verification method provided both JWK and multibase keys",
            ),
            Error::NoRegistryForReference => String::from_str(
                "verification method reference needs a registry to look up",
            ),
            Error::UnknownReferencedIdentifier => String::from_str(
                "referenced DID does not exist in the registry",
            ),
            Error::VerificationMethodNotFound => String::from_str(
                "could not locate the referenced verification method",
            ),
            Error::DuplicateIdentifier => String::from_str("DID already exists in registry"),
            Error::UnknownIdentifier => String::from_str("DID did not exist in the registry"),
            Error::RemoteCacheDisabled => String::from_str(
                "remote caching of documents is disabled",
            ),
            Error::RemoteFetchFailed => String::from_str("remote document could not be fetched"),
            Error::MalformedDocument => String::from_str("document could not be decoded"),
        }
    }
}

} // verus!
