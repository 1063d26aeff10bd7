//! Convenience re-exports of the public types of the toolkit.

pub use crate::codec::{url_decoded, url_encoded, validate_method_name};
pub use crate::did::DID;
pub use crate::document::{
    AlsoKnownAs, AlsoKnownAsEither, Context, Controller, Document, ServiceEndpoint,
    ServiceEndpointProperties, ServiceEndpoints, ServiceType, ServiceTypes, Uri,
    VerificationMethod, VerificationMethodEither, VerificationMethodType, VerificationMethods,
};
pub use crate::either::Either;
pub use crate::errors::Error;
pub use crate::hash::{OrderedHashSet, OrderedHashSetIterator};
pub use crate::jwk::JWK;
pub use crate::multibase::MultiBase;
pub use crate::registry::{Equivalence, Registry};
pub use crate::time::VersionTime;
pub use crate::url::{URLParameters, URL};
