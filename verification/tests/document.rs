use did_toolkit::did::DID;
use did_toolkit::document::{
    Document, ServiceType, Uri, VerificationMethod, VerificationMethodEither,
    VerificationMethodType, VerificationMethods,
};
use did_toolkit::errors::Error;
use did_toolkit::jwk::JWK;
use did_toolkit::multibase::MultiBase;
use did_toolkit::registry::Registry;
use did_toolkit::time::VersionTime;
use did_toolkit::either::Either;
use did_toolkit::url::{URLParameters, URL};

#[test]
fn test_verification_method_valid() {
    // valid with zero key fields
    let vm = VerificationMethod::default();
    assert!(vm.valid().is_ok());

    // valid with exactly one key field, either kind
    let vm = VerificationMethod {
        public_key_jwk: Some(JWK::new_from_bytes(vec![1, 2, 3])),
        ..Default::default()
    };
    assert!(vm.valid().is_ok());

    let vm = VerificationMethod {
        public_key_multibase: Some(MultiBase::from_bytes(vec![4, 5, 6])),
        ..Default::default()
    };
    assert!(vm.valid().is_ok());

    // invalid exactly when both are set
    let vm = VerificationMethod {
        public_key_jwk: Some(JWK::new_from_bytes(vec![1, 2, 3])),
        public_key_multibase: Some(MultiBase::from_bytes(vec![4, 5, 6])),
        ..Default::default()
    };
    assert_eq!(vm.valid().unwrap_err(), Error::ConflictingKeyMaterial);
}

#[test]
fn test_verification_methods_valid() {
    let did = DID::parse("did:testing:u:alice").unwrap();
    let key_url = URL::parse("did:testing:u:alice#key-1").unwrap();
    let vm = VerificationMethod {
        id: key_url.clone(),
        controller: did.clone(),
        ..Default::default()
    };

    // an inline method is checked directly, no registry needed
    let refs = VerificationMethods(vec![VerificationMethodEither::Method(vm.clone())]);
    assert!(refs.valid(None).is_ok());

    let conflicted = VerificationMethod {
        public_key_jwk: Some(JWK::new_from_bytes(vec![1])),
        public_key_multibase: Some(MultiBase::from_bytes(vec![2])),
        ..Default::default()
    };
    let refs = VerificationMethods(vec![VerificationMethodEither::Method(conflicted)]);
    assert_eq!(refs.valid(None).unwrap_err(), Error::ConflictingKeyMaterial);

    // a locator reference needs a registry
    let refs = VerificationMethods(vec![VerificationMethodEither::Reference(key_url.clone())]);
    assert_eq!(refs.valid(None).unwrap_err(), Error::NoRegistryForReference);

    // the referenced identifier must be stored
    let reg: Registry = Default::default();
    assert_eq!(refs.valid(Some(&reg)).unwrap_err(), Error::UnknownReferencedIdentifier);

    // the referenced document must own a method with that very locator
    let mut reg: Registry = Default::default();
    let doc = Document { id: did.clone(), ..Default::default() };
    assert!(reg.insert(doc).is_ok());
    assert_eq!(refs.valid(Some(&reg)).unwrap_err(), Error::VerificationMethodNotFound);

    let mut reg: Registry = Default::default();
    let doc = Document {
        id: did.clone(),
        verification_method: Some(vec![vm.clone()]),
        ..Default::default()
    };
    assert!(reg.insert(doc).is_ok());
    assert!(refs.valid(Some(&reg)).is_ok());
}

#[test]
fn test_document_valid() {
    let did = DID::parse("did:testing:u:alice").unwrap();
    let key_url = URL::parse("did:testing:u:alice#key-1").unwrap();
    let vm = VerificationMethod {
        id: key_url.clone(),
        controller: did.clone(),
        ..Default::default()
    };

    let doc = Document {
        id: did.clone(),
        verification_method: Some(vec![vm.clone()]),
        authentication: Some(VerificationMethods(vec![VerificationMethodEither::Reference(
            key_url.clone(),
        )])),
        ..Default::default()
    };

    // the reference set needs a registry that holds the referenced method;
    // this document itself provides it
    assert_eq!(doc.valid(None).unwrap_err(), Error::NoRegistryForReference);
    let mut reg: Registry = Default::default();
    assert!(reg.insert(doc.clone()).is_ok());
    assert!(doc.valid(Some(&reg)).is_ok());

    // a conflicted owned method fails the whole document
    let bad = VerificationMethod {
        public_key_jwk: Some(JWK::new_from_bytes(vec![1])),
        public_key_multibase: Some(MultiBase::from_bytes(vec![2])),
        ..Default::default()
    };
    let doc2 = Document {
        id: did.clone(),
        verification_method: Some(vec![bad]),
        ..Default::default()
    };
    assert_eq!(doc2.valid(None).unwrap_err(), Error::ConflictingKeyMaterial);

    // a document with nothing to check is valid
    let doc3 = Document { id: did.clone(), ..Default::default() };
    assert!(doc3.valid(None).is_ok());
}

#[test]
fn test_type_names() {
    assert_eq!(VerificationMethodType::JWK2020.to_string(), "JsonWebKey2020");
    assert_eq!(
        VerificationMethodType::ECDSASECP256K1Recovery2020.to_string(),
        "EcdsaSecp256k1RecoveryMethod2020"
    );
    assert_eq!(
        VerificationMethodType::from_name("Ed25519VerificationKey2018"),
        Some(VerificationMethodType::Ed255192018)
    );
    assert_eq!(VerificationMethodType::from_name("NotAKeySuite"), None);

    assert_eq!(ServiceType::LinkedDomains.to_string(), "LinkedDomains");
    assert_eq!(
        ServiceType::from_name("CredentialRegistry"),
        Some(ServiceType::CredentialRegistry)
    );
    assert_eq!(ServiceType::from_name("Frobnicator"), None);
}

#[test]
fn test_version_time() {
    let t = VersionTime::parse("1978-04-06T06:00:00Z").unwrap();
    assert_eq!(t, VersionTime { year: 1978, month: 4, day: 6, hour: 6, minute: 0, second: 0 });
    assert_eq!(t.to_string(), "1978-04-06T06:00:00Z");

    assert_eq!(VersionTime::parse("foo").unwrap_err(), Error::InvalidVersionTime);
    assert!(VersionTime::parse("1978-04-06T06:00:00").is_err());
    assert!(VersionTime::parse("1978-04-31T06:00:00Z").is_err());
    assert!(VersionTime::parse("1978-04-06T24:00:00Z").is_err());
    assert!(VersionTime::parse("2000-02-29T00:00:00Z").is_ok());
    assert!(VersionTime::parse("1900-02-29T00:00:00Z").is_err());
}

#[test]
fn test_error_messages() {
    assert!(!Error::RemoteFetchFailed.message().is_empty());
    assert!(!Error::MalformedDocument.message().is_empty());
    assert_ne!(Error::DuplicateIdentifier, Error::UnknownIdentifier);
}

#[test]
fn test_uri_equality() {
    let a = Uri(String::from("https://example.com/a"));
    let b = Uri(String::from("https://example.com/a"));
    let c = Uri(String::from("https://example.com/c"));
    assert_eq!(a, b);
    assert_ne!(a, c);
}

#[test]
fn test_did_join_parameters() {
    let did = DID::parse("did:mymethod:alice").unwrap();
    let url = did.join(URLParameters {
        fragment: Some("key-1".as_bytes().to_vec()),
        ..Default::default()
    });
    assert_eq!(url.to_string(), "did:mymethod:alice#key-1");
}

#[test]
fn test_either_sides() {
    let e: Either<u64, &str> = Either::new(Some(7), None);
    assert_eq!(e.preferred(), Some(7));
    let e: Either<u64, &str> = Either::new(None, Some("other"));
    assert_eq!(e.other(), Some("other"));
}
