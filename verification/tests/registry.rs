use did_toolkit::did::DID;
use did_toolkit::document::{
    AlsoKnownAs, AlsoKnownAsEither, Controller, Document, Uri, VerificationMethod,
};
use did_toolkit::errors::Error;
use did_toolkit::registry::{Equivalence, Registry};
use did_toolkit::url::URL;

#[test]
fn registry_test_basic() {
    let mut reg: Registry = Default::default();
    let did = DID::parse("did:testing:u:alice").unwrap();
    let doc = Document { id: did.clone(), ..Default::default() };

    let did2 = DID::parse("did:testing:u:bob").unwrap();
    let doc2 = Document { id: did2.clone(), ..Default::default() };

    let did3 = DID::parse("did:testing:u:charlie").unwrap();

    assert!(reg.insert(doc.clone()).is_ok());
    assert!(reg.insert(doc.clone()).is_err());
    assert_eq!(reg.get(&did), Some(&doc));
    assert!(reg.insert(doc2.clone()).is_ok());
    assert_eq!(reg.get(&did2), Some(&doc2));
    assert!(reg.get(&did3).is_none());
    assert!(reg.remove(&did).is_some());
    assert!(reg.get(&did).is_none());
}

#[test]
fn test_follow() {
    let mut reg: Registry = Default::default();
    let did = DID::parse("did:testing:u:alice").unwrap();
    let doc = Document { id: did.clone(), ..Default::default() };

    let did2 = DID::parse("did:testing:u:bob").unwrap();
    let doc2 = Document { id: did2.clone(), ..Default::default() };

    assert!(reg.insert(doc.clone()).is_ok());
    assert!(reg.insert(doc2.clone()).is_ok());

    let url = URL::parse("did:testing:u:alice/path#fragment").unwrap();
    let url2 = URL::parse("did:testing:u:bob/path#fragment").unwrap();
    let url3 = URL::parse("did:testing:u:charlie/path#fragment").unwrap();

    assert_eq!(reg.follow(url).unwrap(), &doc);
    assert_eq!(reg.follow(url2).unwrap(), &doc2);
    assert!(reg.follow(url3).is_none());
}

#[test]
fn test_controls() {
    let mut reg: Registry = Default::default();
    let did = DID::parse("did:testing:u:alice").unwrap();
    let did2 = DID::parse("did:testing:u:bob").unwrap();
    let did3 = DID::parse("did:testing:u:charlie").unwrap();

    let doc = Document {
        id: did.clone(),
        controller: Some(Controller::One(did2.clone())),
        ..Default::default()
    };

    let doc2 = Document { id: did2.clone(), ..Default::default() };

    assert!(reg.insert(doc.clone()).is_ok());
    assert!(reg.insert(doc2.clone()).is_ok());
    assert!(reg.controls(&did, &did2).is_ok());
    assert!(reg.controls(&did2, &did3).is_err());
    assert!(reg.controls(&did, &did2).unwrap());
    assert!(!reg.controls(&did2, &did).unwrap());

    assert!(reg.remove(&did).is_some());
    assert!(reg.remove(&did2).is_some());

    let set = vec![did2.clone()];

    let doc = Document {
        id: did.clone(),
        controller: Some(Controller::Many(set)),
        ..Default::default()
    };

    let doc2 = Document { id: did2.clone(), ..Default::default() };

    let doc3 = Document {
        id: did3.clone(),
        controller: Some(Controller::One(did2.clone())),
        ..Default::default()
    };

    assert!(reg.insert(doc.clone()).is_ok());
    assert!(reg.insert(doc2.clone()).is_ok());
    assert!(reg.insert(doc3.clone()).is_ok());
    assert!(reg.controls(&did, &did2).is_ok());
    assert!(reg.controls(&did, &did2).unwrap());
    assert!(!reg.controls(&did2, &did).unwrap());
    assert!(!reg.controls(&did, &did3).unwrap());
}

#[test]
fn test_controls_reflexive_and_unknown() {
    let mut reg: Registry = Default::default();
    let did = DID::parse("did:testing:u:alice").unwrap();
    let absent = DID::parse("did:testing:u:ghost").unwrap();
    let doc = Document { id: did.clone(), ..Default::default() };
    assert!(reg.insert(doc).is_ok());

    // an identifier controls itself, with no lookup at all
    assert!(reg.controls(&absent, &absent).unwrap());
    assert!(reg.controls(&did, &did).unwrap());
    // an unknown controller is an error, not a false result
    assert_eq!(reg.controls(&did, &absent).unwrap_err(), Error::UnknownIdentifier);
}

#[test]
fn test_equivalent_to_did() {
    let mut reg: Registry = Default::default();
    let did = DID::parse("did:testing:u:alice").unwrap();
    let did2 = DID::parse("did:testing:u:bob").unwrap();
    let did3 = DID::parse("did:testing:u:charlie").unwrap();

    let set = vec![AlsoKnownAsEither::Identifier(did2.clone())];
    let set2 = vec![AlsoKnownAsEither::Identifier(did.clone())];

    let doc = Document {
        id: did.clone(),
        also_known_as: Some(AlsoKnownAs(set.clone())),
        ..Default::default()
    };

    let doc2 = Document {
        id: did2.clone(),
        also_known_as: Some(AlsoKnownAs(set2)),
        ..Default::default()
    };

    assert!(reg.insert(doc.clone()).is_ok());
    assert!(reg.insert(doc2.clone()).is_ok());
    assert!(reg.equivalent_to_did(&did, &did3).is_err());
    assert_eq!(reg.equivalent_to_did(&did, &did2).unwrap(), Equivalence::Holds);
    assert_eq!(reg.equivalent_to_did(&did2, &did).unwrap(), Equivalence::Holds);

    let doc3 = Document { id: did3.clone(), ..Default::default() };

    assert!(reg.insert(doc3.clone()).is_ok());
    assert_eq!(reg.equivalent_to_did(&did2, &did3).unwrap(), Equivalence::DoesNotHold);
    assert_eq!(reg.equivalent_to_did(&did, &did3).unwrap(), Equivalence::DoesNotHold);

    assert!(reg.remove(&did).is_some());
    assert!(reg.remove(&did2).is_some());

    let doc = Document {
        id: did.clone(),
        also_known_as: Some(AlsoKnownAs(set)),
        ..Default::default()
    };

    let doc2 = Document { id: did2.clone(), ..Default::default() };

    assert!(reg.insert(doc).is_ok());
    assert!(reg.insert(doc2).is_ok());
    assert_eq!(reg.equivalent_to_did(&did, &did2).unwrap(), Equivalence::DoesNotHold);
}

#[test]
fn test_equivalence_remote_documents() {
    // a URL-typed assertion blocks on its document; handing the fetched
    // document back lets the query finish
    let mut reg = Registry::new_with_remote_cache();
    let did = DID::parse("did:testing:u:alice").unwrap();
    let did2 = DID::parse("did:testing:u:bob").unwrap();
    let remote = Uri(String::from("https://example.com/bob"));

    let doc = Document {
        id: did.clone(),
        also_known_as: Some(AlsoKnownAs(vec![AlsoKnownAsEither::Reference(remote.clone())])),
        ..Default::default()
    };
    let doc2 = Document {
        id: did2.clone(),
        also_known_as: Some(AlsoKnownAs(vec![AlsoKnownAsEither::Identifier(did.clone())])),
        ..Default::default()
    };
    assert!(reg.insert(doc).is_ok());
    assert!(reg.insert(doc2.clone()).is_ok());

    // blocked on the remote document
    match reg.equivalent_to_did(&did, &did2).unwrap() {
        Equivalence::NeedsDocument(u) => assert_eq!(u, remote),
        other => panic!("expected a blocked resolution, got {:?}", other),
    }

    // the caller fetched it; the document is already stored, so only the
    // URL mapping is learned
    assert!(reg.cache_remote(remote.clone(), doc2).is_ok());
    assert_eq!(reg.equivalent_to_did(&did, &did2).unwrap(), Equivalence::Holds);
    assert_eq!(reg.equivalent_to_did(&did2, &did).unwrap(), Equivalence::Holds);
}

#[test]
fn test_equivalence_remote_cache_disabled() {
    let mut reg: Registry = Default::default();
    let did = DID::parse("did:testing:u:alice").unwrap();
    let did2 = DID::parse("did:testing:u:bob").unwrap();
    let remote = Uri(String::from("https://example.com/bob"));

    let doc = Document {
        id: did.clone(),
        also_known_as: Some(AlsoKnownAs(vec![AlsoKnownAsEither::Reference(remote.clone())])),
        ..Default::default()
    };
    let doc2 = Document { id: did2.clone(), ..Default::default() };
    assert!(reg.insert(doc).is_ok());
    assert!(reg.insert(doc2.clone()).is_ok());

    assert_eq!(reg.equivalent_to_did(&did, &did2).unwrap_err(), Error::RemoteCacheDisabled);
    assert_eq!(reg.cache_remote(remote, doc2).unwrap_err(), Error::RemoteCacheDisabled);
}

#[test]
fn test_verification_method_for_url() {
    let mut reg: Registry = Default::default();
    let did = DID::parse("did:testing:u:alice").unwrap();
    let key_url = URL::parse("did:testing:u:alice#key-1").unwrap();
    let other_url = URL::parse("did:testing:u:alice#key-2").unwrap();

    let vm = VerificationMethod {
        id: key_url.clone(),
        controller: did.clone(),
        ..Default::default()
    };
    let doc = Document {
        id: did.clone(),
        verification_method: Some(vec![vm.clone()]),
        ..Default::default()
    };
    assert!(reg.insert(doc).is_ok());

    assert_eq!(reg.verification_method_for_url(&did, key_url), Some(&vm));
    assert!(reg.verification_method_for_url(&did, other_url).is_none());

    let absent = DID::parse("did:testing:u:ghost").unwrap();
    let url3 = URL::parse("did:testing:u:ghost#key-1").unwrap();
    assert!(reg.verification_method_for_url(&absent, url3).is_none());
}

#[test]
fn test_document_order_and_len() {
    let mut reg: Registry = Default::default();
    assert_eq!(reg.len(), 0);
    let did = DID::parse("did:testing:u:alice").unwrap();
    let did2 = DID::parse("did:testing:u:bob").unwrap();
    let doc = Document { id: did.clone(), ..Default::default() };
    let doc2 = Document { id: did2.clone(), ..Default::default() };
    assert!(reg.insert(doc.clone()).is_ok());
    assert!(reg.insert(doc2.clone()).is_ok());
    assert_eq!(reg.len(), 2);
    assert_eq!(reg.document_at(0), &doc);
    assert_eq!(reg.document_at(1), &doc2);
}
