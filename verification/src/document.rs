use crate::did::{DidView, DID};
use crate::errors::Error;
use crate::jwk::JWK;
use crate::multibase::MultiBase;
use crate::registry::Registry;
use crate::url::{UrlView, URL};
use vstd::prelude::*;

verus! {

/// A generic URL of the hypertext kind — service endpoints and equivalence
/// assertions may point outside the DID scheme. Held as opaque text; the
/// toolkit never interprets it.
#[derive(Clone, Debug)]
pub struct Uri(pub String);

impl View for Uri {
    type V = Seq<char>;

    open spec fn view(&self) -> Seq<char> {
        self.0@
    }
}

impl PartialEq for Uri {
    fn eq(&self, other: &Self) -> (r: bool)
        ensures
            r == (self@ == other@),
    {
        self.0 == other.0
    }
}

impl vstd::std_specs::cmp::PartialEqSpecImpl for Uri {
    open spec fn obeys_eq_spec() -> bool {
        true
    }

    open spec fn eq_spec(&self, other: &Self) -> bool {
        self@ == other@
    }
}

impl Eq for Uri {}

/// The closed enumeration of recognized key-suite identifiers.
#[derive(Clone, Copy, Debug, PartialEq, Eq, Hash, Structural)]
pub enum VerificationMethodType {
    JWK2020,
    ECDSASECP256K12019,
    Ed255192018,
    Bls12381G12020,
    Bls12381G22020,
    PGP2021,
    ECDSASECP256K1Recovery2020,
    VerifiableCondition2021,
}

impl Default for VerificationMethodType {
    fn default() -> (res: Self)
        ensures
            res == VerificationMethodType::JWK2020,
    {
        VerificationMethodType::JWK2020
    }
}

/// The wire name of each key-suite identifier.
pub open spec fn vm_type_name(t: VerificationMethodType) -> Seq<char> {
    match t {
        VerificationMethodType::JWK2020 => ("JsonWebKey2020")@,
        VerificationMethodType::ECDSASECP256K12019 => ("EcdsaSecp256k1VerificationKey2019")@,
        VerificationMethodType::Ed255192018 => ("Ed25519VerificationKey2018")@,
        VerificationMethodType::Bls12381G12020 => ("Bls12381G1Key2020")@,
        VerificationMethodType::Bls12381G22020 => ("Bls12381G2Key2020")@,
        VerificationMethodType::PGP2021 => ("PgpVerificationKey2021")@,
        VerificationMethodType::ECDSASECP256K1Recovery2020 => (
        "EcdsaSecp256k1RecoveryMethod2020")@,
        VerificationMethodType::VerifiableCondition2021 => ("VerifiableCondition2021")@,
    }
}

impl VerificationMethodType {
    /// The wire name of this key-suite identifier.
    pub fn to_string(&self) -> (r: String)
        ensures
            r@ == vm_type_name(*self),
    {
        match self {
            VerificationMethodType::JWK2020 => String::from_str("JsonWebKey2020"),
            VerificationMethodType::ECDSASECP256K12019 => String::from_str(
                "EcdsaSecp256k1VerificationKey2019",
            ),
            VerificationMethodType::Ed255192018 => String::from_str("Ed25519VerificationKey2018"),
            VerificationMethodType::Bls12381G12020 => String::from_str("Bls12381G1Key2020"),
            VerificationMethodType::Bls12381G22020 => String::from_str("Bls12381G2Key2020"),
            VerificationMethodType::PGP2021 => String::from_str("PgpVerificationKey2021"),
            VerificationMethodType::ECDSASECP256K1Recovery2020 => String::from_str(
                "EcdsaSecp256k1RecoveryMethod2020",
            ),
            VerificationMethodType::VerifiableCondition2021 => String::from_str(
                "VerifiableCondition2021",
            ),
        }
    }

    /// Recognize a wire name; `None` for anything outside the enumeration.
    pub fn from_name(s: &str) -> (r: Option<VerificationMethodType>)
        ensures
            r matches Some(t) ==> s@ == vm_type_name(t),
            r is None ==> forall|t: VerificationMethodType| s@ != vm_type_name(t),
    {
        let owned = String::from_str(s);
        proof {
            reveal_strlit("JsonWebKey2020");
            reveal_strlit("EcdsaSecp256k1VerificationKey2019");
            reveal_strlit("Ed25519VerificationKey2018");
            reveal_strlit("Bls12381G1Key2020");
            reveal_strlit("Bls12381G2Key2020");
            reveal_strlit("PgpVerificationKey2021");
            reveal_strlit("EcdsaSecp256k1RecoveryMethod2020");
            reveal_strlit("VerifiableCondition2021");
        }
        if owned == String::from_str("JsonWebKey2020") {
            Some(VerificationMethodType::JWK2020)
        } else if owned == String::from_str("EcdsaSecp256k1VerificationKey2019") {
            Some(VerificationMethodType::ECDSASECP256K12019)
        } else if owned == String::from_str("Ed25519VerificationKey2018") {
            Some(VerificationMethodType::Ed255192018)
        } else if owned == String::from_str("Bls12381G1Key2020") {
            Some(VerificationMethodType::Bls12381G12020)
        } else if owned == String::from_str("Bls12381G2Key2020") {
            Some(VerificationMethodType::Bls12381G22020)
        } else if owned == String::from_str("PgpVerificationKey2021") {
            Some(VerificationMethodType::PGP2021)
        } else if owned == String::from_str("EcdsaSecp256k1RecoveryMethod2020") {
            Some(VerificationMethodType::ECDSASECP256K1Recovery2020)
        } else if owned == String::from_str("VerifiableCondition2021") {
            Some(VerificationMethodType::VerifiableCondition2021)
        } else {
            None
        }
    }
}

/// The recognized service types of the DID registries.
#[derive(Clone, Copy, Debug, PartialEq, Eq, Hash, Structural)]
pub enum ServiceType {
    CredentialRegistry,
    LinkedDomains,
}

/// The wire name of each service type.
pub open spec fn service_type_name(t: ServiceType) -> Seq<char> {
    match t {
        ServiceType::LinkedDomains => ("LinkedDomains")@,
        ServiceType::CredentialRegistry => ("CredentialRegistry")@,
    }
}

impl ServiceType {
    /// The wire name of this service type.
    pub fn to_string(&self) -> (r: String)
        ensures
            r@ == service_type_name(*self),
    {
        match self {
            ServiceType::LinkedDomains => String::from_str("LinkedDomains"),
            ServiceType::CredentialRegistry => String::from_str("CredentialRegistry"),
        }
    }

    /// Recognize a wire name; `None` for anything outside the enumeration.
    pub fn from_name(s: &str) -> (r: Option<ServiceType>)
        ensures
            r matches Some(t) ==> s@ == service_type_name(t),
            r is None ==> forall|t: ServiceType| s@ != service_type_name(t),
    {
        let owned = String::from_str(s);
        proof {
            reveal_strlit("LinkedDomains");
            reveal_strlit("CredentialRegistry");
        }
        if owned == String::from_str("LinkedDomains") {
            Some(ServiceType::LinkedDomains)
        } else if owned == String::from_str("CredentialRegistry") {
            Some(ServiceType::CredentialRegistry)
        } else {
            None
        }
    }
}

/// The mathematical value of a [`VerificationMethod`].
pub struct VmView {
    pub id: UrlView,
    pub controller: DidView,
    pub typ: VerificationMethodType,
    pub public_key_jwk: Option<Seq<u8>>,
    pub public_key_multibase: Option<Seq<u8>>,
}

/// A cryptographic key description bound to a DID: its locator `id`, its
/// controlling identifier, its suite type, and at most one piece of public
/// key material. Identity within a document's set goes by `id` alone.
#[derive(Clone, Debug, PartialEq)]
pub struct VerificationMethod {
    pub id: URL,
    pub controller: DID,
    pub typ: VerificationMethodType,
    pub public_key_jwk: Option<JWK>,
    pub public_key_multibase: Option<MultiBase>,
}

impl View for VerificationMethod {
    type V = VmView;

    open spec fn view(&self) -> VmView {
        VmView {
            id: self.id@,
            controller: self.controller@,
            typ: self.typ,
            public_key_jwk: match self.public_key_jwk {
                Some(k) => Some(k@),
                None => None,
            },
            public_key_multibase: match self.public_key_multibase {
                Some(m) => Some(m@),
                None => None,
            },
        }
    }
}

impl Default for VerificationMethod {
    /// A placeholder method with empty identifiers and no key material.
    fn default() -> (res: Self)
        ensures
            res@.public_key_jwk is None,
            res@.public_key_multibase is None,
            res@.typ == VerificationMethodType::JWK2020,
    {
        VerificationMethod {
            id: Default::default(),
            controller: Default::default(),
            typ: VerificationMethodType::JWK2020,
            public_key_jwk: None,
            public_key_multibase: None,
        }
    }
}

/// A verification method carries conflicting key material when both fields
/// are populated; zero or one is fine.
pub open spec fn vm_conflicting(v: VmView) -> bool {
    v.public_key_jwk is Some && v.public_key_multibase is Some
}

impl VerificationMethod {
    /// Valid exactly when at most one key field is populated; fails with
    /// [`Error::ConflictingKeyMaterial`] when both are.
    pub fn valid(&self) -> (r: Result<(), Error>)
        ensures
            r is Ok <==> !vm_conflicting(self@),
            r is Err ==> r == Err::<(), Error>(Error::ConflictingKeyMaterial),
    {
        if self.public_key_jwk.is_some() && self.public_key_multibase.is_some() {
            Err(Error::ConflictingKeyMaterial)
        } else {
            Ok(())
        }
    }
}

/// The mathematical value of [`ServiceEndpointProperties`].
pub struct SepView {
    pub origins: Option<Seq<Seq<char>>>,
    pub registries: Option<Seq<Seq<char>>>,
}

/// The property-bag form of a service endpoint target: origin URLs for
/// linked domains, registry URLs for credential registries.
#[derive(Clone, Debug, PartialEq)]
pub struct ServiceEndpointProperties {
    pub origins: Option<Vec<Uri>>,
    pub registries: Option<Vec<Uri>>,
}

/// A list of generic URLs as plain text sequences.
pub open spec fn uri_list_view(v: Seq<Uri>) -> Seq<Seq<char>> {
    Seq::new(v.len(), |i: int| v[i]@)
}

impl View for ServiceEndpointProperties {
    type V = SepView;

    open spec fn view(&self) -> SepView {
        SepView {
            origins: match self.origins {
                Some(v) => Some(uri_list_view(v@)),
                None => None,
            },
            registries: match self.registries {
                Some(v) => Some(uri_list_view(v@)),
                None => None,
            },
        }
    }
}

impl Default for ServiceEndpointProperties {
    fn default() -> (res: Self)
        ensures
            res@.origins is None,
            res@.registries is None,
    {
        ServiceEndpointProperties { origins: None, registries: None }
    }
}

/// The mathematical value of [`ServiceTypes`].
pub enum ServiceTypesView {
    One(ServiceType),
    Many(Seq<ServiceType>),
}

/// The `type` of a service endpoint on the wire: a single service type or a
/// set of them.
#[derive(Clone, Debug, PartialEq)]
pub enum ServiceTypes {
    One(ServiceType),
    Many(Vec<ServiceType>),
}

impl View for ServiceTypes {
    type V = ServiceTypesView;

    open spec fn view(&self) -> ServiceTypesView {
        match self {
            ServiceTypes::One(t) => ServiceTypesView::One(*t),
            ServiceTypes::Many(v) => ServiceTypesView::Many(v@),
        }
    }
}

/// The mathematical value of [`ServiceEndpoints`].
pub enum ServiceEndpointsView {
    Uri(Seq<char>),
    Properties(SepView),
}

/// The target of a service endpoint on the wire: a bare URL or a property
/// bag of origins and registries.
#[derive(Clone, Debug, PartialEq)]
pub enum ServiceEndpoints {
    Uri(Uri),
    Properties(ServiceEndpointProperties),
}

impl View for ServiceEndpoints {
    type V = ServiceEndpointsView;

    open spec fn view(&self) -> ServiceEndpointsView {
        match self {
            ServiceEndpoints::Uri(u) => ServiceEndpointsView::Uri(u@),
            ServiceEndpoints::Properties(p) => ServiceEndpointsView::Properties(p@),
        }
    }
}

/// The mathematical value of a [`ServiceEndpoint`].
pub struct SvcView {
    pub id: Seq<char>,
    pub typ: ServiceTypesView,
    pub endpoint: ServiceEndpointsView,
}

/// A service affected by a DID document: its generic URL id, its type or
/// types, and its endpoint target.
#[derive(Clone, Debug, PartialEq)]
pub struct ServiceEndpoint {
    pub id: Uri,
    pub typ: ServiceTypes,
    pub endpoint: ServiceEndpoints,
}

impl View for ServiceEndpoint {
    type V = SvcView;

    open spec fn view(&self) -> SvcView {
        SvcView { id: self.id@, typ: self.typ@, endpoint: self.endpoint@ }
    }
}

/// The mathematical value of a [`VerificationMethodEither`].
pub enum VmRefView {
    Method(VmView),
    Reference(UrlView),
}

/// One entry of a verification-method relationship: either an inline method
/// or a locator pointing at a method owned by some document. A locator is a
/// weak back-reference, never an owning copy.
#[derive(Clone, Debug, PartialEq)]
pub enum VerificationMethodEither {
    Method(VerificationMethod),
    Reference(URL),
}

impl View for VerificationMethodEither {
    type V = VmRefView;

    open spec fn view(&self) -> VmRefView {
        match self {
            VerificationMethodEither::Method(m) => VmRefView::Method(m@),
            VerificationMethodEither::Reference(u) => VmRefView::Reference(u@),
        }
    }
}

/// An ordered, deduplicated collection of verification-method entries, as
/// used by the five relationship fields of a document.
#[derive(Clone, Debug, PartialEq, Default)]
pub struct VerificationMethods(pub Vec<VerificationMethodEither>);

/// A reference list as plain values.
pub open spec fn ref_list_view(v: Seq<VerificationMethodEither>) -> Seq<VmRefView> {
    Seq::new(v.len(), |i: int| v[i]@)
}

impl View for VerificationMethods {
    type V = Seq<VmRefView>;

    open spec fn view(&self) -> Seq<VmRefView> {
        ref_list_view(self.0@)
    }
}

/// The mathematical value of an [`AlsoKnownAsEither`].
pub enum AkaView {
    Identifier(DidView),
    Reference(Seq<char>),
}

/// One equivalence assertion: a literal identifier, or a generic URL that
/// must be dereferenced to a document to learn its identifier.
#[derive(Clone, Debug, PartialEq)]
pub enum AlsoKnownAsEither {
    Identifier(DID),
    Reference(Uri),
}

impl View for AlsoKnownAsEither {
    type V = AkaView;

    open spec fn view(&self) -> AkaView {
        match self {
            AlsoKnownAsEither::Identifier(d) => AkaView::Identifier(d@),
            AlsoKnownAsEither::Reference(u) => AkaView::Reference(u@),
        }
    }
}

/// The ordered set of equivalence assertions of a document.
#[derive(Clone, Debug, PartialEq, Default)]
pub struct AlsoKnownAs(pub Vec<AlsoKnownAsEither>);

/// An equivalence list as plain values.
pub open spec fn aka_list_view(v: Seq<AlsoKnownAsEither>) -> Seq<AkaView> {
    Seq::new(v.len(), |i: int| v[i]@)
}

impl View for AlsoKnownAs {
    type V = Seq<AkaView>;

    open spec fn view(&self) -> Seq<AkaView> {
        aka_list_view(self.0@)
    }
}

/// The mathematical value of a [`Controller`].
pub enum ControllerView {
    One(DidView),
    Many(Seq<DidView>),
}

/// The `controller` of a document on the wire: one identifier or a set.
#[derive(Clone, Debug, PartialEq)]
pub enum Controller {
    One(DID),
    Many(Vec<DID>),
}

/// An identifier list as plain values.
pub open spec fn did_list_view(v: Seq<DID>) -> Seq<DidView> {
    Seq::new(v.len(), |i: int| v[i]@)
}

impl View for Controller {
    type V = ControllerView;

    open spec fn view(&self) -> ControllerView {
        match self {
            Controller::One(d) => ControllerView::One(d@),
            Controller::Many(v) => ControllerView::Many(did_list_view(v@)),
        }
    }
}

impl Default for Controller {
    /// An empty set of controlling identifiers.
    fn default() -> (res: Self)
        ensures
            res@ == ControllerView::Many(Seq::<DidView>::empty()),
    {
        let res = Controller::Many(Vec::new());
        proof {
            assert(did_list_view(Seq::<DID>::empty()) =~= Seq::<DidView>::empty());
        }
        res
    }
}

/// The mathematical value of a [`Context`].
pub enum ContextView {
    One(Seq<char>),
    Many(Seq<Seq<char>>),
}

/// The JSON-LD `@context` of a document, carried through opaquely: one
/// generic URL or a set.
#[derive(Clone, Debug, PartialEq)]
pub enum Context {
    One(Uri),
    Many(Vec<Uri>),
}

impl View for Context {
    type V = ContextView;

    open spec fn view(&self) -> ContextView {
        match self {
            Context::One(u) => ContextView::One(u@),
            Context::Many(v) => ContextView::Many(uri_list_view(v@)),
        }
    }
}

impl Default for Context {
    /// An empty set of context URLs.
    fn default() -> (res: Self)
        ensures
            res@ == ContextView::Many(Seq::<Seq<char>>::empty()),
    {
        let res = Context::Many(Vec::new());
        proof {
            assert(uri_list_view(Seq::<Uri>::empty()) =~= Seq::<Seq<char>>::empty());
        }
        res
    }
}

/// The mathematical value of a [`Document`].
pub struct DocView {
    pub context: Option<ContextView>,
    pub id: DidView,
    pub also_known_as: Option<Seq<AkaView>>,
    pub controller: Option<ControllerView>,
    pub verification_method: Option<Seq<VmView>>,
    pub authentication: Option<Seq<VmRefView>>,
    pub assertion_method: Option<Seq<VmRefView>>,
    pub key_agreement: Option<Seq<VmRefView>>,
    pub capability_invocation: Option<Seq<VmRefView>>,
    pub capability_delegation: Option<Seq<VmRefView>>,
    pub service: Option<Seq<SvcView>>,
}

/// A method list as plain values.
pub open spec fn vm_list_view(v: Seq<VerificationMethod>) -> Seq<VmView> {
    Seq::new(v.len(), |i: int| v[i]@)
}

/// A service list as plain values.
pub open spec fn svc_list_view(v: Seq<ServiceEndpoint>) -> Seq<SvcView> {
    Seq::new(v.len(), |i: int| v[i]@)
}

/// A decentralized identity document: the subject identifier that keys it,
/// its equivalence and control assertions, the verification methods it
/// owns, the five relationship reference sets, and its services.
#[derive(Clone, Debug, PartialEq, Default)]
pub struct Document {
    pub context: Option<Context>,
    pub id: DID,
    pub also_known_as: Option<AlsoKnownAs>,
    pub controller: Option<Controller>,
    pub verification_method: Option<Vec<VerificationMethod>>,
    pub authentication: Option<VerificationMethods>,
    pub assertion_method: Option<VerificationMethods>,
    pub key_agreement: Option<VerificationMethods>,
    pub capability_invocation: Option<VerificationMethods>,
    pub capability_delegation: Option<VerificationMethods>,
    pub service: Option<Vec<ServiceEndpoint>>,
}

impl View for Document {
    type V = DocView;

    open spec fn view(&self) -> DocView {
        DocView {
            context: match self.context {
                Some(c) => Some(c@),
                None => None,
            },
            id: self.id@,
            also_known_as: match self.also_known_as {
                Some(a) => Some(a@),
                None => None,
            },
            controller: match self.controller {
                Some(c) => Some(c@),
                None => None,
            },
            verification_method: match self.verification_method {
                Some(v) => Some(vm_list_view(v@)),
                None => None,
            },
            authentication: match self.authentication {
                Some(v) => Some(v@),
                None => None,
            },
            assertion_method: match self.assertion_method {
                Some(v) => Some(v@),
                None => None,
            },
            key_agreement: match self.key_agreement {
                Some(v) => Some(v@),
                None => None,
            },
            capability_invocation: match self.capability_invocation {
                Some(v) => Some(v@),
                None => None,
            },
            capability_delegation: match self.capability_delegation {
                Some(v) => Some(v@),
                None => None,
            },
            service: match self.service {
                Some(v) => Some(svc_list_view(v@)),
                None => None,
            },
        }
    }
}

/// What checking a reference list yields, walking it in stored order: an
/// inline method must not carry conflicting key material; a locator
/// reference needs a registry, its identifier must be stored there, and the
/// referenced document's own method set must hold an entry with that very
/// locator as its id.
pub open spec fn check_refs_spec(
    refs: Seq<VmRefView>,
    reg: Option<Map<DidView, DocView>>,
) -> Result<(), Error>
    decreases refs.len(),
{
    if refs.len() == 0 {
        Ok(())
    } else {
        match refs[0] {
            VmRefView::Method(vm) => if vm_conflicting(vm) {
                Err(Error::ConflictingKeyMaterial)
            } else {
                check_refs_spec(refs.skip(1), reg)
            },
            VmRefView::Reference(url) => match reg {
                None => Err(Error::NoRegistryForReference),
                Some(m) => if !m.contains_key(url.did) {
                    Err(Error::UnknownReferencedIdentifier)
                } else {
                    match m[url.did].verification_method {
                        None => Err(Error::VerificationMethodNotFound),
                        Some(vms) => if crate::registry::has_vm(vms, url) {
                            check_refs_spec(refs.skip(1), reg)
                        } else {
                            Err(Error::VerificationMethodNotFound)
                        },
                    }
                },
            },
        }
    }
}

/// What checking a document's own method list yields: the first method with
/// conflicting key material fails it.
pub open spec fn check_vms_spec(vms: Seq<VmView>) -> Result<(), Error>
    decreases vms.len(),
{
    if vms.len() == 0 {
        Ok(())
    } else if vm_conflicting(vms[0]) {
        Err(Error::ConflictingKeyMaterial)
    } else {
        check_vms_spec(vms.skip(1))
    }
}

/// An `Ok` result carrying unit is the one `Ok` value there is.
pub proof fn lemma_result_unit(r: Result<(), Error>)
    ensures
        r is Ok ==> r == Ok::<(), Error>(()),
{
    match r {
        Ok(u) => {
            assert(r == Ok::<(), Error>(u));
        },
        Err(_) => {},
    }
}

/// An absent reference list is trivially valid.
pub open spec fn check_opt_refs_spec(
    o: Option<Seq<VmRefView>>,
    reg: Option<Map<DidView, DocView>>,
) -> Result<(), Error> {
    match o {
        None => Ok(()),
        Some(refs) => check_refs_spec(refs, reg),
    }
}

/// What validating a whole document yields: its own method list first, then
/// the five relationship reference lists in their fixed order, stopping at
/// the first failure.
pub open spec fn doc_valid_spec(d: DocView, reg: Option<Map<DidView, DocView>>) -> Result<
    (),
    Error,
> {
    match (match d.verification_method {
        None => Ok::<(), Error>(()),
        Some(vms) => check_vms_spec(vms),
    }) {
        Err(e) => Err(e),
        Ok(()) => match check_opt_refs_spec(d.authentication, reg) {
            Err(e) => Err(e),
            Ok(()) => match check_opt_refs_spec(d.assertion_method, reg) {
                Err(e) => Err(e),
                Ok(()) => match check_opt_refs_spec(d.key_agreement, reg) {
                    Err(e) => Err(e),
                    Ok(()) => match check_opt_refs_spec(d.capability_invocation, reg) {
                        Err(e) => Err(e),
                        Ok(()) => check_opt_refs_spec(d.capability_delegation, reg),
                    },
                },
            },
        },
    }
}

/// The registry view an optional registry argument amounts to.
pub open spec fn opt_registry_view(registry: Option<&Registry>) -> Option<Map<DidView, DocView>> {
    match registry {
        Some(reg) => Some(reg@),
        None => None,
    }
}

/// The invariant of an optional registry argument.
pub open spec fn opt_registry_inv(registry: Option<&Registry>) -> bool {
    match registry {
        Some(reg) => reg.inv(),
        None => true,
    }
}

impl VerificationMethods {
    /// Check every entry in stored order, as [`check_refs_spec`] says:
    /// inline methods for conflicting key material, locator references
    /// against the registry.
    pub fn valid(&self, registry: Option<&Registry>) -> (r: Result<(), Error>)
        requires
            opt_registry_inv(registry),
        ensures
            r == check_refs_spec(self@, opt_registry_view(registry)),
    {
        let ghost m = opt_registry_view(registry);
        let ghost refs = ref_list_view(self.0@);
        proof {
            assert(refs.skip(0) =~= refs);
        }
        let mut i: usize = 0;
        while i < self.0.len()
            invariant
                i <= self.0@.len(),
                opt_registry_inv(registry),
                m == opt_registry_view(registry),
                refs == ref_list_view(self.0@),
                refs.len() == self.0@.len(),
                check_refs_spec(refs, m) == check_refs_spec(refs.skip(i as int), m),
            decreases self.0@.len() - i,
        {
            let ghost rest = refs.skip(i as int);
            proof {
                assert(rest[0] == refs[i as int]);
                assert(refs[i as int] == self.0@[i as int]@);
                assert(rest.skip(1) =~= refs.skip(i + 1));
            }
            match &self.0[i] {
                VerificationMethodEither::Method(vm) => {
                    match vm.valid() {
                        Err(e) => {
                            return Err(e);
                        },
                        Ok(()) => {},
                    }
                },
                VerificationMethodEither::Reference(url) => {
                    match registry {
                        None => {
                            return Err(Error::NoRegistryForReference);
                        },
                        Some(reg) => {
                            let target = url.to_did();
                            match reg.get(&target) {
                                None => {
                                    return Err(Error::UnknownReferencedIdentifier);
                                },
                                Some(doc) => {
                                    match &doc.verification_method {
                                        None => {
                                            return Err(Error::VerificationMethodNotFound);
                                        },
                                        Some(vm_list) => {
                                            let ghost vms = vm_list_view(vm_list@);
                                            proof {
                                                assert(reg@[url@.did].verification_method == Some(
                                                    vms,
                                                ));
                                            }
                                            let mut j: usize = 0;
                                            let mut found = false;
                                            while j < vm_list.len()
                                                invariant
                                                    j <= vm_list@.len(),
                                                    vms == vm_list_view(vm_list@),
                                                    vms.len() == vm_list@.len(),
                                                    found ==> exists|w: int|
                                                        0 <= w < vms.len() && (
                                                        #[trigger] vms[w]).id == url@,
                                                    !found ==> forall|w: int|
                                                        0 <= w < j ==> (#[trigger] vms[w]).id
                                                            != url@,
                                                decreases vm_list@.len() - j,
                                            {
                                                if !found && *url == vm_list[j].id {
                                                    proof {
                                                        assert(vms[j as int] == vm_list@[
                                                        j as int]@);
                                                    }
                                                    found = true;
                                                }
                                                proof {
                                                    assert(vms[j as int] == vm_list@[j as int]@);
                                                }
                                                j = j + 1;
                                            }
                                            if !found {
                                                proof {
                                                    if crate::registry::has_vm(vms, url@) {
                                                        let w = choose|w: int|
                                                            0 <= w < vms.len() && (
                                                            #[trigger] vms[w]).id == url@;
                                                    }
                                                }
                                                return Err(Error::VerificationMethodNotFound);
                                            }
                                            proof {
                                                assert(crate::registry::has_vm(vms, url@));
                                            }
                                        },
                                    }
                                },
                            }
                        },
                    }
                },
            }
            i = i + 1;
        }
        proof {
            assert(refs.skip(refs.len() as int) =~= Seq::<VmRefView>::empty());
        }
        Ok(())
    }
}

impl Document {
    /// Validate the document as [`doc_valid_spec`] says: its own method
    /// list, then the five relationship reference lists against the
    /// registry.
    pub fn valid(&self, registry: Option<&Registry>) -> (r: Result<(), Error>)
        requires
            opt_registry_inv(registry),
        ensures
            r == doc_valid_spec(self@, opt_registry_view(registry)),
    {
        match &self.verification_method {
            None => {},
            Some(vm_list) => {
                let ghost vms = vm_list_view(vm_list@);
                proof {
                    assert(vms.skip(0) =~= vms);
                    assert(self@.verification_method == Some(vms));
                }
                let mut i: usize = 0;
                while i < vm_list.len()
                    invariant
                        i <= vm_list@.len(),
                        vms == vm_list_view(vm_list@),
                        vms.len() == vm_list@.len(),
                        self@.verification_method == Some(vms),
                        check_vms_spec(vms) == check_vms_spec(vms.skip(i as int)),
                    decreases vm_list@.len() - i,
                {
                    let ghost rest = vms.skip(i as int);
                    proof {
                        assert(rest[0] == vms[i as int]);
                        assert(vms[i as int] == vm_list@[i as int]@);
                        assert(rest.skip(1) =~= vms.skip(i + 1));
                    }
                    match vm_list[i].valid() {
                        Err(e) => {
                            proof {
                                assert(check_vms_spec(vms) == Err::<(), Error>(e));
                            }
                            return Err(e);
                        },
                        Ok(()) => {},
                    }
                    i = i + 1;
                }
                proof {
                    assert(vms.skip(vms.len() as int) =~= Seq::<VmView>::empty());
                    assert(check_vms_spec(Seq::<VmView>::empty()) == Ok::<(), Error>(()));
                    assert(check_vms_spec(vms) == Ok::<(), Error>(()));
                }
            },
        }
        let checked = match &self.authentication {
            Some(refs) => {
                let c = refs.valid(registry);
                proof {
                    assert(self@.authentication == Some(refs@));
                }
                c
            },
            None => Ok(()),
        };
        proof {
            assert(checked == check_opt_refs_spec(
                self@.authentication,
                opt_registry_view(registry),
            ));
        }
        match checked {
            Err(e) => {
                return Err(e);
            },
            Ok(()) => {},
        }
        let checked = match &self.assertion_method {
            Some(refs) => {
                let c = refs.valid(registry);
                proof {
                    assert(self@.assertion_method == Some(refs@));
                }
                c
            },
            None => Ok(()),
        };
        proof {
            assert(checked == check_opt_refs_spec(
                self@.assertion_method,
                opt_registry_view(registry),
            ));
        }
        match checked {
            Err(e) => {
                return Err(e);
            },
            Ok(()) => {},
        }
        let checked = match &self.key_agreement {
            Some(refs) => {
                let c = refs.valid(registry);
                proof {
                    assert(self@.key_agreement == Some(refs@));
                }
                c
            },
            None => Ok(()),
        };
        proof {
            assert(checked == check_opt_refs_spec(
                self@.key_agreement,
                opt_registry_view(registry),
            ));
        }
        match checked {
            Err(e) => {
                return Err(e);
            },
            Ok(()) => {},
        }
        let checked = match &self.capability_invocation {
            Some(refs) => {
                let c = refs.valid(registry);
                proof {
                    assert(self@.capability_invocation == Some(refs@));
                }
                c
            },
            None => Ok(()),
        };
        proof {
            assert(checked == check_opt_refs_spec(
                self@.capability_invocation,
                opt_registry_view(registry),
            ));
        }
        match checked {
            Err(e) => {
                return Err(e);
            },
            Ok(()) => {},
        }
        let checked = match &self.capability_delegation {
            Some(refs) => {
                let c = refs.valid(registry);
                proof {
                    assert(self@.capability_delegation == Some(refs@));
                }
                c
            },
            None => Ok(()),
        };
        proof {
            assert(checked == check_opt_refs_spec(
                self@.capability_delegation,
                opt_registry_view(registry),
            ));
        }
        match checked {
            Err(e) => {
                return Err(e);
            },
            Ok(()) => {},
        }
        proof {
            let m = opt_registry_view(registry);
            lemma_result_unit(check_opt_refs_spec(self@.authentication, m));
            lemma_result_unit(check_opt_refs_spec(self@.assertion_method, m));
            lemma_result_unit(check_opt_refs_spec(self@.key_agreement, m));
            lemma_result_unit(check_opt_refs_spec(self@.capability_invocation, m));
            lemma_result_unit(check_opt_refs_spec(self@.capability_delegation, m));
            assert((match self@.verification_method {
                None => Ok::<(), Error>(()),
                Some(v) => check_vms_spec(v),
            }) == Ok::<(), Error>(()));
            assert(check_opt_refs_spec(self@.authentication, m) == Ok::<(), Error>(()));
            assert(check_opt_refs_spec(self@.assertion_method, m) == Ok::<(), Error>(()));
            assert(check_opt_refs_spec(self@.key_agreement, m) == Ok::<(), Error>(()));
            assert(check_opt_refs_spec(self@.capability_invocation, m) == Ok::<(), Error>(()));
            assert(check_opt_refs_spec(self@.capability_delegation, m) == Ok::<(), Error>(()));
            assert(doc_valid_spec(self@, m) == Ok::<(), Error>(()));
        }
        Ok(())
    }
}

} // verus!
