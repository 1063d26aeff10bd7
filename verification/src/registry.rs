use crate::did::{DidView, DID};
use crate::document::{AkaView, DocView, Document, Uri, VerificationMethod, VmView};
use crate::errors::Error;
use crate::url::{UrlView, URL};
use vstd::prelude::*;

verus! {

/// The document views of a stored sequence, in storage order.
pub open spec fn docs_views(s: Seq<Document>) -> Seq<DocView> {
    Seq::new(s.len(), |i: int| s[i]@)
}

/// Whether some stored document carries the identifier.
pub open spec fn has_doc(s: Seq<Document>, id: DidView) -> bool {
    exists|i: int| 0 <= i < s.len() && (#[trigger] s[i])@.id == id
}

/// The first index whose document carries the identifier, or the length.
pub open spec fn find_doc(s: Seq<Document>, id: DidView) -> int
    decreases s.len(),
{
    if s.len() == 0 {
        0
    } else if s[0]@.id == id {
        0
    } else {
        1 + find_doc(s.skip(1), id)
    }
}

/// The keyed store a document sequence amounts to.
pub open spec fn docs_map(s: Seq<Document>) -> Map<DidView, DocView> {
    Map::new(|k: DidView| has_doc(s, k), |k: DidView| s[find_doc(s, k)]@)
}

/// [`find_doc`] is in bounds, lands on the identifier when present, and
/// nothing before it matches.
pub proof fn lemma_find_doc_props(s: Seq<Document>, id: DidView)
    ensures
        0 <= find_doc(s, id) <= s.len(),
        has_doc(s, id) ==> find_doc(s, id) < s.len() && s[find_doc(s, id)]@.id == id,
        !has_doc(s, id) ==> find_doc(s, id) == s.len(),
        forall|j: int| 0 <= j < find_doc(s, id) ==> (#[trigger] s[j])@.id != id,
    decreases s.len(),
{
    if s.len() > 0 && s[0]@.id != id {
        lemma_find_doc_props(s.skip(1), id);
        assert forall|j: int| 0 <= j < s.skip(1).len() implies s.skip(1)[j] == s[j + 1] by {}
        if has_doc(s, id) {
            let w = choose|w: int| 0 <= w < s.len() && (#[trigger] s[w])@.id == id;
            assert(s.skip(1)[w - 1]@.id == id);
            assert(has_doc(s.skip(1), id));
        }
        if has_doc(s.skip(1), id) {
            let w = choose|w: int| 0 <= w < s.skip(1).len() && (#[trigger] s.skip(1)[w])@.id == id;
            assert(s[w + 1]@.id == id);
            assert(has_doc(s, id));
        }
        assert forall|j: int| 0 <= j < find_doc(s, id) implies (#[trigger] s[j])@.id != id by {
            if j > 0 {
                assert(s.skip(1)[j - 1] == s[j]);
            }
        }
    }
}

/// A position holding the identifier with nothing matching before it is
/// exactly [`find_doc`].
pub proof fn lemma_find_doc_is(s: Seq<Document>, id: DidView, k: int)
    requires
        0 <= k <= s.len(),
        k < s.len() ==> s[k]@.id == id,
        forall|j: int| 0 <= j < k ==> (#[trigger] s[j])@.id != id,
    ensures
        find_doc(s, id) == k,
    decreases s.len(),
{
    if k == 0 {
    } else {
        assert(s[0]@.id != id);
        assert forall|j: int| 0 <= j < k - 1 implies (#[trigger] s.skip(1)[j])@.id != id by {
            assert(s.skip(1)[j] == s[j + 1]);
        }
        assert(k - 1 < s.skip(1).len() ==> s.skip(1)[k - 1] == s[k]);
        lemma_find_doc_is(s.skip(1), id, k - 1);
    }
}

/// Identifiers are pairwise distinct across the stored documents.
pub open spec fn docs_unique(s: Seq<Document>) -> bool {
    forall|i: int, j: int|
        0 <= i < j < s.len() ==> (#[trigger] s[i])@.id != (#[trigger] s[j])@.id
}

/// In a unique store, any position holding the identifier is the map's
/// value for it.
pub proof fn lemma_docs_map_at(s: Seq<Document>, i: int)
    requires
        docs_unique(s),
        0 <= i < s.len(),
    ensures
        docs_map(s).contains_key(s[i]@.id),
        docs_map(s)[s[i]@.id] == s[i]@,
{
    let id = s[i]@.id;
    assert(has_doc(s, id));
    lemma_find_doc_props(s, id);
    let f = find_doc(s, id);
    if f != i {
        assert(s[f]@.id == id && s[i]@.id == id);
    }
}

/// Whether the remote cache already maps the URL.
pub open spec fn has_cached(s: Seq<(Uri, DID)>, u: Seq<char>) -> bool {
    exists|i: int| 0 <= i < s.len() && (#[trigger] s[i]).0@ == u
}

/// The first cache index mapping the URL, or the length.
pub open spec fn find_cached(s: Seq<(Uri, DID)>, u: Seq<char>) -> int
    decreases s.len(),
{
    if s.len() == 0 {
        0
    } else if s[0].0@ == u {
        0
    } else {
        1 + find_cached(s.skip(1), u)
    }
}

/// The URL-to-identifier map a cache list amounts to.
pub open spec fn cache_map(s: Seq<(Uri, DID)>) -> Map<Seq<char>, DidView> {
    Map::new(|u: Seq<char>| has_cached(s, u), |u: Seq<char>| s[find_cached(s, u)].1@)
}

/// [`find_cached`] is in bounds, lands on the URL when present, and nothing
/// before it matches.
pub proof fn lemma_find_cached_props(s: Seq<(Uri, DID)>, u: Seq<char>)
    ensures
        0 <= find_cached(s, u) <= s.len(),
        has_cached(s, u) ==> find_cached(s, u) < s.len() && s[find_cached(s, u)].0@ == u,
        !has_cached(s, u) ==> find_cached(s, u) == s.len(),
        forall|j: int| 0 <= j < find_cached(s, u) ==> (#[trigger] s[j]).0@ != u,
    decreases s.len(),
{
    if s.len() > 0 && s[0].0@ != u {
        lemma_find_cached_props(s.skip(1), u);
        assert forall|j: int| 0 <= j < s.skip(1).len() implies s.skip(1)[j] == s[j + 1] by {}
        if has_cached(s, u) {
            let w = choose|w: int| 0 <= w < s.len() && (#[trigger] s[w]).0@ == u;
            assert(s.skip(1)[w - 1].0@ == u);
            assert(has_cached(s.skip(1), u));
        }
        if has_cached(s.skip(1), u) {
            let w = choose|w: int|
                0 <= w < s.skip(1).len() && (#[trigger] s.skip(1)[w]).0@ == u;
            assert(s[w + 1].0@ == u);
            assert(has_cached(s, u));
        }
        assert forall|j: int| 0 <= j < find_cached(s, u) implies (#[trigger] s[j]).0@ != u by {
            if j > 0 {
                assert(s.skip(1)[j - 1] == s[j]);
            }
        }
    }
}

/// The outcome of an equivalence query that could be decided from the
/// documents at hand: either settled, or blocked on a remote document that
/// the caller may fetch and hand back through [`Registry::cache_remote`].
#[derive(Clone, Debug, PartialEq)]
pub enum Equivalence {
    /// Both sides claim each other: the identifiers are equivalent.
    Holds,
    /// A claim is absent or not reciprocated; this is a result, not an error.
    DoesNotHold,
    /// Resolution needs the document behind this URL before it can go on.
    NeedsDocument(Uri),
}

/// The mathematical value of an [`Equivalence`].
pub enum EqView {
    Holds,
    DoesNotHold,
    Needs(Seq<char>),
}

impl View for Equivalence {
    type V = EqView;

    open spec fn view(&self) -> EqView {
        match self {
            Equivalence::Holds => EqView::Holds,
            Equivalence::DoesNotHold => EqView::DoesNotHold,
            Equivalence::NeedsDocument(u) => EqView::Needs(u@),
        }
    }
}

/// Resolve one equivalence assertion to an identifier: a literal identifier
/// stands for itself; a URL resolves through the remote cache, or not at
/// all.
pub open spec fn resolve_aka(cache: Map<Seq<char>, DidView>, a: AkaView) -> Option<DidView> {
    match a {
        AkaView::Identifier(d) => Some(d),
        AkaView::Reference(u) => if cache.contains_key(u) {
            Some(cache[u])
        } else {
            None
        },
    }
}

/// The URL of an assertion that failed to resolve.
pub open spec fn aka_uri(a: AkaView) -> Seq<char> {
    match a {
        AkaView::Reference(u) => u,
        AkaView::Identifier(_) => Seq::empty(),
    }
}

/// The equivalence assertions of a document, an empty sequence when absent.
pub open spec fn aka_of(d: DocView) -> Seq<AkaView> {
    match d.also_known_as {
        Some(a) => a,
        None => Seq::empty(),
    }
}

/// Every assertion of the list resolves to an identifier under the cache.
pub open spec fn all_resolved(cache: Map<Seq<char>, DidView>, entries: Seq<AkaView>) -> bool {
    forall|i: int| 0 <= i < entries.len() ==> resolve_aka(cache, #[trigger] entries[i]) is Some
}

/// Some assertion of the list resolves to `target`.
pub open spec fn claims(
    cache: Map<Seq<char>, DidView>,
    entries: Seq<AkaView>,
    target: DidView,
) -> bool {
    exists|i: int|
        0 <= i < entries.len() && resolve_aka(cache, #[trigger] entries[i]) == Some(target)
}

/// The reciprocation step: walk the other side's assertions in stored order
/// for one that resolves back to `a_id`.
pub enum BStep {
    Found,
    NotFound,
    Needs(Seq<char>),
}

/// Walk `bs` in stored order; the first unresolvable assertion blocks, the
/// first one resolving to `a_id` succeeds.
pub open spec fn scan_back_spec(
    cache: Map<Seq<char>, DidView>,
    bs: Seq<AkaView>,
    a_id: DidView,
) -> BStep
    decreases bs.len(),
{
    if bs.len() == 0 {
        BStep::NotFound
    } else {
        match resolve_aka(cache, bs[0]) {
            None => BStep::Needs(aka_uri(bs[0])),
            Some(d) => if d == a_id {
                BStep::Found
            } else {
                scan_back_spec(cache, bs.skip(1), a_id)
            },
        }
    }
}

/// Walk this side's assertions in stored order; each one resolving to the
/// other identifier triggers the reciprocation walk.
pub open spec fn scan_aka_spec(
    cache: Map<Seq<char>, DidView>,
    a_entries: Seq<AkaView>,
    b_entries: Seq<AkaView>,
    a_id: DidView,
    b_id: DidView,
) -> EqView
    decreases a_entries.len(),
{
    if a_entries.len() == 0 {
        EqView::DoesNotHold
    } else {
        match resolve_aka(cache, a_entries[0]) {
            None => EqView::Needs(aka_uri(a_entries[0])),
            Some(d) => if d == b_id {
                match scan_back_spec(cache, b_entries, a_id) {
                    BStep::Found => EqView::Holds,
                    BStep::Needs(u) => EqView::Needs(u),
                    BStep::NotFound => scan_aka_spec(
                        cache,
                        a_entries.skip(1),
                        b_entries,
                        a_id,
                        b_id,
                    ),
                }
            } else {
                scan_aka_spec(cache, a_entries.skip(1), b_entries, a_id, b_id)
            },
        }
    }
}

/// What an equivalence query returns: both identifiers must be stored;
/// equivalence holds when an assertion of each side resolves to the other,
/// walking assertions in stored order; an unresolvable URL assertion blocks
/// on its document when remote caching is enabled and is refused otherwise.
pub open spec fn equivalent_spec(
    m: Map<DidView, DocView>,
    cache: Map<Seq<char>, DidView>,
    remote: bool,
    a: DidView,
    b: DidView,
) -> Result<EqView, Error> {
    if !m.contains_key(a) {
        Err(Error::UnknownIdentifier)
    } else if !m.contains_key(b) {
        Err(Error::UnknownIdentifier)
    } else if m[a].also_known_as is None {
        Ok(EqView::DoesNotHold)
    } else {
        match scan_aka_spec(cache, aka_of(m[a]), aka_of(m[b]), a, b) {
            EqView::Needs(u) => if remote {
                Ok(EqView::Needs(u))
            } else {
                Err(Error::RemoteCacheDisabled)
            },
            outcome => Ok(outcome),
        }
    }
}

/// Whether the identifier occurs in the list.
pub open spec fn in_did_list(s: Seq<DidView>, b: DidView) -> bool {
    exists|i: int| 0 <= i < s.len() && s[i] == b
}

/// When every assertion resolves, the reciprocation walk finds a claim
/// exactly when one exists.
proof fn lemma_scan_back_decides(cache: Map<Seq<char>, DidView>, bs: Seq<AkaView>, a_id: DidView)
    requires
        all_resolved(cache, bs),
    ensures
        scan_back_spec(cache, bs, a_id) == if claims(cache, bs, a_id) {
            BStep::Found
        } else {
            BStep::NotFound
        },
    decreases bs.len(),
{
    if bs.len() == 0 {
        assert(!claims(cache, bs, a_id));
    } else {
        assert(resolve_aka(cache, bs[0]) is Some);
        if resolve_aka(cache, bs[0]) == Some(a_id) {
            assert(claims(cache, bs, a_id));
        } else {
            assert forall|i: int| 0 <= i < bs.skip(1).len() implies resolve_aka(
                cache,
                #[trigger] bs.skip(1)[i],
            ) is Some by {
                assert(bs.skip(1)[i] == bs[i + 1]);
            }
            lemma_scan_back_decides(cache, bs.skip(1), a_id);
            if claims(cache, bs, a_id) {
                let w = choose|w: int|
                    0 <= w < bs.len() && resolve_aka(cache, #[trigger] bs[w]) == Some(a_id);
                assert(bs.skip(1)[w - 1] == bs[w]);
                assert(claims(cache, bs.skip(1), a_id));
            }
            if claims(cache, bs.skip(1), a_id) {
                let w = choose|w: int|
                    0 <= w < bs.skip(1).len() && resolve_aka(cache, #[trigger] bs.skip(1)[w])
                        == Some(a_id);
                assert(bs[w + 1] == bs.skip(1)[w]);
                assert(claims(cache, bs, a_id));
            }
        }
    }
}

/// When every assertion on both sides resolves, the equivalence walk
/// decides `Holds` exactly when each side claims the other.
proof fn lemma_scan_aka_decides(
    cache: Map<Seq<char>, DidView>,
    av: Seq<AkaView>,
    bv: Seq<AkaView>,
    a: DidView,
    b: DidView,
)
    requires
        all_resolved(cache, av),
        all_resolved(cache, bv),
    ensures
        scan_aka_spec(cache, av, bv, a, b) == if claims(cache, av, b) && claims(cache, bv, a) {
            EqView::Holds
        } else {
            EqView::DoesNotHold
        },
    decreases av.len(),
{
    if av.len() == 0 {
        assert(!claims(cache, av, b));
    } else {
        assert(resolve_aka(cache, av[0]) is Some);
        assert forall|i: int| 0 <= i < av.skip(1).len() implies resolve_aka(
            cache,
            #[trigger] av.skip(1)[i],
        ) is Some by {
            assert(av.skip(1)[i] == av[i + 1]);
        }
        lemma_scan_aka_decides(cache, av.skip(1), bv, a, b);
        if resolve_aka(cache, av[0]) == Some(b) {
            assert(claims(cache, av, b));
            lemma_scan_back_decides(cache, bv, a);
        } else {
            if claims(cache, av, b) {
                let w = choose|w: int|
                    0 <= w < av.len() && resolve_aka(cache, #[trigger] av[w]) == Some(b);
                assert(av.skip(1)[w - 1] == av[w]);
                assert(claims(cache, av.skip(1), b));
            }
            if claims(cache, av.skip(1), b) {
                let w = choose|w: int|
                    0 <= w < av.skip(1).len() && resolve_aka(cache, #[trigger] av.skip(1)[w])
                        == Some(b);
                assert(av[w + 1] == av.skip(1)[w]);
                assert(claims(cache, av, b));
            }
        }
    }
}

/// Law: equivalence is a mutual claim, symmetrically. When every assertion
/// on both sides resolves — literal identifiers always do — the query
/// settles, it holds exactly when each side claims the other, and it holds
/// for `(a, b)` exactly when it holds for `(b, a)`: a one-sided claim gives
/// `DoesNotHold` in both directions, never an error.
pub proof fn lemma_equivalence_symmetric(
    m: Map<DidView, DocView>,
    cache: Map<Seq<char>, DidView>,
    remote: bool,
    a: DidView,
    b: DidView,
)
    requires
        m.contains_key(a),
        m.contains_key(b),
        all_resolved(cache, aka_of(m[a])),
        all_resolved(cache, aka_of(m[b])),
    ensures
        equivalent_spec(m, cache, remote, a, b) == Ok::<EqView, Error>(
            if claims(cache, aka_of(m[a]), b) && claims(cache, aka_of(m[b]), a) {
                EqView::Holds
            } else {
                EqView::DoesNotHold
            },
        ),
        (equivalent_spec(m, cache, remote, a, b) == Ok::<EqView, Error>(EqView::Holds)) <==> (
        equivalent_spec(m, cache, remote, b, a) == Ok::<EqView, Error>(EqView::Holds)),
{
    lemma_scan_aka_decides(cache, aka_of(m[a]), aka_of(m[b]), a, b);
    lemma_scan_aka_decides(cache, aka_of(m[b]), aka_of(m[a]), b, a);
    if m[a].also_known_as is None {
        assert(aka_of(m[a]) =~= Seq::<AkaView>::empty());
        assert(!claims(cache, aka_of(m[a]), b));
    }
    if m[b].also_known_as is None {
        assert(aka_of(m[b]) =~= Seq::<AkaView>::empty());
        assert(!claims(cache, aka_of(m[b]), a));
    }
}

/// Law: identifiers key documents uniquely. Storing a document under a
/// fresh identifier makes that identifier resolve to exactly this document
/// — so a later insert of the same identifier meets an occupied key and is
/// refused as a duplicate, while lookups return the stored document.
pub proof fn lemma_registry_uniqueness(m: Map<DidView, DocView>, doc: DocView)
    requires
        !m.contains_key(doc.id),
    ensures
        m.insert(doc.id, doc).contains_key(doc.id),
        m.insert(doc.id, doc)[doc.id] == doc,
{
}

/// What a control query returns: an identifier controls itself without any
/// lookup; otherwise both identifiers must be stored, and the subject's
/// `controller` field must name the controller, singly or in its set.
pub open spec fn controls_spec(m: Map<DidView, DocView>, a: DidView, b: DidView) -> Result<
    bool,
    Error,
> {
    if a == b {
        Ok(true)
    } else if !m.contains_key(a) {
        Err(Error::UnknownIdentifier)
    } else if !m.contains_key(b) {
        Err(Error::UnknownIdentifier)
    } else {
        Ok(
            match m[a].controller {
                None => false,
                Some(crate::document::ControllerView::One(d)) => d == b,
                Some(crate::document::ControllerView::Many(s)) => in_did_list(s, b),
            },
        )
    }
}

/// The first index of a verification-method list whose id is the locator,
/// or the length.
pub open spec fn find_vm(vms: Seq<VmView>, u: UrlView) -> int
    decreases vms.len(),
{
    if vms.len() == 0 {
        0
    } else if vms[0].id == u {
        0
    } else {
        1 + find_vm(vms.skip(1), u)
    }
}

/// Whether some method of the list has the locator as its id.
pub open spec fn has_vm(vms: Seq<VmView>, u: UrlView) -> bool {
    exists|i: int| 0 <= i < vms.len() && (#[trigger] vms[i]).id == u
}

/// [`find_vm`] is in bounds, lands on the locator when present, and nothing
/// before it matches.
pub proof fn lemma_find_vm_props(vms: Seq<VmView>, u: UrlView)
    ensures
        0 <= find_vm(vms, u) <= vms.len(),
        has_vm(vms, u) ==> find_vm(vms, u) < vms.len() && vms[find_vm(vms, u)].id == u,
        !has_vm(vms, u) ==> find_vm(vms, u) == vms.len(),
        forall|j: int| 0 <= j < find_vm(vms, u) ==> (#[trigger] vms[j]).id != u,
    decreases vms.len(),
{
    if vms.len() > 0 && vms[0].id != u {
        lemma_find_vm_props(vms.skip(1), u);
        assert forall|j: int| 0 <= j < vms.skip(1).len() implies vms.skip(1)[j] == vms[j + 1] by {}
        if has_vm(vms, u) {
            let w = choose|w: int| 0 <= w < vms.len() && (#[trigger] vms[w]).id == u;
            assert(vms.skip(1)[w - 1].id == u);
            assert(has_vm(vms.skip(1), u));
        }
        if has_vm(vms.skip(1), u) {
            let w = choose|w: int| 0 <= w < vms.skip(1).len() && (#[trigger] vms.skip(1)[w]).id == u;
            assert(vms[w + 1].id == u);
            assert(has_vm(vms, u));
        }
        assert forall|j: int| 0 <= j < find_vm(vms, u) implies (#[trigger] vms[j]).id != u by {
            if j > 0 {
                assert(vms.skip(1)[j - 1] == vms[j]);
            }
        }
    }
}

/// An in-memory registry of documents keyed by their identifiers, with an
/// optional remote-document cache. Control, equivalence and key lookups are
/// computed at query time; nothing derived is stored. Remote documents are
/// never fetched here: a blocked resolution surfaces as
/// [`Equivalence::NeedsDocument`] and the caller hands the fetched document
/// back through [`Registry::cache_remote`].
pub struct Registry {
    docs: Vec<Document>,
    url_cache: Vec<(Uri, DID)>,
    remote_cache: bool,
}

impl View for Registry {
    type V = Map<DidView, DocView>;

    closed spec fn view(&self) -> Map<DidView, DocView> {
        docs_map(self.docs@)
    }
}

impl Registry {
    /// The stored documents carry pairwise distinct identifiers. Every
    /// operation of the registry preserves this.
    pub closed spec fn inv(&self) -> bool {
        docs_unique(self.docs@)
    }

    /// Whether remote dereferencing during equivalence checks is allowed.
    pub closed spec fn remote_enabled(&self) -> bool {
        self.remote_cache
    }

    /// The URL-to-identifier mapping learned from remotely fetched
    /// documents.
    pub closed spec fn cache(&self) -> Map<Seq<char>, DidView> {
        cache_map(self.url_cache@)
    }

    /// The stored documents in storage order.
    pub closed spec fn doc_seq(&self) -> Seq<DocView> {
        docs_views(self.docs@)
    }
}

impl Default for Registry {
    /// An empty registry with remote caching disabled.
    fn default() -> (res: Self)
        ensures
            res@ == Map::<DidView, DocView>::empty(),
            res.inv(),
            !res.remote_enabled(),
            res.cache() == Map::<Seq<char>, DidView>::empty(),
            res.doc_seq() == Seq::<DocView>::empty(),
    {
        let res = Registry { docs: Vec::new(), url_cache: Vec::new(), remote_cache: false };
        proof {
            assert(res@ =~= Map::<DidView, DocView>::empty());
            assert(res.cache() =~= Map::<Seq<char>, DidView>::empty());
            assert(res.doc_seq() =~= Seq::<DocView>::empty());
        }
        res
    }
}

impl Registry {
    /// An empty registry with remote caching enabled.
    pub fn new_with_remote_cache() -> (res: Self)
        ensures
            res@ == Map::<DidView, DocView>::empty(),
            res.inv(),
            res.remote_enabled(),
            res.cache() == Map::<Seq<char>, DidView>::empty(),
            res.doc_seq() == Seq::<DocView>::empty(),
    {
        let res = Registry { docs: Vec::new(), url_cache: Vec::new(), remote_cache: true };
        proof {
            assert(res@ =~= Map::<DidView, DocView>::empty());
            assert(res.cache() =~= Map::<Seq<char>, DidView>::empty());
            assert(res.doc_seq() =~= Seq::<DocView>::empty());
        }
        res
    }

    /// How many documents are stored.
    pub fn len(&self) -> (r: usize)
        ensures
            r == self.doc_seq().len(),
    {
        self.docs.len()
    }

    /// The stored document at a position, in storage order.
    pub fn document_at(&self, i: usize) -> (r: &Document)
        requires
            i < self.doc_seq().len(),
        ensures
            r@ == self.doc_seq()[i as int],
    {
        &self.docs[i]
    }

    /// The position of the document keyed by `did`, when stored.
    fn find_index(&self, did: &DID) -> (r: Option<usize>)
        requires
            self.inv(),
        ensures
            r matches Some(i) ==> i < self.docs@.len() && self.docs@[i as int]@.id == did@
                && self@.contains_key(did@) && self@[did@] == self.docs@[i as int]@,
            r is None ==> !self@.contains_key(did@),
    {
        let mut i: usize = 0;
        while i < self.docs.len()
            invariant
                self.inv(),
                i <= self.docs@.len(),
                forall|j: int| 0 <= j < i ==> (#[trigger] self.docs@[j])@.id != did@,
            decreases self.docs@.len() - i,
        {
            if self.docs[i].id == *did {
                proof {
                    lemma_docs_map_at(self.docs@, i as int);
                }
                return Some(i);
            }
            i = i + 1;
        }
        proof {
            if has_doc(self.docs@, did@) {
                let w = choose|w: int|
                    0 <= w < self.docs@.len() && (#[trigger] self.docs@[w])@.id == did@;
            }
        }
        None
    }

    /// Store a document under its own identifier; refuses a duplicate and
    /// changes nothing in that case.
    pub fn insert(&mut self, doc: Document) -> (r: Result<(), Error>)
        requires
            old(self).inv(),
        ensures
            final(self).inv(),
            final(self).remote_enabled() == old(self).remote_enabled(),
            final(self).cache() == old(self).cache(),
            old(self)@.contains_key(doc@.id) ==> r == Err::<(), Error>(Error::DuplicateIdentifier)
                && final(self)@ == old(self)@ && final(self).doc_seq() == old(self).doc_seq(),
            !old(self)@.contains_key(doc@.id) ==> r is Ok && final(self)@ == old(self)@.insert(
                doc@.id,
                doc@,
            ) && final(self).doc_seq() == old(self).doc_seq().push(doc@),
    {
        match self.find_index(&doc.id) {
            Some(_) => Err(Error::DuplicateIdentifier),
            None => {
                let ghost s0 = self.docs@;
                self.docs.push(doc);
                proof {
                    let s1 = self.docs@;
                    assert(s1 == s0.push(doc));
                    assert forall|j: int| 0 <= j < s0.len() implies s1[j] == s0[j] by {}
                    assert(final(self).inv()) by {
                        assert forall|i: int, j: int|
                            0 <= i < j < s1.len() implies (#[trigger] s1[i])@.id != (
                        #[trigger] s1[j])@.id by {
                            if j == s1.len() - 1 {
                                assert(s1[j] == doc);
                                if s1[i]@.id == doc@.id {
                                    assert(has_doc(s0, doc@.id));
                                }
                            }
                        }
                    }
                    assert(final(self).doc_seq() =~= docs_views(s0).push(doc@));
                    assert(docs_map(s1) =~= docs_map(s0).insert(doc@.id, doc@)) by {
                        assert forall|k: DidView| #[trigger]
                            docs_map(s1).contains_key(k) == docs_map(s0).insert(
                            doc@.id,
                            doc@,
                        ).contains_key(k) by {
                            if k == doc@.id {
                                assert(s1[s1.len() - 1]@.id == k);
                                assert(has_doc(s1, k));
                            } else {
                                if has_doc(s0, k) {
                                    let w = choose|w: int|
                                        0 <= w < s0.len() && (#[trigger] s0[w])@.id == k;
                                    assert(s1[w]@.id == k);
                                    assert(has_doc(s1, k));
                                }
                                if has_doc(s1, k) {
                                    let w = choose|w: int|
                                        0 <= w < s1.len() && (#[trigger] s1[w])@.id == k;
                                    assert(w < s0.len());
                                    assert(has_doc(s0, k));
                                }
                            }
                        }
                        assert forall|k: DidView|
                            docs_map(s1).contains_key(k) implies #[trigger] docs_map(s1)[k]
                            == docs_map(s0).insert(doc@.id, doc@)[k] by {
                            if k == doc@.id {
                                lemma_docs_map_at(s1, s1.len() - 1);
                            } else {
                                let w = choose|w: int|
                                    0 <= w < s1.len() && (#[trigger] s1[w])@.id == k;
                                assert(w < s0.len());
                                lemma_docs_map_at(s1, w);
                                lemma_docs_map_at(s0, w);
                            }
                        }
                    }
                    assert(final(self).cache() == old(self).cache());
                }
                Ok(())
            },
        }
    }

    /// The stored document keyed by `did`, if any.
    pub fn get(&self, did: &DID) -> (r: Option<&Document>)
        requires
            self.inv(),
        ensures
            r matches Some(doc) ==> self@.contains_key(did@) && doc@ == self@[did@],
            r is None ==> !self@.contains_key(did@),
    {
        match self.find_index(did) {
            Some(i) => Some(&self.docs[i]),
            None => None,
        }
    }

    /// Remove and return the document keyed by `did`, if any.
    pub fn remove(&mut self, did: &DID) -> (r: Option<Document>)
        requires
            old(self).inv(),
        ensures
            final(self).inv(),
            final(self).remote_enabled() == old(self).remote_enabled(),
            final(self).cache() == old(self).cache(),
            r matches Some(doc) ==> old(self)@.contains_key(did@) && doc@ == old(self)@[did@]
                && final(self)@ == old(self)@.remove(did@),
            r is None ==> !old(self)@.contains_key(did@) && final(self)@ == old(self)@
                && final(self).doc_seq() == old(self).doc_seq(),
    {
        match self.find_index(did) {
            None => None,
            Some(i) => {
                let ghost s0 = self.docs@;
                let doc = self.docs.remove(i);
                proof {
                    let s1 = self.docs@;
                    assert(s1 == s0.remove(i as int));
                    assert(doc == s0[i as int]);
                    assert forall|j: int| 0 <= j < s1.len() implies s1[j] == (if j < i {
                        s0[j]
                    } else {
                        s0[j + 1]
                    }) by {}
                    assert(final(self).inv());
                    assert(docs_map(s1) =~= docs_map(s0).remove(did@)) by {
                        assert forall|k: DidView| #[trigger]
                            docs_map(s1).contains_key(k) == docs_map(s0).remove(
                            did@,
                        ).contains_key(k) by {
                            if has_doc(s1, k) {
                                let w = choose|w: int|
                                    0 <= w < s1.len() && (#[trigger] s1[w])@.id == k;
                                if w < i {
                                    assert(s0[w]@.id == k);
                                } else {
                                    assert(s0[w + 1]@.id == k);
                                }
                                assert(has_doc(s0, k));
                                assert(k != did@);
                            }
                            if has_doc(s0, k) && k != did@ {
                                let w = choose|w: int|
                                    0 <= w < s0.len() && (#[trigger] s0[w])@.id == k;
                                assert(w != i);
                                if w < i {
                                    assert(s1[w]@.id == k);
                                } else {
                                    assert(s1[w - 1]@.id == k);
                                }
                                assert(has_doc(s1, k));
                            }
                        }
                        assert forall|k: DidView|
                            docs_map(s1).contains_key(k) implies #[trigger] docs_map(s1)[k]
                            == docs_map(s0).remove(did@)[k] by {
                            let w = choose|w: int| 0 <= w < s1.len() && (#[trigger] s1[w])@.id == k;
                            lemma_docs_map_at(s1, w);
                            if w < i {
                                lemma_docs_map_at(s0, w);
                            } else {
                                lemma_docs_map_at(s0, w + 1);
                            }
                        }
                    }
                }
                Some(doc)
            },
        }
    }

    /// The stored document a DID URL points at: lookup by the URL's
    /// identifier, parameters dropped.
    pub fn follow(&self, url: URL) -> (r: Option<&Document>)
        requires
            self.inv(),
        ensures
            r matches Some(doc) ==> self@.contains_key(url@.did) && doc@ == self@[url@.did],
            r is None ==> !self@.contains_key(url@.did),
    {
        let did = url.to_did();
        self.get(&did)
    }

    /// The verification method of `did`'s document whose id equals the
    /// locator, scanning the document's own set in stored order; `None`
    /// when the identifier is unknown, the document has no methods, or none
    /// matches.
    pub fn verification_method_for_url(&self, did: &DID, url: URL) -> (r: Option<
        &VerificationMethod,
    >)
        requires
            self.inv(),
        ensures
            r matches Some(vm) ==> self@.contains_key(did@) && (self@[did@].verification_method
                matches Some(vms) && has_vm(vms, url@) && vm@ == vms[find_vm(vms, url@)]),
            r is None ==> !self@.contains_key(did@) || self@[did@].verification_method is None || (
            self@[did@].verification_method matches Some(vms) && !has_vm(vms, url@)),
    {
        match self.find_index(did) {
            None => None,
            Some(di) => {
                let doc = &self.docs[di];
                match &doc.verification_method {
                    None => None,
                    Some(vm) => {
                        let ghost vms = crate::document::vm_list_view(vm@);
                        proof {
                            assert(self@[did@].verification_method == Some(vms));
                        }
                        let mut i: usize = 0;
                        while i < vm.len()
                            invariant
                                i <= vm@.len(),
                                vms == crate::document::vm_list_view(vm@),
                                vms.len() == vm@.len(),
                                self@.contains_key(did@),
                                self@[did@].verification_method == Some(vms),
                                forall|j: int| 0 <= j < i ==> (#[trigger] vms[j]).id != url@,
                            decreases vm@.len() - i,
                        {
                            if url == vm[i].id {
                                proof {
                                    assert(vms[i as int] == vm@[i as int]@);
                                    assert(has_vm(vms, url@));
                                    lemma_find_vm_props(vms, url@);
                                    let f = find_vm(vms, url@);
                                    if f < i {
                                        assert(vms[f].id == url@);
                                        assert(vms[f].id != url@);
                                    }
                                    if f > i {
                                        assert(vms[i as int].id != url@);
                                    }
                                }
                                return Some(&vm[i]);
                            }
                            proof {
                                assert(vms[i as int] == vm@[i as int]@);
                            }
                            i = i + 1;
                        }
                        proof {
                            if has_vm(vms, url@) {
                                let w = choose|w: int|
                                    0 <= w < vms.len() && (#[trigger] vms[w]).id == url@;
                            }
                        }
                        None
                    },
                }
            },
        }
    }

    /// Whether `controller` is designated a controller of `did`. See
    /// [`controls_spec`]: reflexively true, otherwise both identifiers must
    /// be stored and the subject's `controller` field decides.
    pub fn controls(&self, did: &DID, controller: &DID) -> (r: Result<bool, Error>)
        requires
            self.inv(),
        ensures
            r == controls_spec(self@, did@, controller@),
    {
        if *did == *controller {
            return Ok(true);
        }
        let doc = match self.find_index(did) {
            None => {
                return Err(Error::UnknownIdentifier);
            },
            Some(i) => &self.docs[i],
        };
        if self.find_index(controller).is_none() {
            return Err(Error::UnknownIdentifier);
        }
        match &doc.controller {
            None => Ok(false),
            Some(crate::document::Controller::One(d)) => Ok(*d == *controller),
            Some(crate::document::Controller::Many(list)) => {
                let ghost s = crate::document::did_list_view(list@);
                proof {
                    assert(self@[did@].controller == Some(
                        crate::document::ControllerView::Many(s),
                    ));
                }
                let mut i: usize = 0;
                while i < list.len()
                    invariant
                        i <= list@.len(),
                        s == crate::document::did_list_view(list@),
                        s.len() == list@.len(),
                        did@ != controller@,
                        self@.contains_key(did@),
                        self@.contains_key(controller@),
                        self@[did@].controller == Some(crate::document::ControllerView::Many(s)),
                        forall|j: int| 0 <= j < i ==> s[j] != controller@,
                    decreases list@.len() - i,
                {
                    if list[i] == *controller {
                        proof {
                            assert(s[i as int] == list@[i as int]@);
                            assert(in_did_list(s, controller@));
                        }
                        return Ok(true);
                    }
                    proof {
                        assert(s[i as int] == list@[i as int]@);
                    }
                    i = i + 1;
                }
                proof {
                    if in_did_list(s, controller@) {
                        let w = choose|w: int| 0 <= w < s.len() && s[w] == controller@;
                    }
                }
                Ok(false)
            },
        }
    }

    /// The identifier a remotely fetched URL resolved to, when cached.
    fn cache_lookup(&self, u: &Uri) -> (r: Option<&DID>)
        ensures
            r matches Some(d) ==> self.cache().contains_key(u@) && d@ == self.cache()[u@],
            r is None ==> !self.cache().contains_key(u@),
    {
        let mut i: usize = 0;
        while i < self.url_cache.len()
            invariant
                i <= self.url_cache@.len(),
                forall|j: int| 0 <= j < i ==> (#[trigger] self.url_cache@[j]).0@ != u@,
            decreases self.url_cache@.len() - i,
        {
            if self.url_cache[i].0 == *u {
                proof {
                    assert(has_cached(self.url_cache@, u@));
                    lemma_find_cached_props(self.url_cache@, u@);
                    let f = find_cached(self.url_cache@, u@);
                    if f < i {
                        assert(self.url_cache@[f].0@ == u@);
                        assert(self.url_cache@[f].0@ != u@);
                    }
                    if f > i {
                        assert(self.url_cache@[i as int].0@ != u@);
                    }
                }
                return Some(&self.url_cache[i].1);
            }
            i = i + 1;
        }
        proof {
            if has_cached(self.url_cache@, u@) {
                let w = choose|w: int|
                    0 <= w < self.url_cache@.len() && (#[trigger] self.url_cache@[w]).0@ == u@;
            }
        }
        None
    }

    /// Record a remotely fetched document: the document is stored under its
    /// own identifier unless one is already there, and the source URL is
    /// remembered as resolving to the document's identifier unless already
    /// known. Refused when remote caching is disabled.
    pub fn cache_remote(&mut self, source: Uri, doc: Document) -> (r: Result<(), Error>)
        requires
            old(self).inv(),
        ensures
            final(self).inv(),
            final(self).remote_enabled() == old(self).remote_enabled(),
            r is Ok ==> old(self).remote_enabled() && final(self)@ == (if old(
                self,
            )@.contains_key(doc@.id) {
                old(self)@
            } else {
                old(self)@.insert(doc@.id, doc@)
            }) && final(self).cache() == (if old(self).cache().contains_key(source@) {
                old(self).cache()
            } else {
                old(self).cache().insert(source@, doc@.id)
            }),
            r matches Err(e) ==> e == Error::RemoteCacheDisabled && !old(self).remote_enabled()
                && final(self)@ == old(self)@ && final(self).cache() == old(self).cache(),
    {
        if !self.remote_cache {
            return Err(Error::RemoteCacheDisabled);
        }
        let did = doc.id.clone();
        let _ = self.insert(doc);
        let absent = self.cache_lookup(&source).is_none();
        if absent {
            let ghost c0 = self.url_cache@;
            let ghost u = source@;
            let ghost dv = did@;
            self.url_cache.push((source, did));
            proof {
                let c1 = self.url_cache@;
                assert(c1 == c0.push((c1[c1.len() - 1].0, c1[c1.len() - 1].1)));
                assert forall|j: int| 0 <= j < c0.len() implies c1[j] == c0[j] by {}
                assert(c1[c1.len() - 1].0@ == u && c1[c1.len() - 1].1@ == dv);
                assert(cache_map(c1) =~= cache_map(c0).insert(u, dv)) by {
                    assert forall|k: Seq<char>| #[trigger]
                        cache_map(c1).contains_key(k) == cache_map(c0).insert(
                        u,
                        dv,
                    ).contains_key(k) by {
                        if k == u {
                            assert(c1[c1.len() - 1].0@ == k);
                            assert(has_cached(c1, k));
                        } else {
                            if has_cached(c0, k) {
                                let w = choose|w: int|
                                    0 <= w < c0.len() && (#[trigger] c0[w]).0@ == k;
                                assert(c1[w].0@ == k);
                                assert(has_cached(c1, k));
                            }
                            if has_cached(c1, k) {
                                let w = choose|w: int|
                                    0 <= w < c1.len() && (#[trigger] c1[w]).0@ == k;
                                assert(w < c0.len());
                                assert(has_cached(c0, k));
                            }
                        }
                    }
                    assert forall|k: Seq<char>|
                        cache_map(c1).contains_key(k) implies #[trigger] cache_map(c1)[k]
                        == cache_map(c0).insert(u, dv)[k] by {
                        lemma_find_cached_props(c1, k);
                        lemma_find_cached_props(c0, k);
                        let f1 = find_cached(c1, k);
                        if k == u {
                            assert(!has_cached(c0, k));
                            assert(f1 == c1.len() - 1) by {
                                if f1 < c1.len() - 1 {
                                    assert(c0[f1].0@ == k);
                                    assert(has_cached(c0, k));
                                }
                            }
                        } else {
                            let f0 = find_cached(c0, k);
                            assert(has_cached(c0, k)) by {
                                let w = choose|w: int|
                                    0 <= w < c1.len() && (#[trigger] c1[w]).0@ == k;
                                assert(w < c0.len());
                            }
                            assert(f1 == f0) by {
                                if f1 < f0 {
                                    assert(c0[f1].0@ == k);
                                }
                                if f0 < f1 {
                                    assert(c1[f0].0@ == k);
                                }
                            }
                        }
                    }
                }
            }
        }
        Ok(())
    }

    /// Whether `did` and `other` are to be treated as the same identifier
    /// under their mutual `alsoKnownAs` assertions. See [`equivalent_spec`]:
    /// both must be stored; URL-typed assertions resolve through the remote
    /// cache, and an uncached one either blocks as
    /// [`Equivalence::NeedsDocument`] or — with remote caching disabled —
    /// fails. A one-sided claim is `DoesNotHold`, not an error.
    pub fn equivalent_to_did(&self, did: &DID, other: &DID) -> (r: Result<Equivalence, Error>)
        requires
            self.inv(),
        ensures
            r matches Ok(e) ==> equivalent_spec(
                self@,
                self.cache(),
                self.remote_enabled(),
                did@,
                other@,
            ) == Ok::<EqView, Error>(e@),
            r matches Err(e) ==> equivalent_spec(
                self@,
                self.cache(),
                self.remote_enabled(),
                did@,
                other@,
            ) == Err::<EqView, Error>(e),
    {
        let a_doc = match self.find_index(did) {
            None => {
                return Err(Error::UnknownIdentifier);
            },
            Some(i) => &self.docs[i],
        };
        let b_doc = match self.find_index(other) {
            None => {
                return Err(Error::UnknownIdentifier);
            },
            Some(i) => &self.docs[i],
        };
        let a_aka = match &a_doc.also_known_as {
            None => {
                return Ok(Equivalence::DoesNotHold);
            },
            Some(a) => a,
        };
        let ghost av = aka_of(self@[did@]);
        let ghost bv = aka_of(self@[other@]);
        proof {
            assert(av == crate::document::aka_list_view(a_aka.0@));
            assert(av.skip(0) =~= av);
        }
        let mut i: usize = 0;
        while i < a_aka.0.len()
            invariant
                self.inv(),
                i <= a_aka.0@.len(),
                self@.contains_key(did@),
                self@.contains_key(other@),
                self@[did@].also_known_as is Some,
                av == crate::document::aka_list_view(a_aka.0@),
                av == aka_of(self@[did@]),
                av.len() == a_aka.0@.len(),
                bv == aka_of(self@[other@]),
                b_doc@ == self@[other@],
                scan_aka_spec(self.cache(), av, bv, did@, other@) == scan_aka_spec(
                    self.cache(),
                    av.skip(i as int),
                    bv,
                    did@,
                    other@,
                ),
            decreases a_aka.0@.len() - i,
        {
            let ghost arest = av.skip(i as int);
            proof {
                assert(arest[0] == av[i as int]);
                assert(av[i as int] == a_aka.0@[i as int]@);
                assert(arest.skip(1) =~= av.skip(i + 1));
            }
            let entry = &a_aka.0[i];
            let resolved: &DID = match entry {
                crate::document::AlsoKnownAsEither::Identifier(d) => d,
                crate::document::AlsoKnownAsEither::Reference(u) => {
                    match self.cache_lookup(u) {
                        Some(d) => d,
                        None => {
                            proof {
                                assert(arest[0] == AkaView::Reference(u@));
                                assert(resolve_aka(self.cache(), arest[0]) is None);
                                assert(scan_aka_spec(self.cache(), arest, bv, did@, other@)
                                    == EqView::Needs(u@));
                            }
                            if self.remote_cache {
                                return Ok(Equivalence::NeedsDocument(Uri(u.0.clone())));
                            } else {
                                return Err(Error::RemoteCacheDisabled);
                            }
                        },
                    }
                },
            };
            proof {
                assert(resolve_aka(self.cache(), arest[0]) == Some(resolved@));
            }
            if *resolved == *other {
                // walk the other side's assertions for a claim back
                match &b_doc.also_known_as {
                    None => {
                        proof {
                            assert(bv =~= Seq::<AkaView>::empty());
                            assert(scan_back_spec(self.cache(), bv, did@) == BStep::NotFound);
                        }
                    },
                    Some(b_aka) => {
                        proof {
                            assert(bv == crate::document::aka_list_view(b_aka.0@));
                            assert(bv.skip(0) =~= bv);
                        }
                        let mut j: usize = 0;
                        while j < b_aka.0.len()
                            invariant
                                i < a_aka.0@.len(),
                                j <= b_aka.0@.len(),
                                self.inv(),
                                self@.contains_key(did@),
                                self@.contains_key(other@),
                                self@[did@].also_known_as is Some,
                                av == crate::document::aka_list_view(a_aka.0@),
                                av == aka_of(self@[did@]),
                                av.len() == a_aka.0@.len(),
                                bv == crate::document::aka_list_view(b_aka.0@),
                                bv == aka_of(self@[other@]),
                                bv.len() == b_aka.0@.len(),
                                scan_aka_spec(self.cache(), av, bv, did@, other@) == scan_aka_spec(
                                    self.cache(),
                                    av.skip(i as int),
                                    bv,
                                    did@,
                                    other@,
                                ),
                                resolve_aka(self.cache(), av.skip(i as int)[0]) == Some(other@),
                                scan_back_spec(self.cache(), bv, did@) == scan_back_spec(
                                    self.cache(),
                                    bv.skip(j as int),
                                    did@,
                                ),
                            decreases b_aka.0@.len() - j,
                        {
                            let ghost brest = bv.skip(j as int);
                            proof {
                                assert(brest[0] == bv[j as int]);
                                assert(bv[j as int] == b_aka.0@[j as int]@);
                                assert(brest.skip(1) =~= bv.skip(j + 1));
                            }
                            let bentry = &b_aka.0[j];
                            let bresolved: &DID = match bentry {
                                crate::document::AlsoKnownAsEither::Identifier(d) => d,
                                crate::document::AlsoKnownAsEither::Reference(u) => {
                                    match self.cache_lookup(u) {
                                        Some(d) => d,
                                        None => {
                                            proof {
                                                assert(brest[0] == AkaView::Reference(u@));
                                                assert(resolve_aka(self.cache(), brest[0])
                                                    is None);
                                                assert(scan_back_spec(self.cache(), brest, did@)
                                                    == BStep::Needs(u@));
                                                assert(scan_back_spec(self.cache(), bv, did@)
                                                    == BStep::Needs(u@));
                                                assert(scan_aka_spec(
                                                    self.cache(),
                                                    av.skip(i as int),
                                                    bv,
                                                    did@,
                                                    other@,
                                                ) == EqView::Needs(u@));
                                            }
                                            if self.remote_cache {
                                                return Ok(
                                                    Equivalence::NeedsDocument(Uri(u.0.clone())),
                                                );
                                            } else {
                                                return Err(Error::RemoteCacheDisabled);
                                            }
                                        },
                                    }
                                },
                            };
                            proof {
                                assert(resolve_aka(self.cache(), brest[0]) == Some(bresolved@));
                            }
                            if *bresolved == *did {
                                proof {
                                    assert(scan_back_spec(self.cache(), brest, did@)
                                        == BStep::Found);
                                    assert(scan_aka_spec(self.cache(), av, bv, did@, other@)
                                        == EqView::Holds);
                                }
                                return Ok(Equivalence::Holds);
                            }
                            j = j + 1;
                        }
                        proof {
                            assert(bv.skip(b_aka.0@.len() as int) =~= Seq::<AkaView>::empty());
                            assert(scan_back_spec(self.cache(), bv, did@) == BStep::NotFound);
                        }
                    },
                }
                proof {
                    assert(scan_aka_spec(self.cache(), av, bv, did@, other@) == scan_aka_spec(
                        self.cache(),
                        av.skip(i + 1),
                        bv,
                        did@,
                        other@,
                    ));
                }
            } else {
                proof {
                    assert(scan_aka_spec(self.cache(), av, bv, did@, other@) == scan_aka_spec(
                        self.cache(),
                        av.skip(i + 1),
                        bv,
                        did@,
                        other@,
                    ));
                }
            }
            i = i + 1;
        }
        proof {
            assert(av.skip(a_aka.0@.len() as int) =~= Seq::<AkaView>::empty());
            assert(scan_aka_spec(self.cache(), av, bv, did@, other@) == EqView::DoesNotHold);
        }
        Ok(Equivalence::DoesNotHold)
    }
}

} // verus!
