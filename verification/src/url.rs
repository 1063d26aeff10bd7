use crate::bytes::{
    bytes_eq, find_from, idx_of, lemma_idx_of_absent, lemma_idx_of_concat, lemma_idx_of_is,
    opt_bytes_eq, subvec,
};
use crate::codec::{
    ascii_chars, dec, enc, enc_chars, is_method_name, lemma_dec_enc, lemma_dec_no_pct,
    lemma_enc_ascii, lemma_enc_bytes, lemma_encode_utf8_concat, lemma_encode_utf8_no_byte,
    method_id_encoded, string_from_utf8, url_decoded, url_encoded, validate_method_name,
};
use crate::did::{did_chars, did_prefix, DidView, DID};
use crate::errors::Error;
use crate::time::{parse_vt_bytes, parse_vt_spec, vt_chars, VersionTime};
use vstd::prelude::*;
use vstd::string::StringSliceAdditionalSpecFns;
use vstd::utf8::{decode_utf8, encode_utf8, valid_utf8};

verus! {

/// The mathematical value of [`URLParameters`]: each optional component as
/// plain sequences, with the unrecognized query pairs in stored order.
pub struct ParamsView {
    pub path: Option<Seq<u8>>,
    pub fragment: Option<Seq<u8>>,
    pub service: Option<Seq<char>>,
    pub relative_ref: Option<Seq<u8>>,
    pub version_id: Option<Seq<char>>,
    pub version_time: Option<VersionTime>,
    pub hash_link: Option<Seq<char>>,
    pub extra_query: Option<Seq<(Seq<u8>, Seq<u8>)>>,
}

/// The mathematical value of a [`URL`]: its identifier and parameters.
pub struct UrlView {
    pub did: DidView,
    pub parameters: Option<ParamsView>,
}

/// The optional components of a DID URL beyond the identifier itself. `path`
/// and `fragment` are raw byte strings, stored decoded. The typed query
/// fields mirror the reserved query keys; every other query pair lands in
/// `extra_query`, keyed by first occurrence in insertion order.
#[derive(Clone, Debug)]
pub struct URLParameters {
    pub path: Option<Vec<u8>>,
    pub fragment: Option<Vec<u8>>,
    pub service: Option<String>,
    pub relative_ref: Option<Vec<u8>>,
    pub version_id: Option<String>,
    pub version_time: Option<VersionTime>,
    pub hash_link: Option<String>,
    pub extra_query: Option<Vec<(Vec<u8>, Vec<u8>)>>,
}

/// A DID URL: an identifier plus optional [`URLParameters`]. A bare
/// identifier is a URL whose `parameters` is `None`.
#[derive(Clone, Debug)]
pub struct URL {
    pub did: DID,
    pub parameters: Option<URLParameters>,
}

impl View for URLParameters {
    type V = ParamsView;

    open spec fn view(&self) -> ParamsView {
        ParamsView {
            path: match self.path {
                Some(v) => Some(v@),
                None => None,
            },
            fragment: match self.fragment {
                Some(v) => Some(v@),
                None => None,
            },
            service: match self.service {
                Some(v) => Some(v@),
                None => None,
            },
            relative_ref: match self.relative_ref {
                Some(v) => Some(v@),
                None => None,
            },
            version_id: match self.version_id {
                Some(v) => Some(v@),
                None => None,
            },
            version_time: self.version_time,
            hash_link: match self.hash_link {
                Some(v) => Some(v@),
                None => None,
            },
            extra_query: match self.extra_query {
                Some(e) => Some(extra_view(e@)),
                None => None,
            },
        }
    }
}

impl View for URL {
    type V = UrlView;

    open spec fn view(&self) -> UrlView {
        UrlView {
            did: self.did@,
            parameters: match self.parameters {
                Some(p) => Some(p@),
                None => None,
            },
        }
    }
}

impl Default for URLParameters {
    /// No parameters at all; fill in the fields that are wanted.
    fn default() -> (res: Self)
        ensures
            res@ == empty_params(),
    {
        URLParameters {
            path: None,
            fragment: None,
            service: None,
            relative_ref: None,
            version_id: None,
            version_time: None,
            hash_link: None,
            extra_query: None,
        }
    }
}

impl Default for URL {
    /// An empty URL, useful only as a placeholder to fill in.
    fn default() -> (res: Self)
        ensures
            res@.did.name == Seq::<u8>::empty(),
            res@.did.id == Seq::<u8>::empty(),
            res@.parameters is None,
    {
        URL { did: DID { name: Vec::new(), id: Vec::new() }, parameters: None }
    }
}

/// The pair list of an unrecognized-query vector, as plain sequences.
pub open spec fn extra_view(e: Seq<(Vec<u8>, Vec<u8>)>) -> Seq<(Seq<u8>, Seq<u8>)> {
    Seq::new(e.len(), |i: int| (e[i].0@, e[i].1@))
}

/// The parameter record with every field absent.
pub open spec fn empty_params() -> ParamsView {
    ParamsView {
        path: None,
        fragment: None,
        service: None,
        relative_ref: None,
        version_id: None,
        version_time: None,
        hash_link: None,
        extra_query: None,
    }
}

// ---------------------------------------------------------------------------
// The grammar, stated over byte sequences.
// ---------------------------------------------------------------------------
/// The raw bytes of the reserved query key `service`.
pub open spec fn service_key() -> Seq<u8> {
    seq![0x73u8, 0x65u8, 0x72u8, 0x76u8, 0x69u8, 0x63u8, 0x65u8]
}

/// The raw bytes of the reserved query key `relativeRef`.
pub open spec fn relative_ref_key() -> Seq<u8> {
    seq![0x72u8, 0x65u8, 0x6cu8, 0x61u8, 0x74u8, 0x69u8, 0x76u8, 0x65u8, 0x52u8, 0x65u8, 0x66u8]
}

/// The raw bytes of the reserved query key `versionId`.
pub open spec fn version_id_key() -> Seq<u8> {
    seq![0x76u8, 0x65u8, 0x72u8, 0x73u8, 0x69u8, 0x6fu8, 0x6eu8, 0x49u8, 0x64u8]
}

/// The raw bytes of the reserved query key `versionTime`.
pub open spec fn version_time_key() -> Seq<u8> {
    seq![0x76u8, 0x65u8, 0x72u8, 0x73u8, 0x69u8, 0x6fu8, 0x6eu8, 0x54u8, 0x69u8, 0x6du8, 0x65u8]
}

/// The raw bytes of the reserved query key `hl`.
pub open spec fn hl_key() -> Seq<u8> {
    seq![0x68u8, 0x6cu8]
}

/// The running state while query pairs are consumed, in the shape of the
/// typed fields plus the unrecognized pairs gathered so far.
pub struct QAcc {
    pub service: Option<Seq<char>>,
    pub relative_ref: Option<Seq<u8>>,
    pub version_id: Option<Seq<char>>,
    pub version_time: Option<VersionTime>,
    pub hash_link: Option<Seq<char>>,
    pub extra: Seq<(Seq<u8>, Seq<u8>)>,
}

/// The query state before any pair has been consumed.
pub open spec fn empty_qacc() -> QAcc {
    QAcc {
        service: None,
        relative_ref: None,
        version_id: None,
        version_time: None,
        hash_link: None,
        extra: Seq::empty(),
    }
}

/// Store `v` under `k`: a key already present keeps its position and takes
/// the new value; a new key is appended.
pub open spec fn upsert(s: Seq<(Seq<u8>, Seq<u8>)>, k: Seq<u8>, v: Seq<u8>) -> Seq<
    (Seq<u8>, Seq<u8>),
>
    decreases s.len(),
{
    if s.len() == 0 {
        seq![(k, v)]
    } else if s[0].0 == k {
        seq![(k, v)] + s.skip(1)
    } else {
        seq![s[0]] + upsert(s.skip(1), k, v)
    }
}

/// Consume one `key=value` query pair (or a bare key with no `=`). The five
/// reserved keys, matched on their raw bytes, fill the typed fields —
/// `relativeRef` percent-decoded, `versionTime` parsed, the three string
/// fields taken raw as UTF-8 text. Any other pair lands in `extra`, key and
/// value percent-decoded.
pub open spec fn apply_part_spec(acc: QAcc, part: Seq<u8>) -> Result<QAcc, Error> {
    let pe = idx_of(part, 0x3d);
    if pe == part.len() {
        Ok(QAcc { extra: upsert(acc.extra, dec(part), Seq::empty()), ..acc })
    } else {
        let key = part.take(pe);
        let value = part.skip(pe + 1);
        if key == service_key() {
            if valid_utf8(value) {
                Ok(QAcc { service: Some(decode_utf8(value)), ..acc })
            } else {
                Err(Error::MalformedIdentifier)
            }
        } else if key == relative_ref_key() {
            Ok(QAcc { relative_ref: Some(dec(value)), ..acc })
        } else if key == version_id_key() {
            if valid_utf8(value) {
                Ok(QAcc { version_id: Some(decode_utf8(value)), ..acc })
            } else {
                Err(Error::MalformedIdentifier)
            }
        } else if key == version_time_key() {
            match parse_vt_spec(value) {
                Some(t) => Ok(QAcc { version_time: Some(t), ..acc }),
                None => Err(Error::InvalidVersionTime),
            }
        } else if key == hl_key() {
            if valid_utf8(value) {
                Ok(QAcc { hash_link: Some(decode_utf8(value)), ..acc })
            } else {
                Err(Error::MalformedIdentifier)
            }
        } else {
            Ok(QAcc { extra: upsert(acc.extra, dec(key), dec(value)), ..acc })
        }
    }
}

/// Consume a whole query: split on every `&` and apply each pair in turn.
pub open spec fn parse_parts_spec(acc: QAcc, q: Seq<u8>) -> Result<QAcc, Error>
    decreases q.len(),
    via parse_parts_spec_decreases
{
    let pa = idx_of(q, 0x26);
    if pa < q.len() {
        match apply_part_spec(acc, q.take(pa)) {
            Ok(a2) => parse_parts_spec(a2, q.skip(pa + 1)),
            Err(e) => Err(e),
        }
    } else {
        apply_part_spec(acc, q)
    }
}

#[via_fn]
proof fn parse_parts_spec_decreases(acc: QAcc, q: Seq<u8>) {
    crate::bytes::lemma_idx_of_props(q, 0x26);
}

/// The parameter record built from a parsed query together with the path and
/// fragment found around it.
pub open spec fn assemble_params(
    path: Option<Seq<u8>>,
    fragment: Option<Seq<u8>>,
    acc: QAcc,
) -> ParamsView {
    ParamsView {
        path,
        fragment,
        service: acc.service,
        relative_ref: acc.relative_ref,
        version_id: acc.version_id,
        version_time: acc.version_time,
        hash_link: acc.hash_link,
        extra_query: if acc.extra.len() > 0 {
            Some(acc.extra)
        } else {
            None
        },
    }
}

/// Parse the query-bearing remainder of a URL whose identifier `did` is
/// already decoded: everything up to the first `#` is the query, everything
/// after it is the raw fragment.
pub open spec fn parse_query_frag_spec(
    did: DidView,
    path_raw: Option<Seq<u8>>,
    q: Seq<u8>,
) -> Result<UrlView, Error> {
    let ph = idx_of(q, 0x23);
    let fragment: Option<Seq<u8>> = if ph < q.len() {
        Some(dec(q.skip(ph + 1)))
    } else {
        None
    };
    let path: Option<Seq<u8>> = match path_raw {
        Some(p) => Some(dec(p)),
        None => None,
    };
    match parse_parts_spec(empty_qacc(), q.take(ph)) {
        Ok(acc) => Ok(
            UrlView { did, parameters: Some(assemble_params(path, fragment, acc)) },
        ),
        Err(e) => Err(e),
    }
}

/// Parse what follows the first `/`: a `#` strictly before any `?` ends the
/// path and starts the fragment; otherwise a `?` ends the path and starts
/// the query; with neither, the whole text is the path.
pub open spec fn parse_after_path_spec(did: DidView, left: Seq<u8>) -> Result<UrlView, Error> {
    let pq = idx_of(left, 0x3f);
    let ph = idx_of(left, 0x23);
    if ph < pq {
        Ok(
            UrlView {
                did,
                parameters: Some(
                    ParamsView {
                        path: Some(dec(left.take(ph))),
                        fragment: Some(dec(left.skip(ph + 1))),
                        ..empty_params()
                    },
                ),
            },
        )
    } else if pq < left.len() {
        parse_query_frag_spec(did, Some(left.take(pq)), left.skip(pq + 1))
    } else {
        Ok(
            UrlView { did, parameters: Some(ParamsView { path: Some(dec(left)), ..empty_params() }) },
        )
    }
}

/// Splice a relative reference onto a base identifier: after `/` a path with
/// optional query and fragment, after `?` a query with optional fragment,
/// after `#` a raw fragment. Empty input and any other first byte are
/// rejected, and the base must carry a valid method name.
pub open spec fn join_spec(base: DidView, b: Seq<u8>) -> Result<UrlView, Error> {
    if b.len() == 0 {
        Err(Error::EmptyRelativeReference)
    } else if b[0] != 0x2f && b[0] != 0x3f && b[0] != 0x23 {
        Err(Error::InvalidRelativeReference)
    } else if !is_method_name(base.name) {
        Err(Error::InvalidMethodName)
    } else if b[0] == 0x2f {
        parse_after_path_spec(base, b.skip(1))
    } else if b[0] == 0x3f {
        parse_query_frag_spec(base, None, b.skip(1))
    } else {
        Ok(
            UrlView {
                did: base,
                parameters: Some(
                    ParamsView { fragment: Some(dec(b.skip(1))), ..empty_params() },
                ),
            },
        )
    }
}

/// Parse the remainder after `did:<name>:`. A `/` before any `?` or `#`
/// splits the id from the path. Otherwise a `?` strictly before any `#`
/// splits the id from the query; a `#` alone splits the id from the
/// fragment, which keeps any `/` or `?` inside it raw; with no delimiter the
/// whole remainder is the id.
pub open spec fn parse_right_spec(name: Seq<u8>, right: Seq<u8>) -> Result<UrlView, Error> {
    let ps = idx_of(right, 0x2f);
    let pq = idx_of(right, 0x3f);
    let ph = idx_of(right, 0x23);
    if ps < right.len() && ps < pq && ps < ph {
        parse_after_path_spec(DidView { name, id: dec(right.take(ps)) }, right.skip(ps + 1))
    } else if pq < ph {
        parse_query_frag_spec(
            DidView { name, id: dec(right.take(pq)) },
            None,
            right.skip(pq + 1),
        )
    } else if ph < right.len() {
        Ok(
            UrlView {
                did: DidView { name, id: dec(right.take(ph)) },
                parameters: Some(
                    ParamsView { fragment: Some(dec(right.skip(ph + 1))), ..empty_params() },
                ),
            },
        )
    } else {
        Ok(UrlView { did: DidView { name, id: dec(right) }, parameters: None })
    }
}

/// What parsing DID URL text yields: the `did:` prefix and the name up to
/// the first `:` as for identifiers — the decoded name must be a valid
/// method name — then the remainder as [`parse_right_spec`] says. The id may
/// be empty here, unlike for a bare identifier.
pub open spec fn parse_url_spec(b: Seq<u8>) -> Result<UrlView, Error> {
    if b.len() < 4 || b.subrange(0, 4) != did_prefix() {
        Err(Error::MalformedIdentifier)
    } else {
        let rest = b.skip(4);
        let pc = idx_of(rest, 0x3a);
        if pc == rest.len() {
            Err(Error::MalformedIdentifier)
        } else {
            let name = dec(rest.take(pc));
            if !is_method_name(name) {
                Err(Error::InvalidMethodName)
            } else {
                parse_right_spec(name, rest.skip(pc + 1))
            }
        }
    }
}

/// The view of an optional byte vector.
pub open spec fn opt_bytes_view(o: Option<Vec<u8>>) -> Option<Seq<u8>> {
    match o {
        Some(v) => Some(v@),
        None => None,
    }
}

/// The running query state while parsing, mirroring [`QAcc`].
struct QueryAcc {
    service: Option<String>,
    relative_ref: Option<Vec<u8>>,
    version_id: Option<String>,
    version_time: Option<VersionTime>,
    hash_link: Option<String>,
    extra: Vec<(Vec<u8>, Vec<u8>)>,
}

impl View for QueryAcc {
    type V = QAcc;

    closed spec fn view(&self) -> QAcc {
        QAcc {
            service: match self.service {
                Some(s) => Some(s@),
                None => None,
            },
            relative_ref: match self.relative_ref {
                Some(v) => Some(v@),
                None => None,
            },
            version_id: match self.version_id {
                Some(s) => Some(s@),
                None => None,
            },
            version_time: self.version_time,
            hash_link: match self.hash_link {
                Some(s) => Some(s@),
                None => None,
            },
            extra: extra_view(self.extra@),
        }
    }
}

/// Store a decoded pair in the unrecognized-key list, keeping the position
/// of an already-present key and appending a new one.
fn upsert_extra(e: &mut Vec<(Vec<u8>, Vec<u8>)>, k: Vec<u8>, v: Vec<u8>)
    ensures
        extra_view(final(e)@) == upsert(extra_view(old(e)@), k@, v@),
{
    let ghost orig = extra_view(e@);
    let mut i: usize = 0;
    while i < e.len()
        invariant
            i <= e@.len(),
            orig == extra_view(e@),
            orig == extra_view(old(e)@),
            forall|j: int| 0 <= j < i ==> orig[j].0 != k@,
        decreases e@.len() - i,
    {
        if bytes_eq(e[i].0.as_slice(), k.as_slice()) {
            proof {
                assert(orig[i as int].0 == e@[i as int].0@);
                lemma_upsert_found(orig, k@, v@, i as int);
            }
            e[i] = (k, v);
            proof {
                assert(extra_view(e@) =~~= upsert(orig, k@, v@));
            }
            return ;
        }
        i = i + 1;
    }
    e.push((k, v));
    proof {
        lemma_upsert_absent(orig, k@, v@);
        assert(extra_view(e@) =~~= upsert(orig, k@, v@));
    }
}

/// When the key sits at position `i`, [`upsert`] replaces that entry in
/// place.
proof fn lemma_upsert_found(s: Seq<(Seq<u8>, Seq<u8>)>, k: Seq<u8>, v: Seq<u8>, i: int)
    requires
        0 <= i < s.len(),
        s[i].0 == k,
        forall|j: int| 0 <= j < i ==> s[j].0 != k,
    ensures
        upsert(s, k, v) == s.update(i, (k, v)),
    decreases i,
{
    if i == 0 {
        assert(upsert(s, k, v) =~= s.update(0, (k, v)));
    } else {
        assert forall|j: int| 0 <= j < i - 1 implies s.skip(1)[j].0 != k by {
            assert(s.skip(1)[j] == s[j + 1]);
        }
        lemma_upsert_found(s.skip(1), k, v, i - 1);
        assert(upsert(s, k, v) =~= s.update(i, (k, v)));
    }
}

/// When the key is absent, [`upsert`] appends the pair.
proof fn lemma_upsert_absent(s: Seq<(Seq<u8>, Seq<u8>)>, k: Seq<u8>, v: Seq<u8>)
    requires
        forall|j: int| 0 <= j < s.len() ==> s[j].0 != k,
    ensures
        upsert(s, k, v) == s.push((k, v)),
    decreases s.len(),
{
    if s.len() == 0 {
        assert(upsert(s, k, v) =~= s.push((k, v)));
    } else {
        assert forall|j: int| 0 <= j < s.skip(1).len() implies s.skip(1)[j].0 != k by {
            assert(s.skip(1)[j] == s[j + 1]);
        }
        lemma_upsert_absent(s.skip(1), k, v);
        assert(upsert(s, k, v) =~= s.push((k, v)));
    }
}

fn is_key(k: &Vec<u8>, lit: &[u8]) -> (r: bool)
    ensures
        r == (k@ == lit@),
{
    bytes_eq(k.as_slice(), lit)
}

/// Consume one `key=value` query pair into the running state; the exec
/// counterpart of [`apply_part_spec`].
fn match_fixed_query_params(acc: &mut QueryAcc, part: &Vec<u8>) -> (r: Result<(), Error>)
    ensures
        r is Ok ==> apply_part_spec(old(acc)@, part@) == Ok::<QAcc, Error>(final(acc)@),
        r matches Err(e) ==> apply_part_spec(old(acc)@, part@) == Err::<QAcc, Error>(e),
{
    let pe = find_from(part.as_slice(), 0, 0x3d);
    proof {
        assert(part@.skip(0) =~= part@);
    }
    if pe == part.len() {
        let key = url_decoded(part.as_slice());
        upsert_extra(&mut acc.extra, key, Vec::new());
        return Ok(());
    }
    let key = subvec(part.as_slice(), 0, pe);
    let value = subvec(part.as_slice(), pe + 1, part.len());
    proof {
        assert(key@ =~= part@.take(pe as int));
        assert(value@ =~= part@.skip(pe as int + 1));
    }
    let service_lit: [u8; 7] = [0x73, 0x65, 0x72, 0x76, 0x69, 0x63, 0x65];
    let relative_ref_lit: [u8; 11] = [
        0x72,
        0x65,
        0x6c,
        0x61,
        0x74,
        0x69,
        0x76,
        0x65,
        0x52,
        0x65,
        0x66,
    ];
    let version_id_lit: [u8; 9] = [0x76, 0x65, 0x72, 0x73, 0x69, 0x6f, 0x6e, 0x49, 0x64];
    let version_time_lit: [u8; 11] = [
        0x76,
        0x65,
        0x72,
        0x73,
        0x69,
        0x6f,
        0x6e,
        0x54,
        0x69,
        0x6d,
        0x65,
    ];
    let hl_lit: [u8; 2] = [0x68, 0x6c];
    proof {
        assert(service_lit@ =~= service_key());
        assert(relative_ref_lit@ =~= relative_ref_key());
        assert(version_id_lit@ =~= version_id_key());
        assert(version_time_lit@ =~= version_time_key());
        assert(hl_lit@ =~= hl_key());
    }
    if is_key(&key, service_lit.as_slice()) {
        match string_from_utf8(value) {
            Some(s) => {
                acc.service = Some(s);
                Ok(())
            },
            None => Err(Error::MalformedIdentifier),
        }
    } else if is_key(&key, relative_ref_lit.as_slice()) {
        acc.relative_ref = Some(url_decoded(value.as_slice()));
        Ok(())
    } else if is_key(&key, version_id_lit.as_slice()) {
        match string_from_utf8(value) {
            Some(s) => {
                acc.version_id = Some(s);
                Ok(())
            },
            None => Err(Error::MalformedIdentifier),
        }
    } else if is_key(&key, version_time_lit.as_slice()) {
        match parse_vt_bytes(&value) {
            Ok(t) => {
                acc.version_time = Some(t);
                Ok(())
            },
            Err(e) => Err(e),
        }
    } else if is_key(&key, hl_lit.as_slice()) {
        match string_from_utf8(value) {
            Some(s) => {
                acc.hash_link = Some(s);
                Ok(())
            },
            None => Err(Error::MalformedIdentifier),
        }
    } else {
        let dk = url_decoded(key.as_slice());
        let dv = url_decoded(value.as_slice());
        upsert_extra(&mut acc.extra, dk, dv);
        Ok(())
    }
}

/// Consume a whole query, splitting on `&`; the exec counterpart of
/// [`parse_parts_spec`].
fn parse_query(q: &[u8]) -> (r: Result<QueryAcc, Error>)
    ensures
        r matches Ok(a) ==> parse_parts_spec(empty_qacc(), q@) == Ok::<QAcc, Error>(a@),
        r matches Err(e) ==> parse_parts_spec(empty_qacc(), q@) == Err::<QAcc, Error>(e),
{
    let mut acc = QueryAcc {
        service: None,
        relative_ref: None,
        version_id: None,
        version_time: None,
        hash_link: None,
        extra: Vec::new(),
    };
    let mut pos: usize = 0;
    proof {
        assert(acc@.extra =~= Seq::<(Seq<u8>, Seq<u8>)>::empty());
        assert(acc@ == empty_qacc());
        assert(q@.skip(0) =~= q@);
    }
    loop
        invariant
            pos <= q@.len(),
            parse_parts_spec(empty_qacc(), q@) == parse_parts_spec(acc@, q@.skip(pos as int)),
        decreases q@.len() - pos,
    {
        let ghost tail = q@.skip(pos as int);
        let pa = find_from(q, pos, 0x26);
        let part = subvec(q, pos, pa);
        proof {
            assert(part@ =~= tail.take(pa - pos));
        }
        let ghost acc_before = acc@;
        match match_fixed_query_params(&mut acc, &part) {
            Err(e) => {
                return Err(e);
            },
            Ok(()) => {},
        }
        if pa < q.len() {
            proof {
                assert(tail.skip(pa - pos + 1) =~= q@.skip(pa + 1));
            }
            pos = pa + 1;
        } else {
            proof {
                assert(pa - pos == tail.len());
                assert(part@ =~= tail);
            }
            return Ok(acc);
        }
    }
}

/// Build a URL around an already-decoded identifier from a query-bearing
/// remainder, splitting off an optional fragment after the query; the exec
/// counterpart of [`parse_query_frag_spec`].
fn match_query(did: DID, path_raw: Option<Vec<u8>>, q: &[u8]) -> (r: Result<URL, Error>)
    ensures
        r matches Ok(u) ==> parse_query_frag_spec(did@, opt_bytes_view(path_raw), q@) == Ok::<
            UrlView,
            Error,
        >(u@),
        r matches Err(e) ==> parse_query_frag_spec(did@, opt_bytes_view(path_raw), q@) == Err::<
            UrlView,
            Error,
        >(e),
{
    let ph = find_from(q, 0, 0x23);
    proof {
        assert(q@.skip(0) =~= q@);
    }
    let query = subvec(q, 0, ph);
    proof {
        assert(query@ =~= q@.take(ph as int));
    }
    let fragment: Option<Vec<u8>> = if ph < q.len() {
        let raw = subvec(q, ph + 1, q.len());
        proof {
            assert(raw@ =~= q@.skip(ph as int + 1));
        }
        Some(url_decoded(raw.as_slice()))
    } else {
        None
    };
    let path: Option<Vec<u8>> = match path_raw {
        Some(p) => Some(url_decoded(p.as_slice())),
        None => None,
    };
    match parse_query(query.as_slice()) {
        Err(e) => Err(e),
        Ok(acc) => {
            let QueryAcc { service, relative_ref, version_id, version_time, hash_link, extra } =
                acc;
            let extra_query: Option<Vec<(Vec<u8>, Vec<u8>)>> = if extra.len() > 0 {
                Some(extra)
            } else {
                None
            };
            let params = URLParameters {
                path,
                fragment,
                service,
                relative_ref,
                version_id,
                version_time,
                hash_link,
                extra_query,
            };
            let u = URL { did, parameters: Some(params) };
            Ok(u)
        },
    }
}

/// Split a path-bearing remainder around an already-decoded identifier; the
/// exec counterpart of [`parse_after_path_spec`].
fn match_path(did: DID, left: &[u8]) -> (r: Result<URL, Error>)
    ensures
        r matches Ok(u) ==> parse_after_path_spec(did@, left@) == Ok::<UrlView, Error>(u@),
        r matches Err(e) ==> parse_after_path_spec(did@, left@) == Err::<UrlView, Error>(e),
{
    let pq = find_from(left, 0, 0x3f);
    let ph = find_from(left, 0, 0x23);
    proof {
        assert(left@.skip(0) =~= left@);
    }
    if ph < pq {
        let path_raw = subvec(left, 0, ph);
        let frag_raw = subvec(left, ph + 1, left.len());
        proof {
            assert(path_raw@ =~= left@.take(ph as int));
            assert(frag_raw@ =~= left@.skip(ph as int + 1));
        }
        let params = URLParameters {
            path: Some(url_decoded(path_raw.as_slice())),
            fragment: Some(url_decoded(frag_raw.as_slice())),
            ..Default::default()
        };
        Ok(URL { did, parameters: Some(params) })
    } else if pq < left.len() {
        let path_raw = subvec(left, 0, pq);
        let rest = subvec(left, pq + 1, left.len());
        proof {
            assert(path_raw@ =~= left@.take(pq as int));
            assert(rest@ =~= left@.skip(pq as int + 1));
        }
        match_query(did, Some(path_raw), rest.as_slice())
    } else {
        let params = URLParameters {
            path: Some(url_decoded(left)),
            ..Default::default()
        };
        Ok(URL { did, parameters: Some(params) })
    }
}

/// Dispatch on the first delimiter of the remainder after `did:<name>:`; the
/// exec counterpart of [`parse_right_spec`].
fn parse_right(name: Vec<u8>, right: &[u8]) -> (r: Result<URL, Error>)
    ensures
        r matches Ok(u) ==> parse_right_spec(name@, right@) == Ok::<UrlView, Error>(u@),
        r matches Err(e) ==> parse_right_spec(name@, right@) == Err::<UrlView, Error>(e),
{
    let ps = find_from(right, 0, 0x2f);
    let pq = find_from(right, 0, 0x3f);
    let ph = find_from(right, 0, 0x23);
    proof {
        assert(right@.skip(0) =~= right@);
    }
    if ps < right.len() && ps < pq && ps < ph {
        let id_raw = subvec(right, 0, ps);
        let rest = subvec(right, ps + 1, right.len());
        proof {
            assert(id_raw@ =~= right@.take(ps as int));
            assert(rest@ =~= right@.skip(ps as int + 1));
        }
        let id = url_decoded(id_raw.as_slice());
        match_path(DID { name, id }, rest.as_slice())
    } else if pq < ph {
        let id_raw = subvec(right, 0, pq);
        let rest = subvec(right, pq + 1, right.len());
        proof {
            assert(id_raw@ =~= right@.take(pq as int));
            assert(rest@ =~= right@.skip(pq as int + 1));
        }
        let id = url_decoded(id_raw.as_slice());
        match_query(DID { name, id }, None, rest.as_slice())
    } else if ph < right.len() {
        let id_raw = subvec(right, 0, ph);
        let frag_raw = subvec(right, ph + 1, right.len());
        proof {
            assert(id_raw@ =~= right@.take(ph as int));
            assert(frag_raw@ =~= right@.skip(ph as int + 1));
        }
        let id = url_decoded(id_raw.as_slice());
        let params = URLParameters {
            fragment: Some(url_decoded(frag_raw.as_slice())),
            ..Default::default()
        };
        Ok(URL { did: DID { name, id }, parameters: Some(params) })
    } else {
        Ok(URL { did: DID { name, id: url_decoded(right) }, parameters: None })
    }
}

/// Parse DID URL text already read as bytes; the byte-level core of
/// [`URL::parse`].
pub(crate) fn parse_url_bytes(b: &Vec<u8>) -> (r: Result<URL, Error>)
    ensures
        r matches Ok(u) ==> parse_url_spec(b@) == Ok::<UrlView, Error>(u@),
        r matches Err(e) ==> parse_url_spec(b@) == Err::<UrlView, Error>(e),
{
    if b.len() < 4 || !(b[0] == 0x64 && b[1] == 0x69 && b[2] == 0x64 && b[3] == 0x3a) {
        proof {
            if b@.len() >= 4 {
                assert(b@.subrange(0, 4) != did_prefix());
            }
        }
        return Err(Error::MalformedIdentifier);
    }
    assert(b@.subrange(0, 4) =~= did_prefix());
    let ghost rest = b@.skip(4);
    let pc = find_from(b.as_slice(), 4, 0x3a);
    if pc == b.len() {
        assert(idx_of(rest, 0x3a) == rest.len());
        return Err(Error::MalformedIdentifier);
    }
    assert(idx_of(rest, 0x3a) == pc - 4 && pc - 4 < rest.len());
    let name_raw = subvec(b.as_slice(), 4, pc);
    let right = subvec(b.as_slice(), pc + 1, b.len());
    proof {
        assert(name_raw@ =~= rest.take(pc - 4));
        assert(right@ =~= rest.skip(pc - 4 + 1));
    }
    let name = url_decoded(name_raw.as_slice());
    match validate_method_name(name.as_slice()) {
        Err(e) => Err(e),
        Ok(()) => parse_right(name, right.as_slice()),
    }
}

impl URL {
    /// Parse a DID URL from its text form. See [`parse_url_spec`] for
    /// exactly which inputs are accepted and what they yield.
    pub fn parse(s: &str) -> (r: Result<URL, Error>)
        ensures
            r matches Ok(u) ==> parse_url_spec(s.spec_bytes()) == Ok::<UrlView, Error>(u@),
            r matches Err(e) ==> parse_url_spec(s.spec_bytes()) == Err::<UrlView, Error>(e),
    {
        let b = s.as_bytes_vec();
        parse_url_bytes(&b)
    }

    /// Parse a relative reference — `/path…`, `?query…` or `#fragment…` —
    /// and splice it onto this URL's identifier; the parameters of `self`
    /// itself do not carry over. See [`join_spec`].
    pub fn join(&self, s: &str) -> (r: Result<URL, Error>)
        ensures
            r matches Ok(u) ==> join_spec(self@.did, s.spec_bytes()) == Ok::<UrlView, Error>(u@),
            r matches Err(e) ==> join_spec(self@.did, s.spec_bytes()) == Err::<UrlView, Error>(e),
    {
        let b = s.as_bytes_vec();
        if b.len() == 0 {
            return Err(Error::EmptyRelativeReference);
        }
        let c = b[0];
        if c != 0x2f && c != 0x3f && c != 0x23 {
            return Err(Error::InvalidRelativeReference);
        }
        match validate_method_name(self.did.name.as_slice()) {
            Err(e) => {
                return Err(e);
            },
            Ok(()) => {},
        }
        let base = self.did.clone();
        let restv = subvec(b.as_slice(), 1, b.len());
        proof {
            assert(restv@ =~= b@.skip(1));
        }
        if c == 0x2f {
            match_path(base, restv.as_slice())
        } else if c == 0x3f {
            match_query(base, None, restv.as_slice())
        } else {
            let params = URLParameters {
                fragment: Some(url_decoded(restv.as_slice())),
                ..Default::default()
            };
            Ok(URL { did: base, parameters: Some(params) })
        }
    }

    /// The underlying identifier, with all parameters dropped.
    pub fn to_did(&self) -> (r: DID)
        ensures
            r@ == self@.did,
    {
        self.did.clone()
    }
}

// ---------------------------------------------------------------------------
// The text form, stated over character sequences.
// ---------------------------------------------------------------------------
/// The text `service=` that opens the service query pair.
pub open spec fn service_tag() -> Seq<char> {
    seq!['s', 'e', 'r', 'v', 'i', 'c', 'e', '=']
}

/// The text `relativeRef=` that opens the relative-reference query pair.
pub open spec fn relative_ref_tag() -> Seq<char> {
    seq!['r', 'e', 'l', 'a', 't', 'i', 'v', 'e', 'R', 'e', 'f', '=']
}

/// The text `versionId=` that opens the version-id query pair.
pub open spec fn version_id_tag() -> Seq<char> {
    seq!['v', 'e', 'r', 's', 'i', 'o', 'n', 'I', 'd', '=']
}

/// The text `versionTime=` that opens the version-time query pair.
pub open spec fn version_time_tag() -> Seq<char> {
    seq!['v', 'e', 'r', 's', 'i', 'o', 'n', 'T', 'i', 'm', 'e', '=']
}

/// The text `hl=` that opens the hash-link query pair.
pub open spec fn hl_tag() -> Seq<char> {
    seq!['h', 'l', '=']
}

/// Join text pieces with `&` between them, with no `&` at either end.
pub open spec fn amp_join(pieces: Seq<Seq<char>>) -> Seq<char>
    decreases pieces.len(),
{
    if pieces.len() == 0 {
        Seq::empty()
    } else if pieces.len() == 1 {
        pieces[0]
    } else {
        pieces[0] + seq!['&'] + amp_join(pieces.skip(1))
    }
}

/// The text of one unrecognized query pair: encoded key, `=`, encoded value.
pub open spec fn extra_piece(k: Seq<u8>, v: Seq<u8>) -> Seq<char> {
    enc_chars(k, true) + seq!['='] + enc_chars(v, true)
}

/// The text pieces of the unrecognized query pairs, in stored order.
pub open spec fn extra_pieces(e: Seq<(Seq<u8>, Seq<u8>)>) -> Seq<Seq<char>> {
    e.map(|i: int, kv: (Seq<u8>, Seq<u8>)| extra_piece(kv.0, kv.1))
}

/// The query pieces of a parameter record, in the fixed field order with the
/// unrecognized pairs last in stored order.
pub open spec fn query_pieces(p: ParamsView) -> Seq<Seq<char>> {
    (match p.service {
        Some(s) => seq![service_tag() + s],
        None => Seq::empty(),
    }) + (match p.relative_ref {
        Some(r) => seq![relative_ref_tag() + enc_chars(r, true)],
        None => Seq::empty(),
    }) + (match p.version_id {
        Some(v) => seq![version_id_tag() + v],
        None => Seq::empty(),
    }) + (match p.version_time {
        Some(t) => seq![version_time_tag() + vt_chars(t)],
        None => Seq::empty(),
    }) + (match p.hash_link {
        Some(h) => seq![hl_tag() + h],
        None => Seq::empty(),
    }) + (match p.extra_query {
        Some(e) => extra_pieces(e),
        None => Seq::empty(),
    })
}

/// Whether the text form carries a `?` query at all.
pub open spec fn has_query(p: ParamsView) -> bool {
    p.service is Some || p.relative_ref is Some || p.version_id is Some || p.version_time is Some
        || p.hash_link is Some || p.extra_query is Some
}

/// Appending a piece to an `&`-join: the first piece comes bare, every
/// later one after an `&`.
pub proof fn lemma_amp_join_push(a: Seq<Seq<char>>, x: Seq<char>)
    ensures
        amp_join(a.push(x)) == if a.len() == 0 {
            x
        } else {
            amp_join(a) + seq!['&'] + x
        },
    decreases a.len(),
{
    if a.len() == 0 {
        assert(a.push(x).len() == 1);
        assert(a.push(x)[0] == x);
    } else {
        assert(a.push(x).skip(1) =~~= a.skip(1).push(x));
        lemma_amp_join_push(a.skip(1), x);
        if a.len() == 1 {
            assert(a.push(x)[0] == a[0]);
            assert(amp_join(a.push(x)) == a[0] + seq!['&'] + amp_join(a.skip(1).push(x)));
            assert(a.skip(1).len() == 0);
            assert(amp_join(a) == a[0]);
        } else {
            assert(a.push(x)[0] == a[0]);
            assert(amp_join(a.push(x)) =~= amp_join(a) + seq!['&'] + x);
        }
    }
}

/// The text form of a DID URL: the identifier, then `/` and the encoded
/// path, then `?` and the `&`-joined query pieces, then `#` and the encoded
/// fragment, each present only when set.
pub open spec fn url_chars(u: UrlView) -> Seq<char> {
    did_chars(u.did) + match u.parameters {
        None => Seq::<char>::empty(),
        Some(p) => (match p.path {
            Some(pa) => seq!['/'] + enc_chars(pa, true),
            None => Seq::<char>::empty(),
        }) + (if has_query(p) {
            seq!['?'] + amp_join(query_pieces(p))
        } else {
            Seq::<char>::empty()
        }) + (match p.fragment {
            Some(f) => seq!['#'] + enc_chars(f, true),
            None => Seq::<char>::empty(),
        }),
    }
}

impl URL {
    /// The text form: `did:<name>:<id>[/<path>][?<query>][#<fragment>]`,
    /// with the reserved query fields in their fixed order ahead of the
    /// unrecognized pairs.
    /// The text form: `did:<name>:<id>[/<path>][?<query>][#<fragment>]`,
    /// with the reserved query fields in their fixed order ahead of the
    /// unrecognized pairs.
    #[verifier::rlimit(60)]
    pub fn to_string(&self) -> (r: String)
        ensures
            r@ == url_chars(self@),
    {
        let mut ret = self.did.to_string();
        match &self.parameters {
            None => {
                proof {
                    assert(ret@ =~= url_chars(self@));
                }
                ret
            },
            Some(params) => {
                let ghost p_v = params@;
                match &params.path {
                    Some(path) => {
                        ret.append("/");
                        let ep = url_encoded(path.as_slice());
                        ret.append(ep.as_str());
                        proof {
                            reveal_strlit("/");
                            assert(("/")@ =~= seq!['/']);
                        }
                    },
                    None => {},
                }
                let ghost after_path = ret@;
                let hq = params.service.is_some() || params.relative_ref.is_some()
                    || params.version_id.is_some() || params.version_time.is_some()
                    || params.hash_link.is_some() || params.extra_query.is_some();
                if hq {
                    let qs = build_query(params);
                    ret.append("?");
                    ret.append(qs.as_str());
                    proof {
                        reveal_strlit("?");
                        assert(("?")@ =~= seq!['?']);
                        assert(ret@ =~= after_path + seq!['?'] + amp_join(query_pieces(p_v)));
                    }
                }
                let ghost after_query = ret@;
                match &params.fragment {
                    Some(f) => {
                        ret.append("#");
                        let ef = url_encoded(f.as_slice());
                        ret.append(ef.as_str());
                        proof {
                            reveal_strlit("#");
                            assert(("#")@ =~= seq!['#']);
                        }
                    },
                    None => {},
                }
                proof {
                    assert(hq == has_query(p_v));
                    assert(ret@ =~= url_chars(self@));
                }
                ret
            },
        }
    }
}

/// Build the `&`-joined query text of a parameter record.
#[verifier::rlimit(100)]
fn build_query(params: &URLParameters) -> (qs: String)
    ensures
        qs@ == amp_join(query_pieces(params@)),
{
    let ghost p_v = params@;
    let ghost seg_s: Seq<Seq<char>> = match p_v.service {
        Some(s) => seq![service_tag() + s],
        None => Seq::empty(),
    };
    let ghost seg_r: Seq<Seq<char>> = match p_v.relative_ref {
        Some(rr) => seq![relative_ref_tag() + enc_chars(rr, true)],
        None => Seq::empty(),
    };
    let ghost seg_vi: Seq<Seq<char>> = match p_v.version_id {
        Some(v) => seq![version_id_tag() + v],
        None => Seq::empty(),
    };
    let ghost seg_vt: Seq<Seq<char>> = match p_v.version_time {
        Some(t) => seq![version_time_tag() + vt_chars(t)],
        None => Seq::empty(),
    };
    let ghost seg_hl: Seq<Seq<char>> = match p_v.hash_link {
        Some(h) => seq![hl_tag() + h],
        None => Seq::empty(),
    };
    let ghost seg_e: Seq<Seq<char>> = match p_v.extra_query {
        Some(e) => extra_pieces(e),
        None => Seq::empty(),
    };
    let mut qs = String::new();
    let mut any: bool = false;
    let ghost mut done: Seq<Seq<char>> = Seq::empty();
    proof {
        reveal_strlit("&");
        assert(("&")@ =~= seq!['&']);
    }
    match &params.service {
        Some(s) => {
            let mut piece = String::from_str("service=");
            piece.append(s.as_str());
            proof {
                reveal_strlit("service=");
                assert(("service=")@ =~= service_tag());
            }
            if any {
                qs.append("&");
            }
            qs.append(piece.as_str());
            proof {
                lemma_amp_join_push(done, piece@);
                done = done.push(piece@);
                assert(qs@ =~= amp_join(done));
            }
            any = true;
        },
        None => {},
    }
    assert(done =~= seg_s);
    match &params.relative_ref {
        Some(rr) => {
            let mut piece = String::from_str("relativeRef=");
            let erx = url_encoded(rr.as_slice());
            piece.append(erx.as_str());
            proof {
                reveal_strlit("relativeRef=");
                assert(("relativeRef=")@ =~= relative_ref_tag());
            }
            if any {
                qs.append("&");
            }
            qs.append(piece.as_str());
            proof {
                lemma_amp_join_push(done, piece@);
                done = done.push(piece@);
                assert(qs@ =~= amp_join(done));
            }
            any = true;
        },
        None => {},
    }
    assert(done =~= seg_s + seg_r);
    match &params.version_id {
        Some(v) => {
            let mut piece = String::from_str("versionId=");
            piece.append(v.as_str());
            proof {
                reveal_strlit("versionId=");
                assert(("versionId=")@ =~= version_id_tag());
            }
            if any {
                qs.append("&");
            }
            qs.append(piece.as_str());
            proof {
                lemma_amp_join_push(done, piece@);
                done = done.push(piece@);
                assert(qs@ =~= amp_join(done));
            }
            any = true;
        },
        None => {},
    }
    assert(done =~= seg_s + seg_r + seg_vi);
    match &params.version_time {
        Some(t) => {
            let mut piece = String::from_str("versionTime=");
            let tv = t.to_string();
            piece.append(tv.as_str());
            proof {
                reveal_strlit("versionTime=");
                assert(("versionTime=")@ =~= version_time_tag());
            }
            if any {
                qs.append("&");
            }
            qs.append(piece.as_str());
            proof {
                lemma_amp_join_push(done, piece@);
                done = done.push(piece@);
                assert(qs@ =~= amp_join(done));
            }
            any = true;
        },
        None => {},
    }
    assert(done =~= seg_s + seg_r + seg_vi + seg_vt);
    match &params.hash_link {
        Some(h) => {
            let mut piece = String::from_str("hl=");
            piece.append(h.as_str());
            proof {
                reveal_strlit("hl=");
                assert(("hl=")@ =~= hl_tag());
            }
            if any {
                qs.append("&");
            }
            qs.append(piece.as_str());
            proof {
                lemma_amp_join_push(done, piece@);
                done = done.push(piece@);
                assert(qs@ =~= amp_join(done));
            }
            any = true;
        },
        None => {},
    }
    let ghost base = seg_s + seg_r + seg_vi + seg_vt + seg_hl;
    assert(done =~= base);
    match &params.extra_query {
        Some(extra) => {
            let ghost exv = extra_view(extra@);
            let mut i: usize = 0;
            proof {
                assert(done =~= base + extra_pieces(exv.take(0)));
            }
            while i < extra.len()
                invariant
                    i <= extra@.len(),
                    exv == extra_view(extra@),
                    exv.len() == extra@.len(),
                    qs@ == amp_join(done),
                    any == (done.len() > 0),
                    done == base + extra_pieces(exv.take(i as int)),
                decreases extra@.len() - i,
            {
                let kv = &extra[i];
                let mut piece = url_encoded(kv.0.as_slice());
                piece.append("=");
                let ev = url_encoded(kv.1.as_slice());
                piece.append(ev.as_str());
                proof {
                    reveal_strlit("=");
                    assert(("=")@ =~= seq!['=']);
                    assert(exv[i as int] == (extra@[i as int].0@, extra@[i as int].1@));
                    assert(piece@ =~= extra_piece(exv[i as int].0, exv[i as int].1));
                }
                if any {
                    qs.append("&");
                }
                qs.append(piece.as_str());
                proof {
                    reveal_strlit("&");
                    assert(("&")@ =~= seq!['&']);
                    lemma_amp_join_push(done, piece@);
                    done = done.push(piece@);
                    assert(qs@ =~= amp_join(done));
                    assert(extra_pieces(exv.take(i + 1)) =~= extra_pieces(
                        exv.take(i as int),
                    ).push(extra_piece(exv[i as int].0, exv[i as int].1)));
                    assert(done =~= base + extra_pieces(exv.take(i + 1)));
                }
                any = true;
                i = i + 1;
            }
            proof {
                assert(exv.take(extra@.len() as int) =~= exv);
            }
        },
        None => {},
    }
    proof {
        assert(done =~= query_pieces(p_v));
    }
    qs
}

fn opt_string_eq(a: &Option<String>, b: &Option<String>) -> (r: bool)
    ensures
        r == match (a, b) {
            (Some(x), Some(y)) => x@ == y@,
            (None, None) => true,
            _ => false,
        },
{
    match (a, b) {
        (Some(x), Some(y)) => *x == *y,
        (None, None) => true,
        _ => false,
    }
}

fn extra_query_eq(a: &Option<Vec<(Vec<u8>, Vec<u8>)>>, b: &Option<Vec<(Vec<u8>, Vec<u8>)>>) -> (r:
    bool)
    ensures
        r == match (a, b) {
            (Some(x), Some(y)) => extra_view(x@) == extra_view(y@),
            (None, None) => true,
            _ => false,
        },
{
    match (a, b) {
        (Some(x), Some(y)) => extra_vec_eq(x, y),
        (None, None) => true,
        _ => false,
    }
}

fn extra_vec_eq(x: &Vec<(Vec<u8>, Vec<u8>)>, y: &Vec<(Vec<u8>, Vec<u8>)>) -> (r: bool)
    ensures
        r == (extra_view(x@) == extra_view(y@)),
{
    if x.len() != y.len() {
        assert(extra_view(x@).len() != extra_view(y@).len());
        return false;
    }
    let mut i: usize = 0;
    while i < x.len()
        invariant
            i <= x@.len(),
            x@.len() == y@.len(),
            forall|j: int| 0 <= j < i ==> extra_view(x@)[j] == extra_view(y@)[j],
        decreases x@.len() - i,
    {
        let kx = &x[i];
        let ky = &y[i];
        if !(bytes_eq(kx.0.as_slice(), ky.0.as_slice()) && bytes_eq(
            kx.1.as_slice(),
            ky.1.as_slice(),
        )) {
            proof {
                assert(extra_view(x@)[i as int] != extra_view(y@)[i as int]);
                if extra_view(x@) == extra_view(y@) {
                    assert(extra_view(x@)[i as int] == extra_view(y@)[i as int]);
                }
            }
            return false;
        }
        assert(extra_view(x@)[i as int] == extra_view(y@)[i as int]);
        i = i + 1;
    }
    assert(extra_view(x@) =~= extra_view(y@));
    true
}

impl PartialEq for URLParameters {
    fn eq(&self, other: &Self) -> (r: bool)
        ensures
            r == (self@ == other@),
    {
        let vt_same = match (self.version_time, other.version_time) {
            (Some(x), Some(y)) => x == y,
            (None, None) => true,
            _ => false,
        };
        let r = opt_bytes_eq(&self.path, &other.path) && opt_bytes_eq(
            &self.fragment,
            &other.fragment,
        ) && opt_string_eq(&self.service, &other.service) && opt_bytes_eq(
            &self.relative_ref,
            &other.relative_ref,
        ) && opt_string_eq(&self.version_id, &other.version_id) && vt_same && opt_string_eq(
            &self.hash_link,
            &other.hash_link,
        ) && extra_query_eq(&self.extra_query, &other.extra_query);
        proof {
            if r {
                assert(self@ == other@);
            } else {
                assert(self@ != other@);
            }
        }
        r
    }
}

impl vstd::std_specs::cmp::PartialEqSpecImpl for URLParameters {
    open spec fn obeys_eq_spec() -> bool {
        true
    }

    open spec fn eq_spec(&self, other: &Self) -> bool {
        self@ == other@
    }
}

impl Eq for URLParameters {}

impl PartialEq for URL {
    fn eq(&self, other: &Self) -> (r: bool)
        ensures
            r == (self@ == other@),
    {
        let params_same = match (&self.parameters, &other.parameters) {
            (Some(x), Some(y)) => x == y,
            (None, None) => true,
            _ => false,
        };
        let r = self.did == other.did && params_same;
        proof {
            if r {
                assert(self@ == other@);
            } else {
                assert(self@ != other@);
            }
        }
        r
    }
}

impl vstd::std_specs::cmp::PartialEqSpecImpl for URL {
    open spec fn obeys_eq_spec() -> bool {
        true
    }

    open spec fn eq_spec(&self, other: &Self) -> bool {
        self@ == other@
    }
}

impl Eq for URL {}

// ---------------------------------------------------------------------------
// Round trip: parsing the text form gives back the URL, field for field.
// ---------------------------------------------------------------------------
/// `c` does not occur in `s`.
pub open spec fn chars_lack(s: Seq<char>, c: char) -> bool {
    forall|i: int| 0 <= i < s.len() ==> s[i] != c
}

/// `b` does not occur in `s`.
pub open spec fn bytes_lack(s: Seq<u8>, b: u8) -> bool {
    forall|i: int| 0 <= i < s.len() ==> s[i] != b
}

/// The raw byte forms of the five reserved query keys.
pub open spec fn reserved_key(k: Seq<u8>) -> bool {
    k == service_key() || k == relative_ref_key() || k == version_id_key() || k
        == version_time_key() || k == hl_key()
}

/// The unrecognized query lists the text form can carry: non-empty, keys
/// pairwise distinct and none spelled like a reserved key.
pub open spec fn wf_extra(e: Seq<(Seq<u8>, Seq<u8>)>) -> bool {
    &&& e.len() > 0
    &&& forall|i: int| 0 <= i < e.len() ==> !reserved_key((#[trigger] e[i]).0)
    &&& forall|i: int, j: int| 0 <= i < j < e.len() ==> (#[trigger] e[i]).0 != (#[trigger] e[j]).0
}

/// The parameter records the text form can carry: the raw string fields
/// free of `&` and `#`, the timestamp in calendar range, the unrecognized
/// list well-formed, and at least one field set.
pub open spec fn wf_params(p: ParamsView) -> bool {
    &&& (p.service matches Some(s) ==> chars_lack(s, '&') && chars_lack(s, '#'))
    &&& (p.version_id matches Some(s) ==> chars_lack(s, '&') && chars_lack(s, '#'))
    &&& (p.hash_link matches Some(s) ==> chars_lack(s, '&') && chars_lack(s, '#'))
    &&& (p.version_time matches Some(t) ==> crate::time::wf_version_time(t))
    &&& (p.extra_query matches Some(e) ==> wf_extra(e))
    &&& (p.path is Some || p.fragment is Some || has_query(p))
}

/// The URLs whose text form parses back to themselves: a valid method name
/// and well-formed parameters. The id is unconstrained; it may be empty and
/// may hold arbitrary bytes.
pub open spec fn wf_url(u: UrlView) -> bool {
    &&& is_method_name(u.did.name)
    &&& (u.parameters matches Some(p) ==> wf_params(p))
}

/// One query pair as an abstract item, for reasoning about the query walk.
pub enum QItem {
    Service(Seq<char>),
    RelRef(Seq<u8>),
    Vid(Seq<char>),
    Vt(VersionTime),
    Hl(Seq<char>),
    Extra(Seq<u8>, Seq<u8>),
}

/// The text piece an item prints as.
pub open spec fn item_piece(it: QItem) -> Seq<char> {
    match it {
        QItem::Service(s) => service_tag() + s,
        QItem::RelRef(r) => relative_ref_tag() + enc_chars(r, true),
        QItem::Vid(v) => version_id_tag() + v,
        QItem::Vt(t) => version_time_tag() + vt_chars(t),
        QItem::Hl(h) => hl_tag() + h,
        QItem::Extra(k, v) => extra_piece(k, v),
    }
}

/// What consuming an item does to the query state.
pub open spec fn apply_item(acc: QAcc, it: QItem) -> QAcc {
    match it {
        QItem::Service(s) => QAcc { service: Some(s), ..acc },
        QItem::RelRef(r) => QAcc { relative_ref: Some(r), ..acc },
        QItem::Vid(v) => QAcc { version_id: Some(v), ..acc },
        QItem::Vt(t) => QAcc { version_time: Some(t), ..acc },
        QItem::Hl(h) => QAcc { hash_link: Some(h), ..acc },
        QItem::Extra(k, v) => QAcc { extra: acc.extra.push((k, v)), ..acc },
    }
}

/// Consume a list of items in order.
pub open spec fn fold_items(acc: QAcc, items: Seq<QItem>) -> QAcc
    decreases items.len(),
{
    if items.len() == 0 {
        acc
    } else {
        fold_items(apply_item(acc, items[0]), items.skip(1))
    }
}

/// The items the text form can carry: raw string values free of `&` and
/// `#`, timestamps in range, unrecognized keys not spelled reserved.
pub open spec fn wf_item(it: QItem) -> bool {
    match it {
        QItem::Service(s) => chars_lack(s, '&') && chars_lack(s, '#'),
        QItem::Vid(v) => chars_lack(v, '&') && chars_lack(v, '#'),
        QItem::Hl(h) => chars_lack(h, '&') && chars_lack(h, '#'),
        QItem::Vt(t) => crate::time::wf_version_time(t),
        QItem::RelRef(r) => true,
        QItem::Extra(k, v) => !reserved_key(k),
    }
}

/// Whether an item is an unrecognized pair.
pub open spec fn is_extra_item(it: QItem) -> bool {
    it matches QItem::Extra(_, _)
}

/// The key of an unrecognized pair (empty for other items).
pub open spec fn extra_key(it: QItem) -> Seq<u8> {
    match it {
        QItem::Extra(k, v) => k,
        _ => Seq::empty(),
    }
}

/// Whether the state already holds an unrecognized pair under `k`.
pub open spec fn acc_has_key(acc: QAcc, k: Seq<u8>) -> bool {
    exists|i: int| 0 <= i < acc.extra.len() && (#[trigger] acc.extra[i]).0 == k
}

/// The conditions under which a list of items replays exactly: each item
/// well-formed, and the unrecognized keys new and pairwise distinct.
pub open spec fn items_ok(acc: QAcc, items: Seq<QItem>) -> bool {
    &&& forall|i: int| 0 <= i < items.len() ==> wf_item(#[trigger] items[i])
    &&& forall|i: int|
        0 <= i < items.len() ==> (is_extra_item(#[trigger] items[i]) ==> !acc_has_key(
            acc,
            extra_key(items[i]),
        ))
    &&& forall|i: int, j: int|
        0 <= i < j < items.len() && is_extra_item(#[trigger] items[i]) && is_extra_item(
            #[trigger] items[j],
        ) ==> extra_key(items[i]) != extra_key(items[j])
}

/// The text pieces of a list of items.
pub open spec fn pieces_of(items: Seq<QItem>) -> Seq<Seq<char>> {
    items.map(|i: int, it: QItem| item_piece(it))
}

/// The unrecognized pairs as items.
pub open spec fn extra_items(e: Seq<(Seq<u8>, Seq<u8>)>) -> Seq<QItem> {
    e.map(|i: int, kv: (Seq<u8>, Seq<u8>)| QItem::Extra(kv.0, kv.1))
}

/// The query state a parameter record prints as, and that parsing its query
/// builds back.
pub open spec fn acc_of(p: ParamsView) -> QAcc {
    QAcc {
        service: p.service,
        relative_ref: p.relative_ref,
        version_id: p.version_id,
        version_time: p.version_time,
        hash_link: p.hash_link,
        extra: match p.extra_query {
            Some(e) => e,
            None => Seq::empty(),
        },
    }
}

/// Characters with equal codes are equal.
proof fn lemma_char_inj(a: char, b: char)
    requires
        a as u32 == b as u32,
    ensures
        a == b,
{
    vstd::utf8::char_u32_cast(a, a as u32);
    vstd::utf8::char_u32_cast(b, b as u32);
}

/// A character sequence whose codes spell out ASCII bytes is those bytes
/// read as characters.
proof fn lemma_chars_are_ascii_bytes(cs: Seq<char>, bs: Seq<u8>)
    requires
        cs.len() == bs.len(),
        forall|i: int| 0 <= i < cs.len() ==> (#[trigger] cs[i]) as u32 == bs[i] && bs[i] < 0x80,
    ensures
        cs == ascii_chars(bs),
        encode_utf8(cs) == bs,
{
    assert forall|i: int| 0 <= i < cs.len() implies cs[i] == ascii_chars(bs)[i] by {
        assert(ascii_chars(bs)[i] == bs[i] as char);
        assert((bs[i] as char) as u32 == bs[i] as u32);
        lemma_char_inj(cs[i], bs[i] as char);
    }
    assert(cs =~= ascii_chars(bs));
    assert forall|i: int| 0 <= i < bs.len() implies #[trigger] bs[i] < 0x80 by {
        assert((cs[i]) as u32 == bs[i]);
    }
    crate::codec::lemma_ascii_chars_utf8(bs);
}

/// The UTF-8 bytes of each reserved tag: its key bytes followed by `=`.
proof fn lemma_tag_bytes()
    ensures
        encode_utf8(service_tag()) == service_key() + seq![0x3du8],
        encode_utf8(relative_ref_tag()) == relative_ref_key() + seq![0x3du8],
        encode_utf8(version_id_tag()) == version_id_key() + seq![0x3du8],
        encode_utf8(version_time_tag()) == version_time_key() + seq![0x3du8],
        encode_utf8(hl_tag()) == hl_key() + seq![0x3du8],
{
    lemma_chars_are_ascii_bytes(service_tag(), service_key() + seq![0x3du8]);
    lemma_chars_are_ascii_bytes(relative_ref_tag(), relative_ref_key() + seq![0x3du8]);
    lemma_chars_are_ascii_bytes(version_id_tag(), version_id_key() + seq![0x3du8]);
    lemma_chars_are_ascii_bytes(version_time_tag(), version_time_key() + seq![0x3du8]);
    lemma_chars_are_ascii_bytes(hl_tag(), hl_key() + seq![0x3du8]);
}

/// Encoded text never holds a character whose byte the encoding escapes.
proof fn lemma_enc_chars_lack(s: Seq<u8>, escape_colon: bool, c: char)
    requires
        (c as u32) < 0x80,
        !crate::codec::is_unreserved_byte((c as u32) as u8),
        (c as u32) as u8 != 0x25,
        escape_colon || (c as u32) as u8 != 0x3a,
    ensures
        chars_lack(enc_chars(s, escape_colon), c),
{
    lemma_enc_bytes(s, escape_colon);
    let e = enc(s, escape_colon);
    assert forall|i: int| 0 <= i < enc_chars(s, escape_colon).len() implies enc_chars(
        s,
        escape_colon,
    )[i] != c by {
        assert(enc_chars(s, escape_colon)[i] == e[i] as char);
        if e[i] as char == c {
            assert((e[i] as char) as u32 == e[i] as u32);
        }
    }
}

/// The timestamp text holds only digits and its fixed separators.
proof fn lemma_vt_chars_lack(t: VersionTime, c: char)
    requires
        (c as u32) < 0x80,
        !(0x30 <= (c as u32) && (c as u32) <= 0x39),
        (c as u32) != 0x2d && (c as u32) != 0x54 && (c as u32) != 0x3a && (c as u32) != 0x5a,
    ensures
        chars_lack(vt_chars(t), c),
{
    let bs = crate::time::vt_bytes(t);
    assert forall|i: int| 0 <= i < vt_chars(t).len() implies vt_chars(t)[i] != c by {
        assert(vt_chars(t)[i] == bs[i] as char);
        if bs[i] as char == c {
            assert((bs[i] as char) as u32 == bs[i] as u32);
        }
    }
}

/// No reserved tag holds `&`, `#` or (before its final `=`) an `=`.
proof fn lemma_tag_chars()
    ensures
        chars_lack(service_tag(), '&') && chars_lack(service_tag(), '#'),
        chars_lack(relative_ref_tag(), '&') && chars_lack(relative_ref_tag(), '#'),
        chars_lack(version_id_tag(), '&') && chars_lack(version_id_tag(), '#'),
        chars_lack(version_time_tag(), '&') && chars_lack(version_time_tag(), '#'),
        chars_lack(hl_tag(), '&') && chars_lack(hl_tag(), '#'),
{
}

/// A well-formed item's piece holds no `&` and no `#`.
proof fn lemma_item_piece_lacks(it: QItem, c: char)
    requires
        wf_item(it),
        c == '&' || c == '#',
    ensures
        chars_lack(item_piece(it), c),
{
    lemma_tag_chars();
    assert(('&' as u32) == 0x26 && ('#' as u32) == 0x23);
    match it {
        QItem::Service(s) => {},
        QItem::RelRef(r) => {
            lemma_enc_chars_lack(r, true, c);
        },
        QItem::Vid(v) => {},
        QItem::Vt(t) => {
            lemma_vt_chars_lack(t, c);
        },
        QItem::Hl(h) => {},
        QItem::Extra(k, v) => {
            lemma_enc_chars_lack(k, true, c);
            lemma_enc_chars_lack(v, true, c);
            assert(('=' as u32) == 0x3d);
            assert(chars_lack(seq!['='], c));
        },
    }
    assert forall|i: int| 0 <= i < item_piece(it).len() implies item_piece(it)[i] != c by {}
}

/// An `&`-join of pieces that lack `c` lacks `c` too, unless `c` is `&`.
proof fn lemma_amp_join_lacks(pieces: Seq<Seq<char>>, c: char)
    requires
        c != '&',
        forall|i: int| 0 <= i < pieces.len() ==> chars_lack(#[trigger] pieces[i], c),
    ensures
        chars_lack(amp_join(pieces), c),
    decreases pieces.len(),
{
    if pieces.len() == 0 {
    } else if pieces.len() == 1 {
        assert(chars_lack(pieces[0], c));
    } else {
        assert forall|i: int| 0 <= i < pieces.skip(1).len() implies chars_lack(
            #[trigger] pieces.skip(1)[i],
            c,
        ) by {
            assert(pieces.skip(1)[i] == pieces[i + 1]);
        }
        lemma_amp_join_lacks(pieces.skip(1), c);
        assert(chars_lack(pieces[0], c));
        assert forall|i: int| 0 <= i < amp_join(pieces).len() implies amp_join(pieces)[i] != c by {
            let head = pieces[0] + seq!['&'];
            if i >= head.len() {
                assert(amp_join(pieces)[i] == amp_join(pieces.skip(1))[i - head.len()]);
            }
        }
    }
}

/// The reserved key literals hold no `%`, `=` or `&`, and differ pairwise.
proof fn lemma_key_facts()
    ensures
        bytes_lack(service_key(), 0x25) && bytes_lack(service_key(), 0x3d),
        bytes_lack(relative_ref_key(), 0x25) && bytes_lack(relative_ref_key(), 0x3d),
        bytes_lack(version_id_key(), 0x25) && bytes_lack(version_id_key(), 0x3d),
        bytes_lack(version_time_key(), 0x25) && bytes_lack(version_time_key(), 0x3d),
        bytes_lack(hl_key(), 0x25) && bytes_lack(hl_key(), 0x3d),
        service_key() != relative_ref_key() && service_key() != version_id_key() && service_key()
            != version_time_key() && service_key() != hl_key(),
        relative_ref_key() != version_id_key() && relative_ref_key() != version_time_key()
            && relative_ref_key() != hl_key(),
        version_id_key() != version_time_key() && version_id_key() != hl_key(),
        version_time_key() != hl_key(),
{
    assert(relative_ref_key()[0] != version_time_key()[0]);
}

/// Consuming the printed piece of one well-formed item does to the state
/// exactly what the item says.
#[verifier::rlimit(100)]
proof fn lemma_apply_item(acc: QAcc, it: QItem)
    requires
        wf_item(it),
        is_extra_item(it) ==> !acc_has_key(acc, extra_key(it)),
    ensures
        apply_part_spec(acc, encode_utf8(item_piece(it))) == Ok::<QAcc, Error>(
            apply_item(acc, it),
        ),
{
    lemma_tag_bytes();
    lemma_key_facts();
    match it {
        QItem::Service(s) => {
            lemma_encode_utf8_concat(service_tag(), s);
            let sv = encode_utf8(s);
            let pb = encode_utf8(item_piece(it));
            assert(pb =~= service_key() + (seq![0x3du8] + sv));
            lemma_idx_of_concat(service_key(), seq![0x3du8] + sv, 0x3d);
            assert((seq![0x3du8] + sv)[0] == 0x3d);
            lemma_idx_of_is(seq![0x3du8] + sv, 0x3d, 0);
            assert(idx_of(pb, 0x3d) == service_key().len());
            assert(pb.take(service_key().len() as int) =~= service_key());
            assert(pb.skip(service_key().len() as int + 1) =~= sv);
            vstd::utf8::encode_utf8_valid_utf8(s);
            vstd::utf8::encode_utf8_decode_utf8(s);
        },
        QItem::RelRef(r) => {
            lemma_encode_utf8_concat(relative_ref_tag(), enc_chars(r, true));
            lemma_enc_ascii(r, true);
            let rv = enc(r, true);
            let pb = encode_utf8(item_piece(it));
            assert(pb =~= relative_ref_key() + (seq![0x3du8] + rv));
            lemma_idx_of_concat(relative_ref_key(), seq![0x3du8] + rv, 0x3d);
            assert((seq![0x3du8] + rv)[0] == 0x3d);
            lemma_idx_of_is(seq![0x3du8] + rv, 0x3d, 0);
            assert(pb.take(relative_ref_key().len() as int) =~= relative_ref_key());
            assert(pb.skip(relative_ref_key().len() as int + 1) =~= rv);
            lemma_dec_enc(r, true);
        },
        QItem::Vid(v) => {
            lemma_encode_utf8_concat(version_id_tag(), v);
            let sv = encode_utf8(v);
            let pb = encode_utf8(item_piece(it));
            assert(pb =~= version_id_key() + (seq![0x3du8] + sv));
            lemma_idx_of_concat(version_id_key(), seq![0x3du8] + sv, 0x3d);
            assert((seq![0x3du8] + sv)[0] == 0x3d);
            lemma_idx_of_is(seq![0x3du8] + sv, 0x3d, 0);
            assert(pb.take(version_id_key().len() as int) =~= version_id_key());
            assert(pb.skip(version_id_key().len() as int + 1) =~= sv);
            vstd::utf8::encode_utf8_valid_utf8(v);
            vstd::utf8::encode_utf8_decode_utf8(v);
        },
        QItem::Vt(t) => {
            lemma_encode_utf8_concat(version_time_tag(), vt_chars(t));
            crate::time::lemma_vt_ascii(t);
            crate::codec::lemma_ascii_chars_utf8(crate::time::vt_bytes(t));
            let tv = crate::time::vt_bytes(t);
            assert(encode_utf8(vt_chars(t)) == tv);
            let pb = encode_utf8(item_piece(it));
            assert(pb =~= version_time_key() + (seq![0x3du8] + tv));
            lemma_idx_of_concat(version_time_key(), seq![0x3du8] + tv, 0x3d);
            assert((seq![0x3du8] + tv)[0] == 0x3d);
            lemma_idx_of_is(seq![0x3du8] + tv, 0x3d, 0);
            assert(pb.take(version_time_key().len() as int) =~= version_time_key());
            assert(pb.skip(version_time_key().len() as int + 1) =~= tv);
            crate::time::lemma_vt_roundtrip(t);
        },
        QItem::Hl(h) => {
            lemma_encode_utf8_concat(hl_tag(), h);
            let sv = encode_utf8(h);
            let pb = encode_utf8(item_piece(it));
            assert(pb =~= hl_key() + (seq![0x3du8] + sv));
            lemma_idx_of_concat(hl_key(), seq![0x3du8] + sv, 0x3d);
            assert((seq![0x3du8] + sv)[0] == 0x3d);
            lemma_idx_of_is(seq![0x3du8] + sv, 0x3d, 0);
            assert(pb.take(hl_key().len() as int) =~= hl_key());
            assert(pb.skip(hl_key().len() as int + 1) =~= sv);
            vstd::utf8::encode_utf8_valid_utf8(h);
            vstd::utf8::encode_utf8_decode_utf8(h);
        },
        QItem::Extra(k, v) => {
            assert(item_piece(it) == enc_chars(k, true) + seq!['='] + enc_chars(v, true));
            lemma_encode_utf8_concat(enc_chars(k, true) + seq!['='], enc_chars(v, true));
            lemma_encode_utf8_concat(enc_chars(k, true), seq!['=']);
            lemma_chars_are_ascii_bytes(seq!['='], seq![0x3du8]);
            lemma_enc_ascii(k, true);
            lemma_enc_ascii(v, true);
            let kb = enc(k, true);
            let vb = enc(v, true);
            let pb = encode_utf8(item_piece(it));
            assert((enc_chars(k, true) + seq!['=']) + enc_chars(v, true) =~= item_piece(it));
            assert(pb =~= kb + (seq![0x3du8] + vb));
            lemma_enc_bytes(k, true);
            assert(bytes_lack(kb, 0x3d));
            lemma_idx_of_concat(kb, seq![0x3du8] + vb, 0x3d);
            assert((seq![0x3du8] + vb)[0] == 0x3d);
            lemma_idx_of_is(seq![0x3du8] + vb, 0x3d, 0);
            assert(pb.take(kb.len() as int) =~= kb);
            assert(pb.skip(kb.len() as int + 1) =~= vb);
            lemma_dec_enc(k, true);
            lemma_dec_enc(v, true);
            // the encoded key cannot spell a reserved key, since decoding
            // both would equate the key with the reserved literal
            if kb == service_key() {
                lemma_dec_no_pct(service_key());
                assert(k == service_key());
            }
            if kb == relative_ref_key() {
                lemma_dec_no_pct(relative_ref_key());
                assert(k == relative_ref_key());
            }
            if kb == version_id_key() {
                lemma_dec_no_pct(version_id_key());
                assert(k == version_id_key());
            }
            if kb == version_time_key() {
                lemma_dec_no_pct(version_time_key());
                assert(k == version_time_key());
            }
            if kb == hl_key() {
                lemma_dec_no_pct(hl_key());
                assert(k == hl_key());
            }
            assert forall|j: int| 0 <= j < acc.extra.len() implies (#[trigger] acc.extra[j]).0
                != k by {}
            lemma_upsert_absent(acc.extra, k, dec(vb));
            assert(apply_part_spec(acc, pb) == Ok::<QAcc, Error>(apply_item(acc, it)));
        },
    }
}

/// Replaying a non-empty list of printed pieces, `&`-joined, folds the items
/// into the state one by one.
proof fn lemma_parse_items(acc: QAcc, items: Seq<QItem>)
    requires
        items.len() > 0,
        items_ok(acc, items),
    ensures
        parse_parts_spec(acc, encode_utf8(amp_join(pieces_of(items)))) == Ok::<QAcc, Error>(
            fold_items(acc, items),
        ),
    decreases items.len(),
{
    let it0 = items[0];
    let piece0 = item_piece(it0);
    assert(pieces_of(items)[0] == piece0);
    lemma_item_piece_lacks(it0, '&');
    lemma_encode_utf8_no_byte(piece0, '&');
    assert(('&' as u32) == 0x26);
    let b0 = encode_utf8(piece0);
    assert(bytes_lack(b0, 0x26));
    lemma_apply_item(acc, it0);
    if items.len() == 1 {
        assert(amp_join(pieces_of(items)) == piece0);
        lemma_idx_of_absent(b0, 0x26);
        assert(parse_parts_spec(acc, b0) == apply_part_spec(acc, b0));
        assert(items.skip(1) =~= Seq::<QItem>::empty());
        assert(fold_items(apply_item(acc, it0), Seq::<QItem>::empty()) == apply_item(acc, it0));
        assert(fold_items(acc, items) == apply_item(acc, it0));
    } else {
        let rest = items.skip(1);
        assert(pieces_of(items).skip(1) =~= pieces_of(rest));
        assert(amp_join(pieces_of(items)) == piece0 + seq!['&'] + amp_join(pieces_of(rest)));
        let rj = amp_join(pieces_of(rest));
        lemma_encode_utf8_concat(piece0 + seq!['&'], rj);
        lemma_encode_utf8_concat(piece0, seq!['&']);
        lemma_chars_are_ascii_bytes(seq!['&'], seq![0x26u8]);
        let rb = encode_utf8(rj);
        let whole = encode_utf8(amp_join(pieces_of(items)));
        assert((piece0 + seq!['&']) + rj =~= amp_join(pieces_of(items)));
        assert(whole =~= b0 + (seq![0x26u8] + rb));
        lemma_idx_of_concat(b0, seq![0x26u8] + rb, 0x26);
        assert((seq![0x26u8] + rb)[0] == 0x26);
        lemma_idx_of_is(seq![0x26u8] + rb, 0x26, 0);
        assert(idx_of(whole, 0x26) == b0.len());
        assert(whole.take(b0.len() as int) =~= b0);
        assert(whole.skip(b0.len() as int + 1) =~= rb);
        let acc2 = apply_item(acc, it0);
        assert forall|i: int| 0 <= i < rest.len() implies wf_item(#[trigger] rest[i]) by {
            assert(rest[i] == items[i + 1]);
        }
        assert forall|i: int|
            0 <= i < rest.len() implies (is_extra_item(#[trigger] rest[i]) ==> !acc_has_key(
            acc2,
            extra_key(rest[i]),
        )) by {
            assert(rest[i] == items[i + 1]);
            if is_extra_item(rest[i]) && acc_has_key(acc2, extra_key(rest[i])) {
                let w = choose|w: int|
                    0 <= w < acc2.extra.len() && (#[trigger] acc2.extra[w]).0 == extra_key(
                        rest[i],
                    );
                if is_extra_item(it0) {
                    assert(acc2.extra == acc.extra.push((extra_key(it0), match it0 {
                        QItem::Extra(k2, v2) => v2,
                        _ => Seq::empty(),
                    })));
                    if w < acc.extra.len() {
                        assert(acc_has_key(acc, extra_key(rest[i])));
                    } else {
                        assert(acc2.extra[w].0 == extra_key(it0));
                        assert(extra_key(items[0]) != extra_key(items[i + 1]));
                    }
                } else {
                    assert(acc2.extra == acc.extra);
                    assert(acc_has_key(acc, extra_key(rest[i])));
                }
            }
        }
        assert forall|i: int, j: int|
            0 <= i < j < rest.len() && is_extra_item(#[trigger] rest[i]) && is_extra_item(
                #[trigger] rest[j],
            ) implies extra_key(rest[i]) != extra_key(rest[j]) by {
            assert(rest[i] == items[i + 1] && rest[j] == items[j + 1]);
        }
        lemma_parse_items(acc2, rest);
        assert(fold_items(acc, items) == fold_items(acc2, rest));
    }
}

/// Printing distributes over concatenation of item lists.
proof fn lemma_pieces_of_concat(a: Seq<QItem>, b: Seq<QItem>)
    ensures
        pieces_of(a + b) == pieces_of(a) + pieces_of(b),
{
    assert forall|i: int| 0 <= i < a.len() + b.len() implies pieces_of(a + b)[i] == (pieces_of(a)
        + pieces_of(b))[i] by {
        if i < a.len() {
            assert((a + b)[i] == a[i]);
        } else {
            assert((a + b)[i] == b[i - a.len()]);
        }
    }
    assert(pieces_of(a + b) =~= pieces_of(a) + pieces_of(b));
}

proof fn lemma_fold_empty(acc: QAcc)
    ensures
        fold_items(acc, Seq::<QItem>::empty()) == acc,
{
}

proof fn lemma_fold_single(acc: QAcc, it: QItem)
    ensures
        fold_items(acc, seq![it]) == apply_item(acc, it),
{
    assert(seq![it].skip(1) =~= Seq::<QItem>::empty());
    assert(fold_items(apply_item(acc, it), Seq::<QItem>::empty()) == apply_item(acc, it));
}

proof fn lemma_fold_concat(acc: QAcc, a: Seq<QItem>, b: Seq<QItem>)
    ensures
        fold_items(acc, a + b) == fold_items(fold_items(acc, a), b),
    decreases a.len(),
{
    if a.len() == 0 {
        assert(a + b =~= b);
    } else {
        assert((a + b)[0] == a[0]);
        assert((a + b).skip(1) =~= a.skip(1) + b);
        lemma_fold_concat(apply_item(acc, a[0]), a.skip(1), b);
    }
}

/// Folding a run of unrecognized pairs appends them all, in order.
proof fn lemma_fold_extra(acc: QAcc, e: Seq<(Seq<u8>, Seq<u8>)>)
    ensures
        fold_items(acc, extra_items(e)) == (QAcc { extra: acc.extra + e, ..acc }),
    decreases e.len(),
{
    if e.len() == 0 {
        assert(extra_items(e) =~= Seq::<QItem>::empty());
        assert(acc.extra + e =~= acc.extra);
        assert((QAcc { extra: acc.extra + e, ..acc }) == acc);
    } else {
        let it0 = extra_items(e)[0];
        assert(it0 == QItem::Extra(e[0].0, e[0].1));
        assert(extra_items(e).skip(1) =~= extra_items(e.skip(1))) by {
            assert forall|i: int| 0 <= i < e.len() - 1 implies extra_items(e).skip(1)[i]
                == extra_items(e.skip(1))[i] by {
                assert(extra_items(e).skip(1)[i] == extra_items(e)[i + 1]);
                assert(e.skip(1)[i] == e[i + 1]);
            }
        }
        let acc2 = apply_item(acc, it0);
        assert(acc2.extra == acc.extra.push((e[0].0, e[0].1)));
        assert((e[0].0, e[0].1) == e[0]);
        lemma_fold_extra(acc2, e.skip(1));
        assert(acc.extra.push(e[0]) + e.skip(1) =~= acc.extra + e);
        assert(fold_items(acc, extra_items(e)) == fold_items(acc2, extra_items(e).skip(1)));
    }
}

/// An encoded byte sequence holds none of the URL delimiters.
proof fn lemma_enc_lacks_delims(s: Seq<u8>, escape_colon: bool)
    ensures
        bytes_lack(enc(s, escape_colon), 0x2f),
        bytes_lack(enc(s, escape_colon), 0x3f),
        bytes_lack(enc(s, escape_colon), 0x23),
        bytes_lack(enc(s, escape_colon), 0x26),
        bytes_lack(enc(s, escape_colon), 0x3d),
        escape_colon ==> bytes_lack(enc(s, escape_colon), 0x3a),
{
    lemma_enc_bytes(s, escape_colon);
}

/// Every printed query piece of a well-formed parameter record lacks `#`.
proof fn lemma_query_pieces_lack_hash(p: ParamsView)
    requires
        wf_params(p),
    ensures
        forall|i: int| 0 <= i < query_pieces(p).len() ==> chars_lack(
            #[trigger] query_pieces(p)[i],
            '#',
        ),
{
    lemma_tag_chars();
    assert(('#' as u32) == 0x23);
    let s_seg: Seq<Seq<char>> = match p.service {
        Some(s) => seq![service_tag() + s],
        None => Seq::empty(),
    };
    let r_seg: Seq<Seq<char>> = match p.relative_ref {
        Some(rr) => seq![relative_ref_tag() + enc_chars(rr, true)],
        None => Seq::empty(),
    };
    let vi_seg: Seq<Seq<char>> = match p.version_id {
        Some(v) => seq![version_id_tag() + v],
        None => Seq::empty(),
    };
    let vt_seg: Seq<Seq<char>> = match p.version_time {
        Some(t) => seq![version_time_tag() + vt_chars(t)],
        None => Seq::empty(),
    };
    let hl_seg: Seq<Seq<char>> = match p.hash_link {
        Some(h) => seq![hl_tag() + h],
        None => Seq::empty(),
    };
    let e_seg: Seq<Seq<char>> = match p.extra_query {
        Some(e) => extra_pieces(e),
        None => Seq::empty(),
    };
    match p.version_time {
        Some(t) => {
            lemma_vt_chars_lack(t, '#');
        },
        None => {},
    }
    match p.relative_ref {
        Some(rr) => {
            lemma_enc_chars_lack(rr, true, '#');
        },
        None => {},
    }
    assert(query_pieces(p) == s_seg + r_seg + vi_seg + vt_seg + hl_seg + e_seg);
    assert forall|i: int| 0 <= i < query_pieces(p).len() implies chars_lack(
        #[trigger] query_pieces(p)[i],
        '#',
    ) by {
        let o1 = s_seg.len();
        let o2 = o1 + r_seg.len();
        let o3 = o2 + vi_seg.len();
        let o4 = o3 + vt_seg.len();
        let o5 = o4 + hl_seg.len();
        if i < o1 {
            assert(query_pieces(p)[i] == s_seg[i]);
        } else if i < o2 {
            assert(query_pieces(p)[i] == r_seg[i - o1]);
        } else if i < o3 {
            assert(query_pieces(p)[i] == vi_seg[i - o2]);
        } else if i < o4 {
            assert(query_pieces(p)[i] == vt_seg[i - o3]);
        } else if i < o5 {
            assert(query_pieces(p)[i] == hl_seg[i - o4]);
        } else {
            let e = p.extra_query->Some_0;
            let j = i - o5;
            assert(query_pieces(p)[i] == e_seg[j]);
            assert(e_seg[j] == extra_piece(e[j].0, e[j].1));
            lemma_enc_chars_lack(e[j].0, true, '#');
            lemma_enc_chars_lack(e[j].1, true, '#');
            assert(('=' as u32) == 0x3d);
        }
    }
}

/// Replaying the whole printed query of a well-formed parameter record
/// rebuilds exactly its query state.
#[verifier::rlimit(100)]
proof fn lemma_query_roundtrip(p: ParamsView)
    requires
        wf_params(p),
        has_query(p),
    ensures
        parse_parts_spec(empty_qacc(), encode_utf8(amp_join(query_pieces(p)))) == Ok::<
            QAcc,
            Error,
        >(acc_of(p)),
{
    let s_items: Seq<QItem> = match p.service {
        Some(s) => seq![QItem::Service(s)],
        None => Seq::empty(),
    };
    let r_items: Seq<QItem> = match p.relative_ref {
        Some(r) => seq![QItem::RelRef(r)],
        None => Seq::empty(),
    };
    let vi_items: Seq<QItem> = match p.version_id {
        Some(v) => seq![QItem::Vid(v)],
        None => Seq::empty(),
    };
    let vt_items: Seq<QItem> = match p.version_time {
        Some(t) => seq![QItem::Vt(t)],
        None => Seq::empty(),
    };
    let hl_items: Seq<QItem> = match p.hash_link {
        Some(h) => seq![QItem::Hl(h)],
        None => Seq::empty(),
    };
    let e_items: Seq<QItem> = match p.extra_query {
        Some(e) => extra_items(e),
        None => Seq::empty(),
    };
    let front = s_items + r_items + vi_items + vt_items + hl_items;
    let items = front + e_items;
    // the printed pieces of the item list are the query pieces
    lemma_pieces_of_concat(front, e_items);
    lemma_pieces_of_concat(s_items + r_items + vi_items + vt_items, hl_items);
    lemma_pieces_of_concat(s_items + r_items + vi_items, vt_items);
    lemma_pieces_of_concat(s_items + r_items, vi_items);
    lemma_pieces_of_concat(s_items, r_items);
    assert(pieces_of(e_items) =~= (match p.extra_query {
        Some(e) => extra_pieces(e),
        None => Seq::<Seq<char>>::empty(),
    }));
    assert(pieces_of(s_items) =~= (match p.service {
        Some(s) => seq![service_tag() + s],
        None => Seq::<Seq<char>>::empty(),
    }));
    assert(pieces_of(r_items) =~= (match p.relative_ref {
        Some(r) => seq![relative_ref_tag() + enc_chars(r, true)],
        None => Seq::<Seq<char>>::empty(),
    }));
    assert(pieces_of(vi_items) =~= (match p.version_id {
        Some(v) => seq![version_id_tag() + v],
        None => Seq::<Seq<char>>::empty(),
    }));
    assert(pieces_of(vt_items) =~= (match p.version_time {
        Some(t) => seq![version_time_tag() + vt_chars(t)],
        None => Seq::<Seq<char>>::empty(),
    }));
    assert(pieces_of(hl_items) =~= (match p.hash_link {
        Some(h) => seq![hl_tag() + h],
        None => Seq::<Seq<char>>::empty(),
    }));
    assert(pieces_of(items) =~= query_pieces(p));
    // the items are well-formed and their unrecognized keys fresh
    let o1 = s_items.len();
    let o2 = o1 + r_items.len();
    let o3 = o2 + vi_items.len();
    let o4 = o3 + vt_items.len();
    let o5 = o4 + hl_items.len();
    assert forall|i: int| 0 <= i < items.len() implies wf_item(#[trigger] items[i])
        && (is_extra_item(items[i]) ==> i >= o5 && items[i] == QItem::Extra(
        (p.extra_query->Some_0)[i - o5].0,
        (p.extra_query->Some_0)[i - o5].1,
    )) by {
        if i < o1 {
            assert(items[i] == s_items[0]);
        } else if i < o2 {
            assert(items[i] == r_items[0]);
        } else if i < o3 {
            assert(items[i] == vi_items[0]);
        } else if i < o4 {
            assert(items[i] == vt_items[0]);
        } else if i < o5 {
            assert(items[i] == hl_items[0]);
        } else {
            let e = p.extra_query->Some_0;
            assert(items[i] == e_items[i - o5]);
            assert(e_items[i - o5] == QItem::Extra(e[i - o5].0, e[i - o5].1));
            assert(!reserved_key(e[i - o5].0));
        }
    }
    assert(items_ok(empty_qacc(), items)) by {
        assert forall|i: int|
            0 <= i < items.len() implies (is_extra_item(#[trigger] items[i]) ==> !acc_has_key(
            empty_qacc(),
            extra_key(items[i]),
        )) by {}
        assert forall|i: int, j: int|
            0 <= i < j < items.len() && is_extra_item(#[trigger] items[i]) && is_extra_item(
                #[trigger] items[j],
            ) implies extra_key(items[i]) != extra_key(items[j]) by {
            let e = p.extra_query->Some_0;
            assert(extra_key(items[i]) == e[i - o5].0);
            assert(extra_key(items[j]) == e[j - o5].0);
        }
    }
    assert(items.len() > 0) by {
        if p.extra_query is Some {
            assert(e_items.len() == (p.extra_query->Some_0).len());
        }
    }
    lemma_parse_items(empty_qacc(), items);
    // folding the items builds exactly the record's query state
    lemma_fold_concat(empty_qacc(), front, e_items);
    lemma_fold_concat(empty_qacc(), s_items + r_items + vi_items + vt_items, hl_items);
    lemma_fold_concat(empty_qacc(), s_items + r_items + vi_items, vt_items);
    lemma_fold_concat(empty_qacc(), s_items + r_items, vi_items);
    lemma_fold_concat(empty_qacc(), s_items, r_items);
    let a0 = empty_qacc();
    let a1 = fold_items(a0, s_items);
    let a2 = fold_items(a1, r_items);
    let a3 = fold_items(a2, vi_items);
    let a4 = fold_items(a3, vt_items);
    let a5 = fold_items(a4, hl_items);
    assert(a1 == (QAcc { service: p.service, ..a0 })) by {
        match p.service {
            Some(s) => {
                lemma_fold_single(a0, QItem::Service(s));
            },
            None => {
                lemma_fold_empty(a0);
            },
        }
    }
    assert(a2 == (QAcc { relative_ref: p.relative_ref, ..a1 })) by {
        lemma_fold_concat(a1, Seq::empty(), r_items);
        match p.relative_ref {
            Some(r) => {
                lemma_fold_single(a1, QItem::RelRef(r));
            },
            None => {
                lemma_fold_empty(a1);
            },
        }
    }
    assert(a3 == (QAcc { version_id: p.version_id, ..a2 })) by {
        match p.version_id {
            Some(v) => {
                lemma_fold_single(a2, QItem::Vid(v));
            },
            None => {
                lemma_fold_empty(a2);
            },
        }
    }
    assert(a4 == (QAcc { version_time: p.version_time, ..a3 })) by {
        match p.version_time {
            Some(t) => {
                lemma_fold_single(a3, QItem::Vt(t));
            },
            None => {
                lemma_fold_empty(a3);
            },
        }
    }
    assert(a5 == (QAcc { hash_link: p.hash_link, ..a4 })) by {
        match p.hash_link {
            Some(h) => {
                lemma_fold_single(a4, QItem::Hl(h));
            },
            None => {
                lemma_fold_empty(a4);
            },
        }
    }
    assert(fold_items(a5, e_items) == acc_of(p)) by {
        match p.extra_query {
            Some(e) => {
                lemma_fold_extra(a5, e);
                assert(a5.extra + e =~= e);
            },
            None => {
                lemma_fold_empty(a5);
            },
        }
    }
    assert(fold_items(empty_qacc(), items) == acc_of(p));
}

/// The printed fragment, as bytes.
pub open spec fn frag_bytes(p: ParamsView) -> Seq<u8> {
    match p.fragment {
        Some(f) => seq![0x23u8] + enc(f, true),
        None => Seq::empty(),
    }
}

/// The printed query with its fragment, handed to the query-and-fragment
/// parser, replays into exactly the original parameter record.
#[verifier::rlimit(100)]
proof fn lemma_qf(d: DidView, p: ParamsView)
    requires
        wf_params(p),
        has_query(p),
    ensures
        parse_query_frag_spec(
            d,
            match p.path {
                Some(pa) => Some(enc(pa, true)),
                None => None,
            },
            encode_utf8(amp_join(query_pieces(p))) + frag_bytes(p),
        ) == Ok::<UrlView, Error>(UrlView { did: d, parameters: Some(p) }),
{
    let qb = encode_utf8(amp_join(query_pieces(p)));
    let q = qb + frag_bytes(p);
    lemma_query_pieces_lack_hash(p);
    lemma_amp_join_lacks(query_pieces(p), '#');
    lemma_encode_utf8_no_byte(amp_join(query_pieces(p)), '#');
    assert(('#' as u32) == 0x23);
    assert(bytes_lack(qb, 0x23));
    match p.fragment {
        Some(f) => {
            assert(q =~= qb + (seq![0x23u8] + enc(f, true)));
            lemma_idx_of_concat(qb, seq![0x23u8] + enc(f, true), 0x23);
            lemma_idx_of_is(seq![0x23u8] + enc(f, true), 0x23, 0);
            assert(idx_of(q, 0x23) == qb.len());
            assert(q.take(qb.len() as int) =~= qb);
            assert(q.skip(qb.len() as int + 1) =~= enc(f, true));
            lemma_dec_enc(f, true);
        },
        None => {
            assert(q =~= qb);
            lemma_idx_of_absent(q, 0x23);
        },
    }
    lemma_query_roundtrip(p);
    assert(q.take(idx_of(q, 0x23)) =~= qb);
    match p.path {
        Some(pa) => {
            lemma_dec_enc(pa, true);
        },
        None => {},
    }
    let built = assemble_params(
        match p.path {
            Some(pa) => Some(dec(enc(pa, true))),
            None => None,
        },
        match p.fragment {
            Some(f) => Some(dec(enc(f, true))),
            None => None,
        },
        acc_of(p),
    );
    assert(built == p) by {
        match p.extra_query {
            Some(e) => {
                assert(e.len() > 0);
            },
            None => {},
        }
    }
}

/// The printed path with everything after it, handed to the path parser,
/// replays into exactly the original parameter record.
#[verifier::rlimit(100)]
proof fn lemma_after_path(d: DidView, p: ParamsView)
    requires
        wf_params(p),
        p.path is Some,
    ensures
        parse_after_path_spec(
            d,
            enc(p.path->Some_0, true) + (if has_query(p) {
                seq![0x3fu8] + encode_utf8(amp_join(query_pieces(p)))
            } else {
                Seq::<u8>::empty()
            }) + frag_bytes(p),
        ) == Ok::<UrlView, Error>(UrlView { did: d, parameters: Some(p) }),
{
    let ep = enc(p.path->Some_0, true);
    let qb = encode_utf8(amp_join(query_pieces(p)));
    let qt: Seq<u8> = if has_query(p) {
        seq![0x3fu8] + qb
    } else {
        Seq::<u8>::empty()
    };
    let left = ep + qt + frag_bytes(p);
    lemma_enc_lacks_delims(p.path->Some_0, true);
    lemma_dec_enc(p.path->Some_0, true);
    if has_query(p) {
        lemma_query_pieces_lack_hash(p);
        lemma_amp_join_lacks(query_pieces(p), '#');
        lemma_encode_utf8_no_byte(amp_join(query_pieces(p)), '#');
        assert(('#' as u32) == 0x23);
        // the first `?` ends the path
        assert(left =~= ep + (seq![0x3fu8] + (qb + frag_bytes(p))));
        lemma_idx_of_concat(ep, seq![0x3fu8] + (qb + frag_bytes(p)), 0x3f);
        lemma_idx_of_is(seq![0x3fu8] + (qb + frag_bytes(p)), 0x3f, 0);
        let pq = idx_of(left, 0x3f);
        assert(pq == ep.len());
        // any `#` sits after the `?`
        let ph = idx_of(left, 0x23);
        crate::bytes::lemma_idx_of_props(left, 0x23);
        assert(ph >= pq) by {
            if ph < pq {
                assert(left[ph] == ep[ph]);
            }
        }
        assert(left[pq as int] == 0x3f);
        assert(!(ph < pq));
        assert(ph != pq);
        assert(left.take(pq as int) =~= ep);
        assert(left.skip(pq as int + 1) =~= qb + frag_bytes(p));
        lemma_qf(d, p);
    } else {
        // no query: the whole text is the path, with an optional fragment
        assert(left =~= ep + frag_bytes(p));
        match p.fragment {
            Some(f) => {
                lemma_enc_lacks_delims(f, true);
                assert(left =~= ep + (seq![0x23u8] + enc(f, true)));
                lemma_idx_of_concat(ep, seq![0x23u8] + enc(f, true), 0x23);
                lemma_idx_of_is(seq![0x23u8] + enc(f, true), 0x23, 0);
                let ph = idx_of(left, 0x23);
                assert(ph == ep.len());
                assert(bytes_lack(left, 0x3f)) by {
                    assert forall|i: int| 0 <= i < left.len() implies left[i] != 0x3f by {
                        if i < ep.len() {
                            assert(left[i] == ep[i]);
                        } else if i > ep.len() {
                            assert(left[i] == enc(f, true)[i - ep.len() - 1]);
                        }
                    }
                }
                lemma_idx_of_absent(left, 0x3f);
                assert(ph < idx_of(left, 0x3f));
                assert(left.take(ph as int) =~= ep);
                assert(left.skip(ph as int + 1) =~= enc(f, true));
                lemma_dec_enc(f, true);
                assert((ParamsView {
                    path: Some(dec(ep)),
                    fragment: Some(dec(enc(f, true))),
                    ..empty_params()
                }) == p);
            },
            None => {
                assert(left =~= ep);
                lemma_idx_of_absent(left, 0x3f);
                lemma_idx_of_absent(left, 0x23);
                assert((ParamsView { path: Some(dec(ep)), ..empty_params() }) == p);
            },
        }
    }
}

/// Round trip for DID URLs: formatting any well-formed URL and parsing the
/// result gives back exactly the same identifier and parameters, field for
/// field.
#[verifier::rlimit(100)]
pub proof fn lemma_url_roundtrip(u: UrlView)
    requires
        wf_url(u),
    ensures
        parse_url_spec(encode_utf8(url_chars(u))) == Ok::<UrlView, Error>(u),
{
    let d = u.did;
    let en = enc(d.name, true);
    let ei = enc(d.id, false);
    lemma_enc_bytes(d.name, true);
    lemma_enc_lacks_delims(d.name, true);
    lemma_enc_lacks_delims(d.id, false);
    lemma_dec_enc(d.name, true);
    lemma_dec_enc(d.id, false);
    crate::did::lemma_did_chars_bytes(d);
    let db = did_prefix() + en + seq![0x3au8] + ei;
    // the tail after the identifier
    let tail_chars: Seq<char> = match u.parameters {
        None => Seq::empty(),
        Some(p) => (match p.path {
            Some(pa) => seq!['/'] + enc_chars(pa, true),
            None => Seq::<char>::empty(),
        }) + (if has_query(p) {
            seq!['?'] + amp_join(query_pieces(p))
        } else {
            Seq::<char>::empty()
        }) + (match p.fragment {
            Some(f) => seq!['#'] + enc_chars(f, true),
            None => Seq::<char>::empty(),
        }),
    };
    assert(url_chars(u) == did_chars(d) + tail_chars);
    lemma_encode_utf8_concat(did_chars(d), tail_chars);
    let tb = encode_utf8(tail_chars);
    let b = encode_utf8(url_chars(u));
    assert(b == db + tb);
    // the header parses as for a bare identifier: prefix, then the first
    // `:` right after the encoded name
    assert(b.subrange(0, 4) =~= did_prefix());
    let rest = b.skip(4);
    assert(rest =~= en + (seq![0x3au8] + (ei + tb)));
    lemma_idx_of_concat(en, seq![0x3au8] + (ei + tb), 0x3a);
    lemma_idx_of_is(seq![0x3au8] + (ei + tb), 0x3a, 0);
    let pc = idx_of(rest, 0x3a);
    assert(pc == en.len() && pc < rest.len());
    assert(rest.take(pc) =~= en);
    assert(rest.skip(pc + 1) =~= ei + tb);
    let right = ei + tb;
    assert(parse_url_spec(b) == parse_right_spec(d.name, right));
    let ps = idx_of(right, 0x2f);
    let pq = idx_of(right, 0x3f);
    let ph = idx_of(right, 0x23);
    crate::bytes::lemma_idx_of_props(right, 0x2f);
    crate::bytes::lemma_idx_of_props(right, 0x3f);
    crate::bytes::lemma_idx_of_props(right, 0x23);
    match u.parameters {
        None => {
            assert(tail_chars =~= Seq::<char>::empty());
            assert(encode_utf8(tail_chars) =~= Seq::<u8>::empty());
            assert(right =~= ei);
            lemma_idx_of_absent(right, 0x2f);
            lemma_idx_of_absent(right, 0x3f);
            lemma_idx_of_absent(right, 0x23);
            assert(parse_right_spec(d.name, right) == Ok::<UrlView, Error>(
                UrlView { did: DidView { name: d.name, id: dec(ei) }, parameters: None },
            ));
            assert(DidView { name: d.name, id: dec(ei) } == d);
        },
        Some(p) => {
            let qb = encode_utf8(amp_join(query_pieces(p)));
            let qt: Seq<u8> = if has_query(p) {
                seq![0x3fu8] + qb
            } else {
                Seq::<u8>::empty()
            };
            let fb = frag_bytes(p);
            if has_query(p) {
                lemma_query_pieces_lack_hash(p);
                lemma_amp_join_lacks(query_pieces(p), '#');
                lemma_encode_utf8_no_byte(amp_join(query_pieces(p)), '#');
                assert(('#' as u32) == 0x23);
                assert(bytes_lack(qb, 0x23));
            }
            match p.fragment {
                Some(f) => {
                    lemma_enc_lacks_delims(f, true);
                },
                None => {},
            }
            match p.path {
                Some(pa) => {
                    // `/` splits the id from the path before any `?` or `#`
                    lemma_enc_lacks_delims(pa, true);
                    let left = enc(pa, true) + qt + fb;
                    assert(tail_chars =~= (seq!['/'] + enc_chars(pa, true)) + (match u.parameters {
                        Some(pp) => (if has_query(pp) {
                            seq!['?'] + amp_join(query_pieces(pp))
                        } else {
                            Seq::<char>::empty()
                        }) + (match pp.fragment {
                            Some(f) => seq!['#'] + enc_chars(f, true),
                            None => Seq::<char>::empty(),
                        }),
                        None => Seq::<char>::empty(),
                    }));
                    lemma_tail_bytes(p, pa);
                    assert(tb == seq![0x2fu8] + left);
                    assert(right =~= ei + (seq![0x2fu8] + left));
                    lemma_idx_of_concat(ei, seq![0x2fu8] + left, 0x2f);
                    lemma_idx_of_is(seq![0x2fu8] + left, 0x2f, 0);
                    assert(ps == ei.len());
                    assert(ps < right.len());
                    assert(right[ps] == 0x2f);
                    assert(ps < pq) by {
                        if pq <= ps {
                            assert(right[pq] == 0x3f && pq < ps);
                            assert(right[pq] == ei[pq]);
                        }
                    }
                    assert(ps < ph) by {
                        if ph <= ps {
                            assert(right[ph] == 0x23 && ph < ps);
                            assert(right[ph] == ei[ph]);
                        }
                    }
                    assert(right.take(ps) =~= ei);
                    assert(right.skip(ps + 1) =~= left);
                    lemma_after_path(DidView { name: d.name, id: dec(ei) }, p);
                    assert(DidView { name: d.name, id: dec(ei) } == d);
                },
                None => {
                    if has_query(p) {
                        // `?` splits the id from the query
                        let q = qb + fb;
                        assert(tail_chars =~= (seq!['?'] + amp_join(query_pieces(p))) + (
                        match p.fragment {
                            Some(f) => seq!['#'] + enc_chars(f, true),
                            None => Seq::<char>::empty(),
                        }));
                        lemma_tail_bytes_no_path(p);
                        assert(tb == seq![0x3fu8] + q);
                        assert(right =~= ei + (seq![0x3fu8] + q));
                        lemma_idx_of_concat(ei, seq![0x3fu8] + q, 0x3f);
                        lemma_idx_of_is(seq![0x3fu8] + q, 0x3f, 0);
                        assert(pq == ei.len());
                        assert(right[pq] == 0x3f);
                        // no `/` or `#` comes before it
                        assert(!(ps < right.len() && ps < pq && ps < ph)) by {
                            if ps < pq {
                                assert(right[ps] == 0x2f);
                                assert(right[ps] == ei[ps]);
                            }
                        }
                        assert(pq < ph) by {
                            if ph <= pq {
                                assert(right[ph] == 0x23);
                                if ph < pq {
                                    assert(right[ph] == ei[ph]);
                                }
                            }
                        }
                        assert(right.take(pq) =~= ei);
                        assert(right.skip(pq + 1) =~= q);
                        lemma_qf(DidView { name: d.name, id: dec(ei) }, p);
                        assert(DidView { name: d.name, id: dec(ei) } == d);
                    } else {
                        // only a fragment is left: `#` splits the id from it
                        let f = p.fragment->Some_0;
                        assert(p.fragment is Some);
                        assert(tail_chars =~= seq!['#'] + enc_chars(f, true));
                        lemma_chars_are_ascii_bytes(seq!['#'], seq![0x23u8]);
                        lemma_encode_utf8_concat(seq!['#'], enc_chars(f, true));
                        lemma_enc_ascii(f, true);
                        assert(tb == seq![0x23u8] + enc(f, true));
                        assert(right =~= ei + (seq![0x23u8] + enc(f, true)));
                        lemma_idx_of_concat(ei, seq![0x23u8] + enc(f, true), 0x23);
                        lemma_idx_of_is(seq![0x23u8] + enc(f, true), 0x23, 0);
                        assert(ph == ei.len());
                        assert(bytes_lack(right, 0x2f)) by {
                            assert forall|i: int| 0 <= i < right.len() implies right[i] != 0x2f by {
                                if i < ei.len() {
                                    assert(right[i] == ei[i]);
                                } else if i > ei.len() {
                                    assert(right[i] == enc(f, true)[i - ei.len() - 1]);
                                }
                            }
                        }
                        assert(bytes_lack(right, 0x3f)) by {
                            assert forall|i: int| 0 <= i < right.len() implies right[i] != 0x3f by {
                                if i < ei.len() {
                                    assert(right[i] == ei[i]);
                                } else if i > ei.len() {
                                    assert(right[i] == enc(f, true)[i - ei.len() - 1]);
                                }
                            }
                        }
                        lemma_idx_of_absent(right, 0x2f);
                        lemma_idx_of_absent(right, 0x3f);
                        assert(ph < right.len());
                        assert(right.take(ph) =~= ei);
                        assert(right.skip(ph + 1) =~= enc(f, true));
                        lemma_dec_enc(f, true);
                        assert((ParamsView {
                            fragment: Some(dec(enc(f, true))),
                            ..empty_params()
                        }) == p);
                        assert(DidView { name: d.name, id: dec(ei) } == d);
                    }
                },
            }
        },
    }
}

/// The UTF-8 bytes of the printed tail when a path is present.
proof fn lemma_tail_bytes(p: ParamsView, pa: Seq<u8>)
    requires
        p.path == Some(pa),
    ensures
        encode_utf8(
            (seq!['/'] + enc_chars(pa, true)) + (if has_query(p) {
                seq!['?'] + amp_join(query_pieces(p))
            } else {
                Seq::<char>::empty()
            }) + (match p.fragment {
                Some(f) => seq!['#'] + enc_chars(f, true),
                None => Seq::<char>::empty(),
            }),
        ) == seq![0x2fu8] + (enc(pa, true) + (if has_query(p) {
            seq![0x3fu8] + encode_utf8(amp_join(query_pieces(p)))
        } else {
            Seq::<u8>::empty()
        }) + frag_bytes(p)),
{
    let pp = seq!['/'] + enc_chars(pa, true);
    let qp: Seq<char> = if has_query(p) {
        seq!['?'] + amp_join(query_pieces(p))
    } else {
        Seq::empty()
    };
    let fp: Seq<char> = match p.fragment {
        Some(f) => seq!['#'] + enc_chars(f, true),
        None => Seq::empty(),
    };
    lemma_encode_utf8_concat(pp + qp, fp);
    lemma_encode_utf8_concat(pp, qp);
    lemma_encode_utf8_concat(seq!['/'], enc_chars(pa, true));
    lemma_chars_are_ascii_bytes(seq!['/'], seq![0x2fu8]);
    lemma_enc_ascii(pa, true);
    if has_query(p) {
        lemma_encode_utf8_concat(seq!['?'], amp_join(query_pieces(p)));
        lemma_chars_are_ascii_bytes(seq!['?'], seq![0x3fu8]);
    } else {
        assert(encode_utf8(qp) =~= Seq::<u8>::empty());
    }
    match p.fragment {
        Some(f) => {
            lemma_encode_utf8_concat(seq!['#'], enc_chars(f, true));
            lemma_chars_are_ascii_bytes(seq!['#'], seq![0x23u8]);
            lemma_enc_ascii(f, true);
        },
        None => {
            assert(encode_utf8(fp) =~= Seq::<u8>::empty());
        },
    }
    assert(encode_utf8((pp + qp) + fp) =~= seq![0x2fu8] + (enc(pa, true) + (if has_query(p) {
        seq![0x3fu8] + encode_utf8(amp_join(query_pieces(p)))
    } else {
        Seq::<u8>::empty()
    }) + frag_bytes(p)));
}

/// The UTF-8 bytes of the printed tail with no path but a query.
proof fn lemma_tail_bytes_no_path(p: ParamsView)
    requires
        has_query(p),
    ensures
        encode_utf8(
            (seq!['?'] + amp_join(query_pieces(p))) + (match p.fragment {
                Some(f) => seq!['#'] + enc_chars(f, true),
                None => Seq::<char>::empty(),
            }),
        ) == seq![0x3fu8] + (encode_utf8(amp_join(query_pieces(p))) + frag_bytes(p)),
{
    let qp = seq!['?'] + amp_join(query_pieces(p));
    let fp: Seq<char> = match p.fragment {
        Some(f) => seq!['#'] + enc_chars(f, true),
        None => Seq::empty(),
    };
    lemma_encode_utf8_concat(qp, fp);
    lemma_encode_utf8_concat(seq!['?'], amp_join(query_pieces(p)));
    lemma_chars_are_ascii_bytes(seq!['?'], seq![0x3fu8]);
    match p.fragment {
        Some(f) => {
            lemma_encode_utf8_concat(seq!['#'], enc_chars(f, true));
            lemma_chars_are_ascii_bytes(seq!['#'], seq![0x23u8]);
            lemma_enc_ascii(f, true);
        },
        None => {
            assert(encode_utf8(fp) =~= Seq::<u8>::empty());
        },
    }
    assert(encode_utf8(qp + fp) =~= seq![0x3fu8] + (encode_utf8(amp_join(query_pieces(p)))
        + frag_bytes(p)));
}

} // verus!
