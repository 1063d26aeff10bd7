use crate::bytes::{bytes_eq, clone_bytes, find_from, idx_of, lemma_idx_of_is, subvec};
use crate::codec::{
    dec, enc, enc_chars, is_method_name, lemma_dec_enc, lemma_enc_ascii, lemma_enc_bytes,
    method_id_encoded, url_decoded, url_encoded, validate_method_name,
};
use crate::errors::Error;
use vstd::prelude::*;
use vstd::string::StringSliceAdditionalSpecFns;
use vstd::utf8::encode_utf8;

verus! {

/// The mathematical value of a [`DID`]: the decoded method name and
/// method-specific id, as byte sequences.
pub struct DidView {
    pub name: Seq<u8>,
    pub id: Seq<u8>,
}

/// A decentralized identifier: a validated method `name` and an opaque
/// method-specific `id`. Both halves are stored decoded; the id may hold
/// arbitrary bytes, including literal `:` and bytes outside UTF-8 text.
/// Created by [`DID::parse`] or by direct construction. Ordering is
/// lexicographic by `(name, id)` bytes, for deterministic storage.
#[derive(Debug, PartialOrd, Ord)]
pub struct DID {
    pub name: Vec<u8>,
    pub id: Vec<u8>,
}

impl View for DID {
    type V = DidView;

    open spec fn view(&self) -> DidView {
        DidView { name: self.name@, id: self.id@ }
    }
}

impl Clone for DID {
    fn clone(&self) -> (res: Self)
        ensures
            res@ == self@,
    {
        DID { name: clone_bytes(&self.name), id: clone_bytes(&self.id) }
    }
}

impl PartialEq for DID {
    fn eq(&self, other: &Self) -> (r: bool)
        ensures
            r == (self@ == other@),
    {
        let r = bytes_eq(self.name.as_slice(), other.name.as_slice()) && bytes_eq(
            self.id.as_slice(),
            other.id.as_slice(),
        );
        proof {
            if self.name@ == other.name@ && self.id@ == other.id@ {
                assert(self@ == other@);
            }
        }
        r
    }
}

impl vstd::std_specs::cmp::PartialEqSpecImpl for DID {
    open spec fn obeys_eq_spec() -> bool {
        true
    }

    open spec fn eq_spec(&self, other: &Self) -> bool {
        self@ == other@
    }
}

impl Eq for DID {}

impl Default for DID {
    /// An empty identifier, useful only as a placeholder to fill in.
    fn default() -> (res: Self)
        ensures
            res@.name == Seq::<u8>::empty(),
            res@.id == Seq::<u8>::empty(),
    {
        DID { name: Vec::new(), id: Vec::new() }
    }
}

/// The byte sequence `did:` that every identifier's text form starts with.
pub open spec fn did_prefix() -> Seq<u8> {
    seq![0x64u8, 0x69u8, 0x64u8, 0x3au8]
}

/// What parsing identifier text yields: the prefix `did:` is required, the
/// remainder splits at its first `:` into a name and an id, both halves must
/// be non-empty, and the decoded name must be a valid method name. Both
/// halves are percent-decoded.
pub open spec fn parse_did_spec(b: Seq<u8>) -> Result<DidView, Error> {
    if b.len() < 4 || b.subrange(0, 4) != did_prefix() {
        Err(Error::MalformedIdentifier)
    } else {
        let rest = b.skip(4);
        let pc = idx_of(rest, 0x3a);
        if pc == rest.len() {
            Err(Error::MalformedIdentifier)
        } else {
            let name_raw = rest.take(pc);
            let id_raw = rest.skip(pc + 1);
            if id_raw.len() == 0 {
                Err(Error::MalformedIdentifier)
            } else if name_raw.len() == 0 {
                Err(Error::MalformedIdentifier)
            } else if !is_method_name(dec(name_raw)) {
                Err(Error::InvalidMethodName)
            } else {
                Ok(DidView { name: dec(name_raw), id: dec(id_raw) })
            }
        }
    }
}

/// The text form of an identifier: `did:`, the name encoded with `:`
/// escaped, a literal `:`, and the id encoded with `:` kept.
pub open spec fn did_chars(d: DidView) -> Seq<char> {
    seq!['d', 'i', 'd', ':'] + enc_chars(d.name, true) + seq![':'] + enc_chars(d.id, false)
}

/// The identifiers whose text form parses back to themselves: a valid method
/// name and a non-empty id.
pub open spec fn wf_did(d: DidView) -> bool {
    is_method_name(d.name) && d.id.len() > 0
}

impl DID {
    /// Parse an identifier from its `did:<name>:<id>` text form. See
    /// [`parse_did_spec`] for exactly which inputs are accepted.
    pub fn parse(s: &str) -> (r: Result<DID, Error>)
        ensures
            r matches Ok(d) ==> parse_did_spec(s.spec_bytes()) == Ok::<DidView, Error>(d@),
            r matches Err(e) ==> parse_did_spec(s.spec_bytes()) == Err::<DidView, Error>(e),
    {
        let b = s.as_bytes_vec();
        parse_did_bytes(&b)
    }

    /// Extend this identifier with URL parameters, giving a DID URL.
    pub fn join(&self, parameters: crate::url::URLParameters) -> (r: crate::url::URL)
        ensures
            r@.did == self@,
            r@.parameters == Some(parameters@),
    {
        crate::url::URL { did: self.clone(), parameters: Some(parameters) }
    }

    /// The `did:<name>:<id>` text form, percent-encoded.
    pub fn to_string(&self) -> (r: String)
        ensures
            r@ == did_chars(self@),
    {
        let mut ret = String::from_str("did:");
        let name_part = url_encoded(self.name.as_slice());
        let id_part = method_id_encoded(self.id.as_slice());
        ret.append(name_part.as_str());
        ret.append(":");
        ret.append(id_part.as_str());
        proof {
            reveal_strlit("did:");
            reveal_strlit(":");
            assert(("did:")@ =~= seq!['d', 'i', 'd', ':']);
            assert((":")@ =~= seq![':']);
            assert(ret@ =~= did_chars(self@));
        }
        ret
    }
}

/// Parse identifier text already read as bytes; the byte-level core of
/// [`DID::parse`].
pub(crate) fn parse_did_bytes(b: &Vec<u8>) -> (r: Result<DID, Error>)
    ensures
        r matches Ok(d) ==> parse_did_spec(b@) == Ok::<DidView, Error>(d@),
        r matches Err(e) ==> parse_did_spec(b@) == Err::<DidView, Error>(e),
{
    if b.len() < 4 || !(b[0] == 0x64 && b[1] == 0x69 && b[2] == 0x64 && b[3] == 0x3a) {
        proof {
            if b@.len() >= 4 {
                assert(b@.subrange(0, 4) != did_prefix());
            }
        }
        return Err(Error::MalformedIdentifier);
    }
    assert(b@.subrange(0, 4) =~= did_prefix());
    let ghost rest = b@.skip(4);
    let pc = find_from(b.as_slice(), 4, 0x3a);
    proof {
        assert(rest =~= b@.skip(4));
    }
    if pc == b.len() {
        assert(idx_of(rest, 0x3a) == rest.len());
        return Err(Error::MalformedIdentifier);
    }
    assert(idx_of(rest, 0x3a) == pc - 4 && pc - 4 < rest.len());
    let name_raw = subvec(b.as_slice(), 4, pc);
    let id_raw = subvec(b.as_slice(), pc + 1, b.len());
    proof {
        assert(name_raw@ =~= rest.take(pc - 4));
        assert(id_raw@ =~= rest.skip(pc - 4 + 1));
    }
    if id_raw.len() == 0 {
        return Err(Error::MalformedIdentifier);
    }
    if name_raw.len() == 0 {
        return Err(Error::MalformedIdentifier);
    }
    let name = url_decoded(name_raw.as_slice());
    let id = url_decoded(id_raw.as_slice());
    match validate_method_name(name.as_slice()) {
        Ok(()) => Ok(DID { name, id }),
        Err(e) => Err(e),
    }
}

/// The UTF-8 bytes of an identifier's text form: the `did:` prefix, the
/// encoded name, a `:`, the encoded id.
pub proof fn lemma_did_chars_bytes(d: DidView)
    ensures
        encode_utf8(did_chars(d)) == did_prefix() + enc(d.name, true) + seq![0x3au8] + enc(
            d.id,
            false,
        ),
{
    let en = enc(d.name, true);
    let ei = enc(d.id, false);
    let bs = did_prefix() + en + seq![0x3au8] + ei;
    lemma_enc_ascii(d.name, true);
    lemma_enc_ascii(d.id, false);
    lemma_enc_bytes(d.name, true);
    lemma_enc_bytes(d.id, false);
    assert(did_chars(d) =~= crate::codec::ascii_chars(bs)) by {
        assert(forall|i: int| 0 <= i < en.len() ==> #[trigger] en[i] < 0x80);
        assert(forall|i: int| 0 <= i < ei.len() ==> #[trigger] ei[i] < 0x80);
    }
    assert(forall|i: int| 0 <= i < bs.len() ==> #[trigger] bs[i] < 0x80);
    crate::codec::lemma_ascii_chars_utf8(bs);
}

/// Round trip for identifiers: formatting any well-formed identifier and
/// parsing the result gives back exactly the same name and id bytes.
pub proof fn lemma_did_roundtrip(d: DidView)
    requires
        wf_did(d),
    ensures
        parse_did_spec(encode_utf8(did_chars(d))) == Ok::<DidView, Error>(d),
{
    let en = enc(d.name, true);
    let ei = enc(d.id, false);
    let bs = did_prefix() + en + seq![0x3au8] + ei;
    lemma_enc_bytes(d.name, true);
    lemma_enc_bytes(d.id, false);
    lemma_did_chars_bytes(d);
    assert(encode_utf8(did_chars(d)) == bs);
    // the prefix matches and the remainder is the encoded name, `:`, the id
    assert(bs.subrange(0, 4) =~= did_prefix());
    let rest = bs.skip(4);
    assert(rest =~= en + seq![0x3au8] + ei);
    // the first colon of the remainder sits right after the encoded name
    assert forall|j: int| 0 <= j < en.len() implies rest[j] != 0x3a by {
        assert(rest[j] == en[j]);
    }
    assert(rest[en.len() as int] == 0x3a);
    lemma_idx_of_is(rest, 0x3a, en.len() as int);
    assert(rest.take(en.len() as int) =~= en);
    assert(rest.skip(en.len() as int + 1) =~= ei);
    // both encoded halves are non-empty and decode back to the originals
    assert(d.name.len() > 0 && d.id.len() > 0);
    assert(en.len() > 0 && ei.len() > 0) by {
        assert(en == crate::codec::enc_byte(d.name[0], true) + enc(d.name.skip(1), true));
        assert(ei == crate::codec::enc_byte(d.id[0], false) + enc(d.id.skip(1), false));
    }
    lemma_dec_enc(d.name, true);
    lemma_dec_enc(d.id, false);
    assert(parse_did_spec(bs) == Ok::<DidView, Error>(DidView { name: d.name, id: d.id }));
    assert(DidView { name: d.name, id: d.id } == d);
}

} // verus!
