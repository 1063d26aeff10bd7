use crate::errors::Error;
use vstd::prelude::*;
use vstd::utf8::{
    char_is_scalar, char_u32_cast, decode_utf8, encode_utf8, has_width_1_encoding,
    has_width_2_encoding, has_width_3_encoding, is_ascii_chars, is_ascii_chars_encode_utf8,
    last_continuation_byte, leading_byte_width_1, leading_byte_width_2, leading_byte_width_3,
    leading_byte_width_4, second_last_continuation_byte, third_last_continuation_byte, valid_utf8,
};

verus! {

/// Bytes that pass through percent-encoding unchanged: `[0-9A-Za-z._-]`.
pub open spec fn is_unreserved_byte(b: u8) -> bool {
    (0x30 <= b <= 0x39) || (0x41 <= b <= 0x5a) || (0x61 <= b <= 0x7a) || b == 0x2e || b == 0x2d
        || b == 0x5f
}

/// Bytes a method name may hold: `[a-z0-9]`.
pub open spec fn is_method_char(b: u8) -> bool {
    (0x61 <= b <= 0x7a) || (0x30 <= b <= 0x39)
}

/// A valid method name: non-empty, every byte in `[a-z0-9]`.
pub open spec fn is_method_name(s: Seq<u8>) -> bool {
    s.len() > 0 && forall|i: int| 0 <= i < s.len() ==> is_method_char(#[trigger] s[i])
}

/// An ASCII hex digit, upper or lower case.
pub open spec fn is_hex_byte(b: u8) -> bool {
    (0x30 <= b <= 0x39) || (0x41 <= b <= 0x46) || (0x61 <= b <= 0x66)
}

/// The numeric value of a hex digit byte.
pub open spec fn hex_val(b: u8) -> u8 {
    if 0x30 <= b <= 0x39 {
        (b - 0x30) as u8
    } else if 0x41 <= b <= 0x46 {
        (b - 0x41 + 10) as u8
    } else {
        (b - 0x61 + 10) as u8
    }
}

/// The upper-case hex digit byte for a value below 16.
pub open spec fn hex_upper(n: u8) -> u8 {
    if n < 10 {
        (0x30 + n) as u8
    } else {
        (0x41 + n - 10) as u8
    }
}

/// The percent-encoding of one byte: unreserved bytes (and `:` under the
/// method-id variant) pass through, everything else becomes `%XX` with
/// upper-case hex digits.
pub open spec fn enc_byte(b: u8, escape_colon: bool) -> Seq<u8> {
    if is_unreserved_byte(b) || (b == 0x3a && !escape_colon) {
        seq![b]
    } else {
        seq![0x25u8, hex_upper(b / 16), hex_upper(b % 16)]
    }
}

/// The percent-encoding of a byte sequence.
pub open spec fn enc(s: Seq<u8>, escape_colon: bool) -> Seq<u8>
    decreases s.len(),
{
    if s.len() == 0 {
        Seq::empty()
    } else {
        enc_byte(s[0], escape_colon) + enc(s.skip(1), escape_colon)
    }
}

/// The total percent-decoding of a byte sequence: `%` followed by two hex
/// digits becomes one byte; every other byte, malformed `%` sequences
/// included, passes through literally.
pub open spec fn dec(s: Seq<u8>) -> Seq<u8>
    decreases s.len(),
{
    if s.len() == 0 {
        Seq::empty()
    } else if s[0] == 0x25 && s.len() >= 3 && is_hex_byte(s[1]) && is_hex_byte(s[2]) {
        seq![(hex_val(s[1]) * 16 + hex_val(s[2])) as u8] + dec(s.skip(3))
    } else {
        seq![s[0]] + dec(s.skip(1))
    }
}

/// A sequence of ASCII bytes read as the characters with those codes.
pub open spec fn ascii_chars(s: Seq<u8>) -> Seq<char> {
    Seq::new(s.len(), |i: int| s[i] as char)
}

/// The text form of a percent-encoded byte sequence.
pub open spec fn enc_chars(s: Seq<u8>, escape_colon: bool) -> Seq<char> {
    ascii_chars(enc(s, escape_colon))
}

/// Every byte of an encoded sequence is unreserved, a `%`, or (under the
/// method-id variant) a `:`; in particular the encoding never contains the
/// delimiters `/ ? # & =`, nor `:` when the colon is escaped.
pub proof fn lemma_enc_bytes(s: Seq<u8>, escape_colon: bool)
    ensures
        forall|i: int|
            0 <= i < enc(s, escape_colon).len() ==> {
                let b = #[trigger] enc(s, escape_colon)[i];
                is_unreserved_byte(b) || b == 0x25 || (!escape_colon && b == 0x3a)
            },
    decreases s.len(),
{
    if s.len() > 0 {
        lemma_enc_bytes(s.skip(1), escape_colon);
        let head = enc_byte(s[0], escape_colon);
        let tail = enc(s.skip(1), escape_colon);
        assert forall|i: int| 0 <= i < enc(s, escape_colon).len() implies {
            let b = #[trigger] enc(s, escape_colon)[i];
            is_unreserved_byte(b) || b == 0x25 || (!escape_colon && b == 0x3a)
        } by {
            if i < head.len() {
                if !(is_unreserved_byte(s[0]) || (s[0] == 0x3a && !escape_colon)) {
                    lemma_hex_digit(s[0] / 16);
                    lemma_hex_digit(s[0] % 16);
                }
            } else {
                assert(enc(s, escape_colon)[i] == tail[i - head.len()]);
            }
        }
    }
}

/// The encoding of a single byte is that byte's encoding.
pub proof fn lemma_enc_single(b: u8, escape_colon: bool)
    ensures
        enc(seq![b], escape_colon) == enc_byte(b, escape_colon),
{
    let s = seq![b];
    assert(s.skip(1) =~= Seq::<u8>::empty());
    assert(enc(s.skip(1), escape_colon) =~= Seq::<u8>::empty());
    assert(enc(s, escape_colon) =~= enc_byte(b, escape_colon));
}

/// Percent-encoding distributes over concatenation.
pub proof fn lemma_enc_concat(a: Seq<u8>, b: Seq<u8>, escape_colon: bool)
    ensures
        enc(a + b, escape_colon) == enc(a, escape_colon) + enc(b, escape_colon),
    decreases a.len(),
{
    if a.len() == 0 {
        assert(a + b =~= b);
        assert(enc(a, escape_colon) + enc(b, escape_colon) =~= enc(b, escape_colon));
    } else {
        assert((a + b).skip(1) =~= a.skip(1) + b);
        lemma_enc_concat(a.skip(1), b, escape_colon);
        assert(enc(a + b, escape_colon) =~= enc(a, escape_colon) + enc(b, escape_colon));
    }
}

proof fn lemma_hex_digit(n: u8)
    requires
        n < 16,
    ensures
        is_hex_byte(hex_upper(n)),
        hex_val(hex_upper(n)) == n,
        is_unreserved_byte(hex_upper(n)),
{
}

/// The codec identity: decoding inverts encoding on every byte sequence,
/// under either colon variant.
pub proof fn lemma_dec_enc(s: Seq<u8>, escape_colon: bool)
    ensures
        dec(enc(s, escape_colon)) == s,
    decreases s.len(),
{
    if s.len() == 0 {
        assert(dec(enc(s, escape_colon)) =~= s);
    } else {
        let e = enc(s, escape_colon);
        let head = enc_byte(s[0], escape_colon);
        let tail = enc(s.skip(1), escape_colon);
        lemma_dec_enc(s.skip(1), escape_colon);
        if is_unreserved_byte(s[0]) || (s[0] == 0x3a && !escape_colon) {
            assert(e[0] == s[0] && s[0] != 0x25);
            assert(e.skip(1) =~= tail);
            assert(dec(e) =~= seq![s[0]] + s.skip(1));
            assert(seq![s[0]] + s.skip(1) =~= s);
        } else {
            lemma_hex_digit(s[0] / 16);
            lemma_hex_digit(s[0] % 16);
            assert(e[0] == 0x25 && e[1] == hex_upper(s[0] / 16) && e[2] == hex_upper(s[0] % 16));
            assert(hex_val(e[1]) * 16 + hex_val(e[2]) == (s[0] / 16) * 16 + s[0] % 16 == s[0]);
            assert(e.skip(3) =~= tail);
            assert(dec(e) =~= seq![s[0]] + s.skip(1));
            assert(seq![s[0]] + s.skip(1) =~= s);
        }
    }
}

/// The encoded form of any byte sequence is pure ASCII.
pub proof fn lemma_enc_ascii(s: Seq<u8>, escape_colon: bool)
    ensures
        forall|i: int| 0 <= i < enc(s, escape_colon).len() ==> #[trigger] enc(s, escape_colon)[i]
            < 0x80,
        is_ascii_chars(enc_chars(s, escape_colon)),
        encode_utf8(enc_chars(s, escape_colon)) == enc(s, escape_colon),
{
    lemma_enc_bytes(s, escape_colon);
    lemma_ascii_chars_utf8(enc(s, escape_colon));
}

/// Reading ASCII bytes as characters and encoding them back as UTF-8 yields
/// the same bytes.
pub proof fn lemma_ascii_chars_utf8(s: Seq<u8>)
    requires
        forall|i: int| 0 <= i < s.len() ==> #[trigger] s[i] < 0x80,
    ensures
        is_ascii_chars(ascii_chars(s)),
        encode_utf8(ascii_chars(s)) == s,
{
    let cs = ascii_chars(s);
    assert forall|i: int| 0 <= i < cs.len() implies '\0' <= #[trigger] cs[i] <= '\u{7f}' by {
        assert(cs[i] == s[i] as char);
        assert(cs[i] as u32 == s[i] as u32);
    }
    is_ascii_chars_encode_utf8(cs);
    assert forall|i: int| 0 <= i < cs.len() implies #[trigger] encode_utf8(cs)[i] == s[i] by {
        assert(cs[i] as u8 == encode_utf8(cs)[i]);
    }
    assert(encode_utf8(cs) =~= s);
}

/// UTF-8 encoding distributes over concatenation: each character is encoded
/// on its own.
pub proof fn lemma_encode_utf8_concat(a: Seq<char>, b: Seq<char>)
    ensures
        encode_utf8(a + b) == encode_utf8(a) + encode_utf8(b),
    decreases a.len(),
{
    if a.len() == 0 {
        assert(a + b =~= b);
        assert(encode_utf8(a) =~= Seq::<u8>::empty());
        assert(encode_utf8(a) + encode_utf8(b) =~= encode_utf8(b));
    } else {
        assert((a + b).drop_first() =~= a.drop_first() + b);
        assert((a + b)[0] == a[0]);
        lemma_encode_utf8_concat(a.drop_first(), b);
        assert(encode_utf8(a + b) =~= encode_utf8(a) + encode_utf8(b));
    }
}

proof fn lemma_scalar_bytes_high(s0: u32)
    by (bit_vector)
    requires
        s0 >= 0x80,
    ensures
        has_width_2_encoding(s0) ==> leading_byte_width_2(s0) >= 0x80 && last_continuation_byte(
            s0,
        ) >= 0x80,
        has_width_3_encoding(s0) ==> leading_byte_width_3(s0) >= 0x80
            && second_last_continuation_byte(s0) >= 0x80 && last_continuation_byte(s0) >= 0x80,
        !has_width_1_encoding(s0),
        leading_byte_width_4(s0) >= 0x80,
        third_last_continuation_byte(s0) >= 0x80,
        second_last_continuation_byte(s0) >= 0x80,
        last_continuation_byte(s0) >= 0x80,
{
}

/// An ASCII byte occurs in the UTF-8 encoding of a character sequence only
/// where the sequence holds the character with that code.
pub proof fn lemma_encode_utf8_no_byte(s: Seq<char>, c: char)
    requires
        (c as u32) < 0x80,
        forall|i: int| 0 <= i < s.len() ==> s[i] != c,
    ensures
        forall|j: int| 0 <= j < encode_utf8(s).len() ==> #[trigger] encode_utf8(s)[j] != ((
        c as u32) as u8),
    decreases s.len(),
{
    if s.len() > 0 {
        lemma_encode_utf8_no_byte(s.drop_first(), c);
        let s0 = s[0] as u32;
        char_is_scalar(s[0]);
        let head = vstd::utf8::encode_scalar(s0);
        let tail = encode_utf8(s.drop_first());
        assert(encode_utf8(s) == head + tail);
        let c32 = c as u32;
        let cb = c32 as u8;
        assert forall|j: int| 0 <= j < head.len() implies head[j] != cb by {
            if s0 < 0x80 {
                assert(head == seq![leading_byte_width_1(s0)]);
                assert(s0 != c32) by {
                    char_u32_cast(s[0], s0);
                    char_u32_cast(c, c32);
                }
                assert(leading_byte_width_1(s0) != (c32 as u8)) by (bit_vector)
                    requires
                        s0 < 0x80,
                        c32 < 0x80,
                        s0 != c32,
                ;
            } else {
                lemma_scalar_bytes_high(s0);
                assert(cb < 0x80);
            }
        }
        assert forall|j: int| 0 <= j < encode_utf8(s).len() implies #[trigger] encode_utf8(s)[j]
            != cb by {
            if j >= head.len() {
                assert(encode_utf8(s)[j] == tail[j - head.len()]);
            }
        }
    }
}

/// Decoding passes a sequence free of `%` through unchanged.
pub proof fn lemma_dec_no_pct(s: Seq<u8>)
    requires
        forall|i: int| 0 <= i < s.len() ==> s[i] != 0x25,
    ensures
        dec(s) == s,
    decreases s.len(),
{
    if s.len() > 0 {
        lemma_dec_no_pct(s.skip(1));
        assert(dec(s) =~= s);
    }
}

/// Relies on `String::from_utf8`: it succeeds exactly on valid UTF-8 input,
/// and the returned string wraps exactly the given bytes, whose characters
/// are their UTF-8 decoding.
#[verifier::external_body]
pub(crate) fn string_from_utf8(v: Vec<u8>) -> (r: Option<String>)
    ensures
        r matches Some(s) ==> valid_utf8(v@) && s@ == decode_utf8(v@),
        r is None ==> !valid_utf8(v@),
{
    String::from_utf8(v).ok()
}

/// The numeric value of a hex digit byte.
pub(crate) fn hexval(b: u8) -> (r: u8)
    requires
        is_hex_byte(b),
    ensures
        r == hex_val(b),
{
    if 0x30 <= b && b <= 0x39 {
        b - 0x30
    } else if 0x41 <= b && b <= 0x46 {
        b - 0x41 + 10
    } else {
        b - 0x61 + 10
    }
}

fn hexdigit(n: u8) -> (r: u8)
    requires
        n < 16,
    ensures
        r == hex_upper(n),
{
    if n < 10 {
        0x30 + n
    } else {
        0x41 + n - 10
    }
}

fn is_unreserved(b: u8) -> (r: bool)
    ensures
        r == is_unreserved_byte(b),
{
    (0x30 <= b && b <= 0x39) || (0x41 <= b && b <= 0x5a) || (0x61 <= b && b <= 0x7a) || b == 0x2e
        || b == 0x2d || b == 0x5f
}

pub(crate) fn is_hex(b: u8) -> (r: bool)
    ensures
        r == is_hex_byte(b),
{
    (0x30 <= b && b <= 0x39) || (0x41 <= b && b <= 0x46) || (0x61 <= b && b <= 0x66)
}

/// Percent-encode a byte sequence to bytes, with a flag choosing whether `:`
/// is escaped (the name variant) or passed through (the method-id variant).
pub(crate) fn encode_bytes(input: &[u8], escape_colon: bool) -> (r: Vec<u8>)
    ensures
        r@ == enc(input@, escape_colon),
{
    let mut out: Vec<u8> = Vec::new();
    let mut i: usize = 0;
    while i < input.len()
        invariant
            i <= input@.len(),
            out@ == enc(input@.take(i as int), escape_colon),
        decreases input@.len() - i,
    {
        let b = input[i];
        proof {
            assert(input@.take(i + 1) =~= input@.take(i as int) + seq![input@[i as int]]);
            lemma_enc_concat(input@.take(i as int), seq![input@[i as int]], escape_colon);
            lemma_enc_single(input@[i as int], escape_colon);
        }
        if is_unreserved(b) || (b == 0x3a && !escape_colon) {
            out.push(b);
        } else {
            out.push(0x25);
            out.push(hexdigit(b / 16));
            out.push(hexdigit(b % 16));
        }
        assert(out@ =~= enc(input@.take(i + 1), escape_colon));
        i = i + 1;
    }
    assert(input@.take(i as int) =~= input@);
    out
}

/// Relies on `String::from_utf8`: bytes below 0x80 are one-byte UTF-8
/// sequences, so the call succeeds and the returned string holds exactly the
/// given bytes, one ASCII character per byte.
#[verifier::external_body]
pub(crate) fn string_from_ascii(v: Vec<u8>) -> (r: String)
    requires
        forall|i: int| 0 <= i < v@.len() ==> v@[i] < 0x80,
    ensures
        r@ == ascii_chars(v@),
{
    String::from_utf8(v).unwrap()
}

/// Percent-encode a byte sequence, escaping every byte outside
/// `[0-9A-Za-z._-]` (including `:`) as upper-case `%XX`.
pub fn url_encoded(input: &[u8]) -> (r: String)
    ensures
        r@ == enc_chars(input@, true),
{
    let out = encode_bytes(input, true);
    proof {
        lemma_enc_bytes(input@, true);
    }
    string_from_ascii(out)
}

/// Percent-encode a method-id byte sequence; identical to [`url_encoded`]
/// except that `:` passes through unescaped.
pub fn method_id_encoded(input: &[u8]) -> (r: String)
    ensures
        r@ == enc_chars(input@, false),
{
    let out = encode_bytes(input, false);
    proof {
        lemma_enc_bytes(input@, false);
    }
    string_from_ascii(out)
}

/// Percent-decode a byte sequence. Total: `%XX` with two hex digits becomes
/// one byte, anything else passes through literally.
pub fn url_decoded(s: &[u8]) -> (r: Vec<u8>)
    ensures
        r@ == dec(s@),
{
    let mut out: Vec<u8> = Vec::new();
    let mut i: usize = 0;
    proof {
        assert(s@.skip(0) =~= s@);
        assert(out@ + dec(s@) =~= dec(s@));
    }
    while i < s.len()
        invariant
            i <= s@.len(),
            dec(s@) == out@ + dec(s@.skip(i as int)),
        decreases s@.len() - i,
    {
        let ghost rest = s@.skip(i as int);
        assert(rest[0] == s@[i as int]);
        if s[i] == 0x25 && s.len() - i >= 3 && is_hex(s[i + 1]) && is_hex(s[i + 2]) {
            assert(rest[1] == s@[i + 1] && rest[2] == s@[i + 2]);
            let v = hexval(s[i + 1]) * 16 + hexval(s[i + 2]);
            out.push(v);
            proof {
                assert(rest.skip(3) =~= s@.skip(i + 3));
                assert(dec(rest) =~= seq![v] + dec(s@.skip(i + 3)));
                assert(out@ + dec(s@.skip(i + 3)) =~= dec(s@));
            }
            i = i + 3;
        } else {
            out.push(s[i]);
            proof {
                assert(rest.skip(1) =~= s@.skip(i + 1));
                assert(dec(rest) =~= seq![s@[i as int]] + dec(s@.skip(i + 1)));
                assert(out@ + dec(s@.skip(i + 1)) =~= dec(s@));
            }
            i = i + 1;
        }
    }
    assert(s@.skip(i as int) =~= Seq::<u8>::empty());
    assert(out@ =~= dec(s@));
    out
}

/// Check that every byte of a method name is in `[a-z0-9]` and that the name
/// is not empty; fails with [`Error::InvalidMethodName`] otherwise.
pub fn validate_method_name(s: &[u8]) -> (r: Result<(), Error>)
    ensures
        r is Ok <==> is_method_name(s@),
        r is Err ==> r == Err::<(), Error>(Error::InvalidMethodName),
{
    if s.len() == 0 {
        return Err(Error::InvalidMethodName);
    }
    let mut i: usize = 0;
    while i < s.len()
        invariant
            i <= s@.len(),
            forall|j: int| 0 <= j < i ==> is_method_char(#[trigger] s@[j]),
        decreases s@.len() - i,
    {
        let b = s[i];
        if !((0x61 <= b && b <= 0x7a) || (0x30 <= b && b <= 0x39)) {
            return Err(Error::InvalidMethodName);
        }
        i = i + 1;
    }
    Ok(())
}

} // verus!
