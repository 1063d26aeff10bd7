use crate::codec::{ascii_chars, string_from_ascii};
use crate::errors::Error;
use vstd::prelude::*;
use vstd::string::StringSliceAdditionalSpecFns;

verus! {

/// The `versionTime` query parameter of a DID URL: a calendar timestamp in
/// UTC, written `YYYY-MM-DDTHH:MM:SSZ`. Held as plain calendar fields;
/// [`VersionTime::parse`] only produces values within calendar range.
#[derive(Clone, Copy, Debug, PartialEq, Eq, Hash, Structural)]
pub struct VersionTime {
    pub year: u16,
    pub month: u8,
    pub day: u8,
    pub hour: u8,
    pub minute: u8,
    pub second: u8,
}

impl Default for VersionTime {
    /// The start of the UTC epoch.
    fn default() -> (res: Self)
        ensures
            res == (VersionTime {
                year: 1970u16,
                month: 1u8,
                day: 1u8,
                hour: 0u8,
                minute: 0u8,
                second: 0u8,
            }),
    {
        VersionTime { year: 1970, month: 1, day: 1, hour: 0, minute: 0, second: 0 }
    }
}

/// Leap years in the proleptic Gregorian calendar.
pub open spec fn is_leap_year(y: u16) -> bool {
    y % 4 == 0 && (y % 100 != 0 || y % 400 == 0)
}

/// How many days the given month of the given year has.
pub open spec fn days_in_month(y: u16, m: u8) -> u8 {
    if m == 2 {
        if is_leap_year(y) {
            29
        } else {
            28
        }
    } else if m == 4 || m == 6 || m == 9 || m == 11 {
        30
    } else {
        31
    }
}

/// The timestamps the text form can carry: a four-digit year and fields
/// within calendar range.
pub open spec fn wf_version_time(t: VersionTime) -> bool {
    t.year <= 9999 && 1 <= t.month <= 12 && 1 <= t.day <= days_in_month(t.year, t.month)
        && t.hour < 24 && t.minute < 60 && t.second < 60
}

/// An ASCII decimal digit byte.
pub open spec fn is_digit(b: u8) -> bool {
    0x30 <= b <= 0x39
}

/// The numeric value of a decimal digit byte.
pub open spec fn digit_val(b: u8) -> int {
    b - 0x30
}

/// The digit byte for a value below 10.
pub open spec fn digit_byte(n: int) -> u8 {
    (0x30 + n) as u8
}

/// What parsing a `versionTime` value yields: the text must be exactly
/// `YYYY-MM-DDTHH:MM:SSZ` with all six fields in calendar range; anything
/// else is rejected.
pub open spec fn parse_vt_spec(b: Seq<u8>) -> Option<VersionTime> {
    if b.len() == 20 && is_digit(b[0]) && is_digit(b[1]) && is_digit(b[2]) && is_digit(b[3])
        && b[4] == 0x2d && is_digit(b[5]) && is_digit(b[6]) && b[7] == 0x2d && is_digit(b[8])
        && is_digit(b[9]) && b[10] == 0x54 && is_digit(b[11]) && is_digit(b[12]) && b[13] == 0x3a
        && is_digit(b[14]) && is_digit(b[15]) && b[16] == 0x3a && is_digit(b[17]) && is_digit(
        b[18],
    ) && b[19] == 0x5a {
        let t = VersionTime {
            year: (digit_val(b[0]) * 1000 + digit_val(b[1]) * 100 + digit_val(b[2]) * 10
                + digit_val(b[3])) as u16,
            month: (digit_val(b[5]) * 10 + digit_val(b[6])) as u8,
            day: (digit_val(b[8]) * 10 + digit_val(b[9])) as u8,
            hour: (digit_val(b[11]) * 10 + digit_val(b[12])) as u8,
            minute: (digit_val(b[14]) * 10 + digit_val(b[15])) as u8,
            second: (digit_val(b[17]) * 10 + digit_val(b[18])) as u8,
        };
        if wf_version_time(t) {
            Some(t)
        } else {
            None
        }
    } else {
        None
    }
}

/// The byte text of a timestamp: zero-padded fields joined by the fixed
/// separators `- - T : : Z`.
pub open spec fn vt_bytes(t: VersionTime) -> Seq<u8> {
    seq![
        digit_byte((t.year / 1000) as int % 10),
        digit_byte((t.year / 100) as int % 10),
        digit_byte((t.year / 10) as int % 10),
        digit_byte(t.year as int % 10),
        0x2du8,
        digit_byte((t.month / 10) as int % 10),
        digit_byte(t.month as int % 10),
        0x2du8,
        digit_byte((t.day / 10) as int % 10),
        digit_byte(t.day as int % 10),
        0x54u8,
        digit_byte((t.hour / 10) as int % 10),
        digit_byte(t.hour as int % 10),
        0x3au8,
        digit_byte((t.minute / 10) as int % 10),
        digit_byte(t.minute as int % 10),
        0x3au8,
        digit_byte((t.second / 10) as int % 10),
        digit_byte(t.second as int % 10),
        0x5au8,
    ]
}

/// The character text of a timestamp.
pub open spec fn vt_chars(t: VersionTime) -> Seq<char> {
    ascii_chars(vt_bytes(t))
}

proof fn lemma_two_digits(n: int)
    requires
        0 <= n <= 99,
    ensures
        (n / 10) % 10 * 10 + n % 10 == n,
        0 <= (n / 10) % 10 <= 9,
        0 <= n % 10 <= 9,
{
    assert((n / 10) % 10 == n / 10);
    assert(n / 10 * 10 + n % 10 == n);
}

proof fn lemma_four_digits(n: int)
    requires
        0 <= n <= 9999,
    ensures
        ((n / 1000) % 10) * 1000 + ((n / 100) % 10) * 100 + ((n / 10) % 10) * 10 + n % 10 == n,
        0 <= (n / 1000) % 10 <= 9,
        0 <= (n / 100) % 10 <= 9,
        0 <= (n / 10) % 10 <= 9,
        0 <= n % 10 <= 9,
{
    assert((n / 1000) % 10 == n / 1000);
    assert(n / 1000 * 1000 + n % 1000 == n);
    assert(n % 1000 / 100 == (n / 100) % 10);
    assert(n % 1000 % 100 == n % 100);
    assert(n % 1000 / 100 * 100 + n % 1000 % 100 == n % 1000);
    assert(n % 100 / 10 == (n / 10) % 10);
    assert(n % 100 % 10 == n % 10);
    assert(n % 100 / 10 * 10 + n % 100 % 10 == n % 100);
}

/// Round trip for timestamps: formatting any in-range timestamp and parsing
/// the result gives back the same value.
pub proof fn lemma_vt_roundtrip(t: VersionTime)
    requires
        wf_version_time(t),
    ensures
        parse_vt_spec(vt_bytes(t)) == Some(t),
{
    let b = vt_bytes(t);
    lemma_four_digits(t.year as int);
    lemma_two_digits(t.month as int);
    lemma_two_digits(t.day as int);
    lemma_two_digits(t.hour as int);
    lemma_two_digits(t.minute as int);
    lemma_two_digits(t.second as int);
    assert(parse_vt_spec(b) == Some(t));
}

/// Every byte of the text form is ASCII.
pub proof fn lemma_vt_ascii(t: VersionTime)
    ensures
        forall|i: int| 0 <= i < vt_bytes(t).len() ==> #[trigger] vt_bytes(t)[i] < 0x80,
{
}

fn digit_out(n: u8) -> (r: u8)
    requires
        n < 100,
    ensures
        r == digit_byte(n as int % 10),
{
    0x30 + n % 10
}

fn digit_pair(out: &mut Vec<u8>, n: u8)
    ensures
        final(out)@ == old(out)@ + seq![digit_byte((n / 10) as int % 10), digit_byte(n as int % 10)],
{
    let hi = 0x30 + (n / 10) % 10;
    let lo = 0x30 + n % 10;
    out.push(hi);
    out.push(lo);
    assert(final(out)@ =~= old(out)@ + seq![
        digit_byte((n / 10) as int % 10),
        digit_byte(n as int % 10),
    ]);
}

impl VersionTime {
    /// Parse a timestamp from its `YYYY-MM-DDTHH:MM:SSZ` text form; fails
    /// with [`Error::InvalidVersionTime`] on any other shape or on fields
    /// out of calendar range.
    pub fn parse(s: &str) -> (r: Result<VersionTime, Error>)
        ensures
            r matches Ok(t) ==> parse_vt_spec(s.spec_bytes()) == Some(t),
            r matches Err(e) ==> parse_vt_spec(s.spec_bytes()) is None && e
                == Error::InvalidVersionTime,
    {
        let b = s.as_bytes_vec();
        parse_vt_bytes(&b)
    }

    /// The `YYYY-MM-DDTHH:MM:SSZ` text form.
    #[verifier::rlimit(50)]
    pub fn to_string(&self) -> (r: String)
        ensures
            r@ == vt_chars(*self),
    {
        let mut out: Vec<u8> = Vec::new();
        let y = self.year;
        out.push(0x30 + ((y / 1000) % 10) as u8);
        out.push(0x30 + ((y / 100) % 10) as u8);
        out.push(0x30 + ((y / 10) % 10) as u8);
        out.push(0x30 + (y % 10) as u8);
        out.push(0x2d);
        digit_pair(&mut out, self.month);
        out.push(0x2d);
        digit_pair(&mut out, self.day);
        out.push(0x54);
        digit_pair(&mut out, self.hour);
        out.push(0x3a);
        digit_pair(&mut out, self.minute);
        out.push(0x3a);
        digit_pair(&mut out, self.second);
        out.push(0x5a);
        proof {
            assert(out@ =~= vt_bytes(*self));
            lemma_vt_ascii(*self);
        }
        string_from_ascii(out)
    }
}

/// Parse a timestamp already read as bytes; the byte-level core of
/// [`VersionTime::parse`].
pub(crate) fn parse_vt_bytes(b: &Vec<u8>) -> (r: Result<VersionTime, Error>)
    ensures
        r matches Ok(t) ==> parse_vt_spec(b@) == Some(t),
        r matches Err(e) ==> parse_vt_spec(b@) is None && e == Error::InvalidVersionTime,
{
    if b.len() != 20 {
        return Err(Error::InvalidVersionTime);
    }
    let mut i: usize = 0;
    while i < 20
        invariant
            i <= 20,
            b@.len() == 20,
            forall|j: int| 0 <= j < i ==> position_ok(b@, j),
        decreases 20 - i,
    {
        let ok = if i == 4 || i == 7 {
            b[i] == 0x2d
        } else if i == 10 {
            b[i] == 0x54
        } else if i == 13 || i == 16 {
            b[i] == 0x3a
        } else if i == 19 {
            b[i] == 0x5a
        } else {
            0x30 <= b[i] && b[i] <= 0x39
        };
        if !ok {
            return Err(Error::InvalidVersionTime);
        }
        i = i + 1;
    }
    proof {
        assert(position_ok(b@, 0) && position_ok(b@, 1) && position_ok(b@, 2) && position_ok(
            b@,
            3,
        ) && position_ok(b@, 4) && position_ok(b@, 5) && position_ok(b@, 6) && position_ok(b@, 7)
            && position_ok(b@, 8) && position_ok(b@, 9) && position_ok(b@, 10) && position_ok(
            b@,
            11,
        ) && position_ok(b@, 12) && position_ok(b@, 13) && position_ok(b@, 14) && position_ok(
            b@,
            15,
        ) && position_ok(b@, 16) && position_ok(b@, 17) && position_ok(b@, 18) && position_ok(
            b@,
            19,
        ));
    }
    let t = VersionTime {
        year: (b[0] - 0x30) as u16 * 1000 + (b[1] - 0x30) as u16 * 100 + (b[2] - 0x30) as u16 * 10
            + (b[3] - 0x30) as u16,
        month: (b[5] - 0x30) * 10 + (b[6] - 0x30),
        day: (b[8] - 0x30) * 10 + (b[9] - 0x30),
        hour: (b[11] - 0x30) * 10 + (b[12] - 0x30),
        minute: (b[14] - 0x30) * 10 + (b[15] - 0x30),
        second: (b[17] - 0x30) * 10 + (b[18] - 0x30),
    };
    let months_ok = 1 <= t.month && t.month <= 12;
    let dim = if t.month == 2 {
        if (t.year % 4 == 0) && (t.year % 100 != 0 || t.year % 400 == 0) {
            29
        } else {
            28
        }
    } else if t.month == 4 || t.month == 6 || t.month == 9 || t.month == 11 {
        30
    } else {
        31
    };
    if months_ok && 1 <= t.day && t.day <= dim && t.hour < 24 && t.minute < 60 && t.second < 60 {
        assert(wf_version_time(t));
        Ok(t)
    } else {
        assert(!wf_version_time(t));
        Err(Error::InvalidVersionTime)
    }
}

/// What [`parse_vt_bytes`] demands of each byte position.
pub open spec fn position_ok(b: Seq<u8>, j: int) -> bool {
    if j == 4 || j == 7 {
        b[j] == 0x2d
    } else if j == 10 {
        b[j] == 0x54
    } else if j == 13 || j == 16 {
        b[j] == 0x3a
    } else if j == 19 {
        b[j] == 0x5a
    } else {
        is_digit(b[j])
    }
}

} // verus!
