use vstd::prelude::*;
use vstd::string::*;
use vstd::arithmetic::power2::pow2;

use crate::error::QueueError;

verus! {

/// The lowercase hexadecimal digits.
pub open spec fn hex_digits() -> Seq<char> {
    seq!['0', '1', '2', '3', '4', '5', '6', '7', '8', '9', 'a', 'b', 'c', 'd', 'e', 'f']
}

/// The `k`-th four-bit group of `id`, counted from the most significant one.
pub open spec fn nibble(id: u128, k: int) -> int {
    ((id as nat) / pow2((4 * (31 - k)) as nat)) as int % 16
}

/// Which hex digit of the 32 stands at text position `i` of the hyphenated form.
pub open spec fn digit_position(i: int) -> int {
    if i < 8 {
        i
    } else if i < 13 {
        i - 1
    } else if i < 18 {
        i - 2
    } else if i < 23 {
        i - 3
    } else {
        i - 4
    }
}

/// The hyphenated lowercase text of a 128-bit identifier: 8-4-4-4-12 hex digits,
/// most significant first.
pub open spec fn hyphenated(id: u128) -> Seq<char> {
    Seq::new(
        36,
        |i: int|
            if i == 8 || i == 13 || i == 18 || i == 23 {
                '-'
            } else {
                hex_digits()[nibble(id, digit_position(i))]
            },
    )
}

/// How one character is written inside a JSON string literal: quote and
/// backslash are escaped, control characters get their short escape or
/// `\u00XX` with lowercase hex digits, and every other character stands as is.
pub open spec fn json_char(c: char) -> Seq<char> {
    if c == '"' {
        seq!['\\', '"']
    } else if c == '\\' {
        seq!['\\', '\\']
    } else if c == '\u{8}' {
        seq!['\\', 'b']
    } else if c == '\t' {
        seq!['\\', 't']
    } else if c == '\n' {
        seq!['\\', 'n']
    } else if c == '\u{c}' {
        seq!['\\', 'f']
    } else if c == '\r' {
        seq!['\\', 'r']
    } else if (c as u32) < 0x20 {
        seq![
            '\\',
            'u',
            '0',
            '0',
            hex_digits()[((c as u32) / 16) as int],
            hex_digits()[((c as u32) % 16) as int],
        ]
    } else {
        seq![c]
    }
}

/// The characters of `s`, each written as inside a JSON string literal.
pub open spec fn json_escaped(s: Seq<char>) -> Seq<char>
    decreases s.len(),
{
    if s.len() == 0 {
        seq![]
    } else {
        json_escaped(s.drop_last()) + json_char(s.last())
    }
}

/// The JSON string literal (quoted and escaped) that stands for the text `s`.
pub open spec fn json_string(s: Seq<char>) -> Seq<char> {
    seq!['"'] + json_escaped(s) + seq!['"']
}

#[verifier::external_type_specification]
#[verifier::external_body]
pub struct ExJsonError(serde_json::Error);

/// Relies on `serde_json::to_string` on a `str`: it writes the quoted, escaped
/// JSON string literal of `s` into a `Vec`, which cannot fail.
#[verifier::external_body]
pub(crate) fn quote_json(s: &str) -> (r: Result<String, serde_json::Error>)
    ensures
        r is Ok,
        r matches Ok(t) ==> t@ == json_string(s@),
{
    serde_json::to_string(s)
}

/// Relies on `uuid::Uuid::from_u128` and its hyphenated lowercase display.
#[verifier::external_body]
fn uuid_text(id: u128) -> (r: String)
    ensures
        r@ == hyphenated(id),
{
    uuid::Uuid::from_u128(id).hyphenated().to_string()
}

/// Relies on `uuid::Uuid::new_v4`: a random identifier with the version-4 and
/// RFC 4122 variant bits set.
#[verifier::external_body]
pub(crate) fn fresh_id() -> (r: u128)
    ensures
        (r >> 76u128) & 0xfu128 == 4,
        (r >> 62u128) & 0x3u128 == 2,
{
    uuid::Uuid::new_v4().as_u128()
}

/// A reading of the local clock.
pub struct LocalTime {
    /// Milliseconds since the Unix epoch.
    pub unix_millis: i64,
    /// The same instant in RFC 3339 form with the local offset.
    pub rfc3339: String,
}

/// Relies on `chrono::Local::now`, read as epoch milliseconds and as the
/// RFC 3339 text that chrono's serde support writes for a `DateTime`.
#[verifier::external_body]
pub(crate) fn local_now() -> LocalTime {
    let now = chrono::Local::now();
    LocalTime {
        unix_millis: now.timestamp_millis(),
        rfc3339: now.to_rfc3339_opts(chrono::SecondsFormat::AutoSi, true),
    }
}

/// The JSON object `{"id":..,"body":..,"created_at":..}` of an envelope.
pub open spec fn envelope_json(id: u128, body: Seq<char>, created_at: Seq<char>) -> Seq<char> {
    "{\"id\":"@ + json_string(hyphenated(id)) + ",\"body\":"@ + json_string(body)
        + ",\"created_at\":"@ + json_string(created_at) + "}"@
}

/// The bytes a subscriber receives for one message: its UTF-8 bytes followed by
/// a blank line.
pub open spec fn framed(text: Seq<char>) -> Seq<u8> {
    vstd::utf8::encode_utf8(text) + seq![10u8, 10u8]
}

/// A pushed message with the identifier and creation time the broker gave it.
pub struct QueueMessageEnvelope {
    pub id: u128,
    pub body: String,
    pub created_at: String,
}

impl QueueMessageEnvelope {
    pub open spec fn json(&self) -> Seq<char> {
        envelope_json(self.id, self.body@, self.created_at@)
    }

    /// Wraps `body` with a fresh random identifier and the current local time.
    pub fn new(body: String) -> (e: QueueMessageEnvelope)
        ensures
            e.body@ == body@,
            (e.id >> 76u128) & 0xfu128 == 4,
            (e.id >> 62u128) & 0x3u128 == 2,
    {
        let now = local_now();
        QueueMessageEnvelope { id: fresh_id(), body, created_at: now.rfc3339 }
    }

    /// The wire and storage form of the envelope.
    pub fn to_json(&self) -> (r: String)
        ensures
            r@ == self.json(),
    {
        let id_text = uuid_text(self.id);
        let mut out = String::from_str("{\"id\":");
        out.append(quoted(id_text.as_str()).as_str());
        out.append(",\"body\":");
        out.append(quoted(self.body.as_str()).as_str());
        out.append(",\"created_at\":");
        out.append(quoted(self.created_at.as_str()).as_str());
        out.append("}");
        out
    }
}

/// The JSON string literal of `s`.
pub fn quoted(s: &str) -> (r: String)
    ensures
        r@ == json_string(s@),
{
    match quote_json(s) {
        Ok(t) => t,
        Err(_) => String::new(),
    }
}

/// Frames a serialized message for a subscriber stream.
pub fn frame(text: &String) -> (r: Vec<u8>)
    ensures
        r@ == framed(text@),
{
    let mut bytes = text.as_str().as_bytes_vec();
    bytes.push(10u8);
    bytes.push(10u8);
    bytes
}

} // verus!
