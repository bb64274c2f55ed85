//! Base protocol framing: `Content-Length: N\r\n\r\n<json>`.
//!
//! `N` is the UTF-8 byte length of the JSON body, not its character count.

use crate::number::{
    decimal, decimal_is_digits, decimal_reads_back, is_digit, parse_unsigned, push_decimal,
    unsigned_value,
};
use crate::text::{chars_of, has_prefix, is_space, is_space_char, string_of};
use vstd::prelude::*;
use vstd::utf8::{decode_utf8, encode_utf8, valid_utf8};

verus! {

/// A JSON value.
#[verifier::external_type_specification]
#[verifier::external_body]
pub struct ExValue(serde_json::Value);

/// Why a message could not be read.
#[derive(Debug, Clone, PartialEq, Eq)]
pub enum ProtocolError {
    /// The input ended within the headers.
    UnexpectedEof,
    /// A header line is not UTF-8.
    HeaderNotUtf8,
    /// A length that is no number. Holds the header line.
    MalformedLength(String),
    /// No header gave the length.
    MissingLength,
    /// The input ended within the body.
    ShortBody,
    /// The body is not JSON.
    InvalidJson,
    /// The value could not be serialized.
    NotSerializable,
}

/// What the headers of a message amount to.
pub enum Headers {
    /// They ended; the length that was given last, and what follows.
    End { length: Option<nat>, rest: Seq<u8> },
    /// The input ended, before any header or within them.
    Eof { clean: bool },
    /// A line is not UTF-8.
    NotUtf8,
    /// A length is no number.
    Malformed { line: Seq<char> },
}

/// What reading a frame gives.
pub enum Frame {
    /// The input was at its end.
    Nothing,
    /// A body, and what follows it.
    Body { body: Seq<u8>, rest: Seq<u8> },
    UnexpectedEof,
    NotUtf8,
    Malformed { line: Seq<char> },
    MissingLength,
    ShortBody,
}

/// The length of the first line, with its end.
pub open spec fn line_len(b: Seq<u8>) -> int
    decreases b.len(),
{
    if b.len() == 0 {
        0
    } else if b[0] == 10 {
        1
    } else {
        1 + line_len(b.drop_first())
    }
}

/// A line without the carriage returns and line feeds at its end.
pub open spec fn without_line_end(s: Seq<char>) -> Seq<char>
    decreases s.len(),
{
    if s.len() > 0 && (s.last() == '\r' || s.last() == '\n') {
        without_line_end(s.drop_last())
    } else {
        s
    }
}

/// A text without the white space in front of it.
pub open spec fn trimmed_front(s: Seq<char>) -> Seq<char>
    decreases s.len(),
{
    if s.len() > 0 && is_space(s[0]) {
        trimmed_front(s.drop_first())
    } else {
        s
    }
}

/// A text without the white space at its end.
pub open spec fn trimmed_back(s: Seq<char>) -> Seq<char>
    decreases s.len(),
{
    if s.len() > 0 && is_space(s.last()) {
        trimmed_back(s.drop_last())
    } else {
        s
    }
}

/// Whether a line ends the headers.
pub open spec fn is_blank(line: Seq<u8>) -> bool {
    line == seq![13u8, 10u8] || line == seq![10u8]
}

/// The headers at the start of the input. Headers other than the length are passed over.
pub open spec fn headers(b: Seq<u8>, length: Option<nat>, seen: bool) -> Headers
    decreases b.len(),
    via headers_decrease
{
    let line = b.take(line_len(b));
    let rest = b.skip(line_len(b));
    let text = without_line_end(decode_utf8(line));
    let label = "Content-Length:"@;
    if b.len() == 0 {
        Headers::Eof { clean: !seen }
    } else if !valid_utf8(line) {
        Headers::NotUtf8
    } else if is_blank(line) {
        Headers::End { length, rest }
    } else if label.is_prefix_of(text) {
        match unsigned_value(
            trimmed_back(trimmed_front(text.skip(label.len() as int))),
            usize::MAX as nat,
        ) {
            Some(n) => headers(rest, Some(n), true),
            None => Headers::Malformed { line: text },
        }
    } else {
        headers(rest, length, true)
    }
}

#[via_fn]
proof fn headers_decrease(b: Seq<u8>, length: Option<nat>, seen: bool) {
    line_len_bounds(b);
}

/// Bounds of [`line_len`].
pub proof fn line_len_bounds(b: Seq<u8>)
    ensures
        0 <= line_len(b) <= b.len(),
        b.len() > 0 ==> line_len(b) > 0,
    decreases b.len(),
{
    if b.len() > 0 && b[0] != 10 {
        line_len_bounds(b.drop_first());
    }
}

/// The frame at the start of the input.
pub open spec fn frame(b: Seq<u8>) -> Frame {
    match headers(b, None, false) {
        Headers::Eof { clean } => if clean {
            Frame::Nothing
        } else {
            Frame::UnexpectedEof
        },
        Headers::NotUtf8 => Frame::NotUtf8,
        Headers::Malformed { line } => Frame::Malformed { line },
        Headers::End { length, rest } => match length {
            None => Frame::MissingLength,
            Some(n) => if n <= rest.len() {
                Frame::Body { body: rest.take(n as int), rest: rest.skip(n as int) }
            } else {
                Frame::ShortBody
            },
        },
    }
}

/// The header of a body.
pub open spec fn header_text(n: nat) -> Seq<char> {
    "Content-Length: "@ + decimal(n) + "\r\n\r\n"@
}

/// A body in its frame.
pub open spec fn framed(body: Seq<u8>) -> Seq<u8> {
    encode_utf8(header_text(body.len())) + body
}

/// `std::str::from_utf8`: the text that bytes encode, where they are valid UTF-8.
#[verifier::external_body]
fn utf8_text(bytes: &[u8]) -> (r: Option<String>)
    ensures
        match r {
            Some(s) => encode_utf8(s@) == bytes@,
            None => !valid_utf8(bytes@),
        },
{
    match std::str::from_utf8(bytes) {
        Ok(s) => Some(s.to_string()),
        Err(_) => None,
    }
}

/// The bytes of a JSON value, as [`json_to_bytes`] gives them.
pub uninterp spec fn json_bytes(v: serde_json::Value) -> Option<Seq<u8>>;

/// The JSON value of bytes, as [`json_from_bytes`] gives it.
pub uninterp spec fn json_value(b: Seq<u8>) -> Option<serde_json::Value>;

/// What has been seen of a JSON text.
pub struct JsonScan {
    /// Whether the place is in a string, and whether a backslash stands right before it.
    pub in_string: bool,
    pub escaped: bool,
    /// Whether a digit stands right before the place.
    pub digit: bool,
    /// The number of arrays and objects around the place.
    pub depth: int,
    /// Whether there was nothing but what is plain.
    pub plain: bool,
}

/// One byte of a JSON text. Outside strings, a number with a fraction or an exponent is not
/// plain, and neither is an array or an object inside 127 others.
pub open spec fn json_step(s: JsonScan, c: u8) -> JsonScan {
    if s.in_string {
        if s.escaped {
            JsonScan { escaped: false, ..s }
        } else if c == 92 {
            JsonScan { escaped: true, ..s }
        } else if c == 34 {
            JsonScan { in_string: false, digit: false, ..s }
        } else {
            s
        }
    } else {
        let depth = if c == 91 || c == 123 {
            s.depth + 1
        } else if c == 93 || c == 125 {
            s.depth - 1
        } else {
            s.depth
        };
        JsonScan {
            in_string: c == 34,
            escaped: false,
            digit: 48 <= c <= 57,
            depth,
            plain: s.plain && c != 46 && !(c == 101 && s.digit) && depth < 128,
        }
    }
}

/// What is seen of a JSON text.
pub open spec fn json_scan(b: Seq<u8>) -> JsonScan
    decreases b.len(),
{
    if b.len() == 0 {
        JsonScan { in_string: false, escaped: false, digit: false, depth: 0, plain: true }
    } else {
        json_step(json_scan(b.drop_last()), b.last())
    }
}

/// Whether a JSON text is plain: no number in it has a fraction or an exponent, and it is not
/// nested more deeply than a reader goes. Its strings may hold anything.
pub open spec fn plain_json(b: Seq<u8>) -> bool {
    json_scan(b).plain
}

/// `serde_json::to_vec`: the compact JSON text of a value. The outcome is a function of the
/// value. A plain text is read back as the value that it was written for. Nothing is claimed
/// of other texts: a number with a fraction may be read back as a neighbouring one, and a deep
/// nesting is not read at all.
#[verifier::external_body]
fn json_to_bytes(v: &serde_json::Value) -> (r: Option<Vec<u8>>)
    ensures
        match r {
            Some(b) => json_bytes(*v) == Some(b@),
            None => json_bytes(*v) is None,
        },
        r matches Some(b) ==> (plain_json(b@) ==> json_value(b@) == Some(*v)),
{
    serde_json::to_vec(v).ok()
}

/// `serde_json::from_slice`: the value that a JSON text gives, or nothing where the bytes are
/// no JSON. The outcome is a function of the bytes.
#[verifier::external_body]
fn json_from_bytes(b: &[u8]) -> (r: Option<serde_json::Value>)
    ensures
        r == json_value(b@),
{
    serde_json::from_slice(b).ok()
}

/// The index behind the line that begins at `from`.
fn line_end(b: &[u8], from: usize) -> (r: usize)
    requires
        from <= b@.len(),
    ensures
        from <= r <= b@.len(),
        r == from + line_len(b@.skip(from as int)),
{
    let mut i: usize = from;
    while i < b.len()
        invariant
            from <= i <= b@.len(),
            line_len(b@.skip(from as int)) == (i - from) + line_len(b@.skip(i as int)),
        decreases b@.len() - i,
    {
        proof {
            assert(b@.skip(i as int)[0] == b@[i as int]);
            assert(b@.skip(i as int).drop_first() =~= b@.skip(i + 1));
        }
        if b[i] == 10 {
            return i + 1;
        }
        i = i + 1;
    }
    i
}

fn strip_line_end(s: &[char]) -> (r: usize)
    ensures
        r <= s@.len(),
        s@.take(r as int) == without_line_end(s@),
{
    let mut n: usize = s.len();
    assert(s@.take(n as int) =~= s@);
    while n > 0 && (s[n - 1] == '\r' || s[n - 1] == '\n')
        invariant
            n <= s@.len(),
            without_line_end(s@.take(n as int)) == without_line_end(s@),
        decreases n,
    {
        assert(s@.take(n as int).drop_last() =~= s@.take(n - 1));
        n = n - 1;
    }
    proof {
        if n > 0 {
            assert(s@.take(n as int).last() == s@[n - 1]);
        }
    }
    n
}

fn trim(s: &[char]) -> (r: (usize, usize))
    ensures
        r.0 <= r.1 <= s@.len(),
        s@.subrange(r.0 as int, r.1 as int) == trimmed_back(trimmed_front(s@)),
{
    let mut a: usize = 0;
    assert(s@.skip(0) =~= s@);
    while a < s.len() && is_space_char(s[a])
        invariant
            a <= s@.len(),
            trimmed_front(s@.skip(a as int)) == trimmed_front(s@),
        decreases s@.len() - a,
    {
        proof {
            assert(s@.skip(a as int)[0] == s@[a as int]);
            assert(s@.skip(a as int).drop_first() =~= s@.skip(a + 1));
        }
        a = a + 1;
    }
    proof {
        if a < s@.len() {
            assert(s@.skip(a as int)[0] == s@[a as int]);
        }
        assert(trimmed_front(s@) == s@.skip(a as int));
    }
    let mut b: usize = s.len();
    assert(s@.subrange(a as int, b as int) =~= s@.skip(a as int));
    while b > a && is_space_char(s[b - 1])
        invariant
            a <= b <= s@.len(),
            trimmed_back(s@.subrange(a as int, b as int)) == trimmed_back(s@.skip(a as int)),
        decreases b,
    {
        proof {
            assert(s@.subrange(a as int, b as int).last() == s@[b - 1]);
            assert(s@.subrange(a as int, b as int).drop_last() =~= s@.subrange(
                a as int,
                b - 1,
            ));
        }
        b = b - 1;
    }
    proof {
        if b > a {
            assert(s@.subrange(a as int, b as int).last() == s@[b - 1]);
        }
    }
    (a, b)
}

/// Whether the outcome of reading is what a contract says.
pub open spec fn frame_is(
    r: Result<Option<(Vec<u8>, usize)>, ProtocolError>,
    input: Seq<u8>,
    f: Frame,
) -> bool {
    match f {
        Frame::Nothing => r matches Ok(None),
        Frame::Body { body, rest } => r matches Ok(Some((b, n))) && b@ == body && n <= input.len()
            && input.skip(n as int) == rest,
        Frame::UnexpectedEof => r matches Err(ProtocolError::UnexpectedEof),
        Frame::NotUtf8 => r matches Err(ProtocolError::HeaderNotUtf8),
        Frame::Malformed { line } => r matches Err(ProtocolError::MalformedLength(t)) && t@ == line,
        Frame::MissingLength => r matches Err(ProtocolError::MissingLength),
        Frame::ShortBody => r matches Err(ProtocolError::ShortBody),
    }
}

/// A copy of bytes.
fn copy_bytes(b: &[u8]) -> (out: Vec<u8>)
    ensures
        out@ == b@,
{
    let mut out: Vec<u8> = Vec::new();
    let mut i: usize = 0;
    while i < b.len()
        invariant
            i <= b@.len(),
            out@ == b@.take(i as int),
        decreases b.len() - i,
    {
        out.push(b[i]);
        assert(b@.take(i as int).push(b@[i as int]) =~= b@.take(i + 1));
        i = i + 1;
    }
    assert(b@.take(i as int) =~= b@);
    out
}

/// Reads the frame at the start of the input: its body, and how many bytes it takes up.
/// Nothing is read from an input that is at its end.
pub fn read_frame(input: &[u8]) -> (r: Result<Option<(Vec<u8>, usize)>, ProtocolError>)
    ensures
        frame_is(r, input@, frame(input@)),
{
    let mut pos: usize = 0;
    let mut seen = false;
    let mut length: Option<usize> = None;
    let ghost whole = headers(input@, None, false);
    assert(input@.skip(0) =~= input@);
    proof {
        reveal_strlit("Content-Length:");
    }
    loop
        invariant
            pos <= input@.len(),
            "Content-Length:"@.len() == 15,
            whole == headers(input@, None, false),
            whole == headers(
                input@.skip(pos as int),
                match length {
                    Some(n) => Some(n as nat),
                    None => None,
                },
                seen,
            ),
        decreases input@.len() - pos,
    {
        let ghost b = input@.skip(pos as int);
        if pos == input.len() {
            if !seen {
                return Ok(None);
            }
            return Err(ProtocolError::UnexpectedEof);
        }
        let end = line_end(input, pos);
        let line = &input[pos..end];
        proof {
            line_len_bounds(b);
            assert(line@ =~= b.take(line_len(b)));
            assert(b.skip(line_len(b)) =~= input@.skip(end as int));
        }
        let text = match utf8_text(line) {
            Some(s) => s,
            None => return Err(ProtocolError::HeaderNotUtf8),
        };
        proof {
            vstd::utf8::encode_utf8_valid_utf8(text@);
            vstd::utf8::encode_utf8_decode_utf8(text@);
        }
        let blank = (line.len() == 2 && line[0] == 13 && line[1] == 10) || (line.len() == 1
            && line[0] == 10);
        proof {
            if line@.len() == 2 && line@[0] == 13 && line@[1] == 10 {
                assert(line@ =~= seq![13u8, 10u8]);
            }
            if line@.len() == 1 && line@[0] == 10 {
                assert(line@ =~= seq![10u8]);
            }
            assert(blank == is_blank(line@));
        }
        if blank {
            return match length {
                None => Err(ProtocolError::MissingLength),
                Some(n) => {
                    if n <= input.len() - end {
                        let body = copy_bytes(&input[end..end + n]);
                        proof {
                            let rest = input@.skip(end as int);
                            assert(body@ =~= rest.take(n as int));
                            assert(rest.skip(n as int) =~= input@.skip(end + n));
                        }
                        Ok(Some((body, end + n)))
                    } else {
                        Err(ProtocolError::ShortBody)
                    }
                },
            };
        }
        let chars = chars_of(text.as_str());
        let kept = strip_line_end(chars.as_slice());
        let trimmed = &chars[0..kept];
        assert(trimmed@ =~= without_line_end(text@));
        if has_prefix(trimmed, "Content-Length:") {
            let rest = &trimmed[15..trimmed.len()];
            assert(rest@ =~= trimmed@.skip(15));
            let (x, y) = trim(rest);
            match parse_unsigned(&rest[x..y], usize::MAX as u64) {
                Some(n) => {
                    length = Some(n as usize);
                },
                None => {
                    return Err(ProtocolError::MalformedLength(string_of(trimmed)));
                },
            }
        }
        seen = true;
        pos = end;
    }
}

/// Puts a body into its frame.
pub fn write_frame(payload: &[u8]) -> (out: Vec<u8>)
    ensures
        out@ == framed(payload@),
{
    let mut header = "Content-Length: ".to_owned();
    push_decimal(&mut header, payload.len() as u64);
    header.append("\r\n\r\n");
    let mut out = copy_bytes(header.as_str().as_bytes());
    let mut body = copy_bytes(payload);
    out.append(&mut body);
    out
}

/// The message at the start of the input, and how many bytes it takes up.
pub fn read_message(input: &[u8]) -> (r: Result<
    Option<(serde_json::Value, usize)>,
    ProtocolError,
>)
    ensures
        match frame(input@) {
            Frame::Body { body, rest } => match json_value(body) {
                Some(v) => r matches Ok(Some((w, n))) && w == v && n <= input@.len() && input@.skip(
                    n as int,
                ) == rest,
                None => r matches Err(ProtocolError::InvalidJson),
            },
            Frame::Nothing => r matches Ok(None),
            Frame::UnexpectedEof => r matches Err(ProtocolError::UnexpectedEof),
            Frame::NotUtf8 => r matches Err(ProtocolError::HeaderNotUtf8),
            Frame::Malformed { line } => r matches Err(ProtocolError::MalformedLength(t)) && t@
                == line,
            Frame::MissingLength => r matches Err(ProtocolError::MissingLength),
            Frame::ShortBody => r matches Err(ProtocolError::ShortBody),
        },
{
    match read_frame(input) {
        Ok(None) => Ok(None),
        Ok(Some((body, n))) => match json_from_bytes(body.as_slice()) {
            Some(v) => Ok(Some((v, n))),
            None => Err(ProtocolError::InvalidJson),
        },
        Err(e) => Err(e),
    }
}

/// A message in its frame. A message whose text is plain is read back from its frame, whatever
/// follows it.
pub fn write_message(body: &serde_json::Value) -> (r: Result<Vec<u8>, ProtocolError>)
    ensures
        match json_bytes(*body) {
            Some(text) => r matches Ok(out) && out@ == framed(text) && (plain_json(text) ==> (
            forall|tail: Seq<u8>| #[trigger] reads_as(out@ + tail, *body, tail))),
            None => r matches Err(ProtocolError::NotSerializable),
        },
{
    match json_to_bytes(body) {
        Some(payload) => {
            let length: usize = payload.len();
            let out = write_frame(payload.as_slice());
            proof {
                assert(payload@.len() == length);
                let text = payload@;
                if plain_json(text) {
                    assert forall|tail: Seq<u8>| #[trigger] reads_as(out@ + tail, *body, tail) by {
                        a_framed_body_is_read_back(text, tail);
                    }
                }
            }
            Ok(out)
        },
        None => Err(ProtocolError::NotSerializable),
    }
}

/// Whether reading a message gives a value, and leaves the rest of the input.
pub open spec fn reads_as(input: Seq<u8>, v: serde_json::Value, rest: Seq<u8>) -> bool {
    frame(input) matches Frame::Body { body, rest: left } && json_value(body) == Some(v) && left
        == rest
}

/// A body that was put into a frame is read back, whatever follows it.
pub proof fn a_framed_body_is_read_back(body: Seq<u8>, tail: Seq<u8>)
    requires
        body.len() <= usize::MAX,
    ensures
        frame(framed(body) + tail) == (Frame::Body { body, rest: tail }),
{
    let n = body.len();
    let label = "Content-Length:"@;
    reveal_strlit("Content-Length: ");
    reveal_strlit("Content-Length:");
    reveal_strlit("\r\n\r\n");
    decimal_is_digits(n);
    let digits = decimal(n);
    let text = header_text(n);
    let input = framed(body) + tail;
    assert(vstd::utf8::is_ascii_chars(text)) by {
        assert forall|i: int| 0 <= i < text.len() implies '\0' <= #[trigger] text[i] <= '\u{7f}' by {
            if i < 16 {
                assert(text[i] == "Content-Length: "@[i]);
            } else if i < 16 + digits.len() {
                assert(text[i] == digits[i - 16]);
                assert(is_digit(digits[i - 16]));
            } else {
                assert(text[i] == "\r\n\r\n"@[i - 16 - digits.len()]);
            }
        }
    }
    vstd::utf8::is_ascii_chars_encode_utf8(text);
    let bytes = encode_utf8(text);
    let end: int = 16 + digits.len() as int + 2;
    assert forall|i: int| 0 <= i < text.len() implies input[i] == #[trigger] text[i] as u8 by {
        assert(bytes[i] == text[i] as u8);
        assert(input[i] == bytes[i]);
    }
    // The first line is the length.
    assert forall|i: int| 0 <= i < end - 1 implies input[i] != 10 by {
        if i < 16 {
            assert(text[i] == "Content-Length: "@[i]);
        } else if i < 16 + digits.len() {
            assert(text[i] == digits[i - 16]);
            assert(is_digit(digits[i - 16]));
        } else {
            assert(text[i] == "\r\n\r\n"@[0]);
        }
    }
    assert(text[end - 1] == "\r\n\r\n"@[1]);
    assert(input[end - 1] == 10);
    line_len_is(input, end);
    let line = input.take(end);
    let line_text = text.take(end);
    assert(vstd::utf8::is_ascii_chars(line_text));
    vstd::utf8::is_ascii_chars_encode_utf8(line_text);
    assert(encode_utf8(line_text) =~= line) by {
        assert forall|i: int| 0 <= i < end implies encode_utf8(line_text)[i] == line[i] by {
            assert(line_text[i] == text[i]);
            assert(encode_utf8(line_text)[i] == line_text[i] as u8);
        }
    }
    vstd::utf8::encode_utf8_valid_utf8(line_text);
    vstd::utf8::encode_utf8_decode_utf8(line_text);
    assert(decode_utf8(line) == line_text);
    assert(seq![13u8, 10u8].len() == 2 && seq![10u8].len() == 1);
    assert(!is_blank(line));
    let stripped = text.take(end - 2);
    assert(without_line_end(line_text) == stripped) by {
        assert(line_text.last() == "\r\n\r\n"@[1]);
        assert(line_text.drop_last() =~= text.take(end - 1));
        assert(text.take(end - 1).last() == "\r\n\r\n"@[0]);
        assert(text.take(end - 1).drop_last() =~= stripped);
        assert(stripped.last() == digits.last());
        assert(is_digit(digits[digits.len() - 1]));
        assert(without_line_end(stripped) == stripped);
        assert(without_line_end(text.take(end - 1)) == stripped);
    }
    assert(label.is_prefix_of(stripped)) by {
        assert(stripped.subrange(0, 15) =~= label);
    }
    let value = stripped.skip(15);
    assert(value =~= seq![' '] + digits) by {
        assert(value[0] == "Content-Length: "@[15]);
        assert forall|i: int| 1 <= i < value.len() implies value[i] == (seq![' '] + digits)[i] by {
            assert(value[i] == text[i + 15]);
            assert(text[i + 15] == digits[i - 1]);
        }
    }
    assert(trimmed_back(trimmed_front(value)) == digits) by {
        assert(is_space(' '));
        assert(value.drop_first() =~= digits);
        assert(is_digit(digits[0]));
        assert(!is_space(digits[0]));
        assert(trimmed_front(digits) == digits);
        assert(is_digit(digits[digits.len() - 1]));
        assert(!is_space(digits.last()));
    }
    decimal_reads_back(n, usize::MAX as nat);
    // The second line is blank.
    let rest = input.skip(end);
    assert(rest[0] == text[end] as u8 && text[end] == "\r\n\r\n"@[2]) by {
        assert(rest[0] == input[end]);
    }
    assert(rest[1] == text[end + 1] as u8 && text[end + 1] == "\r\n\r\n"@[3]) by {
        assert(rest[1] == input[end + 1]);
    }
    line_len_is(rest, 2);
    let blank = rest.take(2);
    assert(blank =~= seq![13u8, 10u8]);
    let blank_text = seq!['\r', '\n'];
    assert(vstd::utf8::is_ascii_chars(blank_text));
    vstd::utf8::is_ascii_chars_encode_utf8(blank_text);
    assert(encode_utf8(blank_text) =~= blank) by {
        assert(encode_utf8(blank_text)[0] == blank_text[0] as u8);
        assert(encode_utf8(blank_text)[1] == blank_text[1] as u8);
    }
    vstd::utf8::encode_utf8_valid_utf8(blank_text);
    assert(is_blank(blank));
    let after = rest.skip(2);
    assert(after =~= body + tail);
    assert(headers(rest, Some(n), true) == (Headers::End { length: Some(n), rest: after }));
    assert(headers(input, None, false) == (Headers::End { length: Some(n), rest: after }));
    assert(after.take(n as int) =~= body);
    assert(after.skip(n as int) =~= tail);
}

/// Bytes put together.
pub open spec fn chained(parts: Seq<Seq<u8>>) -> Seq<u8>
    decreases parts.len(),
{
    if parts.len() == 0 {
        Seq::empty()
    } else {
        parts[0] + chained(parts.drop_first())
    }
}

/// Whether reading messages one after the other gives the values in order, and then nothing.
pub open spec fn reads_all(input: Seq<u8>, vs: Seq<serde_json::Value>) -> bool
    decreases vs.len(),
{
    if vs.len() == 0 {
        frame(input) is Nothing
    } else {
        match frame(input) {
            Frame::Body { body, rest } => json_value(body) == Some(vs[0]) && reads_all(
                rest,
                vs.drop_first(),
            ),
            _ => false,
        }
    }
}

/// Messages that were written one after the other are read back in order, and then the input is
/// at its end.
pub proof fn messages_are_read_back_in_order(vs: Seq<serde_json::Value>, written: Seq<Seq<u8>>)
    requires
        vs.len() == written.len(),
        forall|i: int, tail: Seq<u8>|
            0 <= i < vs.len() ==> #[trigger] reads_as(written[i] + tail, vs[i], tail),
    ensures
        reads_all(chained(written), vs),
    decreases vs.len(),
{
    if vs.len() == 0 {
        assert(chained(written) =~= Seq::<u8>::empty());
    } else {
        let left = written.drop_first();
        let others = vs.drop_first();
        assert forall|i: int, tail: Seq<u8>| 0 <= i < others.len() implies #[trigger] reads_as(
            left[i] + tail,
            others[i],
            tail,
        ) by {
            assert(reads_as(written[i + 1] + tail, vs[i + 1], tail));
        }
        messages_are_read_back_in_order(others, left);
        assert(reads_as(written[0] + chained(left), vs[0], chained(left)));
    }
}

/// A first line ends at its first line feed.
proof fn line_len_is(b: Seq<u8>, n: int)
    requires
        0 < n <= b.len(),
        b[n - 1] == 10,
        forall|i: int| 0 <= i < n - 1 ==> b[i] != 10,
    ensures
        line_len(b) == n,
    decreases n,
{
    if n > 1 {
        assert(b[0] != 10);
        let r = b.drop_first();
        assert(r[n - 2] == b[n - 1]);
        assert forall|i: int| 0 <= i < n - 2 implies r[i] != 10 by {
            assert(r[i] == b[i + 1]);
        }
        line_len_is(r, n - 1);
    }
}

/// Endings of lines are taken off a line, all of them and nothing else.
pub proof fn line_ends_are_taken_off(text: Seq<char>, end: Seq<char>)
    requires
        text.len() > 0 ==> text.last() != '\r' && text.last() != '\n',
        forall|i: int| 0 <= i < end.len() ==> #[trigger] end[i] == '\r' || end[i] == '\n',
    ensures
        without_line_end(text + end) == text,
    decreases end.len(),
{
    let s = text + end;
    if end.len() > 0 {
        let front = end.drop_last();
        assert forall|i: int| 0 <= i < front.len() implies #[trigger] front[i] == '\r' || front[i]
            == '\n' by {
            assert(front[i] == end[i]);
        }
        line_ends_are_taken_off(text, front);
        assert(s.drop_last() =~= text + front);
        assert(s.last() == end[end.len() - 1]);
    } else {
        assert(s =~= text);
    }
}

/// Spaces around a value are taken off, all of them and nothing else.
pub proof fn spaces_around_are_taken_off(before: Seq<char>, text: Seq<char>, behind: Seq<char>)
    requires
        text.len() > 0,
        !is_space(text[0]),
        !is_space(text.last()),
        forall|i: int| 0 <= i < before.len() ==> is_space(#[trigger] before[i]),
        forall|i: int| 0 <= i < behind.len() ==> is_space(#[trigger] behind[i]),
    ensures
        trimmed_back(trimmed_front(before + text + behind)) == text,
{
    assert(before + text + behind =~= before + (text + behind));
    assert((text + behind)[0] == text[0]);
    front_taken_off(before, text + behind);
    back_taken_off(text, behind);
}

proof fn front_taken_off(gap: Seq<char>, rest: Seq<char>)
    requires
        rest.len() > 0,
        !is_space(rest[0]),
        forall|i: int| 0 <= i < gap.len() ==> is_space(#[trigger] gap[i]),
    ensures
        trimmed_front(gap + rest) == rest,
    decreases gap.len(),
{
    let s = gap + rest;
    if gap.len() > 0 {
        let tail = gap.drop_first();
        assert forall|i: int| 0 <= i < tail.len() implies is_space(#[trigger] tail[i]) by {
            assert(tail[i] == gap[i + 1]);
        }
        front_taken_off(tail, rest);
        assert(s[0] == gap[0]);
        assert(s.drop_first() =~= tail + rest);
    } else {
        assert(s =~= rest);
    }
}

proof fn back_taken_off(rest: Seq<char>, gap: Seq<char>)
    requires
        rest.len() > 0,
        !is_space(rest.last()),
        forall|i: int| 0 <= i < gap.len() ==> is_space(#[trigger] gap[i]),
    ensures
        trimmed_back(rest + gap) == rest,
    decreases gap.len(),
{
    let s = rest + gap;
    if gap.len() > 0 {
        let front = gap.drop_last();
        assert forall|i: int| 0 <= i < front.len() implies is_space(#[trigger] front[i]) by {
            assert(front[i] == gap[i]);
        }
        back_taken_off(rest, front);
        assert(s.last() == gap[gap.len() - 1]);
        assert(s.drop_last() =~= rest + front);
    } else {
        assert(s =~= rest);
    }
}

proof fn line_ends_at_feed(line: Seq<u8>, rest: Seq<u8>)
    requires
        !line.contains(10u8),
    ensures
        line_len(line.push(10u8) + rest) == line.len() + 1,
    decreases line.len(),
{
    let b = line.push(10u8) + rest;
    if line.len() > 0 {
        let tail = line.drop_first();
        assert(!tail.contains(10u8)) by {
            if tail.contains(10u8) {
                let i = choose|i: int| 0 <= i < tail.len() && tail[i] == 10u8;
                assert(line[i + 1] == 10u8);
            }
        }
        assert(line.contains(line[0]));
        line_ends_at_feed(tail, rest);
        assert(b.drop_first() =~= tail.push(10u8) + rest);
        assert(b[0] == line[0]);
    } else {
        assert(b[0] == 10u8);
    }
}

/// Headers are read line by line. A blank line ends them, and what stands behind it is left. A
/// line that begins with the label of the length sets it, in place of an earlier one, or is
/// malformed where no number stands behind the label; any other line changes nothing.
pub proof fn headers_are_read_line_by_line(
    line: Seq<u8>,
    rest: Seq<u8>,
    length: Option<nat>,
    seen: bool,
    text: Seq<char>,
    end: Seq<char>,
)
    requires
        !line.contains(10u8),
        valid_utf8(line.push(10u8)),
        decode_utf8(line.push(10u8)) == text + end,
        text.len() > 0 ==> text.last() != '\r' && text.last() != '\n',
        forall|i: int| 0 <= i < end.len() ==> #[trigger] end[i] == '\r' || end[i] == '\n',
    ensures
        ({
            let b = line.push(10u8) + rest;
            let label = "Content-Length:"@;
            let blank = line.len() == 0 || line == seq![13u8];
            &&& blank ==> headers(b, length, seen) == (Headers::End { length, rest })
            &&& !blank && !label.is_prefix_of(text) ==> headers(b, length, seen) == headers(
                rest,
                length,
                true,
            )
            &&& !blank && label.is_prefix_of(text) ==> headers(b, length, seen)
                == match unsigned_value(
                trimmed_back(trimmed_front(text.skip(label.len() as int))),
                usize::MAX as nat,
            ) {
                Some(n) => headers(rest, Some(n), true),
                None => Headers::Malformed { line: text },
            }
        }),
        headers(Seq::empty(), length, seen) == (Headers::Eof { clean: !seen }),
{
    let whole = line.push(10u8);
    let b = whole + rest;
    line_ends_at_feed(line, rest);
    assert(b.take(line_len(b)) =~= whole);
    assert(b.skip(line_len(b)) =~= rest);
    line_ends_are_taken_off(text, end);
    assert(is_blank(whole) <==> line.len() == 0 || line == seq![13u8]) by {
        if line.len() == 0 {
            assert(whole =~= seq![10u8]);
        }
        if line == seq![13u8] {
            assert(whole =~= seq![13u8, 10u8]);
        }
        if whole == seq![13u8, 10u8] {
            assert(whole.len() == 2);
            assert(line.len() == 1);
            assert(line[0] == whole[0]);
            assert(line =~= seq![13u8]);
        }
        if whole == seq![10u8] {
            assert(whole.len() == 1);
        }
    }
}

/// A line of the headers that is no UTF-8 is refused.
pub proof fn headers_are_utf8(line: Seq<u8>, rest: Seq<u8>, length: Option<nat>, seen: bool)
    requires
        !line.contains(10u8),
        !valid_utf8(line.push(10u8)),
    ensures
        headers(line.push(10u8) + rest, length, seen) is NotUtf8,
{
    let b = line.push(10u8) + rest;
    line_ends_at_feed(line, rest);
    assert(b.take(line_len(b)) =~= line.push(10u8));
}

/// Behind the headers stands a body of as many bytes as they say, and the rest is left. A body
/// that is shorter, headers without a length, and an input that ends in the headers are errors;
/// an input without any byte holds nothing.
pub proof fn frames_are_cut_by_their_length(b: Seq<u8>, n: nat, rest: Seq<u8>)
    ensures
        headers(b, None, false) == (Headers::End { length: Some(n), rest }) && n <= rest.len()
            ==> frame(b) == (Frame::Body {
            body: rest.subrange(0, n as int),
            rest: rest.subrange(n as int, rest.len() as int),
        }),
        headers(b, None, false) == (Headers::End { length: Some(n), rest }) && n > rest.len()
            ==> frame(b) is ShortBody,
        headers(b, None, false) == (Headers::End { length: None, rest }) ==> frame(b)
            is MissingLength,
        headers(b, None, false) == (Headers::Eof { clean: true }) ==> frame(b) is Nothing,
        headers(b, None, false) == (Headers::Eof { clean: false }) ==> frame(b) is UnexpectedEof,
        headers(b, None, false) is NotUtf8 ==> frame(b) is NotUtf8,
        headers(b, None, false) is Malformed ==> frame(b) is Malformed,
        b.len() == 0 <==> frame(b) is Nothing,
{
    if headers(b, None, false) == (Headers::End { length: Some(n), rest }) && n <= rest.len() {
        assert(rest.take(n as int) =~= rest.subrange(0, n as int));
        assert(rest.skip(n as int) =~= rest.subrange(n as int, rest.len() as int));
    }
    if b.len() > 0 {
        line_len_bounds(b);
        seen_input_is_not_clean(b, None, false);
    }
}

proof fn seen_input_is_not_clean(b: Seq<u8>, length: Option<nat>, seen: bool)
    requires
        b.len() > 0 || seen,
    ensures
        headers(b, length, seen) != (Headers::Eof { clean: true }),
    decreases b.len(),
{
    if b.len() > 0 {
        line_len_bounds(b);
        let line = b.take(line_len(b));
        let rest = b.skip(line_len(b));
        let text = without_line_end(decode_utf8(line));
        let label = "Content-Length:"@;
        if valid_utf8(line) && !is_blank(line) {
            if label.is_prefix_of(text) {
                match unsigned_value(
                    trimmed_back(trimmed_front(text.skip(label.len() as int))),
                    usize::MAX as nat,
                ) {
                    Some(n) => {
                        seen_input_is_not_clean(rest, Some(n), true);
                    },
                    None => {},
                }
            } else {
                seen_input_is_not_clean(rest, length, true);
            }
        }
    }
}

/// What reading gives for each kind of frame: the body whole with what is left, nothing, or the
/// error of that kind.
pub proof fn frames_are_given_whole(
    r: Result<Option<(Vec<u8>, usize)>, ProtocolError>,
    input: Seq<u8>,
    body: Seq<u8>,
    rest: Seq<u8>,
    line: Seq<char>,
)
    ensures
        frame_is(r, input, Frame::Body { body, rest }) <==> (r is Ok && r->Ok_0 is Some
            && (r->Ok_0->0).0@ == body && (r->Ok_0->0).1 <= input.len() && input.skip(
            (r->Ok_0->0).1 as int,
        ) == rest),
        frame_is(r, input, Frame::Nothing) <==> r is Ok && r->Ok_0 is None,
        frame_is(r, input, Frame::UnexpectedEof) <==> r is Err && r->Err_0 is UnexpectedEof,
        frame_is(r, input, Frame::NotUtf8) <==> r is Err && r->Err_0 is HeaderNotUtf8,
        frame_is(r, input, Frame::MissingLength) <==> r is Err && r->Err_0 is MissingLength,
        frame_is(r, input, Frame::ShortBody) <==> r is Err && r->Err_0 is ShortBody,
        frame_is(r, input, Frame::Malformed { line }) <==> r is Err && r->Err_0 is MalformedLength
            && r->Err_0->MalformedLength_0@ == line,
{
}

/// A frame is the length of its body, counted in bytes, between label and blank line, and then
/// the body.
pub proof fn frames_begin_with_their_length(body: Seq<u8>)
    ensures
        framed(body) == encode_utf8("Content-Length: "@ + decimal(body.len()) + "\r\n\r\n"@) + body,
{
}

} // verus!
