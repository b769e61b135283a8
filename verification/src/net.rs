//! HTTP and JSON helpers for talking to an inference server over a plain
//! socket: decimal formatting, JSON string escaping and unescaping, chat
//! message arrays, HTTP status and body extraction.

use vstd::prelude::*;
use vstd::string::StringSliceAdditionalSpecFns;

verus! {

pub const BYTE_TAB: u8 = 9;
pub const BYTE_LF: u8 = 10;
pub const BYTE_CR: u8 = 13;
pub const BYTE_SPACE: u8 = 32;
pub const BYTE_QUOTE: u8 = 34;
pub const BYTE_COMMA: u8 = 44;
pub const BYTE_DOT: u8 = 46;
pub const BYTE_SLASH: u8 = 47;
pub const BYTE_ZERO: u8 = 48;
pub const BYTE_LBRACKET: u8 = 91;
pub const BYTE_BACKSLASH: u8 = 92;
pub const BYTE_RBRACKET: u8 = 93;
pub const BYTE_N: u8 = 110;
pub const BYTE_R: u8 = 114;
pub const BYTE_T: u8 = 116;

/// The bytes of a string literal.
pub open spec fn lit(s: &str) -> Seq<u8> {
    s.spec_bytes()
}

/// Appends the bytes of the string `s` to `out`.
pub fn append_str(out: &mut Vec<u8>, s: &str)
    ensures
        final(out)@ == old(out)@ + lit(s),
{
    append_bytes(out, s.as_bytes());
}

/// Whether two byte strings are equal.
pub fn bytes_eq(a: &[u8], b: &[u8]) -> (r: bool)
    ensures
        r == (a@ == b@),
{
    if a.len() != b.len() {
        return false;
    }
    for i in 0..a.len()
        invariant
            a@.len() == b@.len(),
            forall|j: int| 0 <= j < i ==> a@[j] == b@[j],
    {
        if a[i] != b[i] {
            return false;
        }
    }
    assert(a@ == b@);
    true
}

/// Appends `s` to `out`.
pub fn append_bytes(out: &mut Vec<u8>, s: &[u8])
    ensures
        final(out)@ == old(out)@ + s@,
{
    let ghost start = out@;
    for i in 0..s.len()
        invariant
            out@ == start + s@.subrange(0, i as int),
    {
        out.push(s[i]);
        assert(s@.subrange(0, i + 1) == s@.subrange(0, i as int).push(s@[i as int]));
    }
    assert(s@.subrange(0, s@.len() as int) == s@);
}

// ---------------------------------------------------------------------------
// Decimal formatting
// ---------------------------------------------------------------------------

/// The decimal digits of `n`, most significant first, without leading zeros.
pub open spec fn decimal(n: nat) -> Seq<u8>
    decreases n,
{
    if n < 10 {
        seq![(48 + n) as u8]
    } else {
        decimal(n / 10).push((48 + n % 10) as u8)
    }
}

/// Format a usize as decimal ASCII.
pub fn format_usize(n: usize) -> (r: Vec<u8>)
    ensures
        r@ == decimal(n as nat),
    decreases n,
{
    if n < 10 {
        let mut v: Vec<u8> = Vec::new();
        v.push(BYTE_ZERO + n as u8);
        v
    } else {
        let mut v = format_usize(n / 10);
        v.push(BYTE_ZERO + (n % 10) as u8);
        v
    }
}

/// Appends the dotted-decimal form of an IPv4 address given in host byte order.
pub open spec fn ipv4_text(addr: u32) -> Seq<u8> {
    decimal((addr / 0x100_0000) as nat) + seq![BYTE_DOT] + decimal(((addr / 0x1_0000) % 256) as nat)
        + seq![BYTE_DOT] + decimal(((addr / 0x100) % 256) as nat) + seq![BYTE_DOT] + decimal(
        (addr % 256) as nat,
    )
}

/// Append a dotted-decimal IPv4 address.
pub fn append_ipv4(buf: &mut Vec<u8>, addr: u32)
    ensures
        final(buf)@ == old(buf)@ + ipv4_text(addr),
{
    let octets: [u32; 4] = [addr / 0x100_0000, (addr / 0x1_0000) % 256, (addr / 0x100) % 256, addr % 256];
    let ghost start = buf@;
    append_bytes(buf, format_usize(octets[0] as usize).as_slice());
    buf.push(BYTE_DOT);
    append_bytes(buf, format_usize(octets[1] as usize).as_slice());
    buf.push(BYTE_DOT);
    append_bytes(buf, format_usize(octets[2] as usize).as_slice());
    buf.push(BYTE_DOT);
    append_bytes(buf, format_usize(octets[3] as usize).as_slice());
    assert(buf@ == start + ipv4_text(addr));
}

// ---------------------------------------------------------------------------
// JSON string escaping
// ---------------------------------------------------------------------------

/// How `json_escape` writes one byte: backslash, quote, newline, carriage
/// return and tab are escaped; other control bytes are dropped.
pub open spec fn escape_byte(b: u8) -> Seq<u8> {
    if b == BYTE_BACKSLASH {
        seq![BYTE_BACKSLASH, BYTE_BACKSLASH]
    } else if b == BYTE_QUOTE {
        seq![BYTE_BACKSLASH, BYTE_QUOTE]
    } else if b == BYTE_LF {
        seq![BYTE_BACKSLASH, BYTE_N]
    } else if b == BYTE_CR {
        seq![BYTE_BACKSLASH, BYTE_R]
    } else if b == BYTE_TAB {
        seq![BYTE_BACKSLASH, BYTE_T]
    } else if b < 0x20 {
        seq![]
    } else {
        seq![b]
    }
}

/// The JSON string body `json_escape` writes for `s`.
pub open spec fn json_escaped(s: Seq<u8>) -> Seq<u8>
    decreases s.len(),
{
    if s.len() == 0 {
        seq![]
    } else {
        json_escaped(s.drop_last()) + escape_byte(s.last())
    }
}

/// Escape a byte string for inclusion in a JSON string.
pub fn json_escape(input: &[u8], output: &mut Vec<u8>)
    ensures
        final(output)@ == old(output)@ + json_escaped(input@),
{
    let ghost start = output@;
    for i in 0..input.len()
        invariant
            output@ == start + json_escaped(input@.subrange(0, i as int)),
    {
        let b = input[i];
        if b == BYTE_BACKSLASH {
            output.push(BYTE_BACKSLASH);
            output.push(BYTE_BACKSLASH);
        } else if b == BYTE_QUOTE {
            output.push(BYTE_BACKSLASH);
            output.push(BYTE_QUOTE);
        } else if b == BYTE_LF {
            output.push(BYTE_BACKSLASH);
            output.push(BYTE_N);
        } else if b == BYTE_CR {
            output.push(BYTE_BACKSLASH);
            output.push(BYTE_R);
        } else if b == BYTE_TAB {
            output.push(BYTE_BACKSLASH);
            output.push(BYTE_T);
        } else if b < 0x20 {
        } else {
            output.push(b);
        }
        assert(input@.subrange(0, i + 1).drop_last() == input@.subrange(0, i as int));
    }
    assert(input@.subrange(0, input@.len() as int) == input@);
}

/// How `json_unescape` decodes the escape `\c`: the six JSON escapes it knows
/// become their byte; any other is kept as written.
pub open spec fn unescape_pair(c: u8) -> Seq<u8> {
    if c == BYTE_N {
        seq![BYTE_LF]
    } else if c == BYTE_R {
        seq![BYTE_CR]
    } else if c == BYTE_T {
        seq![BYTE_TAB]
    } else if c == BYTE_BACKSLASH {
        seq![BYTE_BACKSLASH]
    } else if c == BYTE_QUOTE {
        seq![BYTE_QUOTE]
    } else if c == BYTE_SLASH {
        seq![BYTE_SLASH]
    } else {
        seq![BYTE_BACKSLASH, c]
    }
}

/// The bytes `json_unescape` writes for the escaped string `s`: a backslash
/// followed by another byte is an escape; a final lone backslash is kept.
pub open spec fn json_unescaped(s: Seq<u8>) -> Seq<u8>
    decreases s.len(),
{
    if s.len() == 0 {
        seq![]
    } else if s[0] == BYTE_BACKSLASH && s.len() >= 2 {
        unescape_pair(s[1]) + json_unescaped(s.subrange(2, s.len() as int))
    } else {
        seq![s[0]] + json_unescaped(s.subrange(1, s.len() as int))
    }
}

/// Unescape a JSON string value.
pub fn json_unescape(escaped: &[u8], output: &mut Vec<u8>)
    ensures
        final(output)@ == old(output)@ + json_unescaped(escaped@),
{
    let ghost start = output@;
    let n = escaped.len();
    let mut i: usize = 0;
    assert(escaped@.subrange(0, n as int) == escaped@);
    while i < n
        invariant
            n == escaped@.len(),
            i <= n,
            output@ + json_unescaped(escaped@.subrange(i as int, n as int)) == start
                + json_unescaped(escaped@),
        decreases n - i,
    {
        let ghost rest = escaped@.subrange(i as int, n as int);
        if escaped[i] == BYTE_BACKSLASH && i + 1 < n {
            let c = escaped[i + 1];
            assert(rest.subrange(2, rest.len() as int) == escaped@.subrange(i + 2, n as int));
            if c == BYTE_N {
                output.push(BYTE_LF);
            } else if c == BYTE_R {
                output.push(BYTE_CR);
            } else if c == BYTE_T {
                output.push(BYTE_TAB);
            } else if c == BYTE_BACKSLASH {
                output.push(BYTE_BACKSLASH);
            } else if c == BYTE_QUOTE {
                output.push(BYTE_QUOTE);
            } else if c == BYTE_SLASH {
                output.push(BYTE_SLASH);
            } else {
                output.push(BYTE_BACKSLASH);
                output.push(c);
            }
            i += 2;
        } else {
            assert(rest.subrange(1, rest.len() as int) == escaped@.subrange(i + 1, n as int));
            output.push(escaped[i]);
            i += 1;
        }
    }
    assert(json_unescaped(escaped@.subrange(n as int, n as int)) == Seq::<u8>::empty());
}

/// Whether a byte survives escaping: control bytes other than newline,
/// carriage return and tab are dropped.
pub open spec fn json_keeps(b: u8) -> bool {
    b >= 0x20 || b == BYTE_LF || b == BYTE_CR || b == BYTE_TAB
}

/// The bytes of `s` that survive escaping, in order.
pub open spec fn json_kept(s: Seq<u8>) -> Seq<u8>
    decreases s.len(),
{
    if s.len() == 0 {
        seq![]
    } else {
        (if json_keeps(s[0]) { seq![s[0]] } else { seq![] }) + json_kept(s.subrange(1, s.len() as int))
    }
}

proof fn lemma_escaped_concat(a: Seq<u8>, b: Seq<u8>)
    ensures
        json_escaped(a + b) == json_escaped(a) + json_escaped(b),
    decreases b.len(),
{
    if b.len() == 0 {
        assert(a + b == a);
    } else {
        lemma_escaped_concat(a, b.drop_last());
        assert((a + b).drop_last() == a + b.drop_last());
        assert((a + b).last() == b.last());
    }
}

proof fn lemma_unescape_unit(x: u8, e: Seq<u8>)
    ensures
        json_unescaped(escape_byte(x) + e) == (if json_keeps(x) { seq![x] } else { seq![] })
            + json_unescaped(e),
{
    let u = escape_byte(x) + e;
    if escape_byte(x).len() == 2 {
        assert(u.subrange(2, u.len() as int) == e);
    } else if escape_byte(x).len() == 1 {
        assert(u.subrange(1, u.len() as int) == e);
    } else {
        assert(u == e);
    }
}

/// Unescaping undoes escaping: `json_unescape` applied to what `json_escape`
/// wrote gives back the input, less the control bytes that escaping drops.
pub proof fn lemma_json_escape_roundtrip(s: Seq<u8>)
    ensures
        json_unescaped(json_escaped(s)) == json_kept(s),
    decreases s.len(),
{
    if s.len() > 0 {
        let rest = s.subrange(1, s.len() as int);
        assert(s == seq![s[0]] + rest);
        lemma_escaped_concat(seq![s[0]], rest);
        assert(seq![s[0]].drop_last() == Seq::<u8>::empty());
        assert(json_escaped(seq![s[0]].drop_last()) == Seq::<u8>::empty());
        assert(seq![s[0]].last() == s[0]);
        assert(Seq::<u8>::empty() + escape_byte(s[0]) == escape_byte(s[0]));
        assert(json_escaped(seq![s[0]]) == escape_byte(s[0]));
        lemma_unescape_unit(s[0], json_escaped(rest));
        lemma_json_escape_roundtrip(rest);
    }
}

// ---------------------------------------------------------------------------
// Chat message arrays
// ---------------------------------------------------------------------------

/// The JSON object `append_message_to_json` writes for one message, with the
/// array's closing bracket after it.
pub open spec fn chat_message(role: Seq<u8>, content: Seq<u8>) -> Seq<u8> {
    "{\"role\":\"".spec_bytes() + role + "\",\"content\":\"".spec_bytes() + json_escaped(content)
        + "\"}]".spec_bytes()
}

/// Append a chat message to a JSON messages array: an array closed by `]`
/// is reopened with a comma, anything else gets an opening `[`.
pub fn append_message_to_json(messages: &mut Vec<u8>, role: &[u8], content: &[u8])
    ensures
        final(messages)@ == (if old(messages)@.len() > 0 && old(messages)@.last() == BYTE_RBRACKET {
            old(messages)@.drop_last().push(BYTE_COMMA)
        } else {
            old(messages)@.push(BYTE_LBRACKET)
        }) + chat_message(role@, content@),
{
    let ghost start = messages@;
    let len = messages.len();
    if len > 0 && messages[len - 1] == BYTE_RBRACKET {
        messages.truncate(len - 1);
        messages.push(BYTE_COMMA);
    } else {
        messages.push(BYTE_LBRACKET);
    }
    let ghost opened = messages@;
    append_bytes(messages, "{\"role\":\"".as_bytes());
    append_bytes(messages, role);
    append_bytes(messages, "\",\"content\":\"".as_bytes());
    json_escape(content, messages);
    append_bytes(messages, "\"}]".as_bytes());
    assert(messages@ == opened + chat_message(role@, content@));
}

// ---------------------------------------------------------------------------
// Searching
// ---------------------------------------------------------------------------

/// `needle` occurs in `haystack` at position `i`.
pub open spec fn occurs_at(haystack: Seq<u8>, needle: Seq<u8>, i: int) -> bool {
    0 <= i && i + needle.len() <= haystack.len() && haystack.subrange(i, i + needle.len()) == needle
}

/// The first position at or after `i` where `needle` occurs.
pub open spec fn first_occurrence_from(haystack: Seq<u8>, needle: Seq<u8>, i: int) -> Option<int>
    decreases haystack.len() + 1 - i,
{
    if i < 0 || i + needle.len() > haystack.len() {
        None
    } else if occurs_at(haystack, needle, i) {
        Some(i)
    } else {
        first_occurrence_from(haystack, needle, i + 1)
    }
}

/// Where `find_subsequence` finds `needle`: its first occurrence, never for an empty needle.
pub open spec fn find_spec(haystack: Seq<u8>, needle: Seq<u8>) -> Option<int> {
    if needle.len() == 0 {
        None
    } else {
        first_occurrence_from(haystack, needle, 0)
    }
}

proof fn lemma_first_occurrence(haystack: Seq<u8>, needle: Seq<u8>, i: int)
    requires
        i >= 0,
    ensures
        first_occurrence_from(haystack, needle, i) matches Some(k) ==> i <= k && occurs_at(
            haystack,
            needle,
            k,
        ) && forall|j: int| i <= j < k ==> !occurs_at(haystack, needle, j),
        first_occurrence_from(haystack, needle, i) is None ==> forall|j: int|
            i <= j ==> !occurs_at(haystack, needle, j),
    decreases haystack.len() + 1 - i,
{
    if i + needle.len() <= haystack.len() && !occurs_at(haystack, needle, i) {
        lemma_first_occurrence(haystack, needle, i + 1);
    }
}

/// Whether `needle` occurs in `haystack` at `i` (which must leave room for it).
fn occurs_at_exec(haystack: &[u8], needle: &[u8], i: usize) -> (b: bool)
    requires
        i + needle@.len() <= haystack@.len(),
    ensures
        b == occurs_at(haystack@, needle@, i as int),
{
    let n = needle.len();
    let hlen = haystack.len();
    for j in 0..n
        invariant
            hlen == haystack@.len(),
            n == needle@.len(),
            i + n <= haystack@.len(),
            forall|k: int| 0 <= k < j ==> haystack@[i + k] == needle@[k],
    {
        if haystack[i + j] != needle[j] {
            assert(haystack@.subrange(i as int, i + n)[j as int] != needle@[j as int]);
            return false;
        }
    }
    assert(haystack@.subrange(i as int, i + n) == needle@);
    true
}

/// Find the position of a subsequence in a byte slice: the first occurrence
/// of a non-empty needle.
pub fn find_subsequence(haystack: &[u8], needle: &[u8]) -> (r: Option<usize>)
    ensures
        r is Some <==> find_spec(haystack@, needle@) is Some,
        r matches Some(i) ==> find_spec(haystack@, needle@) == Some(i as int),
        r matches Some(i) ==> needle@.len() > 0 && occurs_at(haystack@, needle@, i as int) && forall|j: int|
            0 <= j < i ==> !occurs_at(haystack@, needle@, j),
        r is None ==> needle@.len() == 0 || forall|j: int| !occurs_at(haystack@, needle@, j),
{
    proof {
        lemma_first_occurrence(haystack@, needle@, 0);
    }
    if needle.len() == 0 || needle.len() > haystack.len() {
        return None;
    }
    let last = haystack.len() - needle.len();
    for i in 0..last + 1
        invariant
            needle@.len() > 0,
            last == haystack@.len() - needle@.len(),
            first_occurrence_from(haystack@, needle@, 0) == first_occurrence_from(haystack@, needle@, i as int),
    {
        if occurs_at_exec(haystack, needle, i) {
            assert(first_occurrence_from(haystack@, needle@, i as int) == Some(i as int));
            proof {
                lemma_first_occurrence(haystack@, needle@, 0);
            }
            return Some(i);
        }
    }
    assert(first_occurrence_from(haystack@, needle@, (last + 1) as int) is None);
    None
}

/// Where `find_json_string_end` stops scanning from `i`: the first unescaped
/// quote, a backslash always skipping the byte after it.
pub open spec fn json_string_end(json: Seq<u8>, i: int) -> Option<int>
    decreases json.len() + 2 - i,
{
    if i < 0 || i >= json.len() {
        None
    } else if json[i] == BYTE_QUOTE {
        Some(i)
    } else if json[i] == BYTE_BACKSLASH {
        json_string_end(json, i + 2)
    } else {
        json_string_end(json, i + 1)
    }
}

/// Find the end of a JSON string value that starts at `start`.
pub fn find_json_string_end(json: &[u8], start: usize) -> (r: Option<usize>)
    ensures
        r is Some <==> json_string_end(json@, start as int) is Some,
        r matches Some(e) ==> json_string_end(json@, start as int) == Some(e as int) && start <= e
            < json@.len(),
{
    let mut i = start;
    let len = json.len();
    if i >= len {
        return None;
    }
    while i < len
        invariant
            len == json@.len(),
            start <= i <= len + 1,
            json_string_end(json@, start as int) == json_string_end(json@, i as int),
        decreases len + 2 - i,
    {
        if json[i] == BYTE_QUOTE {
            return Some(i);
        } else if json[i] == BYTE_BACKSLASH {
            assert(json_string_end(json@, i as int) == json_string_end(json@, i + 2));
            if len - i < 2 {
                assert(json_string_end(json@, i + 2) is None);
                return None;
            }
            i = i + 2;
        } else {
            i += 1;
        }
    }
    None
}

// ---------------------------------------------------------------------------
// HTTP responses
// ---------------------------------------------------------------------------

/// The blank line that ends the headers of an HTTP response.
pub open spec fn header_end() -> Seq<u8> {
    seq![BYTE_CR, BYTE_LF, BYTE_CR, BYTE_LF]
}

/// The body `find_http_body` finds: what follows the first blank line, or
/// the whole response when there is none.
pub open spec fn http_body(raw: Seq<u8>) -> Seq<u8> {
    match first_occurrence_from(raw, header_end(), 0) {
        Some(i) => raw.subrange(i + 4, raw.len() as int),
        None => raw,
    }
}

/// Find the HTTP response body.
pub fn find_http_body(raw: &[u8]) -> (body: &[u8])
    ensures
        body@ == http_body(raw@),
{
    if raw.len() < 4 {
        return raw;
    }
    let sep: [u8; 4] = [BYTE_CR, BYTE_LF, BYTE_CR, BYTE_LF];
    assert(sep@ == header_end());
    for i in 0..raw.len() - 3
        invariant
            raw@.len() >= 4,
            sep@ == header_end(),
            first_occurrence_from(raw@, header_end(), 0) == first_occurrence_from(raw@, header_end(), i as int),
    {
        if occurs_at_exec(raw, sep.as_slice(), i) {
            return &raw[i + 4..raw.len()];
        }
    }
    raw
}

/// An ASCII decimal digit.
pub open spec fn is_digit(b: u8) -> bool {
    48 <= b <= 57
}

/// The status code `parse_http_status` reads: the three digits after
/// `HTTP/1.x `, or 0 when the status line does not have that shape.
pub open spec fn http_status(raw: Seq<u8>) -> int {
    if raw.len() < 12 || raw.subrange(0, 7) != "HTTP/1.".spec_bytes() || raw[8] != BYTE_SPACE
        || !is_digit(raw[9]) || !is_digit(raw[10]) || !is_digit(raw[11]) {
        0
    } else {
        (raw[9] - 48) * 100 + (raw[10] - 48) * 10 + (raw[11] - 48)
    }
}

/// Extract the HTTP status code.
pub fn parse_http_status(raw: &[u8]) -> (status: u16)
    ensures
        status == http_status(raw@),
{
    let prefix = "HTTP/1.".as_bytes();
    proof {
        reveal_strlit("HTTP/1.");
        vstd::string::is_ascii_spec_bytes("HTTP/1.");
        assert(vstd::string::is_ascii("HTTP/1."));
    }
    if raw.len() < 12 || !occurs_at_exec(raw, prefix, 0) {
        return 0;
    }
    if raw[8] != BYTE_SPACE {
        return 0;
    }
    let d0 = raw[9].wrapping_sub(BYTE_ZERO) as u16;
    let d1 = raw[10].wrapping_sub(BYTE_ZERO) as u16;
    let d2 = raw[11].wrapping_sub(BYTE_ZERO) as u16;
    if d0 > 9 || d1 > 9 || d2 > 9 {
        return 0;
    }
    d0 * 100 + d1 * 10 + d2
}

// ---------------------------------------------------------------------------
// JSON responses
// ---------------------------------------------------------------------------

/// The field keys `extract_text_from_json` looks for, in order of preference.
pub open spec fn text_key(k: int) -> Seq<u8> {
    if k == 0 {
        "\"content\":\"".spec_bytes()
    } else if k == 1 {
        "\"content\": \"".spec_bytes()
    } else if k == 2 {
        "\"text\":\"".spec_bytes()
    } else {
        "\"text\": \"".spec_bytes()
    }
}

/// Where the value of the first of the keys `k..` found starts.
pub open spec fn text_value_start_from(json: Seq<u8>, k: int) -> Option<int>
    decreases 4 - k,
{
    if k < 0 || k >= 4 {
        None
    } else if find_spec(json, text_key(k)) is Some {
        Some(find_spec(json, text_key(k))->0 + text_key(k).len())
    } else {
        text_value_start_from(json, k + 1)
    }
}

/// Where the value of the first of the keys found (in order of preference) starts.
pub open spec fn text_value_start(json: Seq<u8>) -> Option<int> {
    text_value_start_from(json, 0)
}

/// The still-escaped text `extract_text_from_json` returns.
pub open spec fn json_text_field(json: Seq<u8>) -> Option<Seq<u8>> {
    match text_value_start(json) {
        None => None,
        Some(vs) => match json_string_end(json, vs) {
            None => None,
            Some(ve) => Some(json.subrange(vs, ve)),
        },
    }
}

/// Extract the "content" (or "text") string field of a completion response,
/// still escaped.
pub fn extract_text_from_json(json: &[u8]) -> (r: Option<&[u8]>)
    ensures
        r is Some <==> json_text_field(json@) is Some,
        r matches Some(t) ==> json_text_field(json@) == Some(t@),
{
    let patterns: [&[u8]; 4] = [
        "\"content\":\"".as_bytes(),
        "\"content\": \"".as_bytes(),
        "\"text\":\"".as_bytes(),
        "\"text\": \"".as_bytes(),
    ];
    assert(patterns@[0]@ == text_key(0));
    assert(patterns@[1]@ == text_key(1));
    assert(patterns@[2]@ == text_key(2));
    assert(patterns@[3]@ == text_key(3));
    let mut found: Option<(usize, usize)> = None;
    let mut k: usize = 0;
    while k < 4 && found.is_none()
        invariant
            0 <= k <= 4,
            forall|j: int| 0 <= j < 4 ==> (#[trigger] patterns@[j])@ == text_key(j),
            found is None ==> text_value_start(json@) == text_value_start_from(json@, k as int),
            found matches Some(f) ==> text_value_start(json@) == Some(f.0 + f.1) && f.0 + f.1 <= json@.len(),
        decreases 4 - k + (if found is None { 1int } else { 0int }),
    {
        assert(patterns@[k as int]@ == text_key(k as int));
        if let Some(pos) = find_subsequence(json, patterns[k]) {
            assert(occurs_at(json@, text_key(k as int), pos as int));
            assert(find_spec(json@, text_key(k as int)) == Some(pos as int));
            assert(text_value_start_from(json@, k as int) == Some(pos + text_key(k as int).len()));
            found = Some((pos, patterns[k].len()));
        } else {
            k += 1;
        }
    }
    let (start_pos, pat_len) = match found {
        Some(f) => f,
        None => {
            return None;
        },
    };
    let jlen = json.len();
    assert(start_pos + pat_len <= jlen);
    let value_start = start_pos + pat_len;
    let value_end = match find_json_string_end(json, value_start) {
        Some(e) => e,
        None => {
            return None;
        },
    };
    Some(&json[value_start..value_end])
}

} // verus!
