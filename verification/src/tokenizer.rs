//! The GPT-2 byte-level BPE tokenizer of the in-kernel model: the byte to
//! code point mapping, token records in the model blob, the sorted
//! vocabulary index and its binary search, BPE encoding and decoding.

use vstd::prelude::*;

use crate::net::BYTE_LF;

verus! {

/// The byte `?`, written for what cannot be decoded.
pub const BYTE_QUESTION: u8 = 63;

// ---------------------------------------------------------------------------
// The GPT-2 byte mapping
// ---------------------------------------------------------------------------

/// GPT-2's mapping of raw bytes to code points: printable Latin-1 bytes
/// (`!`..=`~`, `¡`..=`¬`, `®`..=`ÿ`) stand for themselves, the others are
/// moved, in order, to 256 and up.
pub open spec fn byte_to_codepoint(b: u8) -> u16 {
    if b <= 32 {
        (256 + b) as u16
    } else if b <= 126 {
        b as u16
    } else if b <= 160 {
        (289 + (b - 127)) as u16
    } else if b == 173 {
        323u16
    } else {
        b as u16
    }
}

/// The raw byte a code point below 324 stands for under GPT-2's mapping
/// (0 for the code points that no byte maps to).
pub open spec fn codepoint_to_byte(cp: int) -> u8 {
    if cp >= 256 {
        if cp <= 288 {
            (cp - 256) as u8
        } else if cp <= 322 {
            (cp - 289 + 127) as u8
        } else {
            173u8
        }
    } else if (33 <= cp <= 126) || (161 <= cp <= 172) || (174 <= cp <= 255) {
        cp as u8
    } else {
        0u8
    }
}

/// The size of the code point table: every code point of the mapping is
/// below it.
pub const CODEPOINT_TABLE_LEN: u16 = 324;

/// The GPT-2 code point of a raw byte.
pub fn gpt2_byte_to_codepoint(b: u8) -> (cp: u16)
    ensures
        cp == byte_to_codepoint(b),
        cp < CODEPOINT_TABLE_LEN,
{
    if b <= 32 {
        256 + b as u16
    } else if b <= 126 {
        b as u16
    } else if b <= 160 {
        289 + (b - 127) as u16
    } else if b == 173 {
        323
    } else {
        b as u16
    }
}

/// The raw byte of a GPT-2 code point below 324.
pub fn gpt2_codepoint_to_byte(cp: u16) -> (b: u8)
    requires
        cp < CODEPOINT_TABLE_LEN,
    ensures
        b == codepoint_to_byte(cp as int),
{
    if cp >= 256 {
        if cp <= 288 {
            (cp - 256) as u8
        } else if cp <= 322 {
            (cp - 289 + 127) as u8
        } else {
            173
        }
    } else if (33 <= cp && cp <= 126) || (161 <= cp && cp <= 172) || (174 <= cp && cp <= 255) {
        cp as u8
    } else {
        0
    }
}

/// The mapping is undone by its reverse.
pub proof fn lemma_codepoint_roundtrip(b: u8)
    ensures
        codepoint_to_byte(byte_to_codepoint(b) as int) == b,
{
}

/// The UTF-8 bytes of the code point of `b` (one byte below 128, two above).
pub open spec fn codepoint_utf8(b: u8) -> Seq<u8> {
    let cp = byte_to_codepoint(b);
    if cp < 128 {
        seq![cp as u8]
    } else {
        seq![(0xC0 + cp / 64) as u8, (0x80 + cp % 64) as u8]
    }
}

/// The GPT-2 form of `input` from position `i` on, written into `room`
/// bytes: each byte's code point in UTF-8, stopping before the first one
/// that does not fit.
pub open spec fn gpt2_encoded_from(input: Seq<u8>, i: int, room: int) -> Seq<u8>
    decreases input.len() - i,
{
    if i < 0 || i >= input.len() {
        seq![]
    } else {
        let u = codepoint_utf8(input[i]);
        if u.len() > room {
            seq![]
        } else {
            u + gpt2_encoded_from(input, i + 1, room - u.len())
        }
    }
}

/// The GPT-2 form of `input` that fits in `room` bytes.
pub open spec fn gpt2_encoded(input: Seq<u8>, room: int) -> Seq<u8> {
    gpt2_encoded_from(input, 0, room)
}

proof fn lemma_encoded_len(input: Seq<u8>, i: int, room: int)
    requires
        0 <= i <= input.len(),
        0 <= room,
    ensures
        gpt2_encoded_from(input, i, room).len() <= room,
    decreases input.len() - i,
{
    if i < input.len() {
        let u = codepoint_utf8(input[i]);
        if u.len() <= room {
            lemma_encoded_len(input, i + 1, room - u.len());
        }
    }
}

/// Rewrite raw bytes into the GPT-2 form the vocabulary is written in:
/// each byte becomes its code point in UTF-8. Writes what fits into `out`
/// (stopping before the first byte that does not) and returns its length.
pub fn preprocess_gpt2(input: &[u8], out: &mut [u8]) -> (n: usize)
    ensures
        n <= old(out)@.len(),
        final(out)@.len() == old(out)@.len(),
        final(out)@.subrange(0, n as int) == gpt2_encoded(input@, old(out)@.len() as int),
        final(out)@.subrange(n as int, old(out)@.len() as int) == old(out)@.subrange(
            n as int,
            old(out)@.len() as int,
        ),
{
    let ghost cap = out@.len() as int;
    let ghost out0 = out@;
    let mut pos: usize = 0;
    let mut i: usize = 0;
    proof {
        lemma_encoded_len(input@, 0, cap);
    }
    while i < input.len()
        invariant
            cap == out@.len(),
            out0.len() == cap,
            i <= input@.len(),
            pos <= cap,
            out@.subrange(0, pos as int) + gpt2_encoded_from(input@, i as int, cap - pos)
                == gpt2_encoded(input@, cap),
            out@.subrange(pos as int, cap) == out0.subrange(pos as int, cap),
        ensures
            pos <= cap,
            out@.len() == cap,
            out@.subrange(0, pos as int) == gpt2_encoded(input@, cap),
            out@.subrange(pos as int, cap) == out0.subrange(pos as int, cap),
        decreases input@.len() - i,
    {
        let b = input[i];
        let cp = gpt2_byte_to_codepoint(b);
        let ghost before = out@;
        let ghost pos0 = pos as int;
        if cp < 128 {
            if pos >= out.len() {
                assert(gpt2_encoded_from(input@, i as int, cap - pos) == Seq::<u8>::empty());
                break;
            }
            out[pos] = cp as u8;
            assert(out@.subrange(0, pos + 1) == out@.subrange(0, pos as int) + codepoint_utf8(b));
            pos += 1;
        } else {
            if out.len() - pos < 2 {
                assert(gpt2_encoded_from(input@, i as int, cap - pos) == Seq::<u8>::empty());
                break;
            }
            out[pos] = (0xC0 + cp / 64) as u8;
            out[pos + 1] = (0x80 + cp % 64) as u8;
            assert(out@.subrange(0, pos + 2) == out@.subrange(0, pos as int) + codepoint_utf8(b));
            pos += 2;
        }
        assert forall|k: int| pos <= k < cap implies out@[k] == out0[k] by {
            assert(before.subrange(pos0, cap)[k - pos0] == out0.subrange(pos0, cap)[k - pos0]);
        }
        assert(out@.subrange(pos as int, cap) =~= out0.subrange(pos as int, cap));
        i += 1;
    }
    pos
}

/// The code point of the two-byte UTF-8 sequence `b0 b1` (its payload bits).
pub open spec fn utf8_pair_codepoint(b0: u8, b1: u8) -> int {
    (b0 % 32) * 64 + b1 % 64
}

/// The raw byte for a code point read from token bytes: its byte under the
/// mapping, or `?` beyond the table.
pub open spec fn decoded_byte(cp: int) -> u8 {
    if cp < CODEPOINT_TABLE_LEN { codepoint_to_byte(cp) } else { BYTE_QUESTION }
}

/// The raw bytes of the GPT-2 form `t` from position `i` on, at most
/// `room` of them: an ASCII byte stands for one code point, a two-byte
/// UTF-8 sequence for another, and any other byte is undecodable (`?`).
pub open spec fn gpt2_decoded_from(t: Seq<u8>, i: int, room: int) -> Seq<u8>
    decreases t.len() - i,
{
    if i < 0 || i >= t.len() || room <= 0 {
        seq![]
    } else if t[i] < 0x80 {
        seq![codepoint_to_byte(t[i] as int)] + gpt2_decoded_from(t, i + 1, room - 1)
    } else if 0xC0 <= t[i] < 0xE0 && i + 1 < t.len() {
        seq![decoded_byte(utf8_pair_codepoint(t[i], t[i + 1]))] + gpt2_decoded_from(
            t,
            i + 2,
            room - 1,
        )
    } else {
        seq![BYTE_QUESTION] + gpt2_decoded_from(t, i + 1, room - 1)
    }
}

/// The raw bytes of the GPT-2 form `t`, at most `room` of them.
pub open spec fn gpt2_decoded(t: Seq<u8>, room: int) -> Seq<u8> {
    gpt2_decoded_from(t, 0, room)
}

proof fn lemma_decoded_len(t: Seq<u8>, i: int, room: int)
    requires
        0 <= room,
    ensures
        gpt2_decoded_from(t, i, room).len() <= room,
    decreases t.len() - i,
{
    if !(i < 0 || i >= t.len() || room <= 0) {
        if t[i] < 0x80 {
            lemma_decoded_len(t, i + 1, room - 1);
        } else if 0xC0 <= t[i] < 0xE0 && i + 1 < t.len() {
            lemma_decoded_len(t, i + 2, room - 1);
        } else {
            lemma_decoded_len(t, i + 1, room - 1);
        }
    }
}

/// Decode the GPT-2 form of a token into raw bytes, writing at most
/// `out.len()` of them; returns how many were written.
pub fn gpt2_decode_token(token_bytes: &[u8], out: &mut [u8]) -> (n: usize)
    ensures
        n <= old(out)@.len(),
        final(out)@.len() == old(out)@.len(),
        final(out)@.subrange(0, n as int) == gpt2_decoded(token_bytes@, old(out)@.len() as int),
        final(out)@.subrange(n as int, old(out)@.len() as int) == old(out)@.subrange(
            n as int,
            old(out)@.len() as int,
        ),
{
    let ghost cap = out@.len() as int;
    let ghost out0 = out@;
    let t = token_bytes;
    let mut i: usize = 0;
    let mut o: usize = 0;
    proof {
        lemma_decoded_len(t@, 0, cap);
    }
    while i < t.len() && o < out.len()
        invariant
            cap == out@.len(),
            out0.len() == cap,
            i <= t@.len(),
            o <= cap,
            out@.subrange(0, o as int) + gpt2_decoded_from(t@, i as int, cap - o) == gpt2_decoded(
                t@,
                cap,
            ),
            out@.subrange(o as int, cap) == out0.subrange(o as int, cap),
        decreases t@.len() - i,
    {
        let b = t[i];
        let ghost before = out@;
        if b < 0x80 {
            out[o] = gpt2_codepoint_to_byte(b as u16);
            i += 1;
        } else if b >= 0xC0 && b < 0xE0 && i + 1 < t.len() {
            let c = t[i + 1];
            let cp: u16 = ((b as u16 & 0x1F) << 6) | (c as u16 & 0x3F);
            assert(((b as u16 & 0x1F) << 6) | (c as u16 & 0x3F) == (b % 32) * 64 + c % 64)
                by (bit_vector);
            if cp < CODEPOINT_TABLE_LEN {
                out[o] = gpt2_codepoint_to_byte(cp);
            } else {
                out[o] = BYTE_QUESTION;
            }
            i += 2;
        } else {
            out[o] = BYTE_QUESTION;
            i += 1;
        }
        assert(out@.subrange(0, o + 1) == before.subrange(0, o as int).push(out@[o as int]));
        let ghost o0 = o as int;
        o += 1;
        assert forall|k: int| o <= k < cap implies out@[k] == out0[k] by {
            assert(before.subrange(o0, cap)[k - o0] == out0.subrange(o0, cap)[k - o0]);
        }
        assert(out@.subrange(o as int, cap) =~= out0.subrange(o as int, cap));
    }
    proof {
        if o >= cap {
            assert(gpt2_decoded_from(t@, i as int, cap - o) == Seq::<u8>::empty());
        }
    }
    assert(out@.subrange(0, o as int) == gpt2_decoded(t@, cap));
    o
}

proof fn lemma_roundtrip_from(input: Seq<u8>, i: int, room: int)
    requires
        0 <= i <= input.len(),
        room >= input.len() - i,
    ensures
        gpt2_decoded_from(
            gpt2_encoded_from(input, i, 2 * (input.len() - i)),
            0,
            room,
        ) == input.subrange(i, input.len() as int),
    decreases input.len() - i,
{
    if i < input.len() {
        let b = input[i];
        let u = codepoint_utf8(b);
        let enc_room = 2 * (input.len() - i);
        let rest = gpt2_encoded_from(input, i + 1, enc_room - u.len());
        lemma_roundtrip_from(input, i + 1, room - 1);
        lemma_encoded_prefix_room(input, i + 1, enc_room - u.len(), 2 * (input.len() - i - 1));
        let t = u + rest;
        assert(gpt2_encoded_from(input, i, enc_room) == t);
        lemma_decoded_shift(b, rest, room - 1);
        assert(input.subrange(i, input.len() as int) == seq![b] + input.subrange(
            i + 1,
            input.len() as int,
        ));
    } else {
        assert(gpt2_encoded_from(input, i, 0).len() == 0);
    }
}

/// With room for every byte, more room changes nothing.
proof fn lemma_encoded_prefix_room(input: Seq<u8>, i: int, room: int, need: int)
    requires
        0 <= i <= input.len(),
        need == 2 * (input.len() - i),
        room >= need,
    ensures
        gpt2_encoded_from(input, i, room) == gpt2_encoded_from(input, i, need),
    decreases input.len() - i,
{
    if i < input.len() {
        let u = codepoint_utf8(input[i]);
        lemma_encoded_prefix_room(input, i + 1, room - u.len(), 2 * (input.len() - i - 1));
        lemma_encoded_prefix_room(input, i + 1, need - u.len(), 2 * (input.len() - i - 1));
    }
}

/// Decoding the code point of one byte, followed by anything, gives the
/// byte back and then the decoding of what follows.
proof fn lemma_decoded_shift(b: u8, rest: Seq<u8>, room: int)
    requires
        room >= 0,
    ensures
        gpt2_decoded_from(codepoint_utf8(b) + rest, 0, room + 1) == seq![b] + gpt2_decoded_from(
            rest,
            0,
            room,
        ),
{
    let u = codepoint_utf8(b);
    let t = u + rest;
    assert(t.subrange(u.len() as int, t.len() as int) == rest);
    lemma_decoded_suffix(t, u.len() as int, rest, room);
    let cp = byte_to_codepoint(b);
    if cp >= 128 {
        assert((0xC0 + cp / 64) as u8 % 32 == cp / 64) by (nonlinear_arith)
            requires
                128 <= cp < 324,
        ;
        assert(utf8_pair_codepoint(t[0], t[1]) == cp);
    }
}

/// Decoding `t` from position `k`, where `t` is `rest` preceded by `k`
/// bytes, is decoding `rest`.
proof fn lemma_decoded_suffix(t: Seq<u8>, k: int, rest: Seq<u8>, room: int)
    requires
        0 <= k <= t.len(),
        rest == t.subrange(k, t.len() as int),
    ensures
        gpt2_decoded_from(t, k, room) == gpt2_decoded_from(rest, 0, room),
{
    lemma_decoded_suffix_at(t, k, rest, 0, room);
}

proof fn lemma_decoded_suffix_at(t: Seq<u8>, k: int, rest: Seq<u8>, j: int, room: int)
    requires
        0 <= k <= t.len(),
        0 <= j,
        rest == t.subrange(k, t.len() as int),
    ensures
        gpt2_decoded_from(t, k + j, room) == gpt2_decoded_from(rest, j, room),
    decreases rest.len() - j,
{
    if j < rest.len() && room > 0 {
        lemma_decoded_suffix_at(t, k, rest, j + 1, room - 1);
        if j + 2 <= rest.len() {
            lemma_decoded_suffix_at(t, k, rest, j + 2, room - 1);
        }
    }
}

/// Decoding undoes encoding: the GPT-2 form of any byte string, written
/// with room for two bytes per byte and decoded with room for one byte per
/// byte (or more, either way), decodes back to the byte string.
pub proof fn lemma_gpt2_roundtrip(input: Seq<u8>, enc_room: int, dec_room: int)
    requires
        enc_room >= 2 * input.len(),
        dec_room >= input.len(),
    ensures
        gpt2_decoded(gpt2_encoded(input, enc_room), dec_room) == input,
{
    lemma_encoded_prefix_room(input, 0, enc_room, 2 * input.len() as int);
    lemma_roundtrip_from(input, 0, dec_room);
    assert(input.subrange(0, input.len() as int) == input);
}

// ---------------------------------------------------------------------------
// Token records
// ---------------------------------------------------------------------------

/// A little-endian `u16` at `off`.
pub open spec fn le_u16_value(b: Seq<u8>, off: int) -> int {
    b[off] as int + b[off + 1] as int * 256
}

/// Whether the token record at `off` lies inside the blob: a 4-byte score,
/// a 2-byte length and that many bytes of GPT-2 text.
pub open spec fn record_fits(data: Seq<u8>, off: int) -> bool {
    &&& 0 <= off
    &&& off + 6 <= data.len()
    &&& off + 6 + le_u16_value(data, off + 4) <= data.len()
}

/// Whether every token's record lies inside the blob.
pub open spec fn vocab_fits(data: Seq<u8>, offsets: Seq<u32>) -> bool {
    forall|i: int| 0 <= i < offsets.len() ==> record_fits(data, #[trigger] offsets[i] as int)
}

/// The GPT-2 text of token `id`.
pub open spec fn token_bytes(data: Seq<u8>, offsets: Seq<u32>, id: int) -> Seq<u8> {
    let off = offsets[id] as int;
    data.subrange(off + 6, off + 6 + le_u16_value(data, off + 4))
}

/// The BPE merge score of token `id`.
pub open spec fn token_score(data: Seq<u8>, offsets: Seq<u32>, id: int) -> int {
    crate::math::le_i32_value(data, offsets[id] as int)
}

/// The GPT-2 text of a token, read from its record.
pub fn decode_token_bytes<'a>(data: &'a [u8], tok_offsets: &[u32], token_id: usize) -> (r: &'a [u8])
    requires
        token_id < tok_offsets@.len(),
        record_fits(data@, tok_offsets@[token_id as int] as int),
    ensures
        r@ == token_bytes(data@, tok_offsets@, token_id as int),
{
    let off = tok_offsets[token_id] as usize;
    assert(off as int == tok_offsets@[token_id as int] as int);
    let n = data.len();
    assert(off + 6 <= n);
    let len = data[off + 4] as usize + data[off + 5] as usize * 256;
    &data[off + 6..off + 6 + len]
}

/// The BPE merge score of a token, read from its record.
pub fn get_token_score(data: &[u8], tok_offsets: &[u32], token_id: usize) -> (score: i32)
    requires
        token_id < tok_offsets@.len(),
        tok_offsets@[token_id as int] + 4 <= data@.len(),
    ensures
        score == token_score(data@, tok_offsets@, token_id as int),
{
    crate::math::read_le_i32(data, tok_offsets[token_id] as usize)
}

// ---------------------------------------------------------------------------
// Lexicographic order of byte strings
// ---------------------------------------------------------------------------

/// The result of comparing two byte strings.
#[derive(PartialEq, Eq, Structural, Clone, Copy, Debug)]
pub enum ByteOrder {
    Less,
    Equal,
    Greater,
}

/// Lexicographic order of byte strings (a proper prefix comes first).
pub open spec fn lex_order(a: Seq<u8>, b: Seq<u8>) -> ByteOrder
    decreases a.len(),
{
    if a.len() == 0 {
        if b.len() == 0 { ByteOrder::Equal } else { ByteOrder::Less }
    } else if b.len() == 0 {
        ByteOrder::Greater
    } else if a[0] < b[0] {
        ByteOrder::Less
    } else if a[0] > b[0] {
        ByteOrder::Greater
    } else {
        lex_order(a.drop_first(), b.drop_first())
    }
}

/// `a` comes no later than `b`.
pub open spec fn lex_le(a: Seq<u8>, b: Seq<u8>) -> bool {
    lex_order(a, b) != ByteOrder::Greater
}

/// Comparing the other way round gives the opposite answer, and only
/// equal strings compare equal.
pub proof fn lemma_lex_converse(a: Seq<u8>, b: Seq<u8>)
    ensures
        lex_order(a, b) == ByteOrder::Less <==> lex_order(b, a) == ByteOrder::Greater,
        lex_order(a, b) == ByteOrder::Equal <==> a == b,
    decreases a.len(),
{
    if a.len() > 0 && b.len() > 0 && a[0] == b[0] {
        lemma_lex_converse(a.drop_first(), b.drop_first());
        if a.drop_first() == b.drop_first() {
            assert(a == seq![a[0]] + a.drop_first());
            assert(b == seq![b[0]] + b.drop_first());
        }
        if a == b {
            assert(a.drop_first() == b.drop_first());
        }
    } else if a.len() == 0 && b.len() == 0 {
        assert(a == b);
    }
}

/// The order is transitive.
pub proof fn lemma_lex_trans(a: Seq<u8>, b: Seq<u8>, c: Seq<u8>)
    requires
        lex_le(a, b),
        lex_le(b, c),
    ensures
        lex_le(a, c),
        lex_order(a, b) == ByteOrder::Less || lex_order(b, c) == ByteOrder::Less ==> lex_order(a, c)
            == ByteOrder::Less,
    decreases a.len(),
{
    if a.len() > 0 && b.len() > 0 && c.len() > 0 && a[0] == b[0] && b[0] == c[0] {
        lemma_lex_trans(a.drop_first(), b.drop_first(), c.drop_first());
    }
}

/// Compare two byte strings lexicographically.
pub fn compare_bytes(a: &[u8], b: &[u8]) -> (o: ByteOrder)
    ensures
        o == lex_order(a@, b@),
{
    let mut i: usize = 0;
    assert(a@.skip(0) == a@);
    assert(b@.skip(0) == b@);
    while i < a.len() && i < b.len()
        invariant
            i <= a@.len(),
            i <= b@.len(),
            lex_order(a@, b@) == lex_order(a@.skip(i as int), b@.skip(i as int)),
        decreases a@.len() - i,
    {
        assert(a@.skip(i as int)[0] == a@[i as int]);
        assert(b@.skip(i as int)[0] == b@[i as int]);
        if a[i] < b[i] {
            return ByteOrder::Less;
        }
        if a[i] > b[i] {
            return ByteOrder::Greater;
        }
        assert(a@.skip(i as int).drop_first() == a@.skip(i + 1));
        assert(b@.skip(i as int).drop_first() == b@.skip(i + 1));
        i += 1;
    }
    if a.len() == b.len() {
        ByteOrder::Equal
    } else if a.len() < b.len() {
        ByteOrder::Less
    } else {
        ByteOrder::Greater
    }
}

// ---------------------------------------------------------------------------
// The sorted vocabulary index
// ---------------------------------------------------------------------------

/// The largest vocabulary a model may have.
pub const MODEL_MAX_VOCAB: usize = 65536;

/// Token `x`'s text comes no later than token `y`'s.
pub open spec fn token_le(data: Seq<u8>, offsets: Seq<u32>, x: u32, y: u32) -> bool {
    lex_le(token_bytes(data, offsets, x as int), token_bytes(data, offsets, y as int))
}

/// Every id in `a` names a token of a vocabulary of `n` tokens.
pub open spec fn ids_below(a: Seq<u32>, n: int) -> bool {
    forall|i: int| 0 <= i < a.len() ==> #[trigger] a[i] < n
}

/// The ids of `a` are in the order of their tokens' text.
pub open spec fn sorted_by_text(data: Seq<u8>, offsets: Seq<u32>, a: Seq<u32>) -> bool {
    forall|i: int, k: int| 0 <= i < k < a.len() ==> token_le(data, offsets, #[trigger] a[i], #[trigger] a[k])
}

/// Node `j` of the heap held in `a[..end]` comes no earlier than its children.
pub open spec fn node_ok(data: Seq<u8>, offsets: Seq<u32>, a: Seq<u32>, j: int, end: int) -> bool {
    &&& (2 * j + 1 < end ==> token_le(data, offsets, a[2 * j + 1], a[j]))
    &&& (2 * j + 2 < end ==> token_le(data, offsets, a[2 * j + 2], a[j]))
}

/// Every node of `a[..end]` from `lo` on is ordered with its children.
pub open spec fn is_heap(data: Seq<u8>, offsets: Seq<u32>, a: Seq<u32>, lo: int, end: int) -> bool {
    forall|j: int| lo <= j < end ==> #[trigger] node_ok(data, offsets, a, j, end)
}

/// Every id of `a[lo..end]` comes no later than every id from `end` on.
pub open spec fn below_suffix(data: Seq<u8>, offsets: Seq<u32>, a: Seq<u32>, lo: int, end: int) -> bool {
    forall|i: int, k: int|
        lo <= i < end <= k < a.len() ==> token_le(data, offsets, #[trigger] a[i], #[trigger] a[k])
}

/// The ids from `end` on are in order.
pub open spec fn sorted_from(data: Seq<u8>, offsets: Seq<u32>, a: Seq<u32>, end: int) -> bool {
    forall|i: int, k: int|
        end <= i < k < a.len() ==> token_le(data, offsets, #[trigger] a[i], #[trigger] a[k])
}

proof fn lemma_token_le_facts(data: Seq<u8>, offsets: Seq<u32>, x: u32, y: u32, z: u32)
    ensures
        token_le(data, offsets, x, x),
        !token_le(data, offsets, x, y) ==> token_le(data, offsets, y, x),
        token_le(data, offsets, x, y) && token_le(data, offsets, y, z) ==> token_le(
            data,
            offsets,
            x,
            z,
        ),
{
    let bx = token_bytes(data, offsets, x as int);
    let by = token_bytes(data, offsets, y as int);
    let bz = token_bytes(data, offsets, z as int);
    lemma_lex_converse(bx, bx);
    lemma_lex_converse(bx, by);
    if lex_le(bx, by) && lex_le(by, bz) {
        lemma_lex_trans(bx, by, bz);
    }
}

proof fn lemma_swap_multiset(s: Seq<u32>, i: int, j: int)
    requires
        0 <= i < s.len(),
        0 <= j < s.len(),
    ensures
        s.update(i, s[j]).update(j, s[i]).to_multiset() == s.to_multiset(),
{
    broadcast use vstd::seq_lib::to_multiset_update, vstd::multiset::group_multiset_axioms;

    if i == j {
        assert(s.update(i, s[j]).update(j, s[i]) =~= s);
    } else {
        let m = s.to_multiset();
        let s1 = s.update(i, s[j]);
        assert(s1[j] == s[j]);
        let m1 = m.insert(s[j]).remove(s[i]);
        assert(s1.to_multiset() == m1);
        let m2 = m1.insert(s[i]).remove(s[j]);
        assert(s1.update(j, s[i]).to_multiset() == m2);
        assert(m.count(s[i]) > 0) by {
            vstd::seq_lib::to_multiset_contains(s, s[i]);
        }
        assert forall|v: u32| m2.count(v) == m.count(v) by {
        }
        assert(m2 =~= m);
    }
}

fn swap_ids(arr: &mut Vec<u32>, i: usize, j: usize)
    requires
        i < old(arr)@.len(),
        j < old(arr)@.len(),
    ensures
        final(arr)@ == old(arr)@.update(i as int, old(arr)@[j as int]).update(
            j as int,
            old(arr)@[i as int],
        ),
        final(arr)@.to_multiset() == old(arr)@.to_multiset(),
{
    proof {
        lemma_swap_multiset(arr@, i as int, j as int);
    }
    let t = arr[i];
    let u = arr[j];
    arr.set(i, u);
    arr.set(j, t);
}

/// The heap's root comes no earlier than any of its nodes.
proof fn lemma_heap_max(data: Seq<u8>, offsets: Seq<u32>, a: Seq<u32>, end: int, i: int)
    requires
        is_heap(data, offsets, a, 0, end),
        0 <= i < end <= a.len(),
    ensures
        token_le(data, offsets, a[i], a[0]),
    decreases i,
{
    if i == 0 {
        lemma_token_le_facts(data, offsets, a[0], a[0], a[0]);
    } else {
        let p = (i - 1) / 2;
        assert(node_ok(data, offsets, a, p, end));
        lemma_heap_max(data, offsets, a, end, p);
        lemma_token_le_facts(data, offsets, a[i], a[p], a[0]);
    }
}

/// Whether `a` is a vocabulary index that the sort can work on.
pub open spec fn index_ok(data: Seq<u8>, offsets: Seq<u32>, a: Seq<u32>) -> bool {
    &&& vocab_fits(data, offsets)
    &&& ids_below(a, offsets.len() as int)
    &&& a.len() <= MODEL_MAX_VOCAB
}

/// Moves the id at `start` down the heap `arr[..end]` until it is no
/// smaller than its children; the rest of the heap from `start + 1` on is
/// in heap order already.
fn heapsort_sift_down(arr: &mut Vec<u32>, data: &[u8], tok_offsets: &[u32], start: usize, end: usize)
    requires
        start < end <= old(arr)@.len(),
        index_ok(data@, tok_offsets@, old(arr)@),
        is_heap(data@, tok_offsets@, old(arr)@, start + 1, end as int),
        below_suffix(data@, tok_offsets@, old(arr)@, start as int, end as int),
    ensures
        final(arr)@.len() == old(arr)@.len(),
        index_ok(data@, tok_offsets@, final(arr)@),
        final(arr)@.to_multiset() == old(arr)@.to_multiset(),
        forall|k: int| 0 <= k < old(arr)@.len() && !(start <= k < end) ==> final(arr)@[k] == old(
            arr,
        )@[k],
        is_heap(data@, tok_offsets@, final(arr)@, start as int, end as int),
        below_suffix(data@, tok_offsets@, final(arr)@, start as int, end as int),
{
    let ghost d = data@;
    let ghost o = tok_offsets@;
    let ghost a0 = arr@;
    let mut root = start;
    loop
        invariant
            start <= root < end <= arr@.len(),
            arr@.len() == a0.len(),
            index_ok(d, o, arr@),
            d == data@,
            o == tok_offsets@,
            arr@.to_multiset() == a0.to_multiset(),
            forall|k: int| 0 <= k < a0.len() && !(start <= k < end) ==> arr@[k] == a0[k],
            below_suffix(d, o, arr@, start as int, end as int),
            forall|j: int|
                start <= j < end && j != root ==> #[trigger] node_ok(d, o, arr@, j, end as int),
            root > start ==> start <= (root - 1) / 2,
            root > start ==> (2 * root + 1 < end ==> token_le(
                d,
                o,
                arr@[2 * root + 1],
                arr@[(root - 1) / 2],
            )),
            root > start ==> (2 * root + 2 < end ==> token_le(
                d,
                o,
                arr@[2 * root + 2],
                arr@[(root - 1) / 2],
            )),
        ensures
            arr@.len() == a0.len(),
            index_ok(d, o, arr@),
            arr@.to_multiset() == a0.to_multiset(),
            forall|k: int| 0 <= k < a0.len() && !(start <= k < end) ==> arr@[k] == a0[k],
            below_suffix(d, o, arr@, start as int, end as int),
            is_heap(d, o, arr@, start as int, end as int),
        decreases end - root,
    {
        let left = 2 * root + 1;
        if left >= end {
            assert(node_ok(d, o, arr@, root as int, end as int));
            break;
        }
        let right = left + 1;
        let mut largest = root;
        let ghost a = arr@;
        let bl = decode_token_bytes(data, tok_offsets, arr[left] as usize);
        let br = decode_token_bytes(data, tok_offsets, arr[largest] as usize);
        if compare_bytes(bl, br) == ByteOrder::Greater {
            largest = left;
        }
        if right < end {
            let bright = decode_token_bytes(data, tok_offsets, arr[right] as usize);
            let blargest = decode_token_bytes(data, tok_offsets, arr[largest] as usize);
            if compare_bytes(bright, blargest) == ByteOrder::Greater {
                largest = right;
            }
        }
        proof {
            let r = root as int;
            let m = largest as int;
            lemma_token_le_facts(d, o, a[left as int], a[r], a[right as int]);
            lemma_token_le_facts(d, o, a[right as int], a[r], a[left as int]);
            lemma_token_le_facts(d, o, a[r], a[left as int], a[right as int]);
            lemma_token_le_facts(d, o, a[left as int], a[right as int], a[r]);
            lemma_token_le_facts(d, o, a[right as int], a[left as int], a[r]);
            lemma_token_le_facts(d, o, a[r], a[right as int], a[left as int]);
            assert(token_le(d, o, a[r], a[m]));
            assert(token_le(d, o, a[left as int], a[m]));
            assert(right < end ==> token_le(d, o, a[right as int], a[m]));
        }
        if largest == root {
            assert(node_ok(d, o, arr@, root as int, end as int));
            break;
        }
        swap_ids(arr, root, largest);
        proof {
            let b = arr@;
            let r = root as int;
            let m = largest as int;
            assert(b[r] == a[m] && b[m] == a[r]);
            assert forall|k: int| 0 <= k < a0.len() && !(start <= k < end) implies b[k] == a0[k] by {
                assert(b[k] == a[k]);
            }
            assert forall|i: int| 0 <= i < b.len() implies #[trigger] b[i] < o.len() by {
                if i != r && i != m {
                    assert(b[i] == a[i]);
                }
            }
            assert forall|i: int, k: int| start <= i < end <= k < b.len() implies token_le(
                d,
                o,
                #[trigger] b[i],
                #[trigger] b[k],
            ) by {
                assert(b[k] == a[k]);
                if i == r {
                    assert(token_le(d, o, a[m], a[k]));
                } else if i == m {
                    assert(token_le(d, o, a[r], a[k]));
                } else {
                    assert(b[i] == a[i]);
                    assert(token_le(d, o, a[i], a[k]));
                }
            }
            assert forall|j: int| start <= j < end && j != m implies #[trigger] node_ok(
                d,
                o,
                b,
                j,
                end as int,
            ) by {
                if j == r {
                } else if r > start && j == (r - 1) / 2 {
                    assert(node_ok(d, o, a, j, end as int));
                    assert(b[j] == a[j]);
                    if 2 * j + 1 != r && 2 * j + 1 < end {
                        assert(b[2 * j + 1] == a[2 * j + 1]);
                    }
                    if 2 * j + 2 != r && 2 * j + 2 < end {
                        assert(b[2 * j + 2] == a[2 * j + 2]);
                    }
                } else {
                    assert(node_ok(d, o, a, j, end as int));
                    assert(b[j] == a[j]);
                    if 2 * j + 1 < end {
                        assert(b[2 * j + 1] == a[2 * j + 1]);
                    }
                    if 2 * j + 2 < end {
                        assert(b[2 * j + 2] == a[2 * j + 2]);
                    }
                }
            }
            assert(node_ok(d, o, a, m, end as int));
            if 2 * m + 1 < end {
                assert(b[2 * m + 1] == a[2 * m + 1]);
            }
            if 2 * m + 2 < end {
                assert(b[2 * m + 2] == a[2 * m + 2]);
            }
        }
        root = largest;
    }
}

/// Sorts vocabulary ids by their tokens' text, with heapsort.
fn heapsort_vocab(arr: &mut Vec<u32>, data: &[u8], tok_offsets: &[u32])
    requires
        index_ok(data@, tok_offsets@, old(arr)@),
    ensures
        index_ok(data@, tok_offsets@, final(arr)@),
        final(arr)@.to_multiset() == old(arr)@.to_multiset(),
        sorted_by_text(data@, tok_offsets@, final(arr)@),
{
    let ghost d = data@;
    let ghost o = tok_offsets@;
    let ghost a0 = arr@;
    let n = arr.len();
    if n <= 1 {
        return;
    }
    let mut i = n / 2;
    while i > 0
        invariant
            n == arr@.len(),
            n == a0.len(),
            i <= n / 2,
            index_ok(d, o, arr@),
            d == data@,
            o == tok_offsets@,
            arr@.to_multiset() == a0.to_multiset(),
            is_heap(d, o, arr@, i as int, n as int),
        decreases i,
    {
        i -= 1;
        proof {
            assert(below_suffix(d, o, arr@, i as int, n as int));
        }
        heapsort_sift_down(arr, data, tok_offsets, i, n);
    }
    let mut end = n;
    while end > 1
        invariant
            n == arr@.len(),
            n == a0.len(),
            1 <= end <= n,
            index_ok(d, o, arr@),
            d == data@,
            o == tok_offsets@,
            arr@.to_multiset() == a0.to_multiset(),
            is_heap(d, o, arr@, 0, end as int),
            below_suffix(d, o, arr@, 0, end as int),
            sorted_from(d, o, arr@, end as int),
        decreases end,
    {
        let ghost a = arr@;
        end -= 1;
        swap_ids(arr, 0, end);
        proof {
            let b = arr@;
            let e = end as int;
            assert forall|x: int| 0 <= x <= e implies token_le(d, o, #[trigger] a[x], a[0]) by {
                lemma_heap_max(d, o, a, e + 1, x);
            }
            assert forall|x: int| 0 <= x < b.len() implies #[trigger] b[x] < o.len() by {
                if x != 0 && x != e {
                    assert(b[x] == a[x]);
                }
            }
            assert forall|j: int| 1 <= j < e implies #[trigger] node_ok(d, o, b, j, e) by {
                assert(node_ok(d, o, a, j, e + 1));
                assert(b[j] == a[j]);
                if 2 * j + 1 < e {
                    assert(b[2 * j + 1] == a[2 * j + 1]);
                }
                if 2 * j + 2 < e {
                    assert(b[2 * j + 2] == a[2 * j + 2]);
                }
            }
            assert forall|x: int, k: int| 0 <= x < e <= k < b.len() implies token_le(
                d,
                o,
                #[trigger] b[x],
                #[trigger] b[k],
            ) by {
                if k == e {
                    if x == 0 {
                        assert(token_le(d, o, a[e], a[0]));
                    } else {
                        assert(b[x] == a[x]);
                        assert(token_le(d, o, a[x], a[0]));
                    }
                } else {
                    assert(b[k] == a[k]);
                    if x == 0 {
                        assert(token_le(d, o, a[e], a[k]));
                    } else {
                        assert(b[x] == a[x]);
                        assert(token_le(d, o, a[x], a[k]));
                    }
                }
            }
            assert forall|x: int, k: int| e <= x < k < b.len() implies token_le(
                d,
                o,
                #[trigger] b[x],
                #[trigger] b[k],
            ) by {
                assert(b[k] == a[k]);
                if x == e {
                    assert(token_le(d, o, a[0], a[k]));
                } else {
                    assert(b[x] == a[x]);
                }
            }
        }
        let ghost b = arr@;
        heapsort_sift_down(arr, data, tok_offsets, 0, end);
        proof {
            let c = arr@;
            assert forall|x: int, k: int| end <= x < k < c.len() implies token_le(
                d,
                o,
                #[trigger] c[x],
                #[trigger] c[k],
            ) by {
                assert(c[x] == b[x]);
                assert(c[k] == b[k]);
            }
        }
    }
    proof {
        let c = arr@;
        assert forall|x: int, k: int| 0 <= x < k < c.len() implies token_le(
            d,
            o,
            #[trigger] c[x],
            #[trigger] c[k],
        ) by {
            if x == 0 {
                assert(below_suffix(d, o, c, 0, 1));
            }
        }
    }
}

/// Some id of the index names a token whose text is `query`.
pub open spec fn index_has_text(data: Seq<u8>, offsets: Seq<u32>, sorted: Seq<u32>, query: Seq<u8>) -> bool {
    exists|k: int| 0 <= k < sorted.len() && token_bytes(data, offsets, #[trigger] sorted[k] as int) == query
}

/// Binary search of `sorted[lo..hi]` for `query`: the id it stops at.
pub open spec fn search_from(
    data: Seq<u8>,
    offsets: Seq<u32>,
    sorted: Seq<u32>,
    query: Seq<u8>,
    lo: int,
    hi: int,
) -> Option<u32>
    decreases hi - lo,
{
    if lo < 0 || hi > sorted.len() || lo >= hi {
        None
    } else {
        let mid = lo + (hi - lo) / 2;
        let mid_id = sorted[mid];
        match lex_order(query, token_bytes(data, offsets, mid_id as int)) {
            ByteOrder::Equal => Some(mid_id),
            ByteOrder::Less => search_from(data, offsets, sorted, query, lo, mid),
            ByteOrder::Greater => search_from(data, offsets, sorted, query, mid + 1, hi),
        }
    }
}

/// The token binary search of the whole index finds for `query`.
pub open spec fn lookup(data: Seq<u8>, offsets: Seq<u32>, sorted: Seq<u32>, query: Seq<u8>) -> Option<u32> {
    search_from(data, offsets, sorted, query, 0, sorted.len() as int)
}

/// Binary search of the sorted index for a token whose text is `query`.
pub fn find_token_by_bytes(data: &[u8], tok_offsets: &[u32], sorted: &[u32], query: &[u8]) -> (r:
    Option<u32>)
    requires
        index_ok(data@, tok_offsets@, sorted@),
        sorted_by_text(data@, tok_offsets@, sorted@),
    ensures
        r is Some <==> index_has_text(data@, tok_offsets@, sorted@, query@),
        r matches Some(id) ==> sorted@.contains(id) && token_bytes(data@, tok_offsets@, id as int)
            == query@,
        r == lookup(data@, tok_offsets@, sorted@, query@),
{
    let ghost d = data@;
    let ghost o = tok_offsets@;
    let ghost q = query@;
    let mut lo: usize = 0;
    let mut hi: usize = sorted.len();
    while lo < hi
        invariant
            lo <= hi <= sorted@.len(),
            index_ok(d, o, sorted@),
            sorted_by_text(d, o, sorted@),
            d == data@,
            o == tok_offsets@,
            q == query@,
            lookup(d, o, sorted@, q) == search_from(d, o, sorted@, q, lo as int, hi as int),
            forall|k: int|
                0 <= k < lo ==> lex_order(token_bytes(d, o, #[trigger] sorted@[k] as int), q)
                    == ByteOrder::Less,
            forall|k: int|
                hi <= k < sorted@.len() ==> lex_order(q, token_bytes(d, o, #[trigger] sorted@[k] as int))
                    == ByteOrder::Less,
        decreases hi - lo,
    {
        let mid = lo + (hi - lo) / 2;
        let mid_id = sorted[mid];
        let mid_bytes = decode_token_bytes(data, tok_offsets, mid_id as usize);
        let ghost m = token_bytes(d, o, mid_id as int);
        match compare_bytes(query, mid_bytes) {
            ByteOrder::Equal => {
                proof {
                    lemma_lex_converse(q, m);
                }
                return Some(mid_id);
            },
            ByteOrder::Less => {
                proof {
                    assert forall|k: int| mid <= k < sorted@.len() implies lex_order(
                        q,
                        token_bytes(d, o, #[trigger] sorted@[k] as int),
                    ) == ByteOrder::Less by {
                        let t = token_bytes(d, o, sorted@[k] as int);
                        if k > mid {
                            assert(token_le(d, o, sorted@[mid as int], sorted@[k]));
                            lemma_lex_converse(q, m);
                            lemma_lex_trans(q, m, t);
                        }
                    }
                }
                hi = mid;
            },
            ByteOrder::Greater => {
                proof {
                    lemma_lex_converse(m, q);
                    assert forall|k: int| 0 <= k <= mid implies lex_order(
                        token_bytes(d, o, #[trigger] sorted@[k] as int),
                        q,
                    ) == ByteOrder::Less by {
                        let t = token_bytes(d, o, sorted@[k] as int);
                        if k < mid {
                            assert(token_le(d, o, sorted@[k], sorted@[mid as int]));
                            lemma_lex_trans(t, m, q);
                        }
                    }
                }
                lo = mid + 1;
            },
        }
    }
    proof {
        if index_has_text(d, o, sorted@, q) {
            let k = choose|k: int| 0 <= k < sorted@.len() && token_bytes(d, o, #[trigger] sorted@[k] as int) == q;
            lemma_lex_converse(q, q);
            if k < lo {
                assert(lex_order(token_bytes(d, o, sorted@[k] as int), q) == ByteOrder::Less);
            } else {
                assert(lex_order(q, token_bytes(d, o, sorted@[k] as int)) == ByteOrder::Less);
            }
        }
    }
    None
}

proof fn lemma_search_from(d: Seq<u8>, o: Seq<u32>, sorted: Seq<u32>, q: Seq<u8>, lo: int, hi: int)
    requires
        sorted_by_text(d, o, sorted),
        0 <= lo <= hi <= sorted.len(),
        forall|k: int| 0 <= k < lo ==> lex_order(token_bytes(d, o, #[trigger] sorted[k] as int), q) == ByteOrder::Less,
        forall|k: int| hi <= k < sorted.len() ==> lex_order(q, token_bytes(d, o, #[trigger] sorted[k] as int)) == ByteOrder::Less,
    ensures
        search_from(d, o, sorted, q, lo, hi) is Some <==> index_has_text(d, o, sorted, q),
        search_from(d, o, sorted, q, lo, hi) matches Some(id) ==> token_bytes(d, o, id as int) == q,
    decreases hi - lo,
{
    if lo >= hi {
        if index_has_text(d, o, sorted, q) {
            let k = choose|k: int| 0 <= k < sorted.len() && token_bytes(d, o, #[trigger] sorted[k] as int) == q;
            lemma_lex_converse(q, q);
            if k < lo {
                assert(lex_order(token_bytes(d, o, sorted[k] as int), q) == ByteOrder::Less);
            } else {
                assert(lex_order(q, token_bytes(d, o, sorted[k] as int)) == ByteOrder::Less);
            }
        }
    } else {
        let mid = lo + (hi - lo) / 2;
        let m = token_bytes(d, o, sorted[mid] as int);
        lemma_lex_converse(q, m);
        match lex_order(q, m) {
            ByteOrder::Equal => {
                assert(token_bytes(d, o, sorted[mid] as int) == q);
            },
            ByteOrder::Less => {
                assert forall|k: int| mid <= k < sorted.len() implies lex_order(
                    q,
                    token_bytes(d, o, #[trigger] sorted[k] as int),
                ) == ByteOrder::Less by {
                    if k > mid {
                        assert(token_le(d, o, sorted[mid], sorted[k]));
                        lemma_lex_trans(q, m, token_bytes(d, o, sorted[k] as int));
                    }
                }
                lemma_search_from(d, o, sorted, q, lo, mid);
            },
            ByteOrder::Greater => {
                lemma_lex_converse(m, q);
                assert forall|k: int| 0 <= k <= mid implies lex_order(
                    token_bytes(d, o, #[trigger] sorted[k] as int),
                    q,
                ) == ByteOrder::Less by {
                    if k < mid {
                        assert(token_le(d, o, sorted[k], sorted[mid]));
                        lemma_lex_trans(token_bytes(d, o, sorted[k] as int), m, q);
                    }
                }
                lemma_search_from(d, o, sorted, q, mid + 1, hi);
            },
        }
    }
}

/// The index of a built tokenizer is complete: looking up the text of any
/// token of the vocabulary finds a token with that text.
pub proof fn lemma_every_token_found(d: Seq<u8>, o: Seq<u32>, t: Tokenizer, id: int)
    requires
        tokenizer_ok(d, o, t),
        0 <= id < o.len(),
    ensures
        lookup(d, o, t.sorted@, token_bytes(d, o, id)) matches Some(found) && token_bytes(d, o, found as int)
            == token_bytes(d, o, id),
{
    let ids = Seq::new(o.len(), |i: int| i as u32);
    let q = token_bytes(d, o, id);
    assert(ids[id] == id as u32);
    assert(ids.contains(id as u32));
    ids.to_multiset_ensures();
    t.sorted@.to_multiset_ensures();
    assert(ids.to_multiset().count(id as u32) > 0);
    assert(t.sorted@.contains(id as u32));
    let k = choose|k: int| 0 <= k < t.sorted@.len() && t.sorted@[k] == id as u32;
    assert(token_bytes(d, o, t.sorted@[k] as int) == q);
    assert(index_has_text(d, o, t.sorted@, q));
    lemma_search_from(d, o, t.sorted@, q, 0, t.sorted@.len() as int);
}

/// The token that stands for the raw byte `b`: one whose text is the byte's
/// GPT-2 code point when the vocabulary has one, end-of-text otherwise.
pub open spec fn byte_token_ok(data: Seq<u8>, offsets: Seq<u32>, sorted: Seq<u32>, b: u8, tid: u32) -> bool {
    if index_has_text(data, offsets, sorted, codepoint_utf8(b)) {
        sorted.contains(tid) && token_bytes(data, offsets, tid as int) == codepoint_utf8(b)
    } else {
        tid == TOKEN_ENDOFTEXT
    }
}

/// The end-of-text token.
pub const TOKEN_ENDOFTEXT: u32 = 0;

/// The token that opens a chat turn.
pub const TOKEN_IM_START: u32 = 1;

/// The token that closes a chat turn.
pub const TOKEN_IM_END: u32 = 2;

/// The lookup structures the tokenizer builds from a model's vocabulary.
pub struct Tokenizer {
    /// Every token id once, in the order of the tokens' text.
    pub sorted: Vec<u32>,
    /// For each raw byte, the token that stands for it.
    pub byte_to_token: Vec<u32>,
}

/// Whether `t` is the tokenizer of the vocabulary of `n` tokens whose
/// records lie in `data` at `offsets`.
pub open spec fn tokenizer_ok(data: Seq<u8>, offsets: Seq<u32>, t: Tokenizer) -> bool {
    &&& index_ok(data, offsets, t.sorted@)
    &&& sorted_by_text(data, offsets, t.sorted@)
    &&& t.sorted@.to_multiset() == Seq::new(offsets.len(), |i: int| i as u32).to_multiset()
    &&& t.byte_to_token@.len() == 256
    &&& forall|b: u8| byte_token_ok(data, offsets, t.sorted@, b, #[trigger] t.byte_to_token@[b as int])
}

fn codepoint_utf8_exec(b: u8) -> (u: Vec<u8>)
    ensures
        u@ == codepoint_utf8(b),
{
    let cp = gpt2_byte_to_codepoint(b);
    let mut u: Vec<u8> = Vec::new();
    if cp < 128 {
        u.push(cp as u8);
    } else {
        u.push((0xC0 + cp / 64) as u8);
        u.push((0x80 + cp % 64) as u8);
    }
    u
}

/// Build the sorted vocabulary index (every token id, ordered by text) and
/// the table of the token for each raw byte.
pub fn build_sorted_vocab(data: &[u8], tok_offsets: &[u32]) -> (t: Tokenizer)
    requires
        vocab_fits(data@, tok_offsets@),
        tok_offsets@.len() <= MODEL_MAX_VOCAB,
    ensures
        tokenizer_ok(data@, tok_offsets@, t),
{
    let vocab_size = tok_offsets.len();
    let mut sorted: Vec<u32> = Vec::new();
    for i in 0..vocab_size
        invariant
            vocab_size == tok_offsets@.len(),
            vocab_size <= MODEL_MAX_VOCAB,
            sorted@ == Seq::new(i as nat, |k: int| k as u32),
    {
        sorted.push(i as u32);
        assert(sorted@ =~= Seq::new((i + 1) as nat, |k: int| k as u32));
    }
    assert(sorted@ == Seq::new(tok_offsets@.len(), |k: int| k as u32));
    let ghost identity = sorted@;
    heapsort_vocab(&mut sorted, data, tok_offsets);
    let mut byte_to_token: Vec<u32> = Vec::new();
    for b in 0..256u16
        invariant
            index_ok(data@, tok_offsets@, sorted@),
            sorted_by_text(data@, tok_offsets@, sorted@),
            byte_to_token@.len() == b,
            forall|c: int|
                0 <= c < b ==> byte_token_ok(data@, tok_offsets@, sorted@, c as u8, #[trigger] byte_to_token@[c]),
    {
        let utf8 = codepoint_utf8_exec(b as u8);
        match find_token_by_bytes(data, tok_offsets, sorted.as_slice(), utf8.as_slice()) {
            Some(tid) => byte_to_token.push(tid),
            None => byte_to_token.push(TOKEN_ENDOFTEXT),
        }
        assert(byte_token_ok(data@, tok_offsets@, sorted@, b as u8, byte_to_token@[b as int]));
    }
    let t = Tokenizer { sorted, byte_to_token };
    assert forall|b: u8| byte_token_ok(data@, tok_offsets@, t.sorted@, b, #[trigger] t.byte_to_token@[b as int]) by {
        assert((b as int) as u8 == b);
    }
    t
}

// ---------------------------------------------------------------------------
// BPE encoding
// ---------------------------------------------------------------------------

/// Room for the GPT-2 form of the input to `encode_bpe`.
pub const MAX_PREPROC_INPUT: usize = 2048;

/// Longest text of a merged pair that `encode_bpe` looks up.
pub const MERGE_MAX: usize = 128;

/// The tokens `encode_bpe` starts from: one per code point of the GPT-2
/// form `pre` from `pi` on, at most `room` of them. An ASCII code point
/// takes the byte's token, a two-byte one the token with that text (or
/// end-of-text); other bytes are skipped.
pub open spec fn initial_tokens_from(
    data: Seq<u8>,
    offsets: Seq<u32>,
    sorted: Seq<u32>,
    byte_to_token: Seq<u32>,
    pre: Seq<u8>,
    pi: int,
    room: int,
) -> Seq<u32>
    decreases pre.len() - pi,
{
    if pi < 0 || pi >= pre.len() || room <= 0 {
        seq![]
    } else if pre[pi] < 0x80 {
        seq![byte_to_token[pre[pi] as int]] + initial_tokens_from(
            data,
            offsets,
            sorted,
            byte_to_token,
            pre,
            pi + 1,
            room - 1,
        )
    } else if 0xC0 <= pre[pi] < 0xE0 && pi + 1 < pre.len() {
        let id = match lookup(data, offsets, sorted, pre.subrange(pi, pi + 2)) {
            Some(id) => id,
            None => TOKEN_ENDOFTEXT,
        };
        seq![id] + initial_tokens_from(data, offsets, sorted, byte_to_token, pre, pi + 2, room - 1)
    } else {
        initial_tokens_from(data, offsets, sorted, byte_to_token, pre, pi + 1, room)
    }
}

/// The token the pair at `i` would merge into: the one whose text is the
/// two texts joined, when that is short enough to look up.
pub open spec fn merge_of(data: Seq<u8>, offsets: Seq<u32>, sorted: Seq<u32>, toks: Seq<u32>, i: int) -> Option<u32> {
    let a = token_bytes(data, offsets, toks[i] as int);
    let b = token_bytes(data, offsets, toks[i + 1] as int);
    if a.len() + b.len() > MERGE_MAX {
        None
    } else {
        lookup(data, offsets, sorted, a + b)
    }
}

/// The best merge among the pairs from `i` on, given the best so far
/// (whether one was found, its score, position and token): the first pair
/// whose merged token's score beats every earlier one.
pub open spec fn best_merge_from(
    data: Seq<u8>,
    offsets: Seq<u32>,
    sorted: Seq<u32>,
    toks: Seq<u32>,
    i: int,
    best: (bool, int, int, u32),
) -> (bool, int, int, u32)
    decreases toks.len() - i,
{
    if i < 0 || i + 1 >= toks.len() {
        best
    } else {
        match merge_of(data, offsets, sorted, toks, i) {
            Some(m) => {
                let score = token_score(data, offsets, m as int);
                if score > best.1 {
                    best_merge_from(data, offsets, sorted, toks, i + 1, (true, score, i, m))
                } else {
                    best_merge_from(data, offsets, sorted, toks, i + 1, best)
                }
            },
            None => best_merge_from(data, offsets, sorted, toks, i + 1, best),
        }
    }
}

/// The best merge of `toks` (whether there is one, its score, position and
/// token).
pub open spec fn best_merge(data: Seq<u8>, offsets: Seq<u32>, sorted: Seq<u32>, toks: Seq<u32>) -> (bool, int, int, u32) {
    best_merge_from(data, offsets, sorted, toks, 0, (false, i32::MIN as int, 0, 0u32))
}

/// `toks` with the pair at `i` replaced by `m`.
pub open spec fn merged_at(toks: Seq<u32>, i: int, m: u32) -> Seq<u32> {
    toks.take(i).push(m) + toks.skip(i + 2)
}

/// Whether a byte of GPT-2 text starts a code point that becomes one
/// initial token: an ASCII byte or a two-byte lead.
pub open spec fn starts_token(b: u8) -> bool {
    b < 0x80 || (0xC0 <= b < 0xE0)
}

/// How many bytes of `pre` from `i` on start a token.
pub open spec fn token_starts(pre: Seq<u8>, i: int) -> int
    decreases pre.len() - i,
{
    if i < 0 || i >= pre.len() {
        0
    } else {
        (if starts_token(pre[i]) { 1int } else { 0int }) + token_starts(pre, i + 1)
    }
}

proof fn lemma_token_starts_nonneg(pre: Seq<u8>, i: int)
    ensures
        0 <= token_starts(pre, i),
        token_starts(pre, i + 1) <= token_starts(pre, i) || i < 0,
    decreases pre.len() - i,
{
    if 0 <= i < pre.len() {
        lemma_token_starts_nonneg(pre, i + 1);
    }
}

/// Each initial token starts at a byte that starts a token.
proof fn lemma_initial_len(
    data: Seq<u8>,
    offsets: Seq<u32>,
    sorted: Seq<u32>,
    byte_to_token: Seq<u32>,
    pre: Seq<u8>,
    pi: int,
    room: int,
)
    requires
        0 <= pi,
    ensures
        initial_tokens_from(data, offsets, sorted, byte_to_token, pre, pi, room).len() <= token_starts(pre, pi),
    decreases pre.len() - pi,
{
    lemma_token_starts_nonneg(pre, pi);
    if pi < pre.len() && room > 0 {
        lemma_token_starts_nonneg(pre, pi + 1);
        if pre[pi] < 0x80 {
            lemma_initial_len(data, offsets, sorted, byte_to_token, pre, pi + 1, room - 1);
        } else if 0xC0 <= pre[pi] < 0xE0 && pi + 1 < pre.len() {
            lemma_initial_len(data, offsets, sorted, byte_to_token, pre, pi + 2, room - 1);
        } else {
            lemma_initial_len(data, offsets, sorted, byte_to_token, pre, pi + 1, room);
        }
    }
}

proof fn lemma_token_starts_concat(a: Seq<u8>, b: Seq<u8>, j: int)
    requires
        0 <= j <= a.len(),
    ensures
        token_starts(a + b, j) == token_starts(a, j) + token_starts(b, 0),
    decreases a.len() + b.len() - j,
{
    if j < a.len() {
        lemma_token_starts_concat(a, b, j + 1);
    } else {
        assert((a + b).subrange(a.len() as int, (a + b).len() as int) =~= b);
        lemma_token_starts_shift(a + b, a.len() as int, b, 0);
    }
}

proof fn lemma_token_starts_shift(t: Seq<u8>, k: int, rest: Seq<u8>, j: int)
    requires
        0 <= k <= t.len(),
        0 <= j,
        rest == t.subrange(k, t.len() as int),
    ensures
        token_starts(t, k + j) == token_starts(rest, j),
    decreases rest.len() - j,
{
    if j < rest.len() {
        lemma_token_starts_shift(t, k, rest, j + 1);
    }
}

/// The GPT-2 form of the bytes from `i` on starts at most one token per
/// byte.
proof fn lemma_encoded_starts(input: Seq<u8>, i: int, room: int)
    requires
        0 <= i <= input.len(),
    ensures
        token_starts(gpt2_encoded_from(input, i, room), 0) <= input.len() - i,
    decreases input.len() - i,
{
    if i < input.len() {
        let u = codepoint_utf8(input[i]);
        if u.len() <= room {
            let rest = gpt2_encoded_from(input, i + 1, room - u.len());
            lemma_encoded_starts(input, i + 1, room - u.len());
            lemma_token_starts_concat(u, rest, 0);
            let cp = byte_to_codepoint(input[i]);
            assert(cp < 324);
            if cp >= 128 {
                assert(2 <= cp / 64 <= 5) by (nonlinear_arith)
                    requires 128 <= cp < 324;
                assert(0 <= cp % 64 < 64) by (nonlinear_arith)
                    requires cp >= 0;
                assert(u.len() == 2);
                assert(!starts_token(u[1]));
                assert(token_starts(u, 2) == 0);
                assert(token_starts(u, 1) == 0);
            } else {
                assert(u.len() == 1);
                assert(token_starts(u, 1) == 0);
            }
            assert(token_starts(u, 0) <= 1);
        }
    }
}

/// BPE: merge the best pair until no pair merges.
pub open spec fn bpe_merged(data: Seq<u8>, offsets: Seq<u32>, sorted: Seq<u32>, toks: Seq<u32>) -> Seq<u32>
    decreases toks.len(),
{
    let best = best_merge(data, offsets, sorted, toks);
    if toks.len() >= 2 && best.0 && 0 <= best.2 && best.2 + 2 <= toks.len() {
        bpe_merged(data, offsets, sorted, merged_at(toks, best.2, best.3))
    } else {
        toks
    }
}

proof fn lemma_merged_len(data: Seq<u8>, offsets: Seq<u32>, sorted: Seq<u32>, toks: Seq<u32>)
    ensures
        bpe_merged(data, offsets, sorted, toks).len() <= toks.len(),
    decreases toks.len(),
{
    let best = best_merge(data, offsets, sorted, toks);
    if toks.len() >= 2 && best.0 && 0 <= best.2 && best.2 + 2 <= toks.len() {
        let next = merged_at(toks, best.2, best.3);
        assert(next.len() == toks.len() - 1);
        lemma_merged_len(data, offsets, sorted, next);
    }
}

/// No more tokens than input bytes: each byte starts at most one initial
/// token, and merging only joins tokens.
pub proof fn lemma_bpe_len(data: Seq<u8>, offsets: Seq<u32>, t: Tokenizer, input: Seq<u8>, room: int)
    ensures
        bpe_encoded(data, offsets, t, input, room).len() <= input.len(),
{
    if input.len() > 0 && room > 0 {
        let pre = gpt2_encoded(input, MAX_PREPROC_INPUT as int);
        let init = initial_tokens_from(data, offsets, t.sorted@, t.byte_to_token@, pre, 0, room);
        lemma_initial_len(data, offsets, t.sorted@, t.byte_to_token@, pre, 0, room);
        lemma_encoded_starts(input, 0, MAX_PREPROC_INPUT as int);
        lemma_merged_len(data, offsets, t.sorted@, init);
    }
}

/// The BPE encoding of `input`, at most `room` tokens.
pub open spec fn bpe_encoded(data: Seq<u8>, offsets: Seq<u32>, t: Tokenizer, input: Seq<u8>, room: int) -> Seq<u32> {
    if input.len() == 0 || room <= 0 {
        seq![]
    } else {
        bpe_merged(
            data,
            offsets,
            t.sorted@,
            initial_tokens_from(
                data,
                offsets,
                t.sorted@,
                t.byte_to_token@,
                gpt2_encoded(input, MAX_PREPROC_INPUT as int),
                0,
                room,
            ),
        )
    }
}

proof fn lemma_best_merge_pos(data: Seq<u8>, offsets: Seq<u32>, sorted: Seq<u32>, toks: Seq<u32>, i: int, best: (bool, int, int, u32))
    requires
        0 <= i,
        best.0 ==> 0 <= best.2 && best.2 + 2 <= toks.len(),
        best.0 ==> lookup(data, offsets, sorted, token_bytes(data, offsets, toks[best.2] as int) + token_bytes(data, offsets, toks[best.2 + 1] as int)) == Some(best.3),
    ensures
        ({
            let r = best_merge_from(data, offsets, sorted, toks, i, best);
            r.0 ==> 0 <= r.2 && r.2 + 2 <= toks.len() && lookup(data, offsets, sorted, token_bytes(data, offsets, toks[r.2] as int) + token_bytes(data, offsets, toks[r.2 + 1] as int)) == Some(r.3)
        }),
    decreases toks.len() - i,
{
    if !(i + 1 >= toks.len()) {
        match merge_of(data, offsets, sorted, toks, i) {
            Some(m) => {
                let score = token_score(data, offsets, m as int);
                if score > best.1 {
                    lemma_best_merge_pos(data, offsets, sorted, toks, i + 1, (true, score, i, m));
                } else {
                    lemma_best_merge_pos(data, offsets, sorted, toks, i + 1, best);
                }
            },
            None => lemma_best_merge_pos(data, offsets, sorted, toks, i + 1, best),
        }
    }
}

/// Whether `best` (found, score, position, token) is the highest-scoring
/// merge among the pairs before position `i`, the first one on a tie: each
/// of those pairs that merges scores no more than it, those before it
/// strictly less; with none found, no pair there scores above `i32::MIN`.
spec fn best_before(data: Seq<u8>, offsets: Seq<u32>, sorted: Seq<u32>, toks: Seq<u32>, i: int, best: (bool, int, int, u32)) -> bool {
    &&& best.0 ==> 0 <= best.2 < i && best.2 + 1 < toks.len() && merge_of(data, offsets, sorted, toks, best.2)
        == Some(best.3) && best.1 == token_score(data, offsets, best.3 as int) && best.1 > i32::MIN
    &&& !best.0 ==> best.1 == i32::MIN
    &&& forall|j: int|
        0 <= j < i && j + 1 < toks.len() && #[trigger] merge_of(data, offsets, sorted, toks, j) is Some
            ==> token_score(data, offsets, merge_of(data, offsets, sorted, toks, j)->Some_0 as int) <= best.1
    &&& best.0 ==> forall|j: int|
        0 <= j < best.2 && #[trigger] merge_of(data, offsets, sorted, toks, j) is Some ==> token_score(
            data,
            offsets,
            merge_of(data, offsets, sorted, toks, j)->Some_0 as int,
        ) < best.1
}

proof fn lemma_best_merge_from_best(
    data: Seq<u8>,
    offsets: Seq<u32>,
    sorted: Seq<u32>,
    toks: Seq<u32>,
    i: int,
    best: (bool, int, int, u32),
)
    requires
        0 <= i,
        best_before(data, offsets, sorted, toks, i, best),
    ensures
        best_before(data, offsets, sorted, toks, toks.len() as int, best_merge_from(data, offsets, sorted, toks, i, best)),
    decreases toks.len() - i,
{
    if i + 1 >= toks.len() {
        assert forall|j: int|
            0 <= j < toks.len() && j + 1 < toks.len() && #[trigger] merge_of(data, offsets, sorted, toks, j) is Some
                implies token_score(data, offsets, merge_of(data, offsets, sorted, toks, j)->Some_0 as int) <= best.1 by {
            assert(j < i);
        }
    } else {
        match merge_of(data, offsets, sorted, toks, i) {
            Some(m) => {
                let score = token_score(data, offsets, m as int);
                if score > best.1 {
                    lemma_best_merge_from_best(data, offsets, sorted, toks, i + 1, (true, score, i, m));
                } else {
                    lemma_best_merge_from_best(data, offsets, sorted, toks, i + 1, best);
                }
            },
            None => lemma_best_merge_from_best(data, offsets, sorted, toks, i + 1, best),
        }
    }
}

/// A BPE step merges the highest-scoring pair: when a pair merges (into a
/// token scoring above `i32::MIN`), the chosen one is a pair that merges,
/// every pair that merges scores no more than it, and every one before it
/// strictly less (the first of equals wins); when none does, no merge is
/// chosen.
pub proof fn lemma_best_merge_is_highest(data: Seq<u8>, offsets: Seq<u32>, sorted: Seq<u32>, toks: Seq<u32>)
    ensures
        ({
            let b = best_merge(data, offsets, sorted, toks);
            &&& b.0 ==> 0 <= b.2 && b.2 + 1 < toks.len() && merge_of(data, offsets, sorted, toks, b.2)
                == Some(b.3) && b.1 == token_score(data, offsets, b.3 as int) && b.1 > i32::MIN
            &&& !b.0 ==> b.1 == i32::MIN
            &&& forall|j: int|
                0 <= j && j + 1 < toks.len() && #[trigger] merge_of(data, offsets, sorted, toks, j) is Some
                    ==> token_score(data, offsets, merge_of(data, offsets, sorted, toks, j)->Some_0 as int) <= b.1
            &&& b.0 ==> forall|j: int|
                0 <= j < b.2 && #[trigger] merge_of(data, offsets, sorted, toks, j) is Some ==> token_score(
                    data,
                    offsets,
                    merge_of(data, offsets, sorted, toks, j)->Some_0 as int,
                ) < b.1
        }),
{
    lemma_best_merge_from_best(data, offsets, sorted, toks, 0, (false, i32::MIN as int, 0, 0u32));
}

/// Whether merging the pair at `p` into `m` is the BPE choice for `toks`:
/// it merges into a token scoring above `i32::MIN`, no pair scores more,
/// and every pair before it scores less.
pub open spec fn is_highest_merge(data: Seq<u8>, offsets: Seq<u32>, sorted: Seq<u32>, toks: Seq<u32>, p: int, m: u32) -> bool {
    &&& 0 <= p && p + 1 < toks.len()
    &&& merge_of(data, offsets, sorted, toks, p) == Some(m)
    &&& token_score(data, offsets, m as int) > i32::MIN
    &&& forall|j: int|
        0 <= j && j + 1 < toks.len() && #[trigger] merge_of(data, offsets, sorted, toks, j) is Some
            ==> token_score(data, offsets, merge_of(data, offsets, sorted, toks, j)->Some_0 as int)
            <= token_score(data, offsets, m as int)
    &&& forall|j: int|
        0 <= j < p && #[trigger] merge_of(data, offsets, sorted, toks, j) is Some ==> token_score(
            data,
            offsets,
            merge_of(data, offsets, sorted, toks, j)->Some_0 as int,
        ) < token_score(data, offsets, m as int)
}

/// BPE merges the highest-scoring pair and carries on from the result, and
/// stops once no pair merges into a token scoring above `i32::MIN`.
pub proof fn lemma_bpe_merges_highest_first(data: Seq<u8>, offsets: Seq<u32>, sorted: Seq<u32>, toks: Seq<u32>, p: int, m: u32)
    ensures
        is_highest_merge(data, offsets, sorted, toks, p, m) ==> bpe_merged(data, offsets, sorted, toks)
            == bpe_merged(data, offsets, sorted, merged_at(toks, p, m)),
        (forall|j: int|
            0 <= j && j + 1 < toks.len() && #[trigger] merge_of(data, offsets, sorted, toks, j) is Some
                ==> token_score(data, offsets, merge_of(data, offsets, sorted, toks, j)->Some_0 as int)
                <= i32::MIN) ==> bpe_merged(data, offsets, sorted, toks) == toks,
{
    lemma_best_merge_is_highest(data, offsets, sorted, toks);
    let b = best_merge(data, offsets, sorted, toks);
    if is_highest_merge(data, offsets, sorted, toks, p, m) {
        assert(merge_of(data, offsets, sorted, toks, p) is Some);
        assert(b.0);
        if p < b.2 {
            assert(merge_of(data, offsets, sorted, toks, p) is Some);
        } else if b.2 < p {
            assert(merge_of(data, offsets, sorted, toks, b.2) is Some);
        }
        assert(b.2 == p);
        assert(b.3 == m);
    }
    if b.0 {
        assert(merge_of(data, offsets, sorted, toks, b.2) is Some);
    }
}

/// The text the tokens `toks` spell: their texts, joined.
pub open spec fn spelled(data: Seq<u8>, offsets: Seq<u32>, toks: Seq<u32>) -> Seq<u8>
    decreases toks.len(),
{
    if toks.len() == 0 {
        seq![]
    } else {
        spelled(data, offsets, toks.drop_last()) + token_bytes(data, offsets, toks.last() as int)
    }
}

proof fn lemma_spelled_concat(data: Seq<u8>, offsets: Seq<u32>, x: Seq<u32>, y: Seq<u32>)
    ensures
        spelled(data, offsets, x + y) == spelled(data, offsets, x) + spelled(data, offsets, y),
    decreases y.len(),
{
    if y.len() == 0 {
        assert(x + y =~= x);
        assert(spelled(data, offsets, x) + spelled(data, offsets, y) =~= spelled(data, offsets, x));
    } else {
        lemma_spelled_concat(data, offsets, x, y.drop_last());
        assert((x + y).drop_last() =~= x + y.drop_last());
        assert((x + y).last() == y.last());
        let t = token_bytes(data, offsets, y.last() as int);
        assert(spelled(data, offsets, x) + spelled(data, offsets, y.drop_last()) + t =~= spelled(data, offsets, x)
            + (spelled(data, offsets, y.drop_last()) + t));
    }
}

/// BPE merging never changes the text the tokens spell: each merge puts in
/// place of a pair a token whose text is the two texts joined.
pub proof fn lemma_merging_keeps_text(data: Seq<u8>, offsets: Seq<u32>, sorted: Seq<u32>, toks: Seq<u32>)
    requires
        sorted_by_text(data, offsets, sorted),
    ensures
        spelled(data, offsets, bpe_merged(data, offsets, sorted, toks)) == spelled(data, offsets, toks),
    decreases toks.len(),
{
    let best = best_merge(data, offsets, sorted, toks);
    if toks.len() >= 2 && best.0 && 0 <= best.2 && best.2 + 2 <= toks.len() {
        let i = best.2;
        let m = best.3;
        lemma_best_merge_pos(data, offsets, sorted, toks, 0, (false, i32::MIN as int, 0, 0u32));
        let a = token_bytes(data, offsets, toks[i] as int);
        let b = token_bytes(data, offsets, toks[i + 1] as int);
        lemma_search_from(data, offsets, sorted, a + b, 0, sorted.len() as int);
        assert(token_bytes(data, offsets, m as int) == a + b);
        let head = toks.take(i);
        let tail = toks.skip(i + 2);
        let merged = merged_at(toks, i, m);
        assert(toks =~= head + seq![toks[i], toks[i + 1]] + tail);
        lemma_spelled_concat(data, offsets, head + seq![toks[i], toks[i + 1]], tail);
        lemma_spelled_concat(data, offsets, head, seq![toks[i], toks[i + 1]]);
        lemma_spelled_concat(data, offsets, head.push(m), tail);
        assert(seq![toks[i], toks[i + 1]].drop_last() =~= seq![toks[i]]);
        assert(seq![toks[i]].drop_last() =~= Seq::<u32>::empty());
        assert(head.push(m).drop_last() =~= head);
        assert(seq![toks[i]].last() == toks[i]);
        assert(spelled(data, offsets, Seq::<u32>::empty()) == Seq::<u8>::empty());
        assert(spelled(data, offsets, seq![toks[i]]) == spelled(data, offsets, seq![toks[i]].drop_last()) + a);
        assert(spelled(data, offsets, seq![toks[i]]) =~= a);
        assert(seq![toks[i], toks[i + 1]].last() == toks[i + 1]);
        assert(spelled(data, offsets, seq![toks[i], toks[i + 1]]) =~= a + b);
        assert(spelled(data, offsets, merged) =~= spelled(data, offsets, toks));
        lemma_merging_keeps_text(data, offsets, sorted, merged);
    }
}

/// Lookups only give ids of the index.
proof fn lemma_lookup_in_index(data: Seq<u8>, offsets: Seq<u32>, sorted: Seq<u32>, q: Seq<u8>, lo: int, hi: int)
    ensures
        search_from(data, offsets, sorted, q, lo, hi) matches Some(id) ==> sorted.contains(id),
    decreases hi - lo,
{
    if !(lo < 0 || hi > sorted.len() || lo >= hi) {
        let mid = lo + (hi - lo) / 2;
        lemma_lookup_in_index(data, offsets, sorted, q, lo, mid);
        lemma_lookup_in_index(data, offsets, sorted, q, mid + 1, hi);
        assert(sorted[mid] == sorted[mid]);
    }
}

fn initial_tokens(
    data: &[u8],
    tok_offsets: &[u32],
    tok: &Tokenizer,
    pre: &[u8],
    out_tokens: &mut [u32],
) -> (len: usize)
    requires
        tokenizer_ok(data@, tok_offsets@, *tok),
        tok_offsets@.len() > 0,
    ensures
        final(out_tokens)@.len() == old(out_tokens)@.len(),
        len <= old(out_tokens)@.len(),
        final(out_tokens)@.take(len as int) == initial_tokens_from(data@, tok_offsets@, tok.sorted@, tok.byte_to_token@, pre@, 0, old(out_tokens)@.len() as int),
        forall|k: int| len <= k < old(out_tokens)@.len() ==> final(out_tokens)@[k] == old(out_tokens)@[k],
        ids_below(final(out_tokens)@.take(len as int), tok_offsets@.len() as int),
{
    let ghost d = data@;
    let ghost o = tok_offsets@;
    let ghost cap = out_tokens@.len() as int;
    let ghost out0 = out_tokens@;
    let ghost full = initial_tokens_from(d, o, tok.sorted@, tok.byte_to_token@, pre@, 0, cap);
    let mut len: usize = 0;
    let mut pi: usize = 0;
    while pi < pre.len() && len < out_tokens.len()
        invariant
            tokenizer_ok(d, o, *tok),
            o.len() > 0,
            d == data@,
            o == tok_offsets@,
            cap == out_tokens@.len(),
            out0.len() == cap,
            pi <= pre@.len(),
            len <= cap,
            out_tokens@.take(len as int) + initial_tokens_from(d, o, tok.sorted@, tok.byte_to_token@, pre@, pi as int, cap - len) == full,
            forall|k: int| len <= k < cap ==> out_tokens@[k] == out0[k],
            ids_below(out_tokens@.take(len as int), o.len() as int),
        decreases pre@.len() - pi,
    {
        let b = pre[pi];
        let ghost before = out_tokens@;
        if b < 0x80 {
            let id = tok.byte_to_token[b as usize];
            proof {
                assert(byte_token_ok(d, o, tok.sorted@, b, tok.byte_to_token@[b as int]));
                if index_has_text(d, o, tok.sorted@, codepoint_utf8(b)) {
                    let k = choose|k: int| 0 <= k < tok.sorted@.len() && tok.sorted@[k] == id;
                    assert(tok.sorted@[k] < o.len());
                }
            }
            out_tokens[len] = id;
            pi += 1;
        } else if b >= 0xC0 && b < 0xE0 && pi + 1 < pre.len() {
            let pair = &pre[pi..pi + 2];
            let id = match find_token_by_bytes(data, tok_offsets, tok.sorted.as_slice(), pair) {
                Some(id) => {
                    proof {
                        let k = choose|k: int| 0 <= k < tok.sorted@.len() && tok.sorted@[k] == id;
                        assert(tok.sorted@[k] < o.len());
                    }
                    id
                },
                None => TOKEN_ENDOFTEXT,
            };
            out_tokens[len] = id;
            pi += 2;
        } else {
            pi += 1;
            continue;
        }
        assert(out_tokens@.take(len + 1) == before.take(len as int).push(out_tokens@[len as int]));
        len += 1;
    }
    proof {
        if len >= cap {
            assert(initial_tokens_from(d, o, tok.sorted@, tok.byte_to_token@, pre@, pi as int, cap - len) == Seq::<u32>::empty());
        }
    }
    len
}

/// Encode a byte string into BPE tokens: rewrite it into GPT-2 form (what
/// fits in `MAX_PREPROC_INPUT` bytes), start from one token per code point,
/// then merge the best-scoring pair until none merges. Writes at most
/// `out_tokens.len()` tokens and returns their number.
pub fn encode_bpe(
    data: &[u8],
    tok_offsets: &[u32],
    tok: &Tokenizer,
    input: &[u8],
    out_tokens: &mut [u32],
) -> (n: usize)
    requires
        tokenizer_ok(data@, tok_offsets@, *tok),
        tok_offsets@.len() > 0,
    ensures
        final(out_tokens)@.len() == old(out_tokens)@.len(),
        n <= old(out_tokens)@.len(),
        final(out_tokens)@.take(n as int) == bpe_encoded(data@, tok_offsets@, *tok, input@, old(out_tokens)@.len() as int),
        n <= input@.len(),
        ids_below(final(out_tokens)@.take(n as int), tok_offsets@.len() as int),
{
    proof {
        lemma_bpe_len(data@, tok_offsets@, *tok, input@, out_tokens@.len() as int);
    }
    let ghost d = data@;
    let ghost o = tok_offsets@;
    let ghost sorted = tok.sorted@;
    if input.len() == 0 || out_tokens.len() == 0 {
        return 0;
    }
    let mut preproc_buf: Vec<u8> = vec![0u8; MAX_PREPROC_INPUT];
    let preproc_len = preprocess_gpt2(input, preproc_buf.as_mut_slice());
    let preproc = &preproc_buf.as_slice()[0..preproc_len];
    let ghost cap = out_tokens@.len();
    let mut len = initial_tokens(data, tok_offsets, tok, preproc, out_tokens);
    let ghost initial = out_tokens@.take(len as int);
    loop
        invariant
            out_tokens@.len() == cap,
            tokenizer_ok(d, o, *tok),
            o.len() > 0,
            d == data@,
            o == tok_offsets@,
            sorted == tok.sorted@,
            len <= out_tokens@.len(),
            ids_below(out_tokens@.take(len as int), o.len() as int),
            bpe_merged(d, o, sorted, out_tokens@.take(len as int)) == bpe_merged(d, o, sorted, initial),
        ensures
            out_tokens@.len() == cap,
            len <= out_tokens@.len(),
            ids_below(out_tokens@.take(len as int), o.len() as int),
            out_tokens@.take(len as int) == bpe_merged(d, o, sorted, initial),
        decreases len,
    {
        let ghost toks = out_tokens@.take(len as int);
        if len < 2 {
            break;
        }
        let mut best_score: i32 = i32::MIN;
        let mut best_idx: usize = 0;
        let mut best_token: u32 = 0;
        let mut found = false;
        for i in 0..len - 1
            invariant
                tokenizer_ok(d, o, *tok),
                d == data@,
                o == tok_offsets@,
                sorted == tok.sorted@,
                2 <= len <= out_tokens@.len(),
                toks == out_tokens@.take(len as int),
                ids_below(toks, o.len() as int),
                best_merge(d, o, sorted, toks) == best_merge_from(d, o, sorted, toks, i as int, (found, best_score as int, best_idx as int, best_token)),
                found ==> 0 <= best_idx && best_idx + 2 <= len,
                found ==> lookup(d, o, sorted, token_bytes(d, o, toks[best_idx as int] as int) + token_bytes(d, o, toks[best_idx + 1] as int)) == Some(best_token),
                found ==> best_token < o.len(),
        {
            assert(toks[i as int] == out_tokens@[i as int]);
            assert(toks[i + 1] == out_tokens@[i + 1]);
            let bytes_a = decode_token_bytes(data, tok_offsets, out_tokens[i] as usize);
            let bytes_b = decode_token_bytes(data, tok_offsets, out_tokens[i + 1] as usize);
            if bytes_a.len() <= MERGE_MAX && bytes_b.len() <= MERGE_MAX - bytes_a.len() {
                let mut concat: Vec<u8> = Vec::new();
                crate::net::append_bytes(&mut concat, bytes_a);
                crate::net::append_bytes(&mut concat, bytes_b);
                match find_token_by_bytes(data, tok_offsets, tok.sorted.as_slice(), concat.as_slice()) {
                    Some(merged_id) => {
                        proof {
                            let k = choose|k: int| 0 <= k < tok.sorted@.len() && tok.sorted@[k] == merged_id;
                            assert(tok.sorted@[k] < o.len());
                            assert(record_fits(d, o[merged_id as int] as int));
                        }
                        let score = get_token_score(data, tok_offsets, merged_id as usize);
                        if score > best_score {
                            best_score = score;
                            best_idx = i;
                            best_token = merged_id;
                            found = true;
                        }
                    },
                    None => {},
                }
            }
        }
        if !found {
            break;
        }
        let ghost merged = merged_at(toks, best_idx as int, best_token);
        out_tokens[best_idx] = best_token;
        let mut i = best_idx + 1;
        while i < len - 1
            invariant
                out_tokens@.len() == cap,
                2 <= len <= out_tokens@.len(),
                best_idx + 1 <= i <= len - 1,
                best_idx + 2 <= len,
                toks.len() == len,
                merged == merged_at(toks, best_idx as int, best_token),
                forall|k: int| 0 <= k < best_idx ==> out_tokens@[k] == toks[k],
                out_tokens@[best_idx as int] == best_token,
                forall|k: int| best_idx < k < i ==> out_tokens@[k] == toks[k + 1],
                forall|k: int| i <= k < len ==> out_tokens@[k] == toks[k],
            decreases len - i,
        {
            out_tokens[i] = out_tokens[i + 1];
            i += 1;
        }
        len -= 1;
        proof {
            assert(out_tokens@.take(len as int) =~= merged);
            assert forall|k: int| 0 <= k < out_tokens@.take(len as int).len() implies #[trigger] out_tokens@.take(len as int)[k] < o.len() by {
                if k < best_idx {
                    assert(toks[k] < o.len());
                } else if k > best_idx {
                    assert(toks[k + 1] < o.len());
                }
            }
            lemma_best_merge_pos(d, o, sorted, toks, 0, (false, i32::MIN as int, 0, 0u32));
        }
    }
    proof {
        assert(preproc@ == gpt2_encoded(input@, MAX_PREPROC_INPUT as int));
    }
    len
}

} // verus!
