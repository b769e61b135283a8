//! The loaded model and text generation: loading a blob into a model slot,
//! greedy choice of the next token, prefill of a prompt and autoregressive
//! decoding into an output buffer.

use vstd::prelude::*;

use crate::forward::{
    all_zero, alloc_inference_state, config_ok, layer_in_blob, q8_in_blob, forward_fits, forward_result, forward_token, kv_len, reset_kv_cache,
    shape_ok, state_fits, state_sizes_fit, InferenceState, INFERENCE_MAX_SEQ,
};
use crate::model::{
    header_config, layout_of, model_ok, parse_and_store_model, ModelConfig, ModelError,
    ModelLayout, MODEL_FORMAT_V2, MODEL_MAX_LAYERS, TOK_SECTION_OFF,
};
use crate::tokenizer::{
    bpe_encoded, build_sorted_vocab, decode_token_bytes, encode_bpe, gpt2_decode_token, gpt2_decoded,
    ids_below, token_bytes, tokenizer_ok, vocab_fits, Tokenizer, MODEL_MAX_VOCAB, TOKEN_ENDOFTEXT, TOKEN_IM_END,
};

verus! {

/// A loaded model: its blob, where everything lies in it, its tokenizer and
/// its inference buffers.
pub struct ModelSlot {
    pub data: Vec<u8>,
    pub layout: ModelLayout,
    pub tokenizer: Tokenizer,
    pub state: InferenceState,
}

/// Whether the INT8 pass runs a model of shape `c` and it has tokens.
pub open spec fn runnable(c: ModelConfig) -> bool {
    shape_ok(c) && c.vocab_size > 0
}

/// Whether the FP16 engine takes a model of shape `c`: each of its widths
/// and counts fits in an `i32`.
pub open spec fn fp16_dims_fit(c: ModelConfig) -> bool {
    &&& c.dim <= i32::MAX
    &&& c.hidden_dim <= i32::MAX
    &&& c.n_heads <= i32::MAX
    &&& c.n_kv_heads <= i32::MAX
    &&& c.head_dim <= i32::MAX
}

/// Whether `s` holds a loaded model: its layout and tokenizer are those of
/// its blob, and an INT8 model has buffers of its shape.
pub open spec fn slot_loaded(s: ModelSlot) -> bool {
    &&& model_ok(s.data@)
    &&& layout_of(s.data@, s.layout)
    &&& s.layout.tok_offsets@.len() == s.layout.config.vocab_size
    &&& vocab_fits(s.data@, s.layout.tok_offsets@)
    &&& tokenizer_ok(s.data@, s.layout.tok_offsets@, s.tokenizer)
    &&& s.layout.config.group_size != 0 ==> state_sizes_fit(s.layout.config) && state_fits(
        s.layout.config,
        s.state,
    )
}

/// Whether `s` is a loaded INT8 model that the INT8 pass runs.
pub open spec fn slot_ok(s: ModelSlot) -> bool {
    &&& slot_loaded(s)
    &&& s.layout.config.group_size != 0
    &&& runnable(s.layout.config)
    &&& config_ok(s.layout.config)
}

proof fn lemma_u32_product(a: u32, b: u32)
    ensures
        0 <= a as int * b as int <= u64::MAX,
{
    assert(0 <= a as int * b as int <= u64::MAX) by (nonlinear_arith)
        requires a <= u32::MAX, b <= u32::MAX, 0 <= a, 0 <= b;
}

/// A loaded model keeps what loading it checked: one offset and one index
/// entry per token, at most `MODEL_MAX_VOCAB` of them, every token record
/// inside the blob; one layer reference per layer, at most
/// `MODEL_MAX_LAYERS`; its weights starting inside the blob, and every
/// matrix and norm of them lying in it.
pub proof fn lemma_loaded_model_in_bounds(s: ModelSlot)
    requires
        slot_ok(s),
    ensures
        s.layout.tok_offsets@.len() == s.layout.config.vocab_size,
        s.tokenizer.sorted@.len() == s.layout.config.vocab_size,
        s.layout.config.vocab_size <= MODEL_MAX_VOCAB,
        vocab_fits(s.data@, s.layout.tok_offsets@),
        s.layout.layers@.len() == s.layout.config.n_layers,
        s.layout.config.n_layers <= MODEL_MAX_LAYERS,
        s.layout.weights_off <= s.data@.len(),
        q8_in_blob(
            s.layout.embed,
            s.data@.len() as int,
            s.layout.config.vocab_size as int,
            s.layout.config.dim as int,
            s.layout.config.group_size as int,
        ),
        s.layout.rms_final_off + s.layout.config.dim * 4 <= s.data@.len(),
        forall|l: int|
            0 <= l < s.layout.layers@.len() ==> layer_in_blob(s.layout.config, #[trigger] s.layout.layers@[l], s.data@.len() as int),
{
    assert(s.data.len() == s.data@.len());
    crate::forward::lemma_model_in_blob(s.data@, s.layout);
    let n = s.layout.config.vocab_size as nat;
    s.tokenizer.sorted@.to_multiset_ensures();
    Seq::new(n, |i: int| i as u32).to_multiset_ensures();
    assert(s.tokenizer.sorted@.to_multiset().len() == n);
}

fn shape_ok_exec(c: &ModelConfig) -> (b: bool)
    ensures
        b == shape_ok(*c),
{
    if c.group_size == 0 || c.dim == 0 || c.hidden_dim == 0 || c.n_kv_heads == 0 || c.head_dim == 0 {
        return false;
    }
    proof {
        lemma_u32_product(c.n_heads, c.head_dim);
    }
    let q_width: u64 = c.n_heads as u64 * c.head_dim as u64;
    c.dim % c.group_size == 0 && c.hidden_dim % c.group_size == 0 && c.n_heads % c.n_kv_heads == 0
        && c.n_heads >= c.n_kv_heads && q_width == c.dim as u64
}

fn state_sizes_fit_exec(c: &ModelConfig) -> (b: bool)
    ensures
        b == state_sizes_fit(*c),
{
    let a: u128 = c.n_layers as u128 * 2;
    assert(a * (c.n_kv_heads as u128) < 0x1_0000_0000_0000_0000_0000) by (nonlinear_arith)
        requires a < 0x2_0000_0000, c.n_kv_heads < 0x1_0000_0000;
    let b: u128 = a * c.n_kv_heads as u128;
    assert(b < 0x1_0000_0000_0000_0000_0000);
    let b2: u128 = b * 256;
    assert(b2 * (c.head_dim as u128) < 0x1_0000_0000_0000_0000_0000_0000_0000_0000) by (nonlinear_arith)
        requires b2 < 0x1_0000_0000_0000_0000_0000_0000, c.head_dim < 0x1_0000_0000;
    let total: u128 = b2 * c.head_dim as u128;
    assert(total == kv_len(*c));
    proof {
        lemma_u32_product(c.n_kv_heads, c.head_dim);
    }
    let kv_dim: u64 = c.n_kv_heads as u64 * c.head_dim as u64;
    total <= usize::MAX as u128 && kv_dim as u128 <= usize::MAX as u128
}

/// Load a model blob: parse it, allocate its inference buffers (an INT8
/// model's; an FP16 model's belong to its floating-point engine) and build
/// its tokenizer. `Invalid` when the blob is malformed or an FP16 model's
/// widths do not fit the engine's `i32`s, `OutOfMemory` when an INT8
/// model's buffers cannot be counted.
pub fn load_model(data: Vec<u8>) -> (r: Result<ModelSlot, ModelError>)
    requires
        data@.len() <= isize::MAX,
        data@.len() <= u32::MAX,
    ensures
        r matches Err(ModelError::Invalid) <==> !model_ok(data@) || (header_config(data@).group_size == 0
            && !fp16_dims_fit(header_config(data@))),
        r matches Err(ModelError::OutOfMemory) <==> model_ok(data@) && header_config(data@).group_size != 0
            && !state_sizes_fit(header_config(data@)),
        r matches Ok(s) ==> slot_loaded(s) && s.data@ == data@ && s.layout.config == header_config(data@)
            && (s.layout.config.group_size != 0 ==> all_zero(s.state)) && (s.layout.config.group_size != 0
            && runnable(s.layout.config) ==> slot_ok(s)),
{
    let layout = match parse_and_store_model(data.as_slice()) {
        Ok(l) => l,
        Err(_) => {
            return Err(ModelError::Invalid);
        },
    };
    let c = layout.config;
    let state = if layout.format_version == MODEL_FORMAT_V2 {
        if !fp16_dims_fit_exec(&c) {
            return Err(ModelError::Invalid);
        }
        no_inference_state()
    } else {
        if !state_sizes_fit_exec(&c) {
            return Err(ModelError::OutOfMemory);
        }
        alloc_inference_state(&c)
    };
    proof {
        crate::model::lemma_token_records_fit(data@, TOK_SECTION_OFF + 8, c.vocab_size as nat);
        crate::model::lemma_token_records_bound(data@, TOK_SECTION_OFF + 8, c.vocab_size as nat);
    }
    let tokenizer = build_sorted_vocab(data.as_slice(), layout.tok_offsets.as_slice());
    Ok(ModelSlot { data, layout, tokenizer, state })
}

fn fp16_dims_fit_exec(c: &ModelConfig) -> (b: bool)
    ensures
        b == fp16_dims_fit(*c),
{
    let m: u32 = 0x7fff_ffff;
    c.dim <= m && c.hidden_dim <= m && c.n_heads <= m && c.n_kv_heads <= m && c.head_dim <= m
}

/// The buffers of a model whose passes run elsewhere: none.
fn no_inference_state() -> (s: InferenceState)
    ensures
        s.kv@.len() == 0,
{
    InferenceState {
        kv: Vec::new(),
        x: Vec::new(),
        xb: Vec::new(),
        xb2: Vec::new(),
        q: Vec::new(),
        k: Vec::new(),
        v: Vec::new(),
        att: Vec::new(),
        hb: Vec::new(),
        hb2: Vec::new(),
        logits: Vec::new(),
    }
}

/// Whether the INT8 pass runs the loaded model in `s` (see `slot_ok`).
pub fn can_run(s: &ModelSlot) -> (b: bool)
    requires
        slot_loaded(*s),
    ensures
        b == slot_ok(*s),
{
    let c = &s.layout.config;
    c.group_size != 0 && shape_ok_exec(c) && c.vocab_size != 0
}

// ---------------------------------------------------------------------------
// The next token
// ---------------------------------------------------------------------------

/// Whether `t` is the first position of the largest logit.
pub open spec fn is_first_max(logits: Seq<i32>, t: int) -> bool {
    &&& 0 <= t < logits.len()
    &&& forall|j: int| 0 <= j < logits.len() ==> logits[j] <= logits[t]
    &&& forall|j: int| 0 <= j < t ==> logits[j] < logits[t]
}

/// The greedy choice: the first position of the largest logit (0 when
/// there is none).
pub open spec fn first_max(logits: Seq<i32>) -> int {
    if exists|t: int| is_first_max(logits, t) {
        choose|t: int| is_first_max(logits, t)
    } else {
        0
    }
}

proof fn lemma_first_max_unique(logits: Seq<i32>, t: int)
    requires
        is_first_max(logits, t),
    ensures
        first_max(logits) == t,
{
    let u = choose|u: int| is_first_max(logits, u);
    assert(is_first_max(logits, u));
    if u < t {
        assert(logits[u] < logits[t]);
        assert(logits[t] <= logits[u]);
    } else if t < u {
        assert(logits[t] < logits[u]);
        assert(logits[u] <= logits[t]);
    }
}

/// The next token: the first position of the largest logit.
pub fn get_next_token(logits: &Vec<i32>) -> (t: usize)
    ensures
        t == first_max(logits@),
        logits@.len() > 0 ==> is_first_max(logits@, t as int),
{
    let n = logits.len();
    if n == 0 {
        return 0;
    }
    let mut best: usize = 0;
    let mut i: usize = 1;
    while i < n
        invariant
            n == logits@.len(),
            1 <= i <= n,
            best < i,
            forall|j: int| 0 <= j < i ==> logits@[j] <= logits@[best as int],
            forall|j: int| 0 <= j < best ==> logits@[j] < logits@[best as int],
        decreases n - i,
    {
        if logits[i] > logits[best] {
            best = i;
        }
        i = i + 1;
    }
    proof {
        lemma_first_max_unique(logits@, best as int);
    }
    best
}

// ---------------------------------------------------------------------------
// Generation
// ---------------------------------------------------------------------------

/// Bytes of the buffer one token is decoded into.
pub const DECODE_BUF_LEN: usize = 64;

/// The KV cache of a model of shape `c`, cleared.
pub open spec fn zero_cache(c: ModelConfig) -> Seq<i32> {
    Seq::new(kv_len(c) as nat, |i: int| 0i32)
}

/// The logits and cache after running `toks[i..n]` at positions `i..n`
/// from the cache `kv` (`logits` when nothing runs).
pub open spec fn prefill(d: Seq<u8>, m: ModelLayout, toks: Seq<u32>, i: int, n: int, logits: Seq<i32>, kv: Seq<i32>) -> (Seq<i32>, Seq<i32>)
    decreases n - i,
{
    if i < 0 || i >= n {
        (logits, kv)
    } else {
        let r = forward_result(d, m, toks[i] as int, i, kv);
        prefill(d, m, toks, i + 1, n, r.0, r.1)
    }
}

/// Whether every token of `toks[i..n]` is in the vocabulary and its pass
/// stays in range.
pub open spec fn prefill_fits(d: Seq<u8>, m: ModelLayout, toks: Seq<u32>, i: int, n: int, kv: Seq<i32>) -> bool
    decreases n - i,
{
    if i < 0 || i >= n {
        true
    } else {
        let r = forward_result(d, m, toks[i] as int, i, kv);
        &&& toks[i] < m.config.vocab_size
        &&& forward_fits(d, m, toks[i] as int, i, kv)
        &&& prefill_fits(d, m, toks, i + 1, n, r.1)
    }
}

/// The bytes token `t` decodes to.
pub open spec fn decoded_piece(d: Seq<u8>, m: ModelLayout, t: int) -> Seq<u8> {
    gpt2_decoded(token_bytes(d, m.tok_offsets@, t), DECODE_BUF_LEN as int)
}

/// The output after at most `left` more steps of greedy decoding from
/// position `pos` with the logits and cache given, `out` written so far into
/// a buffer of `cap` bytes. A step stops at end-of-text or end-of-turn, at
/// the end of the cache, or when no byte of the token fits; otherwise it
/// writes what fits of the token's bytes and runs the token.
pub open spec fn generated(d: Seq<u8>, m: ModelLayout, pos: int, logits: Seq<i32>, kv: Seq<i32>, out: Seq<u8>, left: nat, cap: int) -> Seq<u8>
    decreases left,
{
    if left == 0 {
        out
    } else {
        let t = first_max(logits);
        if t == TOKEN_ENDOFTEXT || t == TOKEN_IM_END || pos >= INFERENCE_MAX_SEQ {
            out
        } else {
            let piece = decoded_piece(d, m, t);
            let room = cap - out.len();
            let n = if piece.len() < room { piece.len() as int } else { room };
            if n <= 0 {
                out
            } else {
                let r = forward_result(d, m, t, pos, kv);
                generated(d, m, pos + 1, r.0, r.1, out + piece.take(n), (left - 1) as nat, cap)
            }
        }
    }
}

/// Whether every pass that greedy decoding makes stays in range.
pub open spec fn generation_fits(d: Seq<u8>, m: ModelLayout, pos: int, logits: Seq<i32>, kv: Seq<i32>, out: Seq<u8>, left: nat, cap: int) -> bool
    decreases left,
{
    if left == 0 {
        true
    } else {
        let t = first_max(logits);
        if t == TOKEN_ENDOFTEXT || t == TOKEN_IM_END || pos >= INFERENCE_MAX_SEQ {
            true
        } else {
            let piece = decoded_piece(d, m, t);
            let room = cap - out.len();
            let n = if piece.len() < room { piece.len() as int } else { room };
            if n <= 0 {
                true
            } else {
                let r = forward_result(d, m, t, pos, kv);
                forward_fits(d, m, t, pos, kv) && generation_fits(
                    d,
                    m,
                    pos + 1,
                    r.0,
                    r.1,
                    out + piece.take(n),
                    (left - 1) as nat,
                    cap,
                )
            }
        }
    }
}

/// How many tokens decoding may add after a prompt of `n` tokens.
pub open spec fn gen_limit(n: int, max_new: int) -> nat {
    let room = INFERENCE_MAX_SEQ - n;
    (if max_new < room { max_new } else { room }) as nat
}

/// The text generated from the first `n` tokens of `toks` (1 to
/// `INFERENCE_MAX_SEQ` of them) into a buffer of `cap` bytes.
pub open spec fn generation_output(d: Seq<u8>, m: ModelLayout, toks: Seq<u32>, n: int, cap: int, max_new: int) -> Seq<u8> {
    let pre = prefill(d, m, toks, 0, n, Seq::empty(), zero_cache(m.config));
    generated(d, m, n, pre.0, pre.1, Seq::empty(), gen_limit(n, max_new), cap)
}

/// Whether that generation stays in range.
pub open spec fn generation_ok(d: Seq<u8>, m: ModelLayout, toks: Seq<u32>, n: int, cap: int, max_new: int) -> bool {
    let pre = prefill(d, m, toks, 0, n, Seq::empty(), zero_cache(m.config));
    &&& prefill_fits(d, m, toks, 0, n, zero_cache(m.config))
    &&& generation_fits(d, m, n, pre.0, pre.1, Seq::empty(), gen_limit(n, max_new), cap)
}

/// Generate text from the first `n_prompt` tokens of `prompt_tokens`: clear
/// the cache, run the prompt, then decode greedily into `output`. Returns
/// the bytes written; nothing when the prompt is empty or longer than the
/// cache.
pub fn generate_from_tokens(
    slot: &mut ModelSlot,
    prompt_tokens: &[u32],
    n_prompt: usize,
    output: &mut [u8],
    max_new_tokens: usize,
) -> (n: usize)
    requires
        slot_ok(*old(slot)),
        1 <= n_prompt <= INFERENCE_MAX_SEQ ==> n_prompt <= prompt_tokens@.len() && generation_ok(
            old(slot).data@,
            old(slot).layout,
            prompt_tokens@,
            n_prompt as int,
            old(output)@.len() as int,
            max_new_tokens as int,
        ),
    ensures
        slot_ok(*final(slot)),
        final(slot).data == old(slot).data,
        final(slot).layout == old(slot).layout,
        final(slot).tokenizer == old(slot).tokenizer,
        final(output)@.len() == old(output)@.len(),
        n <= old(output)@.len(),
        n_prompt == 0 || n_prompt > INFERENCE_MAX_SEQ ==> n == 0 && final(output)@ == old(output)@
            && *final(slot) == *old(slot),
        1 <= n_prompt <= INFERENCE_MAX_SEQ ==> final(output)@.take(n as int) == generation_output(
            old(slot).data@,
            old(slot).layout,
            prompt_tokens@,
            n_prompt as int,
            old(output)@.len() as int,
            max_new_tokens as int,
        ),
        final(output)@.skip(n as int) == old(output)@.skip(n as int),
{
    if n_prompt == 0 || n_prompt > INFERENCE_MAX_SEQ {
        assert(output@.skip(0) == output@);
        return 0;
    }
    let ghost d = slot.data@;
    let ghost m = slot.layout;
    let ghost toks = prompt_tokens@;
    let ghost cap = output@.len() as int;
    let ghost out0 = output@;
    reset_kv_cache(&mut slot.state);
    assert(slot.state.kv@ == zero_cache(m.config));
    let ghost target = prefill(d, m, toks, 0, n_prompt as int, Seq::empty(), zero_cache(m.config));
    let mut i: usize = 0;
    while i < n_prompt
        invariant
            slot_ok(*slot),
            slot.data@ == d,
            slot.layout == m,
            slot.tokenizer == old(slot).tokenizer,
            slot.data == old(slot).data,
            toks == prompt_tokens@,
            1 <= n_prompt <= INFERENCE_MAX_SEQ,
            n_prompt <= toks.len(),
            i <= n_prompt,
            prefill(d, m, toks, i as int, n_prompt as int, if i == 0 { Seq::empty() } else { slot.state.logits@ }, slot.state.kv@) == target,
            prefill_fits(d, m, toks, i as int, n_prompt as int, slot.state.kv@),
        decreases n_prompt - i,
    {
        forward_token(&mut slot.state, slot.data.as_slice(), &slot.layout, prompt_tokens[i] as usize, i);
        i = i + 1;
    }
    let mut pos: usize = n_prompt;
    let mut out_len: usize = 0;
    let mut next_token = get_next_token(&slot.state.logits);
    let limit = if max_new_tokens < INFERENCE_MAX_SEQ - pos { max_new_tokens } else { INFERENCE_MAX_SEQ - pos };
    let ghost result = generated(d, m, pos as int, target.0, target.1, Seq::empty(), gen_limit(n_prompt as int, max_new_tokens as int), cap);
    let mut decode_buf: Vec<u8> = vec![0u8; DECODE_BUF_LEN];
    let out_cap = output.len();
    let mut step: usize = 0;
    assert(output@.take(0) == Seq::<u8>::empty());
    while step < limit
        invariant_except_break
            generated(d, m, pos as int, slot.state.logits@, slot.state.kv@, output@.take(out_len as int), (limit - step) as nat, cap) == result,
            generation_fits(d, m, pos as int, slot.state.logits@, slot.state.kv@, output@.take(out_len as int), (limit - step) as nat, cap),
        invariant
            slot_ok(*slot),
            slot.data@ == d,
            slot.layout == m,
            slot.tokenizer == old(slot).tokenizer,
            slot.data == old(slot).data,
            step <= limit,
            pos <= INFERENCE_MAX_SEQ,
            next_token == first_max(slot.state.logits@),
            next_token < m.config.vocab_size,
            decode_buf@.len() == DECODE_BUF_LEN,
            out_cap == cap,
            out0.len() == cap,
            output@.len() == cap,
            out_len <= cap,
            output@.skip(out_len as int) == out0.skip(out_len as int),
        ensures
            output@.take(out_len as int) == result,
            output@.len() == cap,
            out_len <= cap,
            output@.skip(out_len as int) == out0.skip(out_len as int),
        decreases limit - step,
    {
        let tok = next_token as u32;
        if tok == TOKEN_ENDOFTEXT || tok == TOKEN_IM_END || pos >= INFERENCE_MAX_SEQ {
            proof {
                lemma_gen_step(d, m, pos as int, slot.state.logits@, slot.state.kv@, output@.take(out_len as int), (limit - step) as nat, cap);
            }
            break;
        }
        let tok_bytes = decode_token_bytes(slot.data.as_slice(), slot.layout.tok_offsets.as_slice(), next_token);
        let raw_len = gpt2_decode_token(tok_bytes, decode_buf.as_mut_slice());
        let room = out_cap - out_len;
        let copy_len = if raw_len < room { raw_len } else { room };
        if copy_len == 0 {
            proof {
                assert(decode_buf@.take(raw_len as int) == decoded_piece(d, m, next_token as int));
                lemma_gen_step(d, m, pos as int, slot.state.logits@, slot.state.kv@, output@.take(out_len as int), (limit - step) as nat, cap);
            }
            break;
        }
        let ghost before = output@;
        let ghost piece = decoded_piece(d, m, next_token as int);
        assert(decode_buf@.take(raw_len as int) == piece);
        write_at(output, out_len, decode_buf.as_slice(), copy_len);
        proof {
            lemma_gen_step(d, m, pos as int, slot.state.logits@, slot.state.kv@, before.take(out_len as int), (limit - step) as nat, cap);
            assert(piece.take(copy_len as int) =~= decode_buf@.take(copy_len as int));
            assert(output@.take((out_len + copy_len) as int) =~= before.take(out_len as int) + piece.take(copy_len as int));
            lemma_skip_more(before, out0, out_len as int, (out_len + copy_len) as int);
            assert(output@.skip((out_len + copy_len) as int) =~= before.skip((out_len + copy_len) as int));
        }
        out_len = out_len + copy_len;
        forward_token(&mut slot.state, slot.data.as_slice(), &slot.layout, next_token, pos);
        pos = pos + 1;
        next_token = get_next_token(&slot.state.logits);
        step = step + 1;
    }
    out_len
}

/// Copy the first `n` bytes of `src` into `output` at `at`.
fn write_at(output: &mut [u8], at: usize, src: &[u8], n: usize)
    requires
        at + n <= old(output)@.len(),
        n <= src@.len(),
    ensures
        final(output)@ == old(output)@.take(at as int) + src@.take(n as int) + old(output)@.skip(at + n),
{
    let ghost before = output@;
    let olen = output.len();
    let mut k: usize = 0;
    while k < n
        invariant
            k <= n,
            olen == before.len(),
            n <= src@.len(),
            at + n <= before.len(),
            output@.len() == before.len(),
            forall|j: int| 0 <= j < at ==> output@[j] == before[j],
            forall|j: int| at + n <= j < before.len() ==> output@[j] == before[j],
            forall|j: int| 0 <= j < k ==> output@[at + j] == src@[j],
        decreases n - k,
    {
        output[at + k] = src[k];
        k = k + 1;
    }
    assert(output@ =~= before.take(at as int) + src@.take(n as int) + before.skip(at + n));
}

proof fn lemma_skip_more(a: Seq<u8>, b: Seq<u8>, i: int, j: int)
    requires
        0 <= i <= j <= a.len(),
        a.len() == b.len(),
        a.skip(i) == b.skip(i),
    ensures
        a.skip(j) == b.skip(j),
{
    assert forall|k: int| 0 <= k < a.len() - j implies #[trigger] a.skip(j)[k] == b.skip(j)[k] by {
        assert(a.skip(i)[k + j - i] == b.skip(i)[k + j - i]);
    }
    assert(a.skip(j) =~= b.skip(j));
}

/// One step of greedy decoding, unfolded.
proof fn lemma_gen_step(d: Seq<u8>, m: ModelLayout, pos: int, logits: Seq<i32>, kv: Seq<i32>, out: Seq<u8>, left: nat, cap: int)
    requires
        left > 0,
    ensures
        ({
            let t = first_max(logits);
            let piece = decoded_piece(d, m, t);
            let room = cap - out.len();
            let n = if piece.len() < room { piece.len() as int } else { room };
            let r = forward_result(d, m, t, pos, kv);
            if t == TOKEN_ENDOFTEXT || t == TOKEN_IM_END || pos >= INFERENCE_MAX_SEQ || n <= 0 {
                generated(d, m, pos, logits, kv, out, left, cap) == out
            } else {
                &&& generated(d, m, pos, logits, kv, out, left, cap) == generated(d, m, pos + 1, r.0, r.1, out + piece.take(n), (left - 1) as nat, cap)
                &&& generation_fits(d, m, pos, logits, kv, out, left, cap) == (forward_fits(d, m, t, pos, kv)
                    && generation_fits(d, m, pos + 1, r.0, r.1, out + piece.take(n), (left - 1) as nat, cap))
            }
        }),
{
}

/// What `generate` runs: the tokens of `prompt`, at most as many as leave
/// room for `max_new` new ones in the cache.
pub open spec fn prompt_run(s: ModelSlot, prompt: Seq<u8>, max_new: int) -> (Seq<u32>, int) {
    let toks = bpe_encoded(s.data@, s.layout.tok_offsets@, s.tokenizer, prompt, PROMPT_TOKENS_MAX as int);
    let room = if max_new < INFERENCE_MAX_SEQ { INFERENCE_MAX_SEQ - max_new } else { 0 };
    (toks, if toks.len() < room { toks.len() as int } else { room })
}

/// Room for the tokens of a prompt.
pub const PROMPT_TOKENS_MAX: usize = 512;

/// Generate text from a raw prompt: encode it, keep at most as many tokens
/// as leave room for `max_new_tokens` new ones, and generate from those.
pub fn generate(slot: &mut ModelSlot, prompt: &[u8], output: &mut [u8], max_new_tokens: usize) -> (n: usize)
    requires
        slot_ok(*old(slot)),
        prompt_run(*old(slot), prompt@, max_new_tokens as int).1 > 0 ==> generation_ok(
            old(slot).data@,
            old(slot).layout,
            prompt_run(*old(slot), prompt@, max_new_tokens as int).0,
            prompt_run(*old(slot), prompt@, max_new_tokens as int).1,
            old(output)@.len() as int,
            max_new_tokens as int,
        ),
    ensures
        slot_ok(*final(slot)),
        final(slot).data == old(slot).data,
        final(slot).layout == old(slot).layout,
        final(slot).tokenizer == old(slot).tokenizer,
        final(output)@.len() == old(output)@.len(),
        n <= old(output)@.len(),
        final(output)@.take(n as int) == (if prompt_run(*old(slot), prompt@, max_new_tokens as int).1 == 0 {
            Seq::empty()
        } else {
            generation_output(
                old(slot).data@,
                old(slot).layout,
                prompt_run(*old(slot), prompt@, max_new_tokens as int).0,
                prompt_run(*old(slot), prompt@, max_new_tokens as int).1,
                old(output)@.len() as int,
                max_new_tokens as int,
            )
        }),
        final(output)@.skip(n as int) == old(output)@.skip(n as int),
{
    let ghost run = prompt_run(*slot, prompt@, max_new_tokens as int);
    let mut prompt_tokens: Vec<u32> = vec![0u32; PROMPT_TOKENS_MAX];
    let n_encoded = encode_bpe(
        slot.data.as_slice(),
        slot.layout.tok_offsets.as_slice(),
        &slot.tokenizer,
        prompt,
        prompt_tokens.as_mut_slice(),
    );
    let room = if max_new_tokens < INFERENCE_MAX_SEQ { INFERENCE_MAX_SEQ - max_new_tokens } else { 0 };
    let n_prompt = if n_encoded < room { n_encoded } else { room };
    if n_prompt == 0 {
        assert(output@.take(0) =~= Seq::<u8>::empty());
        assert(output@.skip(0) == output@);
        return 0;
    }
    proof {
        assert(prompt_tokens@.take(n_encoded as int) == run.0);
        assert forall|j: int| 0 <= j < n_prompt implies prompt_tokens@[j] == run.0[j] by {
            assert(prompt_tokens@.take(n_encoded as int)[j] == prompt_tokens@[j]);
        }
        lemma_generation_prefix(slot.data@, slot.layout, prompt_tokens@, run.0, n_prompt as int, output@.len() as int, max_new_tokens as int);
    }
    generate_from_tokens(slot, prompt_tokens.as_slice(), n_prompt, output, max_new_tokens)
}

proof fn lemma_prefill_prefix(d: Seq<u8>, m: ModelLayout, a: Seq<u32>, b: Seq<u32>, i: int, n: int, logits: Seq<i32>, kv: Seq<i32>)
    requires
        n <= a.len(),
        n <= b.len(),
        forall|j: int| 0 <= j < n ==> a[j] == b[j],
    ensures
        prefill(d, m, a, i, n, logits, kv) == prefill(d, m, b, i, n, logits, kv),
        prefill_fits(d, m, a, i, n, kv) == prefill_fits(d, m, b, i, n, kv),
    decreases n - i,
{
    if 0 <= i < n {
        let r = forward_result(d, m, a[i] as int, i, kv);
        lemma_prefill_prefix(d, m, a, b, i + 1, n, r.0, r.1);
    }
}

proof fn lemma_generation_prefix(d: Seq<u8>, m: ModelLayout, a: Seq<u32>, b: Seq<u32>, n: int, cap: int, max_new: int)
    requires
        n <= a.len(),
        n <= b.len(),
        forall|j: int| 0 <= j < n ==> a[j] == b[j],
    ensures
        generation_output(d, m, a, n, cap, max_new) == generation_output(d, m, b, n, cap, max_new),
        generation_ok(d, m, a, n, cap, max_new) == generation_ok(d, m, b, n, cap, max_new),
{
    lemma_prefill_prefix(d, m, a, b, 0, n, Seq::empty(), zero_cache(m.config));
}

} // verus!
