//! The transformer forward pass of the INT8 (v1) model in Q16.16 fixed
//! point: the inference buffers and KV cache, and one token's pass through
//! embedding, attention and feed-forward layers to the logits.

use vstd::prelude::*;

use crate::math::{
    elementwise_mul_inplace_q16, in_i64, le_i32_value, matmul_q8, matmul_q8_fits, matmul_q8_shapes,
    q8_row_sum, rmsnorm_fits, rmsnorm_q16, rmsnorm_rsqrt, rmsnorm_x_norm, rope_apply_q16, rope_first,
    rope_fits, rope_pair_rotated, rope_second, silu_q16_spec, silu_vec_q16, softmax_fits, softmax_q16,
    softmax_value,
};
use crate::model::{
    header_config, layer_at, layer_bytes, layout_of, model_ok, q8_at, q8_size, weights_start, LayerRef,
    ModelConfig, ModelLayout, Q8Ref, TOK_SECTION_OFF,
};

verus! {

/// The longest sequence the KV cache holds.
pub const INFERENCE_MAX_SEQ: usize = 256;

/// The activations and KV cache of the INT8 forward pass.
pub struct InferenceState {
    /// Per layer, the keys then the values of each KV head at each position.
    pub kv: Vec<i32>,
    pub x: Vec<i32>,
    pub xb: Vec<i32>,
    pub xb2: Vec<i32>,
    pub q: Vec<i32>,
    pub k: Vec<i32>,
    pub v: Vec<i32>,
    pub att: Vec<i32>,
    pub hb: Vec<i32>,
    pub hb2: Vec<i32>,
    pub logits: Vec<i32>,
}

/// Entries of the KV cache for a model of shape `c`.
pub open spec fn kv_len(c: ModelConfig) -> int {
    c.n_layers as int * 2 * c.n_kv_heads as int * INFERENCE_MAX_SEQ as int * c.head_dim as int
}

/// Whether the buffer sizes of a model of shape `c` can be counted.
pub open spec fn state_sizes_fit(c: ModelConfig) -> bool {
    &&& kv_len(c) <= usize::MAX
    &&& c.n_kv_heads as int * c.head_dim as int <= usize::MAX
}

/// Whether `s` has the buffers of a model of shape `c`.
pub open spec fn state_fits(c: ModelConfig, s: InferenceState) -> bool {
    &&& s.kv@.len() == kv_len(c)
    &&& s.x@.len() == c.dim
    &&& s.xb@.len() == c.dim
    &&& s.xb2@.len() == c.dim
    &&& s.q@.len() == c.dim
    &&& s.k@.len() == c.n_kv_heads as int * c.head_dim as int
    &&& s.v@.len() == c.n_kv_heads as int * c.head_dim as int
    &&& s.att@.len() == INFERENCE_MAX_SEQ
    &&& s.hb@.len() == c.hidden_dim
    &&& s.hb2@.len() == c.hidden_dim
    &&& s.logits@.len() == c.vocab_size
}

proof fn lemma_nonneg_mul(a: int, b: int)
    requires
        a >= 0,
        b >= 0,
    ensures
        a * b >= 0,
{
    assert(a * b >= 0) by (nonlinear_arith)
        requires
            a >= 0,
            b >= 0,
    ;
}

/// Allocate zeroed activation buffers and KV cache for a model of shape `c`.
pub fn alloc_inference_state(c: &ModelConfig) -> (s: InferenceState)
    requires
        state_sizes_fit(*c),
    ensures
        state_fits(*c, s),
        all_zero(s),
{
    let n_kv_heads = c.n_kv_heads as usize;
    let head_dim = c.head_dim as usize;
    proof {
        lemma_nonneg_mul(c.n_layers as int * 2, c.n_kv_heads as int);
        lemma_nonneg_mul(c.n_layers as int * 2 * c.n_kv_heads as int, INFERENCE_MAX_SEQ as int);
        lemma_nonneg_mul(c.n_layers as int * 2 * c.n_kv_heads as int * INFERENCE_MAX_SEQ as int, c.head_dim as int);
        assert(c.n_layers as int * 2 * c.n_kv_heads as int <= kv_len(*c) || c.head_dim == 0) by (nonlinear_arith)
            requires
                c.n_layers as int * 2 * c.n_kv_heads as int * INFERENCE_MAX_SEQ as int >= 0,
                c.n_layers as int * 2 * c.n_kv_heads as int >= 0,
        ;
    }
    let a: u128 = c.n_layers as u128 * 2;
    assert(a * (c.n_kv_heads as u128) < 0x1_0000_0000_0000_0000_0000) by (nonlinear_arith)
        requires
            a < 0x2_0000_0000,
            c.n_kv_heads < 0x1_0000_0000,
    ;
    let b: u128 = a * c.n_kv_heads as u128;
    let b2: u128 = b * INFERENCE_MAX_SEQ as u128;
    assert(b2 * (c.head_dim as u128) < 0x1_0000_0000_0000_0000_0000_0000_0000_0000) by (nonlinear_arith)
        requires
            b2 < 0x1_0000_0000_0000_0000_0000_0000,
            c.head_dim < 0x1_0000_0000,
    ;
    let kv_total: u128 = b2 * c.head_dim as u128;
    assert(kv_total == kv_len(*c));
    let kv_len = kv_total as usize;
    let kv_dim = n_kv_heads * head_dim;
    let s = InferenceState {
        kv: zeros(kv_len),
        x: zeros(c.dim as usize),
        xb: zeros(c.dim as usize),
        xb2: zeros(c.dim as usize),
        q: zeros(c.dim as usize),
        k: zeros(kv_dim),
        v: zeros(kv_dim),
        att: zeros(INFERENCE_MAX_SEQ),
        hb: zeros(c.hidden_dim as usize),
        hb2: zeros(c.hidden_dim as usize),
        logits: zeros(c.vocab_size as usize),
    };
    s
}

/// `n` zeros.
pub open spec fn zero_seq(n: int) -> Seq<i32> {
    Seq::new(n as nat, |i: int| 0i32)
}

/// `n` zeros.
fn zeros(n: usize) -> (v: Vec<i32>)
    ensures
        v@ == zero_seq(n as int),
{
    let mut v: Vec<i32> = Vec::new();
    for i in 0..n
        invariant
            v@ == zero_seq(i as int),
    {
        v.push(0);
        assert(v@ =~= zero_seq(i + 1));
    }
    v
}

/// Whether every buffer of `s` holds zeros.
pub open spec fn all_zero(s: InferenceState) -> bool {
    &&& s.kv@ == zero_seq(s.kv@.len() as int)
    &&& s.x@ == zero_seq(s.x@.len() as int)
    &&& s.xb@ == zero_seq(s.xb@.len() as int)
    &&& s.xb2@ == zero_seq(s.xb2@.len() as int)
    &&& s.q@ == zero_seq(s.q@.len() as int)
    &&& s.k@ == zero_seq(s.k@.len() as int)
    &&& s.v@ == zero_seq(s.v@.len() as int)
    &&& s.att@ == zero_seq(s.att@.len() as int)
    &&& s.hb@ == zero_seq(s.hb@.len() as int)
    &&& s.hb2@ == zero_seq(s.hb2@.len() as int)
    &&& s.logits@ == zero_seq(s.logits@.len() as int)
}

/// Zero the KV cache between conversations.
pub fn reset_kv_cache(s: &mut InferenceState)
    ensures
        final(s).kv@ == Seq::new(old(s).kv@.len(), |i: int| 0i32),
        final(s).x == old(s).x,
        final(s).xb == old(s).xb,
        final(s).xb2 == old(s).xb2,
        final(s).q == old(s).q,
        final(s).k == old(s).k,
        final(s).v == old(s).v,
        final(s).att == old(s).att,
        final(s).hb == old(s).hb,
        final(s).hb2 == old(s).hb2,
        final(s).logits == old(s).logits,
{
    let n = s.kv.len();
    for i in 0..n
        invariant
            s.kv@.len() == n,
            n == old(s).kv@.len(),
            forall|j: int| 0 <= j < i ==> s.kv@[j] == 0,
            s.x == old(s).x,
            s.xb == old(s).xb,
            s.xb2 == old(s).xb2,
            s.q == old(s).q,
            s.k == old(s).k,
            s.v == old(s).v,
            s.att == old(s).att,
            s.hb == old(s).hb,
            s.hb2 == old(s).hb2,
            s.logits == old(s).logits,
    {
        s.kv.set(i, 0);
    }
    assert(s.kv@ =~= Seq::new(old(s).kv@.len(), |i: int| 0i32));
}

// ---------------------------------------------------------------------------
// The stages of the pass, as values
// ---------------------------------------------------------------------------

/// The blob from `off` on.
pub open spec fn from_off(d: Seq<u8>, off: int) -> Seq<u8> {
    d.subrange(off, d.len() as int)
}

/// `v` brought into the `i32` range.
pub open spec fn sat_i32(v: int) -> i32 {
    if v < i32::MIN { i32::MIN } else if v > i32::MAX { i32::MAX } else { v as i32 }
}

/// The product of the matrix `m` of the blob (rows by cols, groups of
/// `gs`) with `x`.
pub open spec fn q8_matvec(d: Seq<u8>, m: Q8Ref, x: Seq<i32>, rows: int, cols: int, gs: int) -> Seq<i32> {
    Seq::new(
        rows as nat,
        |r: int|
            q8_row_sum(from_off(d, m.data_off as int), from_off(d, m.scale_off as int), x, r, cols, gs, (cols / gs) as nat) as i32,
    )
}

/// Whether that product stays in range.
pub open spec fn q8_matvec_fits(d: Seq<u8>, m: Q8Ref, x: Seq<i32>, rows: int, cols: int, gs: int) -> bool {
    matmul_q8_fits(from_off(d, m.data_off as int), from_off(d, m.scale_off as int), x, rows, cols, gs)
}

/// Whether the matrix `m` (rows by cols, groups of `gs`) lies in a blob of
/// `len` bytes.
pub open spec fn q8_in_blob(m: Q8Ref, len: int, rows: int, cols: int, gs: int) -> bool {
    &&& gs > 0
    &&& cols % gs == 0
    &&& m.data_off + rows * cols <= len
    &&& m.scale_off == m.data_off + rows * cols
    &&& m.scale_off + rows * (cols / gs) * 4 <= len
    &&& rows * cols <= usize::MAX
    &&& 0 <= rows
    &&& 0 <= cols
}

/// `x` normalized by RMSNorm with the weights at `off`.
pub open spec fn rms_vec(x: Seq<i32>, d: Seq<u8>, off: int, dim: int) -> Seq<i32> {
    Seq::new(
        dim as nat,
        |i: int|
            (rmsnorm_x_norm(x[i] as int, rmsnorm_rsqrt(x, dim as nat)) * le_i32_value(from_off(d, off), i * 4)
                / 65536) as i32,
    )
}

/// Whether that normalization stays in range.
pub open spec fn rms_fits(x: Seq<i32>, d: Seq<u8>, off: int, dim: int) -> bool {
    rmsnorm_fits(x, from_off(d, off), dim as nat)
}

/// `v` with RoPE applied for position `pos` to each of its heads.
pub open spec fn roped_heads(v: Seq<i32>, hd: int, pos: usize) -> Seq<i32> {
    Seq::new(
        v.len(),
        |j: int|
            {
                let h = j / hd;
                let l = j % hd;
                if l < hd / 2 * 2 {
                    if l % 2 == 0 {
                        rope_first(v[j] as int, v[j + 1] as int, pos, l / 2)
                    } else {
                        rope_second(v[j - 1] as int, v[j] as int, pos, l / 2)
                    }
                } else {
                    v[j]
                }
            },
    )
}

/// `a` plus `b`, wrapping, element by element.
pub open spec fn wrapping_sum(a: Seq<i32>, b: Seq<i32>) -> Seq<i32> {
    Seq::new(a.len(), |i: int| a[i].wrapping_add(b[i]))
}

/// SiLU of `a` times `b`, element by element, in Q16.16.
pub open spec fn gated(a: Seq<i32>, b: Seq<i32>) -> Seq<i32> {
    Seq::new(a.len(), |i: int| ((silu_q16_spec(a[i] as int) as i32) as int * b[i] as int / 65536) as i32)
}

// ---------------------------------------------------------------------------
// The stages of the pass, as code
// ---------------------------------------------------------------------------

/// `out = m · x` for the matrix `m` of the blob.
fn matvec(out: &mut Vec<i32>, x: &Vec<i32>, d: &[u8], m: &Q8Ref, rows: usize, cols: usize, gs: usize)
    requires
        old(out)@.len() == rows,
        x@.len() == cols,
        q8_in_blob(*m, d@.len() as int, rows as int, cols as int, gs as int),
        q8_matvec_fits(d@, *m, x@, rows as int, cols as int, gs as int),
    ensures
        final(out)@ == q8_matvec(d@, *m, x@, rows as int, cols as int, gs as int),
{
    let ghost w = from_off(d@, m.data_off as int);
    let ghost sc = from_off(d@, m.scale_off as int);
    proof {
        lemma_nonneg_mul(rows as int, cols as int);
        lemma_nonneg_mul(rows as int, (cols / gs) as int);
        if rows > 0 {
            assert((rows - 1) * cols <= rows * cols) by (nonlinear_arith)
                requires rows > 0, cols >= 0;
            assert((rows - 1) * cols + cols == rows * cols) by (nonlinear_arith);
            assert(cols / gs * gs == cols) by (nonlinear_arith)
                requires cols % gs == 0, gs > 0;
        }
    }
    let n = d.len();
    matmul_q8(out.as_mut_slice(), x.as_slice(), &d[m.data_off..n], &d[m.scale_off..n], rows, cols, gs);
    assert(out@ =~= q8_matvec(d@, *m, x@, rows as int, cols as int, gs as int));
}

/// `out = RMSNorm(x)` with the weights at `off`.
fn rms(out: &mut Vec<i32>, x: &Vec<i32>, d: &[u8], off: usize, dim: usize)
    requires
        old(out)@.len() == dim,
        x@.len() == dim,
        dim > 0,
        off + dim * 4 <= d@.len(),
        rms_fits(x@, d@, off as int, dim as int),
    ensures
        final(out)@ == rms_vec(x@, d@, off as int, dim as int),
{
    let n = d.len();
    rmsnorm_q16(out.as_mut_slice(), x.as_slice(), &d[off..n], dim);
    assert(out@ =~= rms_vec(x@, d@, off as int, dim as int));
}

/// Apply RoPE for position `pos` to each head of `v` (heads of `hd`).
fn rope_heads(v: &mut Vec<i32>, n_heads: usize, hd: usize, pos: usize)
    requires
        hd > 0,
        old(v)@.len() == n_heads * hd,
        rope_fits(pos, (hd / 2) as int),
    ensures
        final(v)@ == roped_heads(old(v)@, hd as int, pos),
{
    let ghost v0 = v@;
    let ghost target = roped_heads(v0, hd as int, pos);
    let len = v.len();
    let mut h: usize = 0;
    let mut base: usize = 0;
    while h < n_heads
        invariant
            len == v@.len(),
            v@.len() == n_heads * hd,
            v0.len() == n_heads * hd,
            hd > 0,
            h <= n_heads,
            base == h * hd,
            base <= len,
            rope_fits(pos, (hd / 2) as int),
            target == roped_heads(v0, hd as int, pos),
            forall|j: int| 0 <= j < base ==> v@[j] == target[j],
            forall|j: int| base <= j < v0.len() ==> v@[j] == v0[j],
        decreases n_heads - h,
    {
        assert((h + 1) * hd <= n_heads * hd) by (nonlinear_arith)
            requires h < n_heads, hd > 0;
        assert((h + 1) * hd == h * hd + hd) by (nonlinear_arith);
        let mut head: Vec<i32> = Vec::new();
        for j in 0..hd
            invariant
                len == v@.len(),
                base + hd <= v@.len(),
                head@ == v@.subrange(base as int, base + j),
        {
            head.push(v[base + j]);
            assert(v@.subrange(base as int, base + j + 1) == v@.subrange(base as int, base + j).push(v@[base + j]));
        }
        let ghost before = v@;
        let ghost h0 = head@;
        assert(hd / 2 * 2 <= hd);
        rope_apply_q16(head.as_mut_slice(), pos, hd);
        for j in 0..hd
            invariant
                len == v@.len(),
                base + hd <= v@.len(),
                v@.len() == before.len(),
                head@.len() == hd,
                forall|k: int| 0 <= k < j ==> v@[base + k] == head@[k],
                forall|k: int| 0 <= k < base ==> v@[k] == before[k],
                forall|k: int| base + j <= k < v@.len() ==> v@[k] == before[k],
        {
            v.set(base + j, head[j]);
        }
        proof {
            assert forall|j: int| 0 <= j < base + hd implies v@[j] == target[j] by {
                if j >= base {
                    let l = j - base;
                    assert(j / (hd as int) == h) by (nonlinear_arith)
                        requires j >= h * hd, j < h * hd + hd, hd > 0;
                    assert(j % (hd as int) == l) by (nonlinear_arith)
                        requires j >= h * hd, j < h * hd + hd, hd > 0, l == j - h * hd;
                    if l < hd / 2 * 2 {
                        let i = l / 2;
                        assert(rope_pair_rotated(head@, h0, pos, i));
                        assert(h0[2 * i] == v0[base + 2 * i]);
                        assert(h0[2 * i + 1] == v0[base + 2 * i + 1]);
                        if l % 2 == 0 {
                            assert(l == 2 * i);
                        } else {
                            assert(l == 2 * i + 1);
                        }
                    } else {
                        assert(head@[l] == h0[l]);
                    }
                }
            }
        }
        h = h + 1;
        base = base + hd;
    }
    assert(v@ =~= target);
}

/// `x += y`, wrapping.
fn add_residual(x: &mut Vec<i32>, y: &Vec<i32>)
    requires
        old(x)@.len() == y@.len(),
    ensures
        final(x)@ == wrapping_sum(old(x)@, y@),
{
    let ghost x0 = x@;
    let n = x.len();
    for i in 0..n
        invariant
            n == x0.len(),
            x@.len() == x0.len(),
            x0.len() == y@.len(),
            forall|j: int| 0 <= j < i ==> x@[j] == x0[j].wrapping_add(y@[j]),
            forall|j: int| i <= j < x0.len() ==> x@[j] == x0[j],
    {
        let xi = x[i];
        x.set(i, xi.wrapping_add(y[i]));
    }
    assert(x@ =~= wrapping_sum(x0, y@));
}

// ---------------------------------------------------------------------------
// Embedding
// ---------------------------------------------------------------------------

/// The embedding of token `token`: each INT8 weight of its row times its
/// group's scale, saturated to `i32`.
pub open spec fn embed_vec(d: Seq<u8>, e: Q8Ref, dim: int, gs: int, token: int) -> Seq<i32> {
    Seq::new(
        dim as nat,
        |c: int|
            sat_i32(
                crate::math::i8_value(d[e.data_off + token * dim + c]) * le_i32_value(
                    d,
                    e.scale_off + token * (dim / gs) * 4 + (c / gs) * 4,
                ),
            ),
    )
}

proof fn lemma_row_index(token: int, dim: int, c: int, vocab: int)
    requires
        0 <= token < vocab,
        0 <= c < dim,
    ensures
        0 <= token * dim + c < vocab * dim,
{
    assert(0 <= token * dim + c < vocab * dim) by (nonlinear_arith)
        requires 0 <= token < vocab, 0 <= c < dim;
}

/// Look up the embedding of `token` into `x`.
fn embed_token(x: &mut Vec<i32>, d: &[u8], e: &Q8Ref, vocab: usize, dim: usize, gs: usize, token: usize)
    requires
        old(x)@.len() == dim,
        token < vocab,
        q8_in_blob(*e, d@.len() as int, vocab as int, dim as int, gs as int),
    ensures
        final(x)@ == embed_vec(d@, *e, dim as int, gs as int, token as int),
{
    let ghost target = embed_vec(d@, *e, dim as int, gs as int, token as int);
    let n_groups = dim / gs;
    let dlen = d.len();
    proof {
        assert(token * dim <= vocab * dim) by (nonlinear_arith)
            requires token < vocab, dim >= 0;
        lemma_nonneg_mul(token as int, dim as int);
        assert(n_groups * gs == dim) by (nonlinear_arith)
            requires n_groups == dim / gs, dim % gs == 0, gs > 0;
        assert(token * n_groups * 4 + n_groups * 4 <= vocab * n_groups * 4) by (nonlinear_arith)
            requires token < vocab, n_groups >= 0;
        lemma_nonneg_mul(token as int, n_groups as int);
        lemma_nonneg_mul(vocab as int, n_groups as int);
        assert(e.scale_off + vocab * n_groups * 4 <= dlen);
    }
    let row_off = token * dim;
    let scale_row_off = token * n_groups * 4;
    let mut filled: usize = 0;
    let mut g: usize = 0;
    assert(filled == g * gs) by (nonlinear_arith)
        requires g == 0, filled == 0;
    while g < n_groups
        invariant
            g <= n_groups,
            filled == g * gs,
            x@.len() == dim,
            n_groups * gs == dim,
            n_groups == dim / gs,
            gs > 0,
            token < vocab,
            row_off == token * dim,
            scale_row_off == token * n_groups * 4,
            scale_row_off + n_groups * 4 <= vocab * n_groups * 4,
            e.scale_off + vocab * n_groups * 4 <= dlen,
            dlen == d@.len(),
            q8_in_blob(*e, d@.len() as int, vocab as int, dim as int, gs as int),
            target == embed_vec(d@, *e, dim as int, gs as int, token as int),
            forall|c: int| 0 <= c < filled ==> x@[c] == target[c],
        decreases n_groups - g,
    {
        assert((g + 1) * gs <= dim) by (nonlinear_arith)
            requires g < n_groups, n_groups * gs == dim, gs > 0;
        assert((g + 1) * gs == g * gs + gs) by (nonlinear_arith);
        let sb = e.scale_off + scale_row_off + g * 4;
        let scale = crate::math::read_le_i32(d, sb);
        let base = g * gs;
        for j in 0..gs
            invariant
                x@.len() == dim,
                base == g * gs,
                base + gs <= dim,
                row_off == token * dim,
                token < vocab,
                q8_in_blob(*e, d@.len() as int, vocab as int, dim as int, gs as int),
                target == embed_vec(d@, *e, dim as int, gs as int, token as int),
                scale == le_i32_value(d@, e.scale_off + token * (dim / gs) * 4 + g * 4),
                gs > 0,
                forall|c: int| 0 <= c < base + j ==> x@[c] == target[c],
        {
            let c = base + j;
            proof {
                lemma_row_index(token as int, dim as int, c as int, vocab as int);
                assert((c as int) / (gs as int) == g) by (nonlinear_arith)
                    requires c == g * gs + j, j < gs, gs > 0;
            }
            let w = d[e.data_off + row_off + c];
            let wv: i64 = if w < 128 { w as i64 } else { w as i64 - 256 };
            assert(-0x80_0000_0000 <= wv * scale <= 0x80_0000_0000) by (nonlinear_arith)
                requires -128 <= wv <= 127, i32::MIN <= scale <= i32::MAX;
            let prod: i64 = wv * scale as i64;
            let r: i32 = if prod < i32::MIN as i64 {
                i32::MIN
            } else if prod > i32::MAX as i64 {
                i32::MAX
            } else {
                prod as i32
            };
            x.set(c, r);
        }
        filled = filled + gs;
        g = g + 1;
    }
    assert(x@ =~= target);
}

// ---------------------------------------------------------------------------
// The KV cache
// ---------------------------------------------------------------------------

/// Entries of one KV head across all positions.
pub open spec fn kv_head_stride(hd: int) -> int {
    INFERENCE_MAX_SEQ as int * hd
}

/// Entries of all keys (or all values) of one layer.
pub open spec fn kv_type_stride(nkv: int, hd: int) -> int {
    nkv * kv_head_stride(hd)
}

/// Where layer `l` starts in the cache.
pub open spec fn kv_layer_base(l: int, nkv: int, hd: int) -> int {
    l * (2 * kv_type_stride(nkv, hd))
}

/// Where entry `d` of the key (`kind` 0) or value (`kind` 1) of KV head `h`
/// at position `p` of layer `l` is in the cache.
pub open spec fn kv_index(l: int, kind: int, h: int, p: int, d: int, nkv: int, hd: int) -> int {
    kv_layer_base(l, nkv, hd) + kind * kv_type_stride(nkv, hd) + h * kv_head_stride(hd) + p * hd + d
}

/// The cache `kv` with the keys `k` and values `v` of layer `l` stored at
/// position `pos`.
pub open spec fn kv_written(kv: Seq<i32>, l: int, pos: int, k: Seq<i32>, v: Seq<i32>, nkv: int, hd: int) -> Seq<i32> {
    Seq::new(
        kv.len(),
        |i: int|
            {
                let r = i - kv_layer_base(l, nkv, hd);
                let kts = kv_type_stride(nkv, hd);
                let khs = kv_head_stride(hd);
                if 0 <= r < 2 * kts {
                    let rr = r % kts;
                    let rem = rr % khs;
                    let j = (rr / khs) * hd + rem % hd;
                    if rem / hd == pos {
                        if r / kts == 0 { k[j] } else { v[j] }
                    } else {
                        kv[i]
                    }
                } else {
                    kv[i]
                }
            },
    )
}

/// An index of the cache splits back into kind, head, position and entry.
proof fn lemma_kv_split(kind: int, h: int, p: int, d: int, nkv: int, hd: int)
    requires
        0 <= kind < 2,
        0 <= h < nkv,
        0 <= p < INFERENCE_MAX_SEQ,
        0 <= d < hd,
    ensures
        ({
            let kts = kv_type_stride(nkv, hd);
            let khs = kv_head_stride(hd);
            let r = kind * kts + h * khs + p * hd + d;
            &&& 0 <= r < 2 * kts
            &&& r / kts == kind
            &&& r % kts == h * khs + p * hd + d
            &&& (r % kts) / khs == h
            &&& (r % kts) % khs == p * hd + d
            &&& ((r % kts) % khs) / hd == p
            &&& ((r % kts) % khs) % hd == d
        }),
{
    let kts = kv_type_stride(nkv, hd);
    let khs = kv_head_stride(hd);
    let r = kind * kts + h * khs + p * hd + d;
    assert(0 <= p * hd + d < khs) by (nonlinear_arith)
        requires 0 <= p < 256, 0 <= d < hd, khs == 256 * hd;
    assert(0 <= h * khs + p * hd + d < kts) by (nonlinear_arith)
        requires 0 <= h < nkv, 0 <= p * hd + d < khs, kts == nkv * khs;
    assert(0 <= r < 2 * kts) by (nonlinear_arith)
        requires 0 <= kind < 2, 0 <= h * khs + p * hd + d < kts, r == kind * kts + h * khs + p * hd + d;
    vstd::arithmetic::div_mod::lemma_fundamental_div_mod_converse(r, kts, kind, h * khs + p * hd + d);
    vstd::arithmetic::div_mod::lemma_fundamental_div_mod_converse(h * khs + p * hd + d, khs, h, p * hd + d);
    vstd::arithmetic::div_mod::lemma_fundamental_div_mod_converse(p * hd + d, hd, p, d);
}

/// A position of the cache within a layer's block splits into kind, head,
/// position and entry.
proof fn lemma_kv_join(r: int, nkv: int, hd: int)
    requires
        nkv > 0,
        hd > 0,
        0 <= r < 2 * kv_type_stride(nkv, hd),
    ensures
        ({
            let kts = kv_type_stride(nkv, hd);
            let khs = kv_head_stride(hd);
            let rr = r % kts;
            let rem = rr % khs;
            &&& 0 <= r / kts < 2
            &&& 0 <= rr / khs < nkv
            &&& 0 <= rem / hd < INFERENCE_MAX_SEQ
            &&& 0 <= rem % hd < hd
            &&& r == (r / kts) * kts + (rr / khs) * khs + (rem / hd) * hd + rem % hd
        }),
{
    let kts = kv_type_stride(nkv, hd);
    let khs = kv_head_stride(hd);
    assert(khs > 0) by (nonlinear_arith)
        requires khs == 256 * hd, hd > 0;
    assert(kts > 0) by (nonlinear_arith)
        requires kts == nkv * khs, nkv > 0, khs > 0;
    let rr = r % kts;
    let rem = rr % khs;
    vstd::arithmetic::div_mod::lemma_fundamental_div_mod(r, kts);
    vstd::arithmetic::div_mod::lemma_fundamental_div_mod(rr, khs);
    vstd::arithmetic::div_mod::lemma_fundamental_div_mod(rem, hd);
    assert(0 <= r / kts < 2) by (nonlinear_arith)
        requires 0 <= r < 2 * kts, kts > 0, r == kts * (r / kts) + r % kts, 0 <= r % kts < kts;
    assert(0 <= rr / khs < nkv) by (nonlinear_arith)
        requires 0 <= rr < kts, kts == nkv * khs, khs > 0, rr == khs * (rr / khs) + rr % khs, 0 <= rr % khs < khs;
    assert(0 <= rem / hd < 256) by (nonlinear_arith)
        requires 0 <= rem < khs, khs == 256 * hd, hd > 0, rem == hd * (rem / hd) + rem % hd, 0 <= rem % hd < hd;
    assert(r == (r / kts) * kts + (rr / khs) * khs + (rem / hd) * hd + rem % hd) by (nonlinear_arith)
        requires
            r == kts * (r / kts) + rr,
            rr == khs * (rr / khs) + rem,
            rem == hd * (rem / hd) + rem % hd,
            rr == r % kts,
            rem == rr % khs;
}

proof fn lemma_kv_in_cache(l: int, n_layers: int, nkv: int, hd: int)
    requires
        0 <= l < n_layers,
        nkv >= 0,
        hd >= 0,
    ensures
        0 <= kv_layer_base(l, nkv, hd),
        kv_layer_base(l, nkv, hd) + 2 * kv_type_stride(nkv, hd) <= n_layers * 2 * nkv * INFERENCE_MAX_SEQ * hd,
{
    let kts = kv_type_stride(nkv, hd);
    assert(kts >= 0) by (nonlinear_arith)
        requires kts == nkv * (256 * hd), nkv >= 0, hd >= 0;
    assert(0 <= l * (2 * kts)) by (nonlinear_arith)
        requires l >= 0, kts >= 0;
    assert(l * (2 * kts) + 2 * kts <= n_layers * (2 * kts)) by (nonlinear_arith)
        requires 0 <= l < n_layers, kts >= 0;
    assert(n_layers * (2 * kts) == n_layers * 2 * nkv * 256 * hd) by (nonlinear_arith)
        requires kts == nkv * (256 * hd);
}

/// Store the keys `k` and values `v` of layer `l` at position `pos`.
fn write_kv(kv: &mut Vec<i32>, k: &Vec<i32>, v: &Vec<i32>, l: usize, pos: usize, n_layers: usize, nkv: usize, hd: usize)
    requires
        l < n_layers,
        pos < INFERENCE_MAX_SEQ,
        nkv > 0,
        hd > 0,
        old(kv)@.len() == n_layers * 2 * nkv * INFERENCE_MAX_SEQ * hd,
        k@.len() == nkv * hd,
        v@.len() == nkv * hd,
    ensures
        final(kv)@ == kv_written(old(kv)@, l as int, pos as int, k@, v@, nkv as int, hd as int),
{
    let ghost kv0 = kv@;
    let ghost target = kv_written(kv0, l as int, pos as int, k@, v@, nkv as int, hd as int);
    let ghost base_i = kv_layer_base(l as int, nkv as int, hd as int);
    let ghost kts_i = kv_type_stride(nkv as int, hd as int);
    let ghost khs_i = kv_head_stride(hd as int);
    proof {
        lemma_kv_in_cache(l as int, n_layers as int, nkv as int, hd as int);
        assert(kts_i * 2 + base_i <= kv0.len());
        assert(kv_head_stride(hd as int) * nkv == kts_i) by (nonlinear_arith)
            requires kts_i == nkv * kv_head_stride(hd as int);
        assert(kv_head_stride(hd as int) >= hd) by (nonlinear_arith)
            requires hd > 0;
        assert(kv_head_stride(hd as int) <= kts_i) by (nonlinear_arith)
            requires kts_i == nkv * kv_head_stride(hd as int), nkv > 0, hd > 0;
    }
    let kvlen = kv.len();
    let klen = k.len();
    assert(kts_i <= kvlen);
    let khs = INFERENCE_MAX_SEQ * hd;
    let kts = nkv * khs;
    let kv_base = l * (2 * kts);
    let mut h: usize = 0;
    while h < nkv
        invariant
            kv@.len() == kv0.len(),
            h <= nkv,
            nkv > 0,
            hd > 0,
            pos < INFERENCE_MAX_SEQ,
            khs == kv_head_stride(hd as int),
            khs_i == khs,
            kts == kts_i,
            kts_i == kv_type_stride(nkv as int, hd as int),
            kv_base == base_i,
            base_i == kv_layer_base(l as int, nkv as int, hd as int),
            base_i + 2 * kts_i <= kv0.len(),
            0 <= base_i,
            k@.len() == nkv * hd,
            v@.len() == nkv * hd,
            klen == k@.len(),
            kvlen == kv0.len(),
            target == kv_written(kv0, l as int, pos as int, k@, v@, nkv as int, hd as int),
            forall|i: int|
                0 <= i < kv0.len() ==> #[trigger] kv@[i] == (if 0 <= i - base_i < 2 * kts_i && ((i - base_i) % kts_i) / khs_i < h
                    && (((i - base_i) % kts_i) % khs_i) / (hd as int) == pos {
                    target[i]
                } else {
                    kv0[i]
                }),
        decreases nkv - h,
    {
        let mut d: usize = 0;
        proof {
            assert(h * khs + pos * hd + hd <= kts) by (nonlinear_arith)
                requires h < nkv, pos < 256, khs == 256 * hd, kts == nkv * khs, hd > 0;
            assert(h * hd + hd <= nkv * hd) by (nonlinear_arith)
                requires h < nkv, hd > 0;
        }
        let k_dst = kv_base + h * khs + pos * hd;
        let v_dst = kv_base + kts + h * khs + pos * hd;
        while d < hd
            invariant
                kv@.len() == kv0.len(),
                h < nkv,
                nkv > 0,
                d <= hd,
                hd > 0,
                pos < INFERENCE_MAX_SEQ,
                khs == kv_head_stride(hd as int),
                khs_i == khs,
            khs_i == khs,
                kts == kts_i,
                kts_i == kv_type_stride(nkv as int, hd as int),
                kv_base == base_i,
                base_i == kv_layer_base(l as int, nkv as int, hd as int),
                base_i + 2 * kts_i <= kv0.len(),
                0 <= base_i,
                h * khs + pos * hd + hd <= kts,
                h * hd + hd <= nkv * hd,
                k_dst == kv_base + h * khs + pos * hd,
                v_dst == kv_base + kts + h * khs + pos * hd,
                k@.len() == nkv * hd,
                v@.len() == nkv * hd,
                klen == k@.len(),
                kvlen == kv0.len(),
                target == kv_written(kv0, l as int, pos as int, k@, v@, nkv as int, hd as int),
                forall|i: int|
                    0 <= i < kv0.len() ==> #[trigger] kv@[i] == (if 0 <= i - base_i < 2 * kts_i && (
                    ((i - base_i) % kts_i) / khs_i < h || (((i - base_i) % kts_i) / khs_i == h && (((i
                        - base_i) % kts_i) % khs_i) % (hd as int) < d)) && (((i - base_i) % kts_i) % khs_i) / (
                    hd as int) == pos {
                        target[i]
                    } else {
                        kv0[i]
                    }),
            decreases hd - d,
        {
            proof {
                lemma_kv_split(0, h as int, pos as int, d as int, nkv as int, hd as int);
                lemma_kv_split(1, h as int, pos as int, d as int, nkv as int, hd as int);
            }
            let kval = k[h * hd + d];
            let vval = v[h * hd + d];
            let ghost before = kv@;
            kv.set(k_dst + d, kval);
            kv.set(v_dst + d, vval);
            proof {
                let ki = (k_dst + d) as int;
                let vi = (v_dst + d) as int;
                assert forall|i: int| 0 <= i < kv0.len() implies #[trigger] kv@[i] == (if 0 <= i - base_i < 2 * kts_i && (
                    ((i - base_i) % kts_i) / khs_i < h || (((i - base_i) % kts_i) / khs_i == h && (((i
                        - base_i) % kts_i) % khs_i) % (hd as int) < d + 1)) && (((i - base_i) % kts_i) % khs_i) / (
                    hd as int) == pos {
                        target[i]
                    } else {
                        kv0[i]
                    }) by {
                    if i == ki || i == vi {
                    } else {
                        assert(kv@[i] == before[i]);
                        let r = i - base_i;
                        if 0 <= r < 2 * kts_i && ((r % kts_i) % khs_i) / (hd as int) == pos && (r % kts_i) / khs_i == h
                            && ((r % kts_i) % khs_i) % (hd as int) == d {
                            lemma_kv_join(r, nkv as int, hd as int);
                            if r / kts_i == 0 {
                                assert(i == ki);
                            } else {
                                assert(i == vi);
                            }
                        }
                    }
                }
            }
            d = d + 1;
        }
        proof {
            assert forall|i: int| 0 <= i < kv0.len() implies #[trigger] kv@[i] == (if 0 <= i - base_i < 2 * kts_i && ((i - base_i) % kts_i) / khs_i < h + 1
                    && (((i - base_i) % kts_i) % khs_i) / (hd as int) == pos {
                    target[i]
                } else {
                    kv0[i]
                }) by {
                let r = i - base_i;
                if 0 <= r < 2 * kts_i {
                    lemma_kv_join(r, nkv as int, hd as int);
                }
            }
        }
        h = h + 1;
    }
    proof {
        assert forall|i: int| 0 <= i < kv0.len() implies kv@[i] == target[i] by {
            let r = i - base_i;
            if 0 <= r < 2 * kts_i {
                lemma_kv_join(r, nkv as int, hd as int);
            }
        }
    }
    assert(kv@ =~= target);
}

// ---------------------------------------------------------------------------
// Attention
// ---------------------------------------------------------------------------

/// The first `n` terms of the dot product of `q` from `qo` with `kv` from `ko`.
pub open spec fn dot_prefix(q: Seq<i32>, kv: Seq<i32>, qo: int, ko: int, n: nat) -> int
    decreases n,
{
    if n == 0 {
        0
    } else {
        dot_prefix(q, kv, qo, ko, (n - 1) as nat) + q[qo + n - 1] as int * kv[ko + n - 1] as int
    }
}

/// The first `n` terms of the attention-weighted sum of entry `d` of the
/// values stored from `vo` on (one row of `hd` per position).
pub open spec fn weighted_prefix(w: Seq<i32>, kv: Seq<i32>, vo: int, hd: int, d: int, n: nat) -> int
    decreases n,
{
    if n == 0 {
        0
    } else {
        weighted_prefix(w, kv, vo, hd, d, (n - 1) as nat) + w[n - 1] as int * kv[vo + (n - 1) * hd + d] as int
    }
}

/// The KV head that query head `h` reads.
pub open spec fn kv_group(h: int, nh: int, nkv: int) -> int {
    h / (nh / nkv)
}

/// The attention scores of query head `h` over positions `0..=pos`: its dot
/// product with each stored key, shifted down by 19 bits and saturated.
pub open spec fn head_scores(q: Seq<i32>, kv: Seq<i32>, l: int, h: int, pos: int, nh: int, nkv: int, hd: int) -> Seq<i32> {
    Seq::new(
        (pos + 1) as nat,
        |p: int| sat_i32(dot_prefix(q, kv, h * hd, kv_index(l, 0, kv_group(h, nh, nkv), p, 0, nkv, hd), hd as nat) / 524288),
    )
}

/// The softmax of the scores `sc` (a single score gets all the weight).
pub open spec fn head_weights(sc: Seq<i32>) -> Seq<i32> {
    if sc.len() == 1 {
        seq![65536i32]
    } else {
        Seq::new(sc.len(), |i: int| softmax_value(sc, sc.len(), i) as i32)
    }
}

/// Entry `d` of the attention output of query head `h`.
pub open spec fn attn_value(q: Seq<i32>, kv: Seq<i32>, l: int, h: int, d: int, pos: int, nh: int, nkv: int, hd: int) -> i32 {
    let w = head_weights(head_scores(q, kv, l, h, pos, nh, nkv, hd));
    sat_i32(
        weighted_prefix(w, kv, kv_index(l, 1, kv_group(h, nh, nkv), 0, 0, nkv, hd), hd, d, (pos + 1) as nat)
            / 65536,
    )
}

proof fn lemma_dot_same_key(q: Seq<i32>, kv: Seq<i32>, kv2: Seq<i32>, qo: int, l: int, g: int, p: int, nkv: int, hd: int, n: nat)
    requires
        n <= hd,
        forall|t: int| 0 <= t < hd ==> kv2[#[trigger] kv_index(l, 0, g, p, t, nkv, hd)] == kv[kv_index(l, 0, g, p, t, nkv, hd)],
    ensures
        dot_prefix(q, kv, qo, kv_index(l, 0, g, p, 0, nkv, hd), n) == dot_prefix(q, kv2, qo, kv_index(l, 0, g, p, 0, nkv, hd), n),
    decreases n,
{
    if n > 0 {
        lemma_dot_same_key(q, kv, kv2, qo, l, g, p, nkv, hd, (n - 1) as nat);
        assert(kv_index(l, 0, g, p, 0, nkv, hd) + n - 1 == kv_index(l, 0, g, p, n - 1, nkv, hd));
    }
}

proof fn lemma_weighted_same_values(w: Seq<i32>, kv: Seq<i32>, kv2: Seq<i32>, l: int, g: int, nkv: int, hd: int, d: int, pos: int, n: nat)
    requires
        n <= pos + 1,
        forall|p: int| 0 <= p <= pos ==> kv2[#[trigger] kv_index(l, 1, g, p, d, nkv, hd)] == kv[kv_index(l, 1, g, p, d, nkv, hd)],
    ensures
        weighted_prefix(w, kv, kv_index(l, 1, g, 0, 0, nkv, hd), hd, d, n) == weighted_prefix(
            w,
            kv2,
            kv_index(l, 1, g, 0, 0, nkv, hd),
            hd,
            d,
            n,
        ),
    decreases n,
{
    if n > 0 {
        lemma_weighted_same_values(w, kv, kv2, l, g, nkv, hd, d, pos, (n - 1) as nat);
        assert(kv_index(l, 1, g, 0, 0, nkv, hd) + (n - 1) * hd + d == kv_index(l, 1, g, n - 1, d, nkv, hd));
    }
}

/// Grouped-query attention: query head `h` reads the keys and values of KV
/// head `h / (nh / nkv)` alone (each run of `nh / nkv` consecutive query
/// heads shares one KV head, in order). Its output is the same for any two
/// caches that agree on that KV head's keys and values up to `pos`,
/// whatever the other heads hold.
pub proof fn lemma_query_head_reads_its_kv_head(
    q: Seq<i32>,
    kv: Seq<i32>,
    kv2: Seq<i32>,
    l: int,
    h: int,
    d: int,
    pos: int,
    nh: int,
    nkv: int,
    hd: int,
)
    requires
        0 < nkv <= nh,
        hd > 0,
        0 <= pos,
        0 <= d < hd,
        forall|p: int, t: int|
            0 <= p <= pos && 0 <= t < hd ==> kv2[#[trigger] kv_index(l, 0, h / (nh / nkv), p, t, nkv, hd)]
                == kv[kv_index(l, 0, h / (nh / nkv), p, t, nkv, hd)],
        forall|p: int, t: int|
            0 <= p <= pos && 0 <= t < hd ==> kv2[#[trigger] kv_index(l, 1, h / (nh / nkv), p, t, nkv, hd)]
                == kv[kv_index(l, 1, h / (nh / nkv), p, t, nkv, hd)],
    ensures
        attn_value(q, kv, l, h, d, pos, nh, nkv, hd) == attn_value(q, kv2, l, h, d, pos, nh, nkv, hd),
{
    let g = h / (nh / nkv);
    assert forall|p: int| 0 <= p <= pos implies dot_prefix(q, kv, h * hd, kv_index(l, 0, g, p, 0, nkv, hd), hd as nat)
        == dot_prefix(q, kv2, h * hd, kv_index(l, 0, g, p, 0, nkv, hd), hd as nat) by {
        assert forall|t: int| 0 <= t < hd implies kv2[#[trigger] kv_index(l, 0, g, p, t, nkv, hd)] == kv[kv_index(l, 0, g, p, t, nkv, hd)] by {}
        lemma_dot_same_key(q, kv, kv2, h * hd, l, g, p, nkv, hd, hd as nat);
    }
    let sc = head_scores(q, kv, l, h, pos, nh, nkv, hd);
    assert(sc =~= head_scores(q, kv2, l, h, pos, nh, nkv, hd));
    let w = head_weights(sc);
    assert forall|p: int| 0 <= p <= pos implies kv2[#[trigger] kv_index(l, 1, g, p, d, nkv, hd)] == kv[kv_index(l, 1, g, p, d, nkv, hd)] by {}
    lemma_weighted_same_values(w, kv, kv2, l, g, nkv, hd, d, pos, (pos + 1) as nat);
}

/// At the first position a query head's attention has one score, so it
/// gives exactly the value stored for its KV head `h / (nh / nkv)` there.
pub proof fn lemma_first_position_attention(q: Seq<i32>, kv: Seq<i32>, l: int, h: int, d: int, nh: int, nkv: int, hd: int)
    requires
        0 < nkv <= nh,
        hd > 0,
        0 <= d < hd,
    ensures
        attn_value(q, kv, l, h, d, 0, nh, nkv, hd) == kv[kv_index(l, 1, h / (nh / nkv), 0, d, nkv, hd)],
{
    let sc = head_scores(q, kv, l, h, 0, nh, nkv, hd);
    assert(sc.len() == 1);
    let w = head_weights(sc);
    assert(w == seq![65536i32]);
    let g = h / (nh / nkv);
    let vo = kv_index(l, 1, g, 0, 0, nkv, hd);
    assert(vo + 0 * hd + d == kv_index(l, 1, g, 0, d, nkv, hd));
    assert(weighted_prefix(w, kv, vo, hd, d, 0) == 0);
    assert(w[0] == 65536);
    assert(weighted_prefix(w, kv, vo, hd, d, 1) == 65536 * kv[kv_index(l, 1, g, 0, d, nkv, hd)] as int);
    let v = kv[kv_index(l, 1, g, 0, d, nkv, hd)] as int;
    assert((65536 * v) / 65536 == v) by (nonlinear_arith);
}

/// The attention output of all query heads.
pub open spec fn attn_vec(q: Seq<i32>, kv: Seq<i32>, l: int, pos: int, nh: int, nkv: int, hd: int) -> Seq<i32> {
    Seq::new((nh * hd) as nat, |j: int| attn_value(q, kv, l, j / hd, j % hd, pos, nh, nkv, hd))
}

/// Whether every partial dot product of `q` from `qo` with `kv` from `ko`
/// over `hd` terms stays in the `i64` range.
pub open spec fn key_dots_fit(q: Seq<i32>, kv: Seq<i32>, qo: int, ko: int, hd: int) -> bool {
    forall|n: nat| n <= hd ==> in_i64(#[trigger] dot_prefix(q, kv, qo, ko, n))
}

/// Whether every partial weighted sum over `len` positions stays in the
/// `i64` range.
pub open spec fn values_fit(w: Seq<i32>, kv: Seq<i32>, vo: int, hd: int, d: int, len: int) -> bool {
    forall|n: nat| n <= len ==> in_i64(#[trigger] weighted_prefix(w, kv, vo, hd, d, n))
}

/// Whether the attention of query head `h` stays in range.
pub open spec fn head_fits(q: Seq<i32>, kv: Seq<i32>, l: int, h: int, pos: int, nh: int, nkv: int, hd: int) -> bool {
    let g = kv_group(h, nh, nkv);
    let sc = head_scores(q, kv, l, h, pos, nh, nkv, hd);
    &&& forall|p: int|
        0 <= p <= pos ==> #[trigger] key_dots_fit(q, kv, h * hd, kv_index(l, 0, g, p, 0, nkv, hd), hd)
    &&& pos >= 1 ==> softmax_fits(sc, (pos + 1) as nat)
    &&& forall|d: int|
        0 <= d < hd ==> #[trigger] values_fit(head_weights(sc), kv, kv_index(l, 1, g, 0, 0, nkv, hd), hd, d, pos + 1)
}

/// Whether the attention of every query head stays in range.
pub open spec fn attn_fits(q: Seq<i32>, kv: Seq<i32>, l: int, pos: int, nh: int, nkv: int, hd: int) -> bool {
    forall|h: int| 0 <= h < nh ==> #[trigger] head_fits(q, kv, l, h, pos, nh, nkv, hd)
}

/// Whether heads, KV heads and head size fit together and the cache.
pub open spec fn attn_shapes(l: int, n_layers: int, pos: int, nh: int, nkv: int, hd: int, q_len: int, kv_len: int) -> bool {
    &&& 0 <= l < n_layers
    &&& 0 <= pos < INFERENCE_MAX_SEQ
    &&& nkv > 0
    &&& hd > 0
    &&& nh % nkv == 0
    &&& nh >= nkv
    &&& q_len == nh * hd
    &&& kv_len == n_layers * 2 * nkv * INFERENCE_MAX_SEQ * hd
}

proof fn lemma_i64_shr19(v: i64)
    ensures
        (v >> 19u64) as int == (v as int) / 524288,
{
    let s = v >> 19u64;
    assert(s * 524288 <= v && v < s * 524288 + 524288) by (bit_vector)
        requires s == v >> 19u64;
}

proof fn lemma_group_bound(h: int, nh: int, nkv: int)
    requires
        0 <= h < nh,
        nkv > 0,
        nh % nkv == 0,
        nh >= nkv,
    ensures
        0 <= kv_group(h, nh, nkv) < nkv,
        nh / nkv >= 1,
{
    let hpg = nh / nkv;
    vstd::arithmetic::div_mod::lemma_fundamental_div_mod(nh, nkv);
    assert(hpg >= 1) by (nonlinear_arith)
        requires nh == nkv * hpg, nh >= nkv, nkv > 0;
    assert(0 <= h / hpg < nkv) by (nonlinear_arith)
        requires 0 <= h < nh, nh == nkv * hpg, hpg >= 1;
}

fn sat_from_i64(v: i64) -> (r: i32)
    ensures
        r == sat_i32(v as int),
{
    if v < i32::MIN as i64 {
        i32::MIN
    } else if v > i32::MAX as i64 {
        i32::MAX
    } else {
        v as i32
    }
}

/// Attention of query head `h` at layer `l`: writes entries
/// `h * hd .. (h + 1) * hd` of `xb`.
fn attention_head(xb: &mut Vec<i32>, q: &Vec<i32>, kv: &Vec<i32>, l: usize, h: usize, pos: usize, n_layers: usize, nh: usize, nkv: usize, hd: usize)
    requires
        attn_shapes(l as int, n_layers as int, pos as int, nh as int, nkv as int, hd as int, q@.len() as int, kv@.len() as int),
        h < nh,
        old(xb)@.len() == nh * hd,
        head_fits(q@, kv@, l as int, h as int, pos as int, nh as int, nkv as int, hd as int),
    ensures
        final(xb)@.len() == old(xb)@.len(),
        forall|d: int| 0 <= d < hd ==> final(xb)@[h * hd + d] == attn_value(q@, kv@, l as int, h as int, d, pos as int, nh as int, nkv as int, hd as int),
        forall|j: int| 0 <= j < old(xb)@.len() && !(h * hd <= j < h * hd + hd) ==> final(xb)@[j] == old(xb)@[j],
{
    let ghost g = kv_group(h as int, nh as int, nkv as int);
    proof {
        lemma_group_bound(h as int, nh as int, nkv as int);
        lemma_kv_in_cache(l as int, n_layers as int, nkv as int, hd as int);
        lemma_kv_split(1, nkv as int - 1, INFERENCE_MAX_SEQ as int - 1, hd as int - 1, nkv as int, hd as int);
        assert(h * hd + hd <= nh * hd) by (nonlinear_arith)
            requires h < nh, hd > 0;
    }
    let kvlen = kv.len();
    let qlen = q.len();
    let hpg = nh / nkv;
    let grp = h / hpg;
    let q_off = h * hd;
    let ghost kts_i = kv_type_stride(nkv as int, hd as int);
    let ghost base_i = kv_layer_base(l as int, nkv as int, hd as int);
    proof {
        assert(kv_head_stride(hd as int) <= kts_i) by (nonlinear_arith)
            requires kts_i == nkv * kv_head_stride(hd as int), nkv > 0, hd > 0;
        assert(grp * kv_head_stride(hd as int) + kv_head_stride(hd as int) <= kts_i) by (nonlinear_arith)
            requires kts_i == nkv * kv_head_stride(hd as int), grp < nkv, hd > 0;
        lemma_nonneg_mul(grp as int, kv_head_stride(hd as int));
    }
    let khs = INFERENCE_MAX_SEQ * hd;
    let kts = nkv * khs;
    let kv_base = l * (2 * kts);
    assert(kv_base == base_i);
    let mut scores: Vec<i32> = Vec::new();
    let mut p: usize = 0;
    while p <= pos
        invariant
            attn_shapes(l as int, n_layers as int, pos as int, nh as int, nkv as int, hd as int, q@.len() as int, kv@.len() as int),
            h < nh,
            grp == g,
            g == kv_group(h as int, nh as int, nkv as int),
            0 <= g < nkv,
            khs == kv_head_stride(hd as int),
            kts == kts_i,
            kts_i == kv_type_stride(nkv as int, hd as int),
            kv_base == base_i,
            base_i == kv_layer_base(l as int, nkv as int, hd as int),
            base_i + 2 * kts_i <= kvlen,
            0 <= base_i,
            grp * khs + khs <= kts,
            q_off == h * hd,
            q_off + hd <= qlen,
            qlen == q@.len(),
            kvlen == kv@.len(),
            p <= pos + 1,
            head_fits(q@, kv@, l as int, h as int, pos as int, nh as int, nkv as int, hd as int),
            scores@ == head_scores(q@, kv@, l as int, h as int, pos as int, nh as int, nkv as int, hd as int).take(p as int),
        decreases pos + 1 - p,
    {
        proof {
            lemma_kv_split(0, g, p as int, 0, nkv as int, hd as int);
            lemma_kv_in_cache(l as int, n_layers as int, nkv as int, hd as int);
            lemma_kv_split(0, g, p as int, hd as int - 1, nkv as int, hd as int);
        }
        let ghost ko = kv_index(l as int, 0, g, p as int, 0, nkv as int, hd as int);
        assert(key_dots_fit(q@, kv@, h * hd, ko, hd as int));
        proof {
            assert(p * hd + hd <= kv_head_stride(hd as int)) by (nonlinear_arith)
                requires p <= pos, pos < 256, hd > 0;
        }
        let k_src = kv_base + grp * khs + p * hd;
        assert(k_src == ko);
        let mut dot: i64 = 0;
        let mut d: usize = 0;
        while d < hd
            invariant
                d <= hd,
                hd > 0,
                q_off + hd <= qlen,
                qlen == q@.len(),
                kvlen == kv@.len(),
                k_src == ko,
                ko + hd <= kv@.len(),
                0 <= ko,
                q_off == h * hd,
                key_dots_fit(q@, kv@, h * hd, ko, hd as int),
                dot == dot_prefix(q@, kv@, h * hd, ko, d as nat),
            decreases hd - d,
        {
            assert(in_i64(dot_prefix(q@, kv@, h * hd, ko, (d + 1) as nat)));
            let qa = q[q_off + d] as i64;
            let ka = kv[k_src + d] as i64;
            assert(-0x4000_0000_0000_0000 <= qa * ka <= 0x4000_0000_0000_0000) by (nonlinear_arith)
                requires i32::MIN <= qa <= i32::MAX, i32::MIN <= ka <= i32::MAX;
            dot = dot + qa * ka;
            d = d + 1;
        }
        proof {
            lemma_i64_shr19(dot);
        }
        let r = sat_from_i64(dot >> 19);
        scores.push(r);
        proof {
            let hs = head_scores(q@, kv@, l as int, h as int, pos as int, nh as int, nkv as int, hd as int);
            assert(hs[p as int] == r);
            assert(hs.take(p + 1) == hs.take(p as int).push(hs[p as int]));
        }
        p = p + 1;
    }
    let ghost sc = head_scores(q@, kv@, l as int, h as int, pos as int, nh as int, nkv as int, hd as int);
    assert(scores@ == sc);
    softmax_q16(scores.as_mut_slice(), pos + 1);
    let ghost w = head_weights(sc);
    assert(scores@ =~= w);
    let v_base = kv_base + kts + grp * khs;
    let ghost vo = kv_index(l as int, 1, g, 0, 0, nkv as int, hd as int);
    assert(v_base == vo);
    let ghost xb0 = xb@;
    let xblen = xb.len();
    let mut d: usize = 0;
    while d < hd
        invariant
            attn_shapes(l as int, n_layers as int, pos as int, nh as int, nkv as int, hd as int, q@.len() as int, kv@.len() as int),
            h < nh,
            0 <= g < nkv,
            g == kv_group(h as int, nh as int, nkv as int),
            xblen == xb@.len(),
            d <= hd,
            v_base == vo,
            vo == kv_index(l as int, 1, g, 0, 0, nkv as int, hd as int),
            kvlen == kv@.len(),
            scores@ == w,
            w.len() == pos + 1,
            w == head_weights(sc),
            sc == head_scores(q@, kv@, l as int, h as int, pos as int, nh as int, nkv as int, hd as int),
            q_off == h * hd,
            q_off + hd <= xb@.len(),
            xb@.len() == xb0.len(),
            head_fits(q@, kv@, l as int, h as int, pos as int, nh as int, nkv as int, hd as int),
            vo + kv_head_stride(hd as int) <= kv@.len(),
            0 <= vo,
            forall|e: int| 0 <= e < d ==> xb@[h * hd + e] == attn_value(q@, kv@, l as int, h as int, e, pos as int, nh as int, nkv as int, hd as int),
            forall|j: int| 0 <= j < xb0.len() && !(h * hd <= j < h * hd + d) ==> xb@[j] == xb0[j],
        decreases hd - d,
    {
        let mut acc: i64 = 0;
        let mut pp: usize = 0;
        assert(values_fit(w, kv@, vo, hd as int, d as int, pos + 1));
        proof {
            assert forall|pq: int| 0 <= pq <= pos implies #[trigger] (vo + pq * hd + d) < kv@.len() && 0 <= vo + pq * hd + d by {
                assert(0 <= pq * hd + d < kv_head_stride(hd as int)) by (nonlinear_arith)
                    requires 0 <= pq <= pos, pos < 256, 0 <= d < hd;
            }
        }
        while pp <= pos
            invariant
                pp <= pos + 1,
                pos < INFERENCE_MAX_SEQ,
                d < hd,
                hd > 0,
                v_base == vo,
                kvlen == kv@.len(),
                scores@ == w,
                w.len() == pos + 1,
                forall|pq: int| 0 <= pq <= pos ==> #[trigger] (vo + pq * hd + d) < kv@.len() && 0 <= vo + pq * hd + d,
                values_fit(w, kv@, vo, hd as int, d as int, pos + 1),
                acc == weighted_prefix(w, kv@, vo, hd as int, d as int, pp as nat),
            decreases pos + 1 - pp,
        {
            assert(in_i64(weighted_prefix(w, kv@, vo, hd as int, d as int, (pp + 1) as nat)));
            let idx = v_base + pp * hd + d;
            assert(idx == vo + pp * hd + d);
            let wa = scores[pp] as i64;
            let va = kv[idx] as i64;
            assert(-0x4000_0000_0000_0000 <= wa * va <= 0x4000_0000_0000_0000) by (nonlinear_arith)
                requires i32::MIN <= wa <= i32::MAX, i32::MIN <= va <= i32::MAX;
            acc = acc + wa * va;
            pp = pp + 1;
        }
        proof {
            crate::math::lemma_shr16_i64(acc);
        }
        let r = sat_from_i64(acc >> 16);
        xb.set(q_off + d, r);
        d = d + 1;
    }
}

/// Attention of every query head at layer `l` into `xb`.
fn attention(xb: &mut Vec<i32>, q: &Vec<i32>, kv: &Vec<i32>, l: usize, pos: usize, n_layers: usize, nh: usize, nkv: usize, hd: usize)
    requires
        attn_shapes(l as int, n_layers as int, pos as int, nh as int, nkv as int, hd as int, q@.len() as int, kv@.len() as int),
        old(xb)@.len() == nh * hd,
        attn_fits(q@, kv@, l as int, pos as int, nh as int, nkv as int, hd as int),
    ensures
        final(xb)@ == attn_vec(q@, kv@, l as int, pos as int, nh as int, nkv as int, hd as int),
{
    let ghost target = attn_vec(q@, kv@, l as int, pos as int, nh as int, nkv as int, hd as int);
    let xlen = xb.len();
    let mut h: usize = 0;
    let mut done: usize = 0;
    while h < nh
        invariant
            attn_shapes(l as int, n_layers as int, pos as int, nh as int, nkv as int, hd as int, q@.len() as int, kv@.len() as int),
            attn_fits(q@, kv@, l as int, pos as int, nh as int, nkv as int, hd as int),
            xb@.len() == nh * hd,
            xlen == xb@.len(),
            h <= nh,
            done == h * hd,
            target == attn_vec(q@, kv@, l as int, pos as int, nh as int, nkv as int, hd as int),
            forall|j: int| 0 <= j < done ==> xb@[j] == target[j],
        decreases nh - h,
    {
        assert(head_fits(q@, kv@, l as int, h as int, pos as int, nh as int, nkv as int, hd as int));
        let ghost before = xb@;
        proof {
            assert((h + 1) * hd == h * hd + hd) by (nonlinear_arith);
            assert(h * hd + hd <= nh * hd) by (nonlinear_arith)
                requires h < nh, hd > 0;
        }
        attention_head(xb, q, kv, l, h, pos, n_layers, nh, nkv, hd);
        proof {
            assert forall|j: int| 0 <= j < done + hd implies xb@[j] == target[j] by {
                if j >= done {
                    let dd = j - done;
                    vstd::arithmetic::div_mod::lemma_fundamental_div_mod_converse(j, hd as int, h as int, dd);
                    assert(xb@[h * hd + dd] == attn_value(q@, kv@, l as int, h as int, dd, pos as int, nh as int, nkv as int, hd as int));
                } else {
                    assert(xb@[j] == before[j]);
                }
            }
        }
        done = done + hd;
        h = h + 1;
    }
    assert(xb@ =~= target);
}

// ---------------------------------------------------------------------------
// One layer
// ---------------------------------------------------------------------------

/// Whether the INT8 forward pass fits a model of shape `c`: groups divide
/// the widths, and the query heads fill the width and share the KV heads
/// evenly.
pub open spec fn shape_ok(c: ModelConfig) -> bool {
    &&& c.group_size > 0
    &&& c.dim > 0
    &&& c.hidden_dim > 0
    &&& c.dim % c.group_size == 0
    &&& c.hidden_dim % c.group_size == 0
    &&& c.n_kv_heads > 0
    &&& c.head_dim > 0
    &&& c.n_heads % c.n_kv_heads == 0
    &&& c.n_heads >= c.n_kv_heads
    &&& c.n_heads as int * c.head_dim as int == c.dim
}

/// Whether a model of shape `c` can run the INT8 forward pass: the shape
/// fits it and its buffers can be counted.
pub open spec fn config_ok(c: ModelConfig) -> bool {
    shape_ok(c) && state_sizes_fit(c)
}

/// Whether the weights of layer `lr` lie in a blob of `len` bytes.
pub open spec fn layer_in_blob(c: ModelConfig, lr: LayerRef, len: int) -> bool {
    let dim = c.dim as int;
    let kvd = c.n_kv_heads as int * c.head_dim as int;
    let hid = c.hidden_dim as int;
    let gs = c.group_size as int;
    &&& lr.rms_att_off + dim * 4 <= len
    &&& lr.rms_ffn_off + dim * 4 <= len
    &&& q8_in_blob(lr.wq, len, dim, dim, gs)
    &&& q8_in_blob(lr.wk, len, kvd, dim, gs)
    &&& q8_in_blob(lr.wv, len, kvd, dim, gs)
    &&& q8_in_blob(lr.wo, len, dim, dim, gs)
    &&& q8_in_blob(lr.gate, len, hid, dim, gs)
    &&& q8_in_blob(lr.up, len, hid, dim, gs)
    &&& q8_in_blob(lr.down, len, dim, hid, gs)
}

/// What layer `l` (weights `lr`) makes of the activations `x` and the
/// cache `kv` at position `pos`: the new activations and cache.
pub open spec fn layer_out(d: Seq<u8>, c: ModelConfig, lr: LayerRef, l: int, pos: int, x: Seq<i32>, kv: Seq<i32>) -> (Seq<i32>, Seq<i32>) {
    let dim = c.dim as int;
    let kvd = c.n_kv_heads as int * c.head_dim as int;
    let hid = c.hidden_dim as int;
    let gs = c.group_size as int;
    let hd = c.head_dim as int;
    let nh = c.n_heads as int;
    let nkv = c.n_kv_heads as int;
    let xb = rms_vec(x, d, lr.rms_att_off as int, dim);
    let q = roped_heads(q8_matvec(d, lr.wq, xb, dim, dim, gs), hd, pos as usize);
    let k = roped_heads(q8_matvec(d, lr.wk, xb, kvd, dim, gs), hd, pos as usize);
    let v = q8_matvec(d, lr.wv, xb, kvd, dim, gs);
    let kv1 = kv_written(kv, l, pos, k, v, nkv, hd);
    let att = attn_vec(q, kv1, l, pos, nh, nkv, hd);
    let x1 = wrapping_sum(x, q8_matvec(d, lr.wo, att, dim, dim, gs));
    let xb2 = rms_vec(x1, d, lr.rms_ffn_off as int, dim);
    let hb = q8_matvec(d, lr.gate, xb2, hid, dim, gs);
    let hb2 = q8_matvec(d, lr.up, xb2, hid, dim, gs);
    let x2 = wrapping_sum(x1, q8_matvec(d, lr.down, gated(hb, hb2), dim, hid, gs));
    (x2, kv1)
}

/// Whether every stage of layer `l` stays in range.
pub open spec fn layer_fits(d: Seq<u8>, c: ModelConfig, lr: LayerRef, l: int, pos: int, x: Seq<i32>, kv: Seq<i32>) -> bool {
    let dim = c.dim as int;
    let kvd = c.n_kv_heads as int * c.head_dim as int;
    let hid = c.hidden_dim as int;
    let gs = c.group_size as int;
    let hd = c.head_dim as int;
    let nh = c.n_heads as int;
    let nkv = c.n_kv_heads as int;
    let xb = rms_vec(x, d, lr.rms_att_off as int, dim);
    let q = roped_heads(q8_matvec(d, lr.wq, xb, dim, dim, gs), hd, pos as usize);
    let k = roped_heads(q8_matvec(d, lr.wk, xb, kvd, dim, gs), hd, pos as usize);
    let v = q8_matvec(d, lr.wv, xb, kvd, dim, gs);
    let kv1 = kv_written(kv, l, pos, k, v, nkv, hd);
    let att = attn_vec(q, kv1, l, pos, nh, nkv, hd);
    let x1 = wrapping_sum(x, q8_matvec(d, lr.wo, att, dim, dim, gs));
    let xb2 = rms_vec(x1, d, lr.rms_ffn_off as int, dim);
    let hb = q8_matvec(d, lr.gate, xb2, hid, dim, gs);
    let hb2 = q8_matvec(d, lr.up, xb2, hid, dim, gs);
    &&& rms_fits(x, d, lr.rms_att_off as int, dim)
    &&& q8_matvec_fits(d, lr.wq, xb, dim, dim, gs)
    &&& q8_matvec_fits(d, lr.wk, xb, kvd, dim, gs)
    &&& q8_matvec_fits(d, lr.wv, xb, kvd, dim, gs)
    &&& attn_fits(q, kv1, l, pos, nh, nkv, hd)
    &&& q8_matvec_fits(d, lr.wo, att, dim, dim, gs)
    &&& rms_fits(x1, d, lr.rms_ffn_off as int, dim)
    &&& q8_matvec_fits(d, lr.gate, xb2, hid, dim, gs)
    &&& q8_matvec_fits(d, lr.up, xb2, hid, dim, gs)
    &&& q8_matvec_fits(d, lr.down, gated(hb, hb2), dim, hid, gs)
}

proof fn lemma_rope_fits(pos: usize)
    requires
        pos < INFERENCE_MAX_SEQ,
    ensures
        forall|n: int| #[trigger] rope_fits(pos, n),
{
    assert forall|n: int| #[trigger] rope_fits(pos, n) by {
        assert forall|i: int| 0 <= i < n implies crate::math::in_i64(#[trigger] ((pos as i64) * crate::math::rope_freq(i))) by {
            let f = crate::math::rope_freq(i);
            if i < 32 {
                assert(i32::MIN <= f <= i32::MAX);
            }
            assert(-0x80_0000_0000 <= (pos as i64) * f <= 0x80_0000_0000) by (nonlinear_arith)
                requires 0 <= pos < 256, i32::MIN <= f <= i32::MAX;
        }
    }
}

/// Run layer `l` (weights `lr`) at position `pos`.
fn forward_layer(st: &mut InferenceState, d: &[u8], c: &ModelConfig, lr: &LayerRef, l: usize, pos: usize)
    requires
        config_ok(*c),
        state_fits(*c, *old(st)),
        layer_in_blob(*c, *lr, d@.len() as int),
        l < c.n_layers,
        pos < INFERENCE_MAX_SEQ,
        layer_fits(d@, *c, *lr, l as int, pos as int, old(st).x@, old(st).kv@),
    ensures
        state_fits(*c, *final(st)),
        final(st).x@ == layer_out(d@, *c, *lr, l as int, pos as int, old(st).x@, old(st).kv@).0,
        final(st).kv@ == layer_out(d@, *c, *lr, l as int, pos as int, old(st).x@, old(st).kv@).1,
        final(st).logits == old(st).logits,
{
    let dim = c.dim as usize;
    let kvd = c.n_kv_heads as usize * c.head_dim as usize;
    let hid = c.hidden_dim as usize;
    let gs = c.group_size as usize;
    let hd = c.head_dim as usize;
    let nh = c.n_heads as usize;
    let nkv = c.n_kv_heads as usize;
    let n_layers = c.n_layers as usize;
    proof {
        lemma_rope_fits(pos);
    }
    rms(&mut st.xb, &st.x, d, lr.rms_att_off, dim);
    matvec(&mut st.q, &st.xb, d, &lr.wq, dim, dim, gs);
    matvec(&mut st.k, &st.xb, d, &lr.wk, kvd, dim, gs);
    matvec(&mut st.v, &st.xb, d, &lr.wv, kvd, dim, gs);
    rope_heads(&mut st.q, nh, hd, pos);
    rope_heads(&mut st.k, nkv, hd, pos);
    write_kv(&mut st.kv, &st.k, &st.v, l, pos, n_layers, nkv, hd);
    attention(&mut st.xb, &st.q, &st.kv, l, pos, n_layers, nh, nkv, hd);
    matvec(&mut st.xb2, &st.xb, d, &lr.wo, dim, dim, gs);
    add_residual(&mut st.x, &st.xb2);
    rms(&mut st.xb, &st.x, d, lr.rms_ffn_off, dim);
    matvec(&mut st.hb, &st.xb, d, &lr.gate, hid, dim, gs);
    matvec(&mut st.hb2, &st.xb, d, &lr.up, hid, dim, gs);
    let ghost hb0 = st.hb@;
    silu_vec_q16(st.hb.as_mut_slice(), hid);
    let ghost hb1 = st.hb@;
    elementwise_mul_inplace_q16(st.hb.as_mut_slice(), st.hb2.as_slice(), hid);
    assert(st.hb@ =~= gated(hb0, st.hb2@));
    matvec(&mut st.xb2, &st.hb, d, &lr.down, dim, hid, gs);
    add_residual(&mut st.x, &st.xb2);
}


// ---------------------------------------------------------------------------
// The whole pass
// ---------------------------------------------------------------------------

/// What the layers `layers[l..]` make of the activations `x` and the cache
/// `kv` at position `pos`, one after the other.
pub open spec fn layers_out(d: Seq<u8>, c: ModelConfig, layers: Seq<LayerRef>, l: int, pos: int, x: Seq<i32>, kv: Seq<i32>) -> (Seq<i32>, Seq<i32>)
    decreases layers.len() - l,
{
    if l < 0 || l >= layers.len() {
        (x, kv)
    } else {
        let r = layer_out(d, c, layers[l], l, pos, x, kv);
        layers_out(d, c, layers, l + 1, pos, r.0, r.1)
    }
}

/// Whether every stage of the layers `layers[l..]` stays in range.
pub open spec fn layers_fit(d: Seq<u8>, c: ModelConfig, layers: Seq<LayerRef>, l: int, pos: int, x: Seq<i32>, kv: Seq<i32>) -> bool
    decreases layers.len() - l,
{
    if l < 0 || l >= layers.len() {
        true
    } else {
        let r = layer_out(d, c, layers[l], l, pos, x, kv);
        layer_fits(d, c, layers[l], l, pos, x, kv) && layers_fit(d, c, layers, l + 1, pos, r.0, r.1)
    }
}

/// The logits and the new KV cache of the INT8 pass of `token` at `pos`
/// through the model laid out as `m` in `d`: embedding, every layer, final
/// RMSNorm, and the embedding table again as output projection.
pub open spec fn forward_result(d: Seq<u8>, m: ModelLayout, token: int, pos: int, kv: Seq<i32>) -> (Seq<i32>, Seq<i32>) {
    let c = m.config;
    let dim = c.dim as int;
    let gs = c.group_size as int;
    let x0 = embed_vec(d, m.embed, dim, gs, token);
    let r = layers_out(d, c, m.layers@, 0, pos, x0, kv);
    let xb = rms_vec(r.0, d, m.rms_final_off as int, dim);
    (q8_matvec(d, m.embed, xb, c.vocab_size as int, dim, gs), r.1)
}

/// Whether every stage of that pass stays in range.
pub open spec fn forward_fits(d: Seq<u8>, m: ModelLayout, token: int, pos: int, kv: Seq<i32>) -> bool {
    let c = m.config;
    let dim = c.dim as int;
    let gs = c.group_size as int;
    let x0 = embed_vec(d, m.embed, dim, gs, token);
    let r = layers_out(d, c, m.layers@, 0, pos, x0, kv);
    let xb = rms_vec(r.0, d, m.rms_final_off as int, dim);
    &&& layers_fit(d, c, m.layers@, 0, pos, x0, kv)
    &&& rms_fits(r.0, d, m.rms_final_off as int, dim)
    &&& q8_matvec_fits(d, m.embed, xb, c.vocab_size as int, dim, gs)
}

proof fn lemma_q8_in_blob(off: int, rows: int, cols: int, gs: int, len: int)
    requires
        0 <= off,
        0 <= rows,
        0 <= cols,
        gs > 0,
        cols % gs == 0,
        off + q8_size(rows, cols, gs) <= len,
        len <= usize::MAX,
    ensures
        q8_in_blob(q8_at(off, rows, cols), len, rows, cols, gs),
{
    lemma_nonneg_mul(rows, cols);
    assert(0 <= rows * (cols / gs) * 4) by (nonlinear_arith)
        requires 0 <= rows, 0 <= cols, gs > 0;
}

proof fn lemma_layer_in_blob(c: ModelConfig, base: int, len: int)
    requires
        config_ok(c),
        0 <= base,
        base + layer_bytes(c) <= len,
        len <= usize::MAX,
    ensures
        layer_in_blob(c, layer_at(c, base), len),
{
    crate::model::lemma_layer_parts(c);
    let dim = c.dim as int;
    let hd = c.head_dim as int;
    let gs = c.group_size as int;
    let q_rows = c.n_heads as int * hd;
    let kv_rows = c.n_kv_heads as int * hd;
    let hid = c.hidden_dim as int;
    let o_wq = base + dim * 4;
    let o_wk = o_wq + q8_size(q_rows, dim, gs);
    let o_wv = o_wk + q8_size(kv_rows, dim, gs);
    let o_wo = o_wv + q8_size(kv_rows, dim, gs);
    let o_ffn = o_wo + q8_size(dim, q_rows, gs);
    let o_gate = o_ffn + dim * 4;
    let o_up = o_gate + q8_size(hid, dim, gs);
    let o_down = o_up + q8_size(hid, dim, gs);
    assert(q_rows == dim);
    lemma_q8_in_blob(o_wq, dim, dim, gs, len);
    lemma_q8_in_blob(o_wk, kv_rows, dim, gs, len);
    lemma_q8_in_blob(o_wv, kv_rows, dim, gs, len);
    lemma_q8_in_blob(o_wo, dim, dim, gs, len);
    lemma_q8_in_blob(o_gate, hid, dim, gs, len);
    lemma_q8_in_blob(o_up, hid, dim, gs, len);
    lemma_q8_in_blob(o_down, dim, hid, gs, len);
}

/// Every matrix and norm of an INT8 model that loaded lies in its blob.
pub(crate) proof fn lemma_model_in_blob(d: Seq<u8>, m: ModelLayout)
    requires
        model_ok(d),
        layout_of(d, m),
        config_ok(m.config),
        d.len() <= usize::MAX,
    ensures
        q8_in_blob(m.embed, d.len() as int, m.config.vocab_size as int, m.config.dim as int, m.config.group_size as int),
        m.rms_final_off + m.config.dim * 4 <= d.len(),
        m.layers@.len() == m.config.n_layers,
        forall|l: int| 0 <= l < m.layers@.len() ==> layer_in_blob(m.config, #[trigger] m.layers@[l], d.len() as int),
{
    let c = m.config;
    let start = weights_start(d);
    let gs = c.group_size as int;
    let lb = layer_bytes(c);
    crate::model::lemma_token_records_bound(d, TOK_SECTION_OFF + 8, header_config(d).vocab_size as nat);
    crate::model::lemma_layer_parts(c);
    assert(0 <= start);
    let first = start + q8_size(c.vocab_size as int, c.dim as int, gs);
    lemma_nonneg_mul(c.n_layers as int, lb);
    lemma_q8_in_blob(start, c.vocab_size as int, c.dim as int, gs, d.len() as int);
    assert forall|l: int| 0 <= l < m.layers@.len() implies layer_in_blob(c, #[trigger] m.layers@[l], d.len() as int) by {
        crate::model::lemma_layers_within(c, l);
        assert(m.layers@[l] == layer_at(c, first + l * lb));
        lemma_layer_in_blob(c, first + l * lb, d.len() as int);
    }
}

/// Run `token` at position `pos` through the INT8 model laid out as `m` in
/// `d`: the logits of the next token land in `st.logits`, and the keys and
/// values of every layer at `pos` in the cache.
pub fn forward_token(st: &mut InferenceState, d: &[u8], m: &ModelLayout, token: usize, pos: usize)
    requires
        model_ok(d@),
        layout_of(d@, *m),
        config_ok(m.config),
        state_fits(m.config, *old(st)),
        token < m.config.vocab_size,
        pos < INFERENCE_MAX_SEQ,
        forward_fits(d@, *m, token as int, pos as int, old(st).kv@),
    ensures
        state_fits(m.config, *final(st)),
        final(st).logits@ == forward_result(d@, *m, token as int, pos as int, old(st).kv@).0,
        final(st).kv@ == forward_result(d@, *m, token as int, pos as int, old(st).kv@).1,
{
    let dlen = d.len();
    proof {
        lemma_model_in_blob(d@, *m);
    }
    let c = &m.config;
    let dim = c.dim as usize;
    let gs = c.group_size as usize;
    let vocab = c.vocab_size as usize;
    let n_layers = c.n_layers as usize;
    let ghost kv0 = st.kv@;
    embed_token(&mut st.x, d, &m.embed, vocab, dim, gs, token);
    let ghost x0 = st.x@;
    let ghost layers = m.layers@;
    let ghost total = layers_out(d@, *c, layers, 0, pos as int, x0, kv0);
    let mut l: usize = 0;
    while l < n_layers
        invariant
            l <= n_layers,
            n_layers == layers.len(),
            n_layers == c.n_layers,
            layers == m.layers@,
            config_ok(*c),
            *c == m.config,
            state_fits(*c, *st),
            pos < INFERENCE_MAX_SEQ,
            forall|i: int| 0 <= i < layers.len() ==> layer_in_blob(*c, #[trigger] layers[i], d@.len() as int),
            layers_out(d@, *c, layers, l as int, pos as int, st.x@, st.kv@) == total,
            layers_fit(d@, *c, layers, l as int, pos as int, st.x@, st.kv@),
        decreases n_layers - l,
    {
        let lr = &m.layers[l];
        assert(*lr == layers[l as int]);
        forward_layer(st, d, c, lr, l, pos);
        l = l + 1;
    }
    rms(&mut st.xb, &st.x, d, m.rms_final_off, dim);
    matvec(&mut st.logits, &st.xb, d, &m.embed, vocab, dim, gs);
}


/// The position of the cache entry at index `i`: the entries of every
/// layer, of keys and values, and of every KV head lie in blocks of
/// `INFERENCE_MAX_SEQ` positions of `hd` entries each.
pub open spec fn kv_position(i: int, hd: int) -> int {
    (i % kv_head_stride(hd)) / hd
}

proof fn lemma_kv_written_elsewhere(kv: Seq<i32>, l: int, pos: int, k: Seq<i32>, v: Seq<i32>, nkv: int, hd: int, i: int)
    requires
        nkv > 0,
        hd > 0,
        0 <= l,
        0 <= i < kv.len(),
        kv_position(i, hd) != pos,
    ensures
        kv_written(kv, l, pos, k, v, nkv, hd).len() == kv.len(),
        kv_written(kv, l, pos, k, v, nkv, hd)[i] == kv[i],
{
    let khs = kv_head_stride(hd);
    let kts = kv_type_stride(nkv, hd);
    let base = kv_layer_base(l, nkv, hd);
    let r = i - base;
    if 0 <= r < 2 * kts {
        assert(khs > 0) by (nonlinear_arith)
            requires khs == INFERENCE_MAX_SEQ as int * hd, hd > 0;
        assert(kts == khs * nkv) by (nonlinear_arith)
            requires kts == nkv * khs;
        vstd::arithmetic::div_mod::lemma_mod_mod(r, khs, nkv);
        assert(base == khs * (l * 2 * nkv)) by (nonlinear_arith)
            requires base == l * (2 * kts), kts == nkv * khs;
        vstd::arithmetic::div_mod::lemma_mod_multiples_vanish(l * 2 * nkv, r, khs);
        assert(i % khs == (r % kts) % khs);
    }
}

proof fn lemma_layers_keep(d: Seq<u8>, c: ModelConfig, layers: Seq<LayerRef>, l: int, pos: int, x: Seq<i32>, kv: Seq<i32>, i: int)
    requires
        c.n_kv_heads > 0,
        c.head_dim > 0,
        0 <= l,
        0 <= i < kv.len(),
        kv_position(i, c.head_dim as int) != pos,
    ensures
        layers_out(d, c, layers, l, pos, x, kv).1.len() == kv.len(),
        layers_out(d, c, layers, l, pos, x, kv).1[i] == kv[i],
    decreases layers.len() - l,
{
    if l < layers.len() {
        let lr = layers[l];
        let dim = c.dim as int;
        let kvd = c.n_kv_heads as int * c.head_dim as int;
        let gs = c.group_size as int;
        let hd = c.head_dim as int;
        let xb = rms_vec(x, d, lr.rms_att_off as int, dim);
        let k = roped_heads(q8_matvec(d, lr.wk, xb, kvd, dim, gs), hd, pos as usize);
        let v = q8_matvec(d, lr.wv, xb, kvd, dim, gs);
        lemma_kv_written_elsewhere(kv, l, pos, k, v, c.n_kv_heads as int, hd, i);
        let r = layer_out(d, c, lr, l, pos, x, kv);
        assert(r.1 == kv_written(kv, l, pos, k, v, c.n_kv_heads as int, hd));
        lemma_layers_keep(d, c, layers, l + 1, pos, r.0, r.1, i);
    }
}

/// A token's pass at position `pos` changes the KV cache only at `pos`:
/// every entry of another position keeps its value, so what earlier
/// tokens stored stays for the tokens after them.
pub proof fn lemma_forward_keeps_other_positions(d: Seq<u8>, m: ModelLayout, token: int, pos: int, kv: Seq<i32>, i: int)
    requires
        m.config.n_kv_heads > 0,
        m.config.head_dim > 0,
        0 <= i < kv.len(),
        kv_position(i, m.config.head_dim as int) != pos,
    ensures
        forward_result(d, m, token, pos, kv).1.len() == kv.len(),
        forward_result(d, m, token, pos, kv).1[i] == kv[i],
{
    let c = m.config;
    let x0 = embed_vec(d, m.embed, c.dim as int, c.group_size as int, token);
    lemma_layers_keep(d, c, m.layers@, 0, pos, x0, kv, i);
}

} // verus!
