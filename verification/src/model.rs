//! The model blob: its header, its tokenizer section (one record per token)
//! and the layout of its weights, for the INT8 format (v1) and the FP16
//! format (v2).

use vstd::prelude::*;

use crate::math::le_u32_value;
use crate::tokenizer::{le_u16_value, record_fits, vocab_fits, MODEL_MAX_VOCAB};

verus! {

/// `HKBT`, little-endian: the first four bytes of a model blob.
pub const MODEL_MAGIC: u32 = 0x484B4254;

/// The INT8 weight format.
pub const MODEL_FORMAT_V1: u32 = 1;

/// The FP16 weight format.
pub const MODEL_FORMAT_V2: u32 = 2;

/// Bytes in the header.
pub const MODEL_HEADER_SIZE: usize = 56;

/// The most transformer layers a model may have.
pub const MODEL_MAX_LAYERS: usize = 32;

/// Why a model blob was refused.
#[derive(PartialEq, Eq, Structural, Clone, Copy, Debug)]
pub enum ModelError {
    /// The blob is malformed (the kernel's `EINVAL`).
    Invalid,
    /// The model's inference buffers are too large to allocate (the
    /// kernel's `ENOMEM`).
    OutOfMemory,
}

/// The model's shape, as its header gives it.
#[derive(PartialEq, Eq, Structural, Clone, Copy, Debug)]
pub struct ModelConfig {
    pub dim: u32,
    pub hidden_dim: u32,
    pub n_layers: u32,
    pub n_heads: u32,
    pub n_kv_heads: u32,
    pub vocab_size: u32,
    pub seq_len: u32,
    pub group_size: u32,
    pub head_dim: u32,
    pub kv_dim: u32,
    pub rope_theta: u32,
}

/// Where a quantized weight matrix lies in the blob.
#[derive(PartialEq, Eq, Structural, Clone, Copy, Debug)]
pub struct Q8Ref {
    /// Offset of its INT8 weights (`rows * cols` bytes).
    pub data_off: usize,
    /// Offset of its scales (one little-endian `i32` per group of each row).
    pub scale_off: usize,
    pub rows: usize,
    pub cols: usize,
}

/// Where one transformer layer's weights lie in the blob.
#[derive(PartialEq, Eq, Structural, Clone, Copy, Debug)]
pub struct LayerRef {
    pub rms_att_off: usize,
    pub wq: Q8Ref,
    pub wk: Q8Ref,
    pub wv: Q8Ref,
    pub wo: Q8Ref,
    pub rms_ffn_off: usize,
    pub gate: Q8Ref,
    pub up: Q8Ref,
    pub down: Q8Ref,
}

/// A little-endian `u32` from the blob.
pub fn read_u32_le(data: &[u8], off: usize) -> (r: Result<u32, ModelError>)
    requires
        off <= usize::MAX - 4,
    ensures
        r is Ok <==> off + 4 <= data@.len(),
        r matches Err(e) ==> e == ModelError::Invalid,
        r matches Ok(v) ==> v == le_u32_value(data@, off as int),
{
    if off + 4 > data.len() {
        return Err(ModelError::Invalid);
    }
    Ok(data[off] as u32 + data[off + 1] as u32 * 256 + data[off + 2] as u32 * 65536 + data[off + 3]
        as u32 * 16777216)
}

/// A little-endian `u16` from the blob.
pub fn read_u16_le(data: &[u8], off: usize) -> (r: Result<u16, ModelError>)
    requires
        off <= usize::MAX - 2,
    ensures
        r is Ok <==> off + 2 <= data@.len(),
        r matches Err(e) ==> e == ModelError::Invalid,
        r matches Ok(v) ==> v == le_u16_value(data@, off as int),
{
    if off + 2 > data.len() {
        return Err(ModelError::Invalid);
    }
    Ok(data[off] as u16 + data[off + 1] as u16 * 256)
}

/// Bytes a quantized matrix takes: its weights and one 4-byte scale per
/// group of each row.
pub open spec fn q8_size(rows: int, cols: int, gs: int) -> int {
    rows * cols + rows * (cols / gs) * 4
}

/// The matrix of `rows` by `cols` whose weights start at `off`.
pub open spec fn q8_at(off: int, rows: int, cols: int) -> Q8Ref {
    Q8Ref { data_off: off as usize, scale_off: (off + rows * cols) as usize, rows: rows as usize, cols: cols as usize }
}

proof fn lemma_q8_size(rows: int, cols: int, gs: int)
    requires
        rows >= 0,
        cols >= 0,
        gs > 0,
    ensures
        0 <= rows * cols <= q8_size(rows, cols, gs),
        0 <= rows * (cols / gs) * 4,
{
    assert(0 <= rows * cols) by (nonlinear_arith)
        requires
            rows >= 0,
            cols >= 0,
    ;
    assert(0 <= rows * (cols / gs) * 4) by (nonlinear_arith)
        requires
            rows >= 0,
            cols >= 0,
            gs > 0,
    ;
}

/// Step the weight cursor over a quantized matrix of `rows` by `cols`;
/// the matrix's place, unless it ends past `data_len`. The cursor moves
/// either way, unless the end cannot even be counted.
pub fn q8_ref_advance(cursor: &mut usize, rows: usize, cols: usize, gs: usize, data_len: usize) -> (r:
    Result<Q8Ref, ModelError>)
    requires
        gs > 0,
    ensures
        *old(cursor) + q8_size(rows as int, cols as int, gs as int) <= usize::MAX ==> *final(cursor)
            == *old(cursor) + q8_size(rows as int, cols as int, gs as int),
        r is Ok <==> *old(cursor) + q8_size(rows as int, cols as int, gs as int) <= data_len,
        r matches Err(e) ==> e == ModelError::Invalid,
        r matches Ok(q) ==> q == q8_at(*old(cursor) as int, rows as int, cols as int),
{
    proof {
        lemma_q8_size(rows as int, cols as int, gs as int);
    }
    let data_off = *cursor;
    let data_size = match rows.checked_mul(cols) {
        Some(v) => v,
        None => return Err(ModelError::Invalid),
    };
    let scale_off = match data_off.checked_add(data_size) {
        Some(v) => v,
        None => return Err(ModelError::Invalid),
    };
    let n_groups = cols / gs;
    let groups = match rows.checked_mul(n_groups) {
        Some(v) => v,
        None => return Err(ModelError::Invalid),
    };
    let scale_size = match groups.checked_mul(4) {
        Some(v) => v,
        None => return Err(ModelError::Invalid),
    };
    let end = match scale_off.checked_add(scale_size) {
        Some(v) => v,
        None => return Err(ModelError::Invalid),
    };
    *cursor = end;
    if end > data_len {
        return Err(ModelError::Invalid);
    }
    Ok(Q8Ref { data_off, scale_off, rows, cols })
}

/// Step the weight cursor over an RMSNorm weight vector of `dim` entries;
/// its offset, unless it ends past `data_len`. The cursor moves either way,
/// unless the end cannot even be counted.
pub fn norm_ref_advance(cursor: &mut usize, dim: usize, data_len: usize) -> (r: Result<usize, ModelError>)
    ensures
        *old(cursor) + dim * 4 <= usize::MAX ==> *final(cursor) == *old(cursor) + dim * 4,
        r is Ok <==> *old(cursor) + dim * 4 <= data_len,
        r matches Err(e) ==> e == ModelError::Invalid,
        r matches Ok(off) ==> off == *old(cursor),
{
    let off = *cursor;
    let size = match dim.checked_mul(4) {
        Some(v) => v,
        None => return Err(ModelError::Invalid),
    };
    let end = match off.checked_add(size) {
        Some(v) => v,
        None => return Err(ModelError::Invalid),
    };
    *cursor = end;
    if end > data_len {
        return Err(ModelError::Invalid);
    }
    Ok(off)
}

// ---------------------------------------------------------------------------
// The header
// ---------------------------------------------------------------------------

/// The header field at `off`.
pub open spec fn field(d: Seq<u8>, off: int) -> u32 {
    le_u32_value(d, off) as u32
}

/// The configuration the header of `d` gives.
pub open spec fn header_config(d: Seq<u8>) -> ModelConfig {
    ModelConfig {
        dim: field(d, 8),
        hidden_dim: field(d, 12),
        n_layers: field(d, 16),
        n_heads: field(d, 20),
        n_kv_heads: field(d, 24),
        vocab_size: field(d, 28),
        seq_len: field(d, 32),
        group_size: field(d, 36),
        head_dim: field(d, 40),
        kv_dim: field(d, 44),
        rope_theta: field(d, 48),
    }
}

/// Whether the header of `d` is one this module can load: long enough,
/// with the magic, a known version, at most `MODEL_MAX_LAYERS` layers and
/// `MODEL_MAX_VOCAB` tokens, nonzero dimensions, and for the INT8 format a
/// group size that divides both widths.
pub open spec fn header_ok(d: Seq<u8>) -> bool {
    let c = header_config(d);
    let version = field(d, 4);
    &&& d.len() >= MODEL_HEADER_SIZE
    &&& field(d, 0) == MODEL_MAGIC
    &&& (version == MODEL_FORMAT_V1 || version == MODEL_FORMAT_V2)
    &&& c.n_layers <= MODEL_MAX_LAYERS
    &&& c.vocab_size <= MODEL_MAX_VOCAB
    &&& c.dim != 0 && c.hidden_dim != 0 && c.head_dim != 0
    &&& version == MODEL_FORMAT_V1 ==> (c.group_size != 0 && c.dim % c.group_size == 0
        && c.hidden_dim % c.group_size == 0)
}

/// Parse the header of a model blob.
pub fn parse_model_header(data: &[u8]) -> (r: Result<ModelConfig, ModelError>)
    ensures
        r is Ok <==> header_ok(data@),
        r matches Err(e) ==> e == ModelError::Invalid,
        r matches Ok(c) ==> c == header_config(data@),
{
    if data.len() < MODEL_HEADER_SIZE {
        return Err(ModelError::Invalid);
    }
    let magic = read_u32_le(data, 0)?;
    if magic != MODEL_MAGIC {
        return Err(ModelError::Invalid);
    }
    let version = read_u32_le(data, 4)?;
    if version != MODEL_FORMAT_V1 && version != MODEL_FORMAT_V2 {
        return Err(ModelError::Invalid);
    }
    let config = ModelConfig {
        dim: read_u32_le(data, 8)?,
        hidden_dim: read_u32_le(data, 12)?,
        n_layers: read_u32_le(data, 16)?,
        n_heads: read_u32_le(data, 20)?,
        n_kv_heads: read_u32_le(data, 24)?,
        vocab_size: read_u32_le(data, 28)?,
        seq_len: read_u32_le(data, 32)?,
        group_size: read_u32_le(data, 36)?,
        head_dim: read_u32_le(data, 40)?,
        kv_dim: read_u32_le(data, 44)?,
        rope_theta: read_u32_le(data, 48)?,
    };
    if config.n_layers as usize > MODEL_MAX_LAYERS {
        return Err(ModelError::Invalid);
    }
    if config.vocab_size as usize > MODEL_MAX_VOCAB {
        return Err(ModelError::Invalid);
    }
    if config.dim == 0 || config.hidden_dim == 0 || config.head_dim == 0 {
        return Err(ModelError::Invalid);
    }
    if version == MODEL_FORMAT_V1 {
        if config.group_size == 0 {
            return Err(ModelError::Invalid);
        }
        let gs = config.group_size as usize;
        if config.dim as usize % gs != 0 {
            return Err(ModelError::Invalid);
        }
        if config.hidden_dim as usize % gs != 0 {
            return Err(ModelError::Invalid);
        }
    }
    Ok(config)
}

// ---------------------------------------------------------------------------
// The tokenizer section and the weights
// ---------------------------------------------------------------------------

/// The `k` token records from `pos` on: the offset of each (as stored, in
/// 32 bits) and where the last one ends; `None` when a record's score and
/// length run past the end of the blob.
pub open spec fn token_records(d: Seq<u8>, pos: int, k: nat) -> Option<(Seq<u32>, int)>
    decreases k,
{
    if k == 0 {
        Some((seq![], pos))
    } else if pos + 6 > d.len() {
        None
    } else {
        match token_records(d, pos + 6 + le_u16_value(d, pos + 4), (k - 1) as nat) {
            Some(rest) => Some((seq![pos as u32] + rest.0, rest.1)),
            None => None,
        }
    }
}

/// The offsets of the records `token_records` finds (none when it fails).
pub open spec fn record_offsets(d: Seq<u8>, pos: int, k: nat) -> Seq<u32> {
    match token_records(d, pos, k) {
        Some(r) => r.0,
        None => seq![],
    }
}

/// Where the records `token_records` finds end (`pos` when it fails).
pub open spec fn records_end(d: Seq<u8>, pos: int, k: nat) -> int {
    match token_records(d, pos, k) {
        Some(r) => r.1,
        None => pos,
    }
}

/// Where the tokenizer section starts.
pub const TOK_SECTION_OFF: usize = 56;

/// Bytes one INT8 layer takes: attention norm, query, key, value and
/// output matrices, FFN norm, gate, up and down matrices.
pub open spec fn layer_bytes(c: ModelConfig) -> int {
    let dim = c.dim as int;
    let hd = c.head_dim as int;
    let gs = c.group_size as int;
    let q_rows = c.n_heads as int * hd;
    let kv_rows = c.n_kv_heads as int * hd;
    let hid = c.hidden_dim as int;
    dim * 4 + q8_size(q_rows, dim, gs) + q8_size(kv_rows, dim, gs) + q8_size(kv_rows, dim, gs)
        + q8_size(dim, q_rows, gs) + dim * 4 + q8_size(hid, dim, gs) + q8_size(hid, dim, gs)
        + q8_size(dim, hid, gs)
}

/// The INT8 layer whose weights start at `base`.
pub open spec fn layer_at(c: ModelConfig, base: int) -> LayerRef {
    let dim = c.dim as int;
    let hd = c.head_dim as int;
    let gs = c.group_size as int;
    let q_rows = c.n_heads as int * hd;
    let kv_rows = c.n_kv_heads as int * hd;
    let hid = c.hidden_dim as int;
    let o_wq = base + dim * 4;
    let o_wk = o_wq + q8_size(q_rows, dim, gs);
    let o_wv = o_wk + q8_size(kv_rows, dim, gs);
    let o_wo = o_wv + q8_size(kv_rows, dim, gs);
    let o_ffn = o_wo + q8_size(dim, q_rows, gs);
    let o_gate = o_ffn + dim * 4;
    let o_up = o_gate + q8_size(hid, dim, gs);
    let o_down = o_up + q8_size(hid, dim, gs);
    LayerRef {
        rms_att_off: base as usize,
        wq: q8_at(o_wq, q_rows, dim),
        wk: q8_at(o_wk, kv_rows, dim),
        wv: q8_at(o_wv, kv_rows, dim),
        wo: q8_at(o_wo, dim, q_rows),
        rms_ffn_off: o_ffn as usize,
        gate: q8_at(o_gate, hid, dim),
        up: q8_at(o_up, hid, dim),
        down: q8_at(o_down, dim, hid),
    }
}

/// Bytes the INT8 weights take: embedding table, layers, final norm.
pub open spec fn v1_weight_bytes(c: ModelConfig) -> int {
    q8_size(c.vocab_size as int, c.dim as int, c.group_size as int) + c.n_layers as int * layer_bytes(c)
        + c.dim as int * 4
}

/// Bytes the FP16 weights take.
pub open spec fn v2_weight_bytes(c: ModelConfig) -> int {
    let dim = c.dim as int;
    let hd = c.head_dim as int;
    let nh = c.n_heads as int;
    let nkv = c.n_kv_heads as int;
    let hid = c.hidden_dim as int;
    c.vocab_size as int * dim * 2 + c.n_layers as int * (dim * 4 + nh * hd * dim * 2 + nkv * hd * dim
        * 2 + nkv * hd * dim * 2 + dim * nh * hd * 2 + dim * 4 + hid * dim * 2 + hid * dim * 2 + dim
        * hid * 2) + dim * 4
}

/// Where the weights of the blob `d` start: after its token records.
pub open spec fn weights_start(d: Seq<u8>) -> int {
    match token_records(d, TOK_SECTION_OFF + 8, header_config(d).vocab_size as nat) {
        Some(r) => r.1,
        None => 0,
    }
}

/// Whether the blob `d` is a model this module loads: a good header, a
/// tokenizer section for exactly the header's vocabulary that ends inside
/// the blob, and room for the weights (FP16 when the group size is zero,
/// INT8 with a group size dividing both widths otherwise).
pub open spec fn model_ok(d: Seq<u8>) -> bool {
    let c = header_config(d);
    let start = weights_start(d);
    &&& header_ok(d)
    &&& d.len() >= TOK_SECTION_OFF + 8
    &&& field(d, TOK_SECTION_OFF as int) == c.vocab_size
    &&& token_records(d, TOK_SECTION_OFF + 8, c.vocab_size as nat) is Some
    &&& start <= d.len()
    &&& if c.group_size == 0 {
        v2_weight_bytes(c) <= d.len() - start
    } else {
        &&& c.dim % c.group_size == 0
        &&& c.hidden_dim % c.group_size == 0
        &&& start + v1_weight_bytes(c) <= d.len()
    }
}

/// Where the quantized matrix `q` ends in the blob: after its weights and
/// its scales (one `i32` per group of `gs` of each row).
pub open spec fn q8_end(q: Q8Ref, gs: int) -> int {
    q.scale_off + q.rows * (q.cols as int / gs) * 4
}

/// Whether `q` is a matrix of `rows` by `cols` whose weights start at
/// `off`, its scales right after them.
pub open spec fn matrix_at(q: Q8Ref, off: int, rows: int, cols: int) -> bool {
    &&& q.data_off == off
    &&& q.rows == rows
    &&& q.cols == cols
    &&& q.scale_off == off + rows * cols
}

proof fn lemma_q8_at_end(off: int, rows: int, cols: int, gs: int)
    requires
        0 <= off,
        0 <= rows,
        0 <= cols,
        gs > 0,
        rows <= usize::MAX,
        cols <= usize::MAX,
        off + q8_size(rows, cols, gs) <= usize::MAX,
    ensures
        matrix_at(q8_at(off, rows, cols), off, rows, cols),
        q8_end(q8_at(off, rows, cols), gs) == off + q8_size(rows, cols, gs),
{
    lemma_q8_size(rows, cols, gs);
}

proof fn lemma_layer_at_order(c: ModelConfig, base: int, len: int)
    requires
        c.group_size > 0,
        c.dim > 0,
        0 <= base,
        base + layer_bytes(c) <= len <= usize::MAX,
    ensures
        ({
            let lr = layer_at(c, base);
            let dim = c.dim as int;
            let gs = c.group_size as int;
            let qr = c.n_heads as int * c.head_dim as int;
            let kr = c.n_kv_heads as int * c.head_dim as int;
            let hid = c.hidden_dim as int;
            &&& lr.rms_att_off == base
            &&& matrix_at(lr.wq, base + dim * 4, qr, dim)
            &&& matrix_at(lr.wk, q8_end(lr.wq, gs), kr, dim)
            &&& matrix_at(lr.wv, q8_end(lr.wk, gs), kr, dim)
            &&& matrix_at(lr.wo, q8_end(lr.wv, gs), dim, qr)
            &&& lr.rms_ffn_off == q8_end(lr.wo, gs)
            &&& matrix_at(lr.gate, lr.rms_ffn_off + dim * 4, hid, dim)
            &&& matrix_at(lr.up, q8_end(lr.gate, gs), hid, dim)
            &&& matrix_at(lr.down, q8_end(lr.up, gs), dim, hid)
            &&& q8_end(lr.down, gs) == base + layer_bytes(c)
        }),
{
    lemma_layer_parts(c);
    let dim = c.dim as int;
    let gs = c.group_size as int;
    let qr = c.n_heads as int * c.head_dim as int;
    let kr = c.n_kv_heads as int * c.head_dim as int;
    let hid = c.hidden_dim as int;
    let o_wq = base + dim * 4;
    let o_wk = o_wq + q8_size(qr, dim, gs);
    let o_wv = o_wk + q8_size(kr, dim, gs);
    let o_wo = o_wv + q8_size(kr, dim, gs);
    let o_ffn = o_wo + q8_size(dim, qr, gs);
    let o_gate = o_ffn + dim * 4;
    let o_up = o_gate + q8_size(hid, dim, gs);
    let o_down = o_up + q8_size(hid, dim, gs);
    lemma_q8_size(hid, dim, gs);
    lemma_q8_size(dim, hid, gs);
    lemma_q8_size(dim, qr, gs);
    assert(hid <= hid * dim) by (nonlinear_arith)
        requires hid >= 0, dim > 0;
    lemma_q8_at_end(o_wq, qr, dim, gs);
    lemma_q8_at_end(o_wk, kr, dim, gs);
    lemma_q8_at_end(o_wv, kr, dim, gs);
    lemma_q8_at_end(o_wo, dim, qr, gs);
    lemma_q8_at_end(o_gate, hid, dim, gs);
    lemma_q8_at_end(o_up, hid, dim, gs);
    lemma_q8_at_end(o_down, dim, hid, gs);
}

/// An INT8 model's weights lie in its blob in file order, one right after
/// another: the embedding table where the weights start; in each layer the
/// attention norm, then wq, wk, wv, wo, the FFN norm, then gate, up, down,
/// each layer right after the one before (the first right after the
/// embedding table); then the final norm. Each matrix has the shape its
/// role gives it.
pub proof fn lemma_weights_in_file_order(d: Seq<u8>, m: ModelLayout)
    requires
        model_ok(d),
        layout_of(d, m),
        header_config(d).group_size != 0,
        d.len() <= usize::MAX,
    ensures
        ({
            let c = m.config;
            let dim = c.dim as int;
            let gs = c.group_size as int;
            let qr = c.n_heads as int * c.head_dim as int;
            let kr = c.n_kv_heads as int * c.head_dim as int;
            let hid = c.hidden_dim as int;
            let n = c.n_layers as int;
            &&& matrix_at(m.embed, m.weights_off as int, c.vocab_size as int, dim)
            &&& m.layers@.len() == n
            &&& forall|l: int|
                0 <= l < n ==> {
                    let lr = #[trigger] m.layers@[l];
                    &&& lr.rms_att_off == (if l == 0 {
                        q8_end(m.embed, gs)
                    } else {
                        q8_end(m.layers@[l - 1].down, gs)
                    })
                    &&& matrix_at(lr.wq, lr.rms_att_off + dim * 4, qr, dim)
                    &&& matrix_at(lr.wk, q8_end(lr.wq, gs), kr, dim)
                    &&& matrix_at(lr.wv, q8_end(lr.wk, gs), kr, dim)
                    &&& matrix_at(lr.wo, q8_end(lr.wv, gs), dim, qr)
                    &&& lr.rms_ffn_off == q8_end(lr.wo, gs)
                    &&& matrix_at(lr.gate, lr.rms_ffn_off + dim * 4, hid, dim)
                    &&& matrix_at(lr.up, q8_end(lr.gate, gs), hid, dim)
                    &&& matrix_at(lr.down, q8_end(lr.up, gs), dim, hid)
                }
            &&& m.rms_final_off == (if n == 0 { q8_end(m.embed, gs) } else { q8_end(m.layers@[n - 1].down, gs) })
        }),
{
    let c = m.config;
    let start = weights_start(d);
    let gs = c.group_size as int;
    let lb = layer_bytes(c);
    let n = c.n_layers as int;
    lemma_token_records_bound(d, TOK_SECTION_OFF + 8, header_config(d).vocab_size as nat);
    lemma_layer_parts(c);
    let first = start + q8_size(c.vocab_size as int, c.dim as int, gs);
    assert(0 <= n * lb) by (nonlinear_arith)
        requires n >= 0, lb >= 0;
    lemma_q8_at_end(start, c.vocab_size as int, c.dim as int, gs);
    assert forall|l: int| 0 <= l < n implies {
        let lr = #[trigger] m.layers@[l];
        &&& lr.rms_att_off == (if l == 0 {
            q8_end(m.embed, gs)
        } else {
            q8_end(m.layers@[l - 1].down, gs)
        })
        &&& matrix_at(lr.wq, lr.rms_att_off + c.dim * 4, c.n_heads as int * c.head_dim as int, c.dim as int)
        &&& matrix_at(lr.wk, q8_end(lr.wq, gs), c.n_kv_heads as int * c.head_dim as int, c.dim as int)
        &&& matrix_at(lr.wv, q8_end(lr.wk, gs), c.n_kv_heads as int * c.head_dim as int, c.dim as int)
        &&& matrix_at(lr.wo, q8_end(lr.wv, gs), c.dim as int, c.n_heads as int * c.head_dim as int)
        &&& lr.rms_ffn_off == q8_end(lr.wo, gs)
        &&& matrix_at(lr.gate, lr.rms_ffn_off + c.dim * 4, c.hidden_dim as int, c.dim as int)
        &&& matrix_at(lr.up, q8_end(lr.gate, gs), c.hidden_dim as int, c.dim as int)
        &&& matrix_at(lr.down, q8_end(lr.up, gs), c.dim as int, c.hidden_dim as int)
    } by {
        lemma_layers_within(c, l);
        assert(m.layers@[l] == layer_at(c, first + l * lb));
        lemma_layer_at_order(c, first + l * lb, d.len() as int);
        if l > 0 {
            lemma_layers_within(c, l - 1);
            assert(m.layers@[l - 1] == layer_at(c, first + (l - 1) * lb));
            lemma_layer_at_order(c, first + (l - 1) * lb, d.len() as int);
            assert((l - 1) * lb + lb == l * lb) by (nonlinear_arith);
        }
    }
    if n > 0 {
        lemma_layers_within(c, n - 1);
        lemma_layer_at_order(c, first + (n - 1) * lb, d.len() as int);
        assert((n - 1) * lb + lb == n * lb) by (nonlinear_arith);
        assert(m.layers@[n - 1] == layer_at(c, first + (n - 1) * lb));
    } else {
        assert(n * lb == 0) by (nonlinear_arith)
            requires n == 0;
    }
}

/// Where everything of a parsed model lies in its blob.
pub struct ModelLayout {
    pub config: ModelConfig,
    pub tok_section_off: usize,
    /// The offset of each token's record.
    pub tok_offsets: Vec<u32>,
    /// The embedding table (also the output projection); INT8 only.
    pub embed: Q8Ref,
    /// The layers; INT8 only.
    pub layers: Vec<LayerRef>,
    /// The final RMSNorm weights; INT8 only.
    pub rms_final_off: usize,
    pub format_version: u32,
    pub weights_off: usize,
}

/// The zero matrix reference.
pub open spec fn q8_zero() -> Q8Ref {
    Q8Ref { data_off: 0, scale_off: 0, rows: 0, cols: 0 }
}

/// Whether `m` is the layout of the blob `d` (which `model_ok` accepts).
pub open spec fn layout_of(d: Seq<u8>, m: ModelLayout) -> bool {
    let c = header_config(d);
    let start = weights_start(d);
    let gs = c.group_size as int;
    &&& m.config == c
    &&& m.tok_section_off == TOK_SECTION_OFF
    &&& m.tok_offsets@ == record_offsets(d, TOK_SECTION_OFF + 8, c.vocab_size as nat)
    &&& m.weights_off == start
    &&& if c.group_size == 0 {
        &&& m.format_version == MODEL_FORMAT_V2
        &&& m.embed == q8_zero()
        &&& m.layers@.len() == 0
        &&& m.rms_final_off == 0
    } else {
        let first = start + q8_size(c.vocab_size as int, c.dim as int, gs);
        &&& m.format_version == MODEL_FORMAT_V1
        &&& m.embed == q8_at(start, c.vocab_size as int, c.dim as int)
        &&& m.layers@ == Seq::new(
            c.n_layers as nat,
            |l: int| layer_at(c, first + l * layer_bytes(c)),
        )
        &&& m.rms_final_off == first + c.n_layers as int * layer_bytes(c)
    }
}

pub(crate) proof fn lemma_token_records_bound(d: Seq<u8>, pos: int, k: nat)
    requires
        0 <= pos,
    ensures
        token_records(d, pos, k) matches Some(r) ==> pos <= r.1 && r.0.len() == k,
    decreases k,
{
    if k > 0 && pos + 6 <= d.len() {
        lemma_token_records_bound(d, pos + 6 + le_u16_value(d, pos + 4), (k - 1) as nat);
    }
}

/// Records parsed from a blob of at most `u32::MAX` bytes all lie inside it.
pub proof fn lemma_token_records_fit(d: Seq<u8>, pos: int, k: nat)
    requires
        0 <= pos,
        d.len() <= u32::MAX,
        token_records(d, pos, k) matches Some(r) && r.1 <= d.len(),
    ensures
        vocab_fits(d, record_offsets(d, pos, k)),
    decreases k,
{
    if k > 0 {
        let next = pos + 6 + le_u16_value(d, pos + 4);
        lemma_token_records_bound(d, next, (k - 1) as nat);
        lemma_token_records_fit(d, next, (k - 1) as nat);
        let offs = record_offsets(d, pos, k);
        let rest = record_offsets(d, next, (k - 1) as nat);
        assert(offs == seq![pos as u32] + rest);
        assert forall|i: int| 0 <= i < offs.len() implies record_fits(d, #[trigger] offs[i] as int) by {
            if i == 0 {
                assert((pos as u32) as int == pos);
            } else {
                assert(offs[i] == rest[i - 1]);
            }
        }
    }
}

fn parse_token_records(data: &[u8], vocab_size: usize) -> (r: Result<(Vec<u32>, usize), ModelError>)
    requires
        data@.len() <= isize::MAX,
        data@.len() >= TOK_SECTION_OFF + 8,
    ensures
        r is Ok <==> token_records(data@, TOK_SECTION_OFF + 8, vocab_size as nat) is Some,
        r matches Err(e) ==> e == ModelError::Invalid,
        r matches Ok(v) ==> v.0@ == record_offsets(data@, TOK_SECTION_OFF + 8, vocab_size as nat)
            && v.1 == records_end(data@, TOK_SECTION_OFF + 8, vocab_size as nat),
{
    let ghost d = data@;
    let ghost full = token_records(d, TOK_SECTION_OFF + 8, vocab_size as nat);
    let mut offsets: Vec<u32> = Vec::new();
    let mut pos: usize = TOK_SECTION_OFF + 8;
    let n = data.len();
    for i in 0..vocab_size
        invariant
            n == d.len(),
            d == data@,
            n <= isize::MAX,
            pos <= n + 65541,
            full == token_records(d, TOK_SECTION_OFF + 8, vocab_size as nat),
            full == (match token_records(d, pos as int, (vocab_size - i) as nat) {
                Some(rest) => Some((offsets@ + rest.0, rest.1)),
                None => None::<(Seq<u32>, int)>,
            }),
    {
        if pos > n || n - pos < 6 {
            return Err(ModelError::Invalid);
        }
        offsets.push(pos as u32);
        pos = pos + 4;
        let token_len = read_u16_le(data, pos)? as usize;
        pos = pos + 2;
        pos = pos + token_len;
        proof {
            assert(token_len == le_u16_value(d, pos - 2 - token_len));
            let rest = token_records(d, pos as int, (vocab_size - i - 1) as nat);
            if rest is Some {
                let ro = record_offsets(d, pos as int, (vocab_size - i - 1) as nat);
                assert(offsets@ + ro == (offsets@.drop_last()) + (seq![offsets@.last()] + ro));
            }
        }
    }
    assert(offsets@ + Seq::<u32>::empty() == offsets@);
    Ok((offsets, pos))
}

pub(crate) proof fn lemma_layer_parts(c: ModelConfig)
    requires
        c.group_size > 0,
    ensures
        0 <= c.dim as int * 4,
        0 <= q8_size(c.n_heads as int * c.head_dim as int, c.dim as int, c.group_size as int),
        0 <= q8_size(c.n_kv_heads as int * c.head_dim as int, c.dim as int, c.group_size as int),
        0 <= q8_size(c.dim as int, c.n_heads as int * c.head_dim as int, c.group_size as int),
        0 <= q8_size(c.hidden_dim as int, c.dim as int, c.group_size as int),
        0 <= q8_size(c.dim as int, c.hidden_dim as int, c.group_size as int),
        0 <= q8_size(c.vocab_size as int, c.dim as int, c.group_size as int),
        0 <= c.n_heads as int * c.head_dim as int,
        0 <= c.n_kv_heads as int * c.head_dim as int,
        c.dim > 0 ==> c.n_heads as int * c.head_dim as int <= q8_size(c.n_heads as int * c.head_dim as int, c.dim as int, c.group_size as int),
        c.dim > 0 ==> c.n_kv_heads as int * c.head_dim as int <= q8_size(c.n_kv_heads as int * c.head_dim as int, c.dim as int, c.group_size as int),
        0 <= layer_bytes(c),
{
    let gs = c.group_size as int;
    let dim = c.dim as int;
    let qr = c.n_heads as int * c.head_dim as int;
    let kr = c.n_kv_heads as int * c.head_dim as int;
    assert(0 <= qr) by (nonlinear_arith)
        requires
            qr == c.n_heads as int * c.head_dim as int,
    ;
    assert(0 <= kr) by (nonlinear_arith)
        requires
            kr == c.n_kv_heads as int * c.head_dim as int,
    ;
    lemma_q8_size(qr, dim, gs);
    lemma_q8_size(kr, dim, gs);
    lemma_q8_size(dim, qr, gs);
    lemma_q8_size(c.hidden_dim as int, dim, gs);
    lemma_q8_size(dim, c.hidden_dim as int, gs);
    lemma_q8_size(c.vocab_size as int, dim, gs);
    if dim > 0 {
        assert(qr <= qr * dim) by (nonlinear_arith)
            requires
                qr >= 0,
                dim > 0,
        ;
        assert(kr <= kr * dim) by (nonlinear_arith)
            requires
                kr >= 0,
                dim > 0,
        ;
    }
}

pub(crate) proof fn lemma_layers_within(c: ModelConfig, l: int)
    requires
        c.group_size > 0,
        0 <= l < c.n_layers,
    ensures
        (l + 1) * layer_bytes(c) <= c.n_layers as int * layer_bytes(c),
        l * layer_bytes(c) + layer_bytes(c) == (l + 1) * layer_bytes(c),
        0 <= l * layer_bytes(c),
{
    lemma_layer_parts(c);
    let lb = layer_bytes(c);
    assert((l + 1) * lb <= c.n_layers as int * lb) by (nonlinear_arith)
        requires
            0 <= l < c.n_layers,
            lb >= 0,
    ;
    assert(l * lb + lb == (l + 1) * lb) by (nonlinear_arith);
    assert(0 <= l * lb) by (nonlinear_arith)
        requires
            0 <= l,
            lb >= 0,
    ;
}

/// Steps the cursor over one INT8 layer starting at `base`.
fn parse_layer(cursor: &mut usize, c: &ModelConfig, data_len: usize) -> (r: Result<LayerRef, ModelError>)
    requires
        c.group_size > 0,
        c.dim > 0,
    ensures
        r is Ok <==> *old(cursor) + layer_bytes(*c) <= data_len,
        r matches Err(e) ==> e == ModelError::Invalid,
        r matches Ok(lr) ==> lr == layer_at(*c, *old(cursor) as int),
        r is Ok ==> *final(cursor) == *old(cursor) + layer_bytes(*c),
{
    proof {
        lemma_layer_parts(*c);
    }
    let ghost base = *cursor as int;
    let ghost lb = layer_bytes(*c);
    let dim = c.dim as usize;
    let gs = c.group_size as usize;
    let hidden_dim = c.hidden_dim as usize;
    let ghost qr = c.n_heads as int * c.head_dim as int;
    let ghost kr = c.n_kv_heads as int * c.head_dim as int;
    let ghost s_q = q8_size(qr, dim as int, gs as int);
    let ghost s_k = q8_size(kr, dim as int, gs as int);
    let ghost s_o = q8_size(dim as int, qr, gs as int);
    let ghost s_h = q8_size(hidden_dim as int, dim as int, gs as int);
    let ghost s_d = q8_size(dim as int, hidden_dim as int, gs as int);
    assert(lb == dim * 4 + s_q + s_k + s_k + s_o + dim * 4 + s_h + s_h + s_d);
    let q_rows = match (c.n_heads as usize).checked_mul(c.head_dim as usize) {
        Some(v) => v,
        None => {
            assert(base + lb > data_len);
            return Err(ModelError::Invalid);
        },
    };
    let kv_rows = match (c.n_kv_heads as usize).checked_mul(c.head_dim as usize) {
        Some(v) => v,
        None => {
            assert(base + lb > data_len);
            return Err(ModelError::Invalid);
        },
    };
    let rms_att_off = norm_ref_advance(cursor, dim, data_len)?;
    let wq = q8_ref_advance(cursor, q_rows, dim, gs, data_len)?;
    let wk = q8_ref_advance(cursor, kv_rows, dim, gs, data_len)?;
    let wv = q8_ref_advance(cursor, kv_rows, dim, gs, data_len)?;
    let wo = q8_ref_advance(cursor, dim, q_rows, gs, data_len)?;
    let rms_ffn_off = norm_ref_advance(cursor, dim, data_len)?;
    let gate = q8_ref_advance(cursor, hidden_dim, dim, gs, data_len)?;
    let up = q8_ref_advance(cursor, hidden_dim, dim, gs, data_len)?;
    let down = q8_ref_advance(cursor, dim, hidden_dim, gs, data_len)?;
    Ok(LayerRef { rms_att_off, wq, wk, wv, wo, rms_ffn_off, gate, up, down })
}

proof fn lemma_mul3_bound(a: u128, b: u128, c: u128)
    requires
        a < 0x1_0000_0000,
        b < 0x1_0000_0000,
        c < 0x1_0000_0000,
    ensures
        a * b < 0x1_0000_0000_0000_0000,
        a * b * c < 0x1_0000_0000_0000_0000_0000_0000,
{
    assert(a * b < 0x1_0000_0000_0000_0000) by (nonlinear_arith)
        requires
            a < 0x1_0000_0000,
            b < 0x1_0000_0000,
    ;
    assert(a * b * c < 0x1_0000_0000_0000_0000_0000_0000) by (nonlinear_arith)
        requires
            a * b < 0x1_0000_0000_0000_0000,
            c < 0x1_0000_0000,
    ;
}

/// Whether FP16 weights as the configuration `c` gives them fit in
/// `available` bytes.
fn fp16_weights_fit(c: ModelConfig, available: usize) -> (fits: bool)
    requires
        c.n_layers <= 32,
    ensures
        fits == (v2_weight_bytes(c) <= available),
{
    let ghost expected_bytes = v2_weight_bytes(c);
    let hd = c.head_dim as u128;
    let nh = c.n_heads as u128;
    let nkv = c.n_kv_heads as u128;
    let hid = c.hidden_dim as u128;
    let dm = c.dim as u128;
    proof {
        lemma_mul3_bound(nh, hd, dm);
        lemma_mul3_bound(nkv, hd, dm);
        lemma_mul3_bound(dm, nh, hd);
        lemma_mul3_bound(hid, dm, 1);
        lemma_mul3_bound(dm, hid, 1);
        lemma_mul3_bound(c.vocab_size as u128, dm, 1);
        lemma_mul3_bound(c.n_layers as u128, 1, 1);
    }
    let per_layer: u128 = dm * 4 + nh * hd * dm * 2 + nkv * hd * dm * 2 + nkv * hd * dm * 2 + dm
        * nh * hd * 2 + dm * 4 + hid * dm * 2 + hid * dm * 2 + dm * hid * 2;
    assert(per_layer < 0x1_0000_0000_0000_0000_0000_0000_0000) by (nonlinear_arith)
        requires
            per_layer == dm * 4 + nh * hd * dm * 2 + nkv * hd * dm * 2 + nkv * hd * dm * 2 + dm
                * nh * hd * 2 + dm * 4 + hid * dm * 2 + hid * dm * 2 + dm * hid * 2,
            nh < 0x1_0000_0000,
            nkv < 0x1_0000_0000,
            hd < 0x1_0000_0000,
            dm < 0x1_0000_0000,
            hid < 0x1_0000_0000,
    ;
    assert(c.n_layers as u128 * per_layer < 0x100_0000_0000_0000_0000_0000_0000_0000) by (nonlinear_arith)
        requires
            c.n_layers <= 32,
            per_layer < 0x1_0000_0000_0000_0000_0000_0000_0000,
    ;
    let expected: u128 = c.vocab_size as u128 * dm * 2 + c.n_layers as u128 * per_layer + dm * 4;
    assert(expected == expected_bytes) by (nonlinear_arith)
        requires
            expected == c.vocab_size as u128 * dm * 2 + c.n_layers as u128 * per_layer + dm * 4,
            per_layer == dm * 4 + nh * hd * dm * 2 + nkv * hd * dm * 2 + nkv * hd * dm * 2 + dm
                * nh * hd * 2 + dm * 4 + hid * dm * 2 + hid * dm * 2 + dm * hid * 2,
            expected_bytes == v2_weight_bytes(c),
            hd == c.head_dim,
            nh == c.n_heads,
            nkv == c.n_kv_heads,
            hid == c.hidden_dim,
            dm == c.dim,
    ;
    !((available as u128) < expected)
}

/// Lay out INT8 weights as the configuration `c` gives them, from
/// `weights_at` in a blob of `data_len` bytes: the embedding table, every
/// layer and the final RMSNorm weights, unless they end past the blob.
fn int8_weights(data_len: usize, config: ModelConfig, weights_at: usize) -> (r: Result<
    (Q8Ref, Vec<LayerRef>, usize),
    ModelError,
>)
    requires
        config.group_size > 0,
        config.dim > 0,
    ensures
        r is Ok <==> weights_at + v1_weight_bytes(config) <= data_len,
        r matches Err(e) ==> e == ModelError::Invalid,
        r matches Ok(v) ==> ({
            let first = weights_at + q8_size(config.vocab_size as int, config.dim as int, config.group_size as int);
            &&& v.0 == q8_at(weights_at as int, config.vocab_size as int, config.dim as int)
            &&& v.1@ == Seq::new(config.n_layers as nat, |l: int| layer_at(config, first + l * layer_bytes(config)))
            &&& v.2 == first + config.n_layers as int * layer_bytes(config)
        }),
{
    let dim = config.dim as usize;
    let n_layers = config.n_layers as usize;
    let vocab_size = config.vocab_size as usize;
    let gs = config.group_size as usize;
    proof {
        lemma_layer_parts(config);
        if n_layers > 0 {
            lemma_layers_within(config, n_layers - 1);
        }
    }
    let ghost first = weights_at + q8_size(vocab_size as int, dim as int, gs as int);
    let ghost lb = layer_bytes(config);
    let mut cursor = weights_at;
    let embed = q8_ref_advance(&mut cursor, vocab_size, dim, gs, data_len)?;
    let mut layers: Vec<LayerRef> = Vec::new();
    assert(cursor == first);
    assert(first + 0 * lb == first);
    for l in 0..n_layers
        invariant
            vocab_size == config.vocab_size,
            dim == config.dim,
            gs == config.group_size,
            first == weights_at + q8_size(vocab_size as int, dim as int, gs as int),
            config.group_size > 0,
            config.dim > 0,
            n_layers == config.n_layers,
            lb == layer_bytes(config),
            lb >= 0,
            cursor == first + l * lb,
            0 <= l * lb,
            layers@ == Seq::new(l as nat, |k: int| layer_at(config, first + k * lb)),
    {
        proof {
            lemma_layers_within(config, l as int);
        }
        let layer = match parse_layer(&mut cursor, &config, data_len) {
            Ok(layer) => layer,
            Err(e) => {
                proof {
                    lemma_layers_within(config, l as int);
                    assert(first + (l + 1) * lb > data_len);
                    assert(v1_weight_bytes(config) == q8_size(vocab_size as int, dim as int, gs as int)
                        + config.n_layers as int * lb + config.dim as int * 4);
                }
                return Err(e);
            },
        };
        layers.push(layer);
        proof {
            assert(layers@ =~= Seq::new((l + 1) as nat, |k: int| layer_at(config, first + k * lb)));
        }
    }
    let rms_final_off = norm_ref_advance(&mut cursor, dim, data_len)?;
    Ok((embed, layers, rms_final_off))
}

/// Parse a model blob: check its header, find every token's record, and
/// lay out its weights (FP16 when the group size is zero, INT8 otherwise).
pub fn parse_and_store_model(data: &[u8]) -> (r: Result<ModelLayout, ModelError>)
    requires
        data@.len() <= isize::MAX,
    ensures
        r is Ok <==> model_ok(data@),
        r matches Err(e) ==> e == ModelError::Invalid,
        r matches Ok(m) ==> layout_of(data@, m),
{
    let ghost d = data@;
    let config = parse_model_header(data)?;
    let dim = config.dim as usize;
    let n_layers = config.n_layers as usize;
    let vocab_size = config.vocab_size as usize;
    let tok_section_off = TOK_SECTION_OFF;
    let mut pos = tok_section_off;
    let tok_n_vocab = read_u32_le(data, pos)? as usize;
    pos = pos + 4;
    let _tok_max_len = read_u32_le(data, pos)?;
    pos = pos + 4;
    if tok_n_vocab != vocab_size {
        return Err(ModelError::Invalid);
    }
    let (tok_offsets, end) = parse_token_records(data, vocab_size)?;
    assert(weights_start(d) == end);
    pos = end;
    if pos > data.len() {
        return Err(ModelError::Invalid);
    }
    let weights_at = pos;
    if config.group_size == 0 {
        let available = data.len() - weights_at;
        if !fp16_weights_fit(config, available) {
            return Err(ModelError::Invalid);
        }
        let mut v2_config = config;
        v2_config.group_size = 0;
        return Ok(ModelLayout {
            config: v2_config,
            tok_section_off,
            tok_offsets,
            embed: Q8Ref { data_off: 0, scale_off: 0, rows: 0, cols: 0 },
            layers: Vec::new(),
            rms_final_off: 0,
            format_version: MODEL_FORMAT_V2,
            weights_off: weights_at,
        });
    }
    let gs = config.group_size as usize;
    if dim % gs != 0 {
        return Err(ModelError::Invalid);
    }
    if config.hidden_dim as usize % gs != 0 {
        return Err(ModelError::Invalid);
    }
    let (embed, layers, rms_final_off) = int8_weights(data.len(), config, weights_at)?;
    Ok(ModelLayout {
        config,
        tok_section_off,
        tok_offsets,
        embed,
        layers,
        rms_final_off,
        format_version: MODEL_FORMAT_V1,
        weights_off: weights_at,
    })
}

} // verus!
