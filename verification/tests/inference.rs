use hackbot::forward::forward_token;
use hackbot::generate::{can_run, generate, generate_from_tokens, get_next_token, load_model, ModelSlot};
use hackbot::local_agent::{append_chat_tokens, begin_assistant_turn, start_local, LocalAgent, LocalStep};
use hackbot::model::{parse_and_store_model, parse_model_header, read_u16_le, read_u32_le, ModelError};
use hackbot::tokenizer::{encode_bpe, find_token_by_bytes, get_token_score};

fn put_u32(b: &mut Vec<u8>, v: u32) {
    b.extend_from_slice(&v.to_le_bytes());
}

fn put_i32(b: &mut Vec<u8>, v: i32) {
    b.extend_from_slice(&v.to_le_bytes());
}

/// Header of a model with two-wide activations, one layer, one head of
/// size two, and `vocab` tokens.
fn header(version: u32, vocab: u32, group_size: u32) -> Vec<u8> {
    let mut b = Vec::new();
    for v in [0x484B4254u32, version, 2, 2, 1, 1, 1, vocab, 256, group_size, 2, 2, 10000, 0] {
        put_u32(&mut b, v);
    }
    assert_eq!(b.len(), 56);
    b
}

/// The tokenizer section: tokens `x`, `y`, `z`, `a` (ids 0 to 3).
fn tokens(b: &mut Vec<u8>, vocab: u32) {
    put_u32(b, vocab);
    put_u32(b, 1);
    for (i, t) in [b'x', b'y', b'z', b'a'].iter().enumerate().take(vocab as usize) {
        put_i32(b, i as i32 * 10);
        b.extend_from_slice(&1u16.to_le_bytes());
        b.push(*t);
    }
}

/// A 2x2 INT8 matrix (one group of two per row) of weights `w` and scale 1.0.
fn matrix(b: &mut Vec<u8>, w: i8) {
    for _ in 0..4 {
        b.push(w as u8);
    }
    put_i32(b, 65536);
    put_i32(b, 65536);
}

/// An INT8 model whose embedding sends token 3 to (1.0, 1.0) and every
/// other token to zero, so that it always predicts token 3 after token 3.
/// With `attend`, the attention norm and the query, key and value
/// matrices are ones, so that the pass fills the KV cache.
fn tiny_model(attend: bool) -> Vec<u8> {
    let mut b = header(1, 4, 2);
    tokens(&mut b, 4);
    for row in [0i8, 0, 0, 1] {
        b.push(row as u8);
        b.push(row as u8);
    }
    for _ in 0..4 {
        put_i32(&mut b, 65536);
    }
    let norm = if attend { 65536 } else { 0 };
    put_i32(&mut b, norm);
    put_i32(&mut b, norm);
    let w = if attend { 1 } else { 0 };
    matrix(&mut b, w);
    matrix(&mut b, w);
    matrix(&mut b, w);
    matrix(&mut b, 0);
    put_i32(&mut b, 0);
    put_i32(&mut b, 0);
    matrix(&mut b, 0);
    matrix(&mut b, 0);
    matrix(&mut b, 0);
    put_i32(&mut b, 65536);
    put_i32(&mut b, 65536);
    assert_eq!(b.len(), 224);
    b
}

fn loaded(attend: bool) -> ModelSlot {
    match load_model(tiny_model(attend)) {
        Ok(s) => s,
        Err(e) => panic!("the tiny model loads: {:?}", e),
    }
}

#[test]
fn little_endian_fields() {
    let b = [1u8, 2, 3, 4, 5];
    assert_eq!(read_u32_le(&b, 0), Ok(0x04030201));
    assert_eq!(read_u32_le(&b, 2), Err(ModelError::Invalid));
    assert_eq!(read_u16_le(&b, 3), Ok(0x0504));
    assert_eq!(read_u16_le(&b, 4), Err(ModelError::Invalid));
}

#[test]
fn model_headers() {
    let c = parse_model_header(&tiny_model(false)).unwrap();
    assert_eq!((c.dim, c.hidden_dim, c.n_layers, c.vocab_size, c.group_size), (2, 2, 1, 4, 2));
    assert_eq!(parse_model_header(&[0u8; 10]), Err(ModelError::Invalid));
    let mut bad_magic = tiny_model(false);
    bad_magic[0] = 0;
    assert_eq!(parse_model_header(&bad_magic), Err(ModelError::Invalid));
    let mut bad_version = tiny_model(false);
    bad_version[4] = 3;
    assert_eq!(parse_model_header(&bad_version), Err(ModelError::Invalid));
    let mut odd_groups = tiny_model(false);
    odd_groups[36] = 3;
    assert_eq!(parse_model_header(&odd_groups), Err(ModelError::Invalid));
}

#[test]
fn model_layout() {
    let blob = tiny_model(false);
    let m = parse_and_store_model(&blob).unwrap();
    assert_eq!(m.tok_offsets, vec![64, 71, 78, 85]);
    assert_eq!(m.weights_off, 92);
    assert_eq!(m.embed.data_off, 92);
    assert_eq!(m.embed.scale_off, 100);
    assert_eq!(m.layers.len(), 1);
    assert_eq!(m.layers[0].rms_att_off, 116);
    assert_eq!(m.layers[0].wq.data_off, 124);
    assert_eq!(m.layers[0].down.data_off, 204);
    assert_eq!(m.rms_final_off, 216);
    let short = &blob[..blob.len() - 1];
    assert_eq!(parse_and_store_model(short).err(), Some(ModelError::Invalid));
}

#[test]
fn loading_refuses_what_it_cannot_run() {
    assert_eq!(load_model(vec![0u8; 40]).err(), Some(ModelError::Invalid));

    // An FP16 model loads (its passes belong to a floating-point engine),
    // but not for the INT8 pass.
    let mut v2 = header(2, 4, 0);
    tokens(&mut v2, 4);
    v2.extend_from_slice(&[0u8; 96]);
    assert!(parse_and_store_model(&v2).is_ok());
    let s = load_model(v2).ok().unwrap();
    assert_eq!(s.layout.config.group_size, 0);
    assert!(!can_run(&s));

    // An FP16 model too wide for the engine's i32 widths is refused.
    // (No layers, so its weights are only the embedding and final norm.)
    let mut wide = header(2, 4, 0);
    wide[16..20].copy_from_slice(&0u32.to_le_bytes());
    wide[20..24].copy_from_slice(&0x8000_0000u32.to_le_bytes());
    tokens(&mut wide, 4);
    wide.extend_from_slice(&[0u8; 24]);
    assert!(parse_and_store_model(&wide).is_ok());
    assert_eq!(load_model(wide).err(), Some(ModelError::Invalid));

    // An INT8 model without tokens loads, but the pass cannot run it.
    let mut empty = header(1, 0, 2);
    tokens(&mut empty, 0);
    empty.extend_from_slice(&[0u8; 108]);
    assert!(parse_and_store_model(&empty).is_ok());
    let s = load_model(empty).ok().unwrap();
    assert!(!can_run(&s));
    assert!(can_run(&loaded(false)));
}

#[test]
fn oversized_weights_are_invalid() {
    // dim = hidden_dim = 2^31, n_heads * head_dim = 2^62: the claimed
    // weights cannot be in the blob.
    let mut b = Vec::new();
    for v in [0x484B4254u32, 1, 1 << 31, 1 << 31, 1, 1 << 31, 1 << 31, 4, 256, 2, 1 << 31, 2, 10000, 0] {
        put_u32(&mut b, v);
    }
    tokens(&mut b, 4);
    b.extend_from_slice(&[0u8; 64]);
    assert!(parse_model_header(&b).is_ok());
    assert_eq!(parse_and_store_model(&b).err(), Some(ModelError::Invalid));
    assert_eq!(load_model(b).err(), Some(ModelError::Invalid));
    let mut huge_heads = header(1, 4, 2);
    huge_heads[20..24].copy_from_slice(&u32::MAX.to_le_bytes());
    huge_heads[40..44].copy_from_slice(&u32::MAX.to_le_bytes());
    tokens(&mut huge_heads, 4);
    huge_heads.extend_from_slice(&[0u8; 200]);
    assert_eq!(parse_and_store_model(&huge_heads).err(), Some(ModelError::Invalid));
}

#[test]
fn local_agent_needs_a_model() {
    assert_eq!(start_local(None, b"hi").err(), Some(19));
    let s = loaded(false);
    let agent = start_local(Some(&s), b"hi").ok().unwrap();
    assert_eq!(agent.iteration, 0);
    assert!(agent.n_tokens > 0);
    assert!(!agent.got_final_answer);
}

#[test]
fn token_records() {
    let s = loaded(false);
    assert_eq!(get_token_score(&s.data, &s.layout.tok_offsets, 2), 20);
    assert_eq!(s.tokenizer.sorted, vec![3, 0, 1, 2]);
    assert_eq!(s.tokenizer.byte_to_token[b'a' as usize], 3);
    assert_eq!(s.tokenizer.byte_to_token[b'q' as usize], 0);
    assert_eq!(find_token_by_bytes(&s.data, &s.layout.tok_offsets, &s.tokenizer.sorted, b"z"), Some(2));
    assert_eq!(find_token_by_bytes(&s.data, &s.layout.tok_offsets, &s.tokenizer.sorted, b"w"), None);
}

#[test]
fn every_token_is_found_by_its_text() {
    let s = loaded(false);
    for (id, t) in [b"x", b"y", b"z", b"a"].iter().enumerate() {
        assert_eq!(
            find_token_by_bytes(&s.data, &s.layout.tok_offsets, &s.tokenizer.sorted, &t[..]),
            Some(id as u32)
        );
    }
}

#[test]
fn encoding_text() {
    let s = loaded(false);
    let mut out = [9u32; 4];
    let n = encode_bpe(&s.data, &s.layout.tok_offsets, &s.tokenizer, b"axa", &mut out);
    assert_eq!(n, 3);
    assert_eq!(&out[..3], &[3, 0, 3]);
    let mut small = [9u32; 2];
    let n = encode_bpe(&s.data, &s.layout.tok_offsets, &s.tokenizer, b"aaaa", &mut small);
    assert_eq!(n, 2);
    assert_eq!(small, [3, 3]);
}

#[test]
fn merging_keeps_the_text() {
    // Tokens `x`, `y`, `aa`, `a`: two `a`s merge into one token.
    let mut b = header(1, 4, 2);
    put_u32(&mut b, 4);
    put_u32(&mut b, 2);
    for (i, t) in [&b"x"[..], b"y", b"aa", b"a"].iter().enumerate() {
        put_i32(&mut b, i as i32 * 10);
        b.extend_from_slice(&(t.len() as u16).to_le_bytes());
        b.extend_from_slice(t);
    }
    b.extend_from_slice(&[0u8; 132]);
    let s = load_model(b).unwrap();
    let mut out = [9u32; 8];
    let n = encode_bpe(&s.data, &s.layout.tok_offsets, &s.tokenizer, b"aaa", &mut out);
    assert_eq!(&out[..n], &[2, 3]);
    let n = encode_bpe(&s.data, &s.layout.tok_offsets, &s.tokenizer, b"aaaa", &mut out);
    assert_eq!(&out[..n], &[2, 2]);
    let n = encode_bpe(&s.data, &s.layout.tok_offsets, &s.tokenizer, b"xaay", &mut out);
    assert_eq!(&out[..n], &[0, 2, 1]);
}

#[test]
fn greedy_choice_is_the_first_largest_logit() {
    assert_eq!(get_next_token(&vec![1, 5, 3, 5]), 1);
    assert_eq!(get_next_token(&vec![-7]), 0);
    assert_eq!(get_next_token(&vec![]), 0);
    assert_eq!(get_next_token(&vec![-3, -1, -2]), 1);
}

#[test]
fn generating_from_tokens() {
    let mut s = loaded(false);
    let mut out = [b'#'; 8];
    let n = generate_from_tokens(&mut s, &[3], 1, &mut out, 4);
    assert_eq!(n, 4);
    assert_eq!(&out, b"aaaa####");

    let mut nothing = [b'#'; 4];
    assert_eq!(generate_from_tokens(&mut s, &[3], 0, &mut nothing, 4), 0);
    assert_eq!(&nothing, b"####");

    let mut two = [b'#'; 2];
    assert_eq!(generate_from_tokens(&mut s, &[3], 1, &mut two, 10), 2);
    assert_eq!(&two, b"aa");
}

#[test]
fn generation_stops_at_end_of_text() {
    // After token 0 every logit is zero: the model predicts end-of-text.
    let mut s = loaded(false);
    let mut out = [b'#'; 4];
    assert_eq!(generate_from_tokens(&mut s, &[0], 1, &mut out, 4), 0);
    assert_eq!(&out, b"####");
}

#[test]
fn generating_from_a_prompt() {
    let mut s = loaded(false);
    let mut out = [b'#'; 6];
    let n = generate(&mut s, b"a", &mut out, 3);
    assert_eq!(n, 3);
    assert_eq!(&out, b"aaa###");
    // No room left for the prompt in the cache.
    let mut none = [b'#'; 3];
    assert_eq!(generate(&mut s, b"a", &mut none, 256), 0);
    assert_eq!(&none, b"###");
}

#[test]
fn a_pass_writes_the_cache_only_at_its_position() {
    let mut s = loaded(true);
    let kv_values = 512;
    forward_token(&mut s.state, &s.data, &s.layout, 3, 0);
    assert_eq!(&s.state.kv[0..2], &[131072, 131072]);
    assert_eq!(&s.state.kv[kv_values..kv_values + 2], &[131072, 131072]);
    assert_eq!(get_next_token(&s.state.logits), 3);
    let before = s.state.kv.clone();
    forward_token(&mut s.state, &s.data, &s.layout, 3, 1);
    for i in 0..before.len() {
        let position = (i % 512) / 2;
        if position != 1 {
            assert_eq!(s.state.kv[i], before[i], "entry {} of another position", i);
        }
    }
    assert_ne!(&s.state.kv[2..4], &[0, 0]);
    assert_ne!(&s.state.kv[kv_values + 2..kv_values + 4], &[0, 0]);
}

#[test]
fn chat_turn_tokens() {
    let s = loaded(false);
    let mut t = [7u32; 5];
    let p = append_chat_tokens(&s, &mut t, 0, b"a", b"a");
    assert_eq!(p, 5);
    assert_eq!(t, [1, 3, 0, 3, 2]);
    let mut u = [7u32; 8];
    let p = begin_assistant_turn(&s, &mut u, 2);
    assert_eq!(p, 2 + 1 + 9 + 1 - 5);
    assert_eq!(u, [7, 7, 1, 3, 0, 0, 0, 0]);
}

#[test]
fn local_agent_with_nothing_to_say() {
    let mut s = loaded(false);
    let mut agent = LocalAgent::new(&s, b"hi");
    assert!(agent.n_tokens > 0);
    match agent.step(&mut s) {
        LocalStep::Done(a) => assert_eq!(a, b"[hackbot] Local inference produced no output.\n".to_vec()),
        LocalStep::RunTool(_) => panic!("the model calls no tool"),
    }
}

#[test]
fn local_agent_tool_results() {
    let s = loaded(false);
    let mut agent = LocalAgent::new(&s, b"hi");
    let opening = agent.n_tokens;
    agent.final_answer = b"Checking. ".to_vec();
    agent.pending = Some((b"ps".to_vec(), b"Checking. ".to_vec()));
    assert_eq!(agent.on_tool_output(&s, b"PID 1"), None);
    assert_eq!(agent.iteration, 1);
    assert!(agent.n_tokens > opening);
    assert!(agent.pending.is_none());

    agent.iteration = 2;
    agent.pending = Some((b"ps".to_vec(), b"".to_vec()));
    assert_eq!(agent.on_tool_output(&s, b"PID 1"), Some(b"Checking. \n\nPID 1".to_vec()));
    assert!(agent.got_final_answer);
}
