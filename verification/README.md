# hackbot

The computational core of hackbot, an in-kernel LLM agent, and of the
trace-replay server behind its visualization, as a Verus library: every
function in `src/` carries a contract that Verus proves.

## Layout

- `src/math.rs`: Q16.16 fixed-point arithmetic (square root, exp, sigmoid,
  SiLU, sine/cosine tables, INT8 matrix-vector product, RMSNorm, softmax,
  RoPE).
- `src/model.rs`: the model blob: header, token records, weight layout.
- `src/forward.rs`: the INT8 transformer forward pass and its KV cache.
- `src/tokenizer.rs`: GPT-2 byte encoding, the sorted vocabulary index
  (heapsort), binary search, BPE encoding.
- `src/generate.rs`: loading a model, greedy choice, prefill and decoding.
- `src/local_agent.rs`, `src/vllm.rs`: the agent loops (local model and vLLM
  server) as state machines, ChatML and JSON conversations, HTTP requests
  and replies.
- `src/tools.rs`, `src/context.rs`, `src/memory.rs`, `src/net.rs`,
  `src/device.rs`: tool invocations and their reports, the live kernel
  context, the agent's ring of findings, byte and JSON helpers, the device's
  response buffer.
- `src/trace_types.rs`, `src/world_model.rs`, `src/replayer.rs`,
  `src/trace_loader.rs`, `src/gateway.rs`: trace events and payload schemas,
  the world model built from events, playback in frame-sized batches,
  ordering and summarizing traces, the gateway's command logic.
- `app/`: the visualization server (HTTP and WebSocket endpoints, trace
  files, playback timing, mock trace generation).
- `tests/`: tests of the library on concrete values, including a tiny INT8
  model built byte by byte.

The kernel module's own I/O (the character device, firmware loading, kernel
sockets to the vLLM server, the patrol thread and the reads of live kernel
state) runs on the in-tree `kernel` crate of Rust-for-Linux, which is not a
crates.io crate; that glue is not part of this repository. The library holds
everything that glue decides and computes, and takes what it reads as plain
values.

Laws that relate several functions are public proof functions, such as
`world_model::lemma_process_concat`, `forward::lemma_forward_keeps_other_positions`,
`tokenizer::lemma_every_token_found` and `tokenizer::lemma_merging_keeps_text`.
