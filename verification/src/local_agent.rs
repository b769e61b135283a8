//! The local agent: a ChatML conversation held as tokens, run on the
//! in-kernel model, calling tools until it gives a final answer.
//!
//! The agent is a state machine. Its driver asks it for a step; the step is
//! either a tool to run (the driver runs it and hands back the output) or
//! the final answer.

use vstd::prelude::*;

use crate::forward::INFERENCE_MAX_SEQ;
use crate::generate::{generate_from_tokens, generation_ok, generation_output, slot_ok, ModelSlot};
use crate::net::{append_bytes, append_str, lit};
use crate::tokenizer::{bpe_encoded, encode_bpe, TOKEN_IM_END, TOKEN_IM_START};
use crate::tools::{parse_tool_call, tool_call_of, ToolCallResult};
use crate::vllm::{assistant_turn, ENODEV};

verus! {

/// The system prompt of the local agent.
pub const LOCAL_SYSTEM_PROMPT: &'static str = "You are hackbot, a kernel agent. Use <tool>NAME</tool> for live data. Tools: ps, mem, loadavg, dmesg, files, kprobe.";

/// Rounds of generation the local agent may take.
pub const LOCAL_MAX_ITERATIONS: usize = 3;

/// Bytes of a tool's output the local agent shows the model.
pub const LOCAL_MAX_TOOL_OUTPUT: usize = 512;

/// New tokens one round may generate.
pub const MAX_GEN_TOKENS: usize = 128;

/// Bytes of one round's response.
pub const LOCAL_RESPONSE_MAX: usize = 2048;

/// The newline token of the model in `s`.
pub open spec fn newline_token(s: ModelSlot) -> u32 {
    s.tokenizer.byte_to_token@[10]
}

/// The tokens `w` with `t` after them, if a buffer of `max` has room.
pub open spec fn push_bounded(w: Seq<u32>, max: int, t: u32) -> Seq<u32> {
    if w.len() < max {
        w.push(t)
    } else {
        w
    }
}

/// The tokens `w` with the encoding of `text` after them, as much of it as
/// a buffer of `max` has room for.
pub open spec fn encode_bounded(s: ModelSlot, w: Seq<u32>, max: int, text: Seq<u8>) -> Seq<u32> {
    if w.len() < max {
        w + bpe_encoded(s.data@, s.layout.tok_offsets@, s.tokenizer, text, max - w.len())
    } else {
        w
    }
}

/// The tokens `w` with the ChatML turn of `role` saying `content` after
/// them: `<|im_start|>role\ncontent<|im_end|>\n`, cut at `max` tokens.
pub open spec fn chat_turn(s: ModelSlot, w: Seq<u32>, max: int, role: Seq<u8>, content: Seq<u8>) -> Seq<u32> {
    let nl = newline_token(s);
    let a = push_bounded(w, max, TOKEN_IM_START);
    let b = encode_bounded(s, a, max, role);
    let c = push_bounded(b, max, nl);
    let d = encode_bounded(s, c, max, content);
    let e = push_bounded(d, max, TOKEN_IM_END);
    push_bounded(e, max, nl)
}

/// The tokens `w` with the opening of the assistant's turn after them.
pub open spec fn assistant_opening(s: ModelSlot, w: Seq<u32>, max: int) -> Seq<u32> {
    let a = push_bounded(w, max, TOKEN_IM_START);
    let b = encode_bounded(s, a, max, lit("assistant"));
    push_bounded(b, max, newline_token(s))
}

fn put_token(tokens: &mut [u32], p: usize, t: u32) -> (q: usize)
    requires
        p <= old(tokens)@.len(),
    ensures
        final(tokens)@.len() == old(tokens)@.len(),
        q <= final(tokens)@.len(),
        final(tokens)@.take(q as int) == push_bounded(old(tokens)@.take(p as int), old(tokens)@.len() as int, t),
{
    let ghost before = tokens@;
    if p < tokens.len() {
        tokens[p] = t;
        assert(tokens@.take(p + 1) =~= before.take(p as int).push(t));
        p + 1
    } else {
        p
    }
}

fn put_encoded(slot: &ModelSlot, tokens: &mut [u32], p: usize, text: &[u8]) -> (q: usize)
    requires
        slot_ok(*slot),
        p <= old(tokens)@.len(),
    ensures
        final(tokens)@.len() == old(tokens)@.len(),
        q <= final(tokens)@.len(),
        final(tokens)@.take(q as int) == encode_bounded(*slot, old(tokens)@.take(p as int), old(tokens)@.len() as int, text@),
{
    let ghost before = tokens@;
    let max = tokens.len();
    if p >= max {
        return p;
    }
    let room = max - p;
    let mut tmp: Vec<u32> = vec![0u32; room];
    let n = encode_bpe(
        slot.data.as_slice(),
        slot.layout.tok_offsets.as_slice(),
        &slot.tokenizer,
        text,
        tmp.as_mut_slice(),
    );
    let mut k: usize = 0;
    while k < n
        invariant
            k <= n,
            n <= tmp@.len(),
            p + tmp@.len() == max,
            max == before.len(),
            tokens@.len() == max,
            forall|j: int| 0 <= j < p ==> tokens@[j] == before[j],
            forall|j: int| 0 <= j < k ==> tokens@[p + j] == tmp@[j],
        decreases n - k,
    {
        tokens[p + k] = tmp[k];
        k = k + 1;
    }
    assert(tokens@.take((p + n) as int) =~= before.take(p as int) + tmp@.take(n as int));
    p + n
}

/// Append the ChatML turn of `role` saying `content` to the tokens at `pos`
/// (as much of it as `tokens` has room for); returns the new length.
pub fn append_chat_tokens(slot: &ModelSlot, tokens: &mut [u32], pos: usize, role: &[u8], content: &[u8]) -> (p: usize)
    requires
        slot_ok(*slot),
        pos <= old(tokens)@.len(),
    ensures
        final(tokens)@.len() == old(tokens)@.len(),
        p <= final(tokens)@.len(),
        final(tokens)@.take(p as int) == chat_turn(*slot, old(tokens)@.take(pos as int), old(tokens)@.len() as int, role@, content@),
{
    let nl = slot.tokenizer.byte_to_token[10];
    let p = put_token(tokens, pos, TOKEN_IM_START);
    let p = put_encoded(slot, tokens, p, role);
    let p = put_token(tokens, p, nl);
    let p = put_encoded(slot, tokens, p, content);
    let p = put_token(tokens, p, TOKEN_IM_END);
    put_token(tokens, p, nl)
}

/// Append the opening of the assistant's turn to the tokens at `pos`;
/// returns the new length.
pub fn begin_assistant_turn(slot: &ModelSlot, tokens: &mut [u32], pos: usize) -> (p: usize)
    requires
        slot_ok(*slot),
        pos <= old(tokens)@.len(),
    ensures
        final(tokens)@.len() == old(tokens)@.len(),
        p <= final(tokens)@.len(),
        final(tokens)@.take(p as int) == assistant_opening(*slot, old(tokens)@.take(pos as int), old(tokens)@.len() as int),
{
    let nl = slot.tokenizer.byte_to_token[10];
    let p = put_token(tokens, pos, TOKEN_IM_START);
    let p = put_encoded(slot, tokens, p, "assistant".as_bytes());
    put_token(tokens, p, nl)
}

// ---------------------------------------------------------------------------
// The agent
// ---------------------------------------------------------------------------

/// The conversation the local agent starts from: its system prompt, the
/// user's prompt, and the opening of the assistant's turn.
pub open spec fn opening_tokens(s: ModelSlot, prompt: Seq<u8>) -> Seq<u32> {
    let max = INFERENCE_MAX_SEQ as int;
    let a = chat_turn(s, seq![], max, lit("system"), lit(LOCAL_SYSTEM_PROMPT));
    let b = chat_turn(s, a, max, lit("user"), prompt);
    assistant_opening(s, b, max)
}

/// The conversation after a tool call: system prompt, user prompt, the
/// assistant's call `asst`, the tool's result `tool`, and the opening of the
/// assistant's next turn.
pub open spec fn rebuilt_tokens(s: ModelSlot, prompt: Seq<u8>, asst: Seq<u8>, tool: Seq<u8>) -> Seq<u32> {
    let max = INFERENCE_MAX_SEQ as int;
    let a = chat_turn(s, seq![], max, lit("system"), lit(LOCAL_SYSTEM_PROMPT));
    let b = chat_turn(s, a, max, lit("user"), prompt);
    let c = chat_turn(s, b, max, lit("assistant"), asst);
    let d = chat_turn(s, c, max, lit("user"), tool);
    assistant_opening(s, d, max)
}

/// The user turn that hands a tool's output (its first
/// `LOCAL_MAX_TOOL_OUTPUT` bytes) back to the model.
pub open spec fn local_tool_turn(name: Seq<u8>, output: Seq<u8>) -> Seq<u8> {
    let shown = if output.len() > LOCAL_MAX_TOOL_OUTPUT { output.take(LOCAL_MAX_TOOL_OUTPUT as int) } else { output };
    lit("[Tool: ") + name + lit("]\n") + shown + lit("\n[End Tool]")
}

/// The answer when the loop ends: what was gathered, or a note that
/// nothing came out.
pub open spec fn local_answer(answer: Seq<u8>, got_final_answer: bool) -> Seq<u8> {
    if !got_final_answer && answer.len() == 0 {
        lit("[hackbot] Local inference produced no output.\n")
    } else {
        answer
    }
}

/// New tokens a round from a conversation of `n` tokens may generate.
pub open spec fn round_tokens(n: int) -> int {
    let budget = INFERENCE_MAX_SEQ - n;
    if budget < MAX_GEN_TOKENS { budget } else { MAX_GEN_TOKENS as int }
}

/// The response of a round on the conversation `toks[..n]`.
pub open spec fn local_response(s: ModelSlot, toks: Seq<u32>, n: int) -> Seq<u8> {
    generation_output(s.data@, s.layout, toks, n, LOCAL_RESPONSE_MAX as int, round_tokens(n))
}

/// Whether that round stays in range.
pub open spec fn local_round_ok(s: ModelSlot, toks: Seq<u32>, n: int) -> bool {
    generation_ok(s.data@, s.layout, toks, n, LOCAL_RESPONSE_MAX as int, round_tokens(n))
}

/// What the local agent asks of its driver next.
pub enum LocalStep {
    /// Run this tool invocation and hand back its output.
    RunTool(Vec<u8>),
    /// The agent is done; its answer.
    Done(Vec<u8>),
}

/// Start the local agent on `prompt` with the model in `slot`: `ENODEV`
/// when no model is loaded (nothing else happens then), else the agent as
/// `LocalAgent::new` starts it.
pub fn start_local(slot: Option<&ModelSlot>, prompt: &[u8]) -> (r: Result<LocalAgent, u32>)
    requires
        slot matches Some(s) ==> slot_ok(*s),
    ensures
        slot is None <==> r == Err::<LocalAgent, u32>(ENODEV),
        slot is None <==> r is Err,
        slot matches Some(s) ==> (r matches Ok(a) && a.wf() && a.conversation() == opening_tokens(*s, prompt@)
            && a.prompt@ == prompt@ && a.iteration == 0 && a.final_answer@.len() == 0 && !a.got_final_answer
            && a.pending is None),
{
    match slot {
        None => Err(ENODEV),
        Some(s) => Ok(LocalAgent::new(s, prompt)),
    }
}

/// The local agent's state between steps.
pub struct LocalAgent {
    pub prompt: Vec<u8>,
    /// The conversation; its first `n_tokens` are in use.
    pub tokens: Vec<u32>,
    pub n_tokens: usize,
    /// The current round (from 0).
    pub iteration: usize,
    pub final_answer: Vec<u8>,
    pub got_final_answer: bool,
    /// The tool call awaiting its output: the invocation and the text the
    /// model wrote before it.
    pub pending: Option<(Vec<u8>, Vec<u8>)>,
}

impl LocalAgent {
    /// Whether the conversation buffer has the cache's length and its
    /// length in use fits it.
    pub open spec fn wf(&self) -> bool {
        &&& self.tokens@.len() == INFERENCE_MAX_SEQ
        &&& self.n_tokens <= INFERENCE_MAX_SEQ
    }

    /// The conversation in use.
    pub open spec fn conversation(&self) -> Seq<u32> {
        self.tokens@.take(self.n_tokens as int)
    }

    /// Start a conversation about `prompt`.
    pub fn new(slot: &ModelSlot, prompt: &[u8]) -> (a: LocalAgent)
        requires
            slot_ok(*slot),
        ensures
            a.wf(),
            a.conversation() == opening_tokens(*slot, prompt@),
            a.prompt@ == prompt@,
            a.iteration == 0,
            a.final_answer@.len() == 0,
            !a.got_final_answer,
            a.pending is None,
    {
        let mut tokens: Vec<u32> = vec![0u32; INFERENCE_MAX_SEQ];
        let n = Self::opening(slot, tokens.as_mut_slice(), prompt);
        let mut p: Vec<u8> = Vec::new();
        append_bytes(&mut p, prompt);
        LocalAgent {
            prompt: p,
            tokens,
            n_tokens: n,
            iteration: 0,
            final_answer: Vec::new(),
            got_final_answer: false,
            pending: None,
        }
    }

    fn opening(slot: &ModelSlot, tokens: &mut [u32], prompt: &[u8]) -> (n: usize)
        requires
            slot_ok(*slot),
            old(tokens)@.len() == INFERENCE_MAX_SEQ,
        ensures
            final(tokens)@.len() == INFERENCE_MAX_SEQ,
            n <= INFERENCE_MAX_SEQ,
            final(tokens)@.take(n as int) == opening_tokens(*slot, prompt@),
    {
        assert(tokens@.take(0) =~= Seq::<u32>::empty());
        let n = append_chat_tokens(slot, tokens, 0, "system".as_bytes(), LOCAL_SYSTEM_PROMPT.as_bytes());
        let n = append_chat_tokens(slot, tokens, n, "user".as_bytes(), prompt);
        begin_assistant_turn(slot, tokens, n)
    }

    /// Run the next round: generate from the conversation, and either stop
    /// (no round or room left, nothing generated, or a final answer) or ask
    /// for the tool the response calls.
    pub fn step(&mut self, slot: &mut ModelSlot) -> (s: LocalStep)
        requires
            slot_ok(*old(slot)),
            old(self).wf(),
            old(self).iteration < LOCAL_MAX_ITERATIONS && INFERENCE_MAX_SEQ - old(self).n_tokens >= 4
                ==> local_round_ok(*old(slot), old(self).tokens@, old(self).n_tokens as int),
        ensures
            slot_ok(*final(slot)),
            final(slot).data == old(slot).data,
            final(slot).layout == old(slot).layout,
            final(slot).tokenizer == old(slot).tokenizer,
            final(self).wf(),
            final(self).prompt == old(self).prompt,
            final(self).tokens == old(self).tokens,
            final(self).n_tokens == old(self).n_tokens,
            final(self).iteration == old(self).iteration,
            ({
                let resp = local_response(*old(slot), old(self).tokens@, old(self).n_tokens as int);
                if old(self).iteration >= LOCAL_MAX_ITERATIONS || INFERENCE_MAX_SEQ - old(self).n_tokens < 4
                    || resp.len() == 0 {
                    &&& s matches LocalStep::Done(a) && a@ == local_answer(old(self).final_answer@, old(self).got_final_answer)
                    &&& final(self).final_answer == old(self).final_answer
                    &&& final(self).got_final_answer == old(self).got_final_answer
                    &&& final(self).pending == old(self).pending
                } else {
                    match tool_call_of(resp) {
                        None => {
                            &&& s matches LocalStep::Done(a) && a@ == old(self).final_answer@ + resp
                            &&& final(self).final_answer@ == old(self).final_answer@ + resp
                            &&& final(self).got_final_answer
                            &&& final(self).pending == old(self).pending
                        },
                        Some(call) => {
                            &&& s matches LocalStep::RunTool(n) && n@ == call.0
                            &&& final(self).final_answer@ == old(self).final_answer@ + call.1
                            &&& final(self).got_final_answer == old(self).got_final_answer
                            &&& final(self).pending matches Some(p) && p.0@ == call.0 && p.1@ == call.1
                        },
                    }
                }
            }),
    {
        if self.iteration >= LOCAL_MAX_ITERATIONS || INFERENCE_MAX_SEQ - self.n_tokens < 4 {
            return LocalStep::Done(self.answer());
        }
        let budget = INFERENCE_MAX_SEQ - self.n_tokens;
        let gen_tokens = if budget < MAX_GEN_TOKENS { budget } else { MAX_GEN_TOKENS };
        let mut response_buf: Vec<u8> = vec![0u8; LOCAL_RESPONSE_MAX];
        let resp_len = generate_from_tokens(
            slot,
            self.tokens.as_slice(),
            self.n_tokens,
            response_buf.as_mut_slice(),
            gen_tokens,
        );
        let ghost resp = local_response(*old(slot), old(self).tokens@, old(self).n_tokens as int);
        if resp_len == 0 {
            return LocalStep::Done(self.answer());
        }
        let response = slice_prefix(response_buf.as_slice(), resp_len);
        assert(response@ == resp);
        match parse_tool_call(response) {
            ToolCallResult::FinalAnswer(text) => {
                append_bytes(&mut self.final_answer, text);
                self.got_final_answer = true;
                let mut answer: Vec<u8> = Vec::new();
                append_bytes(&mut answer, self.final_answer.as_slice());
                LocalStep::Done(answer)
            },
            ToolCallResult::ToolCall { name, prefix } => {
                append_bytes(&mut self.final_answer, prefix);
                let mut n: Vec<u8> = Vec::new();
                append_bytes(&mut n, name);
                let mut pre: Vec<u8> = Vec::new();
                append_bytes(&mut pre, prefix);
                let mut invocation: Vec<u8> = Vec::new();
                append_bytes(&mut invocation, name);
                self.pending = Some((n, pre));
                LocalStep::RunTool(invocation)
            },
        }
    }

    fn answer(&self) -> (a: Vec<u8>)
        ensures
            a@ == local_answer(self.final_answer@, self.got_final_answer),
    {
        let mut a: Vec<u8> = Vec::new();
        if !self.got_final_answer && self.final_answer.len() == 0 {
            append_str(&mut a, "[hackbot] Local inference produced no output.\n");
        } else {
            append_bytes(&mut a, self.final_answer.as_slice());
        }
        a
    }

    /// Take the output of the pending tool. In the last round it ends the
    /// answer and the agent is done; otherwise the conversation is rebuilt
    /// around the call and its result for the next round.
    pub fn on_tool_output(&mut self, slot: &ModelSlot, output: &[u8]) -> (r: Option<Vec<u8>>)
        requires
            slot_ok(*slot),
            old(self).wf(),
            old(self).pending is Some,
        ensures
            final(self).wf(),
            final(self).prompt == old(self).prompt,
            ({
                let call = old(self).pending->Some_0;
                if old(self).iteration + 1 >= LOCAL_MAX_ITERATIONS {
                    let answer = old(self).final_answer@ + lit("\n\n") + output@;
                    &&& r matches Some(a) && a@ == answer
                    &&& final(self).final_answer@ == answer
                    &&& final(self).got_final_answer
                    &&& final(self).iteration == old(self).iteration
                } else {
                    &&& r is None
                    &&& final(self).conversation() == rebuilt_tokens(
                        *slot,
                        old(self).prompt@,
                        assistant_turn(call.1@, call.0@),
                        local_tool_turn(call.0@, output@),
                    )
                    &&& final(self).iteration == old(self).iteration + 1
                    &&& final(self).final_answer == old(self).final_answer
                    &&& final(self).got_final_answer == old(self).got_final_answer
                    &&& final(self).pending is None
                }
            }),
    {
        let (name, prefix) = match self.pending.take() {
            Some(p) => p,
            None => {
                return None;
            },
        };
        if self.iteration >= LOCAL_MAX_ITERATIONS - 1 {
            append_str(&mut self.final_answer, "\n\n");
            append_bytes(&mut self.final_answer, output);
            self.got_final_answer = true;
            let mut answer: Vec<u8> = Vec::new();
            append_bytes(&mut answer, self.final_answer.as_slice());
            return Some(answer);
        }
        let mut assistant_content: Vec<u8> = Vec::new();
        append_bytes(&mut assistant_content, prefix.as_slice());
        append_str(&mut assistant_content, "<tool>");
        append_bytes(&mut assistant_content, name.as_slice());
        append_str(&mut assistant_content, "</tool>");
        let mut tool_content: Vec<u8> = Vec::new();
        append_str(&mut tool_content, "[Tool: ");
        append_bytes(&mut tool_content, name.as_slice());
        append_str(&mut tool_content, "]\n");
        if output.len() > LOCAL_MAX_TOOL_OUTPUT {
            append_bytes(&mut tool_content, slice_prefix(output, LOCAL_MAX_TOOL_OUTPUT));
        } else {
            append_bytes(&mut tool_content, output);
        }
        append_str(&mut tool_content, "\n[End Tool]");
        let ghost empty = self.tokens@.take(0);
        assert(empty =~= Seq::<u32>::empty());
        let tokens = self.tokens.as_mut_slice();
        let n = append_chat_tokens(slot, tokens, 0, "system".as_bytes(), LOCAL_SYSTEM_PROMPT.as_bytes());
        let n = append_chat_tokens(slot, tokens, n, "user".as_bytes(), self.prompt.as_slice());
        let n = append_chat_tokens(slot, tokens, n, "assistant".as_bytes(), assistant_content.as_slice());
        let n = append_chat_tokens(slot, tokens, n, "user".as_bytes(), tool_content.as_slice());
        let n = begin_assistant_turn(slot, tokens, n);
        self.n_tokens = n;
        self.iteration = self.iteration + 1;
        None
    }
}

/// The first `n` bytes of `s`.
fn slice_prefix(s: &[u8], n: usize) -> (r: &[u8])
    requires
        n <= s@.len(),
    ensures
        r@ == s@.take(n as int),
{
    let r = &s[0..n];
    assert(r@ =~= s@.take(n as int));
    r
}

} // verus!
