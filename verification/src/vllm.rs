//! Talking to the vLLM inference server: the requests the agent sends, how
//! it reads the replies, how a user's prompt is answered, and the OODA
//! agent loop as a state machine that leaves the network and the tools to
//! its driver.

use vstd::prelude::*;

use crate::memory::{memory_prompt, AgentMemory};
use crate::net::{
    append_bytes, append_ipv4, append_message_to_json, append_str, chat_message, decimal,
    extract_text_from_json, find_http_body, find_json_string_end, find_spec, find_subsequence,
    format_usize, http_body, http_status, ipv4_text, json_escape, json_escaped, json_string_end,
    json_text_field, json_unescape, json_unescaped, lit, parse_http_status, BYTE_LF, BYTE_RBRACKET,
    BYTE_COMMA, BYTE_LBRACKET,
};
use crate::tools::{parse_tool_call, tool_call_of, ToolCallResult};

verus! {

/// The vLLM server's IPv4 address (100.103.180.11), host byte order.
pub const VLLM_ADDR: u32 = 0x6467B40B;

/// The vLLM server's port.
pub const VLLM_PORT: u16 = 8000;

/// The most bytes read from one reply.
pub const MAX_RESPONSE_SIZE: usize = 65536;

/// The completion length asked of vLLM.
pub const VLLM_MAX_TOKENS: usize = 2048;

/// The conversation size above which older tool results are dropped.
pub const VLLM_CONTEXT_BUDGET: usize = 24576;

/// The most rounds of the vLLM agent loop.
pub const MAX_AGENT_ITERATIONS: usize = 8;

/// Who the agent is, at the head of its system prompt.
pub const SYSTEM_IDENTITY: &'static str = "You are hackbot, an autonomous AI agent living inside the Linux kernel (ring 0). You exist as a kernel module with direct access to hardware and kernel data structures.\n\nThink deeply. Reason carefully. Share your insights and analysis freely. You are a thinking agent, not just a tool dispatcher.\n\n";

/// The tools the agent may call, at the end of its system prompt.
pub const TOOL_DESCRIPTION: &'static str = "TOOLS -- to get live kernel data, output <tool>name</tool> in your response:\n\nObservation:     <tool>ps</tool>  <tool>mem</tool>  <tool>loadavg</tool>  <tool>dmesg</tool>  <tool>files PID</tool>\nInstrumentation: <tool>kprobe attach FUNC</tool>  <tool>kprobe check</tool>  <tool>kprobe detach FUNC</tool>\nTrace sensors:   <tool>trace sched</tool>  <tool>trace syscall</tool>  <tool>trace io</tool>  <tool>trace sched raw N</tool>\n\nTrace sensors run continuously. Use them to see scheduler activity, syscall patterns, and I/O latency.\nCombine multiple tools for cross-subsystem analysis. Never fabricate data.\n";

/// `EIO`: the server answered with something unusable.
pub const EIO: u32 = 5;

/// `ENODEV`: no model is loaded and no server is reachable.
pub const ENODEV: u32 = 19;

/// `ETIMEDOUT`.
pub const ETIMEDOUT: u32 = 110;

/// `ECONNREFUSED`.
pub const ECONNREFUSED: u32 = 111;

// ---------------------------------------------------------------------------
// Requests
// ---------------------------------------------------------------------------

/// The JSON body of a chat completion request.
pub open spec fn vllm_body(model_name: Seq<u8>, messages_json: Seq<u8>) -> Seq<u8> {
    lit("{\"model\":\"") + json_escaped(model_name) + lit("\",\"messages\":") + messages_json + lit(
        ",\"max_tokens\":",
    ) + decimal(VLLM_MAX_TOKENS as nat) + lit(
        ",\"temperature\":0.7,\"repetition_penalty\":1.1,\"stop\":[\"</tool>\"]}",
    )
}

/// The HTTP request for vLLM's `/v1/chat/completions`.
pub open spec fn vllm_request(model_name: Seq<u8>, messages_json: Seq<u8>) -> Seq<u8> {
    let body = vllm_body(model_name, messages_json);
    lit("POST /v1/chat/completions HTTP/1.1\r\n") + lit("Host: ") + ipv4_text(VLLM_ADDR) + lit("\r\n")
        + lit("Content-Type: application/json\r\n") + lit("Connection: close\r\n") + lit(
        "Content-Length: ",
    ) + decimal(body.len()) + lit("\r\n") + lit("\r\n") + body
}

/// Build the HTTP POST of a chat completion request.
pub fn build_vllm_request(model_name: &[u8], messages_json: &[u8]) -> (req: Vec<u8>)
    ensures
        req@ == vllm_request(model_name@, messages_json@),
{
    let mut body: Vec<u8> = Vec::new();
    append_str(&mut body, "{\"model\":\"");
    json_escape(model_name, &mut body);
    append_str(&mut body, "\",\"messages\":");
    append_bytes(&mut body, messages_json);
    append_str(&mut body, ",\"max_tokens\":");
    append_bytes(&mut body, format_usize(VLLM_MAX_TOKENS).as_slice());
    append_str(
        &mut body,
        ",\"temperature\":0.7,\"repetition_penalty\":1.1,\"stop\":[\"</tool>\"]}",
    );
    assert(body@ == vllm_body(model_name@, messages_json@));
    let mut req: Vec<u8> = Vec::new();
    append_str(&mut req, "POST /v1/chat/completions HTTP/1.1\r\n");
    append_str(&mut req, "Host: ");
    append_ipv4(&mut req, VLLM_ADDR);
    append_str(&mut req, "\r\n");
    append_str(&mut req, "Content-Type: application/json\r\n");
    append_str(&mut req, "Connection: close\r\n");
    append_str(&mut req, "Content-Length: ");
    append_bytes(&mut req, format_usize(body.len()).as_slice());
    append_str(&mut req, "\r\n");
    append_str(&mut req, "\r\n");
    append_bytes(&mut req, body.as_slice());
    req
}

/// The HTTP request for the server's model list.
pub open spec fn models_request() -> Seq<u8> {
    lit("GET /v1/models HTTP/1.1\r\n") + lit("Host: ") + ipv4_text(VLLM_ADDR) + lit(
        "\r\nConnection: close\r\n\r\n",
    )
}

/// Build the HTTP GET of the server's model list.
pub fn build_models_request() -> (req: Vec<u8>)
    ensures
        req@ == models_request(),
{
    let mut req: Vec<u8> = Vec::new();
    append_str(&mut req, "GET /v1/models HTTP/1.1\r\n");
    append_str(&mut req, "Host: ");
    append_ipv4(&mut req, VLLM_ADDR);
    append_str(&mut req, "\r\nConnection: close\r\n\r\n");
    req
}

// ---------------------------------------------------------------------------
// Replies
// ---------------------------------------------------------------------------

/// What a chat completion reply gives the agent: the unescaped completion
/// text of a 200 reply, the raw body when no text field is found, the
/// status and body of an error reply, and `EIO` when there is no status.
pub open spec fn vllm_reply(raw: Seq<u8>) -> Result<Seq<u8>, u32> {
    let status = http_status(raw);
    let body = http_body(raw);
    if status != 200 {
        if status == 0 {
            Err(EIO)
        } else {
            Ok(lit("[HTTP ") + decimal(status as nat) + lit("] ") + body)
        }
    } else {
        match json_text_field(body) {
            Some(escaped) => Ok(json_unescaped(escaped)),
            None => Ok(lit("[hackbot] Raw response: ") + body),
        }
    }
}

/// Read a chat completion reply (see `vllm_reply`).
pub fn read_vllm_reply(raw: &[u8]) -> (r: Result<Vec<u8>, u32>)
    ensures
        r is Ok <==> vllm_reply(raw@) is Ok,
        r matches Ok(t) ==> vllm_reply(raw@) == Ok::<Seq<u8>, u32>(t@),
        r matches Err(e) ==> vllm_reply(raw@) == Err::<Seq<u8>, u32>(e),
{
    let status = parse_http_status(raw);
    let body = find_http_body(raw);
    if status != 200 {
        if status == 0 {
            return Err(EIO);
        }
        let mut result: Vec<u8> = Vec::new();
        append_str(&mut result, "[HTTP ");
        append_bytes(&mut result, format_usize(status as usize).as_slice());
        append_str(&mut result, "] ");
        append_bytes(&mut result, body);
        return Ok(result);
    }
    match extract_text_from_json(body) {
        Some(escaped_text) => {
            let mut result: Vec<u8> = Vec::new();
            json_unescape(escaped_text, &mut result);
            Ok(result)
        },
        None => {
            let mut result: Vec<u8> = Vec::new();
            append_str(&mut result, "[hackbot] Raw response: ");
            append_bytes(&mut result, body);
            Ok(result)
        },
    }
}

/// The model name in the server's model list: the first `"id":"` string,
/// unescaped; `EIO` for an error reply or a list without one.
pub open spec fn model_name_reply(raw: Seq<u8>) -> Result<Seq<u8>, u32> {
    let body = http_body(raw);
    if http_status(raw) != 200 {
        Err(EIO)
    } else {
        match find_spec(body, lit("\"id\":\"")) {
            None => Err(EIO),
            Some(pos) => match json_string_end(body, pos + 6) {
                None => Err(EIO),
                Some(end) => Ok(json_unescaped(body.subrange(pos + 6, end))),
            },
        }
    }
}

/// Read the served model's name from the server's model list.
pub fn read_model_name(raw: &[u8]) -> (r: Result<Vec<u8>, u32>)
    ensures
        r is Ok <==> model_name_reply(raw@) is Ok,
        r matches Ok(t) ==> model_name_reply(raw@) == Ok::<Seq<u8>, u32>(t@),
        r matches Err(e) ==> e == EIO,
{
    let status = parse_http_status(raw);
    if status != 200 {
        return Err(EIO);
    }
    let body = find_http_body(raw);
    let pattern = "\"id\":\"".as_bytes();
    proof {
        reveal_strlit("\"id\":\"");
        vstd::string::is_ascii_spec_bytes("\"id\":\"");
        assert(vstd::string::is_ascii("\"id\":\""));
    }
    assert(pattern@ == lit("\"id\":\""));
    assert(pattern@.len() == 6);
    let body_len = body.len();
    let pos = match find_subsequence(body, pattern) {
        Some(p) => p,
        None => return Err(EIO),
    };
    assert(pos + pattern@.len() <= body_len);
    let value_start = pos + pattern.len();
    let value_end = match find_json_string_end(body, value_start) {
        Some(e) => e,
        None => return Err(EIO),
    };
    let mut model_name: Vec<u8> = Vec::new();
    json_unescape(&body[value_start..value_end], &mut model_name);
    Ok(model_name)
}

// ---------------------------------------------------------------------------
// Answering a prompt
// ---------------------------------------------------------------------------

/// A prompt without its one trailing newline.
pub open spec fn trimmed_prompt(prompt: Seq<u8>) -> Seq<u8> {
    if prompt.len() > 0 && prompt.last() == BYTE_LF { prompt.drop_last() } else { prompt }
}

/// The first step of answering a prompt.
pub enum PromptStep<'a> {
    /// Answer at once with this text.
    Reply(Vec<u8>),
    /// Run the agent on this prompt.
    Ask(&'a [u8]),
}

/// Start answering a prompt: an empty one is answered at once, anything
/// else goes to the agent without its trailing newline.
pub fn begin_prompt(prompt: &[u8]) -> (s: PromptStep<'_>)
    ensures
        trimmed_prompt(prompt@).len() == 0 <==> s is Reply,
        s matches PromptStep::Reply(t) ==> t@ == lit("[hackbot] Empty prompt.\n"),
        s matches PromptStep::Ask(p) ==> p@ == trimmed_prompt(prompt@),
{
    let n = prompt.len();
    let trimmed = if n > 0 && prompt[n - 1] == BYTE_LF {
        &prompt[0..n - 1]
    } else {
        prompt
    };
    if trimmed.len() == 0 {
        let mut r: Vec<u8> = Vec::new();
        append_str(&mut r, "[hackbot] Empty prompt.\n");
        return PromptStep::Reply(r);
    }
    PromptStep::Ask(trimmed)
}

/// What the user is told beside an error number.
pub open spec fn errno_hint(code: u32) -> Seq<u8> {
    if code == ENODEV {
        lit("No model loaded and no vLLM available.\n")
    } else if code == ECONNREFUSED {
        lit("Connection refused - is vLLM running on port 8000?\n")
    } else if code == ETIMEDOUT {
        lit("Connection timed out - check network/firewall.\n")
    } else {
        seq![]
    }
}

/// The reply to a prompt from the agent's result: its text ending in a
/// newline, or the error number with a hint.
pub open spec fn prompt_reply(result: Result<Seq<u8>, u32>) -> Seq<u8> {
    match result {
        Ok(text) => if text.len() > 0 && text.last() == BYTE_LF {
            text
        } else {
            text.push(BYTE_LF)
        },
        Err(code) => lit("[hackbot] Inference error: ") + decimal(code as nat) + lit(" (errno)\n")
            + errno_hint(code),
    }
}

/// Finish answering a prompt from the agent's result (an errno on failure).
pub fn finish_prompt(result: Result<Vec<u8>, u32>) -> (r: Vec<u8>)
    ensures
        r@ == prompt_reply(
            match result {
                Ok(t) => Ok::<Seq<u8>, u32>(t@),
                Err(e) => Err::<Seq<u8>, u32>(e),
            },
        ),
{
    match result {
        Ok(text) => {
            let mut text = text;
            let n = text.len();
            if !(n > 0 && text[n - 1] == BYTE_LF) {
                text.push(BYTE_LF);
            }
            text
        },
        Err(code) => {
            let mut r: Vec<u8> = Vec::new();
            append_str(&mut r, "[hackbot] Inference error: ");
            append_bytes(&mut r, format_usize(code as usize).as_slice());
            append_str(&mut r, " (errno)\n");
            if code == ENODEV {
                append_str(&mut r, "No model loaded and no vLLM available.\n");
            } else if code == ECONNREFUSED {
                append_str(&mut r, "Connection refused - is vLLM running on port 8000?\n");
            } else if code == ETIMEDOUT {
                append_str(&mut r, "Connection timed out - check network/firewall.\n");
            }
            r
        },
    }
}

// ---------------------------------------------------------------------------
// The vLLM agent loop
// ---------------------------------------------------------------------------

/// The messages array `m` with one more message (see `append_message_to_json`).
pub open spec fn with_message(m: Seq<u8>, role: Seq<u8>, content: Seq<u8>) -> Seq<u8> {
    (if m.len() > 0 && m.last() == BYTE_RBRACKET {
        m.drop_last().push(BYTE_COMMA)
    } else {
        m.push(BYTE_LBRACKET)
    }) + chat_message(role, content)
}

/// The conversation the agent starts from: its system prompt and the
/// user's prompt.
pub open spec fn opening_messages(system: Seq<u8>, prompt: Seq<u8>) -> Seq<u8> {
    with_message(with_message(seq![], lit("system"), system), lit("user"), prompt)
}

/// The conversation rebuilt to fit the budget: system and user prompt, then
/// the last tool call and its result (noted as truncated) when there was one.
pub open spec fn rebuilt_messages(
    system: Seq<u8>,
    prompt: Seq<u8>,
    has_tool_history: bool,
    last_asst: Seq<u8>,
    last_tool: Seq<u8>,
) -> Seq<u8> {
    let base = opening_messages(system, prompt);
    if has_tool_history {
        with_message(
            with_message(
                base,
                lit("assistant"),
                lit("[Earlier tool calls were truncated to fit context.] ") + last_asst,
            ),
            lit("user"),
            last_tool,
        )
    } else {
        base
    }
}

proof fn lemma_chat_message_closes(role: Seq<u8>, content: Seq<u8>)
    ensures
        chat_message(role, content).len() > 0,
        chat_message(role, content).last() == BYTE_RBRACKET,
{
    reveal_strlit("\"}]");
    vstd::string::is_ascii_spec_bytes("\"}]");
    assert(vstd::string::is_ascii("\"}]"));
    let tail = lit("\"}]");
    assert(tail.len() == 3);
    assert(tail[2] == BYTE_RBRACKET);
    let c = chat_message(role, content);
    assert(c.last() == tail.last());
}

/// A conversation rebuilt to fit the budget is a JSON array of the system
/// prompt, the user's prompt and, after a tool call, the last tool call
/// (noted as the survivor of truncated ones) as an assistant message and
/// its result as a user message, in that order and nothing else: the last
/// tool call and its result are never dropped.
pub proof fn lemma_rebuilt_keeps_last_tool_pair(
    system: Seq<u8>,
    prompt: Seq<u8>,
    has_tool_history: bool,
    last_asst: Seq<u8>,
    last_tool: Seq<u8>,
)
    ensures
        ({
            let sys = chat_message(lit("system"), system);
            let usr = chat_message(lit("user"), prompt);
            let asst = chat_message(
                lit("assistant"),
                lit("[Earlier tool calls were truncated to fit context.] ") + last_asst,
            );
            let tool = chat_message(lit("user"), last_tool);
            let r = rebuilt_messages(system, prompt, has_tool_history, last_asst, last_tool);
            &&& has_tool_history ==> r == seq![BYTE_LBRACKET] + sys.drop_last() + seq![BYTE_COMMA]
                + usr.drop_last() + seq![BYTE_COMMA] + asst.drop_last() + seq![BYTE_COMMA] + tool
            &&& !has_tool_history ==> r == seq![BYTE_LBRACKET] + sys.drop_last() + seq![BYTE_COMMA] + usr
        }),
{
    let sys = chat_message(lit("system"), system);
    let usr = chat_message(lit("user"), prompt);
    let asst = chat_message(lit("assistant"), lit("[Earlier tool calls were truncated to fit context.] ") + last_asst);
    let tool = chat_message(lit("user"), last_tool);
    lemma_chat_message_closes(lit("system"), system);
    lemma_chat_message_closes(lit("user"), prompt);
    lemma_chat_message_closes(lit("assistant"), lit("[Earlier tool calls were truncated to fit context.] ") + last_asst);
    lemma_chat_message_closes(lit("user"), last_tool);
    let m0: Seq<u8> = seq![];
    let m1 = with_message(m0, lit("system"), system);
    assert(m1 == seq![BYTE_LBRACKET] + sys);
    let m2 = with_message(m1, lit("user"), prompt);
    assert(m1.last() == BYTE_RBRACKET);
    assert(m1.drop_last() == seq![BYTE_LBRACKET] + sys.drop_last());
    assert(m2 == seq![BYTE_LBRACKET] + sys.drop_last() + seq![BYTE_COMMA] + usr);
    if has_tool_history {
        let m3 = with_message(m2, lit("assistant"), lit("[Earlier tool calls were truncated to fit context.] ") + last_asst);
        assert(m2.last() == BYTE_RBRACKET);
        assert(m2.drop_last() == seq![BYTE_LBRACKET] + sys.drop_last() + seq![BYTE_COMMA] + usr.drop_last());
        assert(m3 == seq![BYTE_LBRACKET] + sys.drop_last() + seq![BYTE_COMMA] + usr.drop_last() + seq![BYTE_COMMA] + asst);
        assert(m3.last() == BYTE_RBRACKET);
        assert(m3.drop_last() == seq![BYTE_LBRACKET] + sys.drop_last() + seq![BYTE_COMMA] + usr.drop_last()
            + seq![BYTE_COMMA] + asst.drop_last());
    }
}

/// What the assistant said when it called a tool.
pub open spec fn assistant_turn(prefix: Seq<u8>, name: Seq<u8>) -> Seq<u8> {
    prefix + lit("<tool>") + name + lit("</tool>")
}

/// The user turn that hands a tool's output back to the model.
pub open spec fn tool_turn(name: Seq<u8>, output: Seq<u8>) -> Seq<u8> {
    lit("[Tool: ") + name + lit("]\n") + output + lit(
        "[End Tool]\nAbove is live data from the kernel. Analyze it thoughtfully and respond to the user.",
    )
}

/// The answer after the loop: as gathered when a final answer came, else
/// marked as stopped after the last round.
pub open spec fn finished_answer(answer: Seq<u8>, got_final_answer: bool) -> Seq<u8> {
    if got_final_answer {
        answer
    } else if answer.len() == 0 {
        lit("[hackbot] Agent completed maximum iterations without a final answer.\n")
    } else {
        answer + lit("\n[hackbot] Agent stopped after maximum iterations.\n")
    }
}

/// What the agent asks of its driver next.
pub enum AgentStep {
    /// Send this messages array to the server and hand back its reply.
    Call(Vec<u8>),
    /// Run this tool invocation and hand back its output.
    RunTool(Vec<u8>),
    /// The agent is done: its answer (or an errno), and whether the answer
    /// goes into the agent's memory.
    Done { answer: Result<Vec<u8>, u32>, record: bool },
}

/// The invocation of a pending tool call.
pub open spec fn pending_name(p: Option<(Vec<u8>, Vec<u8>)>) -> Seq<u8> {
    match p {
        Some(t) => t.0@,
        None => seq![],
    }
}

/// The text the model wrote before a pending tool call.
pub open spec fn pending_prefix(p: Option<(Vec<u8>, Vec<u8>)>) -> Seq<u8> {
    match p {
        Some(t) => t.1@,
        None => seq![],
    }
}

/// The vLLM agent loop, between its steps.
pub struct VllmAgent {
    pub prompt: Vec<u8>,
    pub system_content: Vec<u8>,
    /// The conversation as a JSON messages array.
    pub messages: Vec<u8>,
    pub final_answer: Vec<u8>,
    pub got_final_answer: bool,
    pub last_asst: Vec<u8>,
    pub last_tool: Vec<u8>,
    pub has_tool_history: bool,
    /// The current round (from 0).
    pub iteration: usize,
    /// The tool call awaiting its output: the invocation and the text the
    /// model wrote before it.
    pub pending_tool: Option<(Vec<u8>, Vec<u8>)>,
}

fn bytes_copy(s: &[u8]) -> (v: Vec<u8>)
    ensures
        v@ == s@,
{
    let mut v: Vec<u8> = Vec::new();
    append_bytes(&mut v, s);
    v
}

/// The system prompt for the vLLM agent: identity, live kernel context,
/// the agent's memory and the tool description.
pub open spec fn system_prompt_text(kernel_ctx: Seq<u8>, memory: Seq<crate::memory::MemoryEntry>) -> Seq<u8> {
    lit(SYSTEM_IDENTITY) + kernel_ctx + memory_prompt(memory) + lit(TOOL_DESCRIPTION)
}

/// Build the vLLM agent's system prompt.
pub fn system_prompt(kernel_ctx: &[u8], memory: &AgentMemory) -> (r: Vec<u8>)
    requires
        memory.wf(),
    ensures
        r@ == system_prompt_text(kernel_ctx@, memory@),
{
    let mut r: Vec<u8> = Vec::new();
    append_str(&mut r, SYSTEM_IDENTITY);
    append_bytes(&mut r, kernel_ctx);
    memory.format_for_prompt(&mut r);
    append_str(&mut r, TOOL_DESCRIPTION);
    r
}

impl VllmAgent {
    /// A fresh agent for `prompt` with the given system prompt.
    pub fn new(prompt: &[u8], system_content: &[u8]) -> (a: VllmAgent)
        ensures
            a.prompt@ == prompt@,
            a.system_content@ == system_content@,
            a.messages@ == opening_messages(system_content@, prompt@),
            a.final_answer@.len() == 0,
            !a.got_final_answer,
            !a.has_tool_history,
            a.iteration == 0,
            a.pending_tool is None,
    {
        let mut messages: Vec<u8> = Vec::new();
        append_message_to_json(&mut messages, "system".as_bytes(), system_content);
        append_message_to_json(&mut messages, "user".as_bytes(), prompt);
        VllmAgent {
            prompt: bytes_copy(prompt),
            system_content: bytes_copy(system_content),
            messages,
            final_answer: Vec::new(),
            got_final_answer: false,
            last_asst: Vec::new(),
            last_tool: Vec::new(),
            has_tool_history: false,
            iteration: 0,
            pending_tool: None,
        }
    }

    /// The conversation to send this round: rebuilt from the system and user
    /// prompts and the last tool call when it has grown over the budget.
    pub fn next_call(&mut self) -> (msgs: Vec<u8>)
        ensures
            final(self).messages@ == (if old(self).messages@.len() > VLLM_CONTEXT_BUDGET {
                rebuilt_messages(
                    old(self).system_content@,
                    old(self).prompt@,
                    old(self).has_tool_history,
                    old(self).last_asst@,
                    old(self).last_tool@,
                )
            } else {
                old(self).messages@
            }),
            msgs@ == final(self).messages@,
            final(self).prompt == old(self).prompt,
            final(self).system_content == old(self).system_content,
            final(self).final_answer == old(self).final_answer,
            final(self).got_final_answer == old(self).got_final_answer,
            final(self).last_asst == old(self).last_asst,
            final(self).last_tool == old(self).last_tool,
            final(self).has_tool_history == old(self).has_tool_history,
            final(self).iteration == old(self).iteration,
            final(self).pending_tool == old(self).pending_tool,
    {
        if self.messages.len() > VLLM_CONTEXT_BUDGET {
            let mut messages: Vec<u8> = Vec::new();
            append_message_to_json(&mut messages, "system".as_bytes(), self.system_content.as_slice());
            append_message_to_json(&mut messages, "user".as_bytes(), self.prompt.as_slice());
            if self.has_tool_history {
                let mut noted_asst: Vec<u8> = Vec::new();
                append_str(&mut noted_asst, "[Earlier tool calls were truncated to fit context.] ");
                append_bytes(&mut noted_asst, self.last_asst.as_slice());
                append_message_to_json(&mut messages, "assistant".as_bytes(), noted_asst.as_slice());
                append_message_to_json(&mut messages, "user".as_bytes(), self.last_tool.as_slice());
            }
            self.messages = messages;
        }
        bytes_copy(self.messages.as_slice())
    }

    fn finish(&self) -> (r: Vec<u8>)
        ensures
            r@ == finished_answer(self.final_answer@, self.got_final_answer),
    {
        let mut r = bytes_copy(self.final_answer.as_slice());
        if !self.got_final_answer && r.len() == 0 {
            append_str(&mut r, "[hackbot] Agent completed maximum iterations without a final answer.\n");
        } else if !self.got_final_answer {
            append_str(&mut r, "\n[hackbot] Agent stopped after maximum iterations.\n");
        }
        r
    }

    /// Take the server's reply (or the errno of a failed call). A reply
    /// without a tool call is the final answer; one with a tool call asks
    /// the driver to run it. A failed call ends the loop: with the answer
    /// gathered so far and an error note if there is one, else with the
    /// error.
    pub fn on_reply(&mut self, reply: Result<Vec<u8>, u32>) -> (step: AgentStep)
        ensures
            match reply {
                Err(e) => if old(self).final_answer@.len() > 0 {
                    step matches AgentStep::Done { answer: Ok(t), record } && t@ == finished_answer(
                        old(self).final_answer@ + lit("\n[hackbot] vLLM error during agent loop.\n"),
                        old(self).got_final_answer,
                    ) && !record
                } else {
                    step matches AgentStep::Done { answer: Err(code), record } && code == e && !record
                },
                Ok(resp) => match tool_call_of(resp@) {
                    None => step matches AgentStep::Done { answer: Ok(t), record } && t@
                        == old(self).final_answer@ + resp@ && record == (t@.len() > 0)
                        && final(self).got_final_answer,
                    Some((name, prefix)) => (step matches AgentStep::RunTool(n) && n@ == name)
                        && final(self).pending_tool is Some && pending_name(final(self).pending_tool) == name
                        && pending_prefix(final(self).pending_tool) == prefix,
                },
            },
            final(self).prompt == old(self).prompt,
            final(self).system_content == old(self).system_content,
            final(self).messages == old(self).messages,
            final(self).iteration == old(self).iteration,
            final(self).has_tool_history == old(self).has_tool_history,
            final(self).last_asst == old(self).last_asst,
            final(self).last_tool == old(self).last_tool,
            reply is Ok && tool_call_of(reply->Ok_0@) is Some ==> final(self).final_answer
                == old(self).final_answer && final(self).got_final_answer
                == old(self).got_final_answer,
    {
        match reply {
            Err(e) => {
                if self.final_answer.len() > 0 {
                    append_str(&mut self.final_answer, "\n[hackbot] vLLM error during agent loop.\n");
                    let t = self.finish();
                    AgentStep::Done { answer: Ok(t), record: false }
                } else {
                    AgentStep::Done { answer: Err(e), record: false }
                }
            },
            Ok(resp) => {
                match parse_tool_call(resp.as_slice()) {
                    ToolCallResult::FinalAnswer(text) => {
                        append_bytes(&mut self.final_answer, text);
                        self.got_final_answer = true;
                        let t = self.finish();
                        let record = t.len() > 0;
                        AgentStep::Done { answer: Ok(t), record }
                    },
                    ToolCallResult::ToolCall { name, prefix } => {
                        let n = bytes_copy(name);
                        self.pending_tool = Some((bytes_copy(name), bytes_copy(prefix)));
                        AgentStep::RunTool(n)
                    },
                }
            },
        }
    }

    /// Take the output of the pending tool call. In the last round it is
    /// the answer (after the text before the call); otherwise the call and
    /// its output join the conversation and the next round begins, unless
    /// that was the last round.
    pub fn on_tool_output(&mut self, output: &[u8]) -> (step: AgentStep)
        requires
            old(self).pending_tool is Some,
            old(self).iteration < MAX_AGENT_ITERATIONS,
        ensures
            ({
                let name = pending_name(old(self).pending_tool);
                let prefix = pending_prefix(old(self).pending_tool);
                if old(self).iteration == MAX_AGENT_ITERATIONS - 1 {
                    let answer = (if prefix.len() > 0 { prefix + lit("\n\n") } else { seq![] }) + output@;
                    step matches AgentStep::Done { answer: Ok(t), record } && t@ == answer && record == (
                    answer.len() > 0)
                } else {
                    &&& final(self).iteration == old(self).iteration + 1
                    &&& final(self).final_answer@ == old(self).final_answer@ + prefix
                    &&& final(self).last_asst@ == assistant_turn(prefix, name)
                    &&& final(self).last_tool@ == tool_turn(name, output@)
                    &&& final(self).has_tool_history
                    &&& final(self).pending_tool is None
                    &&& final(self).messages@ == with_message(
                        with_message(old(self).messages@, lit("assistant"), assistant_turn(prefix, name)),
                        lit("user"),
                        tool_turn(name, output@),
                    )
                    &&& step matches AgentStep::Call(m) && m@ == final(self).messages@
                }
            }),
            final(self).prompt == old(self).prompt,
            final(self).system_content == old(self).system_content,
            final(self).got_final_answer == old(self).got_final_answer || old(self).iteration
                == MAX_AGENT_ITERATIONS - 1,
    {
        let (name, prefix) = match &self.pending_tool {
            Some((n, p)) => (bytes_copy(n.as_slice()), bytes_copy(p.as_slice())),
            None => (Vec::new(), Vec::new()),
        };
        if self.iteration == MAX_AGENT_ITERATIONS - 1 {
            let mut answer: Vec<u8> = Vec::new();
            if prefix.len() > 0 {
                append_bytes(&mut answer, prefix.as_slice());
                append_str(&mut answer, "\n\n");
            }
            append_bytes(&mut answer, output);
            self.final_answer = bytes_copy(answer.as_slice());
            self.got_final_answer = true;
            let record = answer.len() > 0;
            return AgentStep::Done { answer: Ok(answer), record };
        }
        let mut assistant_content: Vec<u8> = Vec::new();
        append_bytes(&mut assistant_content, prefix.as_slice());
        append_str(&mut assistant_content, "<tool>");
        append_bytes(&mut assistant_content, name.as_slice());
        append_str(&mut assistant_content, "</tool>");
        let mut tool_result: Vec<u8> = Vec::new();
        append_str(&mut tool_result, "[Tool: ");
        append_bytes(&mut tool_result, name.as_slice());
        append_str(&mut tool_result, "]\n");
        append_bytes(&mut tool_result, output);
        append_str(
            &mut tool_result,
            "[End Tool]\nAbove is live data from the kernel. Analyze it thoughtfully and respond to the user.",
        );
        append_message_to_json(&mut self.messages, "assistant".as_bytes(), assistant_content.as_slice());
        append_message_to_json(&mut self.messages, "user".as_bytes(), tool_result.as_slice());
        self.last_asst = assistant_content;
        self.last_tool = tool_result;
        self.has_tool_history = true;
        append_bytes(&mut self.final_answer, prefix.as_slice());
        self.pending_tool = None;
        self.iteration = self.iteration + 1;
        let m = bytes_copy(self.messages.as_slice());
        AgentStep::Call(m)
    }

    /// The answer when every round is used up.
    pub fn out_of_rounds(&self) -> (step: AgentStep)
        ensures
            step matches AgentStep::Done { answer: Ok(t), record } && t@ == finished_answer(
                self.final_answer@,
                self.got_final_answer,
            ) && record == (self.got_final_answer && t@.len() > 0),
    {
        let t = self.finish();
        let record = self.got_final_answer && t.len() > 0;
        AgentStep::Done { answer: Ok(t), record }
    }
}

// ---------------------------------------------------------------------------
// Choosing the backend
// ---------------------------------------------------------------------------

/// Use the local model when it is loaded, vLLM otherwise.
pub const INFERENCE_MODE_AUTO: u32 = 0;

/// Always use the local model.
pub const INFERENCE_MODE_LOCAL: u32 = 1;

/// Always use vLLM.
pub const INFERENCE_MODE_VLLM: u32 = 2;

/// Whether the agent tries the local model first.
pub fn use_local_backend(mode: u32, model_loaded: bool) -> (r: bool)
    ensures
        r == (mode == INFERENCE_MODE_LOCAL || (mode != INFERENCE_MODE_VLLM && model_loaded)),
{
    if mode == INFERENCE_MODE_LOCAL {
        true
    } else if mode == INFERENCE_MODE_VLLM {
        false
    } else {
        model_loaded
    }
}

/// What becomes of the local model's result.
pub enum LocalOutcome {
    /// This is the agent's answer.
    Answer(Result<Vec<u8>, u32>),
    /// Ask vLLM instead.
    FallBack,
}

/// Decide on the local model's result: a non-empty answer stands; an empty
/// one or a failure falls back to vLLM, except in local-only mode, where an
/// empty answer is reported and a failure passed on.
pub fn after_local(mode: u32, local: Result<Vec<u8>, u32>) -> (r: LocalOutcome)
    ensures
        match local {
            Ok(t) => if t@.len() > 0 {
                r matches LocalOutcome::Answer(Ok(a)) && a@ == t@
            } else if mode == INFERENCE_MODE_LOCAL {
                r matches LocalOutcome::Answer(Ok(a)) && a@ == lit(
                    "[hackbot] Local inference produced no output.\n",
                )
            } else {
                r is FallBack
            },
            Err(e) => if mode == INFERENCE_MODE_LOCAL {
                r matches LocalOutcome::Answer(Err(code)) && code == e
            } else {
                r is FallBack
            },
        },
{
    match local {
        Ok(t) => {
            if t.len() > 0 {
                LocalOutcome::Answer(Ok(t))
            } else if mode == INFERENCE_MODE_LOCAL {
                let mut r: Vec<u8> = Vec::new();
                append_str(&mut r, "[hackbot] Local inference produced no output.\n");
                LocalOutcome::Answer(Ok(r))
            } else {
                LocalOutcome::FallBack
            }
        },
        Err(e) => {
            if mode == INFERENCE_MODE_LOCAL {
                LocalOutcome::Answer(Err(e))
            } else {
                LocalOutcome::FallBack
            }
        },
    }
}

} // verus!
