//! The agent's tool protocol: finding `<tool>NAME</tool>` in a model
//! response, splitting a tool invocation into name and arguments, choosing
//! what each tool must read from the kernel, and formatting what it read.

use vstd::prelude::*;
use vstd::string::StringSliceAdditionalSpecFns;

use crate::context::{append_until_nul, append_uptime, sat_sub, until_nul, uptime_text, MemInfo};
use crate::net::{
    append_bytes, append_str, bytes_eq, decimal, find_spec, find_subsequence, format_usize, is_digit,
    lit, BYTE_CR, BYTE_LF, BYTE_SPACE, BYTE_TAB,
};

verus! {

/// Form feed, the one ASCII whitespace byte that has no other name here.
pub const BYTE_FF: u8 = 12;

/// Rust's `u8::is_ascii_whitespace`: space, tab, line feed, form feed, carriage return.
pub open spec fn is_ascii_ws(b: u8) -> bool {
    b == BYTE_SPACE || b == BYTE_TAB || b == BYTE_LF || b == BYTE_FF || b == BYTE_CR
}

pub(crate) fn is_ascii_ws_exec(b: u8) -> (r: bool)
    ensures
        r == is_ascii_ws(b),
{
    b == BYTE_SPACE || b == BYTE_TAB || b == BYTE_LF || b == BYTE_FF || b == BYTE_CR
}

/// The first position at or after `i` that holds no whitespace (`s.len()` if none).
pub open spec fn first_non_ws(s: Seq<u8>, i: int) -> int
    decreases s.len() - i,
{
    if i < 0 || i >= s.len() {
        s.len() as int
    } else if !is_ascii_ws(s[i]) {
        i
    } else {
        first_non_ws(s, i + 1)
    }
}

/// The end of the last non-whitespace byte before `j` (0 if none).
pub open spec fn non_ws_end(s: Seq<u8>, j: int) -> int
    decreases j,
{
    if j <= 0 || j > s.len() {
        0
    } else if !is_ascii_ws(s[j - 1]) {
        j
    } else {
        non_ws_end(s, j - 1)
    }
}

/// `s` without leading and trailing ASCII whitespace.
pub open spec fn trim_spec(s: Seq<u8>) -> Seq<u8> {
    let a = first_non_ws(s, 0);
    if a >= s.len() {
        seq![]
    } else {
        s.subrange(a, non_ws_end(s, s.len() as int))
    }
}

pub(crate) proof fn lemma_first_non_ws(s: Seq<u8>, i: int)
    requires
        0 <= i <= s.len(),
    ensures
        i <= first_non_ws(s, i) <= s.len(),
        first_non_ws(s, i) < s.len() ==> !is_ascii_ws(s[first_non_ws(s, i)]),
    decreases s.len() - i,
{
    if i < s.len() && is_ascii_ws(s[i]) {
        lemma_first_non_ws(s, i + 1);
    }
}

proof fn lemma_non_ws_end(s: Seq<u8>, j: int, k: int)
    requires
        0 <= k < j <= s.len(),
        !is_ascii_ws(s[k]),
    ensures
        k < non_ws_end(s, j) <= j,
    decreases j,
{
    if is_ascii_ws(s[j - 1]) {
        lemma_non_ws_end(s, j - 1, k);
    }
}

/// Trim leading and trailing ASCII whitespace.
pub fn trim_ascii(s: &[u8]) -> (r: &[u8])
    ensures
        r@ == trim_spec(s@),
{
    let n = s.len();
    let mut start: usize = 0;
    while start < n && is_ascii_ws_exec(s[start])
        invariant
            n == s@.len(),
            start <= n,
            first_non_ws(s@, 0) == first_non_ws(s@, start as int),
        decreases n - start,
    {
        start += 1;
    }
    if start >= n {
        return &s[n..n];
    }
    proof {
        lemma_first_non_ws(s@, 0);
        lemma_non_ws_end(s@, n as int, start as int);
    }
    let mut end: usize = n;
    while end > 0 && is_ascii_ws_exec(s[end - 1])
        invariant
            n == s@.len(),
            start < end <= n,
            non_ws_end(s@, n as int) == non_ws_end(s@, end as int),
            !is_ascii_ws(s@[start as int]),
        decreases end,
    {
        end -= 1;
    }
    &s[start..end]
}

/// The first position at or after `i` holding a line feed or carriage return (`s.len()` if none).
pub open spec fn line_break_from(s: Seq<u8>, i: int) -> int
    decreases s.len() - i,
{
    if i < 0 || i >= s.len() {
        s.len() as int
    } else if s[i] == BYTE_LF || s[i] == BYTE_CR {
        i
    } else {
        line_break_from(s, i + 1)
    }
}

/// The tool call `parse_tool_call` finds in a response: the (name, prefix)
/// of the first `<tool>` tag, the name ending at `</tool>` (or, without one,
/// at the end of the line), trimmed and cut to 32 bytes; none if the name is empty.
pub open spec fn tool_call_of(response: Seq<u8>) -> Option<(Seq<u8>, Seq<u8>)> {
    match find_spec(response, "<tool>".spec_bytes()) {
        None => None,
        Some(open_pos) => {
            let remaining = response.subrange(open_pos + "<tool>".spec_bytes().len(), response.len() as int);
            let name_end = match find_spec(remaining, "</tool>".spec_bytes()) {
                Some(c) => c,
                None => line_break_from(remaining, 0),
            };
            let trimmed = trim_spec(remaining.subrange(0, name_end));
            let name = if trimmed.len() > 32 { trimmed.subrange(0, 32) } else { trimmed };
            if name.len() > 0 {
                Some((name, response.subrange(0, open_pos)))
            } else {
                None
            }
        },
    }
}

/// Result of parsing an LLM response for tool calls.
pub enum ToolCallResult<'a> {
    ToolCall { name: &'a [u8], prefix: &'a [u8] },
    FinalAnswer(&'a [u8]),
}

/// Parse an LLM response looking for a `<tool>NAME</tool>` tag.
pub fn parse_tool_call(response: &[u8]) -> (r: ToolCallResult<'_>)
    ensures
        r matches ToolCallResult::ToolCall { name, prefix } ==> tool_call_of(response@) == Some(
            (name@, prefix@),
        ),
        r matches ToolCallResult::FinalAnswer(t) ==> tool_call_of(response@) is None && t@
            == response@,
{
    let open_tag = "<tool>".as_bytes();
    let close_tag = "</tool>".as_bytes();
    proof {
        reveal_strlit("<tool>");
        vstd::string::is_ascii_spec_bytes("<tool>");
        assert(vstd::string::is_ascii("<tool>"));
    }
    if let Some(open_pos) = find_subsequence(response, open_tag) {
        let rlen = response.len();
        assert(open_pos + open_tag@.len() <= rlen);
        let content_start = open_pos + open_tag.len();
        let remaining = &response[content_start..response.len()];
        let name_end = if let Some(close_offset) = find_subsequence(remaining, close_tag) {
            close_offset
        } else {
            let mut p: usize = 0;
            while p < remaining.len() && remaining[p] != BYTE_LF && remaining[p] != BYTE_CR
                invariant
                    p <= remaining@.len(),
                    line_break_from(remaining@, 0) == line_break_from(remaining@, p as int),
                decreases remaining@.len() - p,
            {
                p += 1;
            }
            p
        };
        let name = trim_ascii(&remaining[0..name_end]);
        let name = if name.len() > 32 {
            &name[0..32]
        } else {
            name
        };
        if name.len() > 0 {
            return ToolCallResult::ToolCall { name, prefix: &response[0..open_pos] };
        }
    }
    ToolCallResult::FinalAnswer(response)
}

/// The first position at or after `i` holding a space (`s.len()` if none).
pub open spec fn space_from(s: Seq<u8>, i: int) -> int
    decreases s.len() - i,
{
    if i < 0 || i >= s.len() {
        s.len() as int
    } else if s[i] == BYTE_SPACE {
        i
    } else {
        space_from(s, i + 1)
    }
}

/// How `split_tool_args` splits an invocation: the name before the first
/// space, and the trimmed arguments after it (none without a space).
pub open spec fn split_spec(raw: Seq<u8>) -> (Seq<u8>, Seq<u8>) {
    let pos = space_from(raw, 0);
    if pos < raw.len() {
        (raw.subrange(0, pos), trim_spec(raw.subrange(pos + 1, raw.len() as int)))
    } else {
        (raw, seq![])
    }
}

/// Split a raw tool invocation into (name, args).
/// e.g. `files 1234` gives (`files`, `1234`), `ps` gives (`ps`, empty).
pub fn split_tool_args(raw: &[u8]) -> (r: (&[u8], &[u8]))
    ensures
        r.0@ == split_spec(raw@).0,
        r.1@ == split_spec(raw@).1,
{
    let n = raw.len();
    let mut pos: usize = 0;
    while pos < n && raw[pos] != BYTE_SPACE
        invariant
            n == raw@.len(),
            pos <= n,
            space_from(raw@, 0) == space_from(raw@, pos as int),
        decreases n - pos,
    {
        pos += 1;
    }
    if pos < n {
        (&raw[0..pos], trim_ascii(&raw[pos + 1..n]))
    } else {
        (raw, &raw[n..n])
    }
}

/// The first position at or after `i` that holds no ASCII digit (`s.len()` if none).
pub open spec fn digits_end(s: Seq<u8>, i: int) -> int
    decreases s.len() - i,
{
    if i < 0 || i >= s.len() {
        s.len() as int
    } else if !crate::net::is_digit(s[i]) {
        i
    } else {
        digits_end(s, i + 1)
    }
}

/// The value of the digits `s[0..n]`, each step saturating at `usize::MAX`.
pub open spec fn digits_value(s: Seq<u8>, n: int) -> int
    decreases n,
{
    if n <= 0 {
        0
    } else {
        let times_ten = digits_value(s, n - 1) * 10;
        let t = if times_ten > usize::MAX { usize::MAX as int } else { times_ten };
        let sum = t + (s[n - 1] - 48);
        if sum > usize::MAX { usize::MAX as int } else { sum }
    }
}

/// The number `parse_usize` reads: the value of the leading decimal digits,
/// saturating at `usize::MAX`; 0 when there are none.
pub open spec fn parse_usize_spec(s: Seq<u8>) -> int {
    digits_value(s, digits_end(s, 0))
}

proof fn lemma_digits_end(s: Seq<u8>, i: int)
    requires
        0 <= i <= s.len(),
    ensures
        i <= digits_end(s, i) <= s.len(),
        forall|j: int| i <= j < digits_end(s, i) ==> crate::net::is_digit(s[j]),
        digits_end(s, i) < s.len() ==> !crate::net::is_digit(s[digits_end(s, i)]),
    decreases s.len() - i,
{
    if i < s.len() && crate::net::is_digit(s[i]) {
        lemma_digits_end(s, i + 1);
    }
}

/// Parse a decimal integer from ASCII bytes. Returns 0 on empty/invalid input.
pub fn parse_usize(s: &[u8]) -> (n: usize)
    ensures
        n == parse_usize_spec(s@),
{
    let mut n: usize = 0;
    let len = s.len();
    let mut i: usize = 0;
    proof {
        lemma_digits_end(s@, 0);
    }
    while i < len && 48 <= s[i] && s[i] <= 57
        invariant
            len == s@.len(),
            i <= len,
            i <= digits_end(s@, 0),
            digits_end(s@, 0) == digits_end(s@, i as int),
            n == digits_value(s@, i as int),
        decreases len - i,
    {
        let times_ten = if n > usize::MAX / 10 {
            usize::MAX
        } else {
            n * 10
        };
        n = times_ten.saturating_add((s[i] - 48) as usize);
        proof {
            lemma_digits_end(s@, (i + 1) as int);
        }
        i += 1;
    }
    n
}

proof fn lemma_digits_value_prefix(s: Seq<u8>, t: Seq<u8>, n: int)
    requires
        0 <= n <= s.len(),
        n <= t.len(),
        s.subrange(0, n) == t.subrange(0, n),
    ensures
        digits_value(s, n) == digits_value(t, n),
    decreases n,
{
    if n > 0 {
        assert(s.subrange(0, n - 1) == t.subrange(0, n - 1)) by {
            assert(s.subrange(0, n - 1) == s.subrange(0, n).subrange(0, n - 1));
            assert(t.subrange(0, n - 1) == t.subrange(0, n).subrange(0, n - 1));
        }
        assert(s[n - 1] == s.subrange(0, n)[n - 1]);
        assert(t[n - 1] == t.subrange(0, n)[n - 1]);
        lemma_digits_value_prefix(s, t, n - 1);
    }
}

proof fn lemma_decimal_digits(n: nat)
    ensures
        decimal(n).len() >= 1,
        forall|j: int| 0 <= j < decimal(n).len() ==> crate::net::is_digit(#[trigger] decimal(n)[j]),
        digits_value(decimal(n), decimal(n).len() as int) == n || n > usize::MAX,
    decreases n,
{
    if n >= 10 {
        lemma_decimal_digits(n / 10);
        let d = decimal(n / 10);
        let e = decimal(n);
        assert(e == d.push((48 + n % 10) as u8));
        assert(e.subrange(0, d.len() as int) == d.subrange(0, d.len() as int));
        lemma_digits_value_prefix(e, d, d.len() as int);
        assert forall|j: int| 0 <= j < e.len() implies crate::net::is_digit(#[trigger] e[j]) by {
            if j < d.len() {
                assert(e[j] == d[j]);
            }
        }
        if n <= usize::MAX {
            assert(digits_value(d, d.len() as int) == n / 10);
            assert(e[e.len() - 1] == 48 + n % 10);
            assert(digits_value(e, e.len() as int) == n);
        }
    } else {
        let e = decimal(n);
        assert(e.len() == 1);
        assert(digits_value(e, 0) == 0);
        assert(e[0] == 48 + n);
        assert(digits_value(e, 1) == n);
    }
}

/// Reading back a formatted number gives the number: `parse_usize` of what
/// `format_usize` writes for `n` is `n`.
pub proof fn lemma_parse_format_roundtrip(n: usize)
    ensures
        parse_usize_spec(decimal(n as nat)) == n,
{
    let d = decimal(n as nat);
    lemma_decimal_digits(n as nat);
    lemma_digits_end(d, 0);
    if digits_end(d, 0) < d.len() {
        assert(crate::net::is_digit(d[digits_end(d, 0)]));
    }
}

// ---------------------------------------------------------------------------
// Choosing what a tool reads
// ---------------------------------------------------------------------------

/// What a `trace` invocation asks the tracepoint sensors for.
pub enum TraceQuery {
    SchedSummary,
    SchedRaw { count: usize },
    SyscallSummary,
    SyscallRaw { count: usize },
    IoSummary,
    IoRaw { count: usize },
    Tokens { count: usize },
    NgramStats,
    NgramAlerts { count: usize },
    NgramSurprise,
    Reset,
    List,
    Usage,
}

/// What a tool invocation asks of the kernel.
pub enum ToolAction<'a> {
    Ps,
    Mem,
    Loadavg,
    Dmesg { max_lines: usize },
    FilesUsage,
    Files { pid: i32 },
    KprobeAttach { func: &'a [u8] },
    KprobeAttachUsage,
    KprobeCheck,
    KprobeDetach { func: &'a [u8] },
    KprobeDetachUsage,
    KprobeUsage,
    Trace(TraceQuery),
    Unknown { name: &'a [u8] },
}

/// A count argument: its value when given, `default` otherwise.
pub open spec fn count_arg(s: Seq<u8>, default: int) -> int {
    if s.len() > 0 { parse_usize_spec(s) } else { default }
}

fn count_arg_exec(s: &[u8], default: usize) -> (n: usize)
    ensures
        n == count_arg(s@, default as int),
{
    if s.len() > 0 {
        parse_usize(s)
    } else {
        default
    }
}

/// A sensor read that may ask for the raw events (`raw N`, N defaulting to 20).
pub open spec fn raw_count(args: Seq<u8>) -> Option<int> {
    let (first, rest) = split_spec(args);
    if first == lit("raw") { Some(count_arg(rest, 20)) } else { None }
}

/// The query `plan_trace` makes of the arguments of `trace`.
pub open spec fn trace_plan_ok(args: Seq<u8>, q: TraceQuery) -> bool {
    let (sub, subargs) = split_spec(args);
    if sub == lit("sched") {
        match raw_count(subargs) {
            Some(c) => q matches TraceQuery::SchedRaw { count } && count == c,
            None => q is SchedSummary,
        }
    } else if sub == lit("syscall") {
        match raw_count(subargs) {
            Some(c) => q matches TraceQuery::SyscallRaw { count } && count == c,
            None => q is SyscallSummary,
        }
    } else if sub == lit("io") {
        match raw_count(subargs) {
            Some(c) => q matches TraceQuery::IoRaw { count } && count == c,
            None => q is IoSummary,
        }
    } else if sub == lit("tokens") {
        q matches TraceQuery::Tokens { count } && count == count_arg(split_spec(subargs).0, 20)
    } else if sub == lit("ngram") {
        let (sub2, count_str) = split_spec(subargs);
        if sub2 == lit("stats") {
            q is NgramStats
        } else if sub2 == lit("alerts") {
            q matches TraceQuery::NgramAlerts { count } && count == count_arg(count_str, 10)
        } else {
            q is NgramSurprise
        }
    } else if sub == lit("reset") {
        q is Reset
    } else if sub == lit("list") {
        q is List
    } else {
        q is Usage
    }
}

fn raw_count_exec(args: &[u8]) -> (r: Option<usize>)
    ensures
        r is Some <==> raw_count(args@) is Some,
        r matches Some(c) ==> raw_count(args@) == Some(c as int),
{
    let (first, rest) = split_tool_args(args);
    if bytes_eq(first, "raw".as_bytes()) {
        Some(count_arg_exec(rest, 20))
    } else {
        None
    }
}

/// Decide what `trace <subsystem> [raw N]` reads.
pub fn plan_trace(args: &[u8]) -> (q: TraceQuery)
    ensures
        trace_plan_ok(args@, q),
{
    let (sub, subargs) = split_tool_args(args);
    if bytes_eq(sub, "sched".as_bytes()) {
        match raw_count_exec(subargs) {
            Some(count) => TraceQuery::SchedRaw { count },
            None => TraceQuery::SchedSummary,
        }
    } else if bytes_eq(sub, "syscall".as_bytes()) {
        match raw_count_exec(subargs) {
            Some(count) => TraceQuery::SyscallRaw { count },
            None => TraceQuery::SyscallSummary,
        }
    } else if bytes_eq(sub, "io".as_bytes()) {
        match raw_count_exec(subargs) {
            Some(count) => TraceQuery::IoRaw { count },
            None => TraceQuery::IoSummary,
        }
    } else if bytes_eq(sub, "tokens".as_bytes()) {
        let (count_str, _) = split_tool_args(subargs);
        TraceQuery::Tokens { count: count_arg_exec(count_str, 20) }
    } else if bytes_eq(sub, "ngram".as_bytes()) {
        let (sub2, count_str) = split_tool_args(subargs);
        if bytes_eq(sub2, "stats".as_bytes()) {
            TraceQuery::NgramStats
        } else if bytes_eq(sub2, "alerts".as_bytes()) {
            TraceQuery::NgramAlerts { count: count_arg_exec(count_str, 10) }
        } else {
            TraceQuery::NgramSurprise
        }
    } else if bytes_eq(sub, "reset".as_bytes()) {
        TraceQuery::Reset
    } else if bytes_eq(sub, "list".as_bytes()) {
        TraceQuery::List
    } else {
        TraceQuery::Usage
    }
}

/// The action `plan_kprobe` chooses for the arguments of `kprobe`.
pub open spec fn kprobe_plan_ok(args: Seq<u8>, a: ToolAction) -> bool {
    let (sub, subargs) = split_spec(args);
    if sub == lit("attach") {
        if subargs.len() == 0 {
            a is KprobeAttachUsage
        } else {
            a matches ToolAction::KprobeAttach { func } && func@ == subargs
        }
    } else if sub == lit("check") {
        a is KprobeCheck
    } else if sub == lit("detach") {
        if subargs.len() == 0 {
            a is KprobeDetachUsage
        } else {
            a matches ToolAction::KprobeDetach { func } && func@ == subargs
        }
    } else {
        a is KprobeUsage
    }
}

/// The action `plan_tool` chooses for a raw invocation (the text between
/// `<tool>` and `</tool>`).
pub open spec fn tool_plan_ok(raw: Seq<u8>, a: ToolAction) -> bool {
    let (name, args) = split_spec(raw);
    if name == lit("ps") {
        a is Ps
    } else if name == lit("mem") {
        a is Mem
    } else if name == lit("loadavg") {
        a is Loadavg
    } else if name == lit("dmesg") {
        a matches ToolAction::Dmesg { max_lines } && max_lines == count_arg(args, 0)
    } else if name == lit("files") {
        if args.len() == 0 || !is_digit(args[0]) {
            a is FilesUsage
        } else {
            a matches ToolAction::Files { pid } && pid == parse_usize_spec(args) as i32
        }
    } else if name == lit("kprobe") {
        kprobe_plan_ok(args, a)
    } else if name == lit("trace") {
        a matches ToolAction::Trace(q) && trace_plan_ok(args, q)
    } else {
        a matches ToolAction::Unknown { name: n } && n@ == name
    }
}

fn plan_kprobe(args: &[u8]) -> (a: ToolAction<'_>)
    ensures
        kprobe_plan_ok(args@, a),
{
    let (sub, subargs) = split_tool_args(args);
    if bytes_eq(sub, "attach".as_bytes()) {
        if subargs.len() == 0 {
            ToolAction::KprobeAttachUsage
        } else {
            ToolAction::KprobeAttach { func: subargs }
        }
    } else if bytes_eq(sub, "check".as_bytes()) {
        ToolAction::KprobeCheck
    } else if bytes_eq(sub, "detach".as_bytes()) {
        if subargs.len() == 0 {
            ToolAction::KprobeDetachUsage
        } else {
            ToolAction::KprobeDetach { func: subargs }
        }
    } else {
        ToolAction::KprobeUsage
    }
}

/// Decide what a tool invocation reads from the kernel.
pub fn plan_tool(raw: &[u8]) -> (a: ToolAction<'_>)
    ensures
        tool_plan_ok(raw@, a),
{
    let (name, args) = split_tool_args(raw);
    if bytes_eq(name, "ps".as_bytes()) {
        ToolAction::Ps
    } else if bytes_eq(name, "mem".as_bytes()) {
        ToolAction::Mem
    } else if bytes_eq(name, "loadavg".as_bytes()) {
        ToolAction::Loadavg
    } else if bytes_eq(name, "dmesg".as_bytes()) {
        ToolAction::Dmesg { max_lines: count_arg_exec(args, 0) }
    } else if bytes_eq(name, "files".as_bytes()) {
        if args.len() == 0 || !(48 <= args[0] && args[0] <= 57) {
            ToolAction::FilesUsage
        } else {
            ToolAction::Files { pid: parse_usize(args) as i32 }
        }
    } else if bytes_eq(name, "kprobe".as_bytes()) {
        plan_kprobe(args)
    } else if bytes_eq(name, "trace".as_bytes()) {
        ToolAction::Trace(plan_trace(args))
    } else {
        ToolAction::Unknown { name }
    }
}

// ---------------------------------------------------------------------------
// Formatting what a tool read
// ---------------------------------------------------------------------------

/// Per-tool output limit in bytes.
pub const MAX_TOOL_OUTPUT: usize = 6144;

/// The most processes the `ps` tool lists.
pub const MAX_PS_TASKS: usize = 512;

/// What `finish_tool_output` makes of a tool's output: `[No output]` for an
/// empty one, and anything longer than the limit cut to fit with a marker.
pub open spec fn finished_output(o: Seq<u8>) -> Seq<u8> {
    let o1 = if o.len() == 0 { lit("[No output]\n") } else { o };
    let limit = MAX_TOOL_OUTPUT - lit("\n[... truncated]\n").len();
    if o1.len() > limit { o1.subrange(0, limit) + lit("\n[... truncated]\n") } else { o1 }
}

/// Finish a tool's output for the model: mark an empty one, and truncate
/// a long one to the per-tool limit (marker included).
pub fn finish_tool_output(output: Vec<u8>) -> (r: Vec<u8>)
    ensures
        r@ == finished_output(output@),
{
    let mut output = output;
    if output.len() == 0 {
        append_str(&mut output, "[No output]\n");
    }
    let suffix = "\n[... truncated]\n".as_bytes();
    proof {
        reveal_strlit("\n[... truncated]\n");
        vstd::string::is_ascii_spec_bytes("\n[... truncated]\n");
        assert(vstd::string::is_ascii("\n[... truncated]\n"));
    }
    let limit = MAX_TOOL_OUTPUT - suffix.len();
    if output.len() > limit {
        output.truncate(limit);
        append_bytes(&mut output, suffix);
    }
    output
}

/// The answer to an unknown tool name.
pub open spec fn unknown_tool_text(name: Seq<u8>) -> Seq<u8> {
    lit("[Error: unknown tool '") + name + lit(
        "'. Available tools: ps, mem, loadavg, dmesg, files, kprobe, trace]\n",
    )
}

/// The answer to an unknown tool name.
pub fn unknown_tool_output(name: &[u8]) -> (r: Vec<u8>)
    ensures
        r@ == unknown_tool_text(name@),
{
    let mut out: Vec<u8> = Vec::new();
    append_str(&mut out, "[Error: unknown tool '");
    append_bytes(&mut out, name);
    append_str(&mut out, "'. Available tools: ps, mem, loadavg, dmesg, files, kprobe, trace]\n");
    out
}

/// A task as the `ps` tool sees it in the kernel's task list.
pub struct TaskInfo {
    pub pid: i32,
    pub ppid: i32,
    /// The raw scheduler state (`__state`).
    pub state: u32,
    /// The task's `comm`, NUL-terminated when shorter than its buffer.
    pub comm: Vec<u8>,
    /// Whether the task has a user address space (is not a kernel thread).
    pub user: bool,
}

/// The one-letter state `ps` shows for a raw scheduler state.
pub open spec fn state_char(state: u32) -> u8 {
    if state == 0 {
        82u8
    } else if state == 1 {
        83u8
    } else if state == 2 {
        68u8
    } else if state == 4 || state == 8 {
        84u8
    } else if state == 0x40 {
        90u8
    } else if state == 0x20 {
        88u8
    } else if state == 0x402 {
        73u8
    } else {
        63u8
    }
}

fn state_char_exec(state: u32) -> (c: u8)
    ensures
        c == state_char(state),
{
    if state == 0 {
        82
    } else if state == 1 {
        83
    } else if state == 2 {
        68
    } else if state == 4 || state == 8 {
        84
    } else if state == 0x40 {
        90
    } else if state == 0x20 {
        88
    } else if state == 0x402 {
        73
    } else {
        63
    }
}

/// `n` spaces.
pub open spec fn spaces(n: int) -> Seq<u8> {
    Seq::new(if n > 0 { n as nat } else { 0 }, |i: int| BYTE_SPACE)
}

/// A number left-aligned in a column of eight.
pub open spec fn pad8(d: Seq<u8>) -> Seq<u8> {
    d + spaces(8 - d.len())
}

fn append_padded8(out: &mut Vec<u8>, d: &[u8])
    ensures
        final(out)@ == old(out)@ + pad8(d@),
{
    let ghost start = out@;
    append_bytes(out, d);
    let n: usize = 8usize.saturating_sub(d.len());
    for k in 0..n
        invariant
            out@ == start + d@ + spaces(k as int),
    {
        out.push(BYTE_SPACE);
        assert(spaces(k as int).push(BYTE_SPACE) == spaces(k + 1));
    }
}

/// One line of `ps` output: PID, PPID, state and command name.
pub open spec fn task_line(t: TaskInfo) -> Seq<u8> {
    pad8(decimal((t.pid as usize) as nat)) + pad8(decimal((t.ppid as usize) as nat)) + seq![
        state_char(t.state),
    ] + lit("      ") + until_nul(t.comm@) + seq![BYTE_LF]
}

/// Appends one line of `ps` output.
pub fn format_task(output: &mut Vec<u8>, task: &TaskInfo)
    ensures
        final(output)@ == old(output)@ + task_line(*task),
{
    let ghost start = output@;
    append_padded8(output, format_usize(task.pid as usize).as_slice());
    append_padded8(output, format_usize(task.ppid as usize).as_slice());
    output.push(state_char_exec(task.state));
    append_str(output, "      ");
    append_until_nul(output, task.comm.as_slice());
    output.push(BYTE_LF);
    assert(output@ == start + task_line(*task));
}

/// The lines one `ps` pass writes from position `i` on, for user processes
/// or for kernel threads, having listed `count` tasks already, and the count
/// after it; a pass stops at the task limit.
pub open spec fn task_lines(tasks: Seq<TaskInfo>, user: bool, i: int, count: nat) -> (Seq<u8>, nat)
    decreases tasks.len() - i,
{
    if i < 0 || i >= tasks.len() || count >= MAX_PS_TASKS {
        (seq![], count)
    } else if tasks[i].user == user {
        let rest = task_lines(tasks, user, i + 1, count + 1);
        (task_line(tasks[i]) + rest.0, rest.1)
    } else {
        task_lines(tasks, user, i + 1, count)
    }
}

/// The `ps` listing of the task list: user processes, then kernel threads,
/// at most `MAX_PS_TASKS` in all.
pub open spec fn ps_listing(tasks: Seq<TaskInfo>) -> Seq<u8> {
    let (user_lines, c1) = task_lines(tasks, true, 0, 0);
    let head = lit("=== User-Space Processes ===\nPID      PPID     STATE  COMM\n") + user_lines;
    if c1 < MAX_PS_TASKS {
        let (kernel_lines, c2) = task_lines(tasks, false, 0, c1);
        head + lit("\n=== Kernel Threads ===\nPID      PPID     STATE  COMM\n") + kernel_lines + (if c2
            >= MAX_PS_TASKS {
            lit("[... truncated]\n")
        } else {
            seq![]
        })
    } else {
        head + lit("[... truncated]\n")
    }
}

fn ps_pass(output: &mut Vec<u8>, tasks: &[TaskInfo], user: bool, count0: usize) -> (count: usize)
    requires
        count0 <= MAX_PS_TASKS,
    ensures
        final(output)@ == old(output)@ + task_lines(tasks@, user, 0, count0 as nat).0,
        count == task_lines(tasks@, user, 0, count0 as nat).1,
        count <= MAX_PS_TASKS,
{
    let ghost start = output@;
    let mut count = count0;
    let mut i: usize = 0;
    proof {
        lemma_task_lines_bound(tasks@, user, 0, count0 as nat);
    }
    while i < tasks.len() && count < MAX_PS_TASKS
        invariant
            i <= tasks@.len(),
            count <= MAX_PS_TASKS,
            output@ + task_lines(tasks@, user, i as int, count as nat).0 == start + task_lines(
                tasks@,
                user,
                0,
                count0 as nat,
            ).0,
            task_lines(tasks@, user, i as int, count as nat).1 == task_lines(
                tasks@,
                user,
                0,
                count0 as nat,
            ).1,
        decreases tasks@.len() - i,
    {
        if tasks[i].user == user {
            format_task(output, &tasks[i]);
            count += 1;
        }
        i += 1;
    }
    count
}

proof fn lemma_task_lines_bound(tasks: Seq<TaskInfo>, user: bool, i: int, count: nat)
    requires
        count <= MAX_PS_TASKS,
    ensures
        count <= task_lines(tasks, user, i, count).1 <= MAX_PS_TASKS,
    decreases tasks.len() - i,
{
    if !(i < 0 || i >= tasks.len() || count >= MAX_PS_TASKS) {
        if tasks[i].user == user {
            lemma_task_lines_bound(tasks, user, i + 1, count + 1);
        } else {
            lemma_task_lines_bound(tasks, user, i + 1, count);
        }
    }
}

/// Tool `ps`: list the processes of the task list, user processes first.
pub fn format_ps(tasks: &[TaskInfo]) -> (r: Vec<u8>)
    ensures
        r@ == ps_listing(tasks@),
{
    let mut output: Vec<u8> = Vec::new();
    append_str(&mut output, "=== User-Space Processes ===\nPID      PPID     STATE  COMM\n");
    let count = ps_pass(&mut output, tasks, true, 0);
    if count < MAX_PS_TASKS {
        append_str(&mut output, "\n=== Kernel Threads ===\nPID      PPID     STATE  COMM\n");
        let count2 = ps_pass(&mut output, tasks, false, count);
        if count2 >= MAX_PS_TASKS {
            append_str(&mut output, "[... truncated]\n");
        }
    } else {
        append_str(&mut output, "[... truncated]\n");
    }
    output
}

/// One line of the memory report: `label` `N` ` MB`.
pub open spec fn mem_line(label: Seq<u8>, mb: int) -> Seq<u8> {
    label + decimal(mb as nat) + lit(" MB\n")
}

/// The `mem` tool's report on memory statistics (each figure in whole MiB).
pub open spec fn mem_report(info: MemInfo) -> Seq<u8> {
    let unit = info.mem_unit;
    let total = crate::context::mib(info.totalram, unit);
    let free = crate::context::mib(info.freeram, unit);
    let used = sat_sub(total, free);
    let shared = crate::context::mib(info.sharedram, unit);
    let buffers = crate::context::mib(info.bufferram, unit);
    let swap_total = crate::context::mib(info.totalswap, unit);
    let swap_free = crate::context::mib(info.freeswap, unit);
    let swap_used = sat_sub(swap_total, swap_free);
    lit("=== Memory Statistics ===\n") + mem_line(lit("Total RAM:   "), total) + mem_line(
        lit("Used RAM:    "),
        used,
    ) + mem_line(lit("Free RAM:    "), free) + mem_line(lit("Shared:      "), shared) + mem_line(
        lit("Buffers:     "),
        buffers,
    ) + mem_line(lit("Swap Total:  "), swap_total) + mem_line(lit("Swap Used:   "), swap_used)
        + mem_line(lit("Swap Free:   "), swap_free) + (if total > 0 {
        lit("RAM Usage:   ") + decimal((used * 100 / total) as nat) + lit("%\n")
    } else {
        seq![]
    })
}

fn append_mem_line(out: &mut Vec<u8>, label: &str, mb: usize)
    ensures
        final(out)@ == old(out)@ + mem_line(lit(label), mb as int),
{
    let ghost start = out@;
    append_str(out, label);
    append_bytes(out, format_usize(mb).as_slice());
    append_str(out, " MB\n");
    assert(out@ == start + mem_line(lit(label), mb as int));
}

/// Tool `mem`: the memory statistics report.
pub fn format_mem(info: &MemInfo) -> (r: Vec<u8>)
    requires
        crate::context::mem_info_fits(*info),
    ensures
        r@ == mem_report(*info),
{
    let unit = info.mem_unit;
    let total_mb = crate::context::mib_exec(info.totalram, unit);
    let free_mb = crate::context::mib_exec(info.freeram, unit);
    let used_mb = total_mb.saturating_sub(free_mb);
    let shared_mb = crate::context::mib_exec(info.sharedram, unit);
    let buffers_mb = crate::context::mib_exec(info.bufferram, unit);
    let swap_total_mb = crate::context::mib_exec(info.totalswap, unit);
    let swap_free_mb = crate::context::mib_exec(info.freeswap, unit);
    let swap_used_mb = swap_total_mb.saturating_sub(swap_free_mb);
    let mut output: Vec<u8> = Vec::new();
    append_str(&mut output, "=== Memory Statistics ===\n");
    append_mem_line(&mut output, "Total RAM:   ", total_mb);
    append_mem_line(&mut output, "Used RAM:    ", used_mb);
    append_mem_line(&mut output, "Free RAM:    ", free_mb);
    append_mem_line(&mut output, "Shared:      ", shared_mb);
    append_mem_line(&mut output, "Buffers:     ", buffers_mb);
    append_mem_line(&mut output, "Swap Total:  ", swap_total_mb);
    append_mem_line(&mut output, "Swap Used:   ", swap_used_mb);
    append_mem_line(&mut output, "Swap Free:   ", swap_free_mb);
    let ghost before_pct = output@;
    if total_mb > 0 {
        assert(used_mb <= total_mb);
        assert(total_mb * 1048576 <= usize::MAX) by (nonlinear_arith)
            requires
                total_mb == info.totalram as int * info.mem_unit as int / 1048576,
                info.totalram as int * info.mem_unit as int <= usize::MAX,
        ;
        assert(used_mb * 100 <= total_mb * 100);
        let pct = (used_mb * 100) / total_mb;
        append_str(&mut output, "RAM Usage:   ");
        append_bytes(&mut output, format_usize(pct).as_slice());
        append_str(&mut output, "%\n");
    }
    output
}

/// Load averages are fixed-point with 11 fraction bits.
pub const FIXED_1: usize = 2048;

/// One load average as `I.FF`.
pub open spec fn load_value_text(val: usize) -> Seq<u8> {
    let frac = (val % 2048) * 100 / 2048;
    decimal((val / 2048) as nat) + seq![crate::net::BYTE_DOT] + (if frac < 10 {
        seq![crate::net::BYTE_ZERO]
    } else {
        seq![]
    }) + decimal(frac as nat) + seq![BYTE_LF]
}

/// The `loadavg` tool's report from the kernel's `avenrun` values, the
/// online CPU count and the nanoseconds since boot.
pub open spec fn loadavg_report(avg: [usize; 3], cpus: usize, uptime_ns: u64) -> Seq<u8> {
    lit("=== Load Averages ===\n") + lit("1 min:   ") + load_value_text(avg@[0]) + lit("5 min:   ")
        + load_value_text(avg@[1]) + lit("15 min:  ") + load_value_text(avg@[2]) + lit(
        "Online CPUs: ",
    ) + decimal(cpus as nat) + seq![BYTE_LF] + lit("Uptime:      ") + uptime_text(uptime_ns) + seq![
        BYTE_LF,
    ]
}

fn append_load_value(out: &mut Vec<u8>, val: usize)
    ensures
        final(out)@ == old(out)@ + load_value_text(val),
{
    let ghost start = out@;
    let integer = val / FIXED_1;
    let frac = (val % FIXED_1) * 100 / FIXED_1;
    append_bytes(out, format_usize(integer).as_slice());
    out.push(crate::net::BYTE_DOT);
    if frac < 10 {
        out.push(crate::net::BYTE_ZERO);
    }
    append_bytes(out, format_usize(frac).as_slice());
    out.push(BYTE_LF);
    assert(out@ == start + load_value_text(val));
}

/// Tool `loadavg`: load averages, online CPUs and uptime.
pub fn format_loadavg(avg: [usize; 3], cpus: usize, uptime_ns: u64) -> (r: Vec<u8>)
    ensures
        r@ == loadavg_report(avg, cpus, uptime_ns),
{
    let mut output: Vec<u8> = Vec::new();
    append_str(&mut output, "=== Load Averages ===\n");
    append_str(&mut output, "1 min:   ");
    append_load_value(&mut output, avg[0]);
    append_str(&mut output, "5 min:   ");
    append_load_value(&mut output, avg[1]);
    append_str(&mut output, "15 min:  ");
    append_load_value(&mut output, avg[2]);
    append_str(&mut output, "Online CPUs: ");
    append_bytes(&mut output, format_usize(cpus).as_slice());
    output.push(BYTE_LF);
    append_str(&mut output, "Uptime:      ");
    append_uptime(&mut output, uptime_ns);
    output.push(BYTE_LF);
    output
}

// ---------------------------------------------------------------------------
// dmesg
// ---------------------------------------------------------------------------

/// What a kernel read left in its buffer: the first `read` bytes when it
/// read anything, nothing otherwise.
pub open spec fn read_bytes(read: i32, buf: Seq<u8>) -> Seq<u8> {
    if read > 0 { buf.subrange(0, read as int) } else { seq![] }
}

/// Where the last `max` lines of `s` begin, scanning back over the first `i`
/// bytes with `seen` line feeds counted: just after the line feed that
/// makes the count exceed `max`, or at the start of `s` where none does
/// (the log then holds no more than `max` lines and is shown whole).
pub open spec fn tail_start_from(s: Seq<u8>, i: int, seen: int, max: int) -> int
    decreases i,
{
    if i <= 0 {
        0
    } else if s[i - 1] == BYTE_LF && seen + 1 > max {
        i
    } else {
        tail_start_from(s, i - 1, if s[i - 1] == BYTE_LF { seen + 1 } else { seen }, max)
    }
}

/// Where `dmesg N` starts showing the console log `s`.
pub open spec fn tail_start(s: Seq<u8>, max: int) -> int {
    tail_start_from(s, s.len() as int, 0, max)
}

/// The `dmesg` tool's report on the console log `data`, limited to its last
/// `max_lines` lines when `max_lines` is not zero.
pub open spec fn dmesg_report(data: Seq<u8>, max_lines: int) -> Seq<u8> {
    if data.len() == 0 {
        lit("[No kernel messages captured yet]\n")
    } else {
        let display = if max_lines > 0 {
            data.subrange(tail_start(data, max_lines), data.len() as int)
        } else {
            data
        };
        lit("=== Kernel Log") + (if max_lines > 0 {
            lit(" (last ") + decimal(max_lines as nat) + lit(" lines)")
        } else {
            seq![]
        }) + lit(" ===\n") + display
    }
}

proof fn lemma_tail_start_bounds(s: Seq<u8>, i: int, seen: int, max: int)
    requires
        0 <= i <= s.len(),
    ensures
        0 <= tail_start_from(s, i, seen, max) <= s.len(),
    decreases i,
{
    if i > 0 {
        lemma_tail_start_bounds(s, i - 1, if s[i - 1] == BYTE_LF { seen + 1 } else { seen }, max);
    }
}

fn find_tail_start(data: &[u8], max_lines: usize) -> (start: usize)
    ensures
        start == tail_start(data@, max_lines as int),
        start <= data@.len(),
{
    let mut newline_count: usize = 0;
    let mut i: usize = data.len();
    proof {
        lemma_tail_start_bounds(data@, data@.len() as int, 0, max_lines as int);
    }
    while i > 0
        invariant
            i <= data@.len(),
            newline_count <= data@.len() - i,
            tail_start(data@, max_lines as int) == tail_start_from(
                data@,
                i as int,
                newline_count as int,
                max_lines as int,
            ),
            tail_start(data@, max_lines as int) <= data@.len(),
        decreases i,
    {
        if data[i - 1] == BYTE_LF {
            if newline_count + 1 > max_lines {
                return i;
            }
            newline_count += 1;
        }
        i -= 1;
    }
    0
}

/// Tool `dmesg [N]`: the console log the kernel read into `buf` (`read`
/// bytes, none when `read` is not positive), cut to its last `max_lines`
/// lines when `max_lines` is not zero.
pub fn format_dmesg(read: i32, buf: &[u8], max_lines: usize) -> (r: Vec<u8>)
    requires
        read <= buf@.len(),
    ensures
        r@ == dmesg_report(read_bytes(read, buf@), max_lines as int),
{
    let mut output: Vec<u8> = Vec::new();
    if read <= 0 {
        append_str(&mut output, "[No kernel messages captured yet]\n");
        return output;
    }
    let data = &buf[0..read as usize];
    let start = if max_lines > 0 {
        find_tail_start(data, max_lines)
    } else {
        0
    };
    append_str(&mut output, "=== Kernel Log");
    if max_lines > 0 {
        append_str(&mut output, " (last ");
        append_bytes(&mut output, format_usize(max_lines).as_slice());
        append_str(&mut output, " lines)");
    }
    append_str(&mut output, " ===\n");
    let display = &data[start..data.len()];
    proof {
        if max_lines == 0 {
            assert(display@ == data@);
        }
    }
    append_bytes(&mut output, display);
    output
}

// ---------------------------------------------------------------------------
// files
// ---------------------------------------------------------------------------

/// How to call the `files` tool.
pub open spec fn files_usage_text() -> Seq<u8> {
    lit(
        "Usage: <tool>files PID</tool>\nExample: <tool>files 1</tool>\nLists all open file descriptors for the given process.\n",
    )
}

/// Tool `files` without a PID: how to call it.
pub fn files_usage() -> (r: Vec<u8>)
    ensures
        r@ == files_usage_text(),
{
    let mut out: Vec<u8> = Vec::new();
    append_str(
        &mut out,
        "Usage: <tool>files PID</tool>\nExample: <tool>files 1</tool>\nLists all open file descriptors for the given process.\n",
    );
    out
}

/// The `files` tool's report for `pid`, from the kernel's listing: `read`
/// bytes of `buf`, or a negated errno when `read` is negative.
pub open spec fn files_report(pid: i32, read: i32, buf: Seq<u8>) -> Seq<u8> {
    if read < 0 {
        lit("[Error: ") + (if read == -3 {
            lit("no process with PID ") + decimal((pid as usize) as nat)
        } else {
            lit("errno ") + decimal((-read) as nat)
        }) + lit("]\n")
    } else {
        lit("=== Open Files for PID ") + decimal((pid as usize) as nat) + lit(" ===\n")
            + buf.subrange(0, read as int)
    }
}

/// Tool `files PID`: the open file descriptors the kernel listed into `buf`
/// (`read` bytes, or a negated errno).
pub fn format_files(pid: i32, read: i32, buf: &[u8]) -> (r: Vec<u8>)
    requires
        read <= buf@.len(),
        read != i32::MIN,
    ensures
        r@ == files_report(pid, read, buf@),
{
    let mut output: Vec<u8> = Vec::new();
    if read < 0 {
        append_str(&mut output, "[Error: ");
        if read == -3 {
            append_str(&mut output, "no process with PID ");
            append_bytes(&mut output, format_usize(pid as usize).as_slice());
        } else {
            append_str(&mut output, "errno ");
            append_bytes(&mut output, format_usize((-read) as usize).as_slice());
        }
        append_str(&mut output, "]\n");
        return output;
    }
    append_str(&mut output, "=== Open Files for PID ");
    append_bytes(&mut output, format_usize(pid as usize).as_slice());
    append_str(&mut output, " ===\n");
    append_bytes(&mut output, &buf[0..read as usize]);
    output
}

// ---------------------------------------------------------------------------
// kprobe
// ---------------------------------------------------------------------------

/// How to call `kprobe attach`.
pub open spec fn kprobe_attach_usage_text() -> Seq<u8> {
    lit(
        "Usage: <tool>kprobe attach FUNCTION</tool>\nExample: <tool>kprobe attach do_sys_openat2</tool>\n",
    )
}

/// How to call `kprobe detach`.
pub open spec fn kprobe_detach_usage_text() -> Seq<u8> {
    lit(
        "Usage: <tool>kprobe detach FUNCTION</tool>\nExample: <tool>kprobe detach do_sys_openat2</tool>\n",
    )
}

/// How to call `kprobe`.
pub open spec fn kprobe_usage_text() -> Seq<u8> {
    lit("Usage: kprobe <subcommand>\nSubcommands:\n") + lit(
        "  <tool>kprobe attach FUNC</tool>  - attach kprobe to kernel function\n",
    ) + lit("  <tool>kprobe check</tool>         - show active kprobes and hit counts\n") + lit(
        "  <tool>kprobe detach FUNC</tool>  - remove kprobe from function\n\n",
    ) + lit("Example: <tool>kprobe attach do_sys_openat2</tool>\n")
}

/// `kprobe attach` without a function: how to call it.
pub fn kprobe_attach_usage() -> (r: Vec<u8>)
    ensures
        r@ == kprobe_attach_usage_text(),
{
    let mut out: Vec<u8> = Vec::new();
    append_str(
        &mut out,
        "Usage: <tool>kprobe attach FUNCTION</tool>\nExample: <tool>kprobe attach do_sys_openat2</tool>\n",
    );
    out
}

/// `kprobe detach` without a function: how to call it.
pub fn kprobe_detach_usage() -> (r: Vec<u8>)
    ensures
        r@ == kprobe_detach_usage_text(),
{
    let mut out: Vec<u8> = Vec::new();
    append_str(
        &mut out,
        "Usage: <tool>kprobe detach FUNCTION</tool>\nExample: <tool>kprobe detach do_sys_openat2</tool>\n",
    );
    out
}

/// `kprobe` with an unknown subcommand: how to call it.
pub fn kprobe_usage() -> (r: Vec<u8>)
    ensures
        r@ == kprobe_usage_text(),
{
    let mut out: Vec<u8> = Vec::new();
    append_str(&mut out, "Usage: kprobe <subcommand>\nSubcommands:\n");
    append_str(&mut out, "  <tool>kprobe attach FUNC</tool>  - attach kprobe to kernel function\n");
    append_str(&mut out, "  <tool>kprobe check</tool>         - show active kprobes and hit counts\n");
    append_str(&mut out, "  <tool>kprobe detach FUNC</tool>  - remove kprobe from function\n\n");
    append_str(&mut out, "Example: <tool>kprobe attach do_sys_openat2</tool>\n");
    out
}

/// Why attaching a kprobe failed, from the negated errno.
pub open spec fn kprobe_attach_error(ret: i32) -> Seq<u8> {
    if ret == -28 {
        lit("all kprobe slots full (max 8), detach one first")
    } else if ret == -17 {
        lit("kprobe already attached to this function")
    } else if ret == -2 {
        lit("function not found in kernel")
    } else if ret == -22 {
        lit("function cannot be probed (blacklisted)")
    } else {
        lit("errno ") + decimal((-ret) as nat)
    }
}

/// The answer to `kprobe attach FUNC` after the kernel returned `ret`.
pub open spec fn kprobe_attach_report(func: Seq<u8>, ret: i32) -> Seq<u8> {
    if ret < 0 {
        lit("[Error: failed to attach kprobe '") + func + lit("': ") + kprobe_attach_error(ret)
            + lit("]\n")
    } else {
        lit("Kprobe attached to '") + func + lit(
            "' successfully. Use <tool>kprobe check</tool> to see hit counts.\n",
        )
    }
}

/// Tool `kprobe attach FUNC`: the answer after the kernel returned `ret`
/// (0 or more on success, a negated errno on failure).
pub fn format_kprobe_attach(func: &[u8], ret: i32) -> (r: Vec<u8>)
    requires
        ret != i32::MIN,
    ensures
        r@ == kprobe_attach_report(func@, ret),
{
    let mut output: Vec<u8> = Vec::new();
    if ret < 0 {
        append_str(&mut output, "[Error: failed to attach kprobe '");
        append_bytes(&mut output, func);
        append_str(&mut output, "': ");
        if ret == -28 {
            append_str(&mut output, "all kprobe slots full (max 8), detach one first");
        } else if ret == -17 {
            append_str(&mut output, "kprobe already attached to this function");
        } else if ret == -2 {
            append_str(&mut output, "function not found in kernel");
        } else if ret == -22 {
            append_str(&mut output, "function cannot be probed (blacklisted)");
        } else {
            append_str(&mut output, "errno ");
            append_bytes(&mut output, format_usize((-ret) as usize).as_slice());
        }
        append_str(&mut output, "]\n");
    } else {
        append_str(&mut output, "Kprobe attached to '");
        append_bytes(&mut output, func);
        append_str(
            &mut output,
            "' successfully. Use <tool>kprobe check</tool> to see hit counts.\n",
        );
    }
    output
}

/// The answer to `kprobe check` from the kernel's listing of active probes.
pub open spec fn kprobe_check_report(read: i32, buf: Seq<u8>) -> Seq<u8> {
    lit("=== Active Kprobes ===\n") + (if read <= 0 {
        lit("[No active kprobes]\n")
    } else {
        buf.subrange(0, read as int)
    })
}

/// Tool `kprobe check`: the active kprobes the kernel listed into `buf`.
pub fn format_kprobe_check(read: i32, buf: &[u8]) -> (r: Vec<u8>)
    requires
        read <= buf@.len(),
    ensures
        r@ == kprobe_check_report(read, buf@),
{
    let mut output: Vec<u8> = Vec::new();
    append_str(&mut output, "=== Active Kprobes ===\n");
    if read <= 0 {
        append_str(&mut output, "[No active kprobes]\n");
    } else {
        append_bytes(&mut output, &buf[0..read as usize]);
    }
    output
}

/// The answer to `kprobe detach FUNC` after the kernel returned `ret`.
pub open spec fn kprobe_detach_report(func: Seq<u8>, ret: i32) -> Seq<u8> {
    if ret < 0 {
        lit("[Error: no active kprobe on '") + func + lit("']\n")
    } else {
        lit("Kprobe detached from '") + func + lit("'.\n")
    }
}

/// Tool `kprobe detach FUNC`: the answer after the kernel returned `ret`.
pub fn format_kprobe_detach(func: &[u8], ret: i32) -> (r: Vec<u8>)
    ensures
        r@ == kprobe_detach_report(func@, ret),
{
    let mut output: Vec<u8> = Vec::new();
    if ret < 0 {
        append_str(&mut output, "[Error: no active kprobe on '");
        append_bytes(&mut output, func);
        append_str(&mut output, "']\n");
    } else {
        append_str(&mut output, "Kprobe detached from '");
        append_bytes(&mut output, func);
        append_str(&mut output, "'.\n");
    }
    output
}

// ---------------------------------------------------------------------------
// trace
// ---------------------------------------------------------------------------

/// How to call `trace`.
pub open spec fn trace_usage_text() -> Seq<u8> {
    lit("Usage: trace <subsystem> [raw N]\nSubsystems:\n") + lit(
        "  <tool>trace sched</tool>        - scheduler context switches\n",
    ) + lit("  <tool>trace sched raw 20</tool> - last 20 raw events\n") + lit(
        "  <tool>trace syscall</tool>      - syscall patterns\n",
    ) + lit("  <tool>trace io</tool>           - I/O latency + histogram\n") + lit(
        "  <tool>trace tokens 20</tool>    - last 20 semantic tokens\n",
    ) + lit("  <tool>trace ngram</tool>        - n-gram surprise scores\n") + lit(
        "  <tool>trace ngram stats</tool>  - n-gram model statistics\n",
    ) + lit("  <tool>trace ngram alerts</tool> - recent anomaly alerts\n") + lit(
        "  <tool>trace reset</tool>        - zero counters\n",
    ) + lit("  <tool>trace list</tool>         - active tracepoints\n")
}

/// What `trace` says when a sensor had nothing to report.
pub open spec fn trace_empty_text(q: TraceQuery) -> Seq<u8> {
    match q {
        TraceQuery::SchedSummary | TraceQuery::SchedRaw { .. } => lit("[No scheduler trace data]\n"),
        TraceQuery::SyscallSummary | TraceQuery::SyscallRaw { .. } => lit(
            "[No syscall trace data]\n",
        ),
        TraceQuery::IoSummary | TraceQuery::IoRaw { .. } => lit("[No I/O trace data]\n"),
        TraceQuery::Tokens { .. } => lit("[No token data]\n"),
        _ => lit("[No n-gram data]\n"),
    }
}

/// The answer to a `trace` query, from what the sensor wrote into `buf`
/// (`read` bytes; nothing when `read` is not positive). Resetting, listing
/// and the usage text read no sensor.
pub open spec fn trace_report(q: TraceQuery, read: i32, buf: Seq<u8>) -> Seq<u8> {
    match q {
        TraceQuery::Reset => lit("Trace counters reset. Tracepoints still active.\n"),
        TraceQuery::List => lit("Active tracepoints: sched_switch, sys_enter, block_rq_complete\n")
            + lit("All registered at module load. Always-on continuous sensing.\n"),
        TraceQuery::Usage => trace_usage_text(),
        _ => if read > 0 {
            buf.subrange(0, read as int)
        } else {
            trace_empty_text(q)
        },
    }
}

fn append_trace_usage(out: &mut Vec<u8>)
    ensures
        final(out)@ == old(out)@ + trace_usage_text(),
{
    let ghost start = out@;
    append_str(out, "Usage: trace <subsystem> [raw N]\nSubsystems:\n");
    append_str(out, "  <tool>trace sched</tool>        - scheduler context switches\n");
    append_str(out, "  <tool>trace sched raw 20</tool> - last 20 raw events\n");
    append_str(out, "  <tool>trace syscall</tool>      - syscall patterns\n");
    append_str(out, "  <tool>trace io</tool>           - I/O latency + histogram\n");
    append_str(out, "  <tool>trace tokens 20</tool>    - last 20 semantic tokens\n");
    append_str(out, "  <tool>trace ngram</tool>        - n-gram surprise scores\n");
    append_str(out, "  <tool>trace ngram stats</tool>  - n-gram model statistics\n");
    append_str(out, "  <tool>trace ngram alerts</tool> - recent anomaly alerts\n");
    append_str(out, "  <tool>trace reset</tool>        - zero counters\n");
    append_str(out, "  <tool>trace list</tool>         - active tracepoints\n");
    assert(out@ == start + trace_usage_text());
}

/// Tool `trace`: the answer to query `q`, from what the sensor wrote into
/// `buf` (`read` bytes).
pub fn format_trace(q: &TraceQuery, read: i32, buf: &[u8]) -> (r: Vec<u8>)
    requires
        read <= buf@.len(),
    ensures
        r@ == trace_report(*q, read, buf@),
{
    let mut output: Vec<u8> = Vec::new();
    match q {
        TraceQuery::Reset => {
            append_str(&mut output, "Trace counters reset. Tracepoints still active.\n");
        },
        TraceQuery::List => {
            append_str(
                &mut output,
                "Active tracepoints: sched_switch, sys_enter, block_rq_complete\n",
            );
            append_str(&mut output, "All registered at module load. Always-on continuous sensing.\n");
        },
        TraceQuery::Usage => {
            append_trace_usage(&mut output);
        },
        _ => {
            if read > 0 {
                append_bytes(&mut output, &buf[0..read as usize]);
            } else {
                match q {
                    TraceQuery::SchedSummary | TraceQuery::SchedRaw { .. } => {
                        append_str(&mut output, "[No scheduler trace data]\n");
                    },
                    TraceQuery::SyscallSummary | TraceQuery::SyscallRaw { .. } => {
                        append_str(&mut output, "[No syscall trace data]\n");
                    },
                    TraceQuery::IoSummary | TraceQuery::IoRaw { .. } => {
                        append_str(&mut output, "[No I/O trace data]\n");
                    },
                    TraceQuery::Tokens { .. } => {
                        append_str(&mut output, "[No token data]\n");
                    },
                    _ => {
                        append_str(&mut output, "[No n-gram data]\n");
                    },
                }
            }
        },
    }
    output
}

// ---------------------------------------------------------------------------
// Running a tool
// ---------------------------------------------------------------------------

/// What the kernel gave back for a planned tool action.
pub enum ToolReading {
    /// The task list, for `ps`.
    Tasks(Vec<TaskInfo>),
    /// Memory statistics, for `mem`.
    Memory(MemInfo),
    /// Load averages, online CPUs and nanoseconds since boot, for `loadavg`.
    Load { avg: [usize; 3], cpus: usize, uptime_ns: u64 },
    /// What a kernel helper wrote into `buf`: `read` bytes, or a negated errno.
    Bytes { read: i32, buf: Vec<u8> },
    /// The return code of a kprobe attach or detach.
    Status(i32),
    /// Nothing was read.
    Nothing,
}

/// The byte count and buffer of a reading (none for other readings).
pub open spec fn reading_bytes(r: ToolReading) -> (i32, Seq<u8>) {
    match r {
        ToolReading::Bytes { read, buf } => (read, buf@),
        _ => (0i32, seq![]),
    }
}

/// Whether `r` is what the kernel gives back for action `a`.
pub open spec fn reading_fits(a: ToolAction, r: ToolReading) -> bool {
    let (read, buf) = reading_bytes(r);
    match a {
        ToolAction::Ps => r is Tasks,
        ToolAction::Mem => r matches ToolReading::Memory(info) && crate::context::mem_info_fits(
            info,
        ),
        ToolAction::Loadavg => r is Load,
        ToolAction::Dmesg { .. } | ToolAction::KprobeCheck => r is Bytes && read <= buf.len(),
        ToolAction::Files { .. } => r is Bytes && read <= buf.len() && read != i32::MIN,
        ToolAction::KprobeAttach { .. } => r matches ToolReading::Status(ret) && ret != i32::MIN,
        ToolAction::KprobeDetach { .. } => r is Status,
        ToolAction::Trace(_) => (r is Bytes && read <= buf.len()) || r is Nothing,
        _ => true,
    }
}

/// A tool's answer to action `a` from the kernel's reading `r`, before it
/// is finished for the model.
pub open spec fn tool_report(a: ToolAction, r: ToolReading) -> Seq<u8> {
    let (read, buf) = reading_bytes(r);
    match a {
        ToolAction::Ps => match r {
            ToolReading::Tasks(tasks) => ps_listing(tasks@),
            _ => seq![],
        },
        ToolAction::Mem => match r {
            ToolReading::Memory(info) => mem_report(info),
            _ => seq![],
        },
        ToolAction::Loadavg => match r {
            ToolReading::Load { avg, cpus, uptime_ns } => loadavg_report(avg, cpus, uptime_ns),
            _ => seq![],
        },
        ToolAction::Dmesg { max_lines } => dmesg_report(read_bytes(read, buf), max_lines as int),
        ToolAction::FilesUsage => files_usage_text(),
        ToolAction::Files { pid } => files_report(pid, read, buf),
        ToolAction::KprobeAttach { func } => match r {
            ToolReading::Status(ret) => kprobe_attach_report(func@, ret),
            _ => seq![],
        },
        ToolAction::KprobeAttachUsage => kprobe_attach_usage_text(),
        ToolAction::KprobeCheck => kprobe_check_report(read, buf),
        ToolAction::KprobeDetach { func } => match r {
            ToolReading::Status(ret) => kprobe_detach_report(func@, ret),
            _ => seq![],
        },
        ToolAction::KprobeDetachUsage => kprobe_detach_usage_text(),
        ToolAction::KprobeUsage => kprobe_usage_text(),
        ToolAction::Trace(q) => trace_report(q, read, buf),
        ToolAction::Unknown { name } => unknown_tool_text(name@),
    }
}

fn tool_report_exec(a: &ToolAction, r: &ToolReading) -> (out: Vec<u8>)
    requires
        reading_fits(*a, *r),
    ensures
        out@ == tool_report(*a, *r),
{
    match a {
        ToolAction::Ps => match r {
            ToolReading::Tasks(tasks) => format_ps(tasks.as_slice()),
            _ => Vec::new(),
        },
        ToolAction::Mem => match r {
            ToolReading::Memory(info) => format_mem(info),
            _ => Vec::new(),
        },
        ToolAction::Loadavg => match r {
            ToolReading::Load { avg, cpus, uptime_ns } => format_loadavg(*avg, *cpus, *uptime_ns),
            _ => Vec::new(),
        },
        ToolAction::Dmesg { max_lines } => match r {
            ToolReading::Bytes { read, buf } => format_dmesg(*read, buf.as_slice(), *max_lines),
            _ => Vec::new(),
        },
        ToolAction::FilesUsage => files_usage(),
        ToolAction::Files { pid } => match r {
            ToolReading::Bytes { read, buf } => format_files(*pid, *read, buf.as_slice()),
            _ => Vec::new(),
        },
        ToolAction::KprobeAttach { func } => match r {
            ToolReading::Status(ret) => format_kprobe_attach(func, *ret),
            _ => Vec::new(),
        },
        ToolAction::KprobeAttachUsage => kprobe_attach_usage(),
        ToolAction::KprobeCheck => match r {
            ToolReading::Bytes { read, buf } => format_kprobe_check(*read, buf.as_slice()),
            _ => Vec::new(),
        },
        ToolAction::KprobeDetach { func } => match r {
            ToolReading::Status(ret) => format_kprobe_detach(func, *ret),
            _ => Vec::new(),
        },
        ToolAction::KprobeDetachUsage => kprobe_detach_usage(),
        ToolAction::KprobeUsage => kprobe_usage(),
        ToolAction::Trace(q) => match r {
            ToolReading::Bytes { read, buf } => format_trace(q, *read, buf.as_slice()),
            _ => format_trace(q, 0, &[]),
        },
        ToolAction::Unknown { name } => unknown_tool_output(name),
    }
}

/// Run a planned tool action on what the kernel read for it: the tool's
/// report, finished for the model (`[No output]` when empty, cut to the
/// per-tool limit with a marker when too long).
pub fn execute_tool(a: &ToolAction, r: &ToolReading) -> (out: Vec<u8>)
    requires
        reading_fits(*a, *r),
    ensures
        out@ == finished_output(tool_report(*a, *r)),
{
    finish_tool_output(tool_report_exec(a, r))
}

} // verus!
