use hackbot::context::{gather_kernel_context, MemInfo};
use hackbot::net::{
    append_ipv4, append_message_to_json, extract_text_from_json, find_http_body, find_json_string_end,
    find_subsequence, format_usize, json_escape, json_unescape, parse_http_status,
};
use hackbot::tools::{
    execute_tool, finish_tool_output, format_loadavg, parse_tool_call, parse_usize, plan_tool,
    split_tool_args, trim_ascii, unknown_tool_output, TaskInfo, ToolAction, ToolCallResult, ToolReading,
};
use hackbot::vllm::{
    begin_prompt, build_models_request, build_vllm_request, finish_prompt, read_model_name,
    read_vllm_reply, PromptStep,
};

fn text(v: &[u8]) -> String {
    String::from_utf8(v.to_vec()).unwrap()
}

#[test]
fn decimal_numbers() {
    assert_eq!(format_usize(0), b"0".to_vec());
    assert_eq!(format_usize(12345), b"12345".to_vec());
    assert_eq!(format_usize(usize::MAX), usize::MAX.to_string().into_bytes());
}

#[test]
fn dotted_ipv4() {
    let mut buf = b"at ".to_vec();
    append_ipv4(&mut buf, 0x6467B40B);
    assert_eq!(text(&buf), "at 100.103.180.11");
    let mut zero = Vec::new();
    append_ipv4(&mut zero, 0);
    assert_eq!(text(&zero), "0.0.0.0");
}

#[test]
fn json_escaping() {
    let mut out = Vec::new();
    json_escape(b"a\"b\\c\nd\re\tf\x01g", &mut out);
    assert_eq!(text(&out), "a\\\"b\\\\c\\nd\\re\\tfg");
}

#[test]
fn json_unescaping_keeps_unknown_escapes() {
    let mut out = Vec::new();
    json_unescape(b"x\\n\\\"\\/\\u0041\\", &mut out);
    assert_eq!(text(&out), "x\n\"/\\u0041\\");
}

#[test]
fn json_escape_then_unescape_gives_the_text_back() {
    let message = b"say \"hi\"\\ then\nnew line\tand\rreturn".to_vec();
    let mut escaped = Vec::new();
    json_escape(&message, &mut escaped);
    let mut back = Vec::new();
    json_unescape(&escaped, &mut back);
    assert_eq!(back, message);
}

#[test]
fn chat_messages_array() {
    let mut m = Vec::new();
    append_message_to_json(&mut m, b"user", b"hi \"there\"");
    assert_eq!(text(&m), "[{\"role\":\"user\",\"content\":\"hi \\\"there\\\"\"}]");
    append_message_to_json(&mut m, b"assistant", b"yo");
    assert_eq!(
        text(&m),
        "[{\"role\":\"user\",\"content\":\"hi \\\"there\\\"\"},{\"role\":\"assistant\",\"content\":\"yo\"}]"
    );
}

#[test]
fn subsequence_search() {
    assert_eq!(find_subsequence(b"hello world", b"wor"), Some(6));
    assert_eq!(find_subsequence(b"hello", b"hello"), Some(0));
    assert_eq!(find_subsequence(b"hello", b""), None);
    assert_eq!(find_subsequence(b"hi", b"hello"), None);
    assert_eq!(find_subsequence(b"abcabc", b"ca"), Some(2));
}

#[test]
fn json_string_end_skips_escapes() {
    assert_eq!(find_json_string_end(b"ab\\\"c\"d", 0), Some(5));
    assert_eq!(find_json_string_end(b"abc", 0), None);
    assert_eq!(find_json_string_end(b"x\\", 0), None);
}

#[test]
fn http_body_and_status() {
    assert_eq!(find_http_body(b"HTTP/1.1 200 OK\r\nA: b\r\n\r\nbody"), b"body");
    assert_eq!(find_http_body(b"no separator"), b"no separator");
    assert_eq!(find_http_body(b"abc"), b"abc");
    assert_eq!(parse_http_status(b"HTTP/1.1 404 Not Found"), 404);
    assert_eq!(parse_http_status(b"HTTP/1.0 200 OK"), 200);
    assert_eq!(parse_http_status(b"HTTP/2 200 OK..."), 0);
    assert_eq!(parse_http_status(b"HTTP/1.1 2x0 OK"), 0);
    assert_eq!(parse_http_status(b"HTTP/1.1"), 0);
}

#[test]
fn text_field_of_a_completion() {
    let json = b"{\"choices\":[{\"message\":{\"role\":\"assistant\",\"content\":\"Hi \\\"x\\\"\"}}]}";
    assert_eq!(extract_text_from_json(json), Some(&b"Hi \\\"x\\\""[..]));
    assert_eq!(extract_text_from_json(b"{\"text\": \"plain\"}"), Some(&b"plain"[..]));
    assert_eq!(extract_text_from_json(b"{\"other\":1}"), None);
    assert_eq!(extract_text_from_json(b"{\"content\":\"open"), None);
}

#[test]
fn completion_replies() {
    let ok = b"HTTP/1.1 200 OK\r\n\r\n{\"content\":\"line\\nnext\"}";
    assert_eq!(read_vllm_reply(ok), Ok(b"line\nnext".to_vec()));
    let raw = b"HTTP/1.1 200 OK\r\n\r\n{\"x\":1}";
    assert_eq!(read_vllm_reply(raw), Ok(b"[hackbot] Raw response: {\"x\":1}".to_vec()));
    let err = b"HTTP/1.1 500 Internal\r\n\r\noops";
    assert_eq!(read_vllm_reply(err), Ok(b"[HTTP 500] oops".to_vec()));
    assert_eq!(read_vllm_reply(b"garbage"), Err(5));
}

#[test]
fn served_model_name() {
    let list = b"HTTP/1.1 200 OK\r\n\r\n{\"data\":[{\"id\":\"gemma\\/4\",\"object\":\"model\"}]}";
    assert_eq!(read_model_name(list), Ok(b"gemma/4".to_vec()));
    assert_eq!(read_model_name(b"HTTP/1.1 404 Not Found\r\n\r\n"), Err(5));
    assert_eq!(read_model_name(b"HTTP/1.1 200 OK\r\n\r\n{\"data\":[]}"), Err(5));
}

#[test]
fn requests_to_the_server() {
    assert_eq!(
        text(&build_models_request()),
        "GET /v1/models HTTP/1.1\r\nHost: 100.103.180.11\r\nConnection: close\r\n\r\n"
    );
    let body = "{\"model\":\"m\\\"x\",\"messages\":[],\"max_tokens\":2048,\"temperature\":0.7,\"repetition_penalty\":1.1,\"stop\":[\"</tool>\"]}";
    let expected = format!(
        "POST /v1/chat/completions HTTP/1.1\r\nHost: 100.103.180.11\r\nContent-Type: application/json\r\nConnection: close\r\nContent-Length: {}\r\n\r\n{}",
        body.len(),
        body
    );
    assert_eq!(text(&build_vllm_request(b"m\"x", b"[]")), expected);
}

#[test]
fn prompts_and_replies() {
    match begin_prompt(b"\n") {
        PromptStep::Reply(r) => assert_eq!(text(&r), "[hackbot] Empty prompt.\n"),
        PromptStep::Ask(_) => panic!("an empty prompt is answered at once"),
    }
    match begin_prompt(b"what runs?\n") {
        PromptStep::Ask(p) => assert_eq!(p, b"what runs?"),
        PromptStep::Reply(_) => panic!("a prompt goes to the agent"),
    }
    assert_eq!(text(&finish_prompt(Ok(b"done".to_vec()))), "done\n");
    assert_eq!(text(&finish_prompt(Ok(b"done\n".to_vec()))), "done\n");
    assert_eq!(
        text(&finish_prompt(Err(19))),
        "[hackbot] Inference error: 19 (errno)\nNo model loaded and no vLLM available.\n"
    );
    assert_eq!(
        text(&finish_prompt(Err(111))),
        "[hackbot] Inference error: 111 (errno)\nConnection refused - is vLLM running on port 8000?\n"
    );
    assert_eq!(
        text(&finish_prompt(Err(110))),
        "[hackbot] Inference error: 110 (errno)\nConnection timed out - check network/firewall.\n"
    );
    assert_eq!(text(&finish_prompt(Err(5))), "[hackbot] Inference error: 5 (errno)\n");
}

fn sample_memory() -> MemInfo {
    MemInfo {
        totalram: 4 * 262144,
        freeram: 262144 + 128,
        sharedram: 256,
        bufferram: 512,
        totalswap: 262144,
        freeswap: 262144,
        mem_unit: 4096,
    }
}

#[test]
fn live_kernel_context() {
    let ctx = gather_kernel_context(b"6.8.0-hackbot", 90_061_500_000_000, 4, &sample_memory(), 42, b"bash\0junk");
    assert_eq!(
        text(&ctx),
        "=== LIVE KERNEL STATE ===\nKernel: Linux 6.8.0-hackbot x86_64\nUptime: 1d 1h 1m 1s\nCPUs: 4 online\nMemory: 3071 MB used / 4096 MB total\nCaller: pid=42 (bash)\n=========================\n\n"
    );
    let short = gather_kernel_context(b"6.1", 59_000_000_000, 1, &sample_memory(), 1, b"init");
    assert!(text(&short).contains("Uptime: 0h 0m 59s\n"));
}

#[test]
fn tool_calls_in_responses() {
    match parse_tool_call(b"Let me check. <tool>ps</tool> more") {
        ToolCallResult::ToolCall { name, prefix } => {
            assert_eq!(name, b"ps");
            assert_eq!(prefix, b"Let me check. ");
        }
        ToolCallResult::FinalAnswer(_) => panic!("a tool call was made"),
    }
    match parse_tool_call(b"<tool>  files 12 \nrest") {
        ToolCallResult::ToolCall { name, prefix } => {
            assert_eq!(name, b"files 12");
            assert_eq!(prefix, b"");
        }
        ToolCallResult::FinalAnswer(_) => panic!("a tool call was made"),
    }
    match parse_tool_call(b"All is well.") {
        ToolCallResult::FinalAnswer(t) => assert_eq!(t, b"All is well."),
        ToolCallResult::ToolCall { .. } => panic!("no tool call"),
    }
    match parse_tool_call(b"empty <tool>  </tool>") {
        ToolCallResult::FinalAnswer(t) => assert_eq!(t, b"empty <tool>  </tool>"),
        ToolCallResult::ToolCall { .. } => panic!("an empty name is no call"),
    }
}

#[test]
fn tool_arguments() {
    assert_eq!(trim_ascii(b"  x y \t"), b"x y");
    assert_eq!(split_tool_args(b"files  1234 "), (&b"files"[..], &b"1234"[..]));
    assert_eq!(split_tool_args(b"ps"), (&b"ps"[..], &b""[..]));
    assert_eq!(parse_usize(b"1234"), 1234);
    assert_eq!(parse_usize(b"12ab"), 12);
    assert_eq!(parse_usize(b"x"), 0);
}

#[test]
fn planning_tool_invocations() {
    assert!(matches!(plan_tool(b"ps"), ToolAction::Ps));
    assert!(matches!(plan_tool(b"dmesg 5"), ToolAction::Dmesg { max_lines: 5 }));
    assert!(matches!(plan_tool(b"files 77"), ToolAction::Files { pid: 77 }));
    assert!(matches!(plan_tool(b"files abc"), ToolAction::FilesUsage));
    assert!(matches!(plan_tool(b"kprobe check"), ToolAction::KprobeCheck));
    match plan_tool(b"kprobe attach do_sys_open") {
        ToolAction::KprobeAttach { func } => assert_eq!(func, b"do_sys_open"),
        _ => panic!("an attach"),
    }
    match plan_tool(b"bogus 1") {
        ToolAction::Unknown { name } => assert_eq!(name, b"bogus"),
        _ => panic!("an unknown tool"),
    }
}

#[test]
fn memory_tool_report() {
    let out = execute_tool(&ToolAction::Mem, &ToolReading::Memory(sample_memory()));
    assert_eq!(
        text(&out),
        "=== Memory Statistics ===\nTotal RAM:   4096 MB\nUsed RAM:    3072 MB\nFree RAM:    1024 MB\nShared:      1 MB\nBuffers:     2 MB\nSwap Total:  1024 MB\nSwap Used:   0 MB\nSwap Free:   1024 MB\nRAM Usage:   75%\n"
    );
}

#[test]
fn process_list_report() {
    let tasks = vec![
        TaskInfo { pid: 1, ppid: 0, state: 1, comm: b"systemd\0\0".to_vec(), user: true },
        TaskInfo { pid: 2, ppid: 0, state: 0x402, comm: b"kthreadd".to_vec(), user: false },
        TaskInfo { pid: 1234, ppid: 1, state: 0, comm: b"bash".to_vec(), user: true },
    ];
    let out = execute_tool(&ToolAction::Ps, &ToolReading::Tasks(tasks));
    assert_eq!(
        text(&out),
        "=== User-Space Processes ===\nPID      PPID     STATE  COMM\n1       0       S      systemd\n1234    1       R      bash\n\n=== Kernel Threads ===\nPID      PPID     STATE  COMM\n2       0       I      kthreadd\n"
    );
}

#[test]
fn load_averages() {
    let out = format_loadavg([3072, 2068, 0], 8, 3_661_000_000_000);
    assert_eq!(
        text(&out),
        "=== Load Averages ===\n1 min:   1.50\n5 min:   1.00\n15 min:  0.00\nOnline CPUs: 8\nUptime:      1h 1m 1s\n"
    );
}

#[test]
fn finishing_tool_output() {
    assert_eq!(text(&finish_tool_output(Vec::new())), "[No output]\n");
    assert_eq!(text(&finish_tool_output(b"ok".to_vec())), "ok");
    let long = finish_tool_output(vec![b'a'; 7000]);
    assert_eq!(long.len(), 6144);
    assert!(text(&long).ends_with("a\n[... truncated]\n"));
    assert_eq!(
        text(&unknown_tool_output(b"x")),
        "[Error: unknown tool 'x'. Available tools: ps, mem, loadavg, dmesg, files, kprobe, trace]\n"
    );
    let unknown = execute_tool(&ToolAction::Unknown { name: b"zz" }, &ToolReading::Nothing);
    assert_eq!(
        text(&unknown),
        "[Error: unknown tool 'zz'. Available tools: ps, mem, loadavg, dmesg, files, kprobe, trace]\n"
    );
}
