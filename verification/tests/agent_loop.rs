use hackbot::memory::{extract_summary, AgentMemory, SOURCE_PATROL, SOURCE_USER};
use hackbot::vllm::{after_local, system_prompt, use_local_backend, AgentStep, LocalOutcome, VllmAgent};

fn text(v: &[u8]) -> String {
    String::from_utf8(v.to_vec()).unwrap()
}

#[test]
fn summaries_are_first_sentences() {
    assert_eq!(extract_summary(b"Load average elevated. httpd dominating CPU."), b"Load average elevated.");
    assert_eq!(extract_summary(b"one line\nsecond"), b"one line");
    assert_eq!(extract_summary(b"v1.2 is out"), b"v1.2 is out");
    assert_eq!(extract_summary(&[b'x'; 200]).len(), 128);
}

#[test]
fn memory_for_the_prompt() {
    let mut m = AgentMemory::new();
    let mut empty = b"head".to_vec();
    m.format_for_prompt(&mut empty);
    assert_eq!(text(&empty), "head");

    m.record_finding(
        42 * 60 * 1_000_000_000 + 5,
        SOURCE_PATROL.as_bytes(),
        b"Load average elevated. httpd dominating CPU.",
        b"ps,loadavg",
        3,
    );
    m.record_finding(45 * 60 * 1_000_000_000, SOURCE_USER.as_bytes(), b"55% RAM used.", b"", 0);
    let mut buf = Vec::new();
    m.format_for_prompt(&mut buf);
    assert_eq!(
        text(&buf),
        "=== AGENT MEMORY (2 findings) ===\n[+42m] (patrol) Load average elevated.\n  tools: ps,loadavg | 3 calls\n\n[+45m] (user) 55% RAM used.\n===\n\n"
    );
}

#[test]
fn memory_keeps_the_latest_findings_in_order() {
    let mut m = AgentMemory::new();
    for i in 0..10u64 {
        let finding = format!("finding {}.", i);
        m.record_finding(i * 60 * 1_000_000_000, b"user", finding.as_bytes(), b"", 0);
    }
    assert_eq!(m.len(), 8);
    assert_eq!(m.total_recorded(), 10);
    let mut buf = Vec::new();
    m.format_for_prompt(&mut buf);
    let mut expected = "=== AGENT MEMORY (8 findings) ===\n".to_string();
    for i in 2..10 {
        if i > 2 {
            expected.push('\n');
        }
        expected.push_str(&format!("[+{}m] (user) finding {}.\n", i, i));
    }
    expected.push_str("===\n\n");
    assert_eq!(text(&buf), expected);
}

#[test]
fn long_sources_are_clipped() {
    let mut m = AgentMemory::new();
    m.record_finding(0, b"a-very-long-source", b"x", b"", 0);
    let mut buf = Vec::new();
    m.format_for_prompt(&mut buf);
    assert!(text(&buf).contains("(a-very-l) x\n"));
}

#[test]
fn system_prompt_holds_memory() {
    let mut m = AgentMemory::new();
    m.record_finding(60_000_000_000, b"user", b"Nominal.", b"", 0);
    let p = text(&system_prompt(b"CTX\n", &m));
    assert!(p.starts_with("You are hackbot, an autonomous AI agent living inside the Linux kernel (ring 0)."));
    assert!(p.contains("CTX\n=== AGENT MEMORY (1 findings) ===\n[+1m] (user) Nominal.\n===\n\nTOOLS -- to get live kernel data"));
    assert!(p.ends_with("Never fabricate data.\n"));
}

#[test]
fn vllm_agent_final_answer() {
    let mut a = VllmAgent::new(b"hi", b"SYS");
    let msgs = a.next_call();
    assert_eq!(
        text(&msgs),
        "[{\"role\":\"system\",\"content\":\"SYS\"},{\"role\":\"user\",\"content\":\"hi\"}]"
    );
    match a.on_reply(Ok(b"All good.".to_vec())) {
        AgentStep::Done { answer, record } => {
            assert_eq!(answer, Ok(b"All good.".to_vec()));
            assert!(record);
        }
        _ => panic!("a final answer ends the loop"),
    }
}

#[test]
fn vllm_agent_tool_round() {
    let mut a = VllmAgent::new(b"hi", b"SYS");
    let _ = a.next_call();
    match a.on_reply(Ok(b"Looking. <tool>ps</tool>".to_vec())) {
        AgentStep::RunTool(name) => assert_eq!(name, b"ps".to_vec()),
        _ => panic!("a tool call"),
    }
    match a.on_tool_output(b"PID 1\n") {
        AgentStep::Call(m) => assert_eq!(
            text(&m),
            "[{\"role\":\"system\",\"content\":\"SYS\"},{\"role\":\"user\",\"content\":\"hi\"},{\"role\":\"assistant\",\"content\":\"Looking. <tool>ps</tool>\"},{\"role\":\"user\",\"content\":\"[Tool: ps]\\nPID 1\\n[End Tool]\\nAbove is live data from the kernel. Analyze it thoughtfully and respond to the user.\"}]"
        ),
        _ => panic!("the next round"),
    }
    assert_eq!(a.iteration, 1);
    match a.on_reply(Ok(b"Done.".to_vec())) {
        AgentStep::Done { answer, .. } => assert_eq!(answer, Ok(b"Looking. Done.".to_vec())),
        _ => panic!("a final answer"),
    }
}

#[test]
fn vllm_agent_errors_and_last_round() {
    let mut a = VllmAgent::new(b"hi", b"SYS");
    match a.on_reply(Err(111)) {
        AgentStep::Done { answer, record } => {
            assert_eq!(answer, Err(111));
            assert!(!record);
        }
        _ => panic!("an error ends the loop"),
    }
    let mut b = VllmAgent::new(b"hi", b"SYS");
    b.final_answer = b"Partial".to_vec();
    match b.on_reply(Err(5)) {
        AgentStep::Done { answer, .. } => assert_eq!(
            answer,
            Ok(b"Partial\n[hackbot] vLLM error during agent loop.\n\n[hackbot] Agent stopped after maximum iterations.\n".to_vec())
        ),
        _ => panic!("an error ends the loop"),
    }
    let mut c = VllmAgent::new(b"hi", b"SYS");
    c.iteration = 7;
    let _ = c.on_reply(Ok(b"Pre <tool>mem</tool>".to_vec()));
    match c.on_tool_output(b"MEM") {
        AgentStep::Done { answer, record } => {
            assert_eq!(answer, Ok(b"Pre \n\nMEM".to_vec()));
            assert!(record);
        }
        _ => panic!("the last round answers with the tool output"),
    }
    let d = VllmAgent::new(b"hi", b"SYS");
    match d.out_of_rounds() {
        AgentStep::Done { answer, record } => {
            assert_eq!(answer, Ok(b"[hackbot] Agent completed maximum iterations without a final answer.\n".to_vec()));
            assert!(!record);
        }
        _ => panic!("no rounds left"),
    }
}

#[test]
fn choosing_the_backend() {
    assert!(use_local_backend(0, true));
    assert!(!use_local_backend(0, false));
    assert!(use_local_backend(1, false));
    assert!(!use_local_backend(2, true));
    match after_local(0, Ok(b"x".to_vec())) {
        LocalOutcome::Answer(a) => assert_eq!(a, Ok(b"x".to_vec())),
        LocalOutcome::FallBack => panic!("a local answer stands"),
    }
    assert!(matches!(after_local(0, Ok(Vec::new())), LocalOutcome::FallBack));
    assert!(matches!(after_local(0, Err(12)), LocalOutcome::FallBack));
    match after_local(1, Ok(Vec::new())) {
        LocalOutcome::Answer(a) => assert_eq!(a, Ok(b"[hackbot] Local inference produced no output.\n".to_vec())),
        LocalOutcome::FallBack => panic!("local-only mode reports"),
    }
    match after_local(1, Err(12)) {
        LocalOutcome::Answer(a) => assert_eq!(a, Err(12)),
        LocalOutcome::FallBack => panic!("local-only mode passes errors on"),
    }
}

#[test]
fn patrol_keeps_only_real_answers() {
    let mut m = AgentMemory::new();
    assert!(!m.record_patrol_answer(0, &Err(111)));
    assert!(!m.record_patrol_answer(0, &Ok(Vec::new())));
    assert_eq!(m.len(), 0);
    assert!(m.record_patrol_answer(120_000_000_000, &Ok(b"All quiet. Nothing else.".to_vec())));
    assert_eq!(m.len(), 1);
    let mut buf = Vec::new();
    m.format_for_prompt(&mut buf);
    assert_eq!(text(&buf), "=== AGENT MEMORY (1 findings) ===\n[+2m] (patrol) All quiet.\n===\n\n");
}
