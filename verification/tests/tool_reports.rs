use hackbot::tools::{execute_tool, plan_tool, ToolAction, ToolReading, TraceQuery};

fn text(v: &[u8]) -> String {
    String::from_utf8(v.to_vec()).unwrap()
}

fn bytes(read: i32, content: &[u8]) -> ToolReading {
    let mut buf = content.to_vec();
    buf.resize(64, 0);
    ToolReading::Bytes { read, buf }
}

fn run(invocation: &[u8], reading: ToolReading) -> String {
    text(&execute_tool(&plan_tool(invocation), &reading))
}

#[test]
fn kernel_log_report() {
    let log = b"a\nb\nc\n";
    assert_eq!(run(b"dmesg", bytes(6, log)), "=== Kernel Log ===\na\nb\nc\n");
    assert_eq!(run(b"dmesg 2", bytes(6, log)), "=== Kernel Log (last 2 lines) ===\nb\nc\n");
    assert_eq!(run(b"dmesg 9", bytes(6, log)), "=== Kernel Log (last 9 lines) ===\na\nb\nc\n");
    assert_eq!(run(b"dmesg", bytes(0, b"")), "[No kernel messages captured yet]\n");
    assert_eq!(run(b"dmesg", bytes(-5, b"")), "[No kernel messages captured yet]\n");
}

#[test]
fn open_files_report() {
    assert_eq!(
        run(b"files", ToolReading::Nothing),
        "Usage: <tool>files PID</tool>\nExample: <tool>files 1</tool>\nLists all open file descriptors for the given process.\n"
    );
    assert_eq!(run(b"files 7", bytes(-3, b"")), "[Error: no process with PID 7]\n");
    assert_eq!(run(b"files 7", bytes(-13, b"")), "[Error: errno 13]\n");
    assert_eq!(run(b"files 7", bytes(4, b"fd 0")), "=== Open Files for PID 7 ===\nfd 0");
}

#[test]
fn kprobe_reports() {
    assert_eq!(
        run(b"kprobe attach f", ToolReading::Status(0)),
        "Kprobe attached to 'f' successfully. Use <tool>kprobe check</tool> to see hit counts.\n"
    );
    assert_eq!(
        run(b"kprobe attach f", ToolReading::Status(-28)),
        "[Error: failed to attach kprobe 'f': all kprobe slots full (max 8), detach one first]\n"
    );
    assert_eq!(
        run(b"kprobe attach f", ToolReading::Status(-17)),
        "[Error: failed to attach kprobe 'f': kprobe already attached to this function]\n"
    );
    assert_eq!(
        run(b"kprobe attach f", ToolReading::Status(-2)),
        "[Error: failed to attach kprobe 'f': function not found in kernel]\n"
    );
    assert_eq!(
        run(b"kprobe attach f", ToolReading::Status(-22)),
        "[Error: failed to attach kprobe 'f': function cannot be probed (blacklisted)]\n"
    );
    assert_eq!(run(b"kprobe attach f", ToolReading::Status(-5)), "[Error: failed to attach kprobe 'f': errno 5]\n");
    assert_eq!(
        run(b"kprobe attach", ToolReading::Nothing),
        "Usage: <tool>kprobe attach FUNCTION</tool>\nExample: <tool>kprobe attach do_sys_openat2</tool>\n"
    );
    assert_eq!(run(b"kprobe check", bytes(0, b"")), "=== Active Kprobes ===\n[No active kprobes]\n");
    assert_eq!(run(b"kprobe check", bytes(3, b"abc")), "=== Active Kprobes ===\nabc");
    assert_eq!(run(b"kprobe detach f", ToolReading::Status(-2)), "[Error: no active kprobe on 'f']\n");
    assert_eq!(run(b"kprobe detach f", ToolReading::Status(0)), "Kprobe detached from 'f'.\n");
    assert_eq!(
        run(b"kprobe detach", ToolReading::Nothing),
        "Usage: <tool>kprobe detach FUNCTION</tool>\nExample: <tool>kprobe detach do_sys_openat2</tool>\n"
    );
    assert_eq!(
        run(b"kprobe", ToolReading::Nothing),
        "Usage: kprobe <subcommand>\nSubcommands:\n  <tool>kprobe attach FUNC</tool>  - attach kprobe to kernel function\n  <tool>kprobe check</tool>         - show active kprobes and hit counts\n  <tool>kprobe detach FUNC</tool>  - remove kprobe from function\n\nExample: <tool>kprobe attach do_sys_openat2</tool>\n"
    );
}

#[test]
fn trace_queries() {
    assert!(matches!(plan_tool(b"trace sched"), ToolAction::Trace(TraceQuery::SchedSummary)));
    assert!(matches!(plan_tool(b"trace sched raw"), ToolAction::Trace(TraceQuery::SchedRaw { count: 20 })));
    assert!(matches!(plan_tool(b"trace sched raw 5"), ToolAction::Trace(TraceQuery::SchedRaw { count: 5 })));
    assert!(matches!(plan_tool(b"trace syscall"), ToolAction::Trace(TraceQuery::SyscallSummary)));
    assert!(matches!(plan_tool(b"trace io raw 3"), ToolAction::Trace(TraceQuery::IoRaw { count: 3 })));
    assert!(matches!(plan_tool(b"trace tokens"), ToolAction::Trace(TraceQuery::Tokens { count: 20 })));
    assert!(matches!(plan_tool(b"trace ngram"), ToolAction::Trace(TraceQuery::NgramSurprise)));
    assert!(matches!(plan_tool(b"trace ngram stats"), ToolAction::Trace(TraceQuery::NgramStats)));
    assert!(matches!(plan_tool(b"trace ngram alerts"), ToolAction::Trace(TraceQuery::NgramAlerts { count: 10 })));
    assert!(matches!(plan_tool(b"trace reset"), ToolAction::Trace(TraceQuery::Reset)));
    assert!(matches!(plan_tool(b"trace list"), ToolAction::Trace(TraceQuery::List)));
}

#[test]
fn trace_reports() {
    assert_eq!(run(b"trace sched", bytes(5, b"sched")), "sched");
    assert_eq!(run(b"trace sched", bytes(0, b"")), "[No scheduler trace data]\n");
    assert_eq!(run(b"trace syscall raw", bytes(-1, b"")), "[No syscall trace data]\n");
    assert_eq!(run(b"trace io", bytes(0, b"")), "[No I/O trace data]\n");
    assert_eq!(run(b"trace tokens 4", bytes(0, b"")), "[No token data]\n");
    assert_eq!(run(b"trace ngram alerts", bytes(0, b"")), "[No n-gram data]\n");
    assert_eq!(run(b"trace reset", ToolReading::Nothing), "Trace counters reset. Tracepoints still active.\n");
    assert_eq!(
        run(b"trace list", ToolReading::Nothing),
        "Active tracepoints: sched_switch, sys_enter, block_rq_complete\nAll registered at module load. Always-on continuous sensing.\n"
    );
    assert_eq!(
        run(b"trace", ToolReading::Nothing),
        "Usage: trace <subsystem> [raw N]\nSubsystems:\n  <tool>trace sched</tool>        - scheduler context switches\n  <tool>trace sched raw 20</tool> - last 20 raw events\n  <tool>trace syscall</tool>      - syscall patterns\n  <tool>trace io</tool>           - I/O latency + histogram\n  <tool>trace tokens 20</tool>    - last 20 semantic tokens\n  <tool>trace ngram</tool>        - n-gram surprise scores\n  <tool>trace ngram stats</tool>  - n-gram model statistics\n  <tool>trace ngram alerts</tool> - recent anomaly alerts\n  <tool>trace reset</tool>        - zero counters\n  <tool>trace list</tool>         - active tracepoints\n"
    );
}
