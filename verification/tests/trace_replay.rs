use hackbot::gateway::{parse_u64, GatewayCore};
use hackbot::replayer::TraceReplayer;
use hackbot::trace_loader::{get_trace_info, is_trace_file, sort_events_by_ts, TraceLoadError};
use hackbot::trace_types::{
    default_queue, validate_payload, EventType, JsonValue, Payload, PayloadField, ProcessInfo,
    ProcessStatus, TraceEvent,
};
use hackbot::world_model::WorldModel;

fn ev(ts: u64, event_type: EventType, pid: u32, comm: &str, fields: Vec<(&str, JsonValue)>) -> TraceEvent {
    TraceEvent {
        ts,
        event_type,
        pid,
        tid: pid,
        cpu: 0,
        comm: comm.to_string(),
        payload: Payload {
            fields: fields
                .into_iter()
                .map(|(k, v)| PayloadField { key: k.to_string(), value: v })
                .collect(),
        },
    }
}

fn s(v: &str) -> JsonValue {
    JsonValue::Str(v.to_string())
}

fn n(v: u64) -> JsonValue {
    JsonValue::PosInt(v)
}

/// A parent forks a worker that opens a file, runs, and exits.
fn story() -> Vec<TraceEvent> {
    vec![
        ev(1_000, EventType::SyscallEnter, 100, "python3", vec![("nr", n(2)), ("name", s("open"))]),
        ev(2_000, EventType::SyscallExit, 100, "python3", vec![("nr", n(2)), ("name", s("open")), ("ret", n(3))]),
        ev(
            3_000,
            EventType::ProcessFork,
            100,
            "python3",
            vec![("parent_pid", n(100)), ("child_pid", n(101)), ("child_comm", s("worker0"))],
        ),
        ev(4_000, EventType::GpuSubmit, 101, "worker0", vec![("batch_size", n(512))]),
        ev(
            5_000,
            EventType::SchedSwitch,
            101,
            "worker0",
            vec![("prev_pid", n(101)), ("next_pid", n(100)), ("prev_state", s("S"))],
        ),
        ev(6_000, EventType::ProcessExit, 101, "worker0", vec![("exit_code", n(0))]),
    ]
}

fn snapshot(w: &WorldModel) -> Vec<(u32, String, Option<u32>, ProcessStatus, u64, u64, u64)> {
    let mut v: Vec<_> = w
        .processes()
        .values()
        .map(|p: &ProcessInfo| {
            (p.pid, p.comm.clone(), p.parent_pid, p.status, p.syscall_count, p.gpu_submit_count, p.last_event_ts)
        })
        .collect();
    v.sort_by_key(|t| t.0);
    v
}

fn links(w: &WorldModel) -> Vec<(u32, u32, String)> {
    w.connections().iter().map(|c| (c.from_pid, c.to_pid, c.conn_type.clone())).collect()
}

#[test]
fn event_type_names() {
    assert_eq!(EventType::SyscallEnter.as_str(), "syscall_enter");
    assert_eq!(EventType::PowerTrace.as_str(), "power_trace");
    assert_eq!(EventType::GpuComplete.as_str(), "gpu_complete");
    assert_eq!(default_queue(), "default");
}

#[test]
fn payload_values() {
    let e = ev(1, EventType::SyscallExit, 1, "a", vec![("ret", JsonValue::NegInt(-2)), ("name", s("read"))]);
    assert_eq!(e.payload.get("ret").and_then(|v| v.as_i64()), Some(-2));
    assert_eq!(e.payload.get("ret").and_then(|v| v.as_u64()), None);
    assert_eq!(e.payload.get("name").and_then(|v| v.as_str()).map(|s| s.as_str()), Some("read"));
    assert!(e.payload.get("missing").is_none());
    assert_eq!(n(u64::MAX).as_i64(), None);
    assert_eq!(n(7).as_u64(), Some(7));
}

#[test]
fn payload_schemas() {
    let exit = |fields| validate_payload(EventType::SyscallExit, &Payload { fields });
    let f = |k: &str, v: JsonValue| PayloadField { key: k.to_string(), value: v };
    assert!(exit(vec![f("nr", n(0)), f("name", s("read")), f("ret", JsonValue::NegInt(-1))]));
    assert!(!exit(vec![f("nr", n(0)), f("name", s("read"))]));
    assert!(!exit(vec![f("nr", n(0)), f("name", n(1)), f("ret", n(0))]));
    let fork = Payload { fields: vec![f("parent_pid", n(1)), f("child_pid", n(2))] };
    assert!(validate_payload(EventType::ProcessFork, &fork));
    let big = Payload { fields: vec![f("batch_size", n(u32::MAX as u64 + 1))] };
    assert!(!validate_payload(EventType::GpuSubmit, &big));
    let gpu = Payload { fields: vec![f("batch_size", n(64))] };
    assert!(validate_payload(EventType::GpuSubmit, &gpu));
    let power = Payload { fields: vec![f("watts", JsonValue::Float("45.3".to_string())), f("domain", s("package-0"))] };
    assert!(validate_payload(EventType::PowerTrace, &power));
    let no_domain = Payload { fields: vec![f("watts", n(45))] };
    assert!(!validate_payload(EventType::PowerTrace, &no_domain));
}

#[test]
fn world_model_follows_the_story() {
    let mut w = WorldModel::new();
    w.process_events(&story());
    assert_eq!(
        snapshot(&w),
        vec![
            (100, "python3".to_string(), None, ProcessStatus::Running, 1, 0, 5_000),
            (101, "worker0".to_string(), Some(100), ProcessStatus::Exited, 0, 1, 6_000),
        ]
    );
    assert_eq!(links(&w), vec![(100, 101, "fork".to_string())]);
    w.reset();
    assert!(snapshot(&w).is_empty());
    assert!(links(&w).is_empty());
}

#[test]
fn processing_in_two_runs_is_processing_once() {
    let events = story();
    let mut once = WorldModel::new();
    once.process_events(&events);
    let mut twice = WorldModel::new();
    twice.process_events(&events[..3]);
    twice.process_events(&events[3..]);
    assert_eq!(snapshot(&once), snapshot(&twice));
    assert_eq!(links(&once), links(&twice));
}

#[test]
fn rebuilding_replays_events_up_to_a_time() {
    let events = story();
    let mut rebuilt = WorldModel::new();
    rebuilt.process_events(&events);
    rebuilt.rebuild_to(&events, 3_500);
    let mut prefix = WorldModel::new();
    prefix.process_events(&events[..3]);
    assert_eq!(snapshot(&rebuilt), snapshot(&prefix));
    assert_eq!(links(&rebuilt), vec![(100, 101, "fork".to_string())]);
    rebuilt.rebuild_to(&events, 0);
    assert!(snapshot(&rebuilt).is_empty());
}

#[test]
fn stable_sort_by_time() {
    let events = vec![
        ev(30, EventType::ProcessExit, 1, "a", vec![]),
        ev(10, EventType::ProcessExit, 2, "b", vec![]),
        ev(30, EventType::ProcessExit, 3, "c", vec![]),
        ev(10, EventType::ProcessExit, 4, "d", vec![]),
    ];
    let sorted = sort_events_by_ts(events);
    let order: Vec<(u64, u32)> = sorted.iter().map(|e| (e.ts, e.pid)).collect();
    assert_eq!(order, vec![(10, 2), (10, 4), (30, 1), (30, 3)]);
}

#[test]
fn trace_summary() {
    let info = get_trace_info(&story());
    assert_eq!(info.event_count, 6);
    assert_eq!(info.span, Some((1_000, 6_000)));
    assert_eq!(info.duration_ns, 5_000);
    assert_eq!(info.pids, vec![100, 101]);
    assert_eq!(
        info.event_types,
        vec![
            EventType::GpuSubmit,
            EventType::ProcessExit,
            EventType::ProcessFork,
            EventType::SchedSwitch,
            EventType::SyscallEnter,
            EventType::SyscallExit,
        ]
    );
    let empty = get_trace_info(&[]);
    assert_eq!(empty.event_count, 0);
    assert_eq!(empty.span, None);
    assert_eq!(empty.duration_ns, 0);
    assert!(empty.pids.is_empty() && empty.event_types.is_empty());
}

#[test]
fn load_error_messages() {
    assert_eq!(TraceLoadError::NotFound("x.jsonl".to_string()).message(), "trace file not found: x.jsonl");
    assert_eq!(TraceLoadError::Io("denied".to_string()).message(), "I/O error: denied");
}

fn timed(ts: &[u64]) -> Vec<TraceEvent> {
    ts.iter()
        .enumerate()
        .map(|(i, t)| ev(*t, EventType::ProcessExit, i as u32 + 1, "p", vec![("exit_code", n(0))]))
        .collect()
}

#[test]
fn replayer_position_and_status() {
    let mut r = TraceReplayer::new(timed(&[1_000, 2_000, 50_000_000]));
    assert_eq!(r.start_ns(), 1_000);
    assert_eq!(r.duration_ns(), 50_000_000 - 1_000);
    assert_eq!(r.position_ns(), 1_000);
    assert_eq!(r.elapsed_ns(), 0);
    assert_eq!(r.status(), "paused");
    assert!(!r.is_playing());
    r.play();
    assert_eq!(r.status(), "playing");
    r.pause();
    assert_eq!(r.status(), "paused");
    r.seek(1_500);
    assert_eq!(r.position_ns(), 2_000);
    r.seek(0);
    assert_eq!(r.position_ns(), 1_000);
    r.seek(u64::MAX);
    assert_eq!(r.position_ns(), 50_000_000);
    r.seek(60_000_000);
    assert_eq!(r.elapsed_ns(), 50_000_000 - 1_000);
    r.reset();
    assert_eq!(r.position_ns(), 1_000);
    let empty = TraceReplayer::new(Vec::new());
    assert_eq!(empty.status(), "stopped");
    assert_eq!(empty.duration_ns(), 0);
}

#[test]
fn batches_of_one_frame() {
    let mut r = TraceReplayer::new(timed(&[0, 5_000_000, 16_000_000, 20_000_000, 100_000_000]));
    let (batch, delay) = r.collect_batch();
    assert_eq!(batch.iter().map(|e| e.ts).collect::<Vec<_>>(), vec![0, 5_000_000, 16_000_000]);
    assert_eq!(delay, 4_000_000);
    let (batch, delay) = r.collect_batch();
    assert_eq!(batch.iter().map(|e| e.ts).collect::<Vec<_>>(), vec![20_000_000]);
    assert_eq!(delay, 64_000_000);
    let (batch, delay) = r.collect_batch();
    assert_eq!(batch.len(), 1);
    assert_eq!(delay, 0);
    assert_eq!(r.status(), "stopped");
}

#[test]
fn playback_step_ends_with_no_batch() {
    let mut r = TraceReplayer::new(timed(&[0, 30_000_000]));
    let (batch, delay) = r.next_batch_step().unwrap();
    assert_eq!(batch.len(), 1);
    assert_eq!(delay, 14_000_000);
    assert!(r.next_batch_step().is_some());
    assert!(r.next_batch_step().is_none());
    assert_eq!(r.position_ns(), 30_000_000);
    assert!(TraceReplayer::new(Vec::new()).next_batch_step().is_none());
}

#[test]
fn filtered_batches() {
    let mut events = timed(&[0, 1_000, 2_000]);
    events[1].event_type = EventType::GpuSubmit;
    let mut r = TraceReplayer::new(events);
    r.set_filter(Some(vec![1, 2]), Some(vec!["process_exit".to_string()]));
    assert!(r.passes_filter(&ev(0, EventType::ProcessExit, 1, "p", vec![])));
    assert!(!r.passes_filter(&ev(0, EventType::ProcessExit, 3, "p", vec![])));
    assert!(!r.passes_filter(&ev(0, EventType::GpuSubmit, 2, "p", vec![])));
    let (batch, _) = r.collect_batch();
    assert_eq!(batch.iter().map(|e| e.pid).collect::<Vec<_>>(), vec![1]);
    r.set_filter(None, None);
    r.reset();
    assert_eq!(r.collect_batch().0.len(), 3);
}

#[test]
fn decimal_parsing_as_rust_does() {
    assert_eq!(parse_u64("123"), Some(123));
    assert_eq!(parse_u64("+7"), Some(7));
    assert_eq!(parse_u64("0"), Some(0));
    assert_eq!(parse_u64(""), None);
    assert_eq!(parse_u64("+"), None);
    assert_eq!(parse_u64("-1"), None);
    assert_eq!(parse_u64("1a"), None);
    assert_eq!(parse_u64("18446744073709551615"), Some(u64::MAX));
    assert_eq!(parse_u64("18446744073709551616"), None);
    assert_eq!(parse_u64("99999999999999999999x"), None);
    for text in ["42", "+1", "", "x", "007", "18446744073709551616"] {
        assert_eq!(parse_u64(text), text.parse::<u64>().ok(), "{:?}", text);
    }
}

#[test]
fn gateway_commands() {
    let mut g = GatewayCore::new();
    assert!(!g.play());
    assert!(!g.pause());
    assert!(!g.seek("10"));
    assert!(!g.set_filter(None, None));

    let info = g.load_trace(story());
    assert_eq!(info.event_count, 6);
    assert_eq!(snapshot(&g.world_model).len(), 2);
    assert!(g.play());
    assert!(g.replayer.as_ref().unwrap().is_playing());
    assert!(g.pause());
    assert!(!g.replayer.as_ref().unwrap().is_playing());

    // Two microseconds after the start: the events up to 3000 ns.
    assert!(g.seek("2000"));
    let mut prefix = WorldModel::new();
    prefix.process_events(&story()[..3]);
    assert_eq!(snapshot(&g.world_model), snapshot(&prefix));
    assert_eq!(g.replayer.as_ref().unwrap().position_ns(), 3_000);

    // What does not parse is the start.
    assert!(g.seek("soon"));
    let mut first = WorldModel::new();
    first.process_events(&story()[..1]);
    assert_eq!(snapshot(&g.world_model), snapshot(&first));
    assert_eq!(g.replayer.as_ref().unwrap().position_ns(), story()[0].ts);

    g.world_model.reset();
    let batch = story();
    g.apply_batch(&batch[..2]);
    assert_eq!(snapshot(&g.world_model).len(), 1);
    assert!(g.set_filter(Some(vec![100]), None));
}

#[test]
fn trace_files_end_in_jsonl() {
    assert!(is_trace_file("demo.jsonl"));
    assert!(is_trace_file(".jsonl"));
    assert!(!is_trace_file("demo.json"));
    assert!(!is_trace_file("jsonl"));
    assert!(!is_trace_file("demo.jsonl.bak"));
}
