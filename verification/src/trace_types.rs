//! Trace events as the visualization server sees them: event types, the
//! flat JSON payload of each event (as plain values), payload schemas and
//! their validation, and the world state built from events.

use vstd::prelude::*;
use vstd::string::StringSliceAdditionalSpecFns;

verus! {

/// What an eBPF probe saw.
#[derive(PartialEq, Eq, Structural, Clone, Copy, Debug, Hash)]
pub enum EventType {
    SyscallEnter,
    SyscallExit,
    SchedSwitch,
    PowerTrace,
    ProcessFork,
    ProcessExit,
    GpuSubmit,
    GpuComplete,
}

/// The name of an event type in trace files (snake case).
pub open spec fn event_type_name(t: EventType) -> Seq<char> {
    match t {
        EventType::SyscallEnter => "syscall_enter"@,
        EventType::SyscallExit => "syscall_exit"@,
        EventType::SchedSwitch => "sched_switch"@,
        EventType::PowerTrace => "power_trace"@,
        EventType::ProcessFork => "process_fork"@,
        EventType::ProcessExit => "process_exit"@,
        EventType::GpuSubmit => "gpu_submit"@,
        EventType::GpuComplete => "gpu_complete"@,
    }
}

impl EventType {
    /// The name of this event type in trace files.
    pub fn as_str(&self) -> (s: &'static str)
        ensures
            s@ == event_type_name(*self),
    {
        match self {
            EventType::SyscallEnter => "syscall_enter",
            EventType::SyscallExit => "syscall_exit",
            EventType::SchedSwitch => "sched_switch",
            EventType::PowerTrace => "power_trace",
            EventType::ProcessFork => "process_fork",
            EventType::ProcessExit => "process_exit",
            EventType::GpuSubmit => "gpu_submit",
            EventType::GpuComplete => "gpu_complete",
        }
    }
}

/// A JSON value in an event's payload, as far as the server reads it.
/// Numbers are kept as JSON keeps them: non-negative integers, negative
/// integers, and other numbers. What the server never reads inside (other
/// numbers, arrays, objects) is kept as its JSON text, to be handed on.
pub enum JsonValue {
    Null,
    Bool(bool),
    PosInt(u64),
    NegInt(i64),
    Float(String),
    Str(String),
    Array(String),
    Object(String),
}

impl JsonValue {
    /// The string, for a JSON string.
    pub fn as_str(&self) -> (r: Option<&String>)
        ensures
            match *self {
                JsonValue::Str(s) => r == Some(&s),
                _ => r is None,
            },
    {
        match self {
            JsonValue::Str(s) => Some(s),
            _ => None,
        }
    }

    /// The value as an `i64`, for an integer that fits one.
    pub fn as_i64(&self) -> (r: Option<i64>)
        ensures
            r == json_i64(*self),
    {
        match self {
            JsonValue::PosInt(n) => if *n <= i64::MAX as u64 {
                Some(*n as i64)
            } else {
                None
            },
            JsonValue::NegInt(n) => Some(*n),
            _ => None,
        }
    }

    /// The value as a `u64`, for a non-negative integer.
    pub fn as_u64(&self) -> (r: Option<u64>)
        ensures
            r == json_u64(*self),
    {
        match self {
            JsonValue::PosInt(n) => Some(*n),
            _ => None,
        }
    }
}

/// The `i64` a JSON value holds, if it is an integer that fits one.
pub open spec fn json_i64(v: JsonValue) -> Option<i64> {
    match v {
        JsonValue::PosInt(n) => if n <= i64::MAX { Some(n as i64) } else { None },
        JsonValue::NegInt(n) => Some(n),
        _ => None,
    }
}

/// The `u64` a JSON value holds, if it is a non-negative integer.
pub open spec fn json_u64(v: JsonValue) -> Option<u64> {
    match v {
        JsonValue::PosInt(n) => Some(n),
        _ => None,
    }
}

/// One key of a payload object.
pub struct PayloadField {
    pub key: String,
    pub value: JsonValue,
}

/// An event's payload: a flat JSON object, its fields in order.
pub struct Payload {
    pub fields: Vec<PayloadField>,
}

/// The position of the first field named `key` at or after `i`.
pub open spec fn field_index_from(fields: Seq<PayloadField>, key: Seq<char>, i: int) -> Option<int>
    decreases fields.len() - i,
{
    if i < 0 || i >= fields.len() {
        None
    } else if fields[i].key@ == key {
        Some(i)
    } else {
        field_index_from(fields, key, i + 1)
    }
}

/// The value of the field named `key`.
pub open spec fn payload_get(p: Payload, key: Seq<char>) -> Option<JsonValue> {
    match field_index_from(p.fields@, key, 0) {
        Some(i) => Some(p.fields@[i].value),
        None => None,
    }
}

/// Whether two strings are equal.
pub fn str_eq(a: &str, b: &str) -> (r: bool)
    ensures
        r == (a@ == b@),
{
    let ab = a.as_bytes();
    let bb = b.as_bytes();
    let r = crate::net::bytes_eq(ab, bb);
    proof {
        vstd::utf8::encode_utf8_decode_utf8(a@);
        vstd::utf8::encode_utf8_decode_utf8(b@);
    }
    r
}

impl Payload {
    /// The value of the field named `key` (the first one, should it repeat).
    pub fn get(&self, key: &str) -> (r: Option<&JsonValue>)
        ensures
            match payload_get(*self, key@) {
                Some(v) => r == Some(&v),
                None => r is None,
            },
    {
        let mut i: usize = 0;
        while i < self.fields.len()
            invariant
                i <= self.fields@.len(),
                field_index_from(self.fields@, key@, 0) == field_index_from(self.fields@, key@, i as int),
            decreases self.fields@.len() - i,
        {
            if str_eq(self.fields[i].key.as_str(), key) {
                return Some(&self.fields[i].value);
            }
            i += 1;
        }
        None
    }
}

/// A single trace event from an eBPF probe.
pub struct TraceEvent {
    /// Nanoseconds since the epoch.
    pub ts: u64,
    pub event_type: EventType,
    pub pid: u32,
    pub tid: u32,
    pub cpu: u16,
    pub comm: String,
    pub payload: Payload,
}

// ---------------------------------------------------------------------------
// Payload schemas
// ---------------------------------------------------------------------------

/// What a payload field must hold.
#[derive(PartialEq, Eq, Structural, Clone, Copy, Debug)]
pub enum FieldKind {
    /// An integer that fits `i64`.
    I64,
    /// An integer that fits `i32`.
    I32,
    /// An integer that fits `u32`.
    U32,
    /// A non-negative integer.
    U64,
    /// A string.
    Str,
    /// Any number.
    Number,
}

/// Whether `v` can be read as a value of kind `k`.
pub open spec fn kind_ok(k: FieldKind, v: JsonValue) -> bool {
    match k {
        FieldKind::I64 => json_i64(v) is Some,
        FieldKind::I32 => match v {
            JsonValue::PosInt(n) => n <= i32::MAX,
            JsonValue::NegInt(n) => n >= i32::MIN,
            _ => false,
        },
        FieldKind::U32 => match v {
            JsonValue::PosInt(n) => n <= u32::MAX,
            _ => false,
        },
        FieldKind::U64 => v is PosInt,
        FieldKind::Str => v is Str,
        FieldKind::Number => v is PosInt || v is NegInt || v is Float,
    }
}

fn kind_ok_exec(k: FieldKind, v: &JsonValue) -> (r: bool)
    ensures
        r == kind_ok(k, *v),
{
    match k {
        FieldKind::I64 => v.as_i64().is_some(),
        FieldKind::I32 => match v {
            JsonValue::PosInt(n) => *n <= i32::MAX as u64,
            JsonValue::NegInt(n) => *n >= i32::MIN as i64,
            _ => false,
        },
        FieldKind::U32 => match v {
            JsonValue::PosInt(n) => *n <= u32::MAX as u64,
            _ => false,
        },
        FieldKind::U64 => match v {
            JsonValue::PosInt(_) => true,
            _ => false,
        },
        FieldKind::Str => match v {
            JsonValue::Str(_) => true,
            _ => false,
        },
        FieldKind::Number => match v {
            JsonValue::PosInt(_) | JsonValue::NegInt(_) | JsonValue::Float(_) => true,
            _ => false,
        },
    }
}

/// A field that must be present, with a value of kind `k`.
pub open spec fn required_ok(p: Payload, key: Seq<char>, k: FieldKind) -> bool {
    match payload_get(p, key) {
        Some(v) => kind_ok(k, v),
        None => false,
    }
}

/// An optional field: absent, `null`, or a value of kind `k`.
pub open spec fn optional_ok(p: Payload, key: Seq<char>, k: FieldKind) -> bool {
    match payload_get(p, key) {
        Some(v) => v is Null || kind_ok(k, v),
        None => true,
    }
}

/// A field with a default: absent, or a value of kind `k`.
pub open spec fn defaulted_ok(p: Payload, key: Seq<char>, k: FieldKind) -> bool {
    match payload_get(p, key) {
        Some(v) => kind_ok(k, v),
        None => true,
    }
}

fn required_exec(p: &Payload, key: &str, k: FieldKind) -> (r: bool)
    ensures
        r == required_ok(*p, key@, k),
{
    match p.get(key) {
        Some(v) => kind_ok_exec(k, v),
        None => false,
    }
}

fn optional_exec(p: &Payload, key: &str, k: FieldKind) -> (r: bool)
    ensures
        r == optional_ok(*p, key@, k),
{
    match p.get(key) {
        Some(v) => match v {
            JsonValue::Null => true,
            _ => kind_ok_exec(k, v),
        },
        None => true,
    }
}

fn defaulted_exec(p: &Payload, key: &str, k: FieldKind) -> (r: bool)
    ensures
        r == defaulted_ok(*p, key@, k),
{
    match p.get(key) {
        Some(v) => kind_ok_exec(k, v),
        None => true,
    }
}

/// Whether `p` matches the payload schema of event type `t`: each required
/// field present with the right kind of value, each optional field absent,
/// `null` or of the right kind, each defaulted field absent or of the
/// right kind. Other fields are ignored.
pub open spec fn payload_valid(t: EventType, p: Payload) -> bool {
    match t {
        EventType::SyscallEnter => required_ok(p, "nr"@, FieldKind::I64) && required_ok(
            p,
            "name"@,
            FieldKind::Str,
        ) && optional_ok(p, "fd"@, FieldKind::I64) && optional_ok(p, "count"@, FieldKind::I64)
            && optional_ok(p, "path"@, FieldKind::Str) && optional_ok(p, "flags"@, FieldKind::I64),
        EventType::SyscallExit => required_ok(p, "nr"@, FieldKind::I64) && required_ok(
            p,
            "name"@,
            FieldKind::Str,
        ) && required_ok(p, "ret"@, FieldKind::I64),
        EventType::SchedSwitch => required_ok(p, "prev_pid"@, FieldKind::U32) && required_ok(
            p,
            "next_pid"@,
            FieldKind::U32,
        ) && required_ok(p, "prev_state"@, FieldKind::Str),
        EventType::PowerTrace => required_ok(p, "watts"@, FieldKind::Number) && required_ok(
            p,
            "domain"@,
            FieldKind::Str,
        ),
        EventType::ProcessFork => required_ok(p, "parent_pid"@, FieldKind::U32) && required_ok(
            p,
            "child_pid"@,
            FieldKind::U32,
        ) && defaulted_ok(p, "child_comm"@, FieldKind::Str),
        EventType::ProcessExit => required_ok(p, "exit_code"@, FieldKind::I32),
        EventType::GpuSubmit => required_ok(p, "batch_size"@, FieldKind::U32) && defaulted_ok(
            p,
            "queue"@,
            FieldKind::Str,
        ),
        EventType::GpuComplete => required_ok(p, "batch_size"@, FieldKind::U32) && defaulted_ok(
            p,
            "queue"@,
            FieldKind::Str,
        ) && defaulted_ok(p, "duration_ns"@, FieldKind::U64),
    }
}

/// Validate that a payload matches the schema of its event type.
pub fn validate_payload(event_type: EventType, payload: &Payload) -> (r: bool)
    ensures
        r == payload_valid(event_type, *payload),
{
    match event_type {
        EventType::SyscallEnter => required_exec(payload, "nr", FieldKind::I64) && required_exec(
            payload,
            "name",
            FieldKind::Str,
        ) && optional_exec(payload, "fd", FieldKind::I64) && optional_exec(
            payload,
            "count",
            FieldKind::I64,
        ) && optional_exec(payload, "path", FieldKind::Str) && optional_exec(
            payload,
            "flags",
            FieldKind::I64,
        ),
        EventType::SyscallExit => required_exec(payload, "nr", FieldKind::I64) && required_exec(
            payload,
            "name",
            FieldKind::Str,
        ) && required_exec(payload, "ret", FieldKind::I64),
        EventType::SchedSwitch => required_exec(payload, "prev_pid", FieldKind::U32)
            && required_exec(payload, "next_pid", FieldKind::U32) && required_exec(
            payload,
            "prev_state",
            FieldKind::Str,
        ),
        EventType::PowerTrace => required_exec(payload, "watts", FieldKind::Number) && required_exec(
            payload,
            "domain",
            FieldKind::Str,
        ),
        EventType::ProcessFork => required_exec(payload, "parent_pid", FieldKind::U32)
            && required_exec(payload, "child_pid", FieldKind::U32) && defaulted_exec(
            payload,
            "child_comm",
            FieldKind::Str,
        ),
        EventType::ProcessExit => required_exec(payload, "exit_code", FieldKind::I32),
        EventType::GpuSubmit => required_exec(payload, "batch_size", FieldKind::U32)
            && defaulted_exec(payload, "queue", FieldKind::Str),
        EventType::GpuComplete => required_exec(payload, "batch_size", FieldKind::U32)
            && defaulted_exec(payload, "queue", FieldKind::Str) && defaulted_exec(
            payload,
            "duration_ns",
            FieldKind::U64,
        ),
    }
}

/// The payload of a `syscall_enter` event.
pub struct SyscallEnterPayload {
    pub nr: i64,
    pub name: String,
    pub fd: Option<i64>,
    pub count: Option<i64>,
    pub path: Option<String>,
    pub flags: Option<i64>,
}

/// The payload of a `syscall_exit` event.
pub struct SyscallExitPayload {
    pub nr: i64,
    pub name: String,
    pub ret: i64,
}

/// The payload of a `sched_switch` event.
pub struct SchedSwitchPayload {
    pub prev_pid: u32,
    pub next_pid: u32,
    pub prev_state: String,
}

/// The payload of a `process_fork` event.
pub struct ProcessForkPayload {
    pub parent_pid: u32,
    pub child_pid: u32,
    /// Empty when absent.
    pub child_comm: String,
}

/// The payload of a `process_exit` event.
pub struct ProcessExitPayload {
    pub exit_code: i32,
}

/// The payload of a `gpu_submit` event.
pub struct GpuSubmitPayload {
    pub batch_size: u32,
    /// `default` when absent.
    pub queue: String,
}

/// The payload of a `gpu_complete` event.
pub struct GpuCompletePayload {
    pub batch_size: u32,
    /// `default` when absent.
    pub queue: String,
    /// 0 when absent.
    pub duration_ns: u64,
}

/// The queue a GPU event names when its payload names none.
pub fn default_queue() -> (q: String)
    ensures
        q@ == "default"@,
{
    "default".to_owned()
}

// ---------------------------------------------------------------------------
// World state
// ---------------------------------------------------------------------------

/// What a process is doing.
#[derive(PartialEq, Eq, Structural, Clone, Copy, Debug)]
pub enum ProcessStatus {
    Running,
    Sleeping,
    Exited,
}

/// A process of the world model.
pub struct ProcessInfo {
    pub pid: u32,
    pub comm: String,
    pub parent_pid: Option<u32>,
    pub status: ProcessStatus,
    pub syscall_count: u64,
    pub gpu_submit_count: u64,
    pub last_event_ts: u64,
}

/// A process seen for the first time.
pub open spec fn fresh_process(pid: u32, comm: String) -> ProcessInfo {
    ProcessInfo {
        pid,
        comm,
        parent_pid: None,
        status: ProcessStatus::Running,
        syscall_count: 0,
        gpu_submit_count: 0,
        last_event_ts: 0,
    }
}

impl ProcessInfo {
    /// A running process with no events counted yet.
    pub fn new(pid: u32, comm: String) -> (p: ProcessInfo)
        ensures
            p == fresh_process(pid, comm),
    {
        ProcessInfo {
            pid,
            comm,
            parent_pid: None,
            status: ProcessStatus::Running,
            syscall_count: 0,
            gpu_submit_count: 0,
            last_event_ts: 0,
        }
    }
}

/// A link between two processes.
pub struct ConnectionInfo {
    pub from_pid: u32,
    pub to_pid: u32,
    pub conn_type: String,
    pub fd_from: Option<i32>,
    pub fd_to: Option<i32>,
}

} // verus!
