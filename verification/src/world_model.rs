//! The world model: processes, their open files and the links between them,
//! built up from trace events.

use std::collections::HashMap;
use vstd::prelude::*;

use crate::replayer::sorted_by_ts;
use crate::trace_types::{
    fresh_process, json_i64, json_u64, payload_get, ConnectionInfo, EventType, JsonValue,
    Payload, ProcessInfo, ProcessStatus, TraceEvent,
};

verus! {

broadcast use vstd::std_specs::hash::group_hash_axioms;

/// What the model knows of an open file descriptor.
pub struct FdEntry {
    pub fd_type: String,
    pub path: Option<String>,
}

/// One row of the file descriptor table.
struct FdRecord {
    pid: u32,
    fd: i64,
    entry: FdEntry,
}

/// The processes, file descriptors and inter-process links seen in a trace.
pub struct WorldModel {
    processes: HashMap<u32, ProcessInfo>,
    connections: Vec<ConnectionInfo>,
    /// The descriptor table, keyed by (pid, descriptor). vstd specifies hash
    /// maps only for keys whose hashing it models (booleans and unsigned
    /// integers, not pairs), so the table is a vector whose invariant
    /// (`wf`) keeps each key once.
    fd_table: Vec<FdRecord>,
}

/// A link as plain values: from, to, type, and the two descriptors.
pub open spec fn connection_view(c: ConnectionInfo) -> (u32, u32, Seq<char>, Option<i32>, Option<i32>) {
    (c.from_pid, c.to_pid, c.conn_type@, c.fd_from, c.fd_to)
}

// ---------------------------------------------------------------------------
// What one event does
// ---------------------------------------------------------------------------

/// The process `pid` as the model has it, or a fresh one named `comm`.
pub open spec fn ensured(m: Map<u32, ProcessInfo>, pid: u32, comm: String) -> ProcessInfo {
    if m.contains_key(pid) { m[pid] } else { fresh_process(pid, comm) }
}

/// `p` with a new status and time of last event.
pub open spec fn touched(p: ProcessInfo, status: ProcessStatus, ts: u64) -> ProcessInfo {
    ProcessInfo {
        pid: p.pid,
        comm: p.comm,
        parent_pid: p.parent_pid,
        status,
        syscall_count: p.syscall_count,
        gpu_submit_count: p.gpu_submit_count,
        last_event_ts: ts,
    }
}

/// A pid named in a payload field (0 when absent or not a non-negative
/// integer), cut to 32 bits.
pub open spec fn payload_pid(p: Payload, key: Seq<char>) -> u32 {
    match payload_get(p, key) {
        Some(v) => match json_u64(v) {
            Some(n) => n as u32,
            None => 0,
        },
        None => 0,
    }
}

/// The name of a fork's child: the payload's `child_comm`, else the event's.
pub open spec fn child_comm_of(e: TraceEvent) -> String {
    match payload_get(e.payload, "child_comm"@) {
        Some(JsonValue::Str(s)) => s,
        _ => e.comm,
    }
}

/// The processes after event `e`.
pub open spec fn processes_after(m: Map<u32, ProcessInfo>, e: TraceEvent) -> Map<u32, ProcessInfo> {
    match e.event_type {
        EventType::SyscallEnter => {
            let p = ensured(m, e.pid, e.comm);
            m.insert(
                e.pid,
                ProcessInfo {
                    pid: p.pid,
                    comm: p.comm,
                    parent_pid: p.parent_pid,
                    status: ProcessStatus::Running,
                    syscall_count: (p.syscall_count + 1) as u64,
                    gpu_submit_count: p.gpu_submit_count,
                    last_event_ts: e.ts,
                },
            )
        },
        EventType::SyscallExit => {
            let p = ensured(m, e.pid, e.comm);
            m.insert(e.pid, touched(p, p.status, e.ts))
        },
        EventType::SchedSwitch => {
            let prev = payload_pid(e.payload, "prev_pid"@);
            let next = payload_pid(e.payload, "next_pid"@);
            let m1 = if m.contains_key(prev) {
                m.insert(prev, touched(m[prev], ProcessStatus::Sleeping, e.ts))
            } else {
                m
            };
            if m1.contains_key(next) {
                m1.insert(next, touched(m1[next], ProcessStatus::Running, e.ts))
            } else {
                m1
            }
        },
        EventType::ProcessFork => {
            let parent = payload_pid(e.payload, "parent_pid"@);
            let child = payload_pid(e.payload, "child_pid"@);
            let comm = child_comm_of(e);
            let m1 = m.insert(parent, ensured(m, parent, e.comm));
            let c = ensured(m1, child, comm);
            m1.insert(
                child,
                ProcessInfo {
                    pid: c.pid,
                    comm,
                    parent_pid: Some(parent),
                    status: ProcessStatus::Running,
                    syscall_count: c.syscall_count,
                    gpu_submit_count: c.gpu_submit_count,
                    last_event_ts: c.last_event_ts,
                },
            )
        },
        EventType::ProcessExit => if m.contains_key(e.pid) {
            m.insert(e.pid, touched(m[e.pid], ProcessStatus::Exited, e.ts))
        } else {
            m
        },
        EventType::GpuSubmit => {
            let p = ensured(m, e.pid, e.comm);
            m.insert(
                e.pid,
                ProcessInfo {
                    pid: p.pid,
                    comm: p.comm,
                    parent_pid: p.parent_pid,
                    status: ProcessStatus::Running,
                    syscall_count: p.syscall_count,
                    gpu_submit_count: (p.gpu_submit_count + 1) as u64,
                    last_event_ts: e.ts,
                },
            )
        },
        EventType::GpuComplete => {
            let p = ensured(m, e.pid, e.comm);
            m.insert(e.pid, touched(p, p.status, e.ts))
        },
        EventType::PowerTrace => m,
    }
}

/// A context switch puts the process switched out to sleep and runs the one
/// switched in, both at the event's time, when the model knows them; it
/// adds no process and leaves every other one (and every other field) as it
/// was.
pub proof fn lemma_sched_switch(m: Map<u32, ProcessInfo>, e: TraceEvent)
    requires
        e.event_type == EventType::SchedSwitch,
    ensures
        ({
            let r = processes_after(m, e);
            let prev = payload_pid(e.payload, "prev_pid"@);
            let next = payload_pid(e.payload, "next_pid"@);
            &&& r.dom() == m.dom()
            &&& m.contains_key(prev) && prev != next ==> r[prev].status == ProcessStatus::Sleeping
                && r[prev].last_event_ts == e.ts && r[prev].pid == m[prev].pid && r[prev].comm == m[prev].comm
                && r[prev].parent_pid == m[prev].parent_pid && r[prev].syscall_count == m[prev].syscall_count
                && r[prev].gpu_submit_count == m[prev].gpu_submit_count
            &&& m.contains_key(next) ==> r[next].status == ProcessStatus::Running && r[next].last_event_ts == e.ts
                && r[next].pid == m[next].pid && r[next].comm == m[next].comm && r[next].parent_pid
                == m[next].parent_pid && r[next].syscall_count == m[next].syscall_count
                && r[next].gpu_submit_count == m[next].gpu_submit_count
            &&& forall|pid: u32| m.contains_key(pid) && pid != prev && pid != next ==> #[trigger] r[pid] == m[pid]
        }),
{
    let r = processes_after(m, e);
    assert(r.dom() =~= m.dom());
}

/// A process's own events: entering a system call or submitting GPU work
/// marks it running and counts one more of that kind (a process seen for
/// the first time starts from zero); its exit marks a known process exited.
/// Each stamps the event's time and leaves every other process as it was.
pub proof fn lemma_own_events(m: Map<u32, ProcessInfo>, e: TraceEvent)
    ensures
        ({
            let r = processes_after(m, e);
            let before = if m.contains_key(e.pid) { m[e.pid].syscall_count as int } else { 0 };
            let gpu_before = if m.contains_key(e.pid) { m[e.pid].gpu_submit_count as int } else { 0 };
            &&& e.event_type == EventType::SyscallEnter && before < u64::MAX ==> r.contains_key(e.pid)
                && r[e.pid].status == ProcessStatus::Running && r[e.pid].syscall_count == before + 1
                && r[e.pid].last_event_ts == e.ts
            &&& e.event_type == EventType::GpuSubmit && gpu_before < u64::MAX ==> r.contains_key(e.pid)
                && r[e.pid].status == ProcessStatus::Running && r[e.pid].gpu_submit_count == gpu_before + 1
                && r[e.pid].last_event_ts == e.ts
            &&& e.event_type == EventType::ProcessExit && m.contains_key(e.pid) ==> r[e.pid].status
                == ProcessStatus::Exited && r[e.pid].last_event_ts == e.ts
            &&& e.event_type == EventType::ProcessExit && !m.contains_key(e.pid) ==> r == m
            &&& (e.event_type == EventType::SyscallEnter || e.event_type == EventType::GpuSubmit
                || e.event_type == EventType::ProcessExit) ==> forall|pid: u32|
                m.contains_key(pid) && pid != e.pid ==> #[trigger] r[pid] == m[pid] && r.contains_key(pid)
        }),
{
}

/// A fork records the child under its parent, running, named as the
/// payload says (the event's name otherwise), and links parent to child.
pub proof fn lemma_fork(m: Map<u32, ProcessInfo>, cs: Seq<(u32, u32, Seq<char>, Option<i32>, Option<i32>)>, e: TraceEvent)
    requires
        e.event_type == EventType::ProcessFork,
    ensures
        ({
            let r = processes_after(m, e);
            let parent = payload_pid(e.payload, "parent_pid"@);
            let child = payload_pid(e.payload, "child_pid"@);
            &&& r.contains_key(child) && r.contains_key(parent)
            &&& r[child].parent_pid == Some(parent)
            &&& r[child].status == ProcessStatus::Running
            &&& r[child].comm == child_comm_of(e)
            &&& connections_after(cs, e) == cs.push((parent, child, "fork"@, None, None))
        }),
{
}

/// A successful `open` (its exit returns a descriptor, zero or more)
/// records that descriptor of the process as a file; no other event
/// touches the descriptor table.
pub proof fn lemma_open_records_fd(fds: Map<(u32, i64), Seq<char>>, e: TraceEvent)
    ensures
        e.event_type == EventType::SyscallExit && exit_name(e.payload) == "open"@ && exit_ret(e.payload) >= 0
            ==> fds_after(fds, e).contains_key((e.pid, exit_ret(e.payload))) && fds_after(fds, e)[(
            e.pid,
            exit_ret(e.payload),
        )] == "file"@ && fds_after(fds, e).dom() == fds.dom().insert((e.pid, exit_ret(e.payload))),
        !(e.event_type == EventType::SyscallExit && exit_name(e.payload) == "open"@ && exit_ret(e.payload) >= 0)
            ==> fds_after(fds, e) == fds,
{
}

/// The links after event `e`: a fork links parent to child.
pub open spec fn connections_after(cs: Seq<(u32, u32, Seq<char>, Option<i32>, Option<i32>)>, e: TraceEvent) -> Seq<
    (u32, u32, Seq<char>, Option<i32>, Option<i32>),
> {
    if e.event_type == EventType::ProcessFork {
        cs.push(
            (
                payload_pid(e.payload, "parent_pid"@),
                payload_pid(e.payload, "child_pid"@),
                "fork"@,
                None,
                None,
            ),
        )
    } else {
        cs
    }
}

/// The name a `syscall_exit` payload gives (empty when there is none).
pub open spec fn exit_name(p: Payload) -> Seq<char> {
    match payload_get(p, "name"@) {
        Some(JsonValue::Str(s)) => s@,
        _ => ""@,
    }
}

/// The return value a `syscall_exit` payload gives (-1 when there is none).
pub open spec fn exit_ret(p: Payload) -> i64 {
    match payload_get(p, "ret"@) {
        Some(v) => match json_i64(v) {
            Some(r) => r,
            None => -1i64,
        },
        None => -1i64,
    }
}

/// The file descriptor table after event `e`: a successful `open` records
/// a file under its pid and descriptor.
pub open spec fn fds_after(fds: Map<(u32, i64), Seq<char>>, e: TraceEvent) -> Map<(u32, i64), Seq<char>> {
    if e.event_type == EventType::SyscallExit && exit_name(e.payload) == "open"@ && exit_ret(e.payload)
        >= 0 {
        fds.insert((e.pid, exit_ret(e.payload)), "file"@)
    } else {
        fds
    }
}

/// The processes after the events `es`, in order.
pub open spec fn processes_after_all(m: Map<u32, ProcessInfo>, es: Seq<TraceEvent>) -> Map<u32, ProcessInfo>
    decreases es.len(),
{
    if es.len() == 0 {
        m
    } else {
        processes_after(processes_after_all(m, es.drop_last()), es.last())
    }
}

/// The links after the events `es`, in order.
pub open spec fn connections_after_all(
    cs: Seq<(u32, u32, Seq<char>, Option<i32>, Option<i32>)>,
    es: Seq<TraceEvent>,
) -> Seq<(u32, u32, Seq<char>, Option<i32>, Option<i32>)>
    decreases es.len(),
{
    if es.len() == 0 {
        cs
    } else {
        connections_after(connections_after_all(cs, es.drop_last()), es.last())
    }
}

/// The file descriptor table after the events `es`, in order.
pub open spec fn fds_after_all(fds: Map<(u32, i64), Seq<char>>, es: Seq<TraceEvent>) -> Map<(u32, i64), Seq<char>>
    decreases es.len(),
{
    if es.len() == 0 {
        fds
    } else {
        fds_after(fds_after_all(fds, es.drop_last()), es.last())
    }
}

/// Whether `n` more events can be counted for every process without its
/// counters overflowing.
pub open spec fn counts_fit(m: Map<u32, ProcessInfo>, n: int) -> bool {
    forall|pid: u32|
        m.contains_key(pid) ==> #[trigger] m[pid].syscall_count + n <= u64::MAX
            && m[pid].gpu_submit_count + n <= u64::MAX
}

/// How many of `es` come before the first one later than `t`.
pub open spec fn events_until(es: Seq<TraceEvent>, t: u64, i: int) -> int
    decreases es.len() - i,
{
    if i < 0 || i >= es.len() {
        es.len() as int
    } else if es[i].ts > t {
        i
    } else {
        events_until(es, t, i + 1)
    }
}

proof fn lemma_events_until(es: Seq<TraceEvent>, t: u64, i: int)
    requires
        0 <= i <= es.len(),
    ensures
        i <= events_until(es, t, i) <= es.len(),
    decreases es.len() - i,
{
    if i < es.len() && es[i].ts <= t {
        lemma_events_until(es, t, i + 1);
    }
}

/// Processing two runs of events one after the other leaves the same
/// processes, links and descriptors as processing them as one run.
pub proof fn lemma_process_concat(
    m: Map<u32, ProcessInfo>,
    c: Seq<(u32, u32, Seq<char>, Option<i32>, Option<i32>)>,
    f: Map<(u32, i64), Seq<char>>,
    a: Seq<TraceEvent>,
    b: Seq<TraceEvent>,
)
    ensures
        processes_after_all(m, a + b) == processes_after_all(processes_after_all(m, a), b),
        connections_after_all(c, a + b) == connections_after_all(connections_after_all(c, a), b),
        fds_after_all(f, a + b) == fds_after_all(fds_after_all(f, a), b),
    decreases b.len(),
{
    if b.len() == 0 {
        assert(a + b =~= a);
    } else {
        lemma_process_concat(m, c, f, a, b.drop_last());
        assert((a + b).drop_last() =~= a + b.drop_last());
        assert((a + b).last() == b.last());
    }
}

proof fn lemma_events_until_from(es: Seq<TraceEvent>, t: u64, i: int)
    requires
        sorted_by_ts(es),
        0 <= i <= es.len(),
        forall|j: int| 0 <= j < i ==> (#[trigger] es[j]).ts <= t,
    ensures
        i <= events_until(es, t, i) <= es.len(),
        forall|j: int| 0 <= j < events_until(es, t, i) ==> (#[trigger] es[j]).ts <= t,
        forall|j: int| events_until(es, t, i) <= j < es.len() ==> (#[trigger] es[j]).ts > t,
    decreases es.len() - i,
{
    if i < es.len() {
        if es[i].ts > t {
            assert forall|j: int| i <= j < es.len() implies (#[trigger] es[j]).ts > t by {
                assert(es[i].ts <= es[j].ts);
            }
        } else {
            lemma_events_until_from(es, t, i + 1);
        }
    }
}

/// For events in time order, the events a rebuild up to `t` replays are
/// exactly those at or before `t`: every one before the cut is at or
/// before `t`, every one after it later.
pub proof fn lemma_events_until_sorted(es: Seq<TraceEvent>, t: u64)
    requires
        sorted_by_ts(es),
    ensures
        0 <= events_until(es, t, 0) <= es.len(),
        forall|j: int| 0 <= j < events_until(es, t, 0) ==> (#[trigger] es[j]).ts <= t,
        forall|j: int| events_until(es, t, 0) <= j < es.len() ==> (#[trigger] es[j]).ts > t,
{
    lemma_events_until_from(es, t, 0);
}

proof fn lemma_counts_step(m: Map<u32, ProcessInfo>, e: TraceEvent, n: int)
    requires
        n >= 1,
        n <= u64::MAX,
        counts_fit(m, n),
    ensures
        counts_fit(processes_after(m, e), n - 1),
{
    let m2 = processes_after(m, e);
    assert forall|pid: u32| m2.contains_key(pid) implies #[trigger] m2[pid].syscall_count + (n - 1)
        <= u64::MAX && m2[pid].gpu_submit_count + (n - 1) <= u64::MAX by {
        if m.contains_key(pid) {
            assert(m[pid].syscall_count + n <= u64::MAX);
        }
        if e.event_type == EventType::ProcessFork {
            let parent = payload_pid(e.payload, "parent_pid"@);
            if m.contains_key(parent) {
                assert(m[parent].syscall_count + n <= u64::MAX);
            }
        }
    }
}

/// Room for `n` more events in every process's counters leaves, after the
/// events `es`, room for `n - es.len()` more: so a run of events that fits
/// can be processed in any number of slices, one after the other.
pub proof fn lemma_counts_after_all(m: Map<u32, ProcessInfo>, es: Seq<TraceEvent>, n: int)
    requires
        es.len() <= n <= u64::MAX,
        counts_fit(m, n),
    ensures
        counts_fit(processes_after_all(m, es), n - es.len()),
    decreases es.len(),
{
    if es.len() > 0 {
        lemma_counts_after_all(m, es.drop_last(), n);
        lemma_counts_step(processes_after_all(m, es.drop_last()), es.last(), n - es.drop_last().len());
    }
}

impl WorldModel {
    /// The processes, by pid.
    pub closed spec fn processes_view(&self) -> Map<u32, ProcessInfo> {
        self.processes@
    }

    /// The links, in the order they were made.
    pub closed spec fn connections_view(&self) -> Seq<(u32, u32, Seq<char>, Option<i32>, Option<i32>)> {
        self.connections@.map_values(|c: ConnectionInfo| connection_view(c))
    }

    /// The open file descriptors: their type, by pid and descriptor.
    pub closed spec fn fds_view(&self) -> Map<(u32, i64), Seq<char>> {
        Map::new(
            |k: (u32, i64)| exists|i: int| 0 <= i < self.fd_table@.len() && #[trigger] fd_key(self.fd_table@[i]) == k,
            |k: (u32, i64)| self.fd_table@[fd_index(self.fd_table@, k)].entry.fd_type@,
        )
    }

    /// The model's invariant: no (pid, descriptor) pair is in the table twice.
    pub closed spec fn wf(&self) -> bool {
        forall|i: int, j: int|
            0 <= i < j < self.fd_table@.len() ==> fd_key(#[trigger] self.fd_table@[i]) != fd_key(
                #[trigger] self.fd_table@[j],
            )
    }
}

/// Where the key `k` is in the descriptor table.
spec fn fd_index(t: Seq<FdRecord>, k: (u32, i64)) -> int {
    choose|i: int| 0 <= i < t.len() && #[trigger] fd_key(t[i]) == k
}

/// The key of a row of the descriptor table.
spec fn fd_key(r: FdRecord) -> (u32, i64) {
    (r.pid, r.fd)
}

fn clone_string(s: &String) -> (r: String)
    ensures
        r == *s,
{
    s.clone()
}

impl WorldModel {
    /// An empty world.
    pub fn new() -> (w: WorldModel)
        ensures
            w.wf(),
            w.processes_view() == Map::<u32, ProcessInfo>::empty(),
            w.connections_view() == Seq::<(u32, u32, Seq<char>, Option<i32>, Option<i32>)>::empty(),
            w.fds_view() == Map::<(u32, i64), Seq<char>>::empty(),
    {
        let w = WorldModel { processes: HashMap::new(), connections: Vec::new(), fd_table: Vec::new() };
        assert(w.connections_view() =~= Seq::empty());
        assert(w.fds_view() =~= Map::empty());
        w
    }

    /// Forget everything.
    pub fn reset(&mut self)
        ensures
            final(self).wf(),
            final(self).processes_view() == Map::<u32, ProcessInfo>::empty(),
            final(self).connections_view() == Seq::<(u32, u32, Seq<char>, Option<i32>, Option<i32>)>::empty(),
            final(self).fds_view() == Map::<(u32, i64), Seq<char>>::empty(),
    {
        self.processes.clear();
        self.connections.clear();
        self.fd_table.clear();
        assert(self.connections_view() =~= Seq::empty());
        assert(self.fds_view() =~= Map::empty());
    }

    /// The processes, by pid.
    pub fn processes(&self) -> (r: &HashMap<u32, ProcessInfo>)
        ensures
            r@ == self.processes_view(),
    {
        &self.processes
    }

    /// The links between processes, in the order they were made.
    pub fn connections(&self) -> (r: &Vec<ConnectionInfo>)
        ensures
            r@.map_values(|c: ConnectionInfo| connection_view(c)) == self.connections_view(),
    {
        &self.connections
    }

    /// Make sure process `pid` exists, naming a new one `comm`.
    fn ensure_process(&mut self, pid: u32, comm: &String)
        ensures
            final(self).processes_view() == old(self).processes_view().insert(
                pid,
                ensured(old(self).processes_view(), pid, *comm),
            ),
            final(self).connections == old(self).connections,
            final(self).fd_table == old(self).fd_table,
    {
        if !self.processes.contains_key(&pid) {
            self.processes.insert(pid, ProcessInfo::new(pid, clone_string(comm)));
        } else {
            assert(self.processes@.insert(pid, self.processes@[pid]) =~= self.processes@);
        }
    }

    /// Take process `pid` out of the map.
    fn take_process(&mut self, pid: u32) -> (p: ProcessInfo)
        requires
            old(self).processes_view().contains_key(pid),
        ensures
            p == old(self).processes_view()[pid],
            final(self).processes_view() == old(self).processes_view().remove(pid),
            final(self).connections == old(self).connections,
            final(self).fd_table == old(self).fd_table,
    {
        match self.processes.remove(&pid) {
            Some(p) => p,
            None => {
                assert(false);
                ProcessInfo::new(pid, String::new())
            },
        }
    }

    /// Put process `p` back under `pid`.
    fn put_process(&mut self, pid: u32, p: ProcessInfo)
        ensures
            final(self).processes_view() == old(self).processes_view().insert(pid, p),
            final(self).connections == old(self).connections,
            final(self).fd_table == old(self).fd_table,
    {
        self.processes.insert(pid, p);
    }

    /// Mark process `pid`, if the model has it, with a status and the time.
    fn touch_if_known(&mut self, pid: u32, status: ProcessStatus, ts: u64)
        ensures
            final(self).processes_view() == (if old(self).processes_view().contains_key(pid) {
                old(self).processes_view().insert(
                    pid,
                    touched(old(self).processes_view()[pid], status, ts),
                )
            } else {
                old(self).processes_view()
            }),
            final(self).connections == old(self).connections,
            final(self).fd_table == old(self).fd_table,
    {
        if self.processes.contains_key(&pid) {
            let mut p = self.take_process(pid);
            p.status = status;
            p.last_event_ts = ts;
            self.put_process(pid, p);
            assert(self.processes_view() =~= old(self).processes_view().insert(
                pid,
                touched(old(self).processes_view()[pid], status, ts),
            ));
        }
    }

    /// The row of the descriptor table for `fd` of `pid` (the table's length
    /// when there is none).
    fn find_fd_row(&self, pid: u32, fd: i64) -> (i: usize)
        ensures
            i <= self.fd_table@.len(),
            i < self.fd_table@.len() ==> fd_key(self.fd_table@[i as int]) == (pid, fd),
            i == self.fd_table@.len() ==> forall|j: int| 0 <= j < self.fd_table@.len() ==> fd_key(#[trigger] self.fd_table@[j]) != (pid, fd),
    {
        let mut i: usize = 0;
        while i < self.fd_table.len()
            invariant
                i <= self.fd_table@.len(),
                forall|j: int| 0 <= j < i ==> fd_key(#[trigger] self.fd_table@[j]) != (pid, fd),
            decreases self.fd_table@.len() - i,
        {
            if self.fd_table[i].pid == pid && self.fd_table[i].fd == fd {
                return i;
            }
            i += 1;
        }
        i
    }

    /// Record that descriptor `fd` of `pid` is a file.
    fn record_fd(&mut self, pid: u32, fd: i64)
        requires
            old(self).wf(),
        ensures
            final(self).wf(),
            final(self).fds_view() == old(self).fds_view().insert((pid, fd), "file"@),
            final(self).processes == old(self).processes,
            final(self).connections == old(self).connections,
    {
        let ghost k = (pid, fd);
        let ghost t0 = self.fd_table@;
        let entry = FdEntry { fd_type: "file".to_owned(), path: None };
        let i = self.find_fd_row(pid, fd);
        if i < self.fd_table.len() {
            assert(fd_key(t0[i as int]) == k);
            self.fd_table.set(i, FdRecord { pid, fd, entry });
            assert(fd_key(self.fd_table@[i as int]) == k);
            proof {
                let t1 = self.fd_table@;
                assert forall|a: int, b: int| 0 <= a < b < t1.len() implies fd_key(#[trigger] t1[a])
                    != fd_key(#[trigger] t1[b]) by {
                    assert(fd_key(t1[a]) == fd_key(t0[a]));
                    assert(fd_key(t1[b]) == fd_key(t0[b]));
                }
                assert forall|kk: (u32, i64)| #[trigger] self.fds_view().contains_key(kk)
                    == old(self).fds_view().contains_key(kk) by {
                    if exists|j: int| 0 <= j < t0.len() && fd_key(t0[j]) == kk {
                        let j = choose|j: int| 0 <= j < t0.len() && fd_key(t0[j]) == kk;
                        assert(fd_key(t1[j]) == kk);
                    }
                    if exists|j: int| 0 <= j < t1.len() && fd_key(t1[j]) == kk {
                        let j = choose|j: int| 0 <= j < t1.len() && fd_key(t1[j]) == kk;
                        assert(fd_key(t0[j]) == kk);
                    }
                }
                let ji = fd_index(t1, k);
                assert(fd_key(t1[ji]) == k);
                if ji != i {
                    if ji < i {
                        assert(fd_key(t1[ji]) != fd_key(t1[i as int]));
                    } else {
                        assert(fd_key(t1[i as int]) != fd_key(t1[ji]));
                    }
                }
                assert(fd_index(t1, k) == i);
                assert forall|kk: (u32, i64)| kk != k && #[trigger] self.fds_view().contains_key(kk) implies self.fds_view()[kk]
                    == old(self).fds_view()[kk] by {
                    let j = fd_index(t1, kk);
                    assert(fd_index(t0, kk) == j);
                }
                assert(self.fds_view() =~= old(self).fds_view().insert(k, "file"@));
            }
        } else {
            self.fd_table.push(FdRecord { pid, fd, entry });
            proof {
                let t1 = self.fd_table@;
                let n = t0.len() as int;
                assert forall|a: int, b: int| 0 <= a < b < t1.len() implies fd_key(#[trigger] t1[a])
                    != fd_key(#[trigger] t1[b]) by {
                    if b < n {
                        assert(fd_key(t1[a]) == fd_key(t0[a]));
                        assert(fd_key(t1[b]) == fd_key(t0[b]));
                    } else {
                        assert(fd_key(t1[a]) == fd_key(t0[a]));
                    }
                }
                assert(fd_key(t1[n]) == k);
                assert(fd_index(t1, k) == n);
                assert forall|kk: (u32, i64)| kk != k implies (#[trigger] self.fds_view().contains_key(kk)
                    == old(self).fds_view().contains_key(kk)) by {
                    if exists|j: int| 0 <= j < t0.len() && fd_key(t0[j]) == kk {
                        let j = choose|j: int| 0 <= j < t0.len() && fd_key(t0[j]) == kk;
                        assert(fd_key(t1[j]) == kk);
                    }
                    if exists|j: int| 0 <= j < t1.len() && fd_key(t1[j]) == kk {
                        let j = choose|j: int| 0 <= j < t1.len() && fd_key(t1[j]) == kk;
                        assert(j < n);
                        assert(fd_key(t0[j]) == kk);
                    }
                }
                assert forall|kk: (u32, i64)| kk != k && #[trigger] self.fds_view().contains_key(kk) implies self.fds_view()[kk]
                    == old(self).fds_view()[kk] by {
                    let j = fd_index(t1, kk);
                    assert(j < n);
                    assert(fd_index(t0, kk) == j);
                }
                assert(self.fds_view() =~= old(self).fds_view().insert(k, "file"@));
            }
        }
    }
}

/// A pid from a payload field (see `payload_pid`).
fn pid_field(p: &Payload, key: &str) -> (pid: u32)
    ensures
        pid == payload_pid(*p, key@),
{
    match p.get(key) {
        Some(v) => match v.as_u64() {
            Some(n) => n as u32,
            None => 0,
        },
        None => 0,
    }
}

impl WorldModel {
    fn handle_syscall_enter(&mut self, event: &TraceEvent)
        requires
            old(self).wf(),
            counts_fit(old(self).processes_view(), 1),
            event.event_type == EventType::SyscallEnter,
        ensures
            final(self).wf(),
            final(self).processes_view() == processes_after(old(self).processes_view(), *event),
            final(self).connections == old(self).connections,
            final(self).fd_table == old(self).fd_table,
    {
        let ghost m0 = self.processes_view();
        self.ensure_process(event.pid, &event.comm);
        let mut p = self.take_process(event.pid);
        assert(p == ensured(m0, event.pid, event.comm));
        p.syscall_count = p.syscall_count + 1;
        p.last_event_ts = event.ts;
        p.status = ProcessStatus::Running;
        self.put_process(event.pid, p);
        assert(self.processes_view() =~= processes_after(m0, *event));
    }

    fn handle_syscall_exit(&mut self, event: &TraceEvent)
        requires
            old(self).wf(),
            event.event_type == EventType::SyscallExit,
        ensures
            final(self).wf(),
            final(self).processes_view() == processes_after(old(self).processes_view(), *event),
            final(self).connections == old(self).connections,
            final(self).fds_view() == fds_after(old(self).fds_view(), *event),
    {
        let ghost m0 = self.processes_view();
        self.ensure_process(event.pid, &event.comm);
        let mut p = self.take_process(event.pid);
        p.last_event_ts = event.ts;
        self.put_process(event.pid, p);
        assert(self.processes_view() =~= processes_after(m0, *event));
        let is_open = match event.payload.get("name") {
            Some(v) => match v.as_str() {
                Some(name) => crate::trace_types::str_eq(name.as_str(), "open"),
                None => false,
            },
            None => false,
        };
        let ret: i64 = match event.payload.get("ret") {
            Some(v) => match v.as_i64() {
                Some(r) => r,
                None => -1,
            },
            None => -1,
        };
        proof {
            reveal_strlit("open");
            reveal_strlit("");
            match payload_get(event.payload, "name"@) {
                Some(JsonValue::Str(nm)) => {
                    assert(exit_name(event.payload) == nm@);
                },
                _ => {
                    assert(!is_open);
                    assert(exit_name(event.payload) == ""@);
                    assert(""@.len() == 0);
                    assert("open"@.len() == 4);
                },
            }
            assert(is_open == (exit_name(event.payload) == "open"@));
        }
        if is_open && ret >= 0 {
            self.record_fd(event.pid, ret);
        }
    }

    fn handle_sched_switch(&mut self, event: &TraceEvent)
        requires
            old(self).wf(),
            event.event_type == EventType::SchedSwitch,
        ensures
            final(self).wf(),
            final(self).processes_view() == processes_after(old(self).processes_view(), *event),
            final(self).connections == old(self).connections,
            final(self).fd_table == old(self).fd_table,
    {
        let prev_pid = pid_field(&event.payload, "prev_pid");
        let next_pid = pid_field(&event.payload, "next_pid");
        self.touch_if_known(prev_pid, ProcessStatus::Sleeping, event.ts);
        self.touch_if_known(next_pid, ProcessStatus::Running, event.ts);
    }

    fn handle_process_fork(&mut self, event: &TraceEvent)
        requires
            old(self).wf(),
            event.event_type == EventType::ProcessFork,
        ensures
            final(self).wf(),
            final(self).processes_view() == processes_after(old(self).processes_view(), *event),
            final(self).connections_view() == connections_after(old(self).connections_view(), *event),
            final(self).fd_table == old(self).fd_table,
    {
        let ghost m0 = self.processes_view();
        let ghost c0 = self.connections_view();
        let parent_pid = pid_field(&event.payload, "parent_pid");
        let child_pid = pid_field(&event.payload, "child_pid");
        let child_comm = match event.payload.get("child_comm") {
            Some(v) => match v.as_str() {
                Some(s) => clone_string(s),
                None => clone_string(&event.comm),
            },
            None => clone_string(&event.comm),
        };
        assert(child_comm == child_comm_of(*event));
        self.ensure_process(parent_pid, &event.comm);
        let ghost m1 = self.processes_view();
        self.ensure_process(child_pid, &child_comm);
        let mut child = self.take_process(child_pid);
        assert(child == ensured(m1, child_pid, child_comm));
        child.parent_pid = Some(parent_pid);
        child.comm = child_comm;
        child.status = ProcessStatus::Running;
        self.put_process(child_pid, child);
        assert(self.processes_view() =~= processes_after(m0, *event));
        self.connections.push(
            ConnectionInfo {
                from_pid: parent_pid,
                to_pid: child_pid,
                conn_type: "fork".to_owned(),
                fd_from: None,
                fd_to: None,
            },
        );
        assert(self.connections_view() =~= connections_after(c0, *event));
    }

    fn handle_gpu_submit(&mut self, event: &TraceEvent)
        requires
            old(self).wf(),
            counts_fit(old(self).processes_view(), 1),
            event.event_type == EventType::GpuSubmit,
        ensures
            final(self).wf(),
            final(self).processes_view() == processes_after(old(self).processes_view(), *event),
            final(self).connections == old(self).connections,
            final(self).fd_table == old(self).fd_table,
    {
        let ghost m0 = self.processes_view();
        self.ensure_process(event.pid, &event.comm);
        let mut p = self.take_process(event.pid);
        assert(p == ensured(m0, event.pid, event.comm));
        p.gpu_submit_count = p.gpu_submit_count + 1;
        p.last_event_ts = event.ts;
        p.status = ProcessStatus::Running;
        self.put_process(event.pid, p);
        assert(self.processes_view() =~= processes_after(m0, *event));
    }

    fn handle_gpu_complete(&mut self, event: &TraceEvent)
        requires
            old(self).wf(),
            event.event_type == EventType::GpuComplete,
        ensures
            final(self).wf(),
            final(self).processes_view() == processes_after(old(self).processes_view(), *event),
            final(self).connections == old(self).connections,
            final(self).fd_table == old(self).fd_table,
    {
        let ghost m0 = self.processes_view();
        self.ensure_process(event.pid, &event.comm);
        let mut p = self.take_process(event.pid);
        p.last_event_ts = event.ts;
        self.put_process(event.pid, p);
        assert(self.processes_view() =~= processes_after(m0, *event));
    }

    /// Apply one trace event: count syscalls and GPU submissions, follow
    /// scheduling, forks and exits, and record files opened successfully.
    /// Power events change nothing.
    pub fn process_event(&mut self, event: &TraceEvent)
        requires
            old(self).wf(),
            counts_fit(old(self).processes_view(), 1),
        ensures
            final(self).wf(),
            final(self).processes_view() == processes_after(old(self).processes_view(), *event),
            final(self).connections_view() == connections_after(old(self).connections_view(), *event),
            final(self).fds_view() == fds_after(old(self).fds_view(), *event),
    {
        match event.event_type {
            EventType::SyscallEnter => self.handle_syscall_enter(event),
            EventType::SyscallExit => self.handle_syscall_exit(event),
            EventType::SchedSwitch => self.handle_sched_switch(event),
            EventType::ProcessFork => self.handle_process_fork(event),
            EventType::ProcessExit => self.touch_if_known(event.pid, ProcessStatus::Exited, event.ts),
            EventType::GpuSubmit => self.handle_gpu_submit(event),
            EventType::GpuComplete => self.handle_gpu_complete(event),
            EventType::PowerTrace => {},
        }
    }

    /// Apply trace events in order.
    pub fn process_events(&mut self, events: &[TraceEvent])
        requires
            old(self).wf(),
            counts_fit(old(self).processes_view(), events@.len() as int),
        ensures
            final(self).wf(),
            final(self).processes_view() == processes_after_all(old(self).processes_view(), events@),
            final(self).connections_view() == connections_after_all(old(self).connections_view(), events@),
            final(self).fds_view() == fds_after_all(old(self).fds_view(), events@),
            forall|k: int|
                events@.len() <= k <= u64::MAX && counts_fit(old(self).processes_view(), k) ==> #[trigger] counts_fit(
                    final(self).processes_view(),
                    k - events@.len(),
                ),
    {
        let ghost m0 = self.processes_view();
        let ghost c0 = self.connections_view();
        let ghost f0 = self.fds_view();
        let n = events.len();
        for i in 0..n
            invariant
                n == events@.len(),
                self.wf(),
                counts_fit(self.processes_view(), n - i),
                self.processes_view() == processes_after_all(m0, events@.take(i as int)),
                self.connections_view() == connections_after_all(c0, events@.take(i as int)),
                self.fds_view() == fds_after_all(f0, events@.take(i as int)),
        {
            proof {
                lemma_counts_step(self.processes_view(), events@[i as int], (n - i) as int);
                assert(events@.take(i + 1).drop_last() == events@.take(i as int));
            }
            self.process_event(&events[i]);
        }
        assert(events@.take(n as int) == events@);
        proof {
            assert forall|k: int|
                events@.len() <= k <= u64::MAX && counts_fit(m0, k) implies #[trigger] counts_fit(
                    self.processes_view(),
                    k - events@.len(),
                ) by {
                lemma_counts_after_all(m0, events@, k);
            }
        }
    }

    /// Start over and apply the events up to the first one later than
    /// `up_to_ts`.
    pub fn rebuild_to(&mut self, events: &[TraceEvent], up_to_ts: u64)
        ensures
            final(self).wf(),
            final(self).processes_view() == processes_after_all(
                Map::empty(),
                events@.take(events_until(events@, up_to_ts, 0)),
            ),
            final(self).connections_view() == connections_after_all(
                Seq::empty(),
                events@.take(events_until(events@, up_to_ts, 0)),
            ),
            final(self).fds_view() == fds_after_all(
                Map::empty(),
                events@.take(events_until(events@, up_to_ts, 0)),
            ),
    {
        self.reset();
        let n = events.len();
        let mut i: usize = 0;
        proof {
            lemma_events_until(events@, up_to_ts, 0);
        }
        while i < n && events[i].ts <= up_to_ts
            invariant
                n == events@.len(),
                i <= n,
                self.wf(),
                i <= events_until(events@, up_to_ts, 0),
                events_until(events@, up_to_ts, 0) == events_until(events@, up_to_ts, i as int),
                counts_fit(self.processes_view(), n - i),
                self.processes_view() == processes_after_all(Map::empty(), events@.take(i as int)),
                self.connections_view() == connections_after_all(Seq::empty(), events@.take(i as int)),
                self.fds_view() == fds_after_all(Map::empty(), events@.take(i as int)),
            decreases n - i,
        {
            proof {
                lemma_events_until(events@, up_to_ts, i + 1);
                lemma_counts_step(self.processes_view(), events@[i as int], (n - i) as int);
                assert(events@.take(i + 1).drop_last() == events@.take(i as int));
            }
            self.process_event(&events[i]);
            i += 1;
        }
        proof {
            lemma_events_until(events@, up_to_ts, i as int);
        }
    }
}

} // verus!
