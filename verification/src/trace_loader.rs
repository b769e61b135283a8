//! What loading a trace file leaves to the library: the load error, putting
//! the events in time order, and the summary of a loaded trace.

use vstd::prelude::*;
use vstd::string::StringExecFns;

use crate::replayer::sorted_by_ts;
use crate::net::{bytes_eq, lit};
use crate::trace_types::{EventType, TraceEvent};

verus! {

/// Why a trace could not be loaded.
pub enum TraceLoadError {
    /// No file at this path.
    NotFound(String),
    /// Reading the file failed; the reason.
    Io(String),
}

impl TraceLoadError {
    /// The error as a message.
    pub fn message(&self) -> (m: String)
        ensures
            m@ == match *self {
                TraceLoadError::NotFound(p) => "trace file not found: "@ + p@,
                TraceLoadError::Io(e) => "I/O error: "@ + e@,
            },
    {
        match self {
            TraceLoadError::NotFound(p) => "trace file not found: ".to_owned().concat(p.as_str()),
            TraceLoadError::Io(e) => "I/O error: ".to_owned().concat(e.as_str()),
        }
    }
}

// ---------------------------------------------------------------------------
// Time order
// ---------------------------------------------------------------------------

/// `perm` says where each of `out` came from in `input`: every position
/// once, in time order, and events with equal times in their input order.
pub open spec fn stable_sort_of(input: Seq<TraceEvent>, out: Seq<TraceEvent>, perm: Seq<int>) -> bool {
    &&& out.len() == input.len()
    &&& perm.len() == input.len()
    &&& forall|k: int| 0 <= k < perm.len() ==> 0 <= #[trigger] perm[k] < input.len()
    &&& forall|k: int, l: int| 0 <= k < l < perm.len() ==> #[trigger] perm[k] != #[trigger] perm[l]
    &&& forall|k: int| 0 <= k < out.len() ==> #[trigger] out[k] == input[perm[k]]
    &&& sorted_by_ts(out)
    &&& forall|k: int, l: int|
        0 <= k < l < out.len() && (#[trigger] out[k]).ts == (#[trigger] out[l]).ts ==> perm[k] < perm[l]
}

/// Put events in time order, keeping events with equal times in order.
pub fn sort_events_by_ts(events: Vec<TraceEvent>) -> (out: Vec<TraceEvent>)
    ensures
        exists|perm: Seq<int>| stable_sort_of(events@, out@, perm),
{
    let ghost input = events@;
    let mut events = events;
    let mut out: Vec<TraceEvent> = Vec::new();
    let ghost mut perm: Seq<int> = seq![];
    let n = events.len();
    while events.len() > 0
        invariant
            n == input.len(),
            events@ == input.take(events@.len() as int),
            out@.len() + events@.len() == n,
            perm.len() == out@.len(),
            forall|k: int| 0 <= k < perm.len() ==> events@.len() <= #[trigger] perm[k] < n,
            forall|k: int, l: int| 0 <= k < l < perm.len() ==> #[trigger] perm[k] != #[trigger] perm[l],
            forall|k: int| 0 <= k < out@.len() ==> #[trigger] out@[k] == input[perm[k]],
            sorted_by_ts(out@),
            forall|k: int, l: int|
                0 <= k < l < out@.len() && (#[trigger] out@[k]).ts == (#[trigger] out@[l]).ts ==> perm[k]
                    < perm[l],
        decreases events@.len(),
    {
        let ghost src = events@.len() - 1;
        let e = events.pop().unwrap();
        assert(e == input[src]);
        let mut j: usize = 0;
        while j < out.len() && out[j].ts < e.ts
            invariant
                j <= out@.len(),
                forall|k: int| 0 <= k < j ==> (#[trigger] out@[k]).ts < e.ts,
            decreases out@.len() - j,
        {
            j += 1;
        }
        let ghost old_out = out@;
        let ghost old_perm = perm;
        proof {
            assert forall|k: int| j <= k < old_out.len() implies (#[trigger] old_out[k]).ts >= e.ts by {
                assert(old_out[j as int].ts <= old_out[k].ts);
            }
        }
        out.insert(j, e);
        proof {
            perm = old_perm.insert(j as int, src);
            assert forall|k: int, l: int| 0 <= k < l < perm.len() implies #[trigger] perm[k] != #[trigger] perm[l] by {
                if k < j && l < j {
                } else if k < j && l == j {
                } else if k < j {
                    assert(perm[l] == old_perm[l - 1]);
                } else if k == j {
                    assert(perm[l] == old_perm[l - 1]);
                } else {
                    assert(perm[k] == old_perm[k - 1]);
                    assert(perm[l] == old_perm[l - 1]);
                }
            }
            assert forall|k: int| 0 <= k < out@.len() implies #[trigger] out@[k] == input[perm[k]] by {
                if k > j {
                    assert(out@[k] == old_out[k - 1]);
                }
            }
            assert forall|k: int, l: int| 0 <= k <= l < out@.len() implies (#[trigger] out@[k]).ts <= (
            #[trigger] out@[l]).ts by {
                if l < j {
                } else if k < j && l == j {
                } else if k < j {
                    assert(out@[l] == old_out[l - 1]);
                    assert(old_out[k].ts <= old_out[l - 1].ts);
                } else if k == j && l > j {
                    assert(out@[l] == old_out[l - 1]);
                } else if k > j {
                    assert(out@[k] == old_out[k - 1]);
                    assert(out@[l] == old_out[l - 1]);
                    assert(old_out[k - 1].ts <= old_out[l - 1].ts);
                }
            }
            assert forall|k: int, l: int|
                0 <= k < l < out@.len() && (#[trigger] out@[k]).ts == (#[trigger] out@[l]).ts implies perm[k]
                < perm[l] by {
                if k < j && l == j {
                    assert(old_out[k].ts < e.ts);
                } else if k == j {
                    assert(perm[l] == old_perm[l - 1]);
                    assert(old_perm[l - 1] >= events@.len() + 1);
                } else if k < j && l < j {
                } else if k < j {
                    assert(out@[l] == old_out[l - 1]);
                    assert(perm[l] == old_perm[l - 1]);
                } else if k > j {
                    assert(out@[k] == old_out[k - 1]);
                    assert(out@[l] == old_out[l - 1]);
                }
            }
            assert(events@ == input.take(events@.len() as int));
        }
    }
    proof {
        assert(stable_sort_of(input, out@, perm));
    }
    out
}

// ---------------------------------------------------------------------------
// Summary
// ---------------------------------------------------------------------------

/// The event types in the order of their names.
pub open spec fn types_by_name() -> Seq<EventType> {
    seq![
        EventType::GpuComplete,
        EventType::GpuSubmit,
        EventType::PowerTrace,
        EventType::ProcessExit,
        EventType::ProcessFork,
        EventType::SchedSwitch,
        EventType::SyscallEnter,
        EventType::SyscallExit,
    ]
}

/// What a loaded trace holds, in brief.
pub struct TraceSummary {
    pub event_count: usize,
    /// The first and last event times (none for an empty trace).
    pub span: Option<(u64, u64)>,
    pub duration_ns: u64,
    /// Every pid that occurs, ascending, once each.
    pub pids: Vec<u32>,
    /// Every event type that occurs, in the order of their names, once each.
    pub event_types: Vec<EventType>,
}

/// Whether `pids` holds the pids of `events`, ascending, once each.
pub open spec fn pids_of(events: Seq<TraceEvent>, pids: Seq<u32>) -> bool {
    &&& forall|i: int, j: int| 0 <= i < j < pids.len() ==> #[trigger] pids[i] < #[trigger] pids[j]
    &&& forall|p: u32| pids.contains(p) <==> exists|k: int| 0 <= k < events.len() && (#[trigger] events[k]).pid == p
}

/// The event types that occur in `events`, in the order of their names.
pub open spec fn types_of(events: Seq<TraceEvent>) -> Seq<EventType> {
    types_by_name().filter(
        |t: EventType| exists|k: int| 0 <= k < events.len() && (#[trigger] events[k]).event_type == t,
    )
}

fn has_type(events: &[TraceEvent], t: EventType) -> (r: bool)
    ensures
        r == exists|k: int| 0 <= k < events@.len() && (#[trigger] events@[k]).event_type == t,
{
    for i in 0..events.len()
        invariant
            forall|k: int| 0 <= k < i ==> (#[trigger] events@[k]).event_type != t,
    {
        if events[i].event_type == t {
            return true;
        }
    }
    false
}

fn insert_sorted_unique(pids: &mut Vec<u32>, p: u32)
    requires
        forall|i: int, j: int| 0 <= i < j < old(pids)@.len() ==> #[trigger] old(pids)@[i] < #[trigger] old(pids)@[j],
    ensures
        forall|i: int, j: int| 0 <= i < j < final(pids)@.len() ==> #[trigger] final(pids)@[i] < #[trigger] final(pids)@[j],
        forall|q: u32| final(pids)@.contains(q) <==> (old(pids)@.contains(q) || q == p),
{
    let mut j: usize = 0;
    while j < pids.len() && pids[j] < p
        invariant
            j <= pids@.len(),
            forall|k: int| 0 <= k < j ==> #[trigger] pids@[k] < p,
        decreases pids@.len() - j,
    {
        j += 1;
    }
    if j < pids.len() && pids[j] == p {
        return;
    }
    let ghost old_p = pids@;
    proof {
        assert forall|k: int| j <= k < old_p.len() implies #[trigger] old_p[k] > p by {
            assert(old_p[j as int] <= old_p[k]);
        }
    }
    pids.insert(j, p);
    proof {
        assert forall|a: int, b: int| 0 <= a < b < pids@.len() implies #[trigger] pids@[a] < #[trigger] pids@[b] by {
            if a < j && b > j {
                assert(pids@[b] == old_p[b - 1]);
            } else if a == j && b > j {
                assert(pids@[b] == old_p[b - 1]);
            } else if a > j {
                assert(pids@[a] == old_p[a - 1]);
                assert(pids@[b] == old_p[b - 1]);
            }
        }
        assert forall|q: u32| pids@.contains(q) <==> (old_p.contains(q) || q == p) by {
            if pids@.contains(q) {
                let k = choose|k: int| 0 <= k < pids@.len() && pids@[k] == q;
                if k > j {
                    assert(old_p[k - 1] == q);
                } else if k < j {
                    assert(old_p[k] == q);
                }
            }
            if old_p.contains(q) {
                let k = choose|k: int| 0 <= k < old_p.len() && old_p[k] == q;
                if k >= j {
                    assert(pids@[k + 1] == q);
                } else {
                    assert(pids@[k] == q);
                }
            }
            if q == p {
                assert(pids@[j as int] == q);
            }
        }
    }
}

/// Whether a directory entry named `name` is a trace: its name ends in
/// `.jsonl`.
pub fn is_trace_file(name: &str) -> (r: bool)
    ensures
        r <==> (lit(name).len() >= 6 && lit(name).subrange(lit(name).len() - 6, lit(name).len() as int)
            == lit(".jsonl")),
{
    let b = name.as_bytes();
    if b.len() < 6 {
        return false;
    }
    let tail = slice_from(b, b.len() - 6);
    bytes_eq(tail, ".jsonl".as_bytes())
}

fn slice_from(b: &[u8], start: usize) -> (t: &[u8])
    requires
        start <= b@.len(),
    ensures
        t@ == b@.subrange(start as int, b@.len() as int),
{
    &b[start..b.len()]
}

/// Summarize a time-ordered trace: how many events, when it starts and
/// ends and how long it lasts, which pids and which event types occur.
pub fn get_trace_info(events: &[TraceEvent]) -> (s: TraceSummary)
    requires
        sorted_by_ts(events@),
    ensures
        s.event_count == events@.len(),
        events@.len() == 0 ==> s.span is None && s.duration_ns == 0,
        events@.len() > 0 ==> s.span == Some((events@[0].ts, events@.last().ts)) && s.duration_ns
            == events@.last().ts - events@[0].ts,
        pids_of(events@, s.pids@),
        s.event_types@ == types_of(events@),
{
    let n = events.len();
    let mut pids: Vec<u32> = Vec::new();
    for i in 0..n
        invariant
            n == events@.len(),
            forall|a: int, b: int| 0 <= a < b < pids@.len() ==> #[trigger] pids@[a] < #[trigger] pids@[b],
            forall|p: u32| pids@.contains(p) <==> exists|k: int| 0 <= k < i && (#[trigger] events@[k]).pid == p,
    {
        insert_sorted_unique(&mut pids, events[i].pid);
        proof {
            assert forall|p: u32| pids@.contains(p) <==> exists|k: int| 0 <= k < i + 1 && (#[trigger] events@[k]).pid == p by {
                if p == events@[i as int].pid {
                    assert(events@[i as int].pid == p);
                }
            }
        }
    }
    let order: [EventType; 8] = [
        EventType::GpuComplete,
        EventType::GpuSubmit,
        EventType::PowerTrace,
        EventType::ProcessExit,
        EventType::ProcessFork,
        EventType::SchedSwitch,
        EventType::SyscallEnter,
        EventType::SyscallExit,
    ];
    assert(order@ == types_by_name());
    let ghost present = |t: EventType| exists|k: int| 0 <= k < events@.len() && (#[trigger] events@[k]).event_type == t;
    let mut event_types: Vec<EventType> = Vec::new();
    for i in 0..8usize
        invariant
            order@ == types_by_name(),
            event_types@ == types_by_name().take(i as int).filter(present),
            forall|t: EventType| #[trigger] present(t) == exists|k: int| 0 <= k < events@.len() && (#[trigger] events@[k]).event_type == t,
    {
        let has = has_type(events, order[i]);
        if has {
            event_types.push(order[i]);
        }
        proof {
            let pre = types_by_name().take(i as int);
            let x = types_by_name()[i as int];
            assert(types_by_name().take(i + 1) == pre.push(x));
            assert(pre.push(x).drop_last() == pre);
            assert(has == present(x));
            reveal(Seq::filter);
            assert(pre.push(x).filter(present) == (if present(x) { pre.filter(present).push(x) } else { pre.filter(present) }));
            assert(event_types@ == types_by_name().take(i + 1).filter(present));
        }
    }
    assert(types_by_name().take(8) == types_by_name());
    if n == 0 {
        return TraceSummary { event_count: 0, span: None, duration_ns: 0, pids, event_types };
    }
    let first = events[0].ts;
    let last = events[n - 1].ts;
    TraceSummary { event_count: n, span: Some((first, last)), duration_ns: last - first, pids, event_types }
}

} // verus!
