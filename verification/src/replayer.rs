//! Replaying a trace: the playback position, seeking, filters, and the
//! batches of events that fall in one frame. Waiting between batches (at a
//! chosen speed) is left to the driver.

use std::collections::HashSet;
use vstd::prelude::*;

use crate::trace_types::{event_type_name, str_eq, JsonValue, Payload, PayloadField, TraceEvent};

verus! {

broadcast use vstd::std_specs::hash::group_hash_axioms;

/// Events within this many nanoseconds of a batch's first go in the batch
/// (one frame at 60 fps).
pub const BATCH_WINDOW_NS: u64 = 16_000_000;

/// The events are in time order.
pub open spec fn sorted_by_ts(es: Seq<TraceEvent>) -> bool {
    forall|i: int, j: int| 0 <= i <= j < es.len() ==> (#[trigger] es[i]).ts <= (#[trigger] es[j]).ts
}

/// Two events are the same, field by field.
pub open spec fn same_event(a: TraceEvent, b: TraceEvent) -> bool {
    &&& a.ts == b.ts
    &&& a.event_type == b.event_type
    &&& a.pid == b.pid
    &&& a.tid == b.tid
    &&& a.cpu == b.cpu
    &&& a.comm == b.comm
    &&& a.payload.fields@.len() == b.payload.fields@.len()
    &&& forall|i: int|
        0 <= i < a.payload.fields@.len() ==> same_field(#[trigger] a.payload.fields@[i], b.payload.fields@[i])
}

/// Two payload fields are the same.
pub open spec fn same_field(a: PayloadField, b: PayloadField) -> bool {
    a.key == b.key && a.value == b.value
}

fn clone_value(v: &JsonValue) -> (r: JsonValue)
    ensures
        r == *v,
{
    match v {
        JsonValue::Null => JsonValue::Null,
        JsonValue::Bool(b) => JsonValue::Bool(*b),
        JsonValue::PosInt(n) => JsonValue::PosInt(*n),
        JsonValue::NegInt(n) => JsonValue::NegInt(*n),
        JsonValue::Float(t) => JsonValue::Float(t.clone()),
        JsonValue::Str(s) => JsonValue::Str(s.clone()),
        JsonValue::Array(t) => JsonValue::Array(t.clone()),
        JsonValue::Object(t) => JsonValue::Object(t.clone()),
    }
}

impl TraceEvent {
    /// A copy of this event.
    pub fn copy_event(&self) -> (r: TraceEvent)
        ensures
            same_event(r, *self),
    {
        let mut fields: Vec<PayloadField> = Vec::new();
        for i in 0..self.payload.fields.len()
            invariant
                fields@.len() == i,
                forall|k: int| 0 <= k < i ==> same_field(#[trigger] fields@[k], self.payload.fields@[k]),
        {
            let f = &self.payload.fields[i];
            fields.push(PayloadField { key: f.key.clone(), value: clone_value(&f.value) });
        }
        TraceEvent {
            ts: self.ts,
            event_type: self.event_type,
            pid: self.pid,
            tid: self.tid,
            cpu: self.cpu,
            comm: self.comm.clone(),
            payload: Payload { fields },
        }
    }
}

/// Plays a time-ordered trace back in frame-sized batches.
pub struct TraceReplayer {
    events: Vec<TraceEvent>,
    position: usize,
    playing: bool,
    start_ts: u64,
    end_ts: u64,
    filter_pids: Option<HashSet<u32>>,
    filter_types: Option<Vec<String>>,
}

/// Whether an event of type name `name` passes the type filter `types`.
pub open spec fn type_passes(types: Option<Seq<Seq<char>>>, name: Seq<char>) -> bool {
    match types {
        Some(ts) => ts.contains(name),
        None => true,
    }
}

/// Whether an event from `pid` passes the pid filter `pids`.
pub open spec fn pid_passes(pids: Option<Set<u32>>, pid: u32) -> bool {
    match pids {
        Some(ps) => ps.contains(pid),
        None => true,
    }
}

/// Where a batch that starts at `from` (at time `start`) ends: after the
/// events within the window.
pub open spec fn window_end(es: Seq<TraceEvent>, from: int, start: u64) -> int
    decreases es.len() - from,
{
    if from < 0 || from >= es.len() || es[from].ts - start > BATCH_WINDOW_NS {
        from
    } else {
        window_end(es, from + 1, start)
    }
}

impl TraceReplayer {
    /// The events being replayed.
    pub closed spec fn events_view(&self) -> Seq<TraceEvent> {
        self.events@
    }

    /// The position of the next event to play.
    pub closed spec fn position_view(&self) -> int {
        self.position as int
    }

    /// Whether playback is running.
    pub closed spec fn playing_view(&self) -> bool {
        self.playing
    }

    /// The pid filter, if any.
    pub closed spec fn pids_view(&self) -> Option<Set<u32>> {
        match self.filter_pids {
            Some(s) => Some(s@),
            None => None,
        }
    }

    /// The type filter (type names), if any.
    pub closed spec fn types_view(&self) -> Option<Seq<Seq<char>>> {
        match self.filter_types {
            Some(v) => Some(v@.map_values(|s: String| s@)),
            None => None,
        }
    }

    /// The replayer's invariant: the events are in time order, the position
    /// within them, and the first and last times those of the first and
    /// last events (both 0 for no events).
    pub closed spec fn wf(&self) -> bool {
        &&& sorted_by_ts(self.events@)
        &&& self.position <= self.events@.len()
        &&& self.events@.len() == 0 ==> self.start_ts == 0 && self.end_ts == 0
        &&& self.events@.len() > 0 ==> self.start_ts == self.events@[0].ts && self.end_ts
            == self.events@.last().ts
    }

    /// The time of the next event to play (the last event's once all played).
    pub open spec fn position_time(&self) -> u64 {
        if self.position_view() >= self.events_view().len() {
            self.end_view()
        } else {
            self.events_view()[self.position_view()].ts
        }
    }

    /// The time of the first event (0 for no events).
    pub closed spec fn start_view(&self) -> u64 {
        self.start_ts
    }

    /// The time of the last event (0 for no events).
    pub closed spec fn end_view(&self) -> u64 {
        self.end_ts
    }

    /// A paused replayer at the start of `events`, with no filters.
    pub fn new(events: Vec<TraceEvent>) -> (r: TraceReplayer)
        requires
            sorted_by_ts(events@),
        ensures
            r.wf(),
            r.events_view() == events@,
            r.position_view() == 0,
            !r.playing_view(),
            r.pids_view() is None,
            r.types_view() is None,
    {
        let n = events.len();
        let (start_ts, end_ts) = if n == 0 {
            (0, 0)
        } else {
            (events[0].ts, events[n - 1].ts)
        };
        TraceReplayer {
            events,
            position: 0,
            playing: false,
            start_ts,
            end_ts,
            filter_pids: None,
            filter_types: None,
        }
    }

    /// The events being replayed.
    pub fn events(&self) -> (r: &Vec<TraceEvent>)
        ensures
            r@ == self.events_view(),
    {
        &self.events
    }

    /// The time of the first event.
    pub fn start_ns(&self) -> (t: u64)
        ensures
            t == self.start_view(),
    {
        self.start_ts
    }

    /// The time of the next event to play (the last event's once all played).
    pub fn position_ns(&self) -> (t: u64)
        requires
            self.wf(),
        ensures
            t == self.position_time(),
    {
        if self.events.len() == 0 || self.position >= self.events.len() {
            self.end_ts
        } else {
            self.events[self.position].ts
        }
    }

    /// How far playback has got since the first event.
    pub fn elapsed_ns(&self) -> (t: u64)
        requires
            self.wf(),
        ensures
            t == self.position_time() - self.start_view(),
    {
        proof {
            if self.events@.len() > 0 {
                assert(self.events@[0].ts <= self.events@[self.events@.len() - 1].ts);
                if self.position < self.events@.len() {
                    assert(self.events@[0].ts <= self.events@[self.position as int].ts);
                }
            }
        }
        self.position_ns().saturating_sub(self.start_ts)
    }

    /// How long the trace lasts.
    pub fn duration_ns(&self) -> (t: u64)
        requires
            self.wf(),
        ensures
            t == self.end_view() - self.start_view(),
    {
        proof {
            if self.events@.len() > 0 {
                assert(self.events@[0].ts <= self.events@[self.events@.len() - 1].ts);
            }
        }
        self.end_ts.saturating_sub(self.start_ts)
    }

    /// Whether playback is running.
    pub fn is_playing(&self) -> (r: bool)
        ensures
            r == self.playing_view(),
    {
        self.playing
    }

    /// `stopped` once every event is played, else `playing` or `paused`.
    pub fn status(&self) -> (s: &'static str)
        ensures
            s@ == (if self.position_view() >= self.events_view().len() {
                "stopped"@
            } else if self.playing_view() {
                "playing"@
            } else {
                "paused"@
            }),
    {
        if self.position >= self.events.len() {
            "stopped"
        } else if self.playing {
            "playing"
        } else {
            "paused"
        }
    }

    /// Start playing.
    pub fn play(&mut self)
        ensures
            final(self).playing_view(),
            final(self).events_view() == old(self).events_view(),
            final(self).position_view() == old(self).position_view(),
            final(self).wf() == old(self).wf(),
            final(self).start_view() == old(self).start_view(),
            final(self).end_view() == old(self).end_view(),
            final(self).pids_view() == old(self).pids_view(),
            final(self).types_view() == old(self).types_view(),
    {
        self.playing = true;
    }

    /// Stop playing.
    pub fn pause(&mut self)
        ensures
            !final(self).playing_view(),
            final(self).events_view() == old(self).events_view(),
            final(self).position_view() == old(self).position_view(),
            final(self).wf() == old(self).wf(),
            final(self).start_view() == old(self).start_view(),
            final(self).end_view() == old(self).end_view(),
            final(self).pids_view() == old(self).pids_view(),
            final(self).types_view() == old(self).types_view(),
    {
        self.playing = false;
    }

    /// Back to the first event, paused.
    pub fn reset(&mut self)
        requires
            old(self).wf(),
        ensures
            final(self).wf(),
            final(self).position_view() == 0,
            !final(self).playing_view(),
            final(self).events_view() == old(self).events_view(),
            final(self).start_view() == old(self).start_view(),
            final(self).end_view() == old(self).end_view(),
            final(self).pids_view() == old(self).pids_view(),
            final(self).types_view() == old(self).types_view(),
    {
        self.position = 0;
        self.playing = false;
    }
}

/// The positions in `lo..hi` of the events that pass the filters, in order.
pub open spec fn batch_positions(
    es: Seq<TraceEvent>,
    lo: int,
    hi: int,
    pids: Option<Set<u32>>,
    types: Option<Seq<Seq<char>>>,
) -> Seq<int>
    decreases hi - lo,
{
    if hi <= lo {
        seq![]
    } else {
        let rest = batch_positions(es, lo, hi - 1, pids, types);
        if pid_passes(pids, es[hi - 1].pid) && type_passes(types, event_type_name(es[hi - 1].event_type)) {
            rest.push(hi - 1)
        } else {
            rest
        }
    }
}

/// How long to wait before the batch after one that started at `start`
/// and ended before position `next`: the gap to the next event beyond the
/// window, nothing after the last event.
pub open spec fn batch_delay(es: Seq<TraceEvent>, next: int, start: u64) -> u64 {
    if next < es.len() {
        let gap = es[next].ts - start;
        if gap > BATCH_WINDOW_NS { (gap - BATCH_WINDOW_NS) as u64 } else { 0 }
    } else {
        0
    }
}

/// `t` brought into `lo..=hi`.
/// Whether `batch` (with `delay`) is the frame that playback takes from
/// `es` at position `from` under the filters `pids` and `types`, leaving the
/// position at `to`: the events within the window of the event at `from`,
/// those that pass the filters in their order, and the wait before the next.
pub open spec fn is_next_batch(
    es: Seq<TraceEvent>,
    from: int,
    pids: Option<Set<u32>>,
    types: Option<Seq<Seq<char>>>,
    to: int,
    batch: Seq<TraceEvent>,
    delay: u64,
) -> bool {
    let start = es[from].ts;
    let pos = batch_positions(es, from, to, pids, types);
    &&& to == window_end(es, from, start)
    &&& batch.len() == pos.len()
    &&& forall|k: int| 0 <= k < pos.len() ==> same_event(#[trigger] batch[k], es[pos[k]])
    &&& delay == batch_delay(es, to, start)
}

pub open spec fn clamp_u64(t: u64, lo: u64, hi: u64) -> u64 {
    if t < lo { lo } else if t > hi { hi } else { t }
}

proof fn lemma_window_end(es: Seq<TraceEvent>, from: int, start: u64)
    requires
        0 <= from <= es.len(),
    ensures
        from <= window_end(es, from, start) <= es.len(),
    decreases es.len() - from,
{
    if from < es.len() && es[from].ts - start <= BATCH_WINDOW_NS {
        lemma_window_end(es, from + 1, start);
    }
}

impl TraceReplayer {
    /// Whether `event` passes the pid and type filters.
    pub fn passes_filter(&self, event: &TraceEvent) -> (r: bool)
        ensures
            r == (pid_passes(self.pids_view(), event.pid) && type_passes(
                self.types_view(),
                event_type_name(event.event_type),
            )),
    {
        match &self.filter_pids {
            Some(pids) => {
                if !pids.contains(&event.pid) {
                    return false;
                }
            },
            None => {},
        }
        assert(pid_passes(self.pids_view(), event.pid));
        match &self.filter_types {
            Some(types) => {
                let name = event.event_type.as_str();
                let ghost tv = types@.map_values(|s: String| s@);
                let mut i: usize = 0;
                while i < types.len()
                    invariant
                        i <= types@.len(),
                        tv == types@.map_values(|s: String| s@),
                        pid_passes(self.pids_view(), event.pid),
                        self.types_view() == Some(tv),
                        name@ == event_type_name(event.event_type),
                        forall|j: int| 0 <= j < i ==> tv[j] != name@,
                    decreases types@.len() - i,
                {
                    if str_eq(types[i].as_str(), name) {
                        assert(tv[i as int] == name@);
                        assert(tv.contains(name@));
                        return true;
                    }
                    i += 1;
                }
                false
            },
            None => true,
        }
    }

    /// Keep only events from these pids and of these type names (`None`
    /// keeps all).
    pub fn set_filter(&mut self, pids: Option<Vec<u32>>, types: Option<Vec<String>>)
        requires
            old(self).wf(),
        ensures
            final(self).wf(),
            final(self).pids_view() == (match pids {
                Some(v) => Some(v@.to_set()),
                None => None,
            }),
            final(self).types_view() == (match types {
                Some(v) => Some(v@.map_values(|s: String| s@)),
                None => None,
            }),
            final(self).events_view() == old(self).events_view(),
            final(self).position_view() == old(self).position_view(),
            final(self).playing_view() == old(self).playing_view(),
            final(self).start_view() == old(self).start_view(),
            final(self).end_view() == old(self).end_view(),
    {
        self.filter_pids = match pids {
            Some(v) => {
                let mut set: HashSet<u32> = HashSet::new();
                for i in 0..v.len()
                    invariant
                        set@ == v@.take(i as int).to_set(),
                {
                    set.insert(v[i]);
                    assert(v@.take(i + 1) == v@.take(i as int).push(v@[i as int]));
                    proof {
                        v@.take(i as int).lemma_push_to_set_commute(v@[i as int]);
                    }
                }
                assert(v@.take(v@.len() as int) == v@);
                Some(set)
            },
            None => None,
        };
        self.filter_types = types;
    }

    /// Jump to the first event not before `position_ns` (brought into the
    /// trace's time range).
    pub fn seek(&mut self, position_ns: u64)
        requires
            old(self).wf(),
        ensures
            final(self).wf(),
            ({
                let t = clamp_u64(position_ns, old(self).start_view(), old(self).end_view());
                let k = final(self).position_view();
                &&& 0 <= k <= old(self).events_view().len()
                &&& forall|i: int| 0 <= i < k ==> (#[trigger] old(self).events_view()[i]).ts < t
                &&& forall|i: int| k <= i < old(self).events_view().len() ==> (#[trigger] old(self).events_view()[i]).ts >= t
            }),
            final(self).events_view() == old(self).events_view(),
            final(self).playing_view() == old(self).playing_view(),
            final(self).start_view() == old(self).start_view(),
            final(self).end_view() == old(self).end_view(),
            final(self).pids_view() == old(self).pids_view(),
            final(self).types_view() == old(self).types_view(),
    {
        let target = if position_ns < self.start_ts {
            self.start_ts
        } else if position_ns > self.end_ts {
            self.end_ts
        } else {
            position_ns
        };
        let mut lo: usize = 0;
        let mut hi: usize = self.events.len();
        while lo < hi
            invariant
                self.wf(),
                lo <= hi <= self.events@.len(),
                forall|i: int| 0 <= i < lo ==> (#[trigger] self.events@[i]).ts < target,
                forall|i: int| hi <= i < self.events@.len() ==> (#[trigger] self.events@[i]).ts >= target,
            decreases hi - lo,
        {
            let mid = lo + (hi - lo) / 2;
            if self.events[mid].ts < target {
                assert forall|i: int| 0 <= i <= mid implies (#[trigger] self.events@[i]).ts < target by {
                    assert(self.events@[i].ts <= self.events@[mid as int].ts);
                }
                lo = mid + 1;
            } else {
                assert forall|i: int| mid <= i < self.events@.len() implies (#[trigger] self.events@[i]).ts >= target by {
                    assert(self.events@[mid as int].ts <= self.events@[i].ts);
                }
                hi = mid;
            }
        }
        self.position = lo;
    }

    /// Take the next frame's batch: every event within the window of the
    /// next event's time, keeping those that pass the filters, and the time
    /// to wait (at normal speed) before the next batch.
    pub fn collect_batch(&mut self) -> (r: (Vec<TraceEvent>, u64))
        requires
            old(self).wf(),
            old(self).position_view() < old(self).events_view().len(),
        ensures
            final(self).wf(),
            is_next_batch(
                old(self).events_view(),
                old(self).position_view(),
                old(self).pids_view(),
                old(self).types_view(),
                final(self).position_view(),
                r.0@,
                r.1,
            ),
            final(self).events_view() == old(self).events_view(),
            final(self).playing_view() == old(self).playing_view(),
            final(self).start_view() == old(self).start_view(),
            final(self).end_view() == old(self).end_view(),
            final(self).pids_view() == old(self).pids_view(),
            final(self).types_view() == old(self).types_view(),
    {
        let ghost es = self.events@;
        let ghost from = self.position as int;
        let ghost pv = self.pids_view();
        let ghost tv = self.types_view();
        let ghost pl = self.playing;
        let ghost st = self.start_ts;
        let ghost en = self.end_ts;
        let batch_start_ts = self.events[self.position].ts;
        let mut batch: Vec<TraceEvent> = Vec::new();
        proof {
            lemma_window_end(es, from, batch_start_ts);
        }
        while self.position < self.events.len() && self.events[self.position].ts - batch_start_ts
            <= BATCH_WINDOW_NS
            invariant
                self.wf(),
                self.events@ == es,
                self.pids_view() == pv,
                self.types_view() == tv,
                self.playing == pl,
                self.start_ts == st,
                self.end_ts == en,
                from <= self.position <= es.len(),
                from < es.len(),
                batch_start_ts == es[from].ts,
                window_end(es, from, batch_start_ts) == window_end(es, self.position as int, batch_start_ts),
                self.position <= window_end(es, from, batch_start_ts),
                batch@.len() == batch_positions(es, from, self.position as int, self.pids_view(), self.types_view()).len(),
                forall|k: int|
                    0 <= k < batch@.len() ==> same_event(
                        #[trigger] batch@[k],
                        es[batch_positions(es, from, self.position as int, self.pids_view(), self.types_view())[k]],
                    ),
            decreases es.len() - self.position,
        {
            proof {
                assert(es[from].ts <= es[self.position as int].ts);
                lemma_window_end(es, self.position + 1, batch_start_ts);
            }
            let keep = self.passes_filter(&self.events[self.position]);
            if keep {
                let copy = self.events[self.position].copy_event();
                batch.push(copy);
            }
            self.position = self.position + 1;
        }
        proof {
            if self.position < es.len() {
                assert(es[from].ts <= es[self.position as int].ts);
            }
        }
        let delay = if self.position < self.events.len() {
            let next_ts = self.events[self.position].ts;
            let gap = next_ts - batch_start_ts;
            if gap > BATCH_WINDOW_NS {
                gap - BATCH_WINDOW_NS
            } else {
                0
            }
        } else {
            0
        };
        (batch, delay)
    }

    /// One playback step: `None` once every event has been played (the
    /// replayer is then left as it was), else the next frame's batch and
    /// wait as `collect_batch` takes them.
    pub fn next_batch_step(&mut self) -> (r: Option<(Vec<TraceEvent>, u64)>)
        requires
            old(self).wf(),
        ensures
            final(self).wf(),
            r is None <==> old(self).position_view() >= old(self).events_view().len(),
            r is None ==> final(self).position_view() == old(self).position_view(),
            r matches Some(b) ==> is_next_batch(
                old(self).events_view(),
                old(self).position_view(),
                old(self).pids_view(),
                old(self).types_view(),
                final(self).position_view(),
                b.0@,
                b.1,
            ),
            final(self).events_view() == old(self).events_view(),
            final(self).playing_view() == old(self).playing_view(),
            final(self).start_view() == old(self).start_view(),
            final(self).end_view() == old(self).end_view(),
            final(self).pids_view() == old(self).pids_view(),
            final(self).types_view() == old(self).types_view(),
    {
        if self.position >= self.events.len() {
            None
        } else {
            Some(self.collect_batch())
        }
    }
}

} // verus!
