//! What the visualization gateway does with its clients' commands: loading
//! a trace, playback controls, seeking (which rebuilds the world model up to
//! the new position) and the batches that playback applies to the world.
//! Sockets, JSON and timing belong to its driver.

use vstd::prelude::*;

use crate::net::lit;
use crate::replayer::{clamp_u64, sorted_by_ts, TraceReplayer};
use crate::trace_loader::{get_trace_info, pids_of, types_of, TraceSummary};
use crate::trace_types::TraceEvent;
use crate::world_model::{
    connections_after_all, counts_fit, events_until, fds_after_all, processes_after_all, WorldModel,
};

verus! {

/// The value of the decimal digits `s` (all of them digits).
pub open spec fn digits_value(s: Seq<u8>) -> int
    decreases s.len(),
{
    if s.len() == 0 {
        0
    } else {
        digits_value(s.drop_last()) * 10 + (s.last() - 48)
    }
}

/// Whether every byte of `s` is an ASCII digit.
pub open spec fn all_digits(s: Seq<u8>) -> bool {
    forall|i: int| 0 <= i < s.len() ==> 48 <= #[trigger] s[i] <= 57
}

/// A `u64` written in decimal, as Rust parses one: an optional `+`, then
/// one or more digits whose value fits.
pub open spec fn parse_u64_spec(s: Seq<u8>) -> Option<u64> {
    let digits = if s.len() > 0 && s[0] == 43 { s.drop_first() } else { s };
    if digits.len() > 0 && all_digits(digits) && digits_value(digits) <= u64::MAX {
        Some(digits_value(digits) as u64)
    } else {
        None
    }
}

proof fn lemma_digits_value_nonneg(s: Seq<u8>)
    requires
        all_digits(s),
    ensures
        digits_value(s) >= 0,
    decreases s.len(),
{
    if s.len() > 0 {
        lemma_digits_value_nonneg(s.drop_last());
    }
}

/// Parse a decimal `u64` (see `parse_u64_spec`).
pub fn parse_u64(s: &str) -> (r: Option<u64>)
    ensures
        r == parse_u64_spec(lit(s)),
{
    let b = s.as_bytes();
    assert(b@ == lit(s));
    let n = b.len();
    let start: usize = if n > 0 && b[0] == 43 { 1 } else { 0 };
    let ghost digits = if b@.len() > 0 && b@[0] == 43 { b@.drop_first() } else { b@ };
    assert(digits == b@.subrange(start as int, n as int));
    if start >= n {
        return None;
    }
    let mut value: u64 = 0;
    let mut i: usize = start;
    while i < n
        invariant
            start <= i <= n,
            n == b@.len(),
            start < n,
            digits == b@.subrange(start as int, n as int),
            b@ == lit(s),
            digits == (if b@.len() > 0 && b@[0] == 43 { b@.drop_first() } else { b@ }),
            all_digits(b@.subrange(start as int, i as int)),
            value == digits_value(b@.subrange(start as int, i as int)),
        decreases n - i,
    {
        let c = b[i];
        assert(b@.subrange(start as int, i + 1).drop_last() == b@.subrange(start as int, i as int));
        if c < 48 || c > 57 {
            assert(digits[i - start] == c);
            assert(!all_digits(digits));
            return None;
        }
        let d = (c - 48) as u64;
        proof {
            lemma_digits_value_nonneg(b@.subrange(start as int, i as int));
        }
        if value > (u64::MAX - d) / 10 {
            proof {
                let pre = b@.subrange(start as int, i + 1);
                assert(digits_value(pre) == value * 10 + d);
                assert(value * 10 + d > u64::MAX) by (nonlinear_arith)
                    requires value > (u64::MAX - d) / 10, 0 <= d <= 9;
                if all_digits(digits) {
                    lemma_prefix_value_grows(digits, i + 1 - start);
                    assert(digits.subrange(0, i + 1 - start) == pre);
                }
            }
            return None;
        }
        value = value * 10 + d;
        i = i + 1;
    }
    assert(b@.subrange(start as int, n as int) == digits);
    Some(value)
}

/// The value of all the digits is at least that of a prefix.
proof fn lemma_prefix_value_grows(s: Seq<u8>, k: int)
    requires
        all_digits(s),
        0 <= k <= s.len(),
    ensures
        digits_value(s.subrange(0, k)) <= digits_value(s),
    decreases s.len() - k,
{
    if k < s.len() {
        lemma_prefix_value_grows(s, k + 1);
        let p = s.subrange(0, k + 1);
        assert(p.drop_last() == s.subrange(0, k));
        lemma_digits_value_nonneg(s.subrange(0, k));
        assert(all_digits(p));
    } else {
        assert(s.subrange(0, k) == s);
    }
}

/// The gateway's trace, its replayer, and the world model its clients see.
pub struct GatewayCore {
    pub replayer: Option<TraceReplayer>,
    pub world_model: WorldModel,
}

impl GatewayCore {
    /// The world model is well formed, and so is the replayer, if any.
    pub open spec fn wf(&self) -> bool {
        &&& self.world_model.wf()
        &&& self.replayer matches Some(r) ==> r.wf()
    }

    /// No trace and an empty world.
    pub fn new() -> (g: GatewayCore)
        ensures
            g.wf(),
            g.replayer is None,
            g.world_model.processes_view() == Map::<u32, crate::trace_types::ProcessInfo>::empty(),
    {
        GatewayCore { replayer: None, world_model: WorldModel::new() }
    }

    /// Take a loaded trace (its events in time order): the world model
    /// replays all of it, and a paused replayer without filters starts at
    /// its beginning. Returns the trace's summary.
    pub fn load_trace(&mut self, events: Vec<TraceEvent>) -> (s: TraceSummary)
        requires
            old(self).wf(),
            sorted_by_ts(events@),
        ensures
            final(self).wf(),
            final(self).world_model.processes_view() == processes_after_all(Map::empty(), events@),
            final(self).world_model.connections_view() == connections_after_all(Seq::empty(), events@),
            final(self).world_model.fds_view() == fds_after_all(Map::empty(), events@),
            final(self).replayer matches Some(r) && r.events_view() == events@ && r.position_view() == 0
                && !r.playing_view() && r.pids_view() is None && r.types_view() is None,
            s.event_count == events@.len(),
            events@.len() == 0 ==> s.span is None && s.duration_ns == 0,
            events@.len() > 0 ==> s.span == Some((events@[0].ts, events@.last().ts)) && s.duration_ns
                == events@.last().ts - events@[0].ts,
            pids_of(events@, s.pids@),
            s.event_types@ == types_of(events@),
    {
        self.world_model.reset();
        assert(counts_fit(self.world_model.processes_view(), events@.len() as int));
        self.world_model.process_events(events.as_slice());
        let info = get_trace_info(events.as_slice());
        self.replayer = Some(TraceReplayer::new(events));
        info
    }

    /// The play command: start playing, if a trace is loaded. Returns
    /// whether one is (and playback should run).
    pub fn play(&mut self) -> (started: bool)
        requires
            old(self).wf(),
        ensures
            final(self).wf(),
            started == old(self).replayer is Some,
            old(self).replayer is None ==> final(self).replayer is None,
            final(self).world_model == old(self).world_model,
            old(self).replayer matches Some(o) ==> (final(self).replayer matches Some(r) && r.playing_view()
                && r.events_view() == o.events_view() && r.position_view() == o.position_view()),
    {
        match &mut self.replayer {
            Some(r) => {
                r.play();
                true
            },
            None => false,
        }
    }

    /// The pause command: stop playing, if a trace is loaded. Returns
    /// whether one is.
    pub fn pause(&mut self) -> (paused: bool)
        requires
            old(self).wf(),
        ensures
            final(self).wf(),
            paused == old(self).replayer is Some,
            old(self).replayer is None ==> final(self).replayer is None,
            final(self).world_model == old(self).world_model,
            old(self).replayer matches Some(o) ==> (final(self).replayer matches Some(r) && !r.playing_view()
                && r.events_view() == o.events_view() && r.position_view() == o.position_view()),
    {
        match &mut self.replayer {
            Some(r) => {
                r.pause();
                true
            },
            None => false,
        }
    }

    /// Where the seek command to `position_ns` (nanoseconds after the
    /// trace's start, in decimal; 0 when it does not parse) lands.
    pub open spec fn seek_target(&self, position_ns: Seq<u8>) -> int {
        let relative = match parse_u64_spec(position_ns) {
            Some(v) => v as int,
            None => 0,
        };
        self.replayer->Some_0.start_view() + relative
    }

    /// The seek command: move playback to `position_ns` after the trace's
    /// start (the first event not before that time, brought into the trace's
    /// range) and rebuild the world model from the trace's events up to that
    /// time. Returns whether a trace is loaded.
    pub fn seek(&mut self, position_ns: &str) -> (done: bool)
        requires
            old(self).wf(),
            old(self).replayer is Some ==> old(self).seek_target(lit(position_ns)) <= u64::MAX,
        ensures
            final(self).wf(),
            done == old(self).replayer is Some,
            old(self).replayer is None ==> final(self).world_model == old(self).world_model,
            old(self).replayer matches Some(o) ==> ({
                let t = old(self).seek_target(lit(position_ns)) as u64;
                let es = o.events_view();
                let upto = es.take(events_until(es, t, 0));
                let at = clamp_u64(t, o.start_view(), o.end_view());
                &&& final(self).replayer matches Some(r) && r.events_view() == es && r.playing_view()
                    == o.playing_view() && r.pids_view() == o.pids_view() && r.types_view() == o.types_view()
                    && r.start_view() == o.start_view() && r.end_view() == o.end_view()
                    && 0 <= r.position_view() <= es.len()
                    && (forall|i: int| 0 <= i < r.position_view() ==> (#[trigger] es[i]).ts < at)
                    && (forall|i: int| r.position_view() <= i < es.len() ==> (#[trigger] es[i]).ts >= at)
                &&& final(self).world_model.processes_view() == processes_after_all(Map::empty(), upto)
                &&& final(self).world_model.connections_view() == connections_after_all(Seq::empty(), upto)
                &&& final(self).world_model.fds_view() == fds_after_all(Map::empty(), upto)
            }),
    {
        match &mut self.replayer {
            Some(r) => {
                let relative = match parse_u64(position_ns) {
                    Some(v) => v,
                    None => 0,
                };
                let absolute = r.start_ns() + relative;
                r.seek(absolute);
                self.world_model.rebuild_to(r.events().as_slice(), absolute);
                true
            },
            None => false,
        }
    }

    /// The filter command: keep only these pids and event types (none for
    /// no filter), if a trace is loaded. Returns whether one is.
    pub fn set_filter(&mut self, pids: Option<Vec<u32>>, types: Option<Vec<String>>) -> (done: bool)
        requires
            old(self).wf(),
        ensures
            final(self).wf(),
            done == old(self).replayer is Some,
            final(self).world_model == old(self).world_model,
            old(self).replayer matches Some(o) ==> (final(self).replayer matches Some(r) && r.events_view()
                == o.events_view() && r.position_view() == o.position_view() && r.playing_view()
                == o.playing_view() && r.pids_view() == (match pids {
                Some(v) => Some(v@.to_set()),
                None => None,
            }) && r.types_view() == (match types {
                Some(v) => Some(v@.map_values(|s: String| s@)),
                None => None,
            })),
            old(self).replayer is None ==> final(self).replayer is None,
    {
        match &mut self.replayer {
            Some(r) => {
                r.set_filter(pids, types);
                true
            },
            None => false,
        }
    }

    /// Apply a batch that playback delivered to the world model.
    pub fn apply_batch(&mut self, events: &[TraceEvent])
        requires
            old(self).wf(),
            counts_fit(old(self).world_model.processes_view(), events@.len() as int),
        ensures
            final(self).wf(),
            final(self).replayer == old(self).replayer,
            final(self).world_model.processes_view() == processes_after_all(
                old(self).world_model.processes_view(),
                events@,
            ),
            final(self).world_model.connections_view() == connections_after_all(
                old(self).world_model.connections_view(),
                events@,
            ),
            final(self).world_model.fds_view() == fds_after_all(old(self).world_model.fds_view(), events@),
    {
        self.world_model.process_events(events);
    }
}

} // verus!
