//! The agent's memory: a ring of the most recent findings, each with the
//! first sentence of the answer as its summary, the tools that produced it
//! and the rest of the answer as detail, and its rendering for the system
//! prompt.

use vstd::prelude::*;

use crate::net::{append_bytes, append_str, decimal, format_usize, lit, BYTE_LF, BYTE_SPACE, BYTE_DOT};
use crate::tools::{first_non_ws, is_ascii_ws_exec, lemma_first_non_ws};

verus! {

/// How many findings the memory keeps.
pub const MEMORY_MAX_ENTRIES: usize = 8;

/// Longest summary kept (the first sentence of an answer).
pub const SUMMARY_MAX: usize = 128;

/// Longest list of tools kept.
pub const TOOLS_MAX: usize = 64;

/// Longest detail kept (what follows the summary).
pub const DETAIL_MAX: usize = 384;

/// Longest source tag kept.
pub const SOURCE_MAX: usize = 8;

/// Source tag of findings from the autonomous patrol.
pub const SOURCE_PATROL: &'static str = "patrol";

/// Source tag of findings from user sessions.
pub const SOURCE_USER: &'static str = "user";

// ---------------------------------------------------------------------------
// Summary and detail
// ---------------------------------------------------------------------------

/// Where the first sentence of `chunk` ends, looking from `i`: before the
/// first line feed, or after the first `.` that a space follows, whichever
/// comes first; the whole chunk when there is neither.
pub open spec fn sentence_end_from(chunk: Seq<u8>, i: int) -> int
    decreases chunk.len() - i,
{
    if i < 0 || i >= chunk.len() {
        chunk.len() as int
    } else if chunk[i] == BYTE_LF {
        i
    } else if chunk[i] == BYTE_DOT && i + 1 < chunk.len() && chunk[i + 1] == BYTE_SPACE {
        i + 1
    } else {
        sentence_end_from(chunk, i + 1)
    }
}

/// The summary of an answer: the first sentence of its first
/// `SUMMARY_MAX` bytes.
pub open spec fn summary_of(text: Seq<u8>) -> Seq<u8> {
    let chunk = text.subrange(0, if text.len() < SUMMARY_MAX { text.len() as int } else { SUMMARY_MAX as int });
    chunk.subrange(0, sentence_end_from(chunk, 0))
}

/// The detail of an answer: what follows its summary, without leading
/// whitespace, at most `DETAIL_MAX` bytes.
pub open spec fn detail_of(text: Seq<u8>) -> Seq<u8> {
    let start = first_non_ws(text, summary_of(text).len() as int);
    let end = if start + DETAIL_MAX < text.len() { start + DETAIL_MAX } else { text.len() as int };
    text.subrange(start, end)
}

/// At most the first `max` bytes of `s`.
pub open spec fn clip(s: Seq<u8>, max: int) -> Seq<u8> {
    if s.len() <= max { s } else { s.subrange(0, max) }
}

proof fn lemma_sentence_end(chunk: Seq<u8>, i: int)
    requires
        0 <= i <= chunk.len(),
    ensures
        i <= sentence_end_from(chunk, i) <= chunk.len(),
    decreases chunk.len() - i,
{
    if i < chunk.len() && chunk[i] != BYTE_LF && !(chunk[i] == BYTE_DOT && i + 1 < chunk.len()
        && chunk[i + 1] == BYTE_SPACE) {
        lemma_sentence_end(chunk, i + 1);
    }
}

/// The first sentence of `text` (see `summary_of`).
pub fn extract_summary(text: &[u8]) -> (r: &[u8])
    ensures
        r@ == summary_of(text@),
        r@.len() <= SUMMARY_MAX,
        r@.len() <= text@.len(),
        r@ == text@.subrange(0, r@.len() as int),
{
    let max = if text.len() < SUMMARY_MAX { text.len() } else { SUMMARY_MAX };
    let chunk = &text[0..max];
    proof {
        lemma_sentence_end(chunk@, 0);
    }
    let mut i: usize = 0;
    while i < max
        invariant
            max == chunk@.len(),
            max <= SUMMARY_MAX,
            max <= text@.len(),
            chunk@ == text@.subrange(
                0,
                if text@.len() < SUMMARY_MAX { text@.len() as int } else { SUMMARY_MAX as int },
            ),
            i <= max,
            i <= sentence_end_from(chunk@, 0) <= max,
            sentence_end_from(chunk@, 0) == sentence_end_from(chunk@, i as int),
        decreases max - i,
    {
        if chunk[i] == BYTE_LF {
            return &chunk[0..i];
        }
        if chunk[i] == BYTE_DOT && i + 1 < max && chunk[i + 1] == BYTE_SPACE {
            return &chunk[0..i + 1];
        }
        proof {
            lemma_sentence_end(chunk@, i + 1);
        }
        i += 1;
    }
    assert(chunk@.subrange(0, max as int) == chunk@);
    chunk
}

/// What follows the summary of `text` (see `detail_of`), given the
/// summary's length.
fn extract_detail(text: &[u8], summary_len: usize) -> (r: &[u8])
    requires
        summary_len == summary_of(text@).len(),
        summary_len <= text@.len(),
    ensures
        r@ == detail_of(text@),
{
    let mut start = summary_len;
    proof {
        lemma_first_non_ws(text@, summary_len as int);
    }
    while start < text.len() && is_ascii_ws_exec(text[start])
        invariant
            summary_len <= start <= text@.len(),
            first_non_ws(text@, summary_len as int) == first_non_ws(text@, start as int),
        decreases text@.len() - start,
    {
        start += 1;
    }
    let end = if text.len() - start > DETAIL_MAX {
        start + DETAIL_MAX
    } else {
        text.len()
    };
    &text[start..end]
}

fn bytes_vec(s: &[u8]) -> (v: Vec<u8>)
    ensures
        v@ == s@,
{
    let mut v: Vec<u8> = Vec::new();
    append_bytes(&mut v, s);
    v
}

fn clip_slice(s: &[u8], max: usize) -> (r: &[u8])
    ensures
        r@ == clip(s@, max as int),
{
    if s.len() <= max {
        s
    } else {
        &s[0..max]
    }
}

// ---------------------------------------------------------------------------
// The ring of findings
// ---------------------------------------------------------------------------

/// One finding in the memory.
pub struct MemoryEntry {
    /// Seconds since boot when the finding was recorded.
    pub timestamp_secs: u64,
    /// Where it came from (`patrol` or `user`).
    pub source: Vec<u8>,
    /// The first sentence of the answer.
    pub summary: Vec<u8>,
    /// The tools used for it (e.g. `ps,mem,trace sched`).
    pub tools_used: Vec<u8>,
    /// How many tool calls it took.
    pub n_tool_calls: u8,
    /// The rest of the answer.
    pub detail: Vec<u8>,
}

/// Whether `e` is the finding recorded at `now_ns` nanoseconds since boot
/// from `source`, for the answer `text`, made with `tools_used` in
/// `n_tool_calls` calls.
pub open spec fn is_finding(
    e: MemoryEntry,
    now_ns: u64,
    source: Seq<u8>,
    text: Seq<u8>,
    tools_used: Seq<u8>,
    n_tool_calls: u8,
) -> bool {
    &&& e.timestamp_secs == now_ns / 1_000_000_000
    &&& e.source@ == clip(source, SOURCE_MAX as int)
    &&& e.summary@ == summary_of(text)
    &&& e.tools_used@ == clip(tools_used, TOOLS_MAX as int)
    &&& e.n_tool_calls == n_tool_calls
    &&& e.detail@ == detail_of(text)
}

/// A ring buffer of the agent's most recent findings.
pub struct AgentMemory {
    entries: Vec<Option<MemoryEntry>>,
    /// The slot the next finding goes to.
    head: usize,
    /// Findings recorded since the memory was made.
    total_recorded: usize,
}

impl AgentMemory {
    /// The ring's invariant: the slots written so far are exactly the first
    /// `total_recorded` ones (all of them once the ring has wrapped), and
    /// the next one to write follows the last one written.
    pub closed spec fn wf(&self) -> bool {
        &&& self.entries@.len() == MEMORY_MAX_ENTRIES
        &&& self.head == self.total_recorded % MEMORY_MAX_ENTRIES
        &&& forall|i: int|
            0 <= i < MEMORY_MAX_ENTRIES ==> (#[trigger] self.entries@[i] is Some <==> i
                < self.total_recorded)
    }

    /// Findings recorded since the memory was made.
    pub closed spec fn total(&self) -> nat {
        self.total_recorded as nat
    }

    /// How many findings the memory holds.
    pub closed spec fn held(&self) -> nat {
        if self.total_recorded < MEMORY_MAX_ENTRIES {
            self.total_recorded as nat
        } else {
            MEMORY_MAX_ENTRIES as nat
        }
    }

    /// The slot of the `k`th finding held, oldest first.
    pub closed spec fn slot(&self, k: int) -> int {
        (self.head + MEMORY_MAX_ENTRIES - self.held() + k) % (MEMORY_MAX_ENTRIES as int)
    }

    /// The findings held, oldest first.
    pub closed spec fn view(&self) -> Seq<MemoryEntry> {
        Seq::new(self.held(), |k: int| self.entries@[self.slot(k)]->0)
    }

    /// The memory holds the latest findings: as many as were recorded, up to
    /// its capacity.
    pub proof fn lemma_holds_latest(&self)
        requires
            self.wf(),
        ensures
            self@.len() == if self.total() < MEMORY_MAX_ENTRIES { self.total() } else { MEMORY_MAX_ENTRIES as nat },
    {
    }

    /// An empty memory.
    pub fn new() -> (m: AgentMemory)
        ensures
            m.wf(),
            m@ == Seq::<MemoryEntry>::empty(),
            m.total() == 0,
    {
        let mut entries: Vec<Option<MemoryEntry>> = Vec::new();
        for i in 0..MEMORY_MAX_ENTRIES
            invariant
                entries@.len() == i,
                forall|j: int| 0 <= j < i ==> entries@[j] is None,
        {
            entries.push(None);
        }
        let m = AgentMemory { entries, head: 0, total_recorded: 0 };
        assert(m@ =~= Seq::<MemoryEntry>::empty());
        m
    }

    /// How many findings the memory holds (at most `MEMORY_MAX_ENTRIES`).
    pub fn len(&self) -> (n: usize)
        requires
            self.wf(),
        ensures
            n == self@.len(),
    {
        if self.total_recorded < MEMORY_MAX_ENTRIES {
            self.total_recorded
        } else {
            MEMORY_MAX_ENTRIES
        }
    }

    /// Findings recorded since the memory was made.
    pub fn total_recorded(&self) -> (n: usize)
        ensures
            n == self.total(),
    {
        self.total_recorded
    }

    /// Record a finding made at `now_ns` nanoseconds since boot: the answer
    /// `text` from `source`, made with the tools in `tools_used` in
    /// `n_tool_calls` calls. Its summary is the answer's first sentence and
    /// its detail what follows; each part is cut to its limit. The oldest
    /// finding gives way once the memory is full.
    pub fn record_finding(
        &mut self,
        now_ns: u64,
        source: &[u8],
        text: &[u8],
        tools_used: &[u8],
        n_tool_calls: u8,
    )
        requires
            old(self).wf(),
            old(self).total() < usize::MAX,
        ensures
            final(self).wf(),
            final(self).total() == old(self).total() + 1,
            final(self)@.len() > 0,
            final(self)@ == (if old(self)@.len() < MEMORY_MAX_ENTRIES {
                old(self)@
            } else {
                old(self)@.drop_first()
            }).push(final(self)@.last()),
            is_finding(final(self)@.last(), now_ns, source@, text@, tools_used@, n_tool_calls),
    {
        let secs = now_ns / 1_000_000_000;
        let summary_slice = extract_summary(text);
        let detail_slice = extract_detail(text, summary_slice.len());
        let entry = MemoryEntry {
            timestamp_secs: secs,
            source: bytes_vec(clip_slice(source, SOURCE_MAX)),
            summary: bytes_vec(summary_slice),
            tools_used: bytes_vec(clip_slice(tools_used, TOOLS_MAX)),
            n_tool_calls,
            detail: bytes_vec(detail_slice),
        };
        let ghost old_self = *self;
        let ghost e = entry;
        let idx = self.head;
        self.entries.set(idx, Some(entry));
        self.head = (idx + 1) % MEMORY_MAX_ENTRIES;
        self.total_recorded = self.total_recorded + 1;
        proof {
            lemma_ring_step(old_self, *self, e);
        }
    }

    /// What a patrol cycle keeps of the agent's answer `answer`: a non-empty
    /// answer becomes a patrol finding (the cycle tracks no tools); an empty
    /// answer or a failure leaves the memory as it was. Returns whether a
    /// finding was recorded.
    pub fn record_patrol_answer(&mut self, now_ns: u64, answer: &Result<Vec<u8>, u32>) -> (recorded: bool)
        requires
            old(self).wf(),
            old(self).total() < usize::MAX,
        ensures
            final(self).wf(),
            recorded <==> (answer matches Ok(t) && t@.len() > 0),
            !recorded ==> *final(self) == *old(self),
            recorded ==> ({
                &&& final(self).total() == old(self).total() + 1
                &&& final(self)@.len() > 0
                &&& final(self)@ == (if old(self)@.len() < MEMORY_MAX_ENTRIES {
                    old(self)@
                } else {
                    old(self)@.drop_first()
                }).push(final(self)@.last())
                &&& is_finding(final(self)@.last(), now_ns, lit(SOURCE_PATROL), answer->Ok_0@, seq![], 0)
            }),
    {
        match answer {
            Ok(text) => {
                if text.len() == 0 {
                    return false;
                }
                let empty: [u8; 0] = [];
                let source = SOURCE_PATROL.as_bytes();
                proof {
                    assert(empty@ == Seq::<u8>::empty());
                }
                self.record_finding(now_ns, source, text.as_slice(), &empty, 0);
                true
            },
            Err(_) => false,
        }
    }

    /// The memory as the system prompt shows it: nothing when it holds no
    /// finding, else a header with the count, one entry per finding (oldest
    /// first, an empty line between each two) and a closing line.
    pub fn format_for_prompt(&self, buf: &mut Vec<u8>)
        requires
            self.wf(),
        ensures
            final(buf)@ == old(buf)@ + memory_prompt(self@),
    {
        let n = self.len();
        if n == 0 {
            assert(buf@ == old(buf)@ + memory_prompt(self@));
            return;
        }
        let ghost start = buf@;
        append_str(buf, "=== AGENT MEMORY (");
        append_bytes(buf, format_usize(n).as_slice());
        append_str(buf, " findings) ===\n");
        let ghost header = buf@;
        for k in 0..n
            invariant
                self.wf(),
                n == self@.len(),
                buf@ == header + entries_text(self@.subrange(0, k as int)),
        {
            let idx = (self.head + MEMORY_MAX_ENTRIES - n + k) % MEMORY_MAX_ENTRIES;
            proof {
                lemma_slot(*self, k as int);
            }
            assert(idx == self.slot(k as int));
            if k > 0 {
                buf.push(BYTE_LF);
            }
            match &self.entries[idx] {
                Some(entry) => {
                    append_entry(buf, entry);
                },
                None => {},
            }
            assert(self@.subrange(0, k + 1).drop_last() == self@.subrange(0, k as int));
            if k == 0 {
                assert(self@.subrange(0, 1)[0] == self@[0]);
            }
        }
        append_str(buf, "===\n\n");
        assert(self@.subrange(0, n as int) == self@);
    }
}

proof fn lemma_slot(m: AgentMemory, k: int)
    requires
        m.wf(),
        0 <= k < m.held(),
    ensures
        0 <= m.slot(k) < MEMORY_MAX_ENTRIES,
        m.entries@[m.slot(k)] is Some,
        m.total_recorded < MEMORY_MAX_ENTRIES ==> m.slot(k) == k,
        m.total_recorded >= MEMORY_MAX_ENTRIES ==> m.slot(k) == (m.head + k) % 8,
{
    assert(0 <= m.slot(k) < MEMORY_MAX_ENTRIES);
    if m.total_recorded < MEMORY_MAX_ENTRIES {
        assert(m.head == m.total_recorded);
        assert(m.slot(k) == k);
    }
    assert(m.entries@[m.slot(k)] is Some);
}

/// Writing the next slot of the ring appends to the findings it holds,
/// pushing out the oldest once it is full.
proof fn lemma_ring_step(m0: AgentMemory, m1: AgentMemory, e: MemoryEntry)
    requires
        m0.wf(),
        m1.entries@ == m0.entries@.update(m0.head as int, Some(e)),
        m1.head == (m0.head + 1) % (MEMORY_MAX_ENTRIES as int),
        m1.total_recorded == m0.total_recorded + 1,
    ensures
        m1.wf(),
        m1@.len() > 0,
        m1@.last() == e,
        m1@ == (if m0@.len() < MEMORY_MAX_ENTRIES {
            m0@
        } else {
            m0@.drop_first()
        }).push(m1@.last()),
{
    let idx = m0.head as int;
    assert forall|i: int| 0 <= i < MEMORY_MAX_ENTRIES implies (#[trigger] m1.entries@[i] is Some
        <==> i < m1.total_recorded) by {
        if i != idx {
            assert(m1.entries@[i] == m0.entries@[i]);
        } else {
            assert(m0.head <= m0.total_recorded);
        }
    }
    let expected = if m0@.len() < MEMORY_MAX_ENTRIES {
        m0@
    } else {
        m0@.drop_first()
    };
    assert(m1@.len() == expected.len() + 1);
    assert forall|k: int| 0 <= k < expected.len() implies m1@[k] == expected[k] by {
        lemma_slot(m1, k);
        if m0.total_recorded < MEMORY_MAX_ENTRIES {
            lemma_slot(m0, k);
            assert(m0.head == m0.total_recorded);
            assert(m1.slot(k) == k);
            assert(m0.slot(k) == k);
        } else {
            lemma_slot(m0, k + 1);
            assert(m1.slot(k) == m0.slot(k + 1));
        }
        assert(m1.slot(k) != idx);
    }
    let last = m1@.len() - 1;
    lemma_slot(m1, last);
    if m0.total_recorded < MEMORY_MAX_ENTRIES {
        assert(m0.head == m0.total_recorded);
    }
    assert(m1.slot(last) == idx);
    assert(m1@ =~= expected.push(m1@.last()));
}

/// One finding as the system prompt shows it: minutes since boot, source
/// and summary, then the tools used and the number of calls when any tool
/// was named.
pub open spec fn entry_text(e: MemoryEntry) -> Seq<u8> {
    lit("[+") + decimal(((e.timestamp_secs / 60) as usize) as nat) + lit("m] (") + e.source@
        + lit(") ") + e.summary@ + seq![BYTE_LF] + (if e.tools_used@.len() > 0 {
        lit("  tools: ") + e.tools_used@ + lit(" | ") + decimal(e.n_tool_calls as nat) + lit(
            " calls\n",
        )
    } else {
        seq![]
    })
}

/// The findings `es` one after the other, an empty line between each two.
pub open spec fn entries_text(es: Seq<MemoryEntry>) -> Seq<u8>
    decreases es.len(),
{
    if es.len() == 0 {
        seq![]
    } else if es.len() == 1 {
        entry_text(es[0])
    } else {
        entries_text(es.drop_last()) + seq![BYTE_LF] + entry_text(es.last())
    }
}

/// The memory block of the system prompt for the findings `es`.
pub open spec fn memory_prompt(es: Seq<MemoryEntry>) -> Seq<u8> {
    if es.len() == 0 {
        seq![]
    } else {
        lit("=== AGENT MEMORY (") + decimal(es.len()) + lit(" findings) ===\n") + entries_text(es)
            + lit("===\n\n")
    }
}

fn append_entry(buf: &mut Vec<u8>, e: &MemoryEntry)
    ensures
        final(buf)@ == old(buf)@ + entry_text(*e),
{
    let ghost start = buf@;
    let mins = e.timestamp_secs / 60;
    append_str(buf, "[+");
    append_bytes(buf, format_usize(mins as usize).as_slice());
    append_str(buf, "m] (");
    append_bytes(buf, e.source.as_slice());
    append_str(buf, ") ");
    append_bytes(buf, e.summary.as_slice());
    buf.push(BYTE_LF);
    if e.tools_used.len() > 0 {
        append_str(buf, "  tools: ");
        append_bytes(buf, e.tools_used.as_slice());
        append_str(buf, " | ");
        append_bytes(buf, format_usize(e.n_tool_calls as usize).as_slice());
        append_str(buf, " calls\n");
    }
    assert(buf@ == start + entry_text(*e));
}

} // verus!
