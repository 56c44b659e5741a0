//! Walk trace: what a scan skipped, where it stopped early, and what each
//! demand produced.

use vstd::prelude::*;

use crate::lex::skip::Check;
use crate::value::ByteRange;

verus! {

/// Check level a skipped region was read under.
#[derive(Clone, Copy, Debug, PartialEq, Eq, Structural)]
#[non_exhaustive]
pub enum CheckLevel {
    /// Structure only: the region's end was located, its values not checked.
    Locate,
    /// Every byte of the region was value-checked.
    Values,
}

/// What one demand produced, without its payload.
#[derive(Clone, Copy, Debug, PartialEq, Eq, Structural)]
#[non_exhaustive]
pub enum AnswerKind {
    /// Located document.
    Document,
    /// Column batch.
    Columns,
    /// Walk-filled oracle.
    Oracle,
    /// Path absent (not null).
    Missing,
    /// Demand met the wrong kind.
    Mismatch,
}

/// One coarse walk region: never per-token, so volume tracks demands plus
/// containers rather than input bytes.
#[derive(Clone, Copy, Debug, PartialEq, Eq, Structural)]
#[non_exhaustive]
pub enum TraceEvent {
    /// One demand's final outcome, in demand order.
    Mark {
        /// Demand index.
        demand: u32,
        /// What the demand produced.
        kind: AnswerKind,
        /// Primary span when the answer has one (documents only).
        span: Option<ByteRange>,
    },
    /// A region located but not walked for answers.
    Skip {
        /// Region start.
        start: usize,
        /// Region end (exclusive).
        end: usize,
        /// Check the region was read under.
        check: CheckLevel,
    },
    /// The all-slice early stop fired.
    Stop {
        /// Walk position at the stop.
        offset: usize,
    },
}

/// Always-counted walk quantities.
#[derive(Clone, Copy, Debug, PartialEq, Eq, Structural)]
#[non_exhaustive]
pub struct TraceCounters {
    /// Demands in the request.
    pub demands: u64,
    /// Marks that are not missing.
    pub answered: u64,
    /// Skip regions recorded.
    pub skips: u64,
    /// Bytes located but not walked.
    pub skipped_bytes: u64,
    /// Control polls executed.
    pub polls: u64,
    /// Early stops fired.
    pub stops: u64,
}

/// Record of one scan: coarse region events plus counters.
#[derive(Clone, Debug, PartialEq, Eq)]
#[non_exhaustive]
pub struct Trace {
    /// Region events. A single walk records in walk order. On a stream, the events of
    /// the records that an index names follow those of all the others.
    pub events: Vec<TraceEvent>,
    /// Always-counted walk quantities.
    pub counters: TraceCounters,
}

/// `n` counted in 64 bits, saturating.
pub open spec fn counted(n: int) -> u64 {
    if n > u64::MAX {
        u64::MAX
    } else {
        n as u64
    }
}

/// Whether an event records what a walk did: a region it passed over, which is not
/// empty, or an early stop.
pub open spec fn is_walk_event(event: TraceEvent) -> bool {
    match event {
        TraceEvent::Skip { start, end, .. } => start < end,
        TraceEvent::Stop { .. } => true,
        TraceEvent::Mark { .. } => false,
    }
}

/// Number of skip events.
pub open spec fn skips_in(events: Seq<TraceEvent>) -> nat
    decreases events.len(),
{
    if events.len() == 0 {
        0
    } else {
        skips_in(events.drop_last()) + (if events.last() is Skip {
            1nat
        } else {
            0
        })
    }
}

/// Bytes of the skip events.
pub open spec fn bytes_skipped_in(events: Seq<TraceEvent>) -> int
    decreases events.len(),
{
    if events.len() == 0 {
        0
    } else {
        bytes_skipped_in(events.drop_last()) + (match events.last() {
            TraceEvent::Skip { start, end, .. } => end - start,
            _ => 0,
        })
    }
}

/// Number of stop events.
pub open spec fn stops_in(events: Seq<TraceEvent>) -> nat
    decreases events.len(),
{
    if events.len() == 0 {
        0
    } else {
        stops_in(events.drop_last()) + (if events.last() is Stop {
            1nat
        } else {
            0
        })
    }
}

/// Number of marks that are not missing.
pub open spec fn answered_in(events: Seq<TraceEvent>) -> nat
    decreases events.len(),
{
    if events.len() == 0 {
        0
    } else {
        answered_in(events.drop_last()) + (match events.last() {
            TraceEvent::Mark { kind, .. } => if kind == AnswerKind::Missing {
                0nat
            } else {
                1
            },
            _ => 0,
        })
    }
}

/// The tallies of two runs of events add up.
pub proof fn tallies_join(a: Seq<TraceEvent>, b: Seq<TraceEvent>)
    ensures
        skips_in(a + b) == skips_in(a) + skips_in(b),
        bytes_skipped_in(a + b) == bytes_skipped_in(a) + bytes_skipped_in(b),
        stops_in(a + b) == stops_in(a) + stops_in(b),
        answered_in(a + b) == answered_in(a) + answered_in(b),
    decreases b.len(),
{
    if b.len() == 0 {
        assert(a + b =~= a);
    } else {
        tallies_join(a, b.drop_last());
        assert((a + b).drop_last() =~= a + b.drop_last());
    }
}

/// What a walk records marks no demand.
pub proof fn walk_answers_none(events: Seq<TraceEvent>)
    requires
        forall|i: int| 0 <= i < events.len() ==> is_walk_event(#[trigger] events[i]),
    ensures
        answered_in(events) == 0,
    decreases events.len(),
{
    if events.len() > 0 {
        assert(is_walk_event(events[events.len() - 1]));
        walk_answers_none(events.drop_last());
    }
}

impl TraceCounters {
    /// No walk yet.
    pub fn zero() -> (r: Self)
        ensures
            r == (TraceCounters { demands: 0, answered: 0, skips: 0, skipped_bytes: 0, polls: 0, stops: 0 }),
    {
        TraceCounters { demands: 0, answered: 0, skips: 0, skipped_bytes: 0, polls: 0, stops: 0 }
    }

    /// Merge an extra walker's counters. `demands` and `answered` describe the
    /// final marks, which are recorded after the merge, so only the walk-local
    /// counts move here.
    pub fn add(&mut self, other: &TraceCounters)
        ensures
            final(self).demands == old(self).demands,
            final(self).answered == old(self).answered,
            final(self).skips == counted(old(self).skips + other.skips),
            final(self).skipped_bytes == counted(old(self).skipped_bytes + other.skipped_bytes),
            final(self).polls == counted(old(self).polls + other.polls),
            final(self).stops == counted(old(self).stops + other.stops),
    {
        self.skips = self.skips.saturating_add(other.skips);
        self.skipped_bytes = self.skipped_bytes.saturating_add(other.skipped_bytes);
        self.polls = self.polls.saturating_add(other.polls);
        self.stops = self.stops.saturating_add(other.stops);
    }
}

/// How far a region read under `check` was read.
pub open spec fn level(check: Check) -> CheckLevel {
    match check {
        Check::Locate => CheckLevel::Locate,
        Check::Values => CheckLevel::Values,
    }
}

/// Check level as a trace payload.
pub fn check_level(check: Check) -> (r: CheckLevel)
    ensures
        r == level(check),
{
    match check {
        Check::Locate => CheckLevel::Locate,
        Check::Values => CheckLevel::Values,
    }
}

/// Skip events are ordered regions, so the skipped bytes only grow.
pub open spec fn ordered_skips(events: Seq<TraceEvent>) -> bool {
    forall|i: int|
        0 <= i < events.len() ==> (#[trigger] events[i] matches TraceEvent::Skip { start, end, .. } ==> start < end)
}

impl Trace {
    /// Whether the counters tally the events.
    pub open spec fn tallied(self) -> bool {
        &&& ordered_skips(self.events@)
        &&& self.counters.skips == counted(skips_in(self.events@) as int)
        &&& self.counters.skipped_bytes == counted(bytes_skipped_in(self.events@))
        &&& self.counters.stops == counted(stops_in(self.events@) as int)
        &&& self.counters.answered == counted(answered_in(self.events@) as int)
        &&& bytes_skipped_in(self.events@) >= 0
    }

    /// Whether nothing but skipped regions and early stops were recorded.
    pub open spec fn walking(self) -> bool {
        forall|i: int| 0 <= i < self.events@.len() ==> is_walk_event(#[trigger] self.events@[i])
    }

    /// An empty trace.
    #[must_use]
    pub fn new() -> (r: Trace)
        ensures
            r.events@.len() == 0,
            r.tallied(),
            r.counters.polls == 0,
            r.counters.demands == 0,
    {
        Trace { events: Vec::new(), counters: TraceCounters::zero() }
    }

    /// One located-but-unwalked region. Empty regions are dropped.
    pub fn note_skip(&mut self, start: usize, end: usize, check: Check)
        requires
            old(self).tallied(),
        ensures
            final(self).tallied(),
            end > start ==> final(self).events@ == old(self).events@.push(
                TraceEvent::Skip { start, end, check: level(check) },
            ),
            end <= start ==> final(self).events@ == old(self).events@,
            final(self).counters.polls == old(self).counters.polls,
            final(self).counters.demands == old(self).counters.demands,
    {
        if end > start {
            self.counters.skips = self.counters.skips.saturating_add(1);
            self.counters.skipped_bytes = self.counters.skipped_bytes.saturating_add((end - start) as u64);
            self.events.push(TraceEvent::Skip { start, end, check: check_level(check) });
            assert(self.events@.drop_last() =~= old(self).events@);
        }
    }

    /// Fold in the trace of a walk: its events follow this one's, and the counters merge.
    pub fn absorb(&mut self, other: Trace)
        requires
            old(self).tallied(),
            other.tallied(),
            other.walking(),
        ensures
            final(self).tallied(),
            final(self).events@ == old(self).events@ + other.events@,
            final(self).counters.polls == counted(old(self).counters.polls + other.counters.polls),
            final(self).counters.demands == old(self).counters.demands,
    {
        proof {
            tallies_join(self.events@, other.events@);
            walk_answers_none(other.events@);
        }
        let mut more: Vec<TraceEvent> = other.events;
        self.counters.add(&other.counters);
        self.events.append(&mut more);
    }

    /// One control poll executed.
    pub fn note_poll(&mut self)
        requires
            old(self).tallied(),
        ensures
            final(self).tallied(),
            final(self).events@ == old(self).events@,
            final(self).counters.polls == counted(old(self).counters.polls + 1),
            final(self).counters.demands == old(self).counters.demands,
    {
        self.counters.polls = self.counters.polls.saturating_add(1);
    }

    /// One early stop at `offset`.
    pub fn note_stop(&mut self, offset: usize)
        requires
            old(self).tallied(),
        ensures
            final(self).tallied(),
            final(self).events@ == old(self).events@.push(TraceEvent::Stop { offset }),
            final(self).counters.polls == old(self).counters.polls,
            final(self).counters.demands == old(self).counters.demands,
    {
        self.counters.stops = self.counters.stops.saturating_add(1);
        self.events.push(TraceEvent::Stop { offset });
        assert(self.events@.drop_last() =~= old(self).events@);
    }

    /// One demand's final outcome.
    pub fn note_mark(&mut self, demand: u32, kind: AnswerKind, span: Option<ByteRange>)
        requires
            old(self).tallied(),
        ensures
            final(self).tallied(),
            final(self).events@ == old(self).events@.push(TraceEvent::Mark { demand, kind, span }),
            final(self).counters.polls == old(self).counters.polls,
            final(self).counters.demands == old(self).counters.demands,
    {
        if kind != AnswerKind::Missing {
            self.counters.answered = self.counters.answered.saturating_add(1);
        }
        self.events.push(TraceEvent::Mark { demand, kind, span });
        assert(self.events@.drop_last() =~= old(self).events@);
    }
}

} // verus!
