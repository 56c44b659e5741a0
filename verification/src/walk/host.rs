//! What a running walk reports to its host, and what it asks of it.

use vstd::prelude::*;

use crate::control::{check_control, is_stop_of, Control};
use crate::error::Error;
use crate::lex::skip::Check;
use crate::trace::{level, Trace, TraceEvent};
use crate::walk::events::{noted, region};

verus! {

/// The host side of a walk: an optional control to poll and an optional trace
/// to write.
pub struct Host<'c> {
    /// Polled at container and record boundaries, never per token.
    pub control: Option<&'c Control>,
    /// Written as the walk acts.
    pub trace: Option<Trace>,
}

impl<'c> Host<'c> {
    /// Whether the trace's counters tally its events, no demand is marked yet, and
    /// polls are counted under a control only.
    pub open spec fn wf(self) -> bool {
        self.trace matches Some(t) ==> t.tallied() && t.walking() && (self.control is None ==> t.counters.polls == 0)
    }

    /// Whether two hosts are the same but for what was traced.
    pub open spec fn same(self, other: Host<'c>) -> bool {
        &&& self.control == other.control
        &&& (self.trace is Some) == (other.trace is Some)
    }

    /// What was recorded so far.
    pub open spec fn events(self) -> Seq<TraceEvent> {
        match self.trace {
            Some(trace) => trace.events@,
            None => Seq::empty(),
        }
    }

    /// A host that never stops and traces nothing.
    pub fn none() -> (r: Host<'c>)
        ensures
            r.wf(),
            r.control is None,
            r.trace is None,
    {
        Host { control: None, trace: None }
    }

    /// A host with the same control that records apart from this one.
    pub fn apart(&self) -> (r: Host<'c>)
        ensures
            r.wf(),
            r.same(*self),
            r.events() == Seq::<TraceEvent>::empty(),
    {
        let trace: Option<Trace> = match &self.trace {
            Some(_) => Some(Trace::new()),
            None => None,
        };
        assert(trace matches Some(t) ==> t.events@ =~= Seq::empty());
        Host { control: self.control, trace }
    }

    /// Take over what another host recorded.
    pub fn absorb(&mut self, other: Host<'c>)
        requires
            old(self).wf(),
            other.wf(),
            other.same(*old(self)),
        ensures
            final(self).wf(),
            final(self).same(*old(self)),
            noted(*final(self), *old(self), other.events()),
    {
        if let Some(more) = other.trace {
            if let Some(trace) = &mut self.trace {
                trace.absorb(more);
            }
        }
    }

    /// Poll the control at `offset`. A refusal is always one that the control can decide,
    /// no further than `offset`.
    pub fn poll(&mut self, offset: usize) -> (r: Result<(), Error>)
        requires
            old(self).wf(),
        ensures
            final(self).wf(),
            final(self).same(*old(self)),
            final(self).events() == old(self).events(),
            r matches Err(e) ==> (old(self).control matches Some(control) && is_stop_of(*control, e, offset as int)),
    {
        match self.control {
            None => Ok(()),
            Some(control) => {
                if let Some(trace) = &mut self.trace {
                    trace.note_poll();
                }
                check_control(control, offset)
            },
        }
    }

    /// One located-but-unwalked region.
    pub fn note_skip(&mut self, start: usize, end: usize, check: Check)
        requires
            old(self).wf(),
        ensures
            final(self).wf(),
            final(self).same(*old(self)),
            start < end ==> noted(*final(self), *old(self), region(start as int, end as int, check)),
    {
        let ghost before = self.events();
        if let Some(trace) = &mut self.trace {
            trace.note_skip(start, end, check);
        }
        proof {
            let event = TraceEvent::Skip { start, end, check: level(check) };
            assert(before.push(event) =~= before + seq![event]);
        }
    }

    /// One early stop.
    pub fn note_stop(&mut self, offset: usize)
        requires
            old(self).wf(),
        ensures
            final(self).wf(),
            final(self).same(*old(self)),
            noted(*final(self), *old(self), seq![TraceEvent::Stop { offset }]),
    {
        let ghost before = self.events();
        if let Some(trace) = &mut self.trace {
            trace.note_stop(offset);
        }
        proof {
            let event = TraceEvent::Stop { offset };
            assert(before.push(event) =~= before + seq![event]);
        }
    }
}

} // verus!
