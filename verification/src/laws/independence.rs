//! Each demand of a request is answered as if it were asked alone.

use vstd::prelude::*;

use crate::framing::text_start;
use crate::laws::alone::{comes_again, nodes_agree};
use crate::laws::ends::node_ends_well;
use crate::laws::records::{stream_marks_agree, uses_record};
use crate::laws::walks::a_node;
use crate::lex::ws::{trivia_end, trivia_end_bounds};
use crate::stream::frames_of;
use crate::scan::{root_env, scanned, text_walk, Ask, JsonInput};

verus! {

/// A request for one demand of another.
pub open spec fn asked_alone(ask: Ask, i: int) -> Ask {
    Ask { demands: seq![ask.demands[i]], ..ask }
}

/// Whether the answer of a demand on a stream rests on the last record.
pub open spec fn uses_last(b: Seq<u8>, ask: Ask, i: int) -> bool {
    frames_of(b, ask.input, ask.ctx.max, ask.ctx.dialect) matches Ok(frames) && uses_record(
        ask.demands[i],
        frames.len() as int,
        frames.len() - 1,
    )
}

/// Whether two scans of a source that both come to answers read the same of it for a
/// demand: in a text, where the scan for the one demand ends early no key on the demand's
/// way comes again before the other scan ends; in a stream, both read the last record or
/// both refuse it, where the demand rests on it.
pub open spec fn reads_alike(b: Seq<u8>, ask: Ask, i: int) -> bool {
    let alone = asked_alone(ask, i);
    if ask.input == JsonInput::Text {
        text_walk(b, ask) matches Ok(w) ==> (text_walk(b, alone) matches Ok(x) ==> (x.stopped ==> (trivia_end(
            b,
            text_start(b),
            ask.ctx.dialect,
        ) matches Ok(pos) ==> !comes_again(b, pos, ask.demands[i], ask.ctx, x.end, w.end))))
    } else {
        &&& b.len() <= usize::MAX
        &&& uses_last(b, ask, i) ==> (scanned(b, ask) matches Ok(r) ==> (scanned(b, alone) matches Ok(s) ==> (r.1.len() == 0)
            == (s.1.len() == 0)))
    }
}

/// One pass answers each demand as it would be answered alone, whatever is asked beside it.
///
/// Left out are a text in which a bounded window ends the scan for the demand alone and the
/// other scan goes on to a later occurrence of a key on its way, and a stream whose last
/// record the demand rests on and only one of the two scans refuses.
pub proof fn each_demand_is_answered_as_if_alone(b: Seq<u8>, ask: Ask, i: int)
    requires
        !ask.facts,
        0 <= i < ask.demands.len(),
        scanned(b, ask) is Ok,
        scanned(b, asked_alone(ask, i)) is Ok,
        reads_alike(b, ask, i),
    ensures
        scanned(b, ask)->Ok_0.0.len() == ask.demands.len(),
        scanned(b, asked_alone(ask, i))->Ok_0.0.len() == 1,
        scanned(b, ask)->Ok_0.0[i] == scanned(b, asked_alone(ask, i))->Ok_0.0[0],
{
    let alone = asked_alone(ask, i);
    let ctx = ask.ctx;
    if ask.input == JsonInput::Text {
        reveal(a_node);
        trivia_end_bounds(b, text_start(b), ctx.dialect);
        let pos = trivia_end(b, text_start(b), ctx.dialect)->Ok_0;
        node_ends_well(b, pos, ask.demands, ctx, 0, root_env(ask));
        node_ends_well(b, pos, alone.demands, ctx, 0, root_env(alone));
        assert(ask.demands.contains(ask.demands[i]));
        nodes_agree(b, pos, ask.demands, i, alone.demands, 0, ctx, 0, 0, root_env(ask), root_env(alone));
    } else {
        stream_marks_agree(b, ask.input, ask.demands, i, ctx);
    }
}

} // verus!
