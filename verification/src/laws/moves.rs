//! Where spans and comments go when the text around them is edited.

use vstd::prelude::*;

use crate::edit::splice::{mapped_fact, mapped_facts, mapped_span, moved};
use crate::facts::FactModel;
use crate::value::ByteRange;

verus! {

/// An offset behind an edit moves by what came in less what went out.
proof fn offset_moves(offset: usize, added: usize, removed: usize)
    requires
        removed <= offset,
        offset + added - removed <= usize::MAX,
    ensures
        moved(offset, added, removed) == offset + added - removed,
{
}

/// A span outside the bytes that an edit replaces holds the same bytes after it.
pub proof fn span_beside_an_edit_keeps_its_bytes(b: Seq<u8>, from: usize, to: usize, w: Seq<u8>, s: ByteRange)
    requires
        from <= to <= b.len() <= usize::MAX,
        b.len() + w.len() <= usize::MAX,
        s.start < s.end <= b.len(),
        s.end <= from || to <= s.start,
    ensures
        ({
            let o = b.subrange(0, from as int) + w + b.subrange(to as int, b.len() as int);
            let t = mapped_span(s, from, to, w.len() as usize, (to - from) as usize);
            t.start < t.end <= o.len() && o.subrange(t.start as int, t.end as int) == b.subrange(s.start as int, s.end as int)
        }),
{
    let o = b.subrange(0, from as int) + w + b.subrange(to as int, b.len() as int);
    let t = mapped_span(s, from, to, w.len() as usize, (to - from) as usize);
    if to <= s.start {
        offset_moves(s.start, w.len() as usize, (to - from) as usize);
        offset_moves(s.end, w.len() as usize, (to - from) as usize);
    }
    assert(o.subrange(t.start as int, t.end as int) =~= b.subrange(s.start as int, s.end as int));
}

/// A span around the bytes that an edit replaces holds the new ones in their place.
pub proof fn span_around_an_edit_holds_it(b: Seq<u8>, from: usize, to: usize, w: Seq<u8>, s: ByteRange)
    requires
        from <= to <= b.len() <= usize::MAX,
        b.len() + w.len() <= usize::MAX,
        s.start < from < s.end <= b.len(),
        to <= s.end,
    ensures
        ({
            let o = b.subrange(0, from as int) + w + b.subrange(to as int, b.len() as int);
            let t = mapped_span(s, from, to, w.len() as usize, (to - from) as usize);
            t.start <= t.end <= o.len() && o.subrange(t.start as int, t.end as int) == b.subrange(s.start as int, from as int) + w
                + b.subrange(to as int, s.end as int)
        }),
{
    let o = b.subrange(0, from as int) + w + b.subrange(to as int, b.len() as int);
    let t = mapped_span(s, from, to, w.len() as usize, (to - from) as usize);
    offset_moves(s.end, w.len() as usize, (to - from) as usize);
    assert(o.subrange(t.start as int, t.end as int) =~= b.subrange(s.start as int, from as int) + w + b.subrange(
        to as int,
        s.end as int,
    ));
}

/// A span that starts in the bytes that an edit replaces comes to hold the new ones.
pub proof fn span_in_an_edit_becomes_it(b: Seq<u8>, from: usize, to: usize, w: Seq<u8>, s: ByteRange)
    requires
        from < to <= b.len() <= usize::MAX,
        b.len() + w.len() <= usize::MAX,
        from <= s.start < to,
    ensures
        ({
            let o = b.subrange(0, from as int) + w + b.subrange(to as int, b.len() as int);
            let t = mapped_span(s, from, to, w.len() as usize, (to - from) as usize);
            t.start <= t.end <= o.len() && o.subrange(t.start as int, t.end as int) == w
        }),
{
    let o = b.subrange(0, from as int) + w + b.subrange(to as int, b.len() as int);
    let t = mapped_span(s, from, to, w.len() as usize, (to - from) as usize);
    assert(o.subrange(t.start as int, t.end as int) =~= w);
}

/// A comment outside the bytes that an edit replaces is kept, and one that touches them
/// goes: the facts after the edit are those of the comments that are kept.
pub proof fn facts_beside_an_edit_are_kept(facts: Seq<FactModel>, from: usize, to: usize, added: usize, removed: usize)
    ensures
        forall|i: int|
            0 <= i < facts.len() && ((#[trigger] facts[i]).source_span matches Some(s) ==> s.end <= from || to <= s.start)
                ==> mapped_facts(facts, from, to, added, removed).contains(mapped_fact(facts[i], from, to, added, removed)),
        forall|k: int|
            #![trigger mapped_facts(facts, from, to, added, removed)[k]]
            0 <= k < mapped_facts(facts, from, to, added, removed).len() ==> exists|i: int|
                0 <= i < facts.len() && ((#[trigger] facts[i]).source_span matches Some(s) ==> s.end <= from || to <= s.start)
                    && mapped_facts(facts, from, to, added, removed)[k] == mapped_fact(facts[i], from, to, added, removed),
    decreases facts.len(),
{
    if facts.len() > 0 {
        let front = facts.drop_last();
        facts_beside_an_edit_are_kept(front, from, to, added, removed);
        let rest = mapped_facts(front, from, to, added, removed);
        let all = mapped_facts(facts, from, to, added, removed);
        let n = facts.len() - 1;
        assert forall|i: int|
            0 <= i < facts.len() && ((#[trigger] facts[i]).source_span matches Some(s) ==> s.end <= from || to <= s.start) implies all.contains(
            mapped_fact(facts[i], from, to, added, removed),
        ) by {
            let f = mapped_fact(facts[i], from, to, added, removed);
            if i < n {
                assert(front[i] == facts[i]);
                let q = choose|q: int| 0 <= q < rest.len() && rest[q] == f;
                assert(all[q] == f);
            } else {
                assert(all[rest.len() as int] == f);
            }
        }
        assert forall|k: int| #![trigger all[k]] 0 <= k < all.len() implies exists|i: int|
            0 <= i < facts.len() && ((#[trigger] facts[i]).source_span matches Some(s) ==> s.end <= from || to <= s.start) && all[k]
                == mapped_fact(facts[i], from, to, added, removed) by {
            if k < rest.len() {
                assert(all[k] == rest[k]);
                let i = choose|i: int|
                    0 <= i < front.len() && ((#[trigger] front[i]).source_span matches Some(s) ==> s.end <= from || to <= s.start)
                        && rest[k] == mapped_fact(front[i], from, to, added, removed);
                assert(facts[i] == front[i]);
            } else {
                assert(facts[n].source_span matches Some(s) ==> s.end <= from || to <= s.start);
            }
        }
    }
}

} // verus!
