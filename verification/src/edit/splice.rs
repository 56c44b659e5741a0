//! Splices against retained source, and the facts that survive them.

use vstd::prelude::*;
use vstd::wrapping::usize_specs;

use crate::encode::append;
use crate::error::{at, Error, ErrorKind};
use crate::facts::{facts_model, Fact, FactModel, FactRole};
use crate::text::bytes_of;
use crate::value::ByteRange;

verus! {

/// A fact a splice creates; its glyph is part of the splice's bytes.
pub struct NewFact {
    /// Attachment role.
    pub role: FactRole,
    /// Comment body.
    pub text: String,
    /// Owner span in the source.
    pub owner: ByteRange,
    /// Glyph start inside the splice's bytes.
    pub glyph_start: usize,
    /// Glyph end inside the splice's bytes.
    pub glyph_end: usize,
}

/// [`NewFact`] over byte sequences.
pub struct NewFactModel {
    /// Attachment role.
    pub role: FactRole,
    /// Comment body.
    pub text: Seq<u8>,
    /// Owner span in the source.
    pub owner: ByteRange,
    /// Glyph start inside the splice's bytes.
    pub glyph_start: int,
    /// Glyph end inside the splice's bytes.
    pub glyph_end: int,
}

/// One splice: `[from, to)` of the source becomes `bytes`.
pub struct Splice {
    /// Which edit it is part of.
    pub index: usize,
    /// Start in the source.
    pub from: usize,
    /// End in the source.
    pub to: usize,
    /// Replacement.
    pub bytes: Vec<u8>,
    /// A comment write this splice carries.
    pub fact: Option<NewFact>,
}

/// [`Splice`] over byte sequences.
pub struct SpliceModel {
    /// Which edit it is part of.
    pub index: int,
    /// Start in the source.
    pub from: int,
    /// End in the source.
    pub to: int,
    /// Replacement.
    pub bytes: Seq<u8>,
    /// A comment write this splice carries.
    pub fact: Option<NewFactModel>,
}

impl View for NewFact {
    type V = NewFactModel;

    open spec fn view(&self) -> NewFactModel {
        NewFactModel {
            role: self.role,
            text: bytes_of(self.text),
            owner: self.owner,
            glyph_start: self.glyph_start as int,
            glyph_end: self.glyph_end as int,
        }
    }
}

impl View for Splice {
    type V = SpliceModel;

    open spec fn view(&self) -> SpliceModel {
        SpliceModel {
            index: self.index as int,
            from: self.from as int,
            to: self.to as int,
            bytes: self.bytes@,
            fact: match self.fact {
                Some(fact) => Some(fact@),
                None => None,
            },
        }
    }
}

/// Splices over byte sequences.
pub open spec fn splices_model(splices: Seq<Splice>) -> Seq<SpliceModel> {
    splices.map_values(|s: Splice| s@)
}

/// Whether `a` is applied no later than `b`: splices go from the back of the
/// source to its front, so that none moves another.
pub open spec fn applies_first(a: SpliceModel, b: SpliceModel) -> bool {
    a.from > b.from || (a.from == b.from && a.index >= b.index)
}

/// A splice put behind the last one that is applied no later.
pub open spec fn slotted(sorted: Seq<SpliceModel>, s: SpliceModel) -> Seq<SpliceModel>
    decreases sorted.len(),
{
    if sorted.len() == 0 || applies_first(sorted.last(), s) {
        sorted.push(s)
    } else {
        slotted(sorted.drop_last(), s).push(sorted.last())
    }
}

/// Splices in the order they are applied.
pub open spec fn apply_order(splices: Seq<SpliceModel>) -> Seq<SpliceModel>
    decreases splices.len(),
{
    if splices.len() == 0 {
        Seq::empty()
    } else {
        slotted(apply_order(splices.drop_last()), splices.last())
    }
}

/// Whether two splices start together or share bytes.
pub open spec fn conflicts(a: SpliceModel, b: SpliceModel) -> bool {
    a.from == b.from || (a.from < b.to && b.from < a.to)
}

/// Whether splice `i` conflicts with a later one.
pub open spec fn conflicted(sorted: Seq<SpliceModel>, i: int) -> bool {
    exists|j: int| i < j < sorted.len() && conflicts(sorted[i], #[trigger] sorted[j])
}

/// The first splice from `i` that conflicts with a later one.
pub open spec fn first_conflict(sorted: Seq<SpliceModel>, i: int) -> Option<int>
    decreases sorted.len() - i,
{
    if i >= sorted.len() {
        None
    } else if conflicted(sorted, i) {
        Some(i)
    } else {
        first_conflict(sorted, i + 1)
    }
}

/// The first splice from `i` that is no range of the source.
pub open spec fn first_outside(sorted: Seq<SpliceModel>, len: int, i: int) -> Option<int>
    decreases sorted.len() - i,
{
    if i >= sorted.len() {
        None
    } else if !(0 <= sorted[i].from <= sorted[i].to <= len) {
        Some(i)
    } else {
        first_outside(sorted, len, i + 1)
    }
}

/// Whether splices can be applied: each is a range of the source that ends
/// before the one applied just before it starts.
pub open spec fn disjoint(sorted: Seq<SpliceModel>, len: int) -> bool {
    &&& forall|i: int| 0 <= i < sorted.len() ==> 0 <= (#[trigger] sorted[i]).from <= sorted[i].to <= len
    &&& forall|i: int, j: int| 0 <= i < j < sorted.len() ==> (#[trigger] sorted[j]).to <= (#[trigger] sorted[i]).from
}

/// The splices to apply, or why they cannot be.
pub open spec fn ordered_splices(splices: Seq<SpliceModel>, len: int) -> Result<Seq<SpliceModel>, Error> {
    let sorted = apply_order(splices);
    match first_conflict(sorted, 0) {
        Some(i) => Err(at(ErrorKind::OverlappingEdits, sorted[i].from)),
        None => match first_outside(sorted, len, 0) {
            Some(i) => Err(at(ErrorKind::EditUnplaceable, sorted[i].from)),
            None => Ok(sorted),
        },
    }
}

/// `src[..end]` with the splices from `i` on applied.
pub open spec fn spliced(src: Seq<u8>, sorted: Seq<SpliceModel>, i: int, end: int) -> Seq<u8>
    decreases sorted.len() - i,
{
    if i >= sorted.len() {
        src.subrange(0, end)
    } else {
        spliced(src, sorted, i + 1, sorted[i].from) + sorted[i].bytes + src.subrange(sorted[i].to, end)
    }
}

proof fn slotted_is_insert(sorted: Seq<SpliceModel>, s: SpliceModel, j: int)
    requires
        0 <= j <= sorted.len(),
        j > 0 ==> applies_first(sorted[j - 1], s),
        forall|k: int| j <= k < sorted.len() ==> !applies_first(#[trigger] sorted[k], s),
    ensures
        slotted(sorted, s) == sorted.insert(j, s),
    decreases sorted.len(),
{
    if j == sorted.len() {
        assert(sorted.push(s) =~= sorted.insert(j, s));
        if sorted.len() > 0 {
            assert(sorted.last() == sorted[j - 1]);
        }
    } else {
        assert(sorted.last() == sorted[sorted.len() - 1]);
        slotted_is_insert(sorted.drop_last(), s, j);
        assert(sorted.drop_last().insert(j, s).push(sorted.last()) =~= sorted.insert(j, s));
    }
}

/// Whether splices go from the back of the source to its front.
pub open spec fn descending(sorted: Seq<SpliceModel>) -> bool {
    forall|i: int, j: int| 0 <= i < j < sorted.len() ==> (#[trigger] sorted[i]).from >= (#[trigger] sorted[j]).from
}

/// Put a splice where it is applied.
pub(crate) fn add_splice(sorted: &mut Vec<Splice>, s: Splice)
    requires
        descending(splices_model(old(sorted)@)),
    ensures
        splices_model(final(sorted)@) == slotted(splices_model(old(sorted)@), s@),
        descending(splices_model(final(sorted)@)),
{
    let ghost done = splices_model(sorted@);
    let mut j: usize = sorted.len();
    while j > 0 && !(sorted[j - 1].from > s.from || (sorted[j - 1].from == s.from && sorted[j - 1].index >= s.index))
        invariant
            j <= sorted@.len(),
            done == splices_model(sorted@),
            forall|k: int| j <= k < done.len() ==> !applies_first(#[trigger] done[k], s@),
        decreases j,
    {
        proof {
            assert(done[j - 1] == sorted@[j - 1]@);
        }
        j -= 1;
    }
    let ghost placed = s@;
    proof {
        if j > 0 {
            assert(done[j - 1] == sorted@[j - 1]@);
        }
        slotted_is_insert(done, placed, j as int);
    }
    sorted.insert(j, s);
    proof {
        assert(splices_model(sorted@) =~= done.insert(j as int, placed));
        let after = splices_model(sorted@);
        assert forall|a: int, c: int| 0 <= a < c < after.len() implies (#[trigger] after[a]).from >= (
        #[trigger] after[c]).from by {
            if a == j {
                assert(after[c] == done[c - 1]);
                assert(!applies_first(done[c - 1], placed));
            } else if c == j {
                assert(after[a] == done[a]);
                assert(done[a].from >= done[j - 1].from);
            } else {
                let x = if a < j { a } else { a - 1 };
                let y = if c < j { c } else { c - 1 };
                assert(after[a] == done[x] && after[c] == done[y]);
            }
        }
    }
}

proof fn first_conflict_facts(sorted: Seq<SpliceModel>, i: int)
    requires
        0 <= i <= sorted.len(),
    ensures
        first_conflict(sorted, i) is None ==> forall|k: int| i <= k < sorted.len() ==> !#[trigger] conflicted(sorted, k),
    decreases sorted.len() - i,
{
    if i < sorted.len() && !conflicted(sorted, i) {
        first_conflict_facts(sorted, i + 1);
    }
}

proof fn first_outside_facts(sorted: Seq<SpliceModel>, len: int, i: int)
    requires
        0 <= i <= sorted.len(),
    ensures
        first_outside(sorted, len, i) is None ==> forall|k: int|
            i <= k < sorted.len() ==> 0 <= (#[trigger] sorted[k]).from <= sorted[k].to <= len,
    decreases sorted.len() - i,
{
    if i < sorted.len() && 0 <= sorted[i].from <= sorted[i].to <= len {
        first_outside_facts(sorted, len, i + 1);
    }
}

/// Splices that are accepted can be applied one by one.
pub proof fn accepted_splices_are_disjoint(splices: Seq<SpliceModel>, len: int)
    requires
        0 <= len,
    ensures
        ordered_splices(splices, len) matches Ok(sorted) ==> disjoint(sorted, len),
{
    let sorted = apply_order(splices);
    first_conflict_facts(sorted, 0);
    first_outside_facts(sorted, len, 0);
    apply_order_descends(splices);
    if ordered_splices(splices, len) is Ok {
        assert forall|i: int, j: int| 0 <= i < j < sorted.len() implies (#[trigger] sorted[j]).to <= (
        #[trigger] sorted[i]).from by {
            assert(!conflicted(sorted, i));
            assert(!conflicts(sorted[i], sorted[j]));
        }
    }
}

proof fn apply_order_descends(splices: Seq<SpliceModel>)
    ensures
        descending(apply_order(splices)),
    decreases splices.len(),
{
    if splices.len() > 0 {
        apply_order_descends(splices.drop_last());
        slotted_descends(apply_order(splices.drop_last()), splices.last());
    }
}

proof fn slotted_descends(sorted: Seq<SpliceModel>, s: SpliceModel)
    requires
        descending(sorted),
    ensures
        descending(slotted(sorted, s)),
        forall|k: int| 0 <= k < slotted(sorted, s).len() ==> (#[trigger] slotted(sorted, s)[k]) == s || sorted.contains(
            slotted(sorted, s)[k],
        ),
    decreases sorted.len(),
{
    if sorted.len() == 0 || applies_first(sorted.last(), s) {
        assert forall|k: int| 0 <= k < sorted.len() implies sorted.contains(#[trigger] sorted[k]) by {}
        if sorted.len() > 0 {
            assert forall|k: int| 0 <= k < sorted.len() implies (#[trigger] sorted[k]).from >= s.from by {
                assert(sorted[sorted.len() - 1] == sorted.last());
            }
        }
    } else {
        let head = sorted.drop_last();
        slotted_descends(head, s);
        let rest = slotted(head, s);
        let out = rest.push(sorted.last());
        assert forall|k: int| 0 <= k < out.len() implies (#[trigger] out[k]) == s || sorted.contains(out[k]) by {
            if k < rest.len() {
                assert(rest[k] == s || head.contains(rest[k]));
                if head.contains(rest[k]) {
                    let w = choose|w: int| 0 <= w < head.len() && head[w] == rest[k];
                    assert(sorted[w] == rest[k]);
                }
            } else {
                assert(sorted[sorted.len() - 1] == out[k]);
            }
        }
        assert forall|a: int, c: int| 0 <= a < c < out.len() implies (#[trigger] out[a]).from >= (#[trigger] out[c]).from by {
            if c == rest.len() {
                assert(rest[a] == s || head.contains(rest[a]));
                if head.contains(rest[a]) {
                    let w = choose|w: int| 0 <= w < head.len() && head[w] == rest[a];
                    assert(sorted[w].from >= sorted[sorted.len() - 1].from);
                }
            }
        }
    }
}

/// Whether sorted splices can be applied to `len` bytes.
pub(crate) fn check_splices(sorted: &Vec<Splice>, len: usize) -> (r: Result<(), Error>)
    ensures
        match first_conflict(splices_model(sorted@), 0) {
            Some(i) => r == Err::<(), Error>(at(ErrorKind::OverlappingEdits, splices_model(sorted@)[i].from)),
            None => match first_outside(splices_model(sorted@), len as int, 0) {
                Some(i) => r == Err::<(), Error>(at(ErrorKind::EditUnplaceable, splices_model(sorted@)[i].from)),
                None => r is Ok,
            },
        },
{
    let ghost model = splices_model(sorted@);
    let mut i: usize = 0;
    while i < sorted.len()
        invariant
            i <= sorted@.len(),
            model == splices_model(sorted@),
            first_conflict(model, 0) == first_conflict(model, i as int),
        decreases sorted@.len() - i,
    {
        let a: &Splice = &sorted[i];
        let mut j: usize = i + 1;
        while j < sorted.len()
            invariant
                i < j <= sorted@.len(),
                model == splices_model(sorted@),
                *a == sorted@[i as int],
                first_conflict(model, 0) == first_conflict(model, i as int),
                forall|k: int| i < k < j ==> !conflicts(model[i as int], #[trigger] model[k]),
            decreases sorted@.len() - j,
        {
            let b: &Splice = &sorted[j];
            if a.from == b.from || (a.from < b.to && b.from < a.to) {
                proof {
                    assert(conflicts(model[i as int], model[j as int]));
                    assert(conflicted(model, i as int));
                }
                return Err(Error::new(ErrorKind::OverlappingEdits, a.from));
            }
            j += 1;
        }
        i += 1;
    }
    let mut k: usize = 0;
    while k < sorted.len()
        invariant
            k <= sorted@.len(),
            model == splices_model(sorted@),
            first_conflict(model, 0) is None,
            first_outside(model, len as int, 0) == first_outside(model, len as int, k as int),
        decreases sorted@.len() - k,
    {
        let s: &Splice = &sorted[k];
        if s.from > s.to || s.to > len {
            return Err(Error::new(ErrorKind::EditUnplaceable, s.from));
        }
        k += 1;
    }
    Ok(())
}

/// The source with every splice applied.
pub(crate) fn write_splices(src: &[u8], sorted: &Vec<Splice>) -> (r: Vec<u8>)
    requires
        disjoint(splices_model(sorted@), src@.len() as int),
    ensures
        r@ == spliced(src@, splices_model(sorted@), 0, src@.len() as int),
{
    let ghost model = splices_model(sorted@);
    let mut out: Vec<u8> = Vec::new();
    let mut copied: usize = 0;
    let mut i: usize = sorted.len();
    proof {
        assert(out@ =~= src@.subrange(0, 0));
    }
    while i > 0
        invariant
            i <= sorted@.len(),
            model == splices_model(sorted@),
            disjoint(model, src@.len() as int),
            copied <= src@.len(),
            i < model.len() ==> copied == model[i as int].to,
            i == model.len() ==> copied == 0 && out@.len() == 0,
            forall|end: int|
                copied <= end <= src@.len() ==> out@ + src@.subrange(copied as int, end) == #[trigger] spliced(
                    src@,
                    model,
                    i as int,
                    end,
                ),
        decreases i,
    {
        let s: &Splice = &sorted[i - 1];
        let ghost before = out@;
        let ghost start = copied;
        proof {
            assert(model[i - 1] == s@);
            if i < model.len() {
                assert(model[i as int].to <= model[i - 1].from);
            }
            assert(out@ + src@.subrange(copied as int, s.from as int) == spliced(src@, model, i as int, s.from as int));
        }
        append(&mut out, vstd::slice::slice_subrange(src, copied, s.from));
        append(&mut out, s.bytes.as_slice());
        copied = s.to;
        i -= 1;
    }
    proof {
        assert(out@ + src@.subrange(copied as int, src@.len() as int) == spliced(src@, model, 0, src@.len() as int));
    }
    append(&mut out, vstd::slice::slice_subrange(src, copied, src.len()));
    out
}


/// An offset after `added` bytes came in and `removed` bytes went out before it.
pub open spec fn moved(offset: usize, added: usize, removed: usize) -> usize {
    usize_specs::wrapping_sub(usize_specs::wrapping_add(offset, added), removed)
}

fn move_offset(offset: usize, added: usize, removed: usize) -> (r: usize)
    ensures
        r == moved(offset, added, removed),
{
    offset.wrapping_add(added).wrapping_sub(removed)
}

/// A span after `[from, to)` became `added` bytes; `removed` is its length. A
/// span inside the replacement becomes the inserted region, so an owner never
/// dangles into removed bytes.
pub open spec fn mapped_span(span: ByteRange, from: usize, to: usize, added: usize, removed: usize) -> ByteRange {
    if span.start >= to {
        ByteRange { start: moved(span.start, added, removed), end: moved(span.end, added, removed) }
    } else if from < to && span.start >= from {
        ByteRange { start: from, end: usize_specs::wrapping_add(from, added) }
    } else if span.end >= to && span.end > from {
        ByteRange { start: span.start, end: moved(span.end, added, removed) }
    } else {
        span
    }
}

fn map_span(span: ByteRange, from: usize, to: usize, added: usize, removed: usize) -> (r: ByteRange)
    ensures
        r == mapped_span(span, from, to, added, removed),
{
    if span.start >= to {
        ByteRange { start: move_offset(span.start, added, removed), end: move_offset(span.end, added, removed) }
    } else if from < to && span.start >= from {
        ByteRange { start: from, end: from.wrapping_add(added) }
    } else if span.end >= to && span.end > from {
        // Interior edits resize the owner; an insertion at its end is outside it.
        ByteRange { start: span.start, end: move_offset(span.end, added, removed) }
    } else {
        span
    }
}

/// Whether a fact survives a splice of `[from, to)`: a glyph before or after it
/// stays, one that straddles it or sits inside is cut.
pub open spec fn survives(f: FactModel, from: usize, to: usize) -> bool {
    match f.source_span {
        Some(s) => s.end <= from || s.start >= to,
        None => true,
    }
}

/// A surviving fact after a splice.
pub open spec fn mapped_fact(f: FactModel, from: usize, to: usize, added: usize, removed: usize) -> FactModel {
    FactModel {
        source_span: match f.source_span {
            Some(s) => Some(mapped_span(s, from, to, added, removed)),
            None => None,
        },
        owner: mapped_span(f.owner, from, to, added, removed),
        ..f
    }
}

/// The facts after a splice.
pub open spec fn mapped_facts(facts: Seq<FactModel>, from: usize, to: usize, added: usize, removed: usize) -> Seq<FactModel>
    decreases facts.len(),
{
    if facts.len() == 0 {
        Seq::empty()
    } else {
        let rest = mapped_facts(facts.drop_last(), from, to, added, removed);
        if survives(facts.last(), from, to) {
            rest.push(mapped_fact(facts.last(), from, to, added, removed))
        } else {
            rest
        }
    }
}

/// Bytes a splice puts in.
pub open spec fn added_by(s: SpliceModel) -> usize {
    s.bytes.len() as usize
}

/// Bytes a splice takes out.
pub open spec fn removed_by(s: SpliceModel) -> usize {
    (s.to - s.from) as usize
}

/// How far the offset of splice `i` moved: what the splices before it in the
/// source put in and took out.
pub open spec fn drift(sorted: Seq<SpliceModel>, i: int) -> usize
    decreases sorted.len() - i,
{
    if i + 1 >= sorted.len() {
        0
    } else {
        moved(drift(sorted, i + 1), added_by(sorted[i + 1]), removed_by(sorted[i + 1]))
    }
}

/// Start of splice `i` once the splices before it in the source are applied.
pub open spec fn moved_from(sorted: Seq<SpliceModel>, i: int) -> usize {
    usize_specs::wrapping_add(sorted[i].from as usize, drift(sorted, i))
}

/// End of splice `i` once the splices before it in the source are applied.
pub open spec fn moved_to(sorted: Seq<SpliceModel>, i: int) -> usize {
    usize_specs::wrapping_add(sorted[i].to as usize, drift(sorted, i))
}

/// The facts after the splices from `i` on, front of the source first.
pub open spec fn facts_after(facts: Seq<FactModel>, sorted: Seq<SpliceModel>, i: int) -> Seq<FactModel>
    decreases sorted.len() - i,
{
    if i >= sorted.len() {
        facts
    } else {
        mapped_facts(
            facts_after(facts, sorted, i + 1),
            moved_from(sorted, i),
            moved_to(sorted, i),
            added_by(sorted[i]),
            removed_by(sorted[i]),
        )
    }
}

/// A span after the splices from `i` on, front of the source first.
pub open spec fn span_after(span: ByteRange, sorted: Seq<SpliceModel>, i: int) -> ByteRange
    decreases sorted.len() - i,
{
    if i >= sorted.len() {
        span
    } else {
        mapped_span(
            span_after(span, sorted, i + 1),
            moved_from(sorted, i),
            moved_to(sorted, i),
            added_by(sorted[i]),
            removed_by(sorted[i]),
        )
    }
}

/// The facts the splices from `i` on write, front of the source first; a
/// write's glyph is part of its splice's bytes.
pub open spec fn fresh_facts(sorted: Seq<SpliceModel>, i: int) -> Seq<FactModel>
    decreases sorted.len() - i,
{
    if i >= sorted.len() {
        Seq::empty()
    } else {
        let before = fresh_facts(sorted, i + 1);
        match sorted[i].fact {
            None => before,
            Some(fact) => before.push(
                FactModel {
                    role: fact.role,
                    text: fact.text,
                    source_span: Some(
                        ByteRange {
                            start: usize_specs::wrapping_add(moved_from(sorted, i), fact.glyph_start as usize),
                            end: usize_specs::wrapping_add(moved_from(sorted, i), fact.glyph_end as usize),
                        },
                    ),
                    owner: span_after(fact.owner, sorted, 0),
                },
            ),
        }
    }
}

/// Where a fact is authored; a fact without a glyph comes last.
pub open spec fn authored_at(f: FactModel) -> usize {
    match f.source_span {
        Some(s) => s.start,
        None => usize::MAX,
    }
}

/// A fact put behind the last one authored no later.
pub open spec fn filed(sorted: Seq<FactModel>, f: FactModel) -> Seq<FactModel>
    decreases sorted.len(),
{
    if sorted.len() == 0 || authored_at(sorted.last()) <= authored_at(f) {
        sorted.push(f)
    } else {
        filed(sorted.drop_last(), f).push(sorted.last())
    }
}

/// Facts in authored order.
pub open spec fn authored_order(facts: Seq<FactModel>) -> Seq<FactModel>
    decreases facts.len(),
{
    if facts.len() == 0 {
        Seq::empty()
    } else {
        filed(authored_order(facts.drop_last()), facts.last())
    }
}

/// The facts of the written output: what survived, moved, and what was written.
pub open spec fn remapped(facts: Seq<FactModel>, sorted: Seq<SpliceModel>) -> Seq<FactModel> {
    authored_order(facts_after(facts, sorted, 0) + fresh_facts(sorted, 0))
}

/// One splice applied to `facts`. A glyph that straddles a boundary is dropped,
/// never cut in half; a surviving glyph and its owner follow the splice.
fn remap_one(facts: &Vec<Fact>, from: usize, to: usize, added: usize, removed: usize) -> (r: Vec<Fact>)
    ensures
        facts_model(r@) == mapped_facts(facts_model(facts@), from, to, added, removed),
{
    let ghost model = facts_model(facts@);
    let mut out: Vec<Fact> = Vec::new();
    let mut i: usize = 0;
    proof {
        assert(facts_model(out@) =~= mapped_facts(model.take(0), from, to, added, removed));
    }
    while i < facts.len()
        invariant
            i <= facts@.len(),
            model == facts_model(facts@),
            facts_model(out@) == mapped_facts(model.take(i as int), from, to, added, removed),
        decreases facts@.len() - i,
    {
        let fact: &Fact = &facts[i];
        let ghost before = out@;
        proof {
            assert(model.take(i + 1).drop_last() =~= model.take(i as int));
            assert(model.take(i + 1).last() == fact@);
        }
        let (kept, glyph) = match fact.source_span {
            Some(s) => (s.end <= from || s.start >= to, Some(map_span(s, from, to, added, removed))),
            None => (true, None),
        };
        if kept {
            let next = Fact {
                role: fact.role,
                text: fact.text.clone(),
                source_span: glyph,
                owner: map_span(fact.owner, from, to, added, removed),
            };
            out.push(next);
            proof {
                assert(next@ == mapped_fact(fact@, from, to, added, removed));
                assert(facts_model(out@) =~= facts_model(before).push(next@));
            }
        }
        i += 1;
    }
    proof {
        assert(model.take(i as int) =~= model);
    }
    out
}

/// One span through every splice, front of the source first.
fn remap_span(span: ByteRange, sorted: &Vec<Splice>) -> (r: ByteRange)
    requires
        forall|i: int| 0 <= i < sorted@.len() ==> (#[trigger] sorted@[i]).from <= sorted@[i].to,
    ensures
        r == span_after(span, splices_model(sorted@), 0),
{
    let ghost model = splices_model(sorted@);
    let mut current: ByteRange = span;
    let mut delta: usize = 0;
    let mut i: usize = sorted.len();
    while i > 0
        invariant
            i <= sorted@.len(),
            model == splices_model(sorted@),
            forall|i: int| 0 <= i < sorted@.len() ==> (#[trigger] sorted@[i]).from <= sorted@[i].to,
            current == span_after(span, model, i as int),
            delta == drift(model, i - 1),
        decreases i,
    {
        let s: &Splice = &sorted[i - 1];
        let added: usize = s.bytes.len();
        let removed: usize = s.to - s.from;
        proof {
            assert(model[i - 1] == s@);
        }
        current = map_span(current, s.from.wrapping_add(delta), s.to.wrapping_add(delta), added, removed);
        delta = move_offset(delta, added, removed);
        i -= 1;
    }
    current
}

fn file_fact(sorted: &mut Vec<Fact>, fact: Fact)
    ensures
        facts_model(final(sorted)@) == filed(facts_model(old(sorted)@), fact@),
{
    let ghost done = facts_model(sorted@);
    let at_start: usize = glyph_start_of(&fact);
    let mut j: usize = sorted.len();
    while j > 0 && glyph_start_of(&sorted[j - 1]) > at_start
        invariant
            j <= sorted@.len(),
            done == facts_model(sorted@),
            at_start == authored_at(fact@),
            forall|k: int| j <= k < done.len() ==> authored_at(#[trigger] done[k]) > at_start,
        decreases j,
    {
        proof {
            assert(done[j - 1] == sorted@[j - 1]@);
        }
        j -= 1;
    }
    let ghost placed = fact@;
    proof {
        if j > 0 {
            assert(done[j - 1] == sorted@[j - 1]@);
        }
        filed_is_insert(done, placed, j as int);
    }
    sorted.insert(j, fact);
    proof {
        assert(facts_model(sorted@) =~= done.insert(j as int, placed));
    }
}

fn glyph_start_of(fact: &Fact) -> (r: usize)
    ensures
        r == authored_at(fact@),
{
    match fact.source_span {
        Some(s) => s.start,
        None => usize::MAX,
    }
}

proof fn filed_is_insert(sorted: Seq<FactModel>, f: FactModel, j: int)
    requires
        0 <= j <= sorted.len(),
        j > 0 ==> authored_at(sorted[j - 1]) <= authored_at(f),
        forall|k: int| j <= k < sorted.len() ==> authored_at(#[trigger] sorted[k]) > authored_at(f),
    ensures
        filed(sorted, f) == sorted.insert(j, f),
    decreases sorted.len(),
{
    if j == sorted.len() {
        assert(sorted.push(f) =~= sorted.insert(j, f));
        if sorted.len() > 0 {
            assert(sorted.last() == sorted[j - 1]);
        }
    } else {
        assert(sorted.last() == sorted[sorted.len() - 1]);
        filed_is_insert(sorted.drop_last(), f, j);
        assert(sorted.drop_last().insert(j, f).push(sorted.last()) =~= sorted.insert(j, f));
    }
}

/// Facts adjusted for every splice; a write's record lands on its splice's bytes.
pub(crate) fn remapped_facts(facts: &Vec<Fact>, sorted: &Vec<Splice>) -> (r: Vec<Fact>)
    requires
        forall|i: int| 0 <= i < sorted@.len() ==> (#[trigger] sorted@[i]).from <= sorted@[i].to,
    ensures
        facts_model(r@) == remapped(facts_model(facts@), splices_model(sorted@)),
{
    let ghost model = splices_model(sorted@);
    let ghost given = facts_model(facts@);
    let mut kept: Vec<Fact> = crate::facts::copy_facts(facts);
    let mut fresh: Vec<Fact> = Vec::new();
    let mut delta: usize = 0;
    let mut i: usize = sorted.len();
    proof {
        assert(facts_model(fresh@) =~= fresh_facts(model, i as int));
    }
    while i > 0
        invariant
            i <= sorted@.len(),
            model == splices_model(sorted@),
            given == facts_model(facts@),
            forall|i: int| 0 <= i < sorted@.len() ==> (#[trigger] sorted@[i]).from <= sorted@[i].to,
            facts_model(kept@) == facts_after(given, model, i as int),
            facts_model(fresh@) == fresh_facts(model, i as int),
            delta == drift(model, i - 1),
        decreases i,
    {
        let s: &Splice = &sorted[i - 1];
        let added: usize = s.bytes.len();
        let removed: usize = s.to - s.from;
        let from: usize = s.from.wrapping_add(delta);
        let to: usize = s.to.wrapping_add(delta);
        proof {
            assert(model[i - 1] == s@);
        }
        kept = remap_one(&kept, from, to, added, removed);
        match &s.fact {
            Some(fact) => {
                let ghost before = fresh@;
                let next = Fact {
                    role: fact.role,
                    text: fact.text.clone(),
                    source_span: Some(
                        ByteRange {
                            start: from.wrapping_add(fact.glyph_start),
                            end: from.wrapping_add(fact.glyph_end),
                        },
                    ),
                    owner: remap_span(fact.owner, sorted),
                };
                fresh.push(next);
                proof {
                    assert(facts_model(fresh@) =~= facts_model(before).push(next@));
                }
            },
            None => {},
        }
        delta = move_offset(delta, added, removed);
        i -= 1;
    }
    // A write appends its record; restore authored order.
    let mut out: Vec<Fact> = Vec::new();
    let ghost both = facts_model(kept@) + facts_model(fresh@);
    let mut k: usize = 0;
    proof {
        assert(facts_model(out@) =~= authored_order(both.take(0)));
    }
    while k < kept.len()
        invariant
            k <= kept@.len(),
            both == facts_model(kept@) + facts_model(fresh@),
            facts_model(out@) == authored_order(both.take(k as int)),
        decreases kept@.len() - k,
    {
        proof {
            assert(both.take(k + 1).drop_last() =~= both.take(k as int));
            assert(both.take(k + 1).last() == kept@[k as int]@);
        }
        file_fact(&mut out, kept[k].copied());
        k += 1;
    }
    let mut m: usize = 0;
    while m < fresh.len()
        invariant
            m <= fresh@.len(),
            both == facts_model(kept@) + facts_model(fresh@),
            facts_model(out@) == authored_order(both.take(kept@.len() + m)),
        decreases fresh@.len() - m,
    {
        proof {
            let n = kept@.len() + m;
            assert(both.take(n + 1).drop_last() =~= both.take(n as int));
            assert(both.take(n + 1).last() == fresh@[m as int]@);
        }
        file_fact(&mut out, fresh[m].copied());
        m += 1;
    }
    proof {
        assert(both.take(kept@.len() + m) =~= both);
    }
    out
}

} // verus!
