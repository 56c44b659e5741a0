//! The row loops: objects read as rows, with only the demanded members kept.

use vstd::prelude::*;

use crate::ascii::{LBRACE, RBRACE, RBRACKET};
use crate::demand::{lenses_model, DemandModel, Lens};
use crate::dialect::Dialect;
use crate::error::{Error, ErrorKind};
use crate::lex::skip::{after_colon, next_item, skip_colon, skip_present_at, Check, Ctx, Next};
use crate::lex::string::{plain_is_text, plain_key};
use crate::lex::{key_text, key_text_end, read_key_into};
use crate::text::same_bytes;
use crate::value::{span, ByteRange};
use crate::walk::events::{
    noted, owed, owed_none, owed_step, region, row_element_events, row_members_events, rows_events,
};
use crate::walk::host::Host;
use crate::walk::layout::{head_prefix_eq, heads, repeated_head, retained, Head, RowLayout};
use crate::walk::marks::{
    marks_model, row_fields, row_shape, shape_of, Batch, BatchModel, ColumnCell, Mark, MarkModel, RowShape,
};
use crate::walk::member::{apply_object_row, find_bounds, spans_inside, wanted, wants_member, Members};
use crate::walk::model::{
    all_rows, appended, flat_row, no_cells, object_rows, other_rows, row_element, row_marks, row_members, row_object,
    rows, RowState, WalkCtx,
};
use crate::walk::node::host_stopped;

verus! {

/// Which names the hits touch.
pub open spec fn name_test(hits: Seq<DemandModel>) -> spec_fn(Seq<u8>) -> bool {
    |name: Seq<u8>| wanted(hits, name)
}

/// A member's head in a row: its value's position, whether its value is
/// demanded, and its name when it is.
struct RowMember {
    value: usize,
    name: Option<Vec<u8>>,
}

/// Read the head of the member at `p`, by the retained shape when it repeats it.
fn row_member(
    bytes: &[u8],
    p: usize,
    seen: usize,
    hits: &[Lens<'_>],
    dialect: Dialect,
    layout: &mut RowLayout,
) -> (r: Result<RowMember, Error>)
    requires
        p <= bytes@.len(),
        old(layout).wf(bytes@, name_test(lenses_model(hits@))),
    ensures
        final(layout).wf(bytes@, name_test(lenses_model(hits@))),
        match key_text(bytes@, p as int, dialect) {
            Err(error) => r == Err::<RowMember, Error>(error),
            Ok((key_end, name)) => match after_colon(bytes@, key_end, dialect) {
                Err(error) => r == Err::<RowMember, Error>(error),
                Ok(v) => r matches Ok(m) && m.value == v && p < v <= bytes@.len() && (match m.name {
                    Some(n) => wanted(lenses_model(hits@), name) && n@ == name,
                    None => !wanted(lenses_model(hits@), name),
                }),
            },
        },
{
    let ghost model = lenses_model(hits@);
    let len: usize = bytes.len();
    let rfc: bool = dialect == Dialect::Rfc8259;
    proof {
        key_text_end(bytes@, p as int, dialect);
    }
    if rfc && seen < layout.positional.len() && p < len {
        let head: Head = layout.positional[seen];
        proof {
            assert(retained(bytes@, layout.positional@[seen as int], layout.names@, name_test(model)));
        }
        let size: usize = head.span.end - head.span.start;
        if size < len - p && bytes[p + size] > 0x20 && head_prefix_eq(&head, bytes, p) {
            match head.slot {
                Some(k) => {
                    proof {
                        repeated_head(bytes@, p as int, head.span, layout.names@[k as int]@);
                    }
                    let name: Vec<u8> = vstd::slice::slice_to_vec(layout.names[k].as_slice());
                    return Ok(RowMember { value: p + size, name: Some(name) });
                },
                None => {
                    proof {
                        let name = choose|name: Seq<u8>| #[trigger]
                            heads(bytes@, head.span, name) && !name_test(model)(name);
                        repeated_head(bytes@, p as int, head.span, name);
                    }
                    return Ok(RowMember { value: p + size, name: None });
                },
            }
        }
    }
    if layout.positional.len() > seen {
        layout.positional.truncate(seen);
    }
    let mut name: Vec<u8> = Vec::new();
    let key_end: usize = read_key_into(bytes, p, &mut name, dialect)?;
    let value: usize = skip_colon(bytes, key_end, dialect)?;
    let is_wanted: bool = wants_member(hits, name.as_slice());
    if rfc && layout.positional.len() == seen {
        if let Some(plain) = plain_key(bytes, p) {
            proof {
                plain_is_text(bytes@, p as int, dialect);
                assert(heads(bytes@, ByteRange { start: p, end: value }, name@));
            }
            let slot: Option<usize> = if is_wanted {
                Some(slot_of(layout, name.as_slice()))
            } else {
                None
            };
            let head: Head = Head::new(bytes, p, value, slot);
            let ghost before = *layout;
            layout.positional.push(head);
            proof {
                assert(retained(bytes@, head, layout.names@, name_test(model)));
                assert forall|i: int| 0 <= i < layout.positional@.len() implies retained(
                    bytes@,
                    #[trigger] layout.positional@[i],
                    layout.names@,
                    name_test(model),
                ) by {
                    if i < before.positional@.len() {
                        assert(retained(bytes@, before.positional@[i], before.names@, name_test(model)));
                    }
                }
            }
        }
    }
    if is_wanted {
        Ok(RowMember { value, name: Some(name) })
    } else {
        Ok(RowMember { value, name: None })
    }
}

/// The slot of a demanded name, added when it is new.
fn slot_of(layout: &mut RowLayout, name: &[u8]) -> (r: usize)
    ensures
        final(layout).positional@ == old(layout).positional@,
        r < final(layout).names@.len(),
        final(layout).names@[r as int]@ == name@,
        final(layout).names@.len() >= old(layout).names@.len(),
        forall|i: int| 0 <= i < old(layout).names@.len() ==> #[trigger] final(layout).names@[i] == old(layout).names@[i],
{
    let mut i: usize = 0;
    while i < layout.names.len()
        invariant
            i <= layout.names@.len(),
            *layout == *old(layout),
        decreases layout.names@.len() - i,
    {
        if same_bytes(layout.names[i].as_slice(), name) {
            return i;
        }
        i = i + 1;
    }
    layout.names.push(vstd::slice::slice_to_vec(name));
    layout.names.len() - 1
}

/// Read the object at `start` as one row: where it ends and the last-wins
/// members the hits touch.
pub fn keep_object(
    bytes: &[u8],
    start: usize,
    hits: &[Lens<'_>],
    ctx: WalkCtx,
    depth: u32,
    layout: &mut RowLayout,
    host: &mut Host<'_>,
) -> (r: Result<(usize, Members), Error>)
    requires
        start < bytes@.len(),
        old(host).wf(),
        old(layout).wf(bytes@, name_test(lenses_model(hits@))),
    ensures
        host_stopped(r, *old(host), bytes@.len() as int) || match row_object(bytes@, start as int, lenses_model(hits@), ctx, depth as int) {
            Ok((e, found)) => r matches Ok((end, members)) && end == e && members@ == found,
            Err(error) => r == Err::<(usize, Members), Error>(error),
        },
        r matches Ok((end, members)) ==> start < end <= bytes@.len() && spans_inside(members@, bytes@.len() as int),
        final(layout).wf(bytes@, name_test(lenses_model(hits@))),
        final(host).wf(),
        final(host).same(*old(host)),
        r is Ok ==> noted(*final(host), *old(host), row_members_events(bytes@, start + 1, true, lenses_model(hits@), ctx, depth + 1)),
{
    if depth >= ctx.max {
        return Err(Error::new(ErrorKind::Limit, start));
    }
    let ghost model = lenses_model(hits@);
    let ghost all_events = row_members_events(bytes@, start + 1, true, model, ctx, depth + 1);
    let len: usize = bytes.len();
    let demanded: Check = ctx.demanded_check();
    let unread: Check = ctx.unread_check();
    let mut members: Members = Members::new();
    let mut pos: usize = start + 1;
    let mut seen: usize = 0;
    loop
        invariant
            start < pos <= len,
            len == bytes@.len(),
            seen <= pos - start - 1,
            depth < ctx.max,
            demanded == ctx.demanded(),
            unread == ctx.unread(),
            model == lenses_model(hits@),
            host.wf(),
            host.same(*old(host)),
            all_events == row_members_events(bytes@, start + 1, true, model, ctx, depth + 1),
            owed(
                *host,
                *old(host),
                row_members_events(bytes@, pos as int, seen == 0, model, ctx, depth + 1),
                all_events,
            ),
            layout.wf(bytes@, name_test(model)),
            spans_inside(members@, len as int),
            row_members(bytes@, start + 1, true, Seq::empty(), model, ctx, depth + 1) == row_members(
                bytes@,
                pos as int,
                seen == 0,
                members@,
                model,
                ctx,
                depth + 1,
            ),
        decreases len - pos,
    {
        let ghost prior = *host;
        host.poll(pos)?;
        match next_item(bytes, pos, ctx.dialect, RBRACE, seen == 0)? {
            Next::Close(end) => {
                if layout.positional.len() > seen {
                    layout.positional.truncate(seen);
                }
                proof {
                    owed_none(*host, *old(host), all_events);
                }
                return Ok((end, members));
            },
            Next::Item(p) => {
                proof {
                    key_text_end(bytes@, p as int, ctx.dialect);
                }
                let member: RowMember = row_member(bytes, p, seen, hits, ctx.dialect, layout)?;
                let check: Check = if member.name.is_some() {
                    demanded
                } else {
                    unread
                };
                let end: usize = skip_present_at(
                    bytes,
                    member.value,
                    Ctx { check, max: ctx.max, dialect: ctx.dialect },
                    depth + 1,
                )?;
                host.note_skip(member.value, end, check);
                proof {
                    let head = region(member.value as int, end as int, check);
                    let tail = row_members_events(bytes@, end as int, false, model, ctx, depth + 1);
                    owed_step(*host, prior, *old(host), head, tail, all_events);
                }
                if let Some(name) = member.name {
                    let ghost before = members@;
                    members.insert(name, ByteRange { start: member.value, end });
                    proof {
                        find_bounds(before, name@);
                        assert(spans_inside(members@, len as int));
                    }
                }
                pos = end;
                seen = seen + 1;
            },
        }
    }
}

/// Whether batches hold what a row loop's state says.
pub open spec fn batches_hold(batches: Seq<Batch>, hits: Seq<DemandModel>, cells: Seq<Seq<ColumnCell>>) -> bool {
    &&& batches.len() == hits.len()
    &&& cells.len() == hits.len()
    &&& forall|i: int|
        0 <= i < hits.len() ==> (#[trigger] batches[i])@ == (BatchModel {
            fields: row_fields(row_shape(hits[i])->0),
            cells: cells[i],
        })
}

/// An empty batch per row hit.
pub fn open_batches(hits: &[Lens<'_>]) -> (r: Vec<Batch>)
    requires
        all_rows(lenses_model(hits@)),
    ensures
        batches_hold(r@, lenses_model(hits@), no_cells(hits@.len())),
{
    let ghost model = lenses_model(hits@);
    let mut out: Vec<Batch> = Vec::new();
    let mut i: usize = 0;
    while i < hits.len()
        invariant
            i <= hits@.len(),
            model == lenses_model(hits@),
            all_rows(model),
            out@.len() == i,
            forall|k: int|
                0 <= k < i ==> (#[trigger] out@[k])@ == (BatchModel {
                    fields: row_fields(row_shape(model[k])->0),
                    cells: Seq::empty(),
                }),
        decreases hits@.len() - i,
    {
        assert(flat_row(model[i as int]));
        match shape_of(hits[i]) {
            Some(shape) => out.push(Batch::of(shape)),
            None => out.push(Batch::of(RowShape::Whole)),
        }
        i = i + 1;
    }
    out
}

/// Append the cells an object contributes to each row hit.
pub fn push_object(
    hits: &[Lens<'_>],
    batches: &mut Vec<Batch>,
    members: &Members,
    bytes: &[u8],
    object: ByteRange,
    dialect: Dialect,
    Ghost(cells): Ghost<Seq<Seq<ColumnCell>>>,
)
    requires
        spans_inside(members@, bytes@.len() as int),
        batches_hold(old(batches)@, lenses_model(hits@), cells),
    ensures
        batches_hold(
            final(batches)@,
            lenses_model(hits@),
            appended(cells, object_rows(bytes@, lenses_model(hits@), members@, object, dialect)),
        ),
{
    let ghost model = lenses_model(hits@);
    let ghost more = object_rows(bytes@, model, members@, object, dialect);
    let mut i: usize = 0;
    while i < hits.len()
        invariant
            i <= hits@.len(),
            model == lenses_model(hits@),
            batches@.len() == hits@.len(),
            cells.len() == hits@.len(),
            spans_inside(members@, bytes@.len() as int),
            more == object_rows(bytes@, model, members@, object, dialect),
            forall|k: int|
                0 <= k < hits@.len() ==> (#[trigger] batches@[k])@.fields == row_fields(row_shape(model[k])->0),
            forall|k: int| 0 <= k < i ==> (#[trigger] batches@[k])@.cells == cells[k] + more[k],
            forall|k: int| i <= k < hits@.len() ==> (#[trigger] batches@[k])@.cells == cells[k],
        decreases hits@.len() - i,
    {
        let lens: Lens<'_> = hits[i];
        assert(model[i as int] == lens.model());
        let ghost before = batches@;
        let batch: &mut Batch = &mut batches[i];
        apply_object_row(batch, lens, members, bytes, object, dialect);
        i = i + 1;
    }
}

/// Append the cells an element that is no object contributes to each row hit.
pub fn push_other(hits: &[Lens<'_>], batches: &mut Vec<Batch>, Ghost(cells): Ghost<Seq<Seq<ColumnCell>>>)
    requires
        batches_hold(old(batches)@, lenses_model(hits@), cells),
        all_rows(lenses_model(hits@)),
    ensures
        batches_hold(final(batches)@, lenses_model(hits@), appended(cells, other_rows(lenses_model(hits@)))),
{
    let ghost model = lenses_model(hits@);
    let ghost more = other_rows(model);
    let mut i: usize = 0;
    while i < hits.len()
        invariant
            i <= hits@.len(),
            model == lenses_model(hits@),
            batches@.len() == hits@.len(),
            cells.len() == hits@.len(),
            all_rows(model),
            more == other_rows(model),
            forall|k: int|
                0 <= k < hits@.len() ==> (#[trigger] batches@[k])@.fields == row_fields(row_shape(model[k])->0),
            forall|k: int| 0 <= k < i ==> (#[trigger] batches@[k])@.cells == cells[k] + more[k],
            forall|k: int| i <= k < hits@.len() ==> (#[trigger] batches@[k])@.cells == cells[k],
        decreases hits@.len() - i,
    {
        let lens: Lens<'_> = hits[i];
        assert(model[i as int] == lens.model());
        assert(cells[i as int] + Seq::<ColumnCell>::empty() =~= cells[i as int]);
        if let Lens::Project { path: _, fields } = lens {
            let batch: &mut Batch = &mut batches[i];
            batch.push_absent(fields.len());
        }
        i = i + 1;
    }
}

/// One element of a row loop.
pub fn walk_kept_element(
    bytes: &[u8],
    p: usize,
    hits: &[Lens<'_>],
    ctx: WalkCtx,
    depth: u32,
    layout: &mut RowLayout,
    batches: &mut Vec<Batch>,
    host: &mut Host<'_>,
    Ghost(cells): Ghost<Seq<Seq<ColumnCell>>>,
) -> (r: Result<usize, Error>)
    requires
        p <= bytes@.len(),
        old(host).wf(),
        all_rows(lenses_model(hits@)),
        old(layout).wf(bytes@, name_test(lenses_model(hits@))),
        batches_hold(old(batches)@, lenses_model(hits@), cells),
    ensures
        host_stopped(r, *old(host), bytes@.len() as int) || match row_element(bytes@, p as int, lenses_model(hits@), ctx, depth as int) {
            Ok((e, more)) => r matches Ok(end) && end == e && batches_hold(
                final(batches)@,
                lenses_model(hits@),
                appended(cells, more),
            ),
            Err(error) => r == Err::<usize, Error>(error),
        },
        r matches Ok(end) ==> p < end <= bytes@.len(),
        final(layout).wf(bytes@, name_test(lenses_model(hits@))),
        final(host).wf(),
        final(host).same(*old(host)),
        r is Ok ==> noted(*final(host), *old(host), row_element_events(bytes@, p as int, lenses_model(hits@), ctx, depth as int)),
{
    proof {
        reveal(row_element);
    }
    if p < bytes.len() && bytes[p] == LBRACE {
        let (end, members) = keep_object(bytes, p, hits, ctx, depth, layout, host)?;
        push_object(hits, batches, &members, bytes, ByteRange { start: p, end }, ctx.dialect, Ghost(cells));
        Ok(end)
    } else {
        let check: Check = ctx.unread_check();
        let end: usize = skip_present_at(bytes, p, Ctx { check, max: ctx.max, dialect: ctx.dialect }, depth)?;
        host.note_skip(p, end, check);
        push_other(hits, batches, Ghost(cells));
        Ok(end)
    }
}

/// The row loop over an array's elements, from just past its `[`.
pub fn keep_array(
    bytes: &[u8],
    start: usize,
    hits: &[Lens<'_>],
    ctx: WalkCtx,
    depth: u32,
    host: &mut Host<'_>,
) -> (r: Result<(usize, Vec<Batch>), Error>)
    requires
        start < bytes@.len(),
        old(host).wf(),
        all_rows(lenses_model(hits@)),
    ensures
        host_stopped(r, *old(host), bytes@.len() as int) || match rows(
            bytes@,
            (RowState { pos: start + 1, first: true, cells: no_cells(hits@.len()) }),
            lenses_model(hits@),
            ctx,
            depth as int,
        ) {
            Ok(st) => r matches Ok((end, batches)) && end == st.pos && batches_hold(
                batches@,
                lenses_model(hits@),
                st.cells,
            ),
            Err(error) => r == Err::<(usize, Vec<Batch>), Error>(error),
        },
        r matches Ok((end, batches)) ==> start < end <= bytes@.len(),
        final(host).wf(),
        final(host).same(*old(host)),
        r is Ok ==> noted(*final(host), *old(host), rows_events(bytes@, start + 1, true, lenses_model(hits@), ctx, depth as int)),
{
    let ghost model = lenses_model(hits@);
    let ghost all_events = rows_events(bytes@, start + 1, true, model, ctx, depth as int);
    let len: usize = bytes.len();
    let mut layout: RowLayout = RowLayout::new();
    let mut batches: Vec<Batch> = open_batches(hits);
    let mut pos: usize = start + 1;
    let mut first: bool = true;
    let ghost mut cells = no_cells(hits@.len());
    let ghost whole = rows(
        bytes@,
        RowState { pos: start + 1, first: true, cells: no_cells(hits@.len()) },
        model,
        ctx,
        depth as int,
    );
    loop
        invariant
            start < pos <= len,
            len == bytes@.len(),
            model == lenses_model(hits@),
            all_rows(model),
            host.wf(),
            host.same(*old(host)),
            all_events == rows_events(bytes@, start + 1, true, model, ctx, depth as int),
            owed(*host, *old(host), rows_events(bytes@, pos as int, first, model, ctx, depth as int), all_events),
            layout.wf(bytes@, name_test(model)),
            batches_hold(batches@, model, cells),
            whole == rows(bytes@, (RowState { pos: pos as int, first, cells }), model, ctx, depth as int),
            whole == rows(
                bytes@,
                (RowState { pos: start + 1, first: true, cells: no_cells(hits@.len()) }),
                model,
                ctx,
                depth as int,
            ),
        decreases len - pos,
    {
        let ghost prior = *host;
        host.poll(pos)?;
        match next_item(bytes, pos, ctx.dialect, RBRACKET, first)? {
            Next::Close(end) => {
                proof {
                    owed_none(*host, *old(host), all_events);
                }
                return Ok((end, batches));
            },
            Next::Item(p) => {
                let end: usize = walk_kept_element(
                    bytes,
                    p,
                    hits,
                    ctx,
                    depth,
                    &mut layout,
                    &mut batches,
                    host,
                    Ghost(cells),
                )?;
                proof {
                    if let Ok((e, more)) = row_element(bytes@, p as int, model, ctx, depth as int) {
                        cells = appended(cells, more);
                    }
                }
                proof {
                    let head = row_element_events(bytes@, p as int, model, ctx, depth as int);
                    let tail = rows_events(bytes@, end as int, false, model, ctx, depth as int);
                    owed_step(*host, prior, *old(host), head, tail, all_events);
                }
                pos = end;
                first = false;
            },
        }
    }
}

/// The marks a row loop's batches are.
pub fn batches_to_marks(batches: Vec<Batch>, Ghost(hits): Ghost<Seq<DemandModel>>, Ghost(cells): Ghost<Seq<Seq<ColumnCell>>>) -> (r:
    Vec<Mark>)
    requires
        batches_hold(batches@, hits, cells),
    ensures
        r@.len() == hits.len(),
        marks_model(r@) == row_marks(hits, cells),
{
    let ghost given = batches@;
    let mut batches: Vec<Batch> = batches;
    let mut reversed: Vec<Mark> = Vec::new();
    while batches.len() > 0
        invariant
            batches@.len() + reversed@.len() == given.len(),
            batches@ == given.take(batches@.len() as int),
            forall|k: int|
                0 <= k < reversed@.len() ==> (#[trigger] reversed@[k])@ == MarkModel::Rows(given[given.len() - 1 - k]@),
        decreases batches@.len(),
    {
        let ghost n = batches@.len();
        match batches.pop() {
            Some(batch) => {
                assert(batches@ =~= given.take(n - 1));
                reversed.push(Mark::Rows(batch));
            },
            None => {},
        }
    }
    let mut out: Vec<Mark> = Vec::new();
    while reversed.len() > 0
        invariant
            reversed@.len() + out@.len() == given.len(),
            forall|k: int|
                0 <= k < reversed@.len() ==> (#[trigger] reversed@[k])@ == MarkModel::Rows(given[given.len() - 1 - k]@),
            forall|k: int| 0 <= k < out@.len() ==> (#[trigger] out@[k])@ == MarkModel::Rows(given[k]@),
        decreases reversed@.len(),
    {
        match reversed.pop() {
            Some(mark) => out.push(mark),
            None => {},
        }
    }
    assert(marks_model(out@) =~= row_marks(hits, cells));
    out
}

} // verus!
