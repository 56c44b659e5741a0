//! A member gets another value, or another name and value, in its place.

use vstd::prelude::*;
use vstd::utf8::valid_utf8;

use crate::answer::AnswerModel;
use crate::ascii::{LBRACE, QUOTE};
use crate::demand::StepModel;
use crate::dialect::Dialect;
use crate::edit::apply::{any_fact, demands_of, edited, located_spans, locating, plan_of, planned_edit, planned_edits, writes_fact};
use crate::edit::dom::{updated, Change};
use crate::edit::members::{last_with_key, members_from, members_of, ContainerKind, MemberModel};
use crate::edit::plan::{compact_under, filled_slot, plain_splice, planned_rename, planned_splice, replacement};
use crate::edit::request::{at_path, edit_demand, EditModel};
use crate::edit::splice::{apply_order, conflicted, conflicts, first_conflict, first_outside, ordered_splices, slotted, spliced, SpliceModel};
use crate::encode::{written, written_string};
use crate::error::Error;
use crate::framing::text_start;
use crate::laws::assign::{assigned_text_reads, compact_at_lower_depth, edit_is_located, edit_is_one_splice, exchanged, read_text_is_strict};
use crate::laws::deletes::{apart, container_is_exchanged, gathered_without, last_of_name, member_is_targeted, object_is_gathered, stands_once};
use crate::laws::indices::{path_is_found, spot_steps_on, tree_steps_on};
use crate::laws::inserts::{gathered_has, none_is_found, exchanged_is_put, fits_in, fresh_slot_lies, insert_is_planned, leads_to, put_between, reads_with, with_fresh, written_reads};
use crate::laws::local::{built_key_is, copied, key_of, led_to, led_to_is_local, next_is_local, read_is_local};
use crate::laws::paths::{last_start, position_is, position_of, read_at_lower_depth, spot, text_value, tree_at};
use crate::laws::replace::{is_start, key_before, next_before, swapped};
use crate::laws::round_trip::distinct_keys;
use crate::laws::slots::{
    behind, closer, collected_as, comes_next, container_value, found_container_is_laid, gathered, glue_start, laid,
    laid_container_reads, member_starts_are_slots, members_are_gathered, members_in, members_in_are_slots,
    named_starts, pairs, slot_ends_at_a_boundary, slot_is_followed, slot_reads, Slot,
};
use crate::laws::strings::{stands_at, written_string_reads_back};
use crate::lex::key_text;
use crate::lex::skip::{next_at, NextAt};
use crate::lex::string::opens_string;
use crate::lex::ws::{token_end, trivia_end, trivia_end_here};
use crate::scan::{scanned, strict_ask};
use crate::tape::{key_position, merged};
use crate::value::{span, well_formed, ByteRange, Json};

verus! {

/// The slot that the last member of a name takes.
proof fn last_start_takes_a_slot(slots: Seq<Slot>, name: Seq<u8>) -> (k: int)
    requires
        last_start(named_starts(slots), name) is Some,
    ensures
        last_of_name(pairs(slots), name, k),
        last_start(named_starts(slots), name) == Some(slots[k].value),
    decreases slots.len(),
{
    let n = slots.len() - 1;
    let starts = named_starts(slots);
    let front = slots.drop_last();
    assert(starts.drop_last() =~= named_starts(front));
    if starts.last().0 == name {
        assert(pairs(slots)[n].0 == name);
        n
    } else {
        let k = last_start_takes_a_slot(front, name);
        assert forall|i: int| k < i < pairs(slots).len() implies (#[trigger] pairs(slots)[i]).0 != name by {
            if i < n {
                assert(pairs(front)[i] == pairs(slots)[i]);
            }
        }
        assert(pairs(front)[k] == pairs(slots)[k]);
        k
    }
}

/// Where the last member of a name stands.
proof fn name_takes_a_slot(
    b: Seq<u8>,
    dialect: Dialect,
    before: Seq<StepModel>,
    name: Seq<u8>,
    j: Json,
    open: int,
    close: int,
    slots: Seq<Slot>,
) -> (k: int)
    requires
        leads_to(b, dialect, before, j, ContainerKind::Object, open, close, slots),
        spot(b, trivia_end(b, text_start(b), dialect)->Ok_0, dialect, 0, before.push(StepModel::Key(name))) is Some,
    ensures
        last_of_name(pairs(slots), name, k),
        spot(b, trivia_end(b, text_start(b), dialect)->Ok_0, dialect, 0, before.push(StepModel::Key(name))) == Some(slots[k].value),
{
    let step = StepModel::Key(name);
    let depth = before.len() as int;
    let pos = trivia_end(b, text_start(b), dialect)->Ok_0;
    spot_steps_on(b, pos, dialect, 0, before, step);
    let one = seq![step];
    assert(one.skip(1) =~= Seq::<StepModel>::empty());
    reveal_with_fuel(spot, 2);
    assert(named_starts(slots.take(0)) =~= Seq::<(Seq<u8>, int)>::empty());
    member_starts_are_slots(b, open, close, slots, dialect, depth + 1, 0);
    last_start_takes_a_slot(slots, name)
}

/// A value inserted under a name that is there takes the place of the last member's value
/// of that name, and nothing else changes.
#[verifier::rlimit(100)]
pub proof fn inserted_value_replaces_the_member(
    b: Seq<u8>,
    dialect: Dialect,
    before: Seq<StepModel>,
    name: Seq<u8>,
    j: Json,
    v: Json,
)
    requires
        b.len() <= usize::MAX,
        well_formed(v),
        distinct_keys(v),
        text_value(b, dialect) == Ok::<Json, Error>(j),
        tree_at(j, before.push(StepModel::Key(name))) is Some,
        written(v, compact_under(dialect), before.len() as int + 1) is Ok,
    ensures
        edited(b, seq![EditModel::Insert(before.push(StepModel::Key(name)), v)], dialect) matches Ok(out) && updated(
            j,
            before.push(StepModel::Key(name)),
            Change::Put(v),
        ) matches Some(new) && text_value(out, dialect) == Ok::<Json, Error>(new),
{
    let step = StepModel::Key(name);
    let path = before.push(step);
    let e = EditModel::Insert(path, v);
    let kind = ContainerKind::Object;
    let depth = before.len() as int + 1;
    assert(path.drop_last() =~= before);
    tree_steps_on(j, before, step);
    let s = edit_is_located(b, dialect, e, before, j);
    path_is_found(b, strict_ask(dialect, false), j, path);
    let slots = found_container_is_laid(b, dialect, before, j, kind, s.start as int);
    let k = name_takes_a_slot(b, dialect, before, name, j, s.start as int, s.end as int, slots);
    let ms = member_is_targeted(b, dialect, depth, name, s, slots, k);
    let w = written(v, compact_under(dialect), depth)->Ok_0;
    compact_at_lower_depth(v, compact_under(dialect), depth, 0);
    insert_is_planned(b, dialect, path, kind, s, ms, v, w);
    let t = slots[k];
    slot_is_followed(b, s.start as int, s.end as int, kind, slots, dialect, depth, k);
    read_at_lower_depth(b, t.value, dialect, depth, 0);
    assert(filled_slot(0, s, ms, step, w) == Ok::<Seq<SpliceModel>, Error>(seq![plain_splice(0, t.value, t.end, w)]));
    edit_is_one_splice(b, dialect, e, before, s, t.value, t.end, w);
    assigned_text_reads(b, dialect, path, j, v, span(t.value, t.end));
    read_text_is_strict(exchanged(b, t.value, t.end, w), dialect);
}

/// Whether slots are all that the object from `open` to `close` holds.
#[verifier::opaque]
spec fn lies(b: Seq<u8>, open: int, close: int, slots: Seq<Slot>, dialect: Dialect, depth: int) -> bool {
    laid(b, open, close, ContainerKind::Object, slots, dialect, depth)
}

/// Whether an edit finds its value at a span.
#[verifier::opaque]
spec fn is_located(b: Seq<u8>, e: EditModel, dialect: Dialect, s: ByteRange) -> bool {
    scanned(b, locating(seq![e], dialect, false)) matches Ok((answers, _)) && answers.len() == 1 && (
    answers[0] matches AnswerModel::Document(found) && found.root == s)
}

/// A member's slot with another value.
spec fn with_value(s: Slot, w: Seq<u8>, v: Json) -> Slot {
    Slot { end: s.value + w.len(), read: v, ..s }
}

/// A member's slot with another key, of another length.
spec fn with_key(s: Slot, key: Seq<u8>, d: int) -> Slot {
    Slot { value: s.value + d, end: s.end + d, key, ..s }
}

/// A member's value is replaced in the text.
#[verifier::rlimit(100)]
proof fn value_fits(
    b: Seq<u8>,
    open: int,
    close: int,
    slots: Seq<Slot>,
    k: int,
    v: Json,
    w: Seq<u8>,
    dialect: Dialect,
    depth: int,
)
    requires
        laid(b, open, close, ContainerKind::Object, slots, dialect, depth),
        0 <= k < slots.len(),
        well_formed(v),
        distinct_keys(v),
        written(v, compact_under(dialect), depth) == Ok::<Seq<u8>, Error>(w),
    ensures
        0 <= slots[k].value < slots[k].end <= b.len(),
        fits_in(
            b,
            slots[k].value,
            slots[k].end,
            exchanged(b, slots[k].value, slots[k].end, w),
            w.len() - (slots[k].end - slots[k].value),
            open,
            close,
            ContainerKind::Object,
            slots,
            k,
            k + 1,
            with_value(slots[k], w, v),
            dialect,
            depth,
        ),
{
    let kind = ContainerKind::Object;
    let n = b.len() as int;
    let t = slots[k];
    let x = t.value;
    let y = t.end;
    let o = exchanged(b, x, y, w);
    let d = w.len() - (y - x);
    slot_is_followed(b, open, close, kind, slots, dialect, depth, k);
    slot_ends_at_a_boundary(b, open, close, kind, slots, dialect, depth, k);
    exchanged_is_put(b, x, y, w);
    assert(b[y] == o[y + d]);
    written_reads(o, x, v, w, dialect, depth);
    crate::laws::local::value_start(o, x, dialect, depth);
    assert(swapped(b, x, y, o, d));
    key_before(b, x, y, o, d, t.at, dialect);
    slot_before_is_kept(b, x, o, open, close, slots, k, dialect, depth);
    slot_is_next_again(b, x, o, open, close, slots, k, dialect, depth);
    slot_behind_is_kept(b, y, o, d, open, close, slots, k, dialect, depth);
}

/// What stands before a slot whose later bytes change.
proof fn slot_before_is_kept(b: Seq<u8>, x: int, o: Seq<u8>, open: int, close: int, slots: Seq<Slot>, k: int, dialect: Dialect, depth: int)
    requires
        laid(b, open, close, ContainerKind::Object, slots, dialect, depth),
        0 <= k < slots.len(),
        slots[k].at <= x <= b.len(),
        x <= o.len(),
        copied(b, 0, x, o, 0),
    ensures
        k > 0 ==> slots[k - 1].end < slots[k].at && token_end(o, slots[k - 1].end, dialect),
{
    let kind = ContainerKind::Object;
    if k > 0 {
        let p = slots[k - 1].end;
        slot_is_followed(b, open, close, kind, slots, dialect, depth, k - 1);
        slot_ends_at_a_boundary(b, open, close, kind, slots, dialect, depth, k - 1);
        assert(slots[k - 1].end < slots[k].at);
        assert(b[p] == o[p + 0]);
    }
}

/// A slot whose value changes comes next as it did.
proof fn slot_is_next_again(b: Seq<u8>, x: int, o: Seq<u8>, open: int, close: int, slots: Seq<Slot>, k: int, dialect: Dialect, depth: int)
    requires
        laid(b, open, close, ContainerKind::Object, slots, dialect, depth),
        0 <= k < slots.len(),
        slots[k].at < x <= b.len(),
        copied(b, 0, x, o, 0),
    ensures
        next_at(o, behind(open, slots, k), dialect, closer(ContainerKind::Object), k == 0) == Ok::<NextAt, Error>(
            NextAt::Item(slots[k].at),
        ),
{
    let kind = ContainerKind::Object;
    slot_is_followed(b, open, close, kind, slots, dialect, depth, k);
    if k > 0 {
        slot_is_followed(b, open, close, kind, slots, dialect, depth, k - 1);
        assert(slots[k - 1].end < slots[k].at);
    }
    assert(comes_next(b, open, kind, slots, dialect, k));
    next_is_local(b, 0, x, o, 0, behind(open, slots, k), dialect, closer(kind), k == 0);
}

/// What comes next behind a slot whose earlier bytes change.
proof fn slot_behind_is_kept(
    b: Seq<u8>,
    y: int,
    o: Seq<u8>,
    d: int,
    open: int,
    close: int,
    slots: Seq<Slot>,
    k: int,
    dialect: Dialect,
    depth: int,
)
    requires
        laid(b, open, close, ContainerKind::Object, slots, dialect, depth),
        0 <= k < slots.len(),
        0 <= y <= slots[k].end,
        copied(b, y, b.len() as int, o, d),
    ensures
        k + 1 < slots.len() ==> slots[k].end < slots[k + 1].at,
        next_at(o, slots[k].end + d, dialect, closer(ContainerKind::Object), false) == Ok::<NextAt, Error>(
            if k + 1 < slots.len() {
                NextAt::Item(slots[k + 1].at + d)
            } else {
                NextAt::Close(close + d)
            },
        ),
{
    let kind = ContainerKind::Object;
    slot_is_followed(b, open, close, kind, slots, dialect, depth, k);
    assert(behind(open, slots, k + 1) == slots[k].end);
    if k + 1 < slots.len() {
        slot_is_followed(b, open, close, kind, slots, dialect, depth, k + 1);
        assert(comes_next(b, open, kind, slots, dialect, k + 1));
        assert(slots[k].end < slots[k + 1].at);
    }
    next_is_local(b, y, b.len() as int, o, d, slots[k].end, dialect, closer(kind), false);
}

/// A member's key is replaced in the text.
#[verifier::rlimit(100)]
proof fn key_fits(
    b: Seq<u8>,
    open: int,
    close: int,
    slots: Seq<Slot>,
    k: int,
    ke: int,
    key: Seq<u8>,
    dialect: Dialect,
    depth: int,
)
    requires
        laid(b, open, close, ContainerKind::Object, slots, dialect, depth),
        0 <= k < slots.len(),
        valid_utf8(key),
        key_text(b, slots[k].at, dialect) matches Ok((e, _)) && e == ke,
    ensures
        0 <= slots[k].at < ke < slots[k].value <= b.len(),
        fits_in(
            b,
            slots[k].at,
            ke,
            exchanged(b, slots[k].at, ke, written_string(key, false)),
            written_string(key, false).len() - (ke - slots[k].at),
            open,
            close,
            ContainerKind::Object,
            slots,
            k,
            k + 1,
            with_key(slots[k], key, written_string(key, false).len() - (ke - slots[k].at)),
            dialect,
            depth,
        ),
{
    let kind = ContainerKind::Object;
    let n = b.len() as int;
    let t = slots[k];
    let x = t.at;
    let w = written_string(key, false);
    let o = exchanged(b, x, ke, w);
    let d = w.len() - (ke - x);
    slot_is_followed(b, open, close, kind, slots, dialect, depth, k);
    key_ends_before_its_value(b, t, ke, dialect, depth);
    exchanged_is_put(b, x, ke, w);
    renamed_slot_reads(b, x, ke, o, d, t, key, dialect, depth);
    assert(swapped(b, x, ke, o, d));
    slot_before_is_kept(b, x, o, open, close, slots, k, dialect, depth);
    let p = behind(open, slots, k);
    assert(comes_next(b, open, kind, slots, dialect, k));
    next_before(b, x, ke, o, d, p, dialect, closer(kind), k == 0);
    slot_behind_is_kept(b, ke, o, d, open, close, slots, k, dialect, depth);
}

proof fn key_ends_before_its_value(b: Seq<u8>, t: Slot, ke: int, dialect: Dialect, depth: int)
    requires
        slot_reads(b, t, ContainerKind::Object, dialect, depth),
        key_text(b, t.at, dialect) matches Ok((e, _)) && e == ke,
    ensures
        t.at < ke < t.value,
        led_to(b, ke, dialect) == Ok::<int, Error>(t.value),
{
    built_key_is(b, t.at, dialect);
    reveal(key_of);
    crate::lex::key_text_end(b, t.at, dialect);
    led_to_is_local(b, 0, b.len() as int, b, 0, ke, dialect);
}

/// A member with another key reads under it.
proof fn renamed_slot_reads(b: Seq<u8>, x: int, ke: int, o: Seq<u8>, d: int, t: Slot, key: Seq<u8>, dialect: Dialect, depth: int)
    requires
        put_between(b, x, ke, o, d),
        x == t.at,
        d == written_string(key, false).len() - (ke - x),
        x < ke < t.value,
        slot_reads(b, t, ContainerKind::Object, dialect, depth),
        led_to(b, ke, dialect) == Ok::<int, Error>(t.value),
        valid_utf8(key),
        stands_at(o, x, written_string(key, false)),
    ensures
        slot_reads(o, with_key(t, key, d), ContainerKind::Object, dialect, depth),
        is_start(o[x]),
        x < o.len(),
        x < ke + d,
{
    let n = b.len() as int;
    written_string_reads_back(o, x, key, false, dialect);
    assert(o[x] == QUOTE);
    read_is_local(b, ke, n, o, d, t.value, dialect, depth);
    led_to_is_local(b, ke, n, o, d, ke, dialect);
    built_key_is(o, x, dialect);
    reveal(key_of);
    assert(opens_string(o[x], dialect));
    assert(key_text(o, x, dialect) == Ok::<(int, Seq<u8>), Error>((x + written_string(key, false).len(), key)));
    crate::lex::key_text_end(o, x, dialect);
}

/// A text with a member's key and value replaced.
spec fn renamed_text(b: Seq<u8>, t: Slot, ke: int, key: Seq<u8>, w: Seq<u8>) -> Seq<u8> {
    exchanged(exchanged(b, t.value, t.end, w), t.at, ke, written_string(key, false))
}

/// A text with a member renamed reads as the value with that member renamed.
#[verifier::rlimit(100)]
proof fn renamed_text_reads(
    b: Seq<u8>,
    dialect: Dialect,
    before: Seq<StepModel>,
    j: Json,
    open: int,
    close: int,
    slots: Seq<Slot>,
    k: int,
    ke: int,
    key: Seq<u8>,
    v: Json,
    w: Seq<u8>,
)
    requires
        leads_to(b, dialect, before, j, ContainerKind::Object, open, close, slots),
        0 <= k < slots.len(),
        valid_utf8(key),
        well_formed(v),
        distinct_keys(v),
        written(v, compact_under(dialect), before.len() as int + 1) == Ok::<Seq<u8>, Error>(w),
        key_text(b, slots[k].at, dialect) matches Ok((e, _)) && e == ke,
    ensures
        0 <= slots[k].at < ke < slots[k].value < slots[k].end <= b.len(),
        reads_with(
            renamed_text(b, slots[k], ke, key, w),
            dialect,
            j,
            before,
            Json::Object(gathered(pairs(slots).update(k, (key, v)))),
        ),
{
    let kind = ContainerKind::Object;
    let depth = before.len() as int + 1;
    let t = slots[k];
    let kw = written_string(key, false);
    let d = w.len() - (t.end - t.value) + kw.len() - (ke - t.at);
    let o = renamed_text(b, t, ke, key, w);
    slot_is_followed(b, open, close, kind, slots, dialect, depth, k);
    key_ends_before_its_value(b, t, ke, dialect, depth);
    reveal(lies);
    let slots2 = renamed_slots_lie(b, dialect, open, close, slots, k, ke, key, v, w, depth);
    renamed_is_swapped(b, open, close, t.value, t.end, w, t.at, ke, kw);
    assert(b[open] == o[open + 0]);
    laid_container_reads(o, open, close + d, kind, slots2, dialect, before.len() as int);
    members_are_gathered(slots2);
    container_is_exchanged(b, open, close, o, d, dialect, before, j, container_value(kind, slots2));
}

/// The slots lie in the text with a member renamed.
#[verifier::rlimit(100)]
proof fn renamed_slots_lie(
    b: Seq<u8>,
    dialect: Dialect,
    open: int,
    close: int,
    slots: Seq<Slot>,
    k: int,
    ke: int,
    key: Seq<u8>,
    v: Json,
    w: Seq<u8>,
    depth: int,
) -> (all: Seq<Slot>)
    requires
        lies(b, open, close, slots, dialect, depth),
        0 <= k < slots.len(),
        valid_utf8(key),
        well_formed(v),
        distinct_keys(v),
        written(v, compact_under(dialect), depth) == Ok::<Seq<u8>, Error>(w),
        key_text(b, slots[k].at, dialect) matches Ok((e, _)) && e == ke,
    ensures
        lies(
            renamed_text(b, slots[k], ke, key, w),
            open,
            close + (w.len() - (slots[k].end - slots[k].value) + written_string(key, false).len() - (ke - slots[k].at)),
            all,
            dialect,
            depth,
        ),
        pairs(all) == pairs(slots).update(k, (key, v)),
{
    let t = slots[k];
    let slots1 = valued_slots_lie(b, dialect, open, close, slots, k, ke, v, w, depth);
    let b1 = exchanged(b, t.value, t.end, w);
    let d1 = w.len() - (t.end - t.value);
    let slots2 = keyed_slots_lie(b1, dialect, open, close + d1, slots1, k, ke, key, depth);
    assert(pairs(slots2) =~= pairs(slots).update(k, (key, v)));
    slots2
}

#[verifier::rlimit(100)]
proof fn valued_slots_lie(
    b: Seq<u8>,
    dialect: Dialect,
    open: int,
    close: int,
    slots: Seq<Slot>,
    k: int,
    ke: int,
    v: Json,
    w: Seq<u8>,
    depth: int,
) -> (all: Seq<Slot>)
    requires
        lies(b, open, close, slots, dialect, depth),
        0 <= k < slots.len(),
        well_formed(v),
        distinct_keys(v),
        written(v, compact_under(dialect), depth) == Ok::<Seq<u8>, Error>(w),
        key_text(b, slots[k].at, dialect) matches Ok((e, _)) && e == ke,
    ensures
        lies(
            exchanged(b, slots[k].value, slots[k].end, w),
            open,
            close + (w.len() - (slots[k].end - slots[k].value)),
            all,
            dialect,
            depth,
        ),
        all.len() == slots.len(),
        all[k] == with_value(slots[k], w, v),
        pairs(all) == pairs(slots).update(k, (slots[k].key, v)),
        key_text(exchanged(b, slots[k].value, slots[k].end, w), slots[k].at, dialect) matches Ok((e, _)) && e == ke,
{
    reveal(lies);
    let kind = ContainerKind::Object;
    let t = slots[k];
    let o = exchanged(b, t.value, t.end, w);
    let d = w.len() - (t.end - t.value);
    let fresh = with_value(t, w, v);
    value_fits(b, open, close, slots, k, v, w, dialect, depth);
    fresh_slot_lies(b, t.value, t.end, o, d, open, close, kind, slots, k, k + 1, fresh, dialect, depth);
    let all = with_fresh(slots, k, k + 1, fresh, d);
    assert(slot_reads(b, t, kind, dialect, depth));
    key_ends_before_its_value(b, t, ke, dialect, depth);
    key_is_kept(b, o, t.at, t.value, ke, dialect);
    assert(pairs(all) =~= pairs(slots).update(k, (t.key, v)));
    all
}

#[verifier::rlimit(100)]
proof fn keyed_slots_lie(
    b: Seq<u8>,
    dialect: Dialect,
    open: int,
    close: int,
    slots: Seq<Slot>,
    k: int,
    ke: int,
    key: Seq<u8>,
    depth: int,
) -> (all: Seq<Slot>)
    requires
        lies(b, open, close, slots, dialect, depth),
        0 <= k < slots.len(),
        valid_utf8(key),
        key_text(b, slots[k].at, dialect) matches Ok((e, _)) && e == ke,
    ensures
        lies(
            exchanged(b, slots[k].at, ke, written_string(key, false)),
            open,
            close + (written_string(key, false).len() - (ke - slots[k].at)),
            all,
            dialect,
            depth,
        ),
        pairs(all) == pairs(slots).update(k, (key, slots[k].read)),
{
    reveal(lies);
    let kind = ContainerKind::Object;
    let t = slots[k];
    let kw = written_string(key, false);
    let d = kw.len() - (ke - t.at);
    let o = exchanged(b, t.at, ke, kw);
    let fresh = with_key(t, key, d);
    key_fits(b, open, close, slots, k, ke, key, dialect, depth);
    fresh_slot_lies(b, t.at, ke, o, d, open, close, kind, slots, k, k + 1, fresh, dialect, depth);
    let all = with_fresh(slots, k, k + 1, fresh, d);
    assert(pairs(all) =~= pairs(slots).update(k, (key, t.read)));
    all
}

proof fn renamed_is_swapped(b: Seq<u8>, open: int, close: int, x: int, y: int, w: Seq<u8>, at: int, ke: int, kw: Seq<u8>)
    requires
        0 <= open < at < ke < x < y < close <= b.len(),
    ensures
        swapped(
            b,
            open,
            close,
            exchanged(exchanged(b, x, y, w), at, ke, kw),
            w.len() - (y - x) + kw.len() - (ke - at),
        ),
{
    let b1 = exchanged(b, x, y, w);
    let o = exchanged(b1, at, ke, kw);
    let d = w.len() - (y - x) + kw.len() - (ke - at);
    assert forall|i: int| 0 <= i < open implies #[trigger] b[i] == o[i + 0] by {}
    assert forall|i: int| close <= i < b.len() implies #[trigger] b[i] == o[i + d] by {}
}

/// A key before a replaced value is the same key.
proof fn key_is_kept(b: Seq<u8>, o: Seq<u8>, at: int, x: int, ke: int, dialect: Dialect)
    requires
        copied(b, 0, x, o, 0),
        0 <= at < ke < x <= b.len(),
        key_text(b, at, dialect) matches Ok((e, _)) && e == ke,
    ensures
        key_text(o, at, dialect) matches Ok((e, _)) && e == ke,
{
    crate::laws::local::key_of_is_local(b, 0, x, o, 0, at, dialect);
    reveal(key_of);
}

/// A name that stands once, with another name in its place that stands nowhere else, is
/// gathered where it was.
proof fn gathered_renamed(list: Seq<(Seq<u8>, Json)>, k: int, new: (Seq<u8>, Json)) -> (at: int)
    requires
        0 <= k < list.len(),
        forall|i: int| 0 <= i < list.len() && i != k ==> (#[trigger] list[i]).0 != list[k].0 && list[i].0 != new.0,
    ensures
        0 <= at < gathered(list).len(),
        gathered(list)[at] == list[k],
        gathered(list.update(k, new)) == gathered(list).update(at, new),
        forall|i: int| 0 <= i < gathered(list).len() && i != at ==> (#[trigger] gathered(list)[i]).0 != list[k].0,
    decreases list.len(),
{
    let name = list[k].0;
    let n = list.len() - 1;
    let front = list.drop_last();
    let done = gathered(front);
    let after = list.update(k, new);
    if k == n {
        assert forall|i: int| 0 <= i < front.len() implies (#[trigger] front[i]).0 != name && front[i].0 != new.0 by {
            assert(front[i] == list[i]);
        }
        gathered_without(front, name);
        gathered_without(front, new.0);
        position_of(done, name, 0);
        position_of(done, new.0, 0);
        assert(after.drop_last() =~= front);
        assert(gathered(after) =~= gathered(list).update(done.len() as int, new));
        done.len() as int
    } else {
        assert forall|i: int| 0 <= i < front.len() && i != k implies (#[trigger] front[i]).0 != front[k].0 && front[i].0 != new.0 by {
            assert(front[i] == list[i]);
        }
        let at = gathered_renamed(front, k, new);
        let key = list.last().0;
        let x = list.last().1;
        assert(list[n].0 != name && list[n].0 != new.0);
        assert(after.drop_last() =~= front.update(k, new));
        assert(after.last() == list.last());
        let p = key_position(done, key, 0);
        position_of(done, key, 0);
        let other = done.update(at, new);
        assert(p != at);
        assert forall|i: int| 0 <= i < p implies (#[trigger] other[i]).0 != key by {
            if i != at {
                assert(other[i] == done[i]);
            }
        }
        position_is(other, key, 0, p);
        assert(merged(other, key, x) =~= merged(done, key, x).update(at, new));
        at
    }
}

/// The plan of a rename is two splices: the key, and the value.
#[verifier::rlimit(100)]
proof fn rename_is_two_splices(
    b: Seq<u8>,
    dialect: Dialect,
    e: EditModel,
    path: Seq<StepModel>,
    s: ByteRange,
    t: Slot,
    ke: int,
    kw: Seq<u8>,
    w: Seq<u8>,
)
    requires
        0 <= t.at < ke < t.value < t.end <= b.len(),
        s.start < s.end <= b.len(),
        !(e is Fact),
        edit_demand(e, dialect) == Some(at_path(path)),
        planned_splice(b, 0, e, Some(s), dialect) == Ok::<Seq<SpliceModel>, Error>(
            seq![plain_splice(0, t.at, ke, kw), plain_splice(0, t.value, t.end, w)],
        ),
        is_located(b, e, dialect, s),
    ensures
        plan_of(b, seq![e], dialect, false) matches Ok((splices, _)) && splices.len() == 2 && spliced(
            b,
            splices,
            0,
            b.len() as int,
        ) == exchanged(exchanged(b, t.value, t.end, w), t.at, ke, kw),
{
    let two = seq![plain_splice(0, t.at, ke, kw), plain_splice(0, t.value, t.end, w)];
    plan_of_one_edit(b, dialect, e, path, s, two);
    two_in_order(b, t, ke, kw, w);
}

/// The plan of one edit is its splices in order.
#[verifier::rlimit(100)]
proof fn plan_of_one_edit(b: Seq<u8>, dialect: Dialect, e: EditModel, path: Seq<StepModel>, s: ByteRange, splices: Seq<SpliceModel>)
    requires
        s.start < s.end <= b.len(),
        !(e is Fact),
        edit_demand(e, dialect) == Some(at_path(path)),
        planned_splice(b, 0, e, Some(s), dialect) == Ok::<Seq<SpliceModel>, Error>(splices),
        is_located(b, e, dialect, s),
    ensures
        match ordered_splices(splices, b.len() as int) {
            Ok(sorted) => plan_of(b, seq![e], dialect, false) matches Ok((list, _)) && list == sorted,
            Err(_) => true,
        },
{
    reveal(is_located);
    reveal(plan_of);
    reveal(planned_edit);
    let edits = seq![e];
    assert(!any_fact(edits)) by {
        assert forall|i: int| 0 <= i < edits.len() implies !writes_fact(#[trigger] edits[i]) by {}
    }
    let answers = scanned(b, locating(edits, dialect, false))->Ok_0.0;
    reveal_with_fuel(located_spans, 2);
    reveal_with_fuel(demands_of, 2);
    reveal_with_fuel(planned_edits, 2);
    let spans = located_spans(b, answers, 0, edits, 1, dialect);
    assert(spans == Ok::<Seq<Option<ByteRange>>, Error>(Seq::<Option<ByteRange>>::empty().push(Some(s))));
    assert(Seq::<SpliceModel>::empty() + splices =~= splices);
    assert(planned_edits(b, edits, spans->Ok_0, 1, dialect, Seq::empty())->Ok_0.0 == splices);
}

#[verifier::rlimit(100)]
proof fn two_in_order(b: Seq<u8>, t: Slot, ke: int, kw: Seq<u8>, w: Seq<u8>)
    requires
        0 <= t.at < ke < t.value < t.end <= b.len(),
    ensures
        ({
            let two = seq![plain_splice(0, t.at, ke, kw), plain_splice(0, t.value, t.end, w)];
            let sorted = seq![plain_splice(0, t.value, t.end, w), plain_splice(0, t.at, ke, kw)];
            &&& apply_order(two) == sorted
            &&& first_conflict(sorted, 0) is None
            &&& first_outside(sorted, b.len() as int, 0) is None
            &&& spliced(b, sorted, 0, b.len() as int) == exchanged(exchanged(b, t.value, t.end, w), t.at, ke, kw)
        }),
{
    let first = plain_splice(0, t.at, ke, kw);
    let second = plain_splice(0, t.value, t.end, w);
    let two = seq![first, second];
    let sorted = seq![second, first];
    let one = seq![first];
    reveal_with_fuel(apply_order, 3);
    reveal_with_fuel(slotted, 3);
    assert(two.drop_last() =~= one);
    assert(one.drop_last() =~= Seq::<SpliceModel>::empty());
    assert(apply_order(one) =~= one);
    assert(apply_order(two) =~= sorted);
    reveal_with_fuel(first_conflict, 3);
    reveal_with_fuel(first_outside, 3);
    assert(!conflicts(second, first));
    assert(!conflicted(sorted, 0));
    assert(!conflicted(sorted, 1));
    reveal_with_fuel(spliced, 4);
    assert(spliced(b, sorted, 0, b.len() as int) =~= exchanged(exchanged(b, t.value, t.end, w), t.at, ke, kw));
}

/// A member whose name stands once gets another name, which no other member has, and
/// another value, in its place; nothing else changes.
#[verifier::rlimit(100)]
pub proof fn renamed_member_is_in_its_place(
    b: Seq<u8>,
    dialect: Dialect,
    before: Seq<StepModel>,
    name: Seq<u8>,
    key: Seq<u8>,
    j: Json,
    members: Seq<(Seq<u8>, Json)>,
    at: int,
    v: Json,
)
    requires
        b.len() <= usize::MAX,
        valid_utf8(key),
        well_formed(v),
        distinct_keys(v),
        text_value(b, dialect) == Ok::<Json, Error>(j),
        tree_at(j, before) == Some(Json::Object(members)),
        0 <= at < members.len(),
        members[at].0 == name,
        stands_once(members_in(b, dialect, before), name),
        forall|i: int| 0 <= i < members.len() && i != at ==> (#[trigger] members[i]).0 != key,
        written(v, compact_under(dialect), before.len() as int + 1) is Ok,
    ensures
        edited(b, seq![EditModel::ReplaceMember(before.push(StepModel::Key(name)), key, v)], dialect) matches Ok(out) && updated(
            j,
            before,
            Change::Put(Json::Object(members.update(at, (key, v)))),
        ) matches Some(new) && text_value(out, dialect) == Ok::<Json, Error>(new),
{
    let step = StepModel::Key(name);
    let path = before.push(step);
    let e = EditModel::ReplaceMember(path, key, v);
    let kind = ContainerKind::Object;
    let depth = before.len() as int + 1;
    assert(path.drop_last() =~= before);
    let s = edit_is_located(b, dialect, e, before, j);
    let slots = found_container_is_laid(b, dialect, before, j, kind, s.start as int);
    object_is_gathered(b, dialect, before, j, s.start as int);
    members_in_are_slots(b, dialect, before, s.start as int, s.end as int, slots);
    let k = once_takes_a_slot(slots, name, key, members, at, v);
    let ms = member_is_targeted(b, dialect, depth, name, s, slots, k);
    let w = written(v, compact_under(dialect), depth)->Ok_0;
    compact_at_lower_depth(v, compact_under(dialect), depth, 0);
    let ke = ms[k].key_end;
    renamed_text_reads(b, dialect, before, j, s.start as int, s.end as int, slots, k, ke, key, v, w);
    rename_is_planned(b, dialect, path, s, slots, ms, name, key, v, w, k);
    assert(is_located(b, e, dialect, s)) by {
        reveal(is_located);
    }
    rename_is_two_splices(b, dialect, e, before, s, slots[k], ke, written_string(key, false), w);
    read_text_is_strict(renamed_text(b, slots[k], ke, key, w), dialect);
}

/// Where a name that stands once stands, and what comes of another in its place.
proof fn once_takes_a_slot(slots: Seq<Slot>, name: Seq<u8>, key: Seq<u8>, members: Seq<(Seq<u8>, Json)>, at: int, v: Json) -> (k: int)
    requires
        members == gathered(pairs(slots)),
        apart(members),
        0 <= at < members.len(),
        members[at].0 == name,
        stands_once(pairs(slots), name),
        forall|i: int| 0 <= i < members.len() && i != at ==> (#[trigger] members[i]).0 != key,
    ensures
        last_of_name(pairs(slots), name, k),
        gathered(pairs(slots).update(k, (key, v))) == members.update(at, (key, v)),
        forall|i: int| 0 <= i < slots.len() && i != k ==> (#[trigger] slots[i]).key != key && slots[i].key != name,
{
    let list = pairs(slots);
    if forall|i: int| 0 <= i < list.len() ==> (#[trigger] list[i]).0 != name {
        gathered_without(list, name);
    }
    let k = choose|i: int| 0 <= i < list.len() && (#[trigger] list[i]).0 == name;
    assert forall|i: int| 0 <= i < list.len() && i != k implies (#[trigger] list[i]).0 != list[k].0 && list[i].0 != key by {
        if i < k {
            assert(list[i].0 != name || list[k].0 != name);
        } else {
            assert(list[k].0 != name || list[i].0 != name);
        }
        gathered_has(list, i);
        let q = choose|q: int| 0 <= q < members.len() && (#[trigger] members[q]).0 == list[i].0;
        assert(q != at);
    }
    let place = gathered_renamed(list, k, (key, v));
    if place < at {
        assert(members[place].0 != members[at].0);
    } else if at < place {
        assert(members[at].0 != members[place].0);
    }
    assert forall|i: int| 0 <= i < slots.len() && i != k implies (#[trigger] slots[i]).key != key && slots[i].key != name by {
        assert(list[i].0 == slots[i].key);
    }
    k
}

/// What is planned for a rename.
#[verifier::rlimit(100)]
proof fn rename_is_planned(
    b: Seq<u8>,
    dialect: Dialect,
    path: Seq<StepModel>,
    s: ByteRange,
    slots: Seq<Slot>,
    ms: Seq<MemberModel>,
    name: Seq<u8>,
    key: Seq<u8>,
    v: Json,
    w: Seq<u8>,
    k: int,
)
    requires
        path.len() > 0,
        path.last() == StepModel::Key(name),
        s.start < s.end <= b.len(),
        b[s.start as int] == LBRACE,
        members_from(b, s.start + 1, s.end as int, ContainerKind::Object, dialect, Seq::empty()) == Ok::<Seq<MemberModel>, Error>(ms),
        ms.len() == slots.len(),
        0 <= k < slots.len(),
        forall|q: int|
            0 <= q < slots.len() ==> collected_as(
                #[trigger] ms[q],
                b,
                glue_start(b, s.start as int, slots, q, dialect),
                slots[q],
                ContainerKind::Object,
                dialect,
            ),
        last_with_key(ms, name) == Some(ms[k]),
        forall|i: int| 0 <= i < slots.len() && i != k ==> (#[trigger] slots[i]).key != key && slots[i].key != name,
        slots[k].key == name,
        replacement(v, dialect) == Ok::<Seq<u8>, Error>(w),
    ensures
        planned_splice(b, 0, EditModel::ReplaceMember(path, key, v), Some(s), dialect) == Ok::<Seq<SpliceModel>, Error>(
            seq![
                plain_splice(0, slots[k].at, ms[k].key_end, written_string(key, false)),
                plain_splice(0, slots[k].value, slots[k].end, w),
            ],
        ),
{
    let e = EditModel::ReplaceMember(path, key, v);
    trivia_end_here(b, s.start as int, dialect);
    assert(planned_splice(b, 0, e, Some(s), dialect) == planned_rename(b, 0, path, key, v, Some(s), dialect));
    assert(members_of(b, s, dialect) == Ok::<Seq<MemberModel>, Error>(ms));
    assert(collected_as(ms[k], b, glue_start(b, s.start as int, slots, k, dialect), slots[k], ContainerKind::Object, dialect));
    if name != key {
        assert forall|i: int| 0 <= i < ms.len() implies (#[trigger] ms[i]).key != Some(key) by {
            assert(collected_as(ms[i], b, glue_start(b, s.start as int, slots, i, dialect), slots[i], ContainerKind::Object, dialect));
            if i != k {
                assert(slots[i].key != key);
            }
        }
        none_is_found(ms, key);
    }
}

} // verus!
