//! A re-encoded document holds the edited value.

use vstd::prelude::*;

use crate::answer::{AnswerModel, DocumentModel};
use crate::demand::StepModel;
use crate::dialect::Dialect;
use crate::edit::apply::{edited_values, fallback};
use crate::edit::dom::{changed, first_member, updated, Change};
use crate::edit::plan::compact_under;
use crate::edit::request::EditModel;
use crate::error::Error;
use crate::framing::text_start;
use crate::laws::forms::{every_form_reads_the_same, read_text};
use crate::laws::parse::parsed_value_is_well_formed;
use crate::laws::round_trip::{distinct_keys, written_value_reads_back};
use crate::materialize::{parsed, Form};
use crate::value::{last_member, last_member_facts, resolved, span_bytes, well_formed, ByteRange, Json};
use vstd::utf8::valid_utf8;

verus! {

/// Whether a value is spelled by the grammars and repeats no key.
pub open spec fn proper(j: Json) -> bool {
    well_formed(j) && distinct_keys(j)
}

/// Whether a change brings in nothing but proper values and keys.
spec fn proper_change(change: Change) -> bool {
    match change {
        Change::Put(new) => proper(new),
        Change::Fill(step, new) => proper(new) && (step matches StepModel::Key(name) ==> valid_utf8(name)),
        Change::Rename(_, key, new) => proper(new) && valid_utf8(key),
        _ => true,
    }
}

/// Whether an edit brings in nothing but proper values and keys.
pub open spec fn proper_edit(e: EditModel) -> bool {
    match e {
        EditModel::Assign(_, new) => proper(new),
        EditModel::Insert(path, new) => proper(new) && forall|i: int|
            0 <= i < path.len() ==> (#[trigger] path[i] matches StepModel::Key(name) ==> valid_utf8(name)),
        EditModel::ReplaceMember(_, key, new) => proper(new) && valid_utf8(key),
        _ => true,
    }
}

/// Whether members are proper.
spec fn proper_members(members: Seq<(Seq<u8>, Json)>) -> bool {
    &&& forall|i: int| 0 <= i < members.len() ==> valid_utf8((#[trigger] members[i]).0) && proper(members[i].1)
    &&& forall|i: int, k: int| 0 <= i < k < members.len() ==> (#[trigger] members[i]).0 != (#[trigger] members[k]).0
}

proof fn object_is_proper(members: Seq<(Seq<u8>, Json)>)
    ensures
        proper(Json::Object(members)) <==> proper_members(members),
{
    let j = Json::Object(members);
    let spelled = forall|i: int|
        0 <= i < members.len() ==> valid_utf8((#[trigger] members[i]).0) && well_formed(members[i].1);
    let inner = forall|i: int| 0 <= i < members.len() ==> distinct_keys((#[trigger] members[i]).1);
    let apart = forall|i: int, k: int|
        0 <= i < k < members.len() ==> (#[trigger] members[i]).0 != (#[trigger] members[k]).0;
    if well_formed(j) {
        assert forall|i: int| 0 <= i < members.len() implies valid_utf8((#[trigger] members[i]).0) && well_formed(
            members[i].1,
        ) by {
            assert(j->Object_0[i] == members[i]);
        }
    }
    if spelled {
        assert(well_formed(j));
    }
    if distinct_keys(j) {
        assert forall|i: int, k: int| 0 <= i < k < members.len() implies (#[trigger] members[i]).0 != (
        #[trigger] members[k]).0 by {
            assert(j->Object_0[i].0 != j->Object_0[k].0);
        }
        assert forall|i: int| 0 <= i < members.len() implies distinct_keys((#[trigger] members[i]).1) by {
            assert(j->Object_0[i] == members[i]);
        }
    }
    if apart && inner {
        assert(distinct_keys(j));
    }
    if spelled && inner {
        assert forall|i: int| 0 <= i < members.len() implies valid_utf8((#[trigger] members[i]).0) && proper(members[i].1) by {}
    }
    if proper_members(members) {
        assert forall|i: int| 0 <= i < members.len() implies valid_utf8((#[trigger] members[i]).0) && well_formed(
            members[i].1,
        ) && distinct_keys(members[i].1) by {
            assert(proper(members[i].1));
        }
    }
}

proof fn array_is_proper(items: Seq<Json>)
    ensures
        proper(Json::Array(items)) <==> forall|i: int| 0 <= i < items.len() ==> proper(#[trigger] items[i]),
{
    let j = Json::Array(items);
    let spelled = forall|i: int| 0 <= i < items.len() ==> well_formed(#[trigger] items[i]);
    let inner = forall|i: int| 0 <= i < items.len() ==> distinct_keys(#[trigger] items[i]);
    if well_formed(j) {
        assert forall|i: int| 0 <= i < items.len() implies well_formed(#[trigger] items[i]) by {
            assert(j->Array_0[i] == items[i]);
        }
    }
    if spelled {
        assert(well_formed(j));
    }
    assert(distinct_keys(j) == inner);
    if spelled && inner {
        assert forall|i: int| 0 <= i < items.len() implies proper(#[trigger] items[i]) by {
            assert(well_formed(items[i]) && distinct_keys(items[i]));
        }
    }
    if forall|i: int| 0 <= i < items.len() ==> proper(#[trigger] items[i]) {
        assert forall|i: int| 0 <= i < items.len() implies well_formed(#[trigger] items[i]) by {
            assert(proper(items[i]));
        }
        assert forall|i: int| 0 <= i < items.len() implies distinct_keys(#[trigger] items[i]) by {
            assert(proper(items[i]));
        }
    }
}

proof fn set_member(members: Seq<(Seq<u8>, Json)>, i: int, key: Seq<u8>, new: Json)
    requires
        proper_members(members),
        0 <= i < members.len(),
        proper(new),
        valid_utf8(key),
        forall|k: int| 0 <= k < members.len() && k != i ==> (#[trigger] members[k]).0 != key,
    ensures
        proper_members(members.update(i, (key, new))),
{
    let after = members.update(i, (key, new));
    assert forall|a: int, b: int| 0 <= a < b < after.len() implies (#[trigger] after[a]).0 != (#[trigger] after[b]).0 by {
        assert(a != i ==> after[a] == members[a]);
        assert(b != i ==> after[b] == members[b]);
    }
    assert forall|a: int| 0 <= a < after.len() implies valid_utf8((#[trigger] after[a]).0) && proper(after[a].1) by {
        assert(a != i ==> after[a] == members[a]);
    }
}

proof fn drop_member(members: Seq<(Seq<u8>, Json)>, i: int)
    requires
        proper_members(members),
        0 <= i < members.len(),
    ensures
        proper_members(members.remove(i)),
        forall|k: int| 0 <= k < members.len() - 1 ==> (#[trigger] members.remove(i)[k]).0 != members[i].0,
{
    let after = members.remove(i);
    assert forall|a: int| 0 <= a < after.len() implies #[trigger] after[a] == members[if a < i {
        a
    } else {
        a + 1
    }] by {}
}

/// The key of a member found is the name asked for, and no other has it.
proof fn found_member(members: Seq<(Seq<u8>, Json)>, name: Seq<u8>)
    requires
        proper_members(members),
    ensures
        match last_member(members, name) {
            Some(i) => 0 <= i < members.len() && members[i].0 == name && forall|k: int|
                0 <= k < members.len() && k != i ==> (#[trigger] members[k]).0 != name,
            None => forall|k: int| 0 <= k < members.len() ==> (#[trigger] members[k]).0 != name,
        },
{
    last_member_facts(members, name);
    if let Some(i) = last_member(members, name) {
        assert forall|k: int| 0 <= k < members.len() && k != i implies (#[trigger] members[k]).0 != name by {
            if k < i {
                assert(members[k].0 != members[i].0);
            } else {
                assert(members[i].0 != members[k].0);
            }
        }
    }
}

/// The first member found is one of the name asked for; where none is, none has it.
proof fn first_found(members: Seq<(Seq<u8>, Json)>, name: Seq<u8>, from: int)
    requires
        0 <= from <= members.len(),
    ensures
        match first_member(members, name, from) {
            Some(i) => from <= i < members.len() && members[i].0 == name,
            None => forall|k: int| from <= k < members.len() ==> (#[trigger] members[k]).0 != name,
        },
    decreases members.len() - from,
{
    if from < members.len() && members[from].0 != name {
        first_found(members, name, from + 1);
    }
}

proof fn members_changed(members: Seq<(Seq<u8>, Json)>, change: Change)
    requires
        proper_members(members),
        proper_change(change),
        !(change is Put),
    ensures
        changed(Json::Object(members), change) matches Some(new) ==> proper(new),
{
    match change {
        Change::Fill(StepModel::Key(name), new) => {
            found_member(members, name);
            match last_member(members, name) {
                Some(i) => {
                    set_member(members, i, members[i].0, new);
                    object_is_proper(members.update(i, (members[i].0, new)));
                },
                None => {
                    object_is_proper(members.push((name, new)));
                },
            }
        },
        Change::Remove(StepModel::Key(name)) => {
            found_member(members, name);
            object_is_proper(members);
            if let Some(i) = last_member(members, name) {
                drop_member(members, i);
                object_is_proper(members.remove(i));
            }
        },
        Change::Rename(name, key, new) => {
            found_member(members, name);
            if let Some(i) = last_member(members, name) {
                let others = members.remove(i);
                drop_member(members, i);
                first_found(others, key, 0);
                match first_member(others, key, 0) {
                    Some(k) => {
                        set_member(others, k, others[k].0, new);
                        object_is_proper(others.update(k, (others[k].0, new)));
                    },
                    None => {
                        assert forall|k: int| 0 <= k < members.len() && k != i implies (#[trigger] members[k]).0 != key by {
                            if k < i {
                                assert(others[k] == members[k]);
                            } else {
                                assert(others[k - 1] == members[k]);
                            }
                        }
                        set_member(members, i, key, new);
                        object_is_proper(members.update(i, (key, new)));
                    },
                }
            }
        },
        Change::Empty => {
            object_is_proper(Seq::empty());
        },
        _ => {},
    }
}

proof fn items_changed(items: Seq<Json>, change: Change)
    requires
        forall|i: int| 0 <= i < items.len() ==> proper(#[trigger] items[i]),
        proper_change(change),
        !(change is Put),
    ensures
        changed(Json::Array(items), change) matches Some(new) ==> proper(new),
{
    match change {
        Change::Fill(StepModel::Index(index), new) => {
            if let Some(i) = resolved(items.len() as int, index as int) {
                let after = items.insert(i, new);
                assert forall|k: int| 0 <= k < after.len() implies proper(#[trigger] after[k]) by {
                    assert(after[k] == (if k < i {
                        items[k]
                    } else if k == i {
                        new
                    } else {
                        items[k - 1]
                    }));
                }
                array_is_proper(after);
            }
        },
        Change::Remove(StepModel::Index(index)) => {
            array_is_proper(items);
            if let Some(i) = resolved(items.len() as int, index as int) {
                let after = items.remove(i);
                assert forall|k: int| 0 <= k < after.len() implies proper(#[trigger] after[k]) by {
                    assert(after[k] == (if k < i {
                        items[k]
                    } else {
                        items[k + 1]
                    }));
                }
                array_is_proper(after);
            }
        },
        Change::Empty => {
            array_is_proper(Seq::empty());
        },
        _ => {},
    }
}

/// A change leaves a value proper.
proof fn updated_is_proper(j: Json, path: Seq<StepModel>, change: Change)
    requires
        proper(j),
        proper_change(change),
    ensures
        updated(j, path, change) matches Some(new) ==> proper(new),
    decreases path.len(),
{
    match j {
        Json::Object(members) => {
            object_is_proper(members);
            if path.len() == 0 {
                if !(change is Put) {
                    members_changed(members, change);
                }
            } else if let StepModel::Key(name) = path[0] {
                found_member(members, name);
                if let Some(i) = last_member(members, name) {
                    updated_is_proper(members[i].1, path.skip(1), change);
                    if let Some(new) = updated(members[i].1, path.skip(1), change) {
                        set_member(members, i, members[i].0, new);
                        object_is_proper(members.update(i, (members[i].0, new)));
                    }
                }
            }
        },
        Json::Array(items) => {
            array_is_proper(items);
            if path.len() == 0 {
                if !(change is Put) {
                    items_changed(items, change);
                }
            } else if let StepModel::Index(index) = path[0] {
                if let Some(i) = resolved(items.len() as int, index as int) {
                    updated_is_proper(items[i], path.skip(1), change);
                    if let Some(new) = updated(items[i], path.skip(1), change) {
                        array_is_proper(items.update(i, new));
                    }
                }
            }
        },
        _ => {},
    }
}

/// Edits leave a value proper.
proof fn edits_are_proper(j: Json, edits: Seq<EditModel>, n: nat)
    requires
        proper(j),
        n <= edits.len(),
        forall|i: int| 0 <= i < edits.len() ==> proper_edit(#[trigger] edits[i]),
    ensures
        edited_values(j, edits, n) matches Some(new) ==> proper(new),
    decreases n,
{
    if n > 0 {
        edits_are_proper(j, edits, (n - 1) as nat);
        if let Some(before) = edited_values(j, edits, (n - 1) as nat) {
            let e = edits[n - 1];
            assert(proper_edit(e));
            match e {
                EditModel::Assign(path, new) => updated_is_proper(before, path, Change::Put(new)),
                EditModel::Insert(path, new) => {
                    if path.len() > 0 {
                        assert(path.last() == path[path.len() - 1]);
                        updated_is_proper(before, path.drop_last(), Change::Fill(path.last(), new));
                    }
                },
                EditModel::Delete(path) => {
                    if path.len() > 0 {
                        updated_is_proper(before, path.drop_last(), Change::Remove(path.last()));
                    }
                },
                EditModel::ReplaceMember(path, key, new) => {
                    if path.len() > 0 {
                        if let StepModel::Key(name) = path.last() {
                            updated_is_proper(before, path.drop_last(), Change::Rename(name, key, new));
                        }
                    }
                },
                EditModel::Clear(path) => updated_is_proper(before, path, Change::Empty),
                EditModel::Fact(_, _) => {},
            }
        }
    }
}

/// A value that was parsed is proper.
proof fn parsed_is_proper(src: Seq<u8>, dialect: Dialect)
    requires
        src.len() <= usize::MAX,
    ensures
        parsed(src, dialect, Form::Value) matches Ok(j) ==> proper(j),
{
    let s = ByteRange { start: text_start(src) as usize, end: src.len() as usize };
    let d = DocumentModel { source: src, root: s, grammar: None, facts: Seq::empty() };
    every_form_reads_the_same(AnswerModel::Document(d), dialect, Form::Value);
    parsed_value_is_well_formed(span_bytes(src, s), dialect);
}

/// A document that was re-encoded because its edits could not be spliced reads as the
/// parsed value with the edits applied in turn.
pub proof fn reencoded_document_holds_the_edited_value(src: Seq<u8>, edits: Seq<EditModel>, dialect: Dialect, original: Error)
    requires
        src.len() <= usize::MAX,
        forall|i: int| 0 <= i < edits.len() ==> proper_edit(#[trigger] edits[i]),
    ensures
        fallback(src, edits, dialect, original) matches Ok(out) ==> (parsed(src, dialect, Form::Value) matches Ok(j)
            && edited_values(j, edits, edits.len()) matches Some(new) && read_text(out, dialect) == Ok::<Json, Error>(new)),
{
    reveal(fallback);
    if fallback(src, edits, dialect, original) is Ok {
        parsed_is_proper(src, dialect);
        let j = parsed(src, dialect, Form::Value)->Ok_0;
        edits_are_proper(j, edits, edits.len());
        let new = edited_values(j, edits, edits.len())->0;
        written_value_reads_back(new, compact_under(dialect));
    }
}

} // verus!
