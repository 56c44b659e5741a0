//! A change of a part of a value changes that part, and nothing else.

use vstd::prelude::*;

use crate::demand::StepModel;
use crate::edit::dom::{changed, first_member, updated, Change};
use crate::laws::deletes::last_of_name;
use crate::laws::paths::tree_at;
use crate::value::{last_member, last_member_facts, Json};

verus! {

/// The position that an index names among `len` elements: one below zero counts from the
/// end.
pub open spec fn place_of(len: int, index: int) -> int {
    if index < 0 {
        len + index
    } else {
        index
    }
}

/// Whether two values are the same but for what stands at the end of a path: `x` in the
/// one, and `y` in the other.
pub open spec fn same_but_at(j: Json, new: Json, path: Seq<StepModel>, x: Json, y: Json) -> bool
    decreases path.len(),
{
    if path.len() == 0 {
        j == x && new == y
    } else {
        match (path[0], j, new) {
            (StepModel::Key(name), Json::Object(members), Json::Object(after)) => after.len() == members.len() && exists|i: int|
                #[trigger] last_of_name(members, name, i) && after[i].0 == name && same_but_at(
                    members[i].1,
                    after[i].1,
                    path.skip(1),
                    x,
                    y,
                ) && forall|k: int| 0 <= k < members.len() && k != i ==> #[trigger] after[k] == members[k],
            (StepModel::Index(index), Json::Array(items), Json::Array(after)) => {
                let i = place_of(items.len() as int, index as int);
                &&& 0 <= i < items.len()
                &&& after.len() == items.len()
                &&& same_but_at(items[i], after[i], path.skip(1), x, y)
                &&& forall|k: int| 0 <= k < items.len() && k != i ==> #[trigger] after[k] == items[k]
            },
            _ => false,
        }
    }
}

/// A change at the end of a path changes what the path leads to, and nothing else; there
/// is nothing to change where the path leads nowhere.
pub proof fn change_is_confined_to_its_place(j: Json, path: Seq<StepModel>, change: Change)
    ensures
        match updated(j, path, change) {
            Some(new) => tree_at(j, path) matches Some(x) && (changed(x, change) matches Some(y) && same_but_at(j, new, path, x, y)),
            None => tree_at(j, path) matches Some(x) ==> changed(x, change) is None,
        },
    decreases path.len(),
{
    if path.len() > 0 {
        let rest = path.skip(1);
        match (path[0], j) {
            (StepModel::Key(name), Json::Object(members)) => {
                last_member_facts(members, name);
                if let Some(i) = last_member(members, name) {
                    change_is_confined_to_its_place(members[i].1, rest, change);
                    if let Some(inner) = updated(members[i].1, rest, change) {
                        let after = members.update(i, (members[i].0, inner));
                        assert(last_of_name(members, name, i));
                        let x = tree_at(j, path)->0;
                        let y = changed(x, change)->0;
                        assert(same_but_at(members[i].1, after[i].1, rest, x, y));
                        assert(updated(j, path, change) == Some(Json::Object(after)));
                    }
                }
            },
            (StepModel::Index(index), Json::Array(items)) => {
                let i = place_of(items.len() as int, index as int);
                if 0 <= i < items.len() {
                    change_is_confined_to_its_place(items[i], rest, change);
                }
            },
            _ => {},
        }
    }
}

/// A value put in place of another takes its place.
pub proof fn put_takes_the_place(x: Json, v: Json)
    ensures
        changed(x, Change::Put(v)) == Some(v),
{
}

/// An element filled in stands at its place, and the others are those there were.
pub proof fn filled_element_is_one_more(items: Seq<Json>, index: i64, v: Json)
    ensures
        ({
            let i = place_of(items.len() as int, index as int);
            match changed(Json::Array(items), Change::Fill(StepModel::Index(index), v)) {
                Some(y) => 0 <= i < items.len() && y is Array && y->Array_0.len() == items.len() + 1 && y->Array_0[i] == v
                    && y->Array_0.remove(i) == items,
                None => !(0 <= i < items.len()),
            }
        }),
{
    let i = place_of(items.len() as int, index as int);
    if 0 <= i < items.len() {
        assert(items.insert(i, v).remove(i) =~= items);
    }
}

/// A member filled in has the value under its name; the others are those there were.
pub proof fn filled_member_has_the_value(members: Seq<(Seq<u8>, Json)>, name: Seq<u8>, v: Json)
    ensures
        changed(Json::Object(members), Change::Fill(StepModel::Key(name), v)) matches Some(y) && y is Object && ({
            let after = y->Object_0;
            ||| (forall|i: int| 0 <= i < members.len() ==> (#[trigger] members[i]).0 != name) && after == members.push((name, v))
            ||| exists|i: int| #[trigger] last_of_name(members, name, i) && after == members.update(i, (name, v))
        }),
{
    last_member_facts(members, name);
    if let Some(i) = last_member(members, name) {
        assert(last_of_name(members, name, i));
    }
}

/// An element taken out is gone, and the others are those there were; where there is no
/// such element nothing changes.
pub proof fn removed_element_is_one_less(items: Seq<Json>, index: i64)
    ensures
        ({
            let i = place_of(items.len() as int, index as int);
            changed(Json::Array(items), Change::Remove(StepModel::Index(index))) matches Some(y) && y is Array && (if 0 <= i
                < items.len() {
                y->Array_0.len() == items.len() - 1 && y->Array_0.insert(i, items[i]) == items
            } else {
                y->Array_0 == items
            })
        }),
{
    let i = place_of(items.len() as int, index as int);
    if 0 <= i < items.len() {
        assert(items.remove(i).insert(i, items[i]) =~= items);
    }
}

/// A member taken out is gone, and the others are those there were; where there is no
/// member of that name nothing changes.
pub proof fn removed_member_is_one_less(members: Seq<(Seq<u8>, Json)>, name: Seq<u8>)
    ensures
        changed(Json::Object(members), Change::Remove(StepModel::Key(name))) matches Some(y) && y is Object && ({
            let after = y->Object_0;
            ||| (forall|i: int| 0 <= i < members.len() ==> (#[trigger] members[i]).0 != name) && after == members
            ||| exists|i: int| #[trigger] last_of_name(members, name, i) && after.insert(i, members[i]) == members && after.len()
                == members.len() - 1
        }),
{
    last_member_facts(members, name);
    if let Some(i) = last_member(members, name) {
        assert(last_of_name(members, name, i));
        assert(members.remove(i).insert(i, members[i]) =~= members);
    }
}

/// A member given another name and value keeps its place where no other member has the
/// name; where there is no member to rename there is no change.
pub proof fn renamed_member_keeps_its_place(members: Seq<(Seq<u8>, Json)>, name: Seq<u8>, key: Seq<u8>, v: Json, i: int)
    requires
        last_of_name(members, name, i),
        forall|k: int| 0 <= k < members.len() && k != i ==> (#[trigger] members[k]).0 != key,
    ensures
        changed(Json::Object(members), Change::Rename(name, key, v)) == Some(Json::Object(members.update(i, (key, v)))),
{
    last_member_facts(members, name);
    let k = last_member(members, name)->0;
    if k < i {
        assert(members[i].0 != name);
    } else if i < k {
        assert(members[k].0 != name);
    }
    let others = members.remove(i);
    assert forall|q: int| 0 <= q < others.len() implies (#[trigger] others[q]).0 != key by {
        if q < i {
            assert(others[q] == members[q]);
        } else {
            assert(others[q] == members[q + 1]);
        }
    }
    no_first(others, key, 0);
}

proof fn no_first(members: Seq<(Seq<u8>, Json)>, key: Seq<u8>, from: int)
    requires
        0 <= from,
        forall|q: int| 0 <= q < members.len() ==> (#[trigger] members[q]).0 != key,
    ensures
        first_member(members, key, from) is None,
    decreases members.len() - from,
{
    if from < members.len() {
        assert(members[from].0 != key);
        no_first(members, key, from + 1);
    }
}

/// What a cleared container holds is nothing, and it is a container of its kind.
pub proof fn emptied_container_holds_nothing(x: Json)
    ensures
        match changed(x, Change::Empty) {
            Some(y) => (x is Array && y is Array && y->Array_0.len() == 0) || (x is Object && y is Object && y->Object_0.len() == 0),
            None => !(x is Array) && !(x is Object),
        },
{
}

} // verus!
