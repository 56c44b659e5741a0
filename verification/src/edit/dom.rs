//! Edits applied to a materialized value.

use vstd::prelude::*;

use crate::demand::{step_model, steps_model, Step, StepModel};
use crate::edit::request::{Edit, EditModel};
use crate::text::{bytes_of, same_bytes, text_bytes};
use crate::value::{
    find_last_member, json, json_array, json_object, jsons, last_member, members_json, resolve_index, resolved, Json,
    Value,
};

verus! {

/// What happens to the value a path leads to.
pub enum Change {
    /// It becomes another value.
    Put(Json),
    /// A slot of it is filled.
    Fill(StepModel, Json),
    /// A slot of it goes.
    Remove(StepModel),
    /// A member of it gets another key and value: it keeps its place, or goes when the
    /// first other member of that key takes the value.
    Rename(Seq<u8>, Seq<u8>, Json),
    /// Every slot of it goes.
    Empty,
}

/// Index of the first member from `from` on that has a name.
pub open spec fn first_member(members: Seq<(Seq<u8>, Json)>, name: Seq<u8>, from: int) -> Option<int>
    decreases members.len() - from,
{
    if from >= members.len() {
        None
    } else if members[from].0 == name {
        Some(from)
    } else {
        first_member(members, name, from + 1)
    }
}

/// A value after a change; none when the change does not fit it.
pub open spec fn changed(j: Json, change: Change) -> Option<Json> {
    match (change, j) {
        (Change::Put(new), _) => Some(new),
        (Change::Fill(StepModel::Key(name), new), Json::Object(members)) => Some(
            Json::Object(
                match last_member(members, name) {
                    Some(i) => members.update(i, (members[i].0, new)),
                    None => members.push((name, new)),
                },
            ),
        ),
        (Change::Fill(StepModel::Index(index), new), Json::Array(items)) => match resolved(
            items.len() as int,
            index as int,
        ) {
            Some(i) => Some(Json::Array(items.insert(i, new))),
            None => None,
        },
        (Change::Remove(StepModel::Key(name)), Json::Object(members)) => Some(
            Json::Object(
                match last_member(members, name) {
                    Some(i) => members.remove(i),
                    None => members,
                },
            ),
        ),
        (Change::Remove(StepModel::Index(index)), Json::Array(items)) => Some(
            Json::Array(
                match resolved(items.len() as int, index as int) {
                    Some(i) => items.remove(i),
                    None => items,
                },
            ),
        ),
        (Change::Rename(name, key, new), Json::Object(members)) => match last_member(members, name) {
            None => None,
            Some(i) => {
                let others = members.remove(i);
                Some(
                    Json::Object(
                        match first_member(others, key, 0) {
                            Some(k) => others.update(k, (others[k].0, new)),
                            None => members.update(i, (key, new)),
                        },
                    ),
                )
            },
        },
        (Change::Empty, Json::Object(_)) => Some(Json::Object(Seq::empty())),
        (Change::Empty, Json::Array(_)) => Some(Json::Array(Seq::empty())),
        _ => None,
    }
}

/// A value with the value at `path` changed; none when the path leads nowhere
/// or the change does not fit.
pub open spec fn updated(j: Json, path: Seq<StepModel>, change: Change) -> Option<Json>
    decreases path.len(),
{
    if path.len() == 0 {
        changed(j, change)
    } else {
        match (path[0], j) {
            (StepModel::Key(name), Json::Object(members)) => match last_member(members, name) {
                None => None,
                Some(i) => match updated(members[i].1, path.skip(1), change) {
                    None => None,
                    Some(new) => Some(Json::Object(members.update(i, (members[i].0, new)))),
                },
            },
            (StepModel::Index(index), Json::Array(items)) => match resolved(items.len() as int, index as int) {
                None => None,
                Some(i) => match updated(items[i], path.skip(1), change) {
                    None => None,
                    Some(new) => Some(Json::Array(items.update(i, new))),
                },
            },
            _ => None,
        }
    }
}

/// A value with one edit applied; none when a value cannot express it. A delete
/// of what is not there changes nothing.
pub open spec fn edited_value(j: Json, e: EditModel) -> Option<Json> {
    match e {
        EditModel::Assign(path, new) => updated(j, path, Change::Put(new)),
        EditModel::Insert(path, new) => if path.len() == 0 {
            None
        } else {
            updated(j, path.drop_last(), Change::Fill(path.last(), new))
        },
        EditModel::Delete(path) => if path.len() == 0 {
            None
        } else {
            match updated(j, path.drop_last(), Change::Remove(path.last())) {
                Some(new) => Some(new),
                None => Some(j),
            }
        },
        EditModel::ReplaceMember(path, key, new) => if path.len() == 0 {
            None
        } else {
            match path.last() {
                StepModel::Key(name) => updated(j, path.drop_last(), Change::Rename(name, key, new)),
                _ => None,
            }
        },
        EditModel::Clear(path) => updated(j, path, Change::Empty),
        EditModel::Fact(_, _) => None,
    }
}

/// A borrowed [`Change`].
enum ChangeRef<'a> {
    Put(&'a Value),
    Fill(&'a Step, &'a Value),
    Remove(&'a Step),
    Rename(&'a String, &'a String, &'a Value),
    Empty,
}

impl<'a> ChangeRef<'a> {
    spec fn model(self) -> Change {
        match self {
            ChangeRef::Put(new) => Change::Put(json(*new)),
            ChangeRef::Fill(step, new) => Change::Fill(step_model(*step), json(*new)),
            ChangeRef::Remove(step) => Change::Remove(step_model(*step)),
            ChangeRef::Rename(name, key, new) => Change::Rename(bytes_of(*name), bytes_of(*key), json(*new)),
            ChangeRef::Empty => Change::Empty,
        }
    }
}

/// Whether a change came out as named; a change that does not fit changes nothing.
spec fn changes_as(r: bool, before: Json, after: Json, named: Option<Json>) -> bool {
    match named {
        Some(j) => r && after == j,
        None => !r && after == before,
    }
}

/// Index of the first member named by the bytes `name`.
fn find_first_member(members: &Vec<(String, Value)>, name: &[u8]) -> (r: Option<usize>)
    ensures
        match first_member(members_json(members@), name@, 0) {
            Some(i) => r is Some && r->0 == i && 0 <= i < members@.len(),
            None => r is None,
        },
{
    let ghost model = members_json(members@);
    let mut i: usize = 0;
    while i < members.len()
        invariant
            i <= members@.len(),
            model == members_json(members@),
            first_member(model, name@, 0) == first_member(model, name@, i as int),
        decreases members@.len() - i,
    {
        if same_bytes(text_bytes(&members[i].0), name) {
            return Some(i);
        }
        i = i + 1;
    }
    None
}

fn change_members(members: &mut Vec<(String, Value)>, change: &ChangeRef<'_>) -> (r: bool)
    ensures
        changes_as(
            r,
            Json::Object(members_json(old(members)@)),
            Json::Object(members_json(final(members)@)),
            changed(Json::Object(members_json(old(members)@)), change.model()),
        ) || *change is Put,
        *change is Put ==> !r && final(members)@ == old(members)@,
{
    let ghost before = members@;
    let ghost model = members_json(members@);
    match change {
        ChangeRef::Put(_) => false,
        ChangeRef::Fill(step, new) => match step {
            Step::Key(name) => {
                match find_last_member(members, text_bytes(name)) {
                    Some(i) => {
                        let key: String = members[i].0.clone();
                        members.set(i, (key, new.copied()));
                        proof {
                            assert(members_json(members@) =~= model.update(i as int, (model[i as int].0, json(**new))));
                        }
                    },
                    None => {
                        members.push((name.clone(), new.copied()));
                        proof {
                            assert(members_json(members@) =~= model.push((bytes_of(*name), json(**new))));
                        }
                    },
                }
                true
            },
            Step::Index(_) => false,
        },
        ChangeRef::Remove(step) => match step {
            Step::Key(name) => {
                match find_last_member(members, text_bytes(name)) {
                    Some(i) => {
                        let _ = members.remove(i);
                        proof {
                            assert(members_json(members@) =~= model.remove(i as int));
                        }
                    },
                    None => {},
                }
                true
            },
            Step::Index(_) => false,
        },
        ChangeRef::Rename(name, key, new) => {
            let i: usize = match find_last_member(members, text_bytes(name)) {
                Some(i) => i,
                None => {
                    return false;
                },
            };
            let taken = members.remove(i);
            let ghost others = members_json(members@);
            proof {
                assert(others =~= model.remove(i as int));
            }
            match find_first_member(members, text_bytes(key)) {
                Some(k) => {
                    let own: String = members[k].0.clone();
                    members.set(k, (own, new.copied()));
                    proof {
                        assert(members_json(members@) =~= others.update(k as int, (others[k as int].0, json(**new))));
                    }
                },
                None => {
                    members.insert(i, ((*key).clone(), new.copied()));
                    proof {
                        assert(members_json(members@) =~= model.update(i as int, (bytes_of(**key), json(**new))));
                    }
                },
            }
            true
        },
        ChangeRef::Empty => {
            members.clear();
            proof {
                assert(members_json(members@) =~= Seq::<(Seq<u8>, Json)>::empty());
            }
            true
        },
    }
}

fn change_items(items: &mut Vec<Value>, change: &ChangeRef<'_>) -> (r: bool)
    ensures
        changes_as(
            r,
            Json::Array(jsons(old(items)@)),
            Json::Array(jsons(final(items)@)),
            changed(Json::Array(jsons(old(items)@)), change.model()),
        ) || *change is Put,
        *change is Put ==> !r && final(items)@ == old(items)@,
{
    let ghost model = jsons(items@);
    match change {
        ChangeRef::Fill(step, new) => match step {
            Step::Index(index) => match resolve_index(items.len(), *index) {
                Some(i) => {
                    items.insert(i, new.copied());
                    proof {
                        assert(jsons(items@) =~= model.insert(i as int, json(**new)));
                    }
                    true
                },
                None => false,
            },
            Step::Key(_) => false,
        },
        ChangeRef::Remove(step) => match step {
            Step::Index(index) => {
                match resolve_index(items.len(), *index) {
                    Some(i) => {
                        let _ = items.remove(i);
                        proof {
                            assert(jsons(items@) =~= model.remove(i as int));
                        }
                    },
                    None => {},
                }
                true
            },
            Step::Key(_) => false,
        },
        ChangeRef::Empty => {
            items.clear();
            proof {
                assert(jsons(items@) =~= Seq::<Json>::empty());
            }
            true
        },
        _ => false,
    }
}

fn change_value(value: &mut Value, change: &ChangeRef<'_>) -> (r: bool)
    ensures
        changes_as(r, json(*old(value)), json(*final(value)), changed(json(*old(value)), change.model())),
{
    match change {
        ChangeRef::Put(new) => {
            *value = new.copied();
            return true;
        },
        _ => {},
    }
    match value {
        Value::Object(members) => {
            proof {
                json_object(*members);
            }
            let r: bool = change_members(members, change);
            proof {
                json_object(*members);
            }
            r
        },
        Value::Array(items) => {
            proof {
                json_array(*items);
            }
            let r: bool = change_items(items, change);
            proof {
                json_array(*items);
            }
            r
        },
        _ => false,
    }
}


/// Change the value that steps `[i, n)` of `path` lead to; an absent key, an
/// absent index or a wrong kind changes nothing.
fn update_at(value: &mut Value, path: &Vec<Step>, i: usize, n: usize, change: &ChangeRef<'_>) -> (r: bool)
    requires
        i <= n <= path@.len(),
    ensures
        changes_as(
            r,
            json(*old(value)),
            json(*final(value)),
            updated(json(*old(value)), steps_model(path@).subrange(i as int, n as int), change.model()),
        ),
    decreases n - i,
{
    if i == n {
        return change_value(value, change);
    }
    let ghost steps = steps_model(path@).subrange(i as int, n as int);
    proof {
        assert(steps[0] == step_model(path@[i as int]));
        assert(steps.skip(1) =~= steps_model(path@).subrange(i + 1, n as int));
    }
    match value {
        Value::Object(members) => {
            proof {
                json_object(*members);
            }
            let name: &String = match &path[i] {
                Step::Key(name) => name,
                Step::Index(_) => {
                    return false;
                },
            };
            let at: usize = match find_last_member(members, text_bytes(name)) {
                Some(at) => at,
                None => {
                    return false;
                },
            };
            let ghost before = members_json(members@);
            let mut own: (String, Value) = (String::new(), Value::Null);
            core::mem::swap(&mut own, &mut members[at]);
            let ghost key = bytes_of(own.0);
            let r: bool = update_at(&mut own.1, path, i + 1, n, change);
            let ghost new = json(own.1);
            members.set(at, own);
            proof {
                json_object(*members);
                assert(members_json(members@) =~= before.update(at as int, (before[at as int].0, new)));
                assert(before.update(at as int, before[at as int]) =~= before);
            }
            r
        },
        Value::Array(items) => {
            proof {
                json_array(*items);
            }
            let index: i64 = match &path[i] {
                Step::Index(index) => *index,
                Step::Key(_) => {
                    return false;
                },
            };
            let at: usize = match resolve_index(items.len(), index) {
                Some(at) => at,
                None => {
                    return false;
                },
            };
            let ghost before = jsons(items@);
            let mut own: Value = Value::Null;
            core::mem::swap(&mut own, &mut items[at]);
            let r: bool = update_at(&mut own, path, i + 1, n, change);
            let ghost new = json(own);
            items.set(at, own);
            proof {
                json_array(*items);
                assert(jsons(items@) =~= before.update(at as int, new));
                assert(before.update(at as int, before[at as int]) =~= before);
            }
            r
        },
        _ => false,
    }
}

/// Apply one edit to a materialized value, last-wins like the splice path;
/// false when a value cannot express it.
pub(crate) fn apply_dom(value: &mut Value, edit: &Edit) -> (r: bool)
    ensures
        match edited_value(json(*old(value)), edit@) {
            Some(j) => r && json(*final(value)) == j,
            None => !r,
        },
{
    match edit {
        Edit::Assign { path, value: new } => {
            proof {
                let steps = steps_model(path@);
                assert(steps.subrange(0, steps.len() as int) =~= steps);
            }
            update_at(value, path, 0, path.len(), &ChangeRef::Put(new))
        },
        Edit::Clear { path } => {
            proof {
                let steps = steps_model(path@);
                assert(steps.subrange(0, steps.len() as int) =~= steps);
            }
            update_at(value, path, 0, path.len(), &ChangeRef::Empty)
        },
        Edit::Insert { path, value: new } => {
            let n: usize = path.len();
            if n == 0 {
                return false;
            }
            proof {
                let steps = steps_model(path@);
                assert(steps.subrange(0, n - 1) =~= steps.drop_last());
            }
            update_at(value, path, 0, n - 1, &ChangeRef::Fill(&path[n - 1], new))
        },
        Edit::Delete { path } => {
            let n: usize = path.len();
            if n == 0 {
                return false;
            }
            proof {
                let steps = steps_model(path@);
                assert(steps.subrange(0, n - 1) =~= steps.drop_last());
            }
            let _removed: bool = update_at(value, path, 0, n - 1, &ChangeRef::Remove(&path[n - 1]));
            true
        },
        Edit::ReplaceMember { path, key, value: new } => {
            let n: usize = path.len();
            if n == 0 {
                return false;
            }
            proof {
                let steps = steps_model(path@);
                assert(steps.subrange(0, n - 1) =~= steps.drop_last());
            }
            match &path[n - 1] {
                Step::Key(name) => update_at(value, path, 0, n - 1, &ChangeRef::Rename(name, key, new)),
                Step::Index(_) => false,
            }
        },
        Edit::Fact { .. } => false,
    }
}

} // verus!
