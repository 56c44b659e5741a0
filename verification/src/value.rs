//! The value tree, spans into a source, and index resolution.

use vstd::prelude::*;

use crate::number::{is_number, plain_int_bytes, Num, Number};
use crate::text::{bytes_of, same_bytes, text_bytes};

verus! {

/// A half-open byte span.
#[derive(Clone, Copy, Debug, PartialEq, Eq, Structural)]
pub struct ByteRange {
    /// First byte.
    pub start: usize,
    /// One past the last byte.
    pub end: usize,
}

impl ByteRange {
    /// Whether the span is ordered.
    pub open spec fn wf(self) -> bool {
        self.start <= self.end
    }

    /// The span from `start` to `end`, when it is ordered.
    #[must_use]
    pub fn try_new(start: usize, end: usize) -> (r: Option<ByteRange>)
        ensures
            (r is Some) == (start <= end),
            r matches Some(range) ==> range.start == start && range.end == end,
    {
        if start <= end {
            Some(ByteRange { start, end })
        } else {
            None
        }
    }

    /// First byte.
    #[must_use]
    pub fn start(self) -> (r: usize)
        ensures
            r == self.start,
    {
        self.start
    }

    /// One past the last byte.
    #[must_use]
    pub fn end(self) -> (r: usize)
        ensures
            r == self.end,
    {
        self.end
    }

    /// Number of bytes; zero for a span that is not ordered.
    #[must_use]
    pub fn len(self) -> (r: usize)
        ensures
            r == (if self.wf() {
                self.end - self.start
            } else {
                0
            }),
    {
        self.end.saturating_sub(self.start)
    }

    /// Whether the span holds no byte.
    #[must_use]
    pub fn is_empty(self) -> (r: bool)
        ensures
            r == (self.end <= self.start),
    {
        self.end <= self.start
    }
}

/// The span between two mathematical positions.
pub open spec fn span(start: int, end: int) -> ByteRange {
    ByteRange { start: start as usize, end: end as usize }
}

/// Source bytes of a span; none when it is outside the source.
pub open spec fn span_bytes(b: Seq<u8>, s: ByteRange) -> Seq<u8> {
    if s.start <= s.end <= b.len() {
        b.subrange(s.start as int, s.end as int)
    } else {
        Seq::empty()
    }
}

/// Kind of a value.
#[derive(Clone, Copy, Debug, PartialEq, Eq, Structural)]
pub enum ValueKind {
    /// `null`.
    Null,
    /// `true` or `false`.
    Bool,
    /// A number.
    Number,
    /// A string.
    String,
    /// An array.
    Array,
    /// An object.
    Object,
}

/// An owned, mutable value tree.
#[derive(Debug, PartialEq, Eq)]
pub enum Value {
    /// `null`.
    Null,
    /// `true` or `false`.
    Bool(bool),
    /// A number with its authored spelling.
    Number(Number),
    /// A string.
    Str(String),
    /// An array.
    Array(Vec<Value>),
    /// An object, in member order.
    Object(Vec<(String, Value)>),
}

/// [`Value`] over sequences: what a value is, apart from how it is stored.
/// A string is its UTF-8 bytes.
pub enum Json {
    /// `null`.
    Null,
    /// `true` or `false`.
    Bool(bool),
    /// A number.
    Number(Num),
    /// A string's UTF-8 bytes.
    Str(Seq<u8>),
    /// An array.
    Array(Seq<Json>),
    /// An object, in member order.
    Object(Seq<(Seq<u8>, Json)>),
}

/// Whether every number is spelled by the number grammar and every text is
/// UTF-8: what a [`Value`] can hold.
pub open spec fn well_formed(j: Json) -> bool
    decreases j,
{
    match j {
        Json::Number(Num::Finite(s)) => is_number(s),
        Json::Str(text) => vstd::utf8::valid_utf8(text),
        Json::Array(items) => forall|i: int| 0 <= i < items.len() ==> well_formed(#[trigger] items[i]),
        Json::Object(members) => forall|i: int|
            0 <= i < members.len() ==> vstd::utf8::valid_utf8((#[trigger] members[i]).0) && well_formed(members[i].1),
        _ => true,
    }
}

/// What a value tree is.
pub open spec fn json(v: Value) -> Json
    decreases v,
{
    match v {
        Value::Null => Json::Null,
        Value::Bool(flag) => Json::Bool(flag),
        Value::Number(n) => Json::Number(n@),
        Value::Str(text) => Json::Str(bytes_of(text)),
        Value::Array(items) => Json::Array(
            Seq::new(
                items@.len(),
                |i: int|
                    if 0 <= i < items@.len() {
                        json(items@[i])
                    } else {
                        Json::Null
                    },
            ),
        ),
        Value::Object(members) => Json::Object(
            Seq::new(
                members@.len(),
                |i: int|
                    if 0 <= i < members@.len() {
                        (bytes_of(members@[i].0), json(members@[i].1))
                    } else {
                        (Seq::empty(), Json::Null)
                    },
            ),
        ),
    }
}

/// What each of several values is.
pub open spec fn jsons(items: Seq<Value>) -> Seq<Json> {
    items.map_values(|v: Value| json(v))
}

/// What each of several members is.
pub open spec fn members_json(members: Seq<(String, Value)>) -> Seq<(Seq<u8>, Json)> {
    members.map_values(|m: (String, Value)| (bytes_of(m.0), json(m.1)))
}

/// An array is its items.
pub proof fn json_array(items: Vec<Value>)
    ensures
        json(Value::Array(items)) == Json::Array(jsons(items@)),
{
    assert(json(Value::Array(items))->Array_0 =~= jsons(items@));
}

/// An object is its members.
pub proof fn json_object(members: Vec<(String, Value)>)
    ensures
        json(Value::Object(members)) == Json::Object(members_json(members@)),
{
    assert(json(Value::Object(members))->Object_0 =~= members_json(members@));
}

impl View for Value {
    type V = Json;

    open spec fn view(&self) -> Json {
        json(*self)
    }
}

/// Position of the last member named `name`.
pub open spec fn last_member(members: Seq<(Seq<u8>, Json)>, name: Seq<u8>) -> Option<int>
    decreases members.len(),
{
    if members.len() == 0 {
        None
    } else if members.last().0 == name {
        Some(members.len() - 1)
    } else {
        last_member(members.drop_last(), name)
    }
}

/// A last member is a member of that name with none after it.
pub proof fn last_member_facts(members: Seq<(Seq<u8>, Json)>, name: Seq<u8>)
    ensures
        match last_member(members, name) {
            Some(i) => 0 <= i < members.len() && members[i].0 == name && forall|k: int|
                i < k < members.len() ==> (#[trigger] members[k]).0 != name,
            None => forall|k: int| 0 <= k < members.len() ==> (#[trigger] members[k]).0 != name,
        },
    decreases members.len(),
{
    if members.len() > 0 && members.last().0 != name {
        let t = members.drop_last();
        last_member_facts(t, name);
        assert forall|k: int| 0 <= k < t.len() implies t[k] == #[trigger] members[k] by {}
    }
}

/// A member found from the back is the last member of that name.
pub proof fn last_member_is(members: Seq<(Seq<u8>, Json)>, name: Seq<u8>, at: int)
    requires
        0 <= at < members.len(),
        members[at].0 == name,
        forall|k: int| at < k < members.len() ==> (#[trigger] members[k]).0 != name,
    ensures
        last_member(members, name) == Some(at),
    decreases members.len(),
{
    if at < members.len() - 1 {
        assert(members[members.len() - 1].0 != name);
        last_member_is(members.drop_last(), name, at);
    }
}

/// No member of a name.
pub proof fn last_member_none(members: Seq<(Seq<u8>, Json)>, name: Seq<u8>)
    requires
        forall|k: int| 0 <= k < members.len() ==> (#[trigger] members[k]).0 != name,
    ensures
        last_member(members, name) is None,
    decreases members.len(),
{
    if members.len() > 0 {
        assert(members[members.len() - 1].0 != name);
        last_member_none(members.drop_last(), name);
    }
}

/// Index of the last member named by the bytes `name`.
pub fn find_last_member(members: &Vec<(String, Value)>, name: &[u8]) -> (r: Option<usize>)
    ensures
        match last_member(members_json(members@), name@) {
            Some(i) => r is Some && r->0 == i && i < members@.len(),
            None => r is None,
        },
{
    let ghost model = members_json(members@);
    let mut i: usize = members.len();
    while i > 0
        invariant
            i <= members@.len(),
            model == members_json(members@),
            forall|k: int| i <= k < members@.len() ==> (#[trigger] model[k]).0 != name@,
        decreases i,
    {
        i = i - 1;
        if same_bytes(text_bytes(&members[i].0), name) {
            proof {
                last_member_is(model, name@, i as int);
            }
            return Some(i);
        }
    }
    proof {
        last_member_none(model, name@);
    }
    None
}

impl Value {
    /// A tree with the same contents.
    pub fn copied(&self) -> (r: Value)
        ensures
            r@ == self@,
        decreases *self,
    {
        match self {
            Value::Null => Value::Null,
            Value::Bool(flag) => Value::Bool(*flag),
            Value::Number(n) => Value::Number(n.clone()),
            Value::Str(text) => Value::Str(text.clone()),
            Value::Array(items) => {
                let mut out: Vec<Value> = Vec::new();
                let mut i: usize = 0;
                while i < items.len()
                    invariant
                        i <= items@.len(),
                        out@.len() == i,
                        *self is Array && self->Array_0 == *items,
                        forall|k: int| 0 <= k < i ==> json(#[trigger] out@[k]) == json(items@[k]),
                    decreases items@.len() - i,
                {
                    assert(decreases_to!(*items => items[i as int]));
                    out.push(items[i].copied());
                    i = i + 1;
                }
                proof {
                    json_array(*items);
                    json_array(out);
                    assert(jsons(out@) =~= jsons(items@));
                }
                Value::Array(out)
            },
            Value::Object(members) => {
                let mut out: Vec<(String, Value)> = Vec::new();
                let mut i: usize = 0;
                while i < members.len()
                    invariant
                        i <= members@.len(),
                        out@.len() == i,
                        *self is Object && self->Object_0 == *members,
                        forall|k: int|
                            0 <= k < i ==> (#[trigger] out@[k]).0@ == members@[k].0@ && json(out@[k].1) == json(
                                members@[k].1,
                            ),
                    decreases members@.len() - i,
                {
                    assert(decreases_to!(*members => members[i as int]));
                    let member: &(String, Value) = &members[i];
                    out.push((member.0.clone(), member.1.copied()));
                    i = i + 1;
                }
                proof {
                    json_object(*members);
                    json_object(out);
                    assert(members_json(out@) =~= members_json(members@));
                }
                Value::Object(out)
            },
        }
    }

    /// Kind of this value.
    pub fn kind(&self) -> (r: ValueKind)
        ensures
            r == kind_of(self@),
    {
        match self {
            Value::Null => ValueKind::Null,
            Value::Bool(_) => ValueKind::Bool,
            Value::Number(_) => ValueKind::Number,
            Value::Str(_) => ValueKind::String,
            Value::Array(_) => ValueKind::Array,
            Value::Object(_) => ValueKind::Object,
        }
    }

    /// The items of an array.
    pub fn as_array(&self) -> (r: Option<&Vec<Value>>)
        ensures
            match *self {
                Value::Array(items) => r is Some && *r->0 == items,
                _ => r is None,
            },
    {
        match self {
            Value::Array(items) => Some(items),
            _ => None,
        }
    }

    /// The item at `index` of an array.
    pub fn element(&self, index: usize) -> (r: Option<&Value>)
        ensures
            match self@ {
                Json::Array(items) => if index < items.len() {
                    r is Some && json(*r->0) == items[index as int]
                } else {
                    r is None
                },
                _ => r is None,
            },
    {
        match self {
            Value::Array(items) => {
                proof {
                    json_array(*items);
                }
                if index < items.len() {
                    Some(&items[index])
                } else {
                    None
                }
            },
            _ => None,
        }
    }

    /// The value of the last member named `name` of an object.
    pub fn member(&self, name: &str) -> (r: Option<&Value>)
        ensures
            match self@ {
                Json::Object(members) => match last_member(members, vstd::utf8::encode_utf8(name@)) {
                    Some(i) => r is Some && json(*r->0) == members[i].1,
                    None => r is None,
                },
                _ => r is None,
            },
    {
        match self {
            Value::Object(members) => {
                proof {
                    json_object(*members);
                }
                match find_last_member(members, name.as_bytes()) {
                    Some(i) => Some(&members[i].1),
                    None => None,
                }
            },
            _ => None,
        }
    }

    /// A plain integer that fits 64 bits.
    pub fn as_i64(&self) -> (r: Option<i64>)
        ensures
            match self@ {
                Json::Number(Num::Finite(s)) => match crate::number::plain_int(s) {
                    Some(v) => if i64::MIN <= v <= i64::MAX {
                        r is Some && r->0 == v
                    } else {
                        r is None
                    },
                    None => r is None,
                },
                _ => r is None,
            },
    {
        match self {
            Value::Number(n) => match n.spelling() {
                Some(text) => match plain_int_bytes(text) {
                    Some(v) => {
                        if -0x8000_0000_0000_0000 <= v && v <= 0x7fff_ffff_ffff_ffff {
                            Some(v as i64)
                        } else {
                            None
                        }
                    },
                    None => None,
                },
                None => None,
            },
            _ => None,
        }
    }
}

impl Clone for Value {
    fn clone(&self) -> (r: Value)
        ensures
            r@ == self@,
    {
        self.copied()
    }
}

/// Kind of a value.
pub open spec fn kind_of(j: Json) -> ValueKind {
    match j {
        Json::Null => ValueKind::Null,
        Json::Bool(_) => ValueKind::Bool,
        Json::Number(_) => ValueKind::Number,
        Json::Str(_) => ValueKind::String,
        Json::Array(_) => ValueKind::Array,
        Json::Object(_) => ValueKind::Object,
    }
}

/// The position an index names among `len` items: a negative index counts from the end.
pub open spec fn resolved(len: int, index: int) -> Option<int> {
    if 0 <= index < len {
        Some(index)
    } else if index < 0 && len + index >= 0 {
        Some(len + index)
    } else {
        None
    }
}

/// The position an index names among `len` items: a negative index counts from
/// the end. `None` when it names no item.
#[must_use]
pub fn resolve_index(len: usize, index: i64) -> (r: Option<usize>)
    ensures
        match resolved(len as int, index as int) {
            Some(at) => r is Some && r->0 == at && at < len,
            None => r is None,
        },
        0 <= index < len ==> r == Some(index as usize),
        -(len as int) <= index < 0 ==> (r matches Some(at) && at == len + index),
        index >= len || index < -(len as int) ==> r is None,
{
    let at: i128 = if index >= 0 {
        index as i128
    } else {
        len as i128 + index as i128
    };
    if 0 <= at && at < len as i128 {
        Some(at as usize)
    } else {
        None
    }
}

} // verus!
