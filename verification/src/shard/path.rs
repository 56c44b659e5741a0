//! Where the array that a sharded request maps is.

use vstd::prelude::*;

use crate::ascii::{APOSTROPHE, BACKSLASH, COLON, COMMA, LBRACE, LBRACKET, QUOTE, RBRACE, RBRACKET};
use crate::demand::{
    demand_model, demands_model, step_model, steps_model, Demand, DemandModel, Oracle, OracleModel, Step, StepModel,
};
use crate::dialect::Dialect;
use crate::error::{at, Error};
use crate::framing::{strip_bom, text_start};
use crate::lex::skip::{end_at, skip_value, value_past_trivia, Check, Ctx};
use crate::lex::ws::{ends_as, skip_trivia, trivia_end};
use crate::lex::{key_end, skip_key};
use crate::shard::cut::{element_ranges, serial_elements};
use crate::text::{same_bytes, text_bytes};

verus! {

/// Whether a path of steps leads rows to an array that they map. A trailing index selects
/// one element and answers it in element position, and an array inside an array is one
/// row there, not an array to map.
pub open spec fn leads_rows(path: Seq<StepModel>) -> bool {
    &&& path.len() > 0 ==> !(path.last() is Index)
    &&& forall|i: int| 0 <= i < path.len() - 1 ==> !(#[trigger] path[i] is Index && path[i + 1] is Index)
}

/// The array path a demand resolves before its element work.
pub open spec fn array_path(d: DemandModel) -> Option<Seq<StepModel>> {
    match d {
        DemandModel::Project { path, .. } => if leads_rows(path) {
            Some(path)
        } else {
            None
        },
        DemandModel::Filter { path, .. } => if leads_rows(path) {
            Some(path)
        } else {
            None
        },
        DemandModel::Path { steps, nested } => match nested {
            Some(inner) => if (*inner is Project || *inner is Filter) && steps.len() > 0 && steps.last() is Index {
                None
            } else {
                Some(steps)
            },
            None => None,
        },
        DemandModel::Collection { .. } | DemandModel::Slice { .. } | DemandModel::Oracle(OracleModel::Count) => Some(
            Seq::empty(),
        ),
        _ => None,
    }
}

/// The one array path every demand shares.
pub open spec fn shared_path(demands: Seq<DemandModel>) -> Option<Seq<StepModel>> {
    if demands.len() > 0 && forall|i: int|
        0 <= i < demands.len() ==> array_path(#[trigger] demands[i]) == array_path(demands[0]) {
        array_path(demands[0])
    } else {
        None
    }
}

/// The array path of a demand.
pub(crate) fn path_of<'a>(demand: &'a Demand) -> (r: Option<&'a [Step]>)
    ensures
        match array_path(demand_model(*demand)) {
            Some(path) => r matches Some(steps) && steps_model(steps@) == path,
            None => r is None,
        },
{
    match demand {
        Demand::Project { path, .. } => rows_path(path.steps.as_slice()),
        Demand::Filter { path, .. } => rows_path(path.steps.as_slice()),
        Demand::Path { steps, nested } => match nested {
            Some(inner) => {
                proof {
                    reveal_with_fuel(demand_model, 2);
                }
                let rows: bool = match &**inner {
                    Demand::Project { .. } => true,
                    Demand::Filter { .. } => true,
                    _ => false,
                };
                if rows && ends_in_index(steps.as_slice()) {
                    None
                } else {
                    Some(steps.as_slice())
                }
            },
            None => None,
        },
        Demand::Collection { .. } | Demand::Slice { .. } | Demand::Oracle(Oracle::Count) => {
            let empty: &'a [Step] = &[];
            proof {
                assert(steps_model(empty@) =~= Seq::<StepModel>::empty());
            }
            Some(empty)
        },
        _ => None,
    }
}

fn is_index(step: &Step) -> (r: bool)
    ensures
        r == (step_model(*step) is Index),
{
    match step {
        Step::Index(_) => true,
        Step::Key(_) => false,
    }
}

fn ends_in_index(steps: &[Step]) -> (r: bool)
    ensures
        r == (steps@.len() > 0 && steps_model(steps@).last() is Index),
{
    let n: usize = steps.len();
    if n == 0 {
        return false;
    }
    proof {
        assert(steps_model(steps@).last() == step_model(steps@[n - 1]));
    }
    is_index(&steps[n - 1])
}

/// A path that leads rows to an array that they map.
fn rows_path<'a>(steps: &'a [Step]) -> (r: Option<&'a [Step]>)
    ensures
        match r {
            Some(path) => path@ == steps@ && leads_rows(steps_model(steps@)),
            None => !leads_rows(steps_model(steps@)),
        },
{
    let ghost model = steps_model(steps@);
    if ends_in_index(steps) {
        return None;
    }
    let mut i: usize = 1;
    while i < steps.len()
        invariant
            1 <= i,
            model == steps_model(steps@),
            forall|k: int| 0 <= k < i - 1 && k < model.len() - 1 ==> !(#[trigger] model[k] is Index && model[k + 1] is Index),
        decreases steps@.len() - i,
    {
        proof {
            assert(model[i - 1] == step_model(steps@[i - 1]));
            assert(model[i as int] == step_model(steps@[i as int]));
        }
        if is_index(&steps[i - 1]) && is_index(&steps[i]) {
            assert(model[i - 1] is Index && model[i - 1 + 1] is Index);
            return None;
        }
        i += 1;
    }
    Some(steps)
}

fn same_steps(a: &[Step], b: &[Step]) -> (r: bool)
    ensures
        r == (steps_model(a@) == steps_model(b@)),
{
    let ghost left = steps_model(a@);
    let ghost right = steps_model(b@);
    if a.len() != b.len() {
        proof {
            assert(left.len() != right.len());
        }
        return false;
    }
    let mut i: usize = 0;
    while i < a.len()
        invariant
            i <= a@.len() == b@.len(),
            left == steps_model(a@),
            right == steps_model(b@),
            forall|k: int| 0 <= k < i ==> left[k] == right[k],
        decreases a@.len() - i,
    {
        let same: bool = match (&a[i], &b[i]) {
            (Step::Key(x), Step::Key(y)) => same_bytes(text_bytes(x), text_bytes(y)),
            (Step::Index(x), Step::Index(y)) => *x == *y,
            _ => false,
        };
        if !same {
            proof {
                assert(left[i as int] != right[i as int]);
            }
            return false;
        }
        i += 1;
    }
    proof {
        assert(left =~= right);
    }
    true
}

/// The one array path every demand shares.
pub(crate) fn shared_steps<'a>(demands: &'a [Demand]) -> (r: Option<&'a [Step]>)
    ensures
        match shared_path(demands_model(demands@)) {
            Some(path) => r matches Some(steps) && steps_model(steps@) == path,
            None => r is None,
        },
{
    let ghost model = demands_model(demands@);
    if demands.len() == 0 {
        return None;
    }
    proof {
        assert(model[0] == demand_model(demands@[0]));
    }
    let first: &'a [Step] = match path_of(&demands[0]) {
        Some(steps) => steps,
        None => {
            return None;
        },
    };
    let mut i: usize = 1;
    while i < demands.len()
        invariant
            1 <= i <= demands@.len(),
            model == demands_model(demands@),
            array_path(model[0]) == Some(steps_model(first@)),
            forall|k: int| 0 <= k < i ==> array_path(#[trigger] model[k]) == array_path(model[0]),
        decreases demands@.len() - i,
    {
        proof {
            assert(model[i as int] == demand_model(demands@[i as int]));
        }
        let same: bool = match path_of(&demands[i]) {
            Some(steps) => same_steps(steps, first),
            None => false,
        };
        if !same {
            return None;
        }
        i += 1;
    }
    Some(first)
}

/// The spelling of the key token at `start`, quotes stripped.
pub open spec fn key_spelling(b: Seq<u8>, start: int, end: int) -> Seq<u8> {
    if b[start] == QUOTE || b[start] == APOSTROPHE {
        if start + 1 <= end - 1 {
            b.subrange(start + 1, end - 1)
        } else {
            Seq::empty()
        }
    } else {
        b.subrange(start, end)
    }
}

pub(crate) fn key_bytes(src: &[u8], start: usize, end: usize) -> (r: &[u8])
    requires
        start < end <= src@.len(),
    ensures
        r@ == key_spelling(src@, start as int, end as int),
{
    if src[start] == QUOTE || src[start] == APOSTROPHE {
        if start + 1 <= end - 1 {
            vstd::slice::slice_subrange(src, start + 1, end - 1)
        } else {
            let r = vstd::slice::slice_subrange(src, start, start);
            proof {
                assert(r@ =~= Seq::<u8>::empty());
            }
            r
        }
    } else {
        vstd::slice::slice_subrange(src, start, end)
    }
}

/// Whether a key is spelled with an escape, which needs decoding to compare.
pub open spec fn has_escape(spelling: Seq<u8>) -> bool {
    exists|i: int| 0 <= i < spelling.len() && #[trigger] spelling[i] == BACKSLASH
}

pub(crate) fn contains_escape(spelling: &[u8]) -> (r: bool)
    ensures
        r == has_escape(spelling@),
{
    let mut i: usize = 0;
    while i < spelling.len()
        invariant
            i <= spelling@.len(),
            forall|k: int| 0 <= k < i ==> #[trigger] spelling@[k] != BACKSLASH,
        decreases spelling@.len() - i,
    {
        if spelling[i] == BACKSLASH {
            return true;
        }
        i += 1;
    }
    false
}

/// Where a value ends that is only located.
pub open spec fn located_end(b: Seq<u8>, pos: int, check: Check, max: u32, dialect: Dialect) -> Result<int, Error> {
    end_at(value_past_trivia(b, pos, Ctx { check, max, dialect }, 0))
}

/// The member at `p`: its key's spelling and where its value is; none when the
/// bytes are off the member grammar.
#[verifier::opaque]
pub open spec fn member_token(b: Seq<u8>, p: int, dialect: Dialect) -> Result<Option<(Seq<u8>, int)>, Error> {
    match key_end(b, p, Check::Locate, dialect) {
        Err(_) => Ok(None),
        Ok(e) => match trivia_end(b, e, dialect) {
            Err(error) => Err(error),
            Ok(c) => if c < b.len() && b[c] == COLON {
                match trivia_end(b, c + 1, dialect) {
                    Err(error) => Err(error),
                    Ok(v) => Ok(Some((key_spelling(b, p, e), v))),
                }
            } else {
                Ok(None)
            },
        },
    }
}

fn take_member_token(src: &[u8], p: usize, dialect: Dialect) -> (r: Result<Option<(&[u8], usize)>, Error>)
    requires
        p < src@.len(),
    ensures
        match member_token(src@, p as int, dialect) {
            Ok(Some((spelling, v))) => r matches Ok(Some((bytes, at))) && bytes@ == spelling && at == v && p < v <= src@.len(),
            Ok(None) => r matches Ok(None),
            Err(error) => r is Err && r->Err_0 == error,
        },
{
    proof {
        reveal(member_token);
    }
    let e: usize = match skip_key(src, p, Check::Locate, dialect) {
        Ok(e) => e,
        Err(_) => {
            return Ok(None);
        },
    };
    let c: usize = skip_trivia(src, e, dialect)?;
    if c >= src.len() || src[c] != COLON {
        return Ok(None);
    }
    let v: usize = skip_trivia(src, c + 1, dialect)?;
    Ok(Some((key_bytes(src, p, e), v)))
}

/// The first member from `pos` whose key is spelled `name` and whose value opens
/// with `wanted`. An escaped spelling may shadow a plain key, so it ends the
/// search.
pub open spec fn first_member(b: Seq<u8>, pos: int, name: Seq<u8>, wanted: u8, max: u32, dialect: Dialect) -> Result<
    Option<int>,
    Error,
>
    decreases b.len() - pos,
{
    match trivia_end(b, pos, dialect) {
        Err(error) => Err(error),
        Ok(p) => if p >= b.len() || b[p] == RBRACE {
            Ok(None)
        } else {
            match member_token(b, p, dialect) {
                Err(error) => Err(error),
                Ok(None) => Ok(None),
                Ok(Some((spelling, v))) => if has_escape(spelling) {
                    Ok(None)
                } else if spelling == name && v < b.len() && b[v] == wanted {
                    Ok(Some(v))
                } else {
                    match located_end(b, v, Check::Locate, max, dialect) {
                        Err(error) => Err(error),
                        Ok(e) => match trivia_end(b, e, dialect) {
                            Err(error) => Err(error),
                            Ok(q) => if pos < q < b.len() && b[q] == COMMA {
                                first_member(b, q + 1, name, wanted, max, dialect)
                            } else {
                                Ok(None)
                            },
                        },
                    }
                },
            }
        },
    }
}

fn find_first_member(src: &[u8], from: usize, name: &[u8], wanted: u8, max: u32, dialect: Dialect) -> (r: Result<
    Option<usize>,
    Error,
>)
    requires
        from <= src@.len(),
    ensures
        match first_member(src@, from as int, name@, wanted, max, dialect) {
            Ok(Some(v)) => r matches Ok(Some(at)) && at == v && v < src@.len(),
            Ok(None) => r matches Ok(None),
            Err(error) => r is Err && r->Err_0 == error,
        },
{
    let len: usize = src.len();
    let mut pos: usize = from;
    loop
        invariant
            pos <= len == src@.len(),
            first_member(src@, from as int, name@, wanted, max, dialect) == first_member(
                src@,
                pos as int,
                name@,
                wanted,
                max,
                dialect,
            ),
        decreases len - pos,
    {
        let p: usize = skip_trivia(src, pos, dialect)?;
        if p >= len || src[p] == RBRACE {
            return Ok(None);
        }
        let (spelling, v) = match take_member_token(src, p, dialect)? {
            Some(found) => found,
            None => {
                return Ok(None);
            },
        };
        if contains_escape(spelling) {
            return Ok(None);
        }
        if same_bytes(spelling, name) && v < len && src[v] == wanted {
            return Ok(Some(v));
        }
        let e: usize = skip_value(src, v, Check::Locate, max, dialect)?;
        let q: usize = skip_trivia(src, e, dialect)?;
        if q >= len || src[q] != COMMA {
            return Ok(None);
        }
        pos = q + 1;
    }
}

/// The last member from `pos` whose key is spelled `name`, else `found`.
pub open spec fn last_member_at(b: Seq<u8>, pos: int, name: Seq<u8>, max: u32, dialect: Dialect, found: Option<int>) -> Result<
    Option<int>,
    Error,
>
    decreases b.len() - pos,
{
    match trivia_end(b, pos, dialect) {
        Err(error) => Err(error),
        Ok(p) => if p >= b.len() {
            Ok(None)
        } else if b[p] == RBRACE {
            Ok(found)
        } else {
            match member_token(b, p, dialect) {
                Err(error) => Err(error),
                Ok(None) => Ok(None),
                Ok(Some((spelling, v))) => if has_escape(spelling) {
                    Ok(None)
                } else {
                    let next = if spelling == name {
                        Some(v)
                    } else {
                        found
                    };
                    match passed_value(b, v, spelling == name, max, dialect) {
                        Err(error) => Err(error),
                        Ok(e) => match trivia_end(b, e, dialect) {
                            Err(error) => Err(error),
                            Ok(q) => if pos < q < b.len() && b[q] == COMMA {
                                last_member_at(b, q + 1, name, max, dialect, next)
                            } else {
                                Ok(next)
                            },
                        },
                    }
                },
            }
        },
    }
}

/// Past a member's value. A matching array is cut, which keeps the planner's
/// lexical diagnostics.
pub open spec fn passed_value(b: Seq<u8>, v: int, matching: bool, max: u32, dialect: Dialect) -> Result<int, Error> {
    if matching && v < b.len() && b[v] == LBRACKET {
        match serial_elements(b, v + 1) {
            Err(error) => Err(error),
            Ok((_, end)) => Ok(end),
        }
    } else {
        located_end(b, v, Check::Locate, max, dialect)
    }
}

fn pass_value(src: &[u8], v: usize, matching: bool, max: u32, dialect: Dialect) -> (r: Result<usize, Error>)
    requires
        v <= src@.len(),
    ensures
        ends_as(r, passed_value(src@, v as int, matching, max, dialect)),
        r matches Ok(e) ==> e <= src@.len(),
{
    let len: usize = src.len();
    if matching && v < len && src[v] == LBRACKET {
        let (_, end) = element_ranges(src, v + 1)?;
        Ok(end)
    } else {
        skip_value(src, v, Check::Locate, max, dialect)
    }
}

fn find_last_member_at(src: &[u8], from: usize, name: &[u8], max: u32, dialect: Dialect) -> (r: Result<Option<usize>, Error>)
    requires
        from <= src@.len(),
    ensures
        match last_member_at(src@, from as int, name@, max, dialect, None) {
            Ok(Some(v)) => r matches Ok(Some(at)) && at == v && v <= src@.len(),
            Ok(None) => r matches Ok(None),
            Err(error) => r is Err && r->Err_0 == error,
        },
{
    let len: usize = src.len();
    let mut pos: usize = from;
    let mut found: Option<usize> = None;
    loop
        invariant
            pos <= len == src@.len(),
            found matches Some(v) ==> v <= len,
            last_member_at(src@, from as int, name@, max, dialect, None) == last_member_at(
                src@,
                pos as int,
                name@,
                max,
                dialect,
                match found {
                    Some(v) => Some(v as int),
                    None => None,
                },
            ),
        decreases len - pos,
    {
        let p: usize = skip_trivia(src, pos, dialect)?;
        if p >= len {
            return Ok(None);
        }
        if src[p] == RBRACE {
            return Ok(found);
        }
        let (spelling, v) = match take_member_token(src, p, dialect)? {
            Some(token) => token,
            None => {
                return Ok(None);
            },
        };
        if contains_escape(spelling) {
            return Ok(None);
        }
        let matching: bool = same_bytes(spelling, name);
        if matching {
            found = Some(v);
        }
        let e: usize = pass_value(src, v, matching, max, dialect)?;
        let q: usize = skip_trivia(src, e, dialect)?;
        if q <= pos || q >= len || src[q] != COMMA {
            return Ok(found);
        }
        pos = q + 1;
    }
}

/// Where element `index` of the array body at `pos` starts, `done` elements in.
pub open spec fn element_start(b: Seq<u8>, pos: int, index: int, done: int, max: u32, dialect: Dialect) -> Result<
    Option<int>,
    Error,
>
    decreases b.len() - pos,
{
    match trivia_end(b, pos, dialect) {
        Err(error) => Err(error),
        Ok(p) => if p < b.len() && b[p] == RBRACKET {
            Ok(None)
        } else if done > 0 && !(p < b.len() && b[p] == COMMA) {
            Ok(None)
        } else {
            match (if done > 0 {
                trivia_end(b, p + 1, dialect)
            } else {
                Ok(p)
            }) {
                Err(error) => Err(error),
                Ok(q) => if done == index {
                    Ok(Some(q))
                } else {
                    match located_end(b, q, Check::Locate, max, dialect) {
                        Err(error) => Err(error),
                        Ok(e) => if pos < e <= b.len() {
                            element_start(b, e, index, done + 1, max, dialect)
                        } else {
                            Ok(None)
                        },
                    }
                },
            }
        },
    }
}

fn find_element_start(src: &[u8], from: usize, index: i64, max: u32, dialect: Dialect) -> (r: Result<Option<usize>, Error>)
    requires
        from <= src@.len(),
        index >= 0,
    ensures
        match element_start(src@, from as int, index as int, 0, max, dialect) {
            Ok(Some(v)) => r matches Ok(Some(at)) && at == v && v <= src@.len(),
            Ok(None) => r matches Ok(None),
            Err(error) => r is Err && r->Err_0 == error,
        },
{
    let len: usize = src.len();
    let mut pos: usize = from;
    let mut done: u64 = 0;
    loop
        invariant
            pos <= len == src@.len(),
            0 <= index,
            done <= index,
            element_start(src@, from as int, index as int, 0, max, dialect) == element_start(
                src@,
                pos as int,
                index as int,
                done as int,
                max,
                dialect,
            ),
        decreases len - pos,
    {
        let mut p: usize = skip_trivia(src, pos, dialect)?;
        if p < len && src[p] == RBRACKET {
            return Ok(None);
        }
        if done > 0 {
            if p >= len || src[p] != COMMA {
                return Ok(None);
            }
            p = skip_trivia(src, p + 1, dialect)?;
        }
        if done == index as u64 {
            return Ok(Some(p));
        }
        let e: usize = skip_value(src, p, Check::Locate, max, dialect)?;
        pos = e;
        done += 1;
    }
}

/// The `[` that steps from `i` on lead to from `pos`: by the first matching
/// members, or by the `last`.
pub open spec fn array_from(
    b: Seq<u8>,
    pos: int,
    steps: Seq<StepModel>,
    i: int,
    last: bool,
    max: u32,
    dialect: Dialect,
) -> Result<Option<int>, Error>
    decreases steps.len() - i,
{
    if i >= steps.len() {
        Ok(
            if pos < b.len() && b[pos] == LBRACKET {
                Some(pos)
            } else {
                None
            },
        )
    } else {
        match (match steps[i] {
            StepModel::Key(name) => if !(pos < b.len() && b[pos] == LBRACE) {
                Ok(None)
            } else if last {
                last_member_at(b, pos + 1, name, max, dialect, None)
            } else {
                first_member(
                    b,
                    pos + 1,
                    name,
                    if i + 1 == steps.len() || steps[i + 1] is Index {
                        LBRACKET
                    } else {
                        LBRACE
                    },
                    max,
                    dialect,
                )
            },
            StepModel::Index(index) => if index < 0 || !(pos < b.len() && b[pos] == LBRACKET) {
                Ok(None)
            } else {
                element_start(b, pos + 1, index as int, 0, max, dialect)
            },
        }) {
            Err(error) => Err(error),
            Ok(None) => Ok(None),
            Ok(Some(next)) => array_from(b, next, steps, i + 1, last, max, dialect),
        }
    }
}

/// The `[` a path leads to.
pub open spec fn array_at(b: Seq<u8>, steps: Seq<StepModel>, last: bool, max: u32, dialect: Dialect) -> Result<
    Option<int>,
    Error,
> {
    match trivia_end(b, text_start(b), dialect) {
        Err(error) => Err(error),
        Ok(pos) => array_from(b, pos, steps, 0, last, max, dialect),
    }
}

/// The opener of a value that can carry what comes behind the key step `i`: the
/// array itself or an index step needs an array, a key step an object.
fn opener_wanted(steps: &[Step], i: usize) -> (r: u8)
    requires
        i < steps@.len(),
    ensures
        r == (if i + 1 == steps@.len() || steps_model(steps@)[i + 1] is Index {
            LBRACKET
        } else {
            LBRACE
        }),
{
    let n: usize = steps.len();
    if i == n - 1 {
        return LBRACKET;
    }
    assert(steps_model(steps@)[i + 1] == step_model(steps@[i + 1]));
    match &steps[i + 1] {
        Step::Index(_) => LBRACKET,
        Step::Key(_) => LBRACE,
    }
}

/// Start offset of the `[` the path resolves to. The first-match walk does not
/// scan the matched array's body; the last-match walk is authoritative.
pub(crate) fn resolve_array_start(src: &[u8], steps: &[Step], last: bool, max: u32, dialect: Dialect) -> (r: Result<
    Option<usize>,
    Error,
>)
    ensures
        match array_at(src@, steps_model(steps@), last, max, dialect) {
            Ok(Some(v)) => r matches Ok(Some(at)) && at == v && v < src@.len(),
            Ok(None) => r matches Ok(None),
            Err(error) => r is Err && r->Err_0 == error,
        },
{
    let len: usize = src.len();
    let ghost model = steps_model(steps@);
    let mut pos: usize = skip_trivia(src, strip_bom(src), dialect)?;
    let mut i: usize = 0;
    while i < steps.len()
        invariant
            i <= steps@.len(),
            pos <= len == src@.len(),
            model == steps_model(steps@),
            array_at(src@, model, last, max, dialect) == array_from(src@, pos as int, model, i as int, last, max, dialect),
        decreases steps@.len() - i,
    {
        proof {
            assert(model[i as int] == step_model(steps@[i as int]));
        }
        let next: Option<usize> = match &steps[i] {
            Step::Key(name) => {
                if pos >= len || src[pos] != LBRACE {
                    None
                } else if last {
                    find_last_member_at(src, pos + 1, text_bytes(name), max, dialect)?
                } else {
                    let wanted: u8 = opener_wanted(steps, i);
                    find_first_member(src, pos + 1, text_bytes(name), wanted, max, dialect)?
                }
            },
            Step::Index(index) => {
                if *index < 0 || pos >= len || src[pos] != LBRACKET {
                    None
                } else {
                    find_element_start(src, pos + 1, *index, max, dialect)?
                }
            },
        };
        match next {
            Some(at_value) => {
                pos = at_value;
            },
            None => {
                return Ok(None);
            },
        }
        i += 1;
    }
    if pos < len && src[pos] == LBRACKET {
        Ok(Some(pos))
    } else {
        Ok(None)
    }
}

} // verus!
