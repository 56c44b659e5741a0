//! What follows a cut array: later members that take its path, and the closers
//! of the containers around it.

use vstd::prelude::*;

use crate::ascii::{COLON, COMMA, RBRACE, RBRACKET};
use crate::demand::{step_model, steps_model, Step, StepModel};
use crate::dialect::Dialect;
use crate::error::{at, Error, ErrorKind};
use crate::lex::skip::{skip_value, Check};
use crate::lex::ws::{ends_as, skip_trivia, trivia_end};
use crate::lex::{key_end, skip_key};
use crate::shard::path::{contains_escape, has_escape, key_bytes, key_spelling, located_end};
use crate::text::{same_bytes, text_bytes};

verus! {

/// What the walk after the first path match found.
#[derive(Clone, Copy, Debug, PartialEq, Eq, Structural)]
pub enum Shadow {
    /// No later member lands on the path: the first match is the last.
    Clear,
    /// A later member lands on the path.
    Later,
    /// The walk met a spelling it cannot judge (an escaped key, a trailing
    /// comma, bytes off the member grammar).
    Unresolved,
}

/// How a container on the path went.
pub enum Passed {
    /// It closed; the offset after its closer.
    To(int),
    /// The walk is decided.
    Found(Shadow),
}

/// Past a key and its colon; none when the colon is missing or the key is
/// spelled with an escape.
#[verifier::opaque]
pub open spec fn later_key(b: Seq<u8>, q: int, dialect: Dialect) -> Result<Option<(Seq<u8>, int)>, Error> {
    match key_end(b, q, Check::Locate, dialect) {
        Err(error) => Err(error),
        Ok(e) => if has_escape(key_spelling(b, q, e)) {
            Ok(None)
        } else {
            match trivia_end(b, e, dialect) {
                Err(error) => Err(error),
                Ok(c) => if c < b.len() && b[c] == COLON {
                    match trivia_end(b, c + 1, dialect) {
                        Err(error) => Err(error),
                        Ok(v) => Ok(Some((key_spelling(b, q, e), v))),
                    }
                } else {
                    Ok(None)
                },
            }
        },
    }
}

/// The rest of the object whose member `name` the path took, from `pos`.
pub open spec fn object_shadow(b: Seq<u8>, pos: int, name: Seq<u8>, max: u32, dialect: Dialect) -> Result<Passed, Error>
    decreases b.len() - pos,
{
    match trivia_end(b, pos, dialect) {
        Err(error) => Err(error),
        Ok(p) => if p < b.len() && b[p] == RBRACE {
            Ok(Passed::To(p + 1))
        } else if p < b.len() && b[p] == COMMA {
            match trivia_end(b, p + 1, dialect) {
                Err(error) => Err(error),
                Ok(q) => match later_key(b, q, dialect) {
                    Err(error) => Err(error),
                    Ok(None) => Ok(Passed::Found(Shadow::Unresolved)),
                    Ok(Some((spelling, v))) => if spelling == name {
                        Ok(Passed::Found(Shadow::Later))
                    } else {
                        match located_end(b, v, Check::Locate, max, dialect) {
                            Err(error) => Err(error),
                            Ok(e) => if pos < e <= b.len() {
                                object_shadow(b, e, name, max, dialect)
                            } else {
                                Ok(Passed::Found(Shadow::Unresolved))
                            },
                        }
                    },
                },
            }
        } else {
            Ok(Passed::Found(Shadow::Unresolved))
        },
    }
}

/// The rest of the array whose element the path took, from `pos`.
pub open spec fn array_shadow(b: Seq<u8>, pos: int, max: u32, dialect: Dialect) -> Result<Passed, Error>
    decreases b.len() - pos,
{
    match trivia_end(b, pos, dialect) {
        Err(error) => Err(error),
        Ok(p) => if p < b.len() && b[p] == RBRACKET {
            Ok(Passed::To(p + 1))
        } else if p < b.len() && b[p] == COMMA {
            match trivia_end(b, p + 1, dialect) {
                Err(error) => Err(error),
                Ok(q) => match located_end(b, q, Check::Locate, max, dialect) {
                    Err(error) => Err(error),
                    Ok(e) => if pos < e <= b.len() {
                        array_shadow(b, e, max, dialect)
                    } else {
                        Ok(Passed::Found(Shadow::Unresolved))
                    },
                },
            }
        } else {
            Ok(Passed::Found(Shadow::Unresolved))
        },
    }
}

/// The containers of the first `n` steps, innermost first, from `pos`.
pub open spec fn shadow_from(b: Seq<u8>, pos: int, steps: Seq<StepModel>, n: nat, max: u32, dialect: Dialect) -> Result<
    Shadow,
    Error,
>
    decreases n,
{
    if n == 0 || n > steps.len() {
        Ok(Shadow::Clear)
    } else {
        match (match steps[n - 1] {
            StepModel::Key(name) => object_shadow(b, pos, name, max, dialect),
            StepModel::Index(_) => array_shadow(b, pos, max, dialect),
        }) {
            Err(error) => Err(error),
            Ok(Passed::Found(shadow)) => Ok(shadow),
            Ok(Passed::To(next)) => shadow_from(b, next, steps, (n - 1) as nat, max, dialect),
        }
    }
}

/// Whether a later member takes the path of the value that ends at `end`.
pub open spec fn shadow_after(b: Seq<u8>, steps: Seq<StepModel>, end: int, max: u32, dialect: Dialect) -> Shadow {
    if end > b.len() {
        if steps.len() == 0 {
            Shadow::Clear
        } else {
            Shadow::Unresolved
        }
    } else {
        match shadow_from(b, end, steps, steps.len(), max, dialect) {
            Ok(shadow) => shadow,
            Err(_) => Shadow::Unresolved,
        }
    }
}

enum Pass {
    To(usize),
    Found(Shadow),
}

spec fn passes_as(r: Result<Pass, Error>, named: Result<Passed, Error>, len: int) -> bool {
    match named {
        Ok(Passed::To(p)) => r is Ok && (r->Ok_0 matches Pass::To(at) && at == p && p <= len),
        Ok(Passed::Found(shadow)) => r is Ok && (r->Ok_0 matches Pass::Found(s) && s == shadow),
        Err(error) => r is Err && r->Err_0 == error,
    }
}

fn take_later_key(src: &[u8], q: usize, dialect: Dialect) -> (r: Result<Option<(&[u8], usize)>, Error>)
    requires
        q <= src@.len(),
    ensures
        match later_key(src@, q as int, dialect) {
            Ok(Some((spelling, v))) => r matches Ok(Some((bytes, at))) && bytes@ == spelling && at == v && q < v <= src@.len(),
            Ok(None) => r matches Ok(None),
            Err(error) => r is Err && r->Err_0 == error,
        },
{
    proof {
        reveal(later_key);
    }
    let e: usize = skip_key(src, q, Check::Locate, dialect)?;
    let spelling = key_bytes(src, q, e);
    if contains_escape(spelling) {
        return Ok(None);
    }
    let c: usize = skip_trivia(src, e, dialect)?;
    if c >= src.len() || src[c] != COLON {
        return Ok(None);
    }
    let v: usize = skip_trivia(src, c + 1, dialect)?;
    Ok(Some((spelling, v)))
}

fn pass_object(src: &[u8], from: usize, name: &[u8], max: u32, dialect: Dialect) -> (r: Result<Pass, Error>)
    requires
        from <= src@.len(),
    ensures
        passes_as(r, object_shadow(src@, from as int, name@, max, dialect), src@.len() as int),
{
    let len: usize = src.len();
    let mut pos: usize = from;
    loop
        invariant
            pos <= len == src@.len(),
            object_shadow(src@, from as int, name@, max, dialect) == object_shadow(
                src@,
                pos as int,
                name@,
                max,
                dialect,
            ),
        decreases len - pos,
    {
        let p: usize = skip_trivia(src, pos, dialect)?;
        if p < len && src[p] == RBRACE {
            return Ok(Pass::To(p + 1));
        }
        if p >= len || src[p] != COMMA {
            return Ok(Pass::Found(Shadow::Unresolved));
        }
        let q: usize = skip_trivia(src, p + 1, dialect)?;
        let (spelling, v) = match take_later_key(src, q, dialect)? {
            Some(token) => token,
            None => {
                return Ok(Pass::Found(Shadow::Unresolved));
            },
        };
        if same_bytes(spelling, name) {
            return Ok(Pass::Found(Shadow::Later));
        }
        pos = skip_value(src, v, Check::Locate, max, dialect)?;
    }
}

fn pass_array(src: &[u8], from: usize, max: u32, dialect: Dialect) -> (r: Result<Pass, Error>)
    requires
        from <= src@.len(),
    ensures
        passes_as(r, array_shadow(src@, from as int, max, dialect), src@.len() as int),
{
    let len: usize = src.len();
    let mut pos: usize = from;
    loop
        invariant
            pos <= len == src@.len(),
            array_shadow(src@, from as int, max, dialect) == array_shadow(src@, pos as int, max, dialect),
        decreases len - pos,
    {
        let p: usize = skip_trivia(src, pos, dialect)?;
        if p < len && src[p] == RBRACKET {
            return Ok(Pass::To(p + 1));
        }
        if p >= len || src[p] != COMMA {
            return Ok(Pass::Found(Shadow::Unresolved));
        }
        let q: usize = skip_trivia(src, p + 1, dialect)?;
        pos = skip_value(src, q, Check::Locate, max, dialect)?;
    }
}

fn walk_for_shadow(src: &[u8], steps: &[Step], end: usize, max: u32, dialect: Dialect) -> (r: Result<Shadow, Error>)
    requires
        end <= src@.len(),
    ensures
        r == shadow_from(src@, end as int, steps_model(steps@), steps@.len(), max, dialect),
{
    let ghost model = steps_model(steps@);
    let mut pos: usize = end;
    let mut n: usize = steps.len();
    while n > 0
        invariant
            n <= steps@.len(),
            pos <= src@.len(),
            model == steps_model(steps@),
            shadow_from(src@, end as int, model, steps@.len(), max, dialect) == shadow_from(
                src@,
                pos as int,
                model,
                n as nat,
                max,
                dialect,
            ),
        decreases n,
    {
        proof {
            assert(model[n - 1] == step_model(steps@[n - 1]));
        }
        let passed = match &steps[n - 1] {
            Step::Key(name) => pass_object(src, pos, text_bytes(name), max, dialect)?,
            Step::Index(_) => pass_array(src, pos, max, dialect)?,
        };
        match passed {
            Pass::Found(shadow) => {
                return Ok(shadow);
            },
            Pass::To(next) => {
                pos = next;
            },
        }
        n -= 1;
    }
    Ok(Shadow::Clear)
}

/// Walk outward from `end` (just past the value the first path match resolved
/// to) and report whether a later member takes the path. Every container on the
/// resolved chain is walked from there to its closer, so the matched array's
/// body is never entered.
pub(crate) fn shadowed_after(src: &[u8], steps: &[Step], end: usize, max: u32, dialect: Dialect) -> (r: Shadow)
    ensures
        r == shadow_after(src@, steps_model(steps@), end as int, max, dialect),
{
    proof {
        assert(steps_model(steps@).len() == steps@.len());
    }
    if end > src.len() {
        return if steps.len() == 0 {
            Shadow::Clear
        } else {
            Shadow::Unresolved
        };
    }
    match walk_for_shadow(src, steps, end, max, dialect) {
        Ok(shadow) => shadow,
        Err(_) => Shadow::Unresolved,
    }
}

/// The rest of an object after one of its member values, from `pos`: where it
/// ends.
pub open spec fn object_tail(b: Seq<u8>, pos: int, check: Check, max: u32, dialect: Dialect) -> Result<int, Error>
    decreases b.len() - pos,
{
    match trivia_end(b, pos, dialect) {
        Err(error) => Err(error),
        Ok(p) => if p >= b.len() {
            Err(at(ErrorKind::ExpectedKey, p))
        } else if b[p] == RBRACE {
            Ok(p + 1)
        } else if b[p] != COMMA {
            Err(at(ErrorKind::ExpectedCommaObject, p))
        } else {
            match trivia_end(b, p + 1, dialect) {
                Err(error) => Err(error),
                Ok(q) => if q < b.len() && b[q] == RBRACE {
                    if dialect.comments() {
                        Ok(q + 1)
                    } else {
                        Err(at(ErrorKind::TrailingComma, q))
                    }
                } else {
                    match tail_member(b, q, check, max, dialect) {
                        Err(error) => Err(error),
                        Ok(e) => if pos < e <= b.len() {
                            object_tail(b, e, check, max, dialect)
                        } else {
                            Ok(e)
                        },
                    }
                },
            }
        },
    }
}

/// Past the member at `q`.
#[verifier::opaque]
pub open spec fn tail_member(b: Seq<u8>, q: int, check: Check, max: u32, dialect: Dialect) -> Result<int, Error> {
    match crate::lex::skip::member_value_at(b, q, check, dialect) {
        Err(error) => Err(error),
        Ok(v) => located_end(b, v, check, max, dialect),
    }
}

/// The rest of an array after one of its elements, from `pos`: where it ends.
pub open spec fn array_tail(b: Seq<u8>, pos: int, check: Check, max: u32, dialect: Dialect) -> Result<int, Error>
    decreases b.len() - pos,
{
    match trivia_end(b, pos, dialect) {
        Err(error) => Err(error),
        Ok(p) => if p < b.len() && b[p] == RBRACKET {
            Ok(p + 1)
        } else if !(p < b.len() && b[p] == COMMA) {
            Err(at(ErrorKind::ExpectedCommaArray, p))
        } else {
            match trivia_end(b, p + 1, dialect) {
                Err(error) => Err(error),
                Ok(q) => if q < b.len() && b[q] == RBRACKET {
                    if dialect.comments() {
                        Ok(q + 1)
                    } else {
                        Err(at(ErrorKind::TrailingComma, q))
                    }
                } else {
                    match located_end(b, q, check, max, dialect) {
                        Err(error) => Err(error),
                        Ok(e) => if pos < e <= b.len() {
                            array_tail(b, e, check, max, dialect)
                        } else {
                            Ok(e)
                        },
                    }
                },
            }
        },
    }
}

/// Past the containers of the first `n` steps, innermost first, from `pos`.
pub open spec fn tails_from(b: Seq<u8>, pos: int, steps: Seq<StepModel>, n: nat, check: Check, max: u32, dialect: Dialect) -> Result<
    int,
    Error,
>
    decreases n,
{
    if n == 0 || n > steps.len() {
        Ok(pos)
    } else {
        match (match steps[n - 1] {
            StepModel::Key(_) => object_tail(b, pos, check, max, dialect),
            StepModel::Index(_) => array_tail(b, pos, check, max, dialect),
        }) {
            Err(error) => Err(error),
            Ok(next) => tails_from(b, next, steps, (n - 1) as nat, check, max, dialect),
        }
    }
}

/// The refusal of what follows an array that ends at `end`: the containers
/// around it must close, and nothing but trivia may follow the root value.
pub open spec fn tail_fault(b: Seq<u8>, steps: Seq<StepModel>, end: int, check: Check, max: u32, dialect: Dialect) -> Option<Error> {
    match tails_from(b, end, steps, steps.len(), check, max, dialect) {
        Err(error) => Some(error),
        Ok(pos) => match trivia_end(b, pos, dialect) {
            Err(error) => Some(error),
            Ok(tail) => if tail < b.len() {
                Some(at(ErrorKind::TrailingContent, tail))
            } else {
                None
            },
        },
    }
}

/// The rest of an object after one of its member values: `, member…` then `}`.
fn skip_object_tail(src: &[u8], from: usize, check: Check, max: u32, dialect: Dialect) -> (r: Result<usize, Error>)
    requires
        from <= src@.len(),
    ensures
        ends_as(r, object_tail(src@, from as int, check, max, dialect)),
        r matches Ok(e) ==> e <= src@.len(),
{
    let len: usize = src.len();
    let mut pos: usize = from;
    loop
        invariant
            pos <= len == src@.len(),
            object_tail(src@, from as int, check, max, dialect) == object_tail(src@, pos as int, check, max, dialect),
        decreases len - pos,
    {
        let p: usize = skip_trivia(src, pos, dialect)?;
        if p >= len {
            // The walk's object loop reports a missing closer at the end as an
            // expected key, not a comma.
            return Err(Error::new(ErrorKind::ExpectedKey, p));
        }
        if src[p] == RBRACE {
            return Ok(p + 1);
        }
        if src[p] != COMMA {
            return Err(Error::new(ErrorKind::ExpectedCommaObject, p));
        }
        let q: usize = skip_trivia(src, p + 1, dialect)?;
        if q < len && src[q] == RBRACE {
            if dialect.trailing_commas() {
                return Ok(q + 1);
            }
            return Err(Error::new(ErrorKind::TrailingComma, q));
        }
        proof {
            reveal(tail_member);
        }
        let v: usize = crate::lex::skip::skip_member(src, q, check, dialect)?;
        pos = skip_value(src, v, check, max, dialect)?;
    }
}

/// The rest of an array after one of its element values: `, value…` then `]`.
fn skip_array_tail(src: &[u8], from: usize, check: Check, max: u32, dialect: Dialect) -> (r: Result<usize, Error>)
    requires
        from <= src@.len(),
    ensures
        ends_as(r, array_tail(src@, from as int, check, max, dialect)),
        r matches Ok(e) ==> e <= src@.len(),
{
    let len: usize = src.len();
    let mut pos: usize = from;
    loop
        invariant
            pos <= len == src@.len(),
            array_tail(src@, from as int, check, max, dialect) == array_tail(src@, pos as int, check, max, dialect),
        decreases len - pos,
    {
        let p: usize = skip_trivia(src, pos, dialect)?;
        if p < len && src[p] == RBRACKET {
            return Ok(p + 1);
        }
        if p >= len || src[p] != COMMA {
            return Err(Error::new(ErrorKind::ExpectedCommaArray, p));
        }
        let q: usize = skip_trivia(src, p + 1, dialect)?;
        if q < len && src[q] == RBRACKET {
            if dialect.trailing_commas() {
                return Ok(q + 1);
            }
            return Err(Error::new(ErrorKind::TrailingComma, q));
        }
        pos = skip_value(src, q, check, max, dialect)?;
    }
}

/// The trailing-content check of a text scan, for a split plan: the array closer
/// is known, so the opened containers are closed from there and the byte after
/// the root value must be trivia to the end.
pub(crate) fn validate_tail(src: &[u8], steps: &[Step], end: usize, check: Check, max: u32, dialect: Dialect) -> (r: Result<
    (),
    Error,
>)
    ensures
        match tail_fault(src@, steps_model(steps@), end as int, check, max, dialect) {
            Some(error) => r == Err::<(), Error>(error),
            None => r is Ok,
        },
{
    let ghost model = steps_model(steps@);
    if end > src.len() {
        let n: usize = steps.len();
        if n == 0 {
            return Ok(());
        }
        proof {
            assert(model[n - 1] == step_model(steps@[n - 1]));
        }
        return match &steps[n - 1] {
            Step::Key(_) => Err(Error::new(ErrorKind::ExpectedKey, end)),
            Step::Index(_) => Err(Error::new(ErrorKind::ExpectedCommaArray, end)),
        };
    }
    let mut pos: usize = end;
    let mut n: usize = steps.len();
    while n > 0
        invariant
            n <= steps@.len(),
            pos <= src@.len(),
            model == steps_model(steps@),
            tails_from(src@, end as int, model, steps@.len(), check, max, dialect) == tails_from(
                src@,
                pos as int,
                model,
                n as nat,
                check,
                max,
                dialect,
            ),
        decreases n,
    {
        proof {
            assert(model[n - 1] == step_model(steps@[n - 1]));
        }
        pos = match &steps[n - 1] {
            Step::Key(_) => skip_object_tail(src, pos, check, max, dialect)?,
            Step::Index(_) => skip_array_tail(src, pos, check, max, dialect)?,
        };
        n -= 1;
    }
    let tail: usize = skip_trivia(src, pos, dialect)?;
    if tail < src.len() {
        return Err(Error::new(ErrorKind::TrailingContent, tail));
    }
    Ok(())
}

} // verus!
