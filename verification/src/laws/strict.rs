//! A strict scan accepts nothing but valid text, whatever it is asked for.

use vstd::prelude::*;

use crate::answer::AnswerModel;
use crate::ascii::{LBRACE, LBRACKET, RBRACE, RBRACKET};
use crate::demand::{flattened, DemandModel, OracleModel, Strictness};
use crate::dialect::Dialect;
use crate::edit::apply::{
    demands_of, edited, edited_document, fallback, located_spans, locating, needs_facts, plan_of, planned_edit,
    planned_edits, strict_document,
};
use crate::edit::request::EditModel;
use crate::edit::splice::{apply_order, spliced, SpliceModel};
use crate::error::{Error, ErrorKind};
use crate::facts::FactModel;
use crate::framing::text_start;
use crate::scan::{root_env, scanned, strict_root, strict_scan_is_strict_root, Ask, JsonInput};
use crate::lex::skip::{
    after_colon, end_at, items, member_value_at, next_at, next_at_bounds, value, value_bounds, value_end,
    value_past_trivia, Check, Ctx, NextAt, MAX_NESTING,
};
use crate::lex::ws::{trivia_end, trivia_end_bounds, trivia_end_settles};
use crate::lex::{key_text, key_text_end};
use crate::value::{ByteRange, ValueKind};
use crate::walk::model::{
    beside, beside_marks,
    all_rows, array, array_hits, child, element_array, element_count, element_env, elements, enters, flat, kept,
    kind_at, located, member_env, members, next_element, next_member, node, node_of, object, object_hits, oracle_mark,
    oracles, row_element, row_members, rows, ArrayState, Env, MemberState, RowState, WalkCtx, Walked,
};
use crate::walk::marks::MarkModel;

verus! {

/// Whether a demand asks for no node count. A node count is bounded by its own
/// depth, not by the depth it stands at.
pub open spec fn counts_no_nodes(d: DemandModel) -> bool
    decreases d,
{
    match d {
        DemandModel::Oracle(o) => !(o is DescendCount),
        DemandModel::Path { nested, .. } => match nested {
            Some(inner) => counts_no_nodes(*inner),
            None => true,
        },
        DemandModel::Collection { nested, .. } => match nested {
            Some(inner) => counts_no_nodes(*inner),
            None => true,
        },
        DemandModel::Slice { nested, .. } => match nested {
            Some(inner) => counts_no_nodes(*inner),
            None => true,
        },
        _ => true,
    }
}

/// Whether no demand asks for a node count.
pub open spec fn none_count_nodes(hits: Seq<DemandModel>) -> bool {
    forall|i: int| 0 <= i < hits.len() ==> counts_no_nodes(#[trigger] hits[i])
}

proof fn flattened_counts(d: DemandModel)
    requires
        counts_no_nodes(d),
    ensures
        counts_no_nodes(flattened(d)),
    decreases d,
{
    match d {
        DemandModel::Path { steps, nested } => match nested {
            Some(inner) => flattened_counts(*inner),
            None => {},
        },
        _ => {},
    }
}

proof fn flat_counts(hits: Seq<DemandModel>)
    requires
        none_count_nodes(hits),
    ensures
        none_count_nodes(flat(hits)),
{
    assert forall|i: int| 0 <= i < flat(hits).len() implies counts_no_nodes(#[trigger] flat(hits)[i]) by {
        flattened_counts(hits[i]);
    }
}

proof fn kept_counts(opts: Seq<Option<DemandModel>>)
    requires
        forall|i: int| 0 <= i < opts.len() ==> ((#[trigger] opts[i]) matches Some(d) ==> counts_no_nodes(d)),
    ensures
        none_count_nodes(kept(opts)),
    decreases opts.len(),
{
    if opts.len() > 0 {
        let rest = opts.drop_last();
        assert forall|i: int| 0 <= i < rest.len() implies ((#[trigger] rest[i]) matches Some(d) ==> counts_no_nodes(d)) by {
            assert(rest[i] == opts[i]);
        }
        kept_counts(rest);
        assert(opts.last() == opts[opts.len() - 1]);
    }
}

proof fn array_hits_count(hits: Seq<DemandModel>, index: int)
    requires
        none_count_nodes(hits),
    ensures
        none_count_nodes(kept(array_hits(hits, index))),
{
    let opts = array_hits(hits, index);
    assert forall|i: int| 0 <= i < opts.len() implies ((#[trigger] opts[i]) matches Some(d) ==> counts_no_nodes(d)) by {
        assert(counts_no_nodes(hits[i]));
    }
    kept_counts(opts);
}

proof fn object_hits_count(hits: Seq<DemandModel>, name: Seq<u8>)
    requires
        none_count_nodes(hits),
    ensures
        none_count_nodes(kept(object_hits(hits, name))),
{
    let opts = object_hits(hits, name);
    assert forall|i: int| 0 <= i < opts.len() implies ((#[trigger] opts[i]) matches Some(d) ==> counts_no_nodes(d)) by {
        assert(counts_no_nodes(hits[i]));
    }
    kept_counts(opts);
}

/// A child of a container starts at no trivia.
pub(crate) proof fn item_is_settled(b: Seq<u8>, pos: int, dialect: Dialect, closer: u8, first: bool)
    requires
        0 <= pos <= b.len(),
    ensures
        next_at(b, pos, dialect, closer, first) matches Ok(NextAt::Item(p)) ==> trivia_end(b, p, dialect) == Ok::<int, Error>(p),
{
    reveal(next_at);
    trivia_end_bounds(b, pos, dialect);
    trivia_end_settles(b, pos, dialect);
    if let Ok(p) = trivia_end(b, pos, dialect) {
        if p < b.len() {
            trivia_end_bounds(b, p + 1, dialect);
            trivia_end_settles(b, p + 1, dialect);
        }
    }
}

/// The value of a member starts at no trivia.
pub(crate) proof fn member_value_is_settled(b: Seq<u8>, end: int, dialect: Dialect)
    requires
        0 <= end <= b.len(),
    ensures
        after_colon(b, end, dialect) matches Ok(v) ==> trivia_end(b, v, dialect) == Ok::<int, Error>(v) && end < v <= b.len(),
{
    trivia_end_bounds(b, end, dialect);
    if let Ok(p) = trivia_end(b, end, dialect) {
        if p < b.len() {
            trivia_end_bounds(b, p + 1, dialect);
            trivia_end_settles(b, p + 1, dialect);
        }
    }
}

/// The strict skip of a walk.
pub open spec fn strict(ctx: WalkCtx) -> Ctx {
    ctx.under(Check::Values)
}

/// A count of elements ends where the array does.
pub(crate) proof fn count_ends_the_array(b: Seq<u8>, pos: int, ctx: Ctx, depth: int, n: nat)
    requires
        0 <= pos <= b.len(),
    ensures
        element_count(b, pos, ctx, depth, n) matches Ok((e, _)) ==> items(b, pos, ctx, depth, n == 0) is Ok && items(
            b,
            pos,
            ctx,
            depth,
            n == 0,
        )->Ok_0.0 == e,
    decreases b.len() - pos,
{
    next_at_bounds(b, pos, ctx.dialect, RBRACKET, n == 0);
    match next_at(b, pos, ctx.dialect, RBRACKET, n == 0) {
        Ok(NextAt::Item(p)) => {
            value_bounds(b, p, ctx, depth);
            match value_end(b, p, ctx, depth) {
                Ok(e) => count_ends_the_array(b, e, ctx, depth, n + 1),
                Err(_) => {},
            }
        },
        _ => {},
    }
}

/// An oracle that located an end located that of the value.
proof fn oracles_reach_the_end(
    b: Seq<u8>,
    start: int,
    kind: ValueKind,
    hits: Seq<DemandModel>,
    n: nat,
    entering: bool,
    ctx: WalkCtx,
    depth: int,
)
    requires
        0 <= start < b.len(),
        ctx.strictness == Strictness::Strict,
        none_count_nodes(hits),
        n <= hits.len(),
        kind_at(b[start], ctx.dialect) == Some(kind),
        !entering ==> kind != ValueKind::Object || !enters(hits, kind),
    ensures
        oracles(b, start, kind, hits, n, entering, ctx, depth) matches Ok((_, reach)) ==> reach == start || value_end(
            b,
            start,
            strict(ctx),
            depth,
        ) == Ok::<int, Error>(reach),
    decreases n,
{
    if n > 0 {
        oracles_reach_the_end(b, start, kind, hits, (n - 1) as nat, entering, ctx, depth);
        reveal(oracle_mark);
        assert(counts_no_nodes(hits[n - 1]));
        if !entering && hits[n - 1] == DemandModel::Oracle(OracleModel::Count) {
            if kind == ValueKind::Object {
                assert(enters(hits, kind));
            }
            count_ends_the_array(b, start + 1, strict(ctx), depth + 1, 0);
        }
    }
}


/// Whether a strict walk ended where the value does.
pub open spec fn ends_the_value(b: Seq<u8>, start: int, ctx: WalkCtx, depth: int, walked: Result<Walked, Error>) -> bool {
    walked matches Ok(w) ==> !w.stopped && value_end(b, start, strict(ctx), depth) == Ok::<int, Error>(w.end)
}

proof fn row_members_are_strict(
    b: Seq<u8>,
    pos: int,
    first: bool,
    found: Seq<(Seq<u8>, ByteRange)>,
    hits: Seq<DemandModel>,
    ctx: WalkCtx,
    depth: int,
)
    requires
        0 <= pos <= b.len(),
        ctx.strictness == Strictness::Strict,
    ensures
        row_members(b, pos, first, found, hits, ctx, depth) matches Ok((e, _)) ==> crate::lex::skip::members(
            b,
            pos,
            strict(ctx),
            depth,
            first,
        ) is Ok && crate::lex::skip::members(b, pos, strict(ctx), depth, first)->Ok_0.0 == e,
    decreases b.len() - pos,
{
    next_at_bounds(b, pos, ctx.dialect, RBRACE, first);
    match next_at(b, pos, ctx.dialect, RBRACE, first) {
        Ok(NextAt::Item(p)) => {
            key_text_end(b, p, ctx.dialect);
            reveal(member_value_at);
            match key_text(b, p, ctx.dialect) {
                Ok((end, name)) => {
                    member_value_is_settled(b, end, ctx.dialect);
                    match after_colon(b, end, ctx.dialect) {
                        Ok(v) => {
                            value_bounds(b, v, strict(ctx), depth);
                            match value_end(b, v, strict(ctx), depth) {
                                Ok(e) => row_members_are_strict(
                                    b,
                                    e,
                                    false,
                                    if crate::walk::member::wanted(hits, name) {
                                        crate::walk::member::inserted(found, name, crate::value::span(v, e))
                                    } else {
                                        found
                                    },
                                    hits,
                                    ctx,
                                    depth,
                                ),
                                Err(_) => {},
                            }
                        },
                        Err(_) => {},
                    }
                },
                Err(_) => {},
            }
        },
        _ => {},
    }
}

proof fn rows_are_strict(b: Seq<u8>, st: RowState, hits: Seq<DemandModel>, ctx: WalkCtx, depth: int)
    requires
        0 <= st.pos <= b.len(),
        ctx.strictness == Strictness::Strict,
    ensures
        rows(b, st, hits, ctx, depth) matches Ok(done) ==> items(b, st.pos, strict(ctx), depth, st.first) is Ok && items(
            b,
            st.pos,
            strict(ctx),
            depth,
            st.first,
        )->Ok_0.0 == done.pos,
    decreases b.len() - st.pos,
{
    next_at_bounds(b, st.pos, ctx.dialect, RBRACKET, st.first);
    match next_at(b, st.pos, ctx.dialect, RBRACKET, st.first) {
        Ok(NextAt::Item(p)) => {
            reveal(row_element);
            value_bounds(b, p, strict(ctx), depth);
            if p < b.len() && b[p] == LBRACE && depth < ctx.max {
                row_members_are_strict(b, p + 1, true, Seq::empty(), hits, ctx, depth + 1);
            }
            match row_element(b, p, hits, ctx, depth) {
                Ok((e, more)) => {
                    assert(value_end(b, p, strict(ctx), depth) == Ok::<int, Error>(e));
                    rows_are_strict(
                        b,
                        RowState { pos: e, first: false, cells: crate::walk::model::appended(st.cells, more) },
                        hits,
                        ctx,
                        depth,
                    );
                },
                Err(_) => {},
            }
        },
        _ => {},
    }
}

/// Under a strict scan a walk ends where the value does, and nothing in the
/// value is left unchecked.
pub proof fn walk_is_strict(b: Seq<u8>, pos: int, hits: Seq<DemandModel>, ctx: WalkCtx, depth: int, env: Env)
    requires
        0 <= pos <= b.len(),
        ctx.strictness == Strictness::Strict,
        none_count_nodes(hits),
        !env.may_stop,
    ensures
        node(b, pos, hits, ctx, depth, env) matches Ok(w) ==> !w.stopped && end_at(
            value_past_trivia(b, pos, strict(ctx), depth),
        ) == Ok::<int, Error>(w.end) && pos < w.end <= b.len(),
    decreases b.len() - pos, 6nat,
{
    trivia_end_bounds(b, pos, ctx.dialect);
    if let Ok(start) = trivia_end(b, pos, ctx.dialect) {
        value_bounds(b, start, strict(ctx), depth);
        if start < b.len() && hits.len() > 0 {
            if let Some(kind) = kind_at(b[start], ctx.dialect) {
                flat_counts(hits);
                node_of_is_strict(b, start, kind, flat(hits), ctx, depth, env);
            }
        }
    }
}

proof fn beside_counts(hits: Seq<DemandModel>, env: Env)
    requires
        none_count_nodes(hits),
    ensures
        none_count_nodes(beside(hits, env)),
{
    assert forall|i: int| 0 <= i < hits.len() implies counts_no_nodes(#[trigger] beside(hits, env)[i]) by {
        assert(counts_no_nodes(hits[i]));
    }
}

proof fn node_of_is_strict(
    b: Seq<u8>,
    start: int,
    kind: ValueKind,
    hits: Seq<DemandModel>,
    ctx: WalkCtx,
    depth: int,
    env: Env,
)
    requires
        0 <= start < b.len(),
        ctx.strictness == Strictness::Strict,
        none_count_nodes(hits),
        !env.may_stop,
        kind_at(b[start], ctx.dialect) == Some(kind),
    ensures
        ends_the_value(b, start, ctx, depth, node_of(b, start, kind, hits, ctx, depth, env)),
    decreases b.len() - start, 5nat,
{
    oracles_reach_the_end(b, start, kind, hits, hits.len(), enters(hits, kind), ctx, depth);
    match oracles(b, start, kind, hits, hits.len(), enters(hits, kind), ctx, depth) {
        Ok((answered, reach)) => {
            reveal(located);
            reveal(element_array);
            if kind == ValueKind::Array {
                beside_counts(hits, env);
                let here = beside(hits, env);
                array_is_strict(b, start, here, beside_marks(hits, answered, env), ctx, depth, env);
            } else if kind == ValueKind::Object {
                object_is_strict(b, start, hits, answered, ctx, depth, env);
            }
        },
        Err(_) => {},
    }
}

proof fn array_is_strict(
    b: Seq<u8>,
    start: int,
    hits: Seq<DemandModel>,
    answered: Seq<MarkModel>,
    ctx: WalkCtx,
    depth: int,
    env: Env,
)
    requires
        0 <= start < b.len(),
        b[start] == LBRACKET,
        ctx.strictness == Strictness::Strict,
        none_count_nodes(hits),
        !env.may_stop,
    ensures
        ends_the_value(b, start, ctx, depth, array(b, start, hits, answered, ctx, depth, env)),
    decreases b.len() - start, 4nat,
{
    if depth < ctx.max {
        if all_rows(hits) {
            rows_are_strict(
                b,
                RowState { pos: start + 1, first: true, cells: crate::walk::model::no_cells(hits.len()) },
                hits,
                ctx,
                depth + 1,
            );
        } else {
            let first = ArrayState {
                pos: start + 1,
                idx: 0,
                spans: Seq::empty(),
                marks: crate::walk::model::opened(hits, answered),
                stopped: false,
            };
            elements_are_strict(b, first, hits, ctx, depth + 1);
        }
    }
}

proof fn elements_are_strict(b: Seq<u8>, st: ArrayState, hits: Seq<DemandModel>, ctx: WalkCtx, depth: int)
    requires
        0 <= st.pos <= b.len(),
        0 <= st.idx,
        !st.stopped,
        ctx.strictness == Strictness::Strict,
        none_count_nodes(hits),
    ensures
        elements(b, st, hits, ctx, depth, None) matches Ok(done) ==> !done.stopped && items(
            b,
            st.pos,
            strict(ctx),
            depth,
            st.idx == 0,
        ) is Ok && items(b, st.pos, strict(ctx), depth, st.idx == 0)->Ok_0.0 == done.pos,
    decreases b.len() - st.pos, 8nat,
{
    next_at_bounds(b, st.pos, ctx.dialect, RBRACKET, st.idx == 0);
    item_is_settled(b, st.pos, ctx.dialect, RBRACKET, st.idx == 0);
    match next_at(b, st.pos, ctx.dialect, RBRACKET, st.idx == 0) {
        Ok(NextAt::Item(p)) => {
            let opts = array_hits(hits, st.idx);
            array_hits_count(hits, st.idx);
            child_is_strict(b, p, kept(opts), hits, ctx, depth, element_env());
            match child(b, p, kept(opts), hits, ctx, depth, element_env()) {
                Ok(w) => {
                    elements_are_strict(b, next_element(st, hits, opts, w, p), hits, ctx, depth);
                },
                Err(_) => {},
            }
        },
        _ => {},
    }
}

proof fn child_is_strict(
    b: Seq<u8>,
    pos: int,
    reaching: Seq<DemandModel>,
    hits: Seq<DemandModel>,
    ctx: WalkCtx,
    depth: int,
    env: Env,
)
    requires
        0 <= pos <= b.len(),
        trivia_end(b, pos, ctx.dialect) == Ok::<int, Error>(pos),
        ctx.strictness == Strictness::Strict,
        none_count_nodes(reaching),
        !env.may_stop,
    ensures
        ends_the_value(b, pos, ctx, depth, child(b, pos, reaching, hits, ctx, depth, env)),
        child(b, pos, reaching, hits, ctx, depth, env) matches Ok(w) ==> pos < w.end <= b.len(),
    decreases b.len() - pos, 7nat,
{
    value_bounds(b, pos, strict(ctx), depth);
    if reaching.len() > 0 {
        walk_is_strict(b, pos, reaching, ctx, depth, env);
    }
}

proof fn object_is_strict(
    b: Seq<u8>,
    start: int,
    hits: Seq<DemandModel>,
    answered: Seq<MarkModel>,
    ctx: WalkCtx,
    depth: int,
    env: Env,
)
    requires
        0 <= start < b.len(),
        b[start] == LBRACE,
        ctx.strictness == Strictness::Strict,
        none_count_nodes(hits),
        !env.may_stop,
    ensures
        ends_the_value(b, start, ctx, depth, object(b, start, hits, answered, ctx, depth, env)),
    decreases b.len() - start, 4nat,
{
    if depth < ctx.max {
        row_members_are_strict(b, start + 1, true, Seq::empty(), hits, ctx, depth + 1);
        let first = MemberState {
            pos: start + 1,
            first: true,
            marks: answered,
            members: Seq::empty(),
            stopped: false,
        };
        members_are_strict(b, first, hits, ctx, depth + 1, env);
    }
}

proof fn members_are_strict(b: Seq<u8>, st: MemberState, hits: Seq<DemandModel>, ctx: WalkCtx, depth: int, env: Env)
    requires
        0 <= st.pos <= b.len(),
        !st.stopped,
        ctx.strictness == Strictness::Strict,
        none_count_nodes(hits),
        !env.may_stop,
    ensures
        members(b, st, hits, ctx, depth, env) matches Ok(done) ==> !done.stopped && crate::lex::skip::members(
            b,
            st.pos,
            strict(ctx),
            depth,
            st.first,
        ) is Ok && crate::lex::skip::members(b, st.pos, strict(ctx), depth, st.first)->Ok_0.0 == done.pos,
    decreases b.len() - st.pos, 8nat,
{
    next_at_bounds(b, st.pos, ctx.dialect, RBRACE, st.first);
    match next_at(b, st.pos, ctx.dialect, RBRACE, st.first) {
        Ok(NextAt::Item(p)) => {
            key_text_end(b, p, ctx.dialect);
            reveal(member_value_at);
            match key_text(b, p, ctx.dialect) {
                Ok((end, name)) => {
                    member_value_is_settled(b, end, ctx.dialect);
                    match after_colon(b, end, ctx.dialect) {
                        Ok(v) => {
                            let opts = object_hits(hits, name);
                            object_hits_count(hits, name);
                            child_is_strict(b, v, kept(opts), hits, ctx, depth, member_env(env, opts, hits));
                            match child(b, v, kept(opts), hits, ctx, depth, member_env(env, opts, hits)) {
                                Ok(w) => members_are_strict(
                                    b,
                                    next_member(st, hits, opts, name, w, v),
                                    hits,
                                    ctx,
                                    depth,
                                    env,
                                ),
                                Err(_) => {},
                            }
                        },
                        Err(_) => {},
                    }
                },
                Err(_) => {},
            }
        },
        _ => {},
    }
}


/// A strict scan of one text that succeeds has validated the whole text: it is
/// one strictly valid value with nothing but trivia around it.
pub proof fn strict_scan_validates(b: Seq<u8>, ask: Ask)
    requires
        ask.input == JsonInput::Text,
        ask.ctx.strictness == Strictness::Strict,
        ask.ctx.max == MAX_NESTING,
        none_count_nodes(ask.demands),
    ensures
        scanned(b, ask) is Ok ==> strict_root(b, ask.ctx.dialect) is Ok,
{
    let dialect = ask.ctx.dialect;
    trivia_end_bounds(b, text_start(b), dialect);
    trivia_end_settles(b, text_start(b), dialect);
    if let Ok(pos) = trivia_end(b, text_start(b), dialect) {
        walk_is_strict(b, pos, ask.demands, ask.ctx, 0, root_env(ask));
    }
}

/// No edit asks for a node count.
proof fn edits_count_no_nodes(edits: Seq<EditModel>, n: nat, dialect: Dialect)
    ensures
        none_count_nodes(demands_of(edits, n, dialect)),
    decreases n,
{
    if 0 < n <= edits.len() {
        edits_count_no_nodes(edits, (n - 1) as nat, dialect);
    }
}

/// A successful edit produces strictly valid output.
pub proof fn edited_text_is_strictly_valid(src: Seq<u8>, edits: Seq<EditModel>, dialect: Dialect)
    ensures
        edited(src, edits, dialect) matches Ok(out) ==> strict_root(out, dialect) is Ok,
{
    reveal(plan_of);
    reveal(fallback);
    let ask = locating(edits, dialect, needs_facts(edits, dialect, false));
    edits_count_no_nodes(edits, edits.len(), dialect);
    strict_scan_validates(src, ask);
}

/// A document that was edited is strictly valid where it says it is, and is
/// tagged with the grammar it was edited under.
pub proof fn edited_document_is_validated(src: Seq<u8>, edits: Seq<EditModel>, dialect: Dialect)
    ensures
        edited_document(src, edits, dialect) matches Ok(d) ==> strict_root(d.source, dialect) == Ok::<ByteRange, Error>(d.root)
            && d.grammar == Some(dialect.tag_code()),
{
    reveal(fallback);
    reveal(strict_document);
    let original = match plan_of(src, edits, dialect, true) {
        Err(error) => error,
        Ok((splices, _)) => match strict_root(spliced(src, splices, 0, src.len() as int), dialect) {
            Err(error) => error,
            Ok(_) => crate::error::at(ErrorKind::NoDocument, 0),
        },
    };
    if let Ok(out) = fallback(src, edits, dialect, original) {
        strict_scan_is_strict_root(out, dialect, true);
    }
}

proof fn fact_edits_locate_nothing(edits: Seq<EditModel>, n: nat, dialect: Dialect)
    requires
        !dialect.comments(),
        n <= edits.len(),
        forall|i: int| 0 <= i < edits.len() ==> #[trigger] edits[i] is Fact,
    ensures
        demands_of(edits, n, dialect).len() == 0,
    decreases n,
{
    if n > 0 {
        fact_edits_locate_nothing(edits, (n - 1) as nat, dialect);
        assert(edits[n - 1] is Fact);
    }
}

proof fn fact_edits_plan_nothing(
    src: Seq<u8>,
    answers: Seq<AnswerModel>,
    edits: Seq<EditModel>,
    spans: Seq<Option<ByteRange>>,
    n: nat,
    dialect: Dialect,
)
    requires
        !dialect.comments(),
        n <= edits.len(),
        forall|i: int| 0 <= i < edits.len() ==> #[trigger] edits[i] is Fact,
    ensures
        located_spans(src, answers, 0, edits, n, dialect) is Ok,
        planned_edits(src, edits, spans, n, dialect, Seq::empty()) == Ok::<(Seq<SpliceModel>, Seq<FactModel>), Error>(
            (Seq::empty(), Seq::empty()),
        ),
    decreases n,
{
    if n > 0 {
        reveal(planned_edit);
        fact_edits_plan_nothing(src, answers, edits, spans, (n - 1) as nat, dialect);
        assert(edits[n - 1] is Fact);
        assert(Seq::<SpliceModel>::empty() + Seq::<SpliceModel>::empty() =~= Seq::<SpliceModel>::empty());
    }
}

/// A Strict scan for nothing accepts every strictly valid text.
proof fn scan_for_nothing(src: Seq<u8>, ask: Ask)
    requires
        ask.input == JsonInput::Text,
        ask.demands.len() == 0,
        ask.ctx.strictness == Strictness::Strict,
        ask.ctx.max == MAX_NESTING,
        strict_root(src, ask.ctx.dialect) is Ok,
    ensures
        scanned(src, ask) matches Ok((answers, issues)) && answers.len() == 0,
{
    let dialect = ask.ctx.dialect;
    trivia_end_bounds(src, text_start(src), dialect);
    trivia_end_settles(src, text_start(src), dialect);
    let pos = trivia_end(src, text_start(src), dialect)->Ok_0;
    crate::lex::skip::value_bounds(src, pos, Ctx { check: Check::Values, max: MAX_NESTING, dialect }, 0);
    assert(node(src, pos, ask.demands, ask.ctx, 0, root_env(ask)) is Ok);
}

/// Under a grammar without comments, comment writes leave a strictly valid text as it
/// is.
pub proof fn fact_writes_are_inert_without_comments(src: Seq<u8>, edits: Seq<EditModel>, dialect: Dialect)
    requires
        !dialect.comments(),
        strict_root(src, dialect) is Ok,
        forall|i: int| 0 <= i < edits.len() ==> #[trigger] edits[i] is Fact,
    ensures
        edited(src, edits, dialect) == Ok::<Seq<u8>, Error>(src),
{
    reveal(plan_of);
    let ask = locating(edits, dialect, false);
    fact_edits_locate_nothing(edits, edits.len(), dialect);
    assert(ask.demands =~= Seq::<DemandModel>::empty());
    scan_for_nothing(src, ask);
    let answers = scanned(src, ask)->Ok_0.0;
    fact_edits_plan_nothing(src, answers, edits, Seq::empty(), edits.len(), dialect);
    let spans = located_spans(src, answers, 0, edits, edits.len(), dialect)->Ok_0;
    fact_edits_plan_nothing(src, answers, edits, spans, edits.len(), dialect);
    assert(apply_order(Seq::<SpliceModel>::empty()) =~= Seq::<SpliceModel>::empty());
}

} // verus!
