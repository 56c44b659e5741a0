//! The cells of an object rest on the members that a row demand names, and on no others.

use vstd::prelude::*;

use crate::demand::{DemandModel, PredicateModel};
use crate::dialect::Dialect;
use crate::value::ByteRange;
use crate::walk::member::{among, holds, lookup, object_cells, projected_cells, reads, touches};
use crate::walk::model::flat_row;

verus! {

/// Whether two sets of members are the same to a demand.
pub(crate) open spec fn alike(x: Seq<(Seq<u8>, ByteRange)>, y: Seq<(Seq<u8>, ByteRange)>, h: DemandModel) -> bool {
    forall|name: Seq<u8>| #[trigger] touches(h, name) ==> lookup(x, name) == lookup(y, name)
}

proof fn condition_is_alike(
    b: Seq<u8>,
    x: Seq<(Seq<u8>, ByteRange)>,
    y: Seq<(Seq<u8>, ByteRange)>,
    p: PredicateModel,
    dialect: Dialect,
)
    requires
        forall|name: Seq<u8>| #[trigger] reads(p, name) ==> lookup(x, name) == lookup(y, name),
    ensures
        holds(b, x, p, dialect) == holds(b, y, p, dialect),
    decreases p,
{
    match p {
        PredicateModel::And(l, r) => {
            assert forall|name: Seq<u8>| #[trigger] reads(*l, name) implies lookup(x, name) == lookup(y, name) by {
                assert(reads(p, name));
            }
            assert forall|name: Seq<u8>| #[trigger] reads(*r, name) implies lookup(x, name) == lookup(y, name) by {
                assert(reads(p, name));
            }
            condition_is_alike(b, x, y, *l, dialect);
            condition_is_alike(b, x, y, *r, dialect);
        },
        PredicateModel::Or(l, r) => {
            assert forall|name: Seq<u8>| #[trigger] reads(*l, name) implies lookup(x, name) == lookup(y, name) by {
                assert(reads(p, name));
            }
            assert forall|name: Seq<u8>| #[trigger] reads(*r, name) implies lookup(x, name) == lookup(y, name) by {
                assert(reads(p, name));
            }
            condition_is_alike(b, x, y, *l, dialect);
            condition_is_alike(b, x, y, *r, dialect);
        },
        PredicateModel::Not(l) => {
            assert forall|name: Seq<u8>| #[trigger] reads(*l, name) implies lookup(x, name) == lookup(y, name) by {
                assert(reads(p, name));
            }
            condition_is_alike(b, x, y, *l, dialect);
        },
        PredicateModel::Eq(field, _) => {
            assert(reads(p, field));
        },
        PredicateModel::Ne(field, _) => {
            assert(reads(p, field));
        },
        PredicateModel::Order(field, _, _) => {
            assert(reads(p, field));
        },
    }
}

proof fn fields_are_alike(x: Seq<(Seq<u8>, ByteRange)>, y: Seq<(Seq<u8>, ByteRange)>, fields: Seq<Seq<u8>>)
    requires
        forall|name: Seq<u8>| #[trigger] among(fields, name) ==> lookup(x, name) == lookup(y, name),
    ensures
        projected_cells(fields, x) == projected_cells(fields, y),
{
    assert forall|i: int| 0 <= i < fields.len() implies projected_cells(fields, x)[i] == projected_cells(fields, y)[i] by {
        assert(among(fields, fields[i]));
    }
    assert(projected_cells(fields, x) =~= projected_cells(fields, y));
}

/// Members that are the same to a row demand make the same cells.
pub(crate) proof fn cells_are_alike(
    b: Seq<u8>,
    h: DemandModel,
    x: Seq<(Seq<u8>, ByteRange)>,
    y: Seq<(Seq<u8>, ByteRange)>,
    at: ByteRange,
    dialect: Dialect,
)
    requires
        flat_row(h),
        alike(x, y, h),
    ensures
        object_cells(b, h, x, at, dialect) == object_cells(b, h, y, at, dialect),
{
    match h {
        DemandModel::Project { path, fields } => {
            assert forall|name: Seq<u8>| #[trigger] among(fields, name) implies lookup(x, name) == lookup(y, name) by {
                assert(touches(h, name));
            }
            fields_are_alike(x, y, fields);
        },
        DemandModel::Filter { path, predicate, project } => {
            assert forall|name: Seq<u8>| #[trigger] among(project, name) implies lookup(x, name) == lookup(y, name) by {
                assert(touches(h, name));
            }
            assert forall|name: Seq<u8>| #[trigger] reads(predicate, name) implies lookup(x, name) == lookup(y, name) by {
                assert(touches(h, name));
            }
            fields_are_alike(x, y, project);
            condition_is_alike(b, x, y, predicate, dialect);
        },
        _ => {},
    }
}

} // verus!
