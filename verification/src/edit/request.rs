//! What an edit asks for.

use vstd::prelude::*;

use crate::demand::{copy_steps, steps_model, Demand, DemandModel, Step, StepModel};
use crate::dialect::Dialect;
use crate::facts::FactRole;
use crate::text::bytes_of;
use crate::value::{json, Json, Value};

verus! {

/// One splice against retained source.
#[derive(Debug)]
pub enum Edit {
    /// Replace the value at `path`.
    Assign {
        /// Path to the existing value.
        path: Vec<Step>,
        /// Replacement.
        value: Value,
    },
    /// Insert `value` at `path` (array index or new object member). An object
    /// key that already exists replaces that member's value.
    Insert {
        /// Path whose last step is the insert slot.
        path: Vec<Step>,
        /// Inserted value.
        value: Value,
    },
    /// Delete the value at `path`.
    Delete {
        /// Path to remove.
        path: Vec<Step>,
    },
    /// Replace a member's key and value at `path`; it keeps its position and glue.
    ReplaceMember {
        /// Path whose last step names the member.
        path: Vec<Step>,
        /// Replacement key.
        key: String,
        /// Replacement value.
        value: Value,
    },
    /// Clear the container at `path`: remove every member or element, leaving
    /// an empty object or array in place. A non-container is refused.
    Clear {
        /// Path to the container.
        path: Vec<Step>,
    },
    /// Write a comment fact on the node at `path`. Only a commenting dialect has
    /// facts to write; under RFC 8259 every [`FactOp`] is a no-op.
    Fact {
        /// Path to the owner node.
        path: Vec<Step>,
        /// Which comment to write.
        op: FactOp,
    },
}

/// A comment write on one node. `Replace` and `Clear` affect every fact of the role.
#[derive(Debug)]
pub enum FactOp {
    /// Attach a new comment of `role`. Empty text is a no-op.
    Insert {
        /// Attachment role.
        role: FactRole,
        /// Comment body, without delimiters.
        text: String,
    },
    /// Rewrite the comment of `role` in place. Empty text clears it.
    Replace {
        /// Attachment role.
        role: FactRole,
        /// New comment body, without delimiters.
        text: String,
    },
    /// Remove the comment of `role`.
    Clear {
        /// Attachment role.
        role: FactRole,
    },
}

/// [`FactOp`] over byte sequences.
pub enum FactOpModel {
    /// Attach a new comment.
    Insert(FactRole, Seq<u8>),
    /// Rewrite the comment in place.
    Replace(FactRole, Seq<u8>),
    /// Remove the comment.
    Clear(FactRole),
}

/// [`Edit`] over mathematical values.
pub enum EditModel {
    /// Replace the value at a path.
    Assign(Seq<StepModel>, Json),
    /// Insert a value at a path.
    Insert(Seq<StepModel>, Json),
    /// Delete the value at a path.
    Delete(Seq<StepModel>),
    /// Replace a member's key and value.
    ReplaceMember(Seq<StepModel>, Seq<u8>, Json),
    /// Clear the container at a path.
    Clear(Seq<StepModel>),
    /// Write a comment fact.
    Fact(Seq<StepModel>, FactOpModel),
}

impl View for FactOp {
    type V = FactOpModel;

    open spec fn view(&self) -> FactOpModel {
        match *self {
            FactOp::Insert { role, text } => FactOpModel::Insert(role, bytes_of(text)),
            FactOp::Replace { role, text } => FactOpModel::Replace(role, bytes_of(text)),
            FactOp::Clear { role } => FactOpModel::Clear(role),
        }
    }
}

impl View for Edit {
    type V = EditModel;

    open spec fn view(&self) -> EditModel {
        match *self {
            Edit::Assign { path, value } => EditModel::Assign(steps_model(path@), json(value)),
            Edit::Insert { path, value } => EditModel::Insert(steps_model(path@), json(value)),
            Edit::Delete { path } => EditModel::Delete(steps_model(path@)),
            Edit::ReplaceMember { path, key, value } => EditModel::ReplaceMember(
                steps_model(path@),
                bytes_of(key),
                json(value),
            ),
            Edit::Clear { path } => EditModel::Clear(steps_model(path@)),
            Edit::Fact { path, op } => EditModel::Fact(steps_model(path@), op@),
        }
    }
}

/// Edits over mathematical values.
pub open spec fn edits_model(edits: Seq<Edit>) -> Seq<EditModel> {
    edits.map_values(|e: Edit| e@)
}

/// Options for an edit: the grammar the input is read under and the output is
/// validated under.
#[derive(Clone, Copy, Debug, PartialEq, Eq, Structural)]
#[non_exhaustive]
pub struct EditOptions {
    /// Grammar the input is read under and the output is re-validated under.
    pub dialect: Dialect,
}

impl EditOptions {
    /// These options reading `dialect`.
    #[must_use]
    pub fn new(dialect: Dialect) -> (r: Self)
        ensures
            r == (EditOptions { dialect }),
    {
        EditOptions { dialect }
    }

    /// These options reading `dialect`.
    #[must_use]
    pub fn with_dialect(self, dialect: Dialect) -> (r: Self)
        ensures
            r == (EditOptions { dialect }),
    {
        EditOptions { dialect }
    }
}

impl Default for EditOptions {
    fn default() -> (r: Self)
        ensures
            r == (EditOptions { dialect: Dialect::Rfc8259 }),
    {
        EditOptions { dialect: Dialect::Rfc8259 }
    }
}

/// The value a path leads to.
pub open spec fn at_path(steps: Seq<StepModel>) -> DemandModel {
    DemandModel::Path { steps, nested: None }
}

/// The container a path's last step names a slot of; the whole value when
/// there is no step.
pub open spec fn at_parent(steps: Seq<StepModel>) -> DemandModel {
    if steps.len() == 0 {
        DemandModel::Whole
    } else {
        at_path(steps.drop_last())
    }
}

/// What an edit locates; none when it has nothing to locate (a fact write under
/// a dialect without comments).
pub open spec fn edit_demand(e: EditModel, dialect: Dialect) -> Option<DemandModel> {
    match e {
        EditModel::Fact(path, _) => if !dialect.comments() {
            None
        } else if path.len() == 0 {
            Some(DemandModel::Whole)
        } else {
            Some(at_path(path))
        },
        EditModel::Insert(path, _) | EditModel::Delete(path) | EditModel::ReplaceMember(path, _, _) => Some(at_parent(path)),
        EditModel::Assign(path, _) | EditModel::Clear(path) => Some(at_path(path)),
    }
}

/// What an edit locates.
pub(crate) fn edit_request(edit: &Edit, dialect: Dialect) -> (r: Option<Demand>)
    ensures
        match edit_demand(edit@, dialect) {
            Some(d) => r matches Some(demand) && crate::demand::demand_model(demand) == d,
            None => r is None,
        },
{
    let (path, parent) = match edit {
        Edit::Fact { path, .. } => {
            if !dialect.has_comments() {
                return None;
            }
            if path.len() == 0 {
                return Some(Demand::Whole);
            }
            (path, false)
        },
        Edit::Insert { path, .. } => (path, true),
        Edit::Delete { path } => (path, true),
        Edit::ReplaceMember { path, .. } => (path, true),
        Edit::Assign { path, .. } => (path, false),
        Edit::Clear { path } => (path, false),
    };
    let ghost model = steps_model(path@);
    if parent {
        if path.len() == 0 {
            return Some(Demand::Whole);
        }
        let steps = copy_steps(path, path.len() - 1);
        proof {
            assert(model.take(model.len() - 1) =~= model.drop_last());
        }
        Some(Demand::path(steps))
    } else {
        let steps = copy_steps(path, path.len());
        proof {
            assert(model.take(model.len() as int) =~= model);
        }
        Some(Demand::path(steps))
    }
}

} // verus!
