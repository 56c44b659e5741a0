//! Span edit: set, insert, delete, replace-member, and clear at a path, plus
//! comment fact writes. One strict scan locates every edit. An edit the splice
//! cannot place falls back to a re-encode of the edited value.

pub mod comments;
pub mod members;
pub mod splice;
pub mod dom;
pub mod request;
pub mod plan;
pub mod fact_plan;
pub mod apply;
