//! One validating walk fills one mark per demand.

pub mod events;
pub mod hits;
pub mod host;
pub mod layout;
pub mod marks;
pub mod member;
pub mod model;
pub mod node;
pub mod rows;
