//! A demand-driven JSON codec: one scan over borrowed bytes answers many demands.
//!
//! The grammar, the located answers, the writers and the editors are all stated
//! over byte sequences, and every executable function is proved against that
//! statement.

pub mod answer;
pub mod ascii;
pub mod control;
pub mod demand;
pub mod dialect;
pub mod edit;
pub mod emit;
pub mod encode;
pub mod encode_parallel;
pub mod error;
pub mod facts;
pub mod framing;
pub mod laws;
pub mod lex;
pub mod materialize;
pub mod number;
pub mod scan;
pub mod shard;
pub mod stream;
pub mod tape;
pub mod text;
pub mod trace;
pub mod value;
pub mod walk;

pub use answer::{Answer, Columns, Document, Issue, OracleAnswer, ScanResult};
pub use control::Control;
pub use demand::{Demand, Oracle, Path, Predicate, Range, Step, Strictness};
pub use dialect::Dialect;
pub use edit::apply::{edit, edit_document};
pub use edit::request::{Edit, EditOptions, FactOp};
pub use emit::{encode, encode_document, encode_value, Source};
pub use encode::{EncodeOptions, Indent, ItemFraming};
pub use encode_parallel::{
    encode_value_chunk, plan_encode_value, stitch_value_chunks, ItemRange, ValuePlan, MIN_ITEMS_PER_PART,
};
pub use error::{Error, ErrorClass, ErrorKind};
pub use facts::{Fact, FactRole};
pub use framing::{
    adjacent_prefix_len, complete_prefix_len, partition_adjacent, partition_json_seq, partition_ndjson,
};
pub use lex::skip::MAX_NESTING;
pub use materialize::{materialize, parse, Form, MaterializeOptions, Materialized};
pub use number::Number;
pub use scan::{
    scan, scan_controlled, scan_each, scan_each_with_issues, validate, JsonInput, ScanRequest,
};
pub use shard::cut::CutSummary;
pub use shard::plan::{Plan, FIRST_SHARD_BYTES};
pub use value::{ByteRange, Value, ValueKind};
