//! What holds across the functions of the library.

pub mod alone;
pub mod assign;
pub mod changes;
pub mod comments;
pub mod compares;
pub mod cuts;
pub mod deletes;
pub mod dialects;
pub mod elements;
pub mod emitted;
pub mod ends;
pub mod fallback;
pub mod filters;
pub mod flows;
pub mod folds;
pub mod forms;
pub mod glyphs;
pub mod independence;
pub mod indices;
pub mod inserts;
pub mod levels;
pub mod lines;
pub mod local;
pub mod locate;
pub mod members;
pub mod moves;
pub mod oracles;
pub mod parse;
pub mod paths;
pub mod places;
pub mod planned;
pub mod prefixes;
pub mod projections;
pub mod records;
pub mod renames;
pub mod replace;
pub mod room;
pub mod round_trip;
pub mod row_parts;
pub mod rowless;
pub mod rows;
pub mod shallow;
pub mod slices;
pub mod slots;
pub mod stops;
pub mod strict;
pub mod strings;
pub mod texts;
pub mod tiles;
pub mod tokens;
pub mod traces;
pub mod walks;
pub mod ways;
pub mod windows;
