# structury_json

A JSON codec that works directly on borrowed bytes, written and verified in Verus.
A request says what to read, and one pass over the source answers every demand in it;
located values are spans into the source until a materialized form is asked for.

The library reads RFC 8259 text, adjacent values, NDJSON and RFC 7464 sequences, in
three dialects: `Rfc8259`, `Jsonc` (comments and trailing commas) and a `Json5` subset.
It starts no thread and performs no I/O.

## What is proved

The public functions carry contracts over byte sequences, and Verus proves them: which
bytes are accepted, where a value ends, what each demand answers, what a trace records,
what is written, and which error comes with which offset. No verified function panics or
overflows. A few small helpers, such as the reads of a host's control, promise nothing of
their result; what a host decides is left open, and only there.

`src/laws/` states what holds across functions, among others:

- one pass answers each demand as it would be answered alone, whatever is asked beside it,
  on a text and on a stream; left out are a text whose scan for the one demand ends early
  while the other goes on to a repeated key of its way, and a stream whose last record the
  demand rests on and only one of the two scans refuses (`laws/independence.rs`, over
  `laws/alone.rs` and `laws/records.rs`);
- a path answers with what a lookup in the parsed value finds (`laws/paths.rs`);
- a written value, and a written document with its comments, read back as they were
  (`laws/round_trip.rs`, `laws/emitted.rs`, `laws/glyphs.rs`); up to 2 GiB of text outside
  JSON5, or 4 GiB in the owned form, runs out of no arena (`laws/room.rs`);
- every materialized form holds the same value (`laws/forms.rs`);
- each dialect accepts what the narrower ones accept (`laws/dialects.rs`);
- an edited text is strictly valid, an assigned value is what the text then holds, and
  a re-encoded document holds the edited value (`laws/strict.rs`, `laws/assign.rs`,
  `laws/fallback.rs`);
- what a feeder drains of a growing run of values is final (`laws/prefixes.rs`);
- the array that a plan cuts is the array that the scan reads at its path, in every dialect
  and however its values nest (`laws/places.rs`, `laws/ways.rs`), and the cut keeps its
  place over everything that a scan can pass (`laws/levels.rs`); blocks name what one serial
  cut names wherever the brackets do not leave the array and come back before a comma
  (`laws/cuts.rs`, `laws/elements.rs`);
- the parts of a plan fold to the answers of one scan, on texts and on all three kinds of
  stream: counts add up, and rows follow one another (`laws/planned.rs`, over
  `laws/folds.rs`, `laws/flows.rs` and `laws/tiles.rs`); left out are collections whose
  elements answer with rows of their own;
- a walk that may end early answers every demand as the walk of the whole value does, when
  no key on the way of a demand comes again before that walk ends; only bounded windows
  behind one path of keys end a walk early, and a walk that does not end early is the walk
  of the whole value (`laws/stops.rs`);
- two traces of one request record the same, and a stop is recorded where the walk ends
  (`laws/traces.rs`).

## Layout

- `lex/`: whitespace, strings, numbers and the structural skip.
- `walk/`, `scan`, `stream`: one walk per request, its marks and answers.
- `tape`, `materialize`: owned, borrowed and tree forms of an answer.
- `encode`, `emit`, `encode_parallel`: writers for values and documents.
- `edit/`: located edits as byte splices, with a re-encoding fallback.
- `shard/`: cutting one array into parts that are scanned independently.
- `framing`, `facts`, `trace`, `control`: frames, comment facts, walk records and
  host stops.

`text` holds the few calls into the standard library whose behaviour is taken from its
documentation rather than proved.
