use structury_json::{
    encode, encode_document, encode_value, encode_value_chunk, parse, plan_encode_value, scan, stitch_value_chunks, validate, Answer, Demand,
    Dialect, Document, EncodeOptions, ErrorKind, Fact, FactRole, Form, Indent, ItemFraming, ItemRange, JsonInput, MaterializeOptions, Number,
    ScanRequest, Source, Strictness, Value, ValuePlan, ByteRange, MIN_ITEMS_PER_PART,
};
use structury_json::dialect::NonFinite;

fn number(text: &str) -> Value {
    Value::Number(Number::parse(text).expect("number"))
}

fn text(s: &str) -> Value {
    Value::Str(String::from(s))
}

fn object(members: Vec<(&str, Value)>) -> Value {
    Value::Object(members.into_iter().map(|(key, value)| (String::from(key), value)).collect())
}

fn parsed(src: &[u8], dialect: Dialect) -> Value {
    parse(src, MaterializeOptions::new(dialect, Form::Value)).expect("valid").into_value()
}

fn written(value: &Value, opts: EncodeOptions) -> String {
    String::from_utf8(encode_value(value, &opts).expect("writes")).expect("text")
}

fn sample() -> Value {
    object(vec![
        ("b", Value::Array(vec![number("1.50"), Value::Null])),
        ("a", text("h\u{e9}\n")),
        ("e", Value::Array(vec![])),
        ("o", object(vec![])),
    ])
}

#[test]
fn compact_and_pretty_texts() {
    assert_eq!(written(&sample(), EncodeOptions::compact()), "{\"b\":[1.50,null],\"a\":\"h\u{e9}\\n\",\"e\":[],\"o\":{}}");
    assert_eq!(
        written(&sample(), EncodeOptions::pretty()),
        "{\n  \"b\": [\n    1.50,\n    null\n  ],\n  \"a\": \"h\u{e9}\\n\",\n  \"e\": [],\n  \"o\": {}\n}"
    );
    assert_eq!(written(&Value::Array(vec![Value::Bool(true)]), EncodeOptions::pretty().with_indent(Indent::Tab)), "[\n\ttrue\n]");
}

#[test]
fn keys_are_sorted_and_text_kept_to_ascii_on_request() {
    assert_eq!(
        written(&sample(), EncodeOptions::compact().with_sort_keys(true).with_ascii(true)),
        "{\"a\":\"h\\u00e9\\n\",\"b\":[1.50,null],\"e\":[],\"o\":{}}"
    );
    assert_eq!(written(&text("\u{1f600}\u{7f}"), EncodeOptions::compact().with_ascii(true)), "\"\\ud83d\\ude00\u{7f}\"");
}

#[test]
fn a_written_value_reads_back() {
    for opts in [
        EncodeOptions::compact(),
        EncodeOptions::pretty(),
        EncodeOptions::compact().with_ascii(true),
        EncodeOptions::pretty().with_indent(Indent::Tab).with_dialect(Dialect::Json5),
    ] {
        let out = encode_value(&sample(), &opts).expect("writes");
        assert_eq!(parsed(&out, opts.dialect), sample());
    }
}

#[test]
fn a_parsed_value_survives_encoding() {
    let src = b"{\"a\":[1e400,-0,{\"b\":\"\\u0000\\\"\"}],\"\":{}}";
    let tree = parsed(src, Dialect::Rfc8259);
    let out = encode_value(&tree, &EncodeOptions::compact()).expect("parsed RFC value must encode");
    assert!(validate(&out, Dialect::Rfc8259).is_ok());
    assert_eq!(parsed(&out, Dialect::Rfc8259), tree);
}

#[test]
fn framing_surrounds_the_item() {
    let value = number("1");
    let mut out = Vec::from(&b"0"[..]);
    encode(Source::Value(&value), &EncodeOptions::compact().with_framing(ItemFraming::NdjsonLf), &mut out).expect("writes");
    assert_eq!(out, b"01\n");
    encode(Source::Value(&value), &EncodeOptions::compact().with_framing(ItemFraming::JsonSeq), &mut out).expect("writes");
    assert_eq!(out, b"01\n\x1e1\n");
}

#[test]
fn a_number_without_a_finite_value_needs_json5() {
    let value = Value::Array(vec![Value::Number(Number::NonFinite(NonFinite::NegativeInfinity))]);
    let error = encode_value(&value, &EncodeOptions::compact()).expect_err("refused");
    assert_eq!(error.kind, ErrorKind::NonFiniteNeedsDialect);
    assert_eq!(error.code(), "write");
    assert_eq!(written(&value, EncodeOptions::compact().with_dialect(Dialect::Json5)), "[-Infinity]");
}

#[test]
fn a_value_nested_too_deep_is_refused() {
    let mut value = Value::Null;
    for _ in 0..2000 {
        value = Value::Array(vec![value]);
    }
    let error = encode_value(&value, &EncodeOptions::compact()).expect_err("refused");
    assert_eq!(error.kind, ErrorKind::Limit);
    while let Value::Array(mut items) = value {
        value = items.pop().unwrap_or(Value::Null);
    }
}

fn strict<'src>(src: &'src [u8], dialect: Dialect, facts: bool) -> Document<'src> {
    let demands = [Demand::Whole];
    let request =
        ScanRequest::new(JsonInput::Text, &demands).with_strictness(Strictness::Strict).with_dialect(dialect).with_facts(facts);
    let mut result = scan(src, &request).expect("valid");
    match result.answers.pop() {
        Some(Answer::Document(document)) => document,
        _ => panic!("a document"),
    }
}

#[test]
fn a_validated_document_is_written_as_it_stands() {
    let src = b" { \"a\" : [1.50 , 2] } ";
    let document = strict(src, Dialect::Rfc8259, false);
    assert_eq!(encode_document(&document, &EncodeOptions::compact()).expect("writes"), b"{ \"a\" : [1.50 , 2] }");
    assert_eq!(
        encode_document(&document, &EncodeOptions::compact().with_verbatim(false)).expect("writes"),
        b"{\"a\":[1.50,2]}"
    );
    assert_eq!(
        encode_document(&document, &EncodeOptions::pretty()).expect("writes"),
        b"{\n  \"a\": [\n    1.50,\n    2\n  ]\n}"
    );
}

#[test]
fn comments_are_written_back() {
    let src = b"// lead\n[1, /* two */ 2,] // foot";
    let document = strict(src, Dialect::Jsonc, true);
    for opts in [
        EncodeOptions::compact().with_dialect(Dialect::Jsonc),
        EncodeOptions::compact().with_dialect(Dialect::Jsonc).with_verbatim(false),
        EncodeOptions::pretty().with_dialect(Dialect::Jsonc),
    ] {
        let out = encode_document(&document, &opts).expect("writes");
        assert_eq!(parsed(&out, Dialect::Jsonc), Value::Array(vec![number("1"), number("2")]));
        let written = String::from_utf8(out).expect("text");
        assert!(written.contains("/* two */"), "{written}");
    }
}

#[test]
fn a_document_passes_the_write_gate_only_when_validated() {
    let src = b"[1]";
    let unchecked = Document::from_span(src, ByteRange::try_new(0, 3).expect("a range"));
    let error = encode_document(&unchecked, &EncodeOptions::compact()).expect_err("refused");
    assert_eq!(error.kind, ErrorKind::NotFullyValidated);
    let document = strict(src, Dialect::Jsonc, false);
    let error = encode_document(&document, &EncodeOptions::compact().with_dialect(Dialect::Json5)).expect_err("refused");
    assert_eq!(error.kind, ErrorKind::DialectMismatch);
    assert_eq!(error.code(), "dialect-mismatch");
}

#[test]
fn a_comment_that_is_not_utf8_keeps_its_glyph() {
    let src = b"[1 /* \xff */]";
    let document = strict(src, Dialect::Jsonc, true);
    let facts: &Vec<Fact> = document.facts();
    assert_eq!(facts.len(), 1);
    assert_eq!(facts[0].role, FactRole::CommentLead);
    assert_eq!(facts[0].text, " \u{fffd} ");
    assert_eq!(
        encode_document(&document, &EncodeOptions::compact().with_dialect(Dialect::Jsonc).with_verbatim(false)).expect("writes"),
        b"[1/* \xff */]"
    );
}

#[test]
fn stitched_chunks_equal_the_serial_write() {
    let items: Vec<Value> = (0..2 * MIN_ITEMS_PER_PART + 7).map(|i| number(&format!("{i}"))).collect();
    let value = Value::Array(items);
    for opts in [EncodeOptions::compact(), EncodeOptions::pretty()] {
        let ValuePlan::Chunks(ranges) = plan_encode_value(&value, &opts, 4) else {
            panic!("a large array splits");
        };
        assert_eq!(ranges.len(), 2);
        assert_eq!(ranges[0].lo, 0);
        assert_eq!(ranges[1].hi, 2 * MIN_ITEMS_PER_PART + 7);
        let chunks: Vec<Vec<u8>> = ranges
            .iter()
            .map(|range| {
                let mut out = Vec::new();
                encode_value_chunk(&value, range, &opts, &mut out).expect("writes");
                out
            })
            .collect();
        assert_eq!(stitch_value_chunks(&chunks, &opts), encode_value(&value, &opts).expect("writes"));
    }
}

#[test]
fn small_or_framed_values_are_not_split() {
    let small = Value::Array(vec![Value::Null, Value::Null]);
    assert_eq!(plan_encode_value(&small, &EncodeOptions::compact(), 8), ValuePlan::Serial);
    assert_eq!(plan_encode_value(&Value::Null, &EncodeOptions::compact(), 8), ValuePlan::Serial);
    let mut out = Vec::new();
    let error = encode_value_chunk(
        &Value::Null,
        &ItemRange {
            lo: 0,
            hi: 1,
        },
        &EncodeOptions::compact(),
        &mut out,
    )
    .expect_err("not an array");
    assert_eq!(error.kind, ErrorKind::ChunkNeedsArray);
    let error = encode_value_chunk(
        &small,
        &ItemRange {
            lo: 1,
            hi: 3,
        },
        &EncodeOptions::compact(),
        &mut out,
    )
    .expect_err("past the end");
    assert_eq!(error.kind, ErrorKind::ChunkOutOfBounds);
    assert!(out.is_empty());
}
