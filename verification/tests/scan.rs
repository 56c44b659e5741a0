use std::sync::atomic::{AtomicU64, AtomicU8};

use structury_json::scan::{scan_traced, scan_traced_controlled};
use structury_json::trace::{AnswerKind, CheckLevel, TraceEvent};
use structury_json::{
    materialize, parse, scan, scan_controlled, scan_each, scan_each_with_issues, validate, Answer, ByteRange, Control, Demand, Dialect, Error,
    ErrorKind, Form, JsonInput, MaterializeOptions, Materialized, Number, Oracle, OracleAnswer, Path, Predicate, Range, ScanRequest,
    Step, Strictness, Value, ValueKind,
};

fn value_in(answer: &Answer<'_>, dialect: Dialect) -> Value {
    materialize(answer, MaterializeOptions::new(dialect, Form::Value))
        .expect("located value")
        .into_value()
}

fn value(answer: &Answer<'_>) -> Value {
    value_in(answer, Dialect::Rfc8259)
}

fn parsed(text: &str) -> Value {
    parse(text.as_bytes(), MaterializeOptions::new(Dialect::Rfc8259, Form::Value))
        .expect("valid text")
        .into_value()
}

fn one(src: &[u8], demand: Demand) -> Result<Value, Error> {
    let demands = [demand];
    let result = scan(src, &ScanRequest::new(JsonInput::Text, &demands))?;
    Ok(value(&result.answers[0]))
}

fn refusal(src: &[u8], dialect: Dialect) -> (ErrorKind, u32) {
    let error = validate(src, dialect).expect_err("refused");
    (error.kind, error.offset)
}

fn key(name: &str) -> Step {
    Step::key(name)
}

fn number(text: &str) -> Value {
    Value::Number(Number::parse(text).expect("number"))
}

#[test]
fn a_nested_value_is_read() {
    let src = br#"{"users":[{"id":1},{"id":2}]}"#;
    let demands = [Demand::Path {
        steps: vec![Step::key("users"), Step::index(1), Step::key("id")],
        nested: None,
    }];
    let request = ScanRequest::new(JsonInput::Text, &demands).with_dialect(Dialect::Rfc8259);
    let result = scan(src, &request).expect("valid JSON");
    let materialized = materialize(&result.answers[0], MaterializeOptions::new(Dialect::Rfc8259, Form::Value)).expect("located value");
    let Materialized::Value(value) = materialized else {
        unreachable!("Form::Value yields a value");
    };
    assert_eq!(value.as_i64(), Some(2));
}

#[test]
fn projected_rows_are_read() {
    let src = br#"{"users":[{"id":1,"name":"a"},{"id":2,"name":"b"}]}"#;
    let demands = [Demand::Project {
        path: Path::key("users"),
        fields: vec!["id".into()],
    }];
    let request = ScanRequest::new(JsonInput::Text, &demands).with_dialect(Dialect::Rfc8259);
    let result = scan(src, &request).expect("valid JSON");
    let rows = value(&result.answers[0]);
    let rows = rows.as_array().expect("projected rows");
    assert_eq!(rows.len(), 2);
    assert_eq!(rows[1].member("id").and_then(Value::as_i64), Some(2));
    assert_eq!(rows[1].member("name"), None);
}

#[test]
fn every_path_equals_the_lookup_in_the_tree() {
    let text = r#" {"a":[[1,2],{"b":null,"b":[true]}],"c":{"d":"e"}} "#;
    let tree = parsed(text);
    let a = tree.member("a").expect("a");
    let cases: Vec<(Vec<Step>, Option<&Value>)> = vec![
        (vec![], Some(&tree)),
        (vec![key("a")], Some(a)),
        (vec![key("a"), Step::index(0), Step::index(1)], a.element(0).and_then(|v| v.element(1))),
        (vec![key("a"), Step::index(-1), key("b"), Step::index(0)], a.element(1).and_then(|v| v.member("b")).and_then(|v| v.element(0))),
        (vec![key("a"), Step::index(2)], None),
        (vec![key("a"), Step::index(-3)], None),
        (vec![key("c"), key("d")], tree.member("c").and_then(|v| v.member("d"))),
        (vec![key("c"), Step::index(0)], None),
        (vec![key("d")], None),
        (vec![Step::index(0)], None),
    ];
    for strictness in [Strictness::Strict, Strictness::Structure, Strictness::Lazy] {
        let demands: Vec<Demand> = cases.iter().map(|(steps, _)| Demand::path(steps.clone())).collect();
        let request = ScanRequest::new(JsonInput::Text, &demands).with_strictness(strictness);
        let result = scan(text.as_bytes(), &request).expect("valid");
        for (answer, (steps, expected)) in result.answers.iter().zip(&cases) {
            match expected {
                Some(found) => assert_eq!(&&value(answer), found, "{steps:?}"),
                None => assert!(matches!(answer, Answer::Missing | Answer::TypeMismatch { .. }), "{steps:?}"),
            }
        }
    }
}

#[test]
fn a_path_descends_into_nested_arrays() {
    let demand = Demand::path(vec![Step::index(0), Step::index(1)]);
    assert_eq!(one(b"[[1,2],[3]]", demand).expect("valid"), number("2"));
}

#[test]
fn missing_is_told_from_null_and_from_a_wrong_kind() {
    let demands = [
        Demand::path(vec![key("a")]),
        Demand::path(vec![key("b")]),
        Demand::path(vec![Step::index(0)]),
    ];
    let result = scan(br#"{"a":null}"#, &ScanRequest::new(JsonInput::Text, &demands)).expect("valid");
    assert_eq!(value(&result.answers[0]), Value::Null);
    assert_eq!(result.answers[1], Answer::Missing);
    assert_eq!(
        result.answers[2],
        Answer::TypeMismatch {
            actual: ValueKind::Object
        }
    );
    for (answer, kind) in [
        (&result.answers[1], ErrorKind::MissingIsNotAValue),
        (&result.answers[2], ErrorKind::MismatchIsNotAValue),
    ] {
        let error = materialize(answer, MaterializeOptions::new(Dialect::Rfc8259, Form::Value)).expect_err("no value");
        assert_eq!(error.kind, kind);
        assert_eq!(error.code(), "invalid-shape");
    }
}

#[test]
fn mismatched_shapes_answer_without_a_panic() {
    let demands = [
        Demand::path(vec![key("nope")]),
        Demand::path(vec![Step::index(0)]),
        Demand::Oracle(Oracle::MemberNames),
        Demand::Collection {
            fields: None,
            nested: None,
        },
    ];
    for src in [&b"1"[..], b"\"s\"", b"null", b"[]", b"{}", b"[1,{}]", b"{\"nope\":1}", b"", b"{", b"[1", b"tru"] {
        let _ = scan(src, &ScanRequest::new(JsonInput::Text, &demands));
    }
}

#[test]
fn oracles_answer_from_the_scan() {
    let src = br#"{"a":[1,[2,3]],"b":"h\u00e9","a2":{}}"#;
    let demands = [
        Demand::Oracle(Oracle::Kind),
        Demand::Oracle(Oracle::Count),
        Demand::Oracle(Oracle::MemberCount),
        Demand::Oracle(Oracle::MemberNames),
        Demand::Oracle(Oracle::HasKey {
            key: String::from("b"),
        }),
        Demand::Oracle(Oracle::HasKey {
            key: String::from("z"),
        }),
        Demand::Path {
            steps: vec![key("b")],
            nested: Some(Box::new(Demand::Oracle(Oracle::StringByteLength))),
        },
        Demand::Path {
            steps: vec![key("a")],
            nested: Some(Box::new(Demand::Oracle(Oracle::Count))),
        },
    ];
    let result = scan(src, &ScanRequest::new(JsonInput::Text, &demands)).expect("valid");
    assert_eq!(result.answers[0], Answer::Oracle(OracleAnswer::Kind(ValueKind::Object)));
    assert_eq!(result.answers[2], Answer::Oracle(OracleAnswer::Count(3)));
    assert_eq!(
        result.answers[3],
        Answer::Oracle(OracleAnswer::MemberNames(vec![String::from("a"), String::from("b"), String::from("a2")]))
    );
    assert_eq!(result.answers[4], Answer::Oracle(OracleAnswer::HasKey(true)));
    assert_eq!(result.answers[5], Answer::Oracle(OracleAnswer::HasKey(false)));
    assert_eq!(result.answers[6], Answer::Oracle(OracleAnswer::StringByteLength(3)));
    assert_eq!(result.answers[7], Answer::Oracle(OracleAnswer::Count(2)));
    let error = materialize(&result.answers[0], MaterializeOptions::new(Dialect::Rfc8259, Form::Owned)).expect_err("an oracle");
    assert_eq!(error.kind, ErrorKind::OracleIsNotAValue);
}

#[test]
fn a_filter_keeps_the_rows_its_predicate_holds_of() {
    let src = br#"[{"n":1,"s":"a"},{"n":2.0,"s":"b"},{"s":"c"},{"n":3,"s":"d"}]"#;
    let rows = |predicate: Predicate| {
        one(
            src,
            Demand::Filter {
                path: Path::root(),
                predicate,
                project: vec![String::from("s")],
            },
        )
        .expect("valid")
    };
    let n = || String::from("n");
    assert_eq!(
        rows(Predicate::Gt {
            field: n(),
            value: number("1")
        }),
        parsed(r#"[{"s":"b"},{"s":"d"}]"#)
    );
    assert_eq!(
        rows(Predicate::Eq {
            field: n(),
            value: number("2")
        }),
        parsed(r#"[{"s":"b"}]"#)
    );
    assert_eq!(
        rows(Predicate::And(
            Box::new(Predicate::Ge {
                field: n(),
                value: number("2")
            }),
            Box::new(Predicate::Not(Box::new(Predicate::Eq {
                field: String::from("s"),
                value: Value::Str(String::from("d"))
            })))
        )),
        parsed(r#"[{"s":"b"}]"#)
    );
}

#[test]
fn a_container_operand_is_refused() {
    let demands = [Demand::Filter {
        path: Path::root(),
        predicate: Predicate::Eq {
            field: String::from("a"),
            value: Value::Array(vec![]),
        },
        project: vec![],
    }];
    let error = scan(b"[]", &ScanRequest::new(JsonInput::Text, &demands)).expect_err("refused");
    assert_eq!(error.kind, ErrorKind::PredicateOperand);
}

#[test]
fn a_slice_counts_from_either_end() {
    let slice = |start: Option<i64>, end: Option<i64>| {
        one(
            b"[0,1,2,3,4]",
            Demand::Slice {
                range: Range {
                    start,
                    end,
                },
                nested: None,
            },
        )
        .expect("valid")
    };
    assert_eq!(slice(Some(1), Some(3)), parsed("[1,2]"));
    assert_eq!(slice(Some(-2), None), parsed("[3,4]"));
    assert_eq!(slice(None, None), parsed("[0,1,2,3,4]"));
    assert_eq!(slice(Some(3), Some(1)), parsed("[]"));
}

#[test]
fn every_refusal_names_its_kind_and_offset() {
    let rfc = Dialect::Rfc8259;
    assert_eq!(refusal(b"", rfc), (ErrorKind::ExpectedValue, 0));
    assert_eq!(refusal(b"{1", rfc), (ErrorKind::ExpectedKey, 1));
    assert_eq!(refusal(b"{\"a\" 1}", rfc), (ErrorKind::ExpectedColon, 5));
    assert_eq!(refusal(b"{\"a\":1 \"b\":2}", rfc), (ErrorKind::ExpectedCommaObject, 7));
    assert_eq!(refusal(b"[1 2]", rfc), (ErrorKind::ExpectedCommaArray, 3));
    assert_eq!(refusal(b"[1,]", rfc), (ErrorKind::TrailingComma, 3));
    assert_eq!(refusal(b"1 2", rfc), (ErrorKind::TrailingContent, 2));
    assert_eq!(refusal(b"\"abc", rfc), (ErrorKind::UnterminatedString, 4));
    assert_eq!(refusal(b"1 /* x", Dialect::Jsonc), (ErrorKind::UnterminatedComment, 2));
    assert_eq!(refusal(b"1 /x", Dialect::Jsonc), (ErrorKind::InvalidComment, 2));
    assert_eq!(refusal(b"1x", rfc), (ErrorKind::InvalidNumber, 1));
    assert_eq!(refusal(b"01", rfc), (ErrorKind::LeadingZeros, 1));
    assert_eq!(refusal(b"1.", rfc), (ErrorKind::IncompleteNumber, 2));
    assert_eq!(refusal(b"nul", rfc), (ErrorKind::InvalidLiteral, 3));
    assert_eq!(refusal(b"\"\\q\"", rfc).0, ErrorKind::InvalidEscape);
    assert_eq!(refusal(b"\"\n\"", rfc), (ErrorKind::ControlInString, 1));
    assert_eq!(refusal(b"\"\\u12g4\"", rfc).0, ErrorKind::InvalidUnicodeEscape);
    assert_eq!(refusal(b"\"\\ud83d\"", rfc).0, ErrorKind::MissingLowSurrogate);
    assert_eq!(refusal(b"\"\\ud83d\\u0041\"", rfc).0, ErrorKind::InvalidSurrogatePair);
    assert_eq!(refusal(b"\"ab\xff\"", rfc), (ErrorKind::Utf8, 3));
    let deep = vec![b'['; 200_000];
    assert_eq!(refusal(&deep, rfc).0, ErrorKind::Limit);
    let error = validate(b"[1 2]", rfc).expect_err("refused");
    assert_eq!((error.code(), error.message()), ("expected-comma", "expected `,` or `]`"));
    assert!(validate(b"[1, /* two */ 2,]", Dialect::Jsonc).is_ok());
    assert!(validate(b"{a: 'b', c: +0x1F, d: -Infinity}", Dialect::Json5).is_ok());
    assert!(validate(b"\xef\xbb\xbf 1 ", rfc).is_ok());
}

#[test]
fn a_nesting_bound_is_kept() {
    let demands = [Demand::Whole];
    let request = ScanRequest::new(JsonInput::Text, &demands).with_max_nesting(2).with_strictness(Strictness::Strict);
    assert!(scan(b"[[1]]", &request).is_ok());
    let error = scan(b"[[[1]]]", &request).expect_err("too deep");
    assert_eq!((error.kind, error.offset), (ErrorKind::Limit, 2));
}

#[test]
fn only_a_strict_scan_checks_what_it_passes_over() {
    let src = br#"{"skipped":"\q","a":1}"#;
    let demands = [Demand::path(vec![key("a")])];
    let request = ScanRequest::new(JsonInput::Text, &demands);
    assert_eq!(value(&scan(src, &request.with_strictness(Strictness::Lazy)).expect("lazy").answers[0]), number("1"));
    assert!(scan(src, &request.with_strictness(Strictness::Strict)).is_err());
}

fn row(field: &str) -> Demand {
    Demand::Project {
        path: Path::root(),
        fields: vec![String::from(field)],
    }
}

#[test]
fn framed_values_are_scanned_one_by_one() {
    let ndjson = b"{\"a\":1}\n{\"b\":2}\n{\"a\":3}\n";
    let adjacent = b"{\"a\":1}{\"b\":2} {\"a\":3}";
    let sequence = b"\x1e{\"a\":1}\n\x1e{\"b\":2}\n\x1e{\"a\":3}\n";
    for (input, src) in [
        (JsonInput::Ndjson, &ndjson[..]),
        (JsonInput::Adjacent, &adjacent[..]),
        (JsonInput::JsonSeq, &sequence[..]),
    ] {
        let rows = [row("a")];
        let mut each = Vec::new();
        scan_each(src, &ScanRequest::new(input, &rows), &mut each).expect("valid");
        assert_eq!(each.len(), 3, "{input:?}");
        assert_eq!(value(&each[0]), parsed("[{\"a\":1}]"));
        assert_eq!(value(&each[1]), parsed("[{}]"));
        assert_eq!(value(&each[2]), parsed("[{\"a\":3}]"));
        let all = scan(src, &ScanRequest::new(input, &rows)).expect("valid");
        assert_eq!(value(&all.answers[0]), parsed("[{\"a\":1},{},{\"a\":3}]"));
        let demands = [Demand::path(vec![Step::index(-1), key("a")]), Demand::Oracle(Oracle::Count)];
        let all = scan(src, &ScanRequest::new(input, &demands)).expect("valid");
        assert_eq!(value(&all.answers[0]), number("3"));
        assert_eq!(all.answers[1], Answer::Oracle(OracleAnswer::Count(3)));
    }
}

#[test]
fn a_malformed_final_record_is_reported() {
    let src = b"\x1e{\"a\":1}\n\x1e{\"a\":3}\n\x1e{\"a\":";
    let rows = [row("a")];
    let request = ScanRequest::new(JsonInput::JsonSeq, &rows);
    let mut visits = Vec::new();
    let issues = scan_each_with_issues(src, &request, &mut visits).expect("recovers");
    assert_eq!(issues.len(), 1);
    assert_eq!(visits.len(), 2);
    scan_each(src, &request, &mut visits).expect("drops");
    assert_eq!(visits.len(), 4);
    assert!(scan_each(b"\x1e{\"a\":\n\x1e{\"a\":3}\n", &request, &mut visits).is_err());
    assert_eq!(visits.len(), 4);
}

#[test]
fn visits_before_a_refusal_are_kept() {
    let src = b"{\"a\":1}\n{\"a\":\n{\"a\":3}\n";
    let rows = [row("a")];
    let mut visits = Vec::new();
    assert!(scan_each(src, &ScanRequest::new(JsonInput::Ndjson, &rows), &mut visits).is_err());
    assert_eq!(visits.len(), 1);
    assert_eq!(value(&visits[0]), parsed("[{\"a\":1}]"));
}

#[test]
fn a_record_ends_with_its_frame() {
    let whole = [Demand::Whole];
    let rows = [row("a")];
    for demands in [&whole, &rows] {
        let lines = ScanRequest::new(JsonInput::Ndjson, demands);
        assert!(scan(b"[1,\n2]\n", &lines).is_err(), "a value split over lines");
        let crowded = scan(b"1 2\n3\n", &lines).expect_err("two values on a line");
        assert_eq!((crowded.kind, crowded.offset), (ErrorKind::TrailingContent, 2));
        let last = scan(b"1\n2 3\n", &lines).expect("recovers");
        assert_eq!(last.issues.len(), 1, "the last line is reported");
        let texts = ScanRequest::new(JsonInput::JsonSeq, demands);
        assert!(scan(b"\x1e[1,\n\x1e2]\n", &texts).is_err(), "a value split over records");
    }
}

fn control() -> Control {
    Control {
        stop: AtomicU8::new(0),
        used: AtomicU64::new(0),
        clock: AtomicU64::new(0),
        ceiling: u64::MAX,
        deadline: None,
    }
}

#[test]
fn a_host_stops_a_scan() {
    let demands = [Demand::Whole];
    let request = ScanRequest::new(JsonInput::Text, &demands).with_strictness(Strictness::Strict);
    let src = b"[1,[2]]";
    let open = scan_controlled(src, &request, &control()).expect("runs");
    assert_eq!(open, scan(src, &request).expect("valid"));
    let cancelled = control();
    cancelled.stop.store(1, std::sync::atomic::Ordering::Relaxed);
    assert_eq!(scan_controlled(src, &request, &cancelled).expect_err("stops").kind, ErrorKind::Cancelled);
    let mut late = control();
    late.deadline = Some(0);
    assert_eq!(scan_controlled(src, &request, &late).expect_err("stops").kind, ErrorKind::DeadlineExceeded);
    let mut full = control();
    full.ceiling = 0;
    assert_eq!(scan_controlled(src, &request, &full).expect_err("stops").kind, ErrorKind::MemoryExceeded);
}

#[test]
fn a_traced_scan_answers_the_same() {
    let src = br#"{"skip":[1,2,3],"a":1}"#;
    let demands = [Demand::path(vec![key("a")]), Demand::path(vec![key("zz")])];
    let request = ScanRequest::new(JsonInput::Text, &demands);
    let plain = scan(src, &request).expect("valid");
    let (traced, trace) = scan_traced(src, &request).expect("valid");
    assert_eq!(traced, plain);
    assert_eq!(trace.counters.demands, 2);
    assert_eq!(trace.counters.answered, 1);
    assert_eq!(
        trace.events,
        vec![
            skip(8, 15, CheckLevel::Locate),
            skip(20, 21, CheckLevel::Values),
            TraceEvent::Mark { demand: 0, kind: AnswerKind::Document, span: ByteRange::try_new(20, 21) },
            TraceEvent::Mark { demand: 1, kind: AnswerKind::Missing, span: None },
        ]
    );
    assert_eq!((trace.counters.skips, trace.counters.skipped_bytes, trace.counters.stops), (2, 8, 0));
    let events = trace.events;
    let (polled, trace) = scan_traced_controlled(src, &request, &control()).expect("valid");
    assert_eq!(polled, plain);
    assert_eq!(trace.events, events, "a second trace records the same");
    assert!(trace.counters.polls >= 1);
}

fn skip(start: usize, end: usize, check: CheckLevel) -> TraceEvent {
    TraceEvent::Skip { start, end, check }
}

#[test]
fn an_early_stop_is_traced() {
    let demands = [Demand::Slice { range: Range { start: Some(0), end: Some(2) }, nested: None }];
    let request = ScanRequest::new(JsonInput::Text, &demands);
    let (_, trace) = scan_traced(b"[1,2,3,4]", &request).expect("valid");
    assert_eq!(
        trace.events,
        vec![
            skip(1, 2, CheckLevel::Values),
            skip(3, 4, CheckLevel::Values),
            TraceEvent::Stop { offset: 4 },
            TraceEvent::Mark { demand: 0, kind: AnswerKind::Columns, span: None },
        ]
    );
    assert_eq!(trace.counters.stops, 1);
    let (_, full) = scan_traced(b"[1,2,3,4]", &request.with_strictness(Strictness::Strict)).expect("valid");
    assert_eq!(full.counters.stops, 0);
    assert_eq!(full.counters.skips, 4);
}

#[test]
fn an_indexed_record_is_traced_last() {
    let src = b"{\"a\":1}\n{\"a\":2}\n";
    let demands = [Demand::path(vec![Step::index(0)]), row("a")];
    let (_, trace) = scan_traced(src, &ScanRequest::new(JsonInput::Ndjson, &demands)).expect("valid");
    assert_eq!(trace.events[..2], [skip(13, 14, CheckLevel::Values), skip(5, 6, CheckLevel::Values)]);
    assert_eq!(trace.events.len(), 4);
    assert_eq!(trace.counters.skips, 2);
}

#[test]
fn a_request_that_reads_nothing_is_never_stopped() {
    let cancelled = control();
    cancelled.stop.store(1, std::sync::atomic::Ordering::Relaxed);
    let whole = [Demand::Whole];
    let text = ScanRequest::new(JsonInput::Text, &whole);
    assert_eq!(scan_controlled(b" ", &text, &cancelled).expect_err("no value").kind, ErrorKind::ExpectedValue);
    let lines = ScanRequest::new(JsonInput::Ndjson, &whole);
    assert_eq!(scan_controlled(b"", &lines, &cancelled), scan(b"", &lines));
}

#[test]
fn a_wider_dialect_accepts_what_a_narrower_one_does() {
    let texts: [&[u8]; 4] = [b" {\"a\":[1,-2.5e3,\"\\u00e9\"]} ", b"[0]", b"\"x\"", b"[1,/*c*/2,]"];
    for text in texts {
        for (narrow, wide) in [(Dialect::Rfc8259, Dialect::Jsonc), (Dialect::Jsonc, Dialect::Json5)] {
            if validate(text, narrow).is_ok() {
                assert!(validate(text, wide).is_ok());
            }
        }
    }
    assert!(validate(texts[3], Dialect::Rfc8259).is_err());
    assert!(validate(texts[3], Dialect::Jsonc).is_ok());
    assert!(validate(texts[3], Dialect::Json5).is_ok());
}

#[test]
fn a_path_is_answered_as_if_alone() {
    let src = br#"{"a":{"b":[1,2]},"c":null}"#;
    let paths = [
        Demand::path(vec![key("a"), key("b"), Step::index(-1)]),
        Demand::path(vec![key("c")]),
        Demand::path(vec![key("a"), key("z")]),
    ];
    let together = scan(src, &ScanRequest::new(JsonInput::Text, &paths)).expect("valid");
    for (i, path) in paths.iter().enumerate() {
        let demands = [path.clone()];
        let alone = scan(src, &ScanRequest::new(JsonInput::Text, &demands)).expect("valid");
        assert_eq!(together.answers[i], alone.answers[0]);
    }
}

#[test]
fn an_element_array_is_one_row_whatever_is_asked_beside() {
    let src = br#"[[{"a":1}]]"#;
    let rows = Demand::Collection { fields: None, nested: Some(Box::new(row("a"))) };
    let inner = Demand::Collection { fields: None, nested: Some(Box::new(Demand::Collection { fields: None, nested: None })) };
    let one = [rows.clone()];
    let both = [rows, inner];
    let alone = scan(src, &ScanRequest::new(JsonInput::Text, &one)).expect("valid");
    let together = scan(src, &ScanRequest::new(JsonInput::Text, &both)).expect("valid");
    assert_eq!(value(&alone.answers[0]), parsed("[{}]"));
    assert_eq!(value(&together.answers[0]), parsed("[{}]"));
    assert_each_alone(src, JsonInput::Text, &both);
}

#[test]
fn a_path_enters_an_element_array_whatever_is_asked_beside() {
    let src = b"[[1,2]]";
    let deep = Demand::path(vec![Step::index(0), Step::index(1)]);
    let first = Path { steps: vec![Step::index(0)] };
    let rows = Demand::Project { path: first.clone(), fields: vec![String::from("a")] };
    let some = Demand::Filter {
        path: first,
        predicate: Predicate::Eq { field: String::from("a"), value: number("1") },
        project: Vec::new(),
    };
    for beside in [rows, some] {
        let demands = [deep.clone(), beside];
        let both = scan(src, &ScanRequest::new(JsonInput::Text, &demands)).expect("valid");
        let Answer::Document(doc) = &both.answers[0] else {
            panic!("no document: {:?}", both.answers[0]);
        };
        assert_eq!(doc.root(), ByteRange { start: 4, end: 5 });
        assert_each_alone(src, JsonInput::Text, &demands);
    }
}

/// Every demand of a request has the answer that it has alone.
fn assert_each_alone(src: &[u8], input: JsonInput, demands: &[Demand]) {
    assert_each_alone_at(src, input, demands, &[Strictness::Lazy, Strictness::Structure, Strictness::Strict]);
}

fn assert_each_alone_at(src: &[u8], input: JsonInput, demands: &[Demand], levels: &[Strictness]) {
    for strictness in levels.iter().copied() {
        let together = scan(src, &ScanRequest::new(input, demands).with_strictness(strictness)).expect("valid");
        for (i, demand) in demands.iter().enumerate() {
            let one = std::slice::from_ref(demand);
            let alone = scan(src, &ScanRequest::new(input, one).with_strictness(strictness)).expect("valid");
            assert_eq!(together.answers[i], alone.answers[0], "{demand:?} {strictness:?} on {src:?}");
        }
    }
}

fn many_demands() -> Vec<Demand> {
    let window = Range { start: Some(0), end: Some(1) };
    let tail = Range { start: Some(-1), end: None };
    vec![
        Demand::Whole,
        Demand::path(vec![Step::index(0), Step::index(1)]),
        Demand::path(vec![key("a"), Step::index(-1)]),
        Demand::path(vec![key("a"), key("b")]),
        Demand::Oracle(Oracle::Kind),
        Demand::Oracle(Oracle::Count),
        Demand::Oracle(Oracle::MemberNames),
        Demand::Oracle(Oracle::HasKey { key: String::from("a") }),
        row("a"),
        row("b"),
        Demand::Project { path: Path { steps: vec![Step::index(0)] }, fields: vec![String::from("a")] },
        Demand::Filter {
            path: Path::root(),
            predicate: Predicate::Eq { field: String::from("a"), value: number("1") },
            project: vec![String::from("b")],
        },
        Demand::Collection { fields: None, nested: None },
        Demand::Collection { fields: Some(vec![String::from("a")]), nested: Some(Box::new(row("b"))) },
        Demand::Slice { range: window, nested: None },
        Demand::Slice { range: window, nested: Some(Box::new(Demand::Collection { fields: None, nested: None })) },
        Demand::Slice { range: tail, nested: Some(Box::new(row("a"))) },
        Demand::Path { steps: vec![key("a")], nested: Some(Box::new(Demand::Slice { range: window, nested: None })) },
    ]
}

#[test]
fn every_demand_on_a_text_is_answered_as_if_alone() {
    let texts: [&[u8]; 7] = [
        br#"[[1,2],{"a":1,"b":[3]},4]"#,
        br#"{"a":{"b":[1,2]},"c":null}"#,
        br#"{"a":[{"a":1,"b":2},{"b":3},[{"a":4}]],"b":5}"#,
        br#"[{"a":1},{"a":2,"b":1},[],{}]"#,
        b"[]",
        b"\"x\"",
        b" 12 ",
    ];
    for text in texts {
        assert_each_alone(text, JsonInput::Text, &many_demands());
    }
}

#[test]
fn every_demand_on_a_stream_is_answered_as_if_alone() {
    let lines = b"{\"a\":1,\"b\":2}\n[{\"a\":1}]\n\n3\n{\"a\":[5]}\n";
    assert_each_alone(lines, JsonInput::Ndjson, &many_demands());
    assert_each_alone(b"{\"a\":1} [1,2] 3", JsonInput::Adjacent, &many_demands());
    assert_each_alone(b"\x1e{\"a\":1}\n\x1e[[1,2]]\n", JsonInput::JsonSeq, &many_demands());
    assert_each_alone(b"", JsonInput::Ndjson, &many_demands());
}

#[test]
fn an_early_stop_reads_the_first_of_a_repeated_key() {
    let src = br#"{"a":[1,2],"a":[3]}"#;
    let window = Demand::Path {
        steps: vec![key("a")],
        nested: Some(Box::new(Demand::Slice { range: Range { start: Some(0), end: Some(1) }, nested: None })),
    };
    let alone = [window.clone()];
    let both = [window, Demand::Oracle(Oracle::Count)];
    let one = scan(src, &ScanRequest::new(JsonInput::Text, &alone)).expect("valid");
    let two = scan(src, &ScanRequest::new(JsonInput::Text, &both)).expect("valid");
    assert_eq!(value(&one.answers[0]), parsed("[1]"));
    assert_eq!(value(&two.answers[0]), parsed("[3]"));
}

#[test]
fn rows_are_answered_as_if_alone() {
    let src = br#"[{"a":1,"b":2},{"b":3},4,{"a":5,"a":6}]"#;
    let asked = [row("a"), row("b"), Demand::Project { path: Path::root(), fields: vec![String::from("b"), String::from("a")] }];
    let together = scan(src, &ScanRequest::new(JsonInput::Text, &asked)).expect("valid");
    for (i, demand) in asked.iter().enumerate() {
        let demands = [demand.clone()];
        let alone = scan(src, &ScanRequest::new(JsonInput::Text, &demands)).expect("valid");
        assert_eq!(value(&together.answers[i]), value(&alone.answers[0]));
    }
    assert_eq!(value(&together.answers[0]), parsed("[{\"a\":1},{},{},{\"a\":6}]"));
}

#[test]
fn a_stop_names_an_offset_of_the_source() {
    let cancelled = control();
    cancelled.stop.store(1, std::sync::atomic::Ordering::Relaxed);
    let src = br#"  [1,{"a":2}]"#;
    let whole = [Demand::Whole];
    let error = scan_controlled(src, &ScanRequest::new(JsonInput::Text, &whole), &cancelled).expect_err("stopped");
    assert_eq!((error.kind, error.offset), (ErrorKind::Cancelled, 2));
    let lines = b"1\n2\n";
    let error = scan_controlled(lines, &ScanRequest::new(JsonInput::Ndjson, &whole), &cancelled).expect_err("stopped");
    assert_eq!((error.kind, error.offset), (ErrorKind::Cancelled, 0));
}

#[test]
fn equal_windows_stop_together_before_a_repeated_key() {
    let src = br#"{"a":[1,2],"a":[3]}"#;
    let window = Demand::Path {
        steps: vec![key("a")],
        nested: Some(Box::new(Demand::Slice { range: Range { start: Some(0), end: Some(1) }, nested: None })),
    };
    assert_each_alone_at(src, JsonInput::Text, &[window.clone(), window.clone()], &[Strictness::Lazy, Strictness::Structure]);
    let late = br#"{"a":5,"a":[1,2,3]}"#;
    assert_each_alone_at(late, JsonInput::Text, &[window, Demand::Oracle(Oracle::Kind)], &[Strictness::Structure]);
}

#[test]
fn a_demand_on_an_early_record_does_not_rest_on_the_last() {
    let src = b"{\"a\":1}\n{\"a\":01}\n";
    let demands = [
        Demand::path(vec![Step::index(0), key("a")]),
        Demand::path(vec![Step::index(1), key("a")]),
    ];
    let both = scan(src, &ScanRequest::new(JsonInput::Ndjson, &demands)).expect("recovered");
    assert_eq!(both.issues.len(), 1);
    let alone = scan(src, &ScanRequest::new(JsonInput::Ndjson, &demands[..1])).expect("valid");
    assert_eq!(both.answers[0], alone.answers[0]);
}
