use structury_json::{
    edit, encode, materialize, parse, scan, Answer, ByteRange, Demand, Dialect, Document, Edit, EditOptions, EncodeOptions, Form, JsonInput,
    MaterializeOptions, Materialized, Number, Oracle, Path, Predicate, ScanRequest, Source, Step, Strictness, Value,
};

const TOKENS: &[&[u8]] = &[
    b"{", b"}", b"[", b"]", b",", b":", b" ", b"\n", b"\"a\"", b"\"k\"", b"\"rows\"", b"\"x\\n\\u0041\"", b"'q'", b"k", b"1", b"-2.5e3",
    b".5", b"0x1F", b"Infinity", b"true", b"false", b"null", b"// c\n", b"/* b */", b"/", b"\"\xff\"", b"\"\\ud83d\\ude00\"", b"[1,2]",
    b"{\"k\":1}", b"[{\"rows\":\"a\"},{\"name\":2}]",
];

/// A few thousand small inputs: token soup, and valid texts with one byte replaced.
fn corpus() -> Vec<Vec<u8>> {
    let mut state = 0x9e37_79b9_7f4a_7c15u64;
    let mut next = move |bound: u64| {
        state ^= state << 13;
        state ^= state >> 7;
        state ^= state << 17;
        (state % bound) as usize
    };
    let mut out: Vec<Vec<u8>> = Vec::new();
    for _ in 0..1500 {
        let mut bytes = Vec::new();
        for _ in 0..next(9) + 1 {
            bytes.extend_from_slice(TOKENS[next(TOKENS.len() as u64)]);
        }
        out.push(bytes);
    }
    let seeds: [&[u8]; 6] = [
        b"{\"k\":[1,2,{\"rows\":[{\"name\":\"x\",\"n\":1}]}],\"b\":null}",
        b"[ {\"k\" : \"v\\n\"} , [ ] , { } , -0 , 1.50 ]",
        b"// lead\n{ \"k\" : /* in */ [1, 2,], // foot\n }",
        b"{k:'v',$x:+1,y:[Infinity,-NaN,0xff,],}",
        b"\xef\xbb\xbf {\"k\":{\"k\":{\"k\":[[[]]]}}} ",
        b"[[1,[2,3]],[\"]\",\"\\\"\"],{\"k\":1,\"k\":2}]",
    ];
    for seed in seeds {
        out.push(seed.to_vec());
        for _ in 0..150 {
            let mut bytes = seed.to_vec();
            let at = next(bytes.len() as u64);
            let token = TOKENS[next(TOKENS.len() as u64)];
            bytes.splice(at..at + 1, token.iter().copied());
            out.push(bytes);
        }
    }
    out
}

fn value(answer: &Answer<'_>) -> Option<Value> {
    materialize(answer, MaterializeOptions::default().with_form(Form::Value)).ok().map(Materialized::into_value)
}

#[test]
fn borrowed_and_owned_views_agree_on_any_input() {
    for data in corpus() {
        let span = ByteRange::try_new(0, data.len()).expect("ordered");
        let answer = Answer::Document(Document::from_span(&data, span));
        let borrowed = materialize(&answer, MaterializeOptions::default().with_form(Form::Borrowed));
        let tape = materialize(&answer, MaterializeOptions::default().with_form(Form::Owned));
        match (borrowed, tape) {
            (Ok(Materialized::Borrowed(view)), Ok(Materialized::Owned(owned))) => {
                assert_eq!(view.to_value(), owned.to_value(), "values disagree on {data:?}");
            }
            (Err(a), Err(b)) => assert_eq!(a, b, "errors disagree on {data:?}"),
            _ => panic!("acceptance disagrees on {data:?}"),
        }
    }
}

#[test]
fn a_strict_document_that_encodes_parses_again() {
    let demand = [Demand::Whole];
    for data in corpus() {
        for dialect in [Dialect::Jsonc, Dialect::Json5] {
            let request =
                ScanRequest::new(JsonInput::Text, &demand).with_strictness(Strictness::Strict).with_dialect(dialect).with_facts(true);
            let Ok(result) = scan(&data, &request) else {
                continue;
            };
            let Answer::Document(document) = &result.answers[0] else {
                continue;
            };
            for opts in [
                EncodeOptions::compact().with_dialect(dialect),
                EncodeOptions::compact().with_dialect(dialect).with_verbatim(false),
                EncodeOptions::pretty().with_dialect(dialect),
            ] {
                let mut out = Vec::new();
                encode(Source::Document(document), &opts, &mut out).expect("a validated document encodes");
                assert!(scan(&out, &request).is_ok(), "{data:?} wrote {out:?}");
                let options = MaterializeOptions::new(dialect, Form::Value);
                if let Ok(before) = parse(&data, options) {
                    let after = parse(&out, options).expect("reads back");
                    assert_eq!(after.into_value(), before.into_value(), "{data:?} wrote {out:?}");
                }
            }
            let other = if dialect == Dialect::Jsonc { Dialect::Json5 } else { Dialect::Rfc8259 };
            let mut out = Vec::new();
            let error =
                encode(Source::Document(document), &EncodeOptions::compact().with_dialect(other), &mut out).expect_err("another dialect");
            assert_eq!(error.code(), "dialect-mismatch");
        }
    }
}

#[test]
fn an_edit_that_succeeds_leaves_strictly_valid_text() {
    let demand = [Demand::Whole];
    let key = || vec![Step::key("k")];
    let edits: Vec<Vec<Edit>> = vec![
        vec![Edit::Assign {
            path: key(),
            value: Value::Str(String::from("v")),
        }],
        vec![Edit::Insert {
            path: vec![Step::Index(0)],
            value: Value::Null,
        }],
        vec![Edit::Delete { path: key() }],
        vec![Edit::ReplaceMember {
            path: key(),
            key: String::from("kk"),
            value: Value::Bool(true),
        }],
        vec![Edit::Clear { path: Vec::new() }],
        vec![
            Edit::Delete {
                path: vec![Step::Index(0)],
            },
            Edit::Insert {
                path: vec![Step::Index(1)],
                value: Value::Null,
            },
        ],
    ];
    for data in corpus() {
        for dialect in [Dialect::Json5, Dialect::Jsonc, Dialect::Rfc8259] {
            for list in &edits {
                let Ok(out) = edit(&data, list, EditOptions::default().with_dialect(dialect)) else {
                    continue;
                };
                let request = ScanRequest::new(JsonInput::Text, &demand).with_strictness(Strictness::Strict).with_dialect(dialect);
                assert!(scan(&out, &request).is_ok(), "{data:?} became {out:?}");
            }
        }
    }
}

#[test]
fn a_parsed_value_encodes_and_reads_back() {
    let demand = [Demand::Whole];
    let request = ScanRequest::new(JsonInput::Text, &demand).with_strictness(Strictness::Strict);
    for data in corpus() {
        let Ok(result) = scan(&data, &request) else {
            continue;
        };
        let Some(tree) = value(&result.answers[0]) else {
            continue;
        };
        let mut out = Vec::new();
        encode(Source::Value(&tree), &EncodeOptions::compact(), &mut out).expect("a parsed value encodes");
        let decoded = scan(&out, &request).expect("an encoded value scans strictly");
        assert_eq!(value(&decoded.answers[0]), Some(tree));
    }
}

#[test]
fn a_path_mark_equals_the_lookup_in_the_tree() {
    let demand = [Demand::Whole];
    let strict = ScanRequest::new(JsonInput::Text, &demand).with_strictness(Strictness::Strict);
    let paths = [Demand::path(vec![Step::index(0)]), Demand::path(vec![Step::key("k")]), Demand::path(vec![Step::index(0), Step::index(1)])];
    for data in corpus() {
        let Ok(result) = scan(&data, &strict) else {
            continue;
        };
        let Some(tree) = value(&result.answers[0]) else {
            continue;
        };
        let found = scan(&data, &ScanRequest::new(JsonInput::Text, &paths)).expect("valid");
        let expected = [tree.element(0), tree.member("k"), tree.element(0).and_then(|inner| inner.element(1))];
        for (answer, expected) in found.answers.iter().zip(expected) {
            match answer {
                Answer::Missing | Answer::TypeMismatch { .. } => assert!(expected.is_none(), "{data:?}"),
                mark => assert_eq!(value(mark).as_ref(), expected, "{data:?}"),
            }
        }
    }
}

#[test]
fn filters_projections_and_oracles_never_panic() {
    let rows = || String::from("rows");
    let path = || Path::key("rows");
    let predicates = [
        Predicate::Eq {
            field: rows(),
            value: Value::Str(String::from("a")),
        },
        Predicate::Gt {
            field: rows(),
            value: Value::Number(Number::parse("1").expect("a number")),
        },
        Predicate::And(
            Box::new(Predicate::Ne {
                field: rows(),
                value: Value::Null,
            }),
            Box::new(Predicate::Not(Box::new(Predicate::Lt {
                field: rows(),
                value: Value::Bool(true),
            }))),
        ),
    ];
    let mut demands = vec![
        Demand::Project {
            path: path(),
            fields: vec![String::from("name")],
        },
        Demand::Oracle(Oracle::MemberNames),
        Demand::Oracle(Oracle::Count),
        Demand::Whole,
    ];
    for predicate in predicates {
        demands.push(Demand::Filter {
            path: path(),
            predicate,
            project: vec![String::from("name"), String::from("n")],
        });
    }
    for data in corpus() {
        for dialect in [Dialect::Json5, Dialect::Jsonc, Dialect::Rfc8259] {
            for strictness in [Strictness::Strict, Strictness::Structure, Strictness::Lazy] {
                for facts in [false, true] {
                    let request =
                        ScanRequest::new(JsonInput::Text, &demands).with_strictness(strictness).with_dialect(dialect).with_facts(facts);
                    if let Ok(result) = scan(&data, &request) {
                        assert_eq!(result.answers.len(), demands.len());
                    }
                }
            }
        }
        for input in [JsonInput::Adjacent, JsonInput::Ndjson, JsonInput::JsonSeq] {
            let _ = scan(&data, &ScanRequest::new(input, &demands));
        }
    }
}
