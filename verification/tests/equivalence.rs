use std::sync::atomic::{AtomicU64, AtomicU8};

use structury_json::scan::scan_traced;
use structury_json::{
    scan, scan_controlled, validate, Answer, Control, Demand, Dialect, JsonInput, Number, Oracle, Path, Predicate, Range, ScanRequest, Step,
    Strictness, Value,
};

/// The traced walk and the controlled walk must answer exactly like the plain walk:
/// same success, same marks, same refusal. A Strict walk accepts what is valid. The lexer
/// of a wider dialect answers a valid text as the RFC 8259 lexer does.
fn assert_walks_agree(src: &[u8], demand: &Demand) {
    let open = Control {
        stop: AtomicU8::new(0),
        used: AtomicU64::new(0),
        clock: AtomicU64::new(0),
        ceiling: u64::MAX,
        deadline: None,
    };
    for strictness in [Strictness::Lazy, Strictness::Structure, Strictness::Strict] {
        let one = std::slice::from_ref(demand);
        let request = ScanRequest::new(JsonInput::Text, one).with_strictness(strictness).with_dialect(Dialect::Rfc8259);
        let plain = scan(src, &request);
        let polled = scan_controlled(src, &request, &open);
        assert_eq!(polled, plain, "controlled walk differs for {demand:?} {strictness:?} on {src:?}");
        match (scan_traced(src, &request), &plain) {
            (Ok((traced, _)), Ok(answers)) => {
                assert_eq!(&traced, answers, "traced walk differs for {demand:?} {strictness:?} on {src:?}");
            }
            (Err(traced), Err(refused)) => {
                assert_eq!(&traced, refused, "traced error differs for {demand:?} {strictness:?} on {src:?}");
            }
            (traced, answers) => {
                panic!("success differs for {demand:?} {strictness:?} on {src:?}: traced={traced:?} plain={answers:?}")
            }
        }
        let valid = validate(src, Dialect::Rfc8259).is_ok();
        if strictness == Strictness::Strict {
            assert_eq!(plain.is_ok(), valid, "strict acceptance differs for {demand:?} on {src:?}");
        }
        if valid {
            let wide = scan(src, &request.with_dialect(Dialect::Jsonc)).expect("RFC 8259 text is JSONC text");
            let plain = plain.expect("valid text");
            assert_eq!(plain.answers.len(), wide.answers.len());
            for (narrow, wide) in plain.answers.iter().zip(wide.answers.iter()) {
                assert_same_place(narrow, wide, &format!("{demand:?} {strictness:?} on {src:?}"));
            }
        }
    }
}

/// Two answers that differ at most in the grammar that validated them.
fn assert_same_place(narrow: &Answer<'_>, wide: &Answer<'_>, what: &str) {
    match (narrow, wide) {
        (Answer::Document(narrow), Answer::Document(wide)) => {
            assert_eq!(narrow.root(), wide.root(), "span differs for {what}");
        }
        (narrow, wide) => assert_eq!(narrow, wide, "answer differs for {what}"),
    }
}

fn spaced_boundaries(src: &[u8], trivia: &[u8]) -> Vec<Vec<u8>> {
    let punct = |byte: u8| matches!(byte, b'{' | b'}' | b'[' | b']' | b':' | b',');
    let mut variants = Vec::new();
    for i in 0..=src.len() {
        if (i > 0 && punct(src[i - 1])) || src.get(i).is_some_and(|byte| punct(*byte)) {
            let mut variant = Vec::with_capacity(src.len() + trivia.len());
            variant.extend_from_slice(&src[..i]);
            variant.extend_from_slice(trivia);
            variant.extend_from_slice(&src[i..]);
            variants.push(variant);
        }
    }
    variants
}

#[test]
fn spaced_boundaries_match_dialect_lex() {
    let bases: &[&[u8]] = &[
        br#"{"a":1}"#,
        br#"{"a":[1,2],"b":{"c":true}}"#,
        br#"[{"x":"y"},null,false,1.5]"#,
        br#"{"e":{},"f":[]}"#,
    ];
    let demands: &[Demand] = &[
        Demand::Whole,
        Demand::path(vec![Step::Key("a".into())]),
        Demand::path(vec![Step::Key("b".into()), Step::Key("c".into())]),
        Demand::Oracle(Oracle::Count),
        Demand::Project {
            path: Path::root(),
            fields: vec!["a".into(), "b".into()],
        },
    ];
    for base in bases {
        for trivia in [&b" "[..], b"\t", b"\n", b"\r", b"  \n"] {
            for src in spaced_boundaries(base, trivia) {
                for demand in demands {
                    assert_walks_agree(&src, demand);
                }
            }
        }
    }
}

#[test]
fn rfc_scan_answers_match_dialect_lex_on_rfc_inputs() {
    const ALPHABET: &[u8] = b"{}[],:\"\\ \t\n0123456789.eE+-truefalsn abrowsid";
    const TOKENS: &[&[u8]] = &[
        b"{",
        b"}",
        b"[",
        b"]",
        b",",
        b":",
        b" ",
        b"\t",
        b"\n",
        b"\"a\"",
        b"\"\"",
        b"\"x\\n\"",
        b"1",
        b"-2",
        b".5",
        b"1e3",
        b"01",
        b"-",
        b"+1",
        b"e",
        b"true",
        b"false",
        b"null",
        b"\"\\u0041\"",
        b"\"\xff\"",
        b"0",
        b"9",
        b"-\"a\"",
    ];
    let demands: Vec<Demand> = vec![
        Demand::Whole,
        Demand::path(vec![Step::Key("a".into())]),
        Demand::path(vec![Step::Index(0)]),
        Demand::Oracle(Oracle::Kind),
        Demand::Oracle(Oracle::Count),
        Demand::Oracle(Oracle::DescendCount),
        Demand::Oracle(Oracle::MemberNames),
        Demand::Oracle(Oracle::MemberCount),
        Demand::Oracle(Oracle::HasKey { key: "a".into() }),
        Demand::Project {
            path: Path::root(),
            fields: vec!["a".into(), "b".into()],
        },
        Demand::Collection {
            fields: None,
            nested: None,
        },
        Demand::Filter {
            path: Path::root(),
            predicate: Predicate::Eq {
                field: "a".into(),
                value: Value::Bool(true),
            },
            project: vec!["a".into()],
        },
        Demand::Filter {
            path: Path::root(),
            predicate: Predicate::Gt {
                field: "a".into(),
                value: Value::Number(Number::parse("2").expect("2")),
            },
            project: vec!["b".into()],
        },
        Demand::Slice {
            range: Range {
                start: Some(0),
                end: Some(2),
            },
            nested: Some(Box::new(Demand::Project {
                path: Path::root(),
                fields: vec!["a".into()],
            })),
        },
        Demand::Path {
            steps: vec![Step::Key("rows".into())],
            nested: Some(Box::new(Demand::Slice {
                range: Range {
                    start: Some(0),
                    end: Some(2),
                },
                nested: Some(Box::new(Demand::Project {
                    path: Path::root(),
                    fields: vec!["id".into()],
                })),
            })),
        },
    ];
    let fixed: &[&[u8]] = &[
        b"",
        b" ",
        b"null",
        b"true",
        b"false",
        b"0123",
        b"1.",
        b"1e",
        b"01",
        b"{}",
        b"[]",
        b"{\"a\":1}",
        b"{\"a\":1,}",
        b"{,}",
        b"[1,2,3]",
        b"[1,2,]",
        b"[[[[[[1]]]]]]",
        b"{\"a\":[{\"b\":true},null],\"c\":\"x\\ny\"}",
        b"{\"rows\":[{\"id\":1},{\"id\":2},{\"id\":3}]}",
        b"\"a\\u0041b\"",
        b"\"unterminated",
        b"\"\\\"\"",
        b"{\"a\":}",
        b"{\"a\" 1}",
        b"{\"a\":1 \"b\":2}",
        b"{\"a\":\"\\ud83d\\ude00\"}",
        b"{\"a\":\"\\ud83d\"}",
        b"[true,false,null,0,-0.5e10]",
        b"\"caf\xc3\xa9\"",
        b"\"\xff\"",
        b"{\"a\":1,\"a\":2}",
        b"{\"\\u0061\":1}",
        b".0",
        b"+1",
        b"e5",
        b"-.5",
        b"-e0",
        b"[.0,+1,e5]",
        b"{\"a\":.5}",
        b"{\"a\":+1}",
        b"{\"a\":-]",
        b"-",
        b"[-]",
    ];
    let mut state = 0x243f_6a88_85a3_08d3u64;
    let mut corpus: Vec<Vec<u8>> = fixed.iter().map(|s| s.to_vec()).collect();
    for _ in 0..3000 {
        state ^= state << 13;
        state ^= state >> 7;
        state ^= state << 17;
        let len = (state % 40) as usize;
        let mut bytes = Vec::with_capacity(len);
        for _ in 0..len {
            state ^= state << 13;
            state ^= state >> 7;
            state ^= state << 17;
            bytes.push(ALPHABET[usize::try_from(state % ALPHABET.len() as u64).unwrap_or(0)]);
        }
        corpus.push(bytes);
    }
    // Token-level generation reaches value-start dispatches the byte
    // generator rarely hits (`.5` after `:`, `-e0` at a member value).
    for _ in 0..4000 {
        state ^= state << 13;
        state ^= state >> 7;
        state ^= state << 17;
        let count = (state % 12) as usize + 1;
        let mut bytes = Vec::new();
        for _ in 0..count {
            state ^= state << 13;
            state ^= state >> 7;
            state ^= state << 17;
            bytes.extend_from_slice(TOKENS[usize::try_from(state % TOKENS.len() as u64).unwrap_or(0)]);
        }
        corpus.push(bytes);
    }
    for src in &corpus {
        for demand in &demands {
            assert_walks_agree(src, demand);
        }
    }
}
