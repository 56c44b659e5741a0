use structury_json::answer::Answer;
use structury_json::demand::{Demand, Step, Strictness};
use structury_json::dialect::Dialect;
use structury_json::facts::{collect, Fact, FactRole};
use structury_json::lex::skip::MAX_NESTING;
use structury_json::scan::{scan, JsonInput, ScanRequest};

fn fused(src: &[u8], strictness: Strictness, dialect: Dialect) -> Vec<Fact> {
    let demands = [Demand::Whole];
    let req = ScanRequest::new(JsonInput::Text, &demands)
        .with_strictness(strictness)
        .with_max_nesting(MAX_NESTING)
        .with_dialect(dialect)
        .with_facts(true);
    let result = scan(src, &req).expect("fused scan");
    let Answer::Document(doc) = &result.answers[0] else {
        panic!("fused scan did not yield a document");
    };
    doc.facts().iter().map(Fact::copied).collect()
}

fn assert_fused_matches_oracle(name: &str, src: &[u8], dialect: Dialect) {
    for strictness in [Strictness::Lazy, Strictness::Structure, Strictness::Strict] {
        let oracle = collect(src, 0, src.len(), dialect, matches!(strictness, Strictness::Strict));
        let got = fused(src, strictness, dialect);
        assert_eq!(got, oracle, "{name} {dialect:?} {strictness:?}");
    }
}

/// Cases valid under both JSONC and JSON5, so the dialect axis reads the same trivia.
fn common_cases() -> Vec<(String, Vec<u8>)> {
    vec![
        (
            "lead/interstitial/trail".into(),
            b"// lead\n[ 1/* inner */, 2 ] // trail\n".to_vec(),
        ),
        (
            "leading comment lines".into(),
            b"// a\n// b\n[1,2]// c\n// d\n".to_vec(),
        ),
        ("empty array inline".into(), b"[/* only */]".to_vec()),
        ("empty object inline".into(), b"{ /* only */ }".to_vec()),
        ("key-colon gap".into(), b"{\"a\"/*k*/: /*v*/1}".to_vec()),
        ("after colon".into(), b"{\"a\":/*v*/1}".to_vec()),
        ("before closer".into(), b"{\"a\":1 /* t */}".to_vec()),
        ("after trailing comma".into(), b"{\"a\":1, /* tc */}".to_vec()),
        ("array trailing comma".into(), b"[1, /* c */ ]".to_vec()),
        ("two comments one gap".into(), b"[1/*a*//*b*/,2]".to_vec()),
        ("escaped string".into(), b"[/*a*/\"x\\\"y\"/*b*/,/*c*/2]".to_vec()),
        ("foot then newline".into(), b"{\"a\":1 // foot\n,\"b\":2}".to_vec()),
        (
            "between values object".into(),
            b"{\"a\":1, /* between */ \"b\":2}".to_vec(),
        ),
        ("nested".into(), b"{\"a\":[1,/*b*/2,{\"c\"/*d*/:3}]//e\n}".to_vec()),
        ("users".into(), shape_users()),
        ("wide".into(), shape_wide()),
        ("deep".into(), shape_deep()),
        ("blob".into(), shape_blob()),
    ]
}

/// Sources that only JSON5 accepts, exercising trivia beside JSON5 tokens.
fn json5_cases() -> Vec<(String, Vec<u8>)> {
    vec![
        ("unquoted key".into(), b"{a:1,/*c*/b:'x'}".to_vec()),
        ("hex values".into(), b"[0x1,/*h*/0x2,/*t*/]".to_vec()),
        ("key colon json5".into(), b"{unquoted:/*k*/'v'}".to_vec()),
    ]
}

fn shape_users() -> Vec<u8> {
    let mut out = String::from("// users\n[");
    for i in 0..8 {
        if i > 0 {
            out.push(',');
        }
        if i % 3 == 0 {
            out.push_str("\n// next row\n");
        }
        out.push_str(&format!("/*row*/{{\"id\":{i},\"name\":\"u{i}\"}}"));
    }
    out.push_str("] // end\n");
    out.into_bytes()
}

fn shape_wide() -> Vec<u8> {
    let mut out = String::from("{\n");
    for i in 0..24 {
        if i > 0 {
            out.push_str(",\n");
        }
        if i % 4 == 0 {
            out.push_str("  // field\n");
        }
        out.push_str(&format!("  \"k{i}\": {i} /* v{i} */"));
    }
    out.push_str("\n} // done\n");
    out.into_bytes()
}

fn shape_deep() -> Vec<u8> {
    let mut out = String::new();
    for d in 0..12 {
        out.push('[');
        if d % 2 == 0 {
            out.push_str("/*d*/");
        }
    }
    out.push('1');
    for _ in 0..12 {
        out.push_str("/*u*/]");
    }
    out.into_bytes()
}

fn shape_blob() -> Vec<u8> {
    let blob = "x".repeat(200);
    format!("{{/*pre*/\"data\":\"{blob}\"/*mid*/,/*post*/\"n\":1}} // tail\n").into_bytes()
}

#[test]
fn fused_facts_match_collector() {
    for (name, src) in common_cases() {
        for dialect in [Dialect::Jsonc, Dialect::Json5] {
            assert_fused_matches_oracle(&name, &src, dialect);
        }
    }
    for (name, src) in json5_cases() {
        assert_fused_matches_oracle(&name, &src, Dialect::Json5);
    }
}

/// A keyed `Path` co-demanded with a root `Whole` still matches on the key under
/// the fused facts walk: the Record-only key-skip must not swallow it.
#[test]
fn fused_facts_keep_a_co_demanded_key_path() {
    let src = br#"{"a":1,"b":2}"#;
    let demands = [
        Demand::Whole,
        Demand::path(vec![Step::Key("a".into())]),
        Demand::path(vec![Step::Key("b".into())]),
    ];
    let req = ScanRequest::new(JsonInput::Text, &demands)
        .with_strictness(Strictness::Strict)
        .with_max_nesting(MAX_NESTING)
        .with_dialect(Dialect::Jsonc)
        .with_facts(true);
    let result = scan(src, &req).expect("fused scan");
    let spans: Vec<Option<(usize, usize)>> = result
        .answers
        .iter()
        .map(|answer| match answer {
            Answer::Document(doc) => Some((doc.root().start, doc.root().end)),
            Answer::Missing => None,
            _ => panic!("unexpected answer"),
        })
        .collect();
    assert_eq!(spans, vec![Some((0, 13)), Some((5, 6)), Some((11, 12))]);
}

#[test]
fn facts_name_their_role_and_owner() {
    let src = b"// lead\n{\"a\":1 // foot\n}";
    let facts = collect(src, 0, src.len(), Dialect::Jsonc, true);
    assert_eq!(facts[0].role, FactRole::CommentLead);
    assert_eq!(facts[0].text, " lead");
    assert_eq!(facts[0].owner.start, 8);
    assert!(collect(b"[1]", 0, 3, Dialect::Rfc8259, true).is_empty());
}
