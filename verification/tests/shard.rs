use structury_json::{
    materialize, scan, Answer, ByteRange, Demand, Dialect, ErrorKind, Form, JsonInput, MaterializeOptions, Oracle, OracleAnswer, Path, Plan,
    ScanRequest, Step, Value,
};

fn rows(answer: &Answer<'_>) -> Vec<Value> {
    let value = materialize(answer, MaterializeOptions::new(Dialect::Rfc8259, Form::Value)).expect("rows").into_value();
    match value {
        Value::Array(items) => items,
        _ => panic!("an array"),
    }
}

fn count(answer: &Answer<'_>) -> u64 {
    match answer {
        Answer::Oracle(OracleAnswer::Count(n)) => *n,
        _ => panic!("a count"),
    }
}

fn table(n: usize) -> Vec<u8> {
    let mut src = String::from("{\"skip\":[\"]\",{}],\"rows\":[");
    for i in 0..n {
        if i > 0 {
            src.push_str(" , ");
        }
        src.push_str(&format!("{{\"id\":{i},\"s\":\"a,]\\\"{i}\",\"x\":[{i},[]]}}"));
    }
    src.push_str("],\"after\":1}");
    src.into_bytes()
}

fn demands() -> Vec<Demand> {
    vec![
        Demand::Project {
            path: Path::key("rows"),
            fields: vec![String::from("id")],
        },
        Demand::Path {
            steps: vec![Step::key("rows")],
            nested: Some(Box::new(Demand::Oracle(Oracle::Count))),
        },
    ]
}

#[test]
fn parts_fold_to_the_serial_answers() {
    let src = table(40);
    let demands = demands();
    let request = ScanRequest::new(JsonInput::Text, &demands);
    let serial = scan(&src, &request).expect("valid");
    let plan = Plan::build(&src, &request).expect("plans");
    assert_eq!(plan.elements(), 40);
    for target in [1, 100, 400] {
        let ranges = plan.ranges(target);
        assert!(ranges.len() > 1);
        let mut all = Vec::new();
        let mut total = 0;
        for range in &ranges {
            let part = plan.scan(&src, *range).expect("valid part");
            all.extend(rows(&part.answers[0]));
            total += count(&part.answers[1]);
        }
        assert_eq!(all, rows(&serial.answers[0]));
        assert_eq!(total, count(&serial.answers[1]));
    }
    assert_eq!(plan.ranges(1 << 20).len(), 1);
}

#[test]
fn host_summaries_name_the_same_elements() {
    let src = table(40);
    let demands = demands();
    let request = ScanRequest::new(JsonInput::Text, &demands);
    let plan = Plan::build(&src, &request).expect("plans");
    let start = Plan::array_start(&src, &request).expect("resolves").expect("an array");
    assert_eq!(src[start], b'[');
    for block in [1, 7, 64, 5000] {
        let mut summaries = Vec::new();
        let mut at = start + 1;
        while at < src.len() {
            let end = if at + block < src.len() { at + block } else { src.len() };
            summaries.push(Plan::cut(&src, ByteRange::try_new(at, end).expect("a range")));
            at = end;
        }
        let hosted = Plan::from_summaries(&src, start, &summaries, &request);
        assert_eq!(hosted.elements(), plan.elements());
        assert_eq!(hosted.ranges(200), plan.ranges(200));
        assert_eq!(Plan::host_ranges(&src, &request, &summaries, 200).expect("ranges"), plan.ranges(200));
    }
}

#[test]
fn a_request_that_does_not_split_is_one_range() {
    let src = b"[1,2,3]";
    let demands = [Demand::Whole];
    let request = ScanRequest::new(JsonInput::Text, &demands);
    let plan = Plan::build(src, &request).expect("plans");
    assert_eq!(plan.elements(), 0);
    let ranges = plan.ranges(1);
    assert_eq!(ranges, vec![ByteRange::try_new(0, 7).expect("a range")]);
    assert_eq!(plan.scan(src, ranges[0]).expect("valid"), scan(src, &request).expect("valid"));
}

#[test]
fn a_plan_refuses_what_the_serial_scan_refuses() {
    let demands = [Demand::Oracle(Oracle::Count)];
    let request = ScanRequest::new(JsonInput::Text, &demands);
    assert_eq!(Plan::build(b"[1,2,\"x]", &request).expect_err("open string").kind, ErrorKind::UnterminatedString);
    assert_eq!(Plan::build(b"[1,2,3] 4", &request).expect_err("trailing").kind, ErrorKind::TrailingContent);
    let plan = Plan::build(b"[1,2,3]", &request).expect("plans");
    let error = plan.scan(b"[1,2,3]", ByteRange::try_new(9, 12).expect("a range")).expect_err("past the source");
    assert_eq!(error.kind, ErrorKind::RangePastSource);
}

#[test]
fn a_later_duplicate_array_is_the_one_that_is_cut() {
    let src = b"{\"rows\":[{\"id\":1},{\"id\":2}],\"rows\":[{\"id\":3},{\"id\":4},{\"id\":5}]}";
    let demands = [Demand::Project {
        path: Path::key("rows"),
        fields: vec![String::from("id")],
    }];
    let request = ScanRequest::new(JsonInput::Text, &demands);
    let plan = Plan::build(src, &request).expect("plans");
    assert_eq!(plan.elements(), 3);
    let mut all = Vec::new();
    for range in plan.ranges(1) {
        all.extend(rows(&plan.scan(src, range).expect("valid part").answers[0]));
    }
    assert_eq!(all, rows(&scan(src, &request).expect("valid").answers[0]));
}

#[test]
fn framed_streams_split_at_their_frames() {
    let src = b"{\"id\":1}\n{\"id\":2}\n{\"id\":3}\n";
    let demands = [
        Demand::Project {
            path: Path::root(),
            fields: vec![String::from("id")],
        },
        Demand::Oracle(Oracle::Count),
    ];
    let request = ScanRequest::new(JsonInput::Ndjson, &demands);
    let serial = scan(src, &request).expect("valid");
    let plan = Plan::build(src, &request).expect("plans");
    let mut all = Vec::new();
    let mut total = 0;
    for range in plan.ranges(1) {
        let part = plan.scan(src, range).expect("valid part");
        all.extend(rows(&part.answers[0]));
        total += count(&part.answers[1]);
    }
    assert_eq!(all, rows(&serial.answers[0]));
    assert_eq!(total, count(&serial.answers[1]));
}

#[test]
fn root_rows_and_counts_fold_whatever_the_part_size() {
    let src = br#" [{"id":1,"s":"],"},[1,{"id":9}],{"id":null} , 4 ,{"x":{"id":5}}] "#;
    let rows_only = [Demand::Project {
        path: Path::root(),
        fields: vec![String::from("id"), String::from("s")],
    }];
    let count_only = [Demand::Oracle(Oracle::Count)];
    for target in 1..80 {
        let request = ScanRequest::new(JsonInput::Text, &rows_only);
        let plan = Plan::build(src, &request).expect("plans");
        assert_eq!(plan.elements(), 5);
        let mut all = Vec::new();
        for range in plan.ranges(target) {
            all.extend(rows(&plan.scan(src, range).expect("valid part").answers[0]));
        }
        assert_eq!(all, rows(&scan(src, &request).expect("valid").answers[0]));
        let request = ScanRequest::new(JsonInput::Text, &count_only);
        let plan = Plan::build(src, &request).expect("plans");
        let total: u64 = plan.ranges(target).iter().map(|range| count(&plan.scan(src, *range).expect("valid part").answers[0])).sum();
        assert_eq!(total, 5);
    }
}

#[test]
fn blocks_that_begin_anywhere_name_the_elements() {
    let src = br#"["a]\",", [1, {"b": "}"}], "\\", {"c": [[],"x,y"]}]"#;
    let demands = [Demand::Oracle(Oracle::Count)];
    let request = ScanRequest::new(JsonInput::Text, &demands);
    let plan = Plan::build(src, &request).expect("plans");
    assert_eq!(plan.elements(), 4);
    for first in 1..src.len() {
        for second in first..src.len() {
            let cuts = [(1, first), (first, second), (second, src.len())];
            let summaries: Vec<_> =
                cuts.iter().map(|(from, to)| Plan::cut(src, ByteRange::try_new(*from, *to).expect("a range"))).collect();
            let hosted = Plan::from_summaries(src, 0, &summaries, &request);
            assert_eq!(hosted.ranges(1), plan.ranges(1), "{first} {second}");
        }
    }
}

#[test]
fn the_array_of_an_indexed_path_is_the_inner_one() {
    let src = br#"{"r":[[1,2]]}"#;
    let demands = [Demand::Path {
        steps: vec![Step::key("r"), Step::index(0)],
        nested: Some(Box::new(Demand::Collection { fields: None, nested: None })),
    }];
    let request = ScanRequest::new(JsonInput::Text, &demands);
    assert_eq!(Plan::array_start(src, &request).expect("resolves"), Some(6));
}

#[test]
fn several_row_demands_fold_from_their_parts() {
    let src = br#"[{"id":1,"s":"a"},2,{"s":"b"},{"id":3,"x":[4,[5]]},{"id":6}]"#;
    let asked: Vec<Demand> = ["id", "s"]
        .iter()
        .map(|field| Demand::Project { path: Path::root(), fields: vec![String::from(*field)] })
        .collect();
    let request = ScanRequest::new(JsonInput::Text, &asked);
    let serial = scan(src, &request).expect("valid");
    let plan = Plan::build(src, &request).expect("plans");
    for target in [1, 10, 1000] {
        let parts = plan.ranges(target);
        for j in 0..asked.len() {
            let mut folded = Vec::new();
            for part in &parts {
                folded.extend(rows(&plan.scan(src, *part).expect("scans").answers[j]));
            }
            assert_eq!(folded, rows(&serial.answers[j]));
        }
    }
    assert_eq!(rows(&serial.answers[0]).len(), 5);
}

#[test]
fn each_demand_folds_beside_the_others() {
    let src = br#"[{"id":1,"s":"a"},2,[{"id":7}],{"id":3,"x":[4,[5]]},{"id":6}]"#;
    let asked = [
        Demand::Oracle(Oracle::Count),
        Demand::Project { path: Path::root(), fields: vec![String::from("id")] },
        Demand::Collection { fields: None, nested: None },
    ];
    let request = ScanRequest::new(JsonInput::Text, &asked);
    let serial = scan(src, &request).expect("valid");
    let plan = Plan::build(src, &request).expect("plans");
    for (i, demand) in asked.iter().enumerate() {
        let one = std::slice::from_ref(demand);
        let alone = Plan::build(src, &ScanRequest::new(JsonInput::Text, one)).expect("plans");
        assert_eq!(alone.ranges(1), plan.ranges(1));
        for range in plan.ranges(1) {
            let part = plan.scan(src, range).expect("valid part");
            assert_eq!(part.answers[i], alone.scan(src, range).expect("valid part").answers[0]);
        }
    }
    for target in 1..70 {
        let mut total = 0;
        let mut found = Vec::new();
        let mut items = Vec::new();
        for range in plan.ranges(target) {
            let part = plan.scan(src, range).expect("valid part");
            total += count(&part.answers[0]);
            found.extend(rows(&part.answers[1]));
            items.extend(rows(&part.answers[2]));
        }
        assert_eq!(total, 5);
        assert_eq!(found, rows(&serial.answers[1]));
        assert_eq!(items, rows(&serial.answers[2]));
    }
}

/// Counts and rows of the parts of a plan, folded, are those of one scan.
fn assert_parts_fold(src: &[u8], request: &ScanRequest<'_>, targets: &[usize]) {
    let rows = |answer: &Answer<'_>| -> Vec<Value> {
        match materialize(answer, MaterializeOptions::new(request.dialect, Form::Value)).expect("rows").into_value() {
            Value::Array(items) => items,
            other => panic!("no rows: {other:?}"),
        }
    };
    let serial = scan(src, request).expect("valid");
    let plan = Plan::build(src, request).expect("plans");
    for target in targets {
        let parts: Vec<_> = plan.ranges(*target).iter().map(|range| plan.scan(src, *range).expect("valid part")).collect();
        for (i, whole) in serial.answers.iter().enumerate() {
            match whole {
                Answer::Oracle(_) => {
                    let total: u64 = parts.iter().map(|part| count(&part.answers[i])).sum();
                    assert_eq!(total, count(whole), "demand {i} by {target}");
                }
                _ => {
                    let all: Vec<Value> = parts.iter().flat_map(|part| rows(&part.answers[i])).collect();
                    assert_eq!(all, rows(whole), "demand {i} by {target}");
                }
            }
        }
    }
}

fn on_array(steps: Vec<Step>) -> Vec<Demand> {
    let behind = |inner: Demand| Demand::Path { steps: steps.clone(), nested: Some(Box::new(inner)) };
    vec![
        behind(Demand::Oracle(Oracle::Count)),
        behind(Demand::Collection { fields: None, nested: None }),
        behind(Demand::Collection { fields: Some(vec![String::from("id")]), nested: None }),
        behind(Demand::Collection { fields: None, nested: Some(Box::new(Demand::path(vec![Step::key("id")]))) }),
        behind(Demand::Collection { fields: None, nested: Some(Box::new(Demand::Oracle(Oracle::Kind))) }),
        behind(Demand::Project { path: Path::root(), fields: vec![String::from("id")] }),
        Demand::Project { path: Path { steps: steps.clone() }, fields: vec![String::from("s"), String::from("id")] },
    ]
}

#[test]
fn arrays_behind_a_path_fold_in_every_dialect() {
    let plain = br#"{"a":7,"a":{"rows":[{"id":1},[2],{"id":3,"s":"],"},4]},"b":[]}"#;
    let comments = b"// c\n{\"a\": {\"rows\": [ {\"id\":1} /* ] */, [2,], // , \n {\"id\":3}, 4, /* end */ ]}}";
    let keys = on_array(vec![Step::key("a"), Step::key("rows")]);
    let targets: Vec<usize> = (1..40).collect();
    for demand in &keys {
        let one = std::slice::from_ref(demand);
        assert_parts_fold(plain, &ScanRequest::new(JsonInput::Text, one), &targets);
        assert_parts_fold(comments, &ScanRequest::new(JsonInput::Text, one).with_dialect(Dialect::Jsonc), &targets);
    }
    assert_parts_fold(plain, &ScanRequest::new(JsonInput::Text, &keys).with_max_nesting(4), &targets);
    assert_parts_fold(comments, &ScanRequest::new(JsonInput::Text, &keys).with_dialect(Dialect::Json5), &targets);
    let plan = Plan::build(comments, &ScanRequest::new(JsonInput::Text, &keys).with_dialect(Dialect::Jsonc)).expect("plans");
    assert!(plan.ranges(1).len() > 3);
}

#[test]
fn arrays_inside_arrays_fold() {
    let src = br#"{"r":[[{"id":0}],{"x":[{"id":1},{"id":2},3]}]}"#;
    let inner = on_array(vec![Step::key("r"), Step::index(1), Step::key("x")]);
    assert_parts_fold(src, &ScanRequest::new(JsonInput::Text, &inner), &[1, 5, 9]);
    let nested = br#"{"r":[[{"id":1},{"id":2},3]]}"#;
    let rows_in_row = [Demand::Path {
        steps: vec![Step::key("r"), Step::index(0)],
        nested: Some(Box::new(Demand::Project { path: Path::root(), fields: vec![String::from("id")] })),
    }];
    let request = ScanRequest::new(JsonInput::Text, &rows_in_row);
    let plan = Plan::build(nested, &request).expect("plans");
    assert_eq!(plan.ranges(1).len(), 1);
    assert_eq!(plan.scan(nested, plan.ranges(1)[0]), scan(nested, &request));
    let collected = [Demand::Path {
        steps: vec![Step::key("r"), Step::index(0)],
        nested: Some(Box::new(Demand::Collection { fields: None, nested: None })),
    }];
    assert_parts_fold(nested, &ScanRequest::new(JsonInput::Text, &collected), &[1, 9]);
}

#[test]
fn long_streams_fold_from_their_parts() {
    let demands = [
        Demand::Oracle(Oracle::Count),
        Demand::Project { path: Path::root(), fields: vec![String::from("id")] },
        Demand::Collection { fields: None, nested: None },
    ];
    let (mut lines, mut texts, mut values) = (Vec::new(), Vec::new(), Vec::new());
    for i in 0..6 {
        let pad = "x".repeat(100_000);
        let record = format!("{{\"id\":{i},\"pad\":\"{pad}\"}}");
        lines.extend_from_slice(format!("{record}\r\n\n").as_bytes());
        texts.extend_from_slice(format!("\u{1e}{record}\n").as_bytes());
        values.extend_from_slice(format!(" {record} [{i}]").as_bytes());
    }
    for (input, src) in [(JsonInput::Ndjson, lines), (JsonInput::JsonSeq, texts), (JsonInput::Adjacent, values)] {
        let request = ScanRequest::new(input, &demands);
        assert!(Plan::build(&src, &request).expect("plans").ranges(1).len() > 1);
        assert_parts_fold(&src, &request, &[1]);
    }
}

#[test]
fn a_record_of_a_part_stays_in_its_frame() {
    let demands = [Demand::Oracle(Oracle::Count)];
    let src = b"1 2\n3\n";
    let request = ScanRequest::new(JsonInput::Ndjson, &demands);
    let plan = Plan::build(src, &request).expect("plans");
    let error = plan.scan(src, ByteRange::try_new(0, 4).expect("a range")).expect_err("two values on a line");
    assert_eq!((error.kind, error.offset), (ErrorKind::TrailingContent, 2));
    assert_eq!(count(&plan.scan(src, ByteRange::try_new(4, 6).expect("a range")).expect("a line").answers[0]), 1);
    let across = b"[1,\n2]\n3\n";
    assert!(plan.scan(across, ByteRange::try_new(0, 4).expect("a range")).is_err());
}
