use structury_json::demand::Step;
use structury_json::dialect::Dialect;
use structury_json::edit::apply::{edit, edit_document, fallback_able, fallback_encode};
use structury_json::edit::comments::{
    canonical_comment, comment_glyph, foot_comment, inline_comment, member_insert_at, same_place_comment,
};
use structury_json::edit::members::{collect_members, comma_span, insert_index};
use structury_json::edit::request::{Edit, EditOptions, FactOp};
use structury_json::error::{Error, ErrorClass, ErrorKind};
use structury_json::facts::FactRole;
use structury_json::number::Number;
use structury_json::value::{ByteRange, Value};

fn number(text: &str) -> Value {
    Value::Number(Number::parse(text).expect("number"))
}

fn key(name: &str) -> Step {
    Step::Key(name.to_string())
}

#[test]
fn canonical_comment_writes_one_line_per_payload_line() {
    assert_eq!(canonical_comment("hi"), b"// hi\n");
    assert_eq!(canonical_comment("a\nb"), b"// a\n// b\n");
    assert_eq!(canonical_comment(""), b"//\n");
}

#[test]
fn same_place_comment_reuses_the_glyph_shape() {
    assert_eq!(same_place_comment(b"/* hi */", "yo"), Some(b"/* yo */".to_vec()));
    assert_eq!(same_place_comment(b"// hi", "yo"), Some(b"// yo".to_vec()));
    assert_eq!(
        same_place_comment(b"/* hi */", "a\nb"),
        None,
        "multi-line needs canonical"
    );
    assert_eq!(same_place_comment(b"/* hi */", "x */"), None, "must not close early");
}

#[test]
fn inline_and_foot_comments_terminate_the_line() {
    assert_eq!(inline_comment("x"), b" // x\n");
    assert_eq!(inline_comment("a\nb"), b" // a b\n");
    assert_eq!(foot_comment("x"), b"\n// x\n");
    assert_eq!(foot_comment("a\nb"), b"\n// a\n// b\n");
}

#[test]
fn member_insert_at_walks_back_over_a_key() {
    let src = br#"{"a" : 1}"#;
    assert_eq!(member_insert_at(src, 7, Dialect::Rfc8259), 1, "before the key");
    let array = b"[ 1, 2 ]";
    assert_eq!(member_insert_at(array, 5, Dialect::Rfc8259), 4, "after the comma");
    assert_eq!(member_insert_at(b"[1]", 1, Dialect::Rfc8259), 1, "at the first element");
}

#[test]
fn member_insert_at_walks_back_over_comments() {
    assert_eq!(member_insert_at(br#"{"a":/*c*/1}"#, 10, Dialect::Jsonc), 1);
    assert_eq!(member_insert_at(b"{\"a\": // c:\n1}", 11, Dialect::Jsonc), 1);
    assert_eq!(member_insert_at(b"[1,/*,*/2]", 8, Dialect::Jsonc), 3);
}

#[test]
fn json5_member_insert_at_walks_back_over_a_bare_key() {
    let src = b"{a:1}";
    assert_eq!(member_insert_at(src, 3, Dialect::Json5), 1);
}

#[test]
fn comma_span_drops_the_leading_or_trailing_separator() {
    let src = br#"{"a":1,"b":2}"#;
    let member = ByteRange { start: 7, end: 12 };
    assert_eq!(comma_span(src, member, Dialect::Rfc8259), (6, 12), "leading comma");
    let last = ByteRange { start: 1, end: 6 };
    assert_eq!(comma_span(src, last, Dialect::Rfc8259), (1, 7), "trailing comma");
}

#[test]
fn fallback_encodes_the_dom_applied_value() {
    let src = br#"{ "a" : 1, "b" : [2, 3] }"#;
    let edits = [
        Edit::Assign {
            path: vec![key("a")],
            value: number("9"),
        },
        Edit::Delete {
            path: vec![key("b"), Step::Index(0)],
        },
    ];
    let forced = Error::new(ErrorKind::NoDocument, 0);
    let out = fallback_encode(src, &edits, Dialect::Rfc8259, forced).expect("fallback");
    assert_eq!(out, br#"{"a":9,"b":[3]}"#);
}

#[test]
fn fallback_declines_a_fact_write() {
    let src = br#"{"a":1}"#;
    let edits = [Edit::Fact {
        path: Vec::new(),
        op: FactOp::Insert {
            role: FactRole::CommentLead,
            text: "x".to_string(),
        },
    }];
    let original = Error::new(ErrorKind::EditUnplaceable, 0);
    assert_eq!(fallback_encode(src, &edits, Dialect::Jsonc, original), Err(original));
}

#[test]
fn fallback_able_marks_only_unplaceable_edits() {
    assert!(fallback_able(&Error::new(ErrorKind::EditUnplaceable, 0)));
    assert!(!fallback_able(&Error::new(ErrorKind::OverlappingEdits, 0)));
}

fn apply(src: &[u8], edits: &[Edit]) -> Result<Vec<u8>, Error> {
    edit(src, edits, EditOptions::default())
}

#[test]
fn assign_replaces_only_the_value() {
    let src = br#"{ "a" : 1 , "b":[1, 2] }"#;
    let edits = [Edit::Assign {
        path: vec![key("b"), Step::Index(-1)],
        value: Value::Bool(true),
    }];
    assert_eq!(apply(src, &edits).expect("edit"), br#"{ "a" : 1 , "b":[1, true] }"#);
}

#[test]
fn assign_at_the_root_replaces_the_document() {
    let edits = [Edit::Assign {
        path: Vec::new(),
        value: Value::Null,
    }];
    assert_eq!(apply(b" [1] ", &edits).expect("edit"), b" null ");
}

#[test]
fn insert_appends_a_new_member_and_replaces_an_old_one() {
    let src = br#"{"a":1}"#;
    let add = [Edit::Insert {
        path: vec![key("b")],
        value: number("2"),
    }];
    assert_eq!(apply(src, &add).expect("edit"), br#"{"a":1,"b":2}"#);
    let replace = [Edit::Insert {
        path: vec![key("a")],
        value: number("2"),
    }];
    assert_eq!(apply(src, &replace).expect("edit"), br#"{"a":2}"#);
}

#[test]
fn insert_lands_at_every_array_slot() {
    let at = |index: i64| {
        apply(
            b"[1,2]",
            &[Edit::Insert {
                path: vec![Step::Index(index)],
                value: number("9"),
            }],
        )
    };
    assert_eq!(at(0).expect("front"), b"[9,1,2]");
    assert_eq!(at(1).expect("middle"), b"[1,9,2]");
    assert_eq!(at(2).expect("end"), b"[1,2,9]");
    assert_eq!(at(-1).expect("before the last"), b"[1,9,2]");
    assert_eq!(at(3).expect_err("past the end").kind, ErrorKind::EditUnplaceable);
}

#[test]
fn delete_takes_its_separator() {
    let del = |index: i64| {
        apply(
            b"[1, 2, 3]",
            &[Edit::Delete {
                path: vec![Step::Index(index)],
            }],
        )
        .expect("delete")
    };
    assert_eq!(del(0), b"[ 2, 3]");
    assert_eq!(del(1), b"[1, 3]");
    assert_eq!(del(2), b"[1, 2]");
}

#[test]
fn delete_of_an_absent_path_is_a_no_op() {
    let src = br#"{"a":[1]}"#;
    for path in [
        vec![key("z")],
        vec![key("z"), key("y")],
        vec![key("a"), Step::Index(5)],
        vec![key("a"), key("b")],
    ] {
        assert_eq!(apply(src, &[Edit::Delete { path }]).expect("no-op"), src);
    }
    let scalar = br#"{"a":1}"#;
    for path in [vec![key("a"), key("b")], vec![key("a"), key("b"), key("c")], vec![key("a"), Step::Index(0)]] {
        assert_eq!(apply(scalar, &[Edit::Delete { path }]).expect("no-op"), scalar);
    }
}

#[test]
fn delete_and_insert_that_leave_a_stray_comma_are_refused() {
    // Each splice is in place, but together they would leave `[,9]`.
    let edits = [
        Edit::Delete {
            path: vec![Step::Index(0)],
        },
        Edit::Insert {
            path: vec![Step::Index(1)],
            value: number("9"),
        },
    ];
    assert!(apply(b"[1]", &edits).is_err());
}

#[test]
fn replace_member_keeps_its_place_and_glue() {
    let src = br#"{ "a" : 1 , "b" : 2 }"#;
    let edits = [Edit::ReplaceMember {
        path: vec![key("a")],
        key: "z".to_string(),
        value: number("9"),
    }];
    assert_eq!(apply(src, &edits).expect("rename"), br#"{ "z" : 9 , "b" : 2 }"#);
}

#[test]
fn renaming_onto_another_member_collapses_them() {
    let src = br#"{ "a" : 1 , "b" : 2 }"#;
    let edits = [Edit::ReplaceMember {
        path: vec![key("a")],
        key: "b".to_string(),
        value: number("9"),
    }];
    assert_eq!(apply(src, &edits).expect("collapse"), br#"{"b":9}"#);
}

#[test]
fn clear_empties_a_container_and_refuses_a_scalar() {
    let src = br#"{"a":[1,2],"b":3}"#;
    let clear = |name: &str| apply(src, &[Edit::Clear { path: vec![key(name)] }]);
    assert_eq!(clear("a").expect("clear"), br#"{"a":[],"b":3}"#);
    assert_eq!(clear("b").expect_err("scalar").kind, ErrorKind::EditUnplaceable);
}

#[test]
fn request_errors_are_told_apart() {
    let src = b"[1,2]";
    let root = |e: Edit| apply(src, &[e]).expect_err("refused").kind;
    assert_eq!(root(Edit::Delete { path: Vec::new() }), ErrorKind::DeleteRoot);
    assert_eq!(
        root(Edit::Insert {
            path: Vec::new(),
            value: Value::Null
        }),
        ErrorKind::InsertRoot
    );
    assert_eq!(
        root(Edit::ReplaceMember {
            path: vec![Step::Index(0)],
            key: "a".to_string(),
            value: Value::Null
        }),
        ErrorKind::ReplaceNeedsMember
    );
    let twice = [
        Edit::Assign {
            path: vec![Step::Index(0)],
            value: Value::Null,
        },
        Edit::Assign {
            path: vec![Step::Index(0)],
            value: Value::Null,
        },
    ];
    let overlap = apply(src, &twice).expect_err("overlap");
    assert_eq!(overlap.kind, ErrorKind::OverlappingEdits);
    assert_eq!(overlap.class(), ErrorClass::Write);
    let absent = [Edit::Assign {
        path: vec![Step::Index(7)],
        value: Value::Null,
    }];
    let refused = apply(src, &absent).expect_err("absent");
    assert_eq!(refused.kind, ErrorKind::EditUnplaceable);
    assert_eq!(refused.code(), "edit-unplaceable");
    let invalid = [Edit::Delete {
        path: vec![Step::Index(0)],
    }];
    assert_eq!(apply(b"[1,", &invalid).expect_err("grammar").class(), ErrorClass::Syntax);
}

#[test]
fn fact_writes_are_inert_without_comments() {
    let src = br#"{"a":1}"#;
    let edits = [Edit::Fact {
        path: vec![key("a")],
        op: FactOp::Insert {
            role: FactRole::CommentLead,
            text: "x".to_string(),
        },
    }];
    assert_eq!(apply(src, &edits).expect("inert"), src);
}

fn jsonc(src: &[u8], op: FactOp) -> Result<Vec<u8>, Error> {
    edit(
        src,
        &[Edit::Fact {
            path: vec![key("a")],
            op,
        }],
        EditOptions::new(Dialect::Jsonc),
    )
}

#[test]
fn fact_writes_place_each_role() {
    let insert = |role: FactRole| {
        jsonc(
            br#"{"a":1}"#,
            FactOp::Insert {
                role,
                text: "hi".to_string(),
            },
        )
        .expect("fact")
    };
    assert_eq!(insert(FactRole::CommentLead), b"{// hi\n\"a\":1}");
    assert_eq!(insert(FactRole::CommentInline), b"{\"a\":1 // hi\n}");
    assert_eq!(insert(FactRole::CommentFoot), b"{\"a\":1\n// hi\n}");
}

#[test]
fn fact_rewrites_keep_the_glyph_shape() {
    let src = b"{/* old */\"a\":1}";
    let replaced = jsonc(
        src,
        FactOp::Replace {
            role: FactRole::CommentLead,
            text: "new".to_string(),
        },
    );
    assert_eq!(replaced.expect("replace"), b"{/* new */\"a\":1}");
    let cleared = jsonc(
        src,
        FactOp::Clear {
            role: FactRole::CommentLead,
        },
    );
    assert_eq!(cleared.expect("clear"), b"{\"a\":1}");
    let missing = jsonc(
        br#"{"a":1}"#,
        FactOp::Replace {
            role: FactRole::CommentLead,
            text: "new".to_string(),
        },
    );
    assert_eq!(missing.expect_err("missing").kind, ErrorKind::FactIsMissing);
}

#[test]
fn edited_document_keeps_surviving_facts() {
    let src = b"{// one\n\"a\":1,// two\n\"b\":2}";
    let edits = [Edit::Assign {
        path: vec![key("a")],
        value: number("100"),
    }];
    let mut out = Vec::new();
    let document = edit_document(src, &edits, EditOptions::new(Dialect::Jsonc), &mut out).expect("document");
    assert_eq!(document.source(), b"{// one\n\"a\":100,// two\n\"b\":2}");
    assert!(document.is_fully_validated());
    let glyphs: Vec<&[u8]> = document
        .facts()
        .iter()
        .filter_map(|fact| fact.source_span)
        .map(|span| &document.source()[span.start..span.end])
        .collect();
    assert!(glyphs.contains(&&b"// one"[..]));
    assert!(glyphs.contains(&&b"// two"[..]));
}

#[test]
fn edited_document_records_a_written_fact() {
    let edits = [Edit::Fact {
        path: vec![key("a")],
        op: FactOp::Insert {
            role: FactRole::CommentLead,
            text: "hi".to_string(),
        },
    }];
    let mut out = b"old".to_vec();
    let document = edit_document(br#"{"a":1}"#, &edits, EditOptions::new(Dialect::Jsonc), &mut out).expect("document");
    assert_eq!(document.facts().len(), 1);
    let fact = &document.facts()[0];
    assert_eq!(fact.text, "hi");
    assert_eq!(fact.source_span, Some(ByteRange { start: 1, end: 6 }));
    assert_eq!(fact.owner, ByteRange { start: 11, end: 12 });
}

#[test]
fn members_are_collected_with_their_glue() {
    let src = b"{ \"a\" : 1 , 'b':2 // two\n }";
    let members = collect_members(src, ByteRange { start: 0, end: src.len() }, Dialect::Json5).expect("members");
    assert_eq!(members.len(), 2);
    assert_eq!(members[0].key, Some(b"a".to_vec()));
    assert_eq!((members[0].start, members[0].key_start, members[0].value_start), (1, 2, 8));
    assert_eq!(members[1].key, Some(b"b".to_vec()));
    assert_eq!(&src[members[1].value_end..members[1].end], b" // two");
}

#[test]
fn insert_index_counts_from_either_end() {
    assert_eq!(insert_index(3, 3), Ok(3));
    assert_eq!(insert_index(3, -3), Ok(0));
    assert!(insert_index(3, 4).is_err());
    assert!(insert_index(3, -4).is_err());
    assert!(insert_index(3, i64::MIN).is_err());
}

#[test]
fn comment_glyph_drops_the_trivia_around_it() {
    assert_eq!(comment_glyph(b" // x\n"), (1, 5));
    assert_eq!(comment_glyph(b"  \n"), (3, 3));
}

#[test]
fn an_assigned_value_is_what_the_text_then_holds() {
    let src = b" {\"a\":[1,{\"b\":2,\"b\":3}] , \"c\":null} ";
    let value = Value::Object(vec![(String::from("n"), number("1.50")), (String::from("s"), Value::Str(String::from("\"/")))]);
    for path in [
        vec![],
        vec![key("a")],
        vec![key("a"), Step::Index(0)],
        vec![key("a"), Step::Index(-1), key("b")],
        vec![key("c")],
    ] {
        let edits = [Edit::Assign {
            path: path.clone(),
            value: value.clone(),
        }];
        let out = apply(src, &edits).expect("assigns");
        let demands = [structury_json::Demand::path(path)];
        let request = structury_json::ScanRequest::new(structury_json::JsonInput::Text, &demands);
        let result = structury_json::scan(&out, &request).expect("valid");
        let options = structury_json::MaterializeOptions::default().with_form(structury_json::Form::Value);
        let held = structury_json::materialize(&result.answers[0], options).expect("found").into_value();
        assert_eq!(held, value);
    }
}
