use structury_json::{
    materialize, parse, scan, Answer, ByteRange, Demand, Dialect, Document, ErrorKind, Form, JsonInput, MaterializeOptions, Materialized,
    Number, Path, ScanRequest, Value,
};

fn number(text: &str) -> Value {
    Value::Number(Number::parse(text).expect("number"))
}

fn text(s: &str) -> Value {
    Value::Str(String::from(s))
}

fn read(src: &[u8], dialect: Dialect, form: Form) -> Result<Value, ErrorKind> {
    match parse(src, MaterializeOptions::new(dialect, form)) {
        Ok(artifact) => Ok(artifact.into_value()),
        Err(error) => Err(error.kind),
    }
}

fn every_form(src: &[u8], dialect: Dialect) -> Result<Value, ErrorKind> {
    let owned = read(src, dialect, Form::Owned);
    assert_eq!(owned, read(src, dialect, Form::Borrowed));
    assert_eq!(owned, read(src, dialect, Form::Value));
    owned
}

#[test]
fn authored_digits_survive() {
    assert_eq!(
        every_form(b" [1.50, -0, 1e2] ", Dialect::Rfc8259),
        Ok(Value::Array(vec![number("1.50"), number("-0"), number("1e2")]))
    );
    assert_ne!(every_form(b"1.50", Dialect::Rfc8259), Ok(number("1.5")));
}

#[test]
fn borrowed_and_owned_forms_agree() {
    for src in [
        &b"{\"a\":[1,2,{\"b\":\"\\u00e9\\n\"}],\"a\":null}"[..],
        b"\"\\ud83d\\ude00\"",
        b"[]",
        b"{}",
        b"[1,",
        b"{\"a\"}",
        b"\"\xff\"",
        b"\"\\ud83d\"",
        b"1 2",
        b"",
    ] {
        let span = ByteRange::try_new(0, src.len()).expect("a range");
        let answer = Answer::Document(Document::from_span(src, span));
        let borrowed = materialize(&answer, MaterializeOptions::default().with_form(Form::Borrowed));
        let tape = materialize(&answer, MaterializeOptions::default().with_form(Form::Owned));
        match (borrowed, tape) {
            (Ok(Materialized::Borrowed(view)), Ok(Materialized::Owned(owned))) => {
                assert_eq!(view.to_value(), owned.to_value());
            }
            (Err(a), Err(b)) => assert_eq!(a, b),
            _ => panic!("forms disagree on {src:?}"),
        }
    }
}

#[test]
fn a_later_duplicate_takes_the_member() {
    assert_eq!(
        every_form(b"{\"a\":1,\"b\":2,\"\\u0061\":3}", Dialect::Rfc8259),
        Ok(Value::Object(vec![
            (String::from("a"), number("3")),
            (String::from("b"), number("2"))
        ]))
    );
}

#[test]
fn escapes_are_decoded() {
    assert_eq!(every_form(b"\"a\\u0041\\n\\/\\ud83d\\ude00\"", Dialect::Rfc8259), Ok(text("aA\n/\u{1f600}")));
    assert_eq!(every_form(b"'it\\'s \\x41'", Dialect::Json5), Ok(text("it's A")));
}

#[test]
fn json5_spellings_are_read_exactly_or_refused() {
    assert_eq!(every_form(b"+0x1F", Dialect::Json5), Ok(number("31")));
    assert_eq!(every_form(b"{a:1,}", Dialect::Json5), Ok(Value::Object(vec![(String::from("a"), number("1"))])));
    assert_eq!(every_form(b"1 // one", Dialect::Jsonc), Ok(number("1")));
    assert_eq!(every_form(b"1 // one", Dialect::Rfc8259), Err(ErrorKind::TrailingContent));
}

#[test]
fn a_byte_order_mark_is_passed_over() {
    assert_eq!(every_form(b"\xef\xbb\xbf{}", Dialect::Rfc8259), Ok(Value::Object(vec![])));
}

#[test]
fn columns_materialize_as_rows() {
    let demands = [Demand::Project {
        path: Path::root(),
        fields: vec![String::from("b"), String::from("a")],
    }];
    let result = scan(b"[{\"a\":1,\"b\":[2]},{\"a\":3}]", &ScanRequest::new(JsonInput::Text, &demands)).expect("valid");
    for form in [Form::Owned, Form::Borrowed, Form::Value] {
        let rows = materialize(&result.answers[0], MaterializeOptions::new(Dialect::Rfc8259, form)).expect("rows").into_value();
        let rows = rows.as_array().expect("an array");
        assert_eq!(rows.len(), 2);
        assert_eq!(rows[0].member("b"), Some(&Value::Array(vec![number("2")])));
        assert_eq!(rows[1].member("a"), Some(&number("3")));
        assert_eq!(rows[1].member("b"), None);
    }
}
