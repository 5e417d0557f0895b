use jc::report::render_report;
use jc::runner::{Mode, Runner};
use jc::value::{Scalar, Value};

fn num(d: &str) -> Value {
    Value::Atom(Scalar::Num(d.to_string()))
}

fn obj(fields: Vec<(&str, Value)>) -> Value {
    Value::Obj(fields.into_iter().map(|(k, v)| (k.to_string(), v)).collect())
}

#[test]
fn end_to_end_report_line() {
    let mut r = Runner::new(Mode::Exact);
    r.ingest_record(&obj(vec![("x", num("1"))]));
    r.ingest_record(&obj(vec![("x", num("2"))]));
    r.ingest_record(&obj(vec![("x", num("1"))]));
    r.ingest_record(&obj(vec![(
        "y",
        obj(vec![("z", Value::Atom(Scalar::Text("a".to_string())))]),
    )]));
    let report = r.complete();
    assert_eq!(render_report(&report), "{\"x\":2,\"y.z\":1}");
}

#[test]
fn empty_report_renders_empty_object() {
    assert_eq!(render_report(&vec![]), "{}");
}

#[test]
fn counts_render_in_decimal() {
    let entries = vec![
        ("k".to_string(), 1234567890123u64),
        ("z".to_string(), 0u64),
    ];
    assert_eq!(render_report(&entries), "{\"k\":1234567890123,\"z\":0}");
}

#[test]
fn paths_are_escaped() {
    let entries = vec![
        ("a\"b".to_string(), 1u64),
        ("c\\d".to_string(), 2u64),
        ("e\nf".to_string(), 3u64),
    ];
    assert_eq!(
        render_report(&entries),
        "{\"a\\\"b\":1,\"c\\\\d\":2,\"e\\u000af\":3}"
    );
}
