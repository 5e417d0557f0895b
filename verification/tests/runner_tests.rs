use jc::runner::{Mode, Phase, Runner};
use jc::value::{Scalar, Value};

fn num(d: &str) -> Value {
    Value::Atom(Scalar::Num(d.to_string()))
}

fn obj(fields: Vec<(&str, Value)>) -> Value {
    Value::Obj(fields.into_iter().map(|(k, v)| (k.to_string(), v)).collect())
}

#[test]
fn end_to_end_exact() {
    // {"x":1}, {"x":2}, {"x":1}, {"y":{"z":"a"}} must report x: 2, y.z: 1.
    let mut r = Runner::new(Mode::Exact);
    r.ingest_record(&obj(vec![("x", num("1"))]));
    r.ingest_record(&obj(vec![("x", num("2"))]));
    r.ingest_record(&obj(vec![("x", num("1"))]));
    r.ingest_record(&obj(vec![(
        "y",
        obj(vec![("z", Value::Atom(Scalar::Text("a".to_string())))]),
    )]));
    let report = r.complete();
    assert_eq!(report, vec![("x".to_string(), 2u64), ("y.z".to_string(), 1u64)]);
    assert_eq!(r.phase, Phase::Completed);
}

#[test]
fn malformed_line_resilience() {
    // One bad line between two good ones: the report reflects only the two
    // good lines, and exactly one diagnostic was recorded.
    let mut r = Runner::new(Mode::Exact);
    r.ingest_record(&obj(vec![("x", num("1"))]));
    r.record_malformed();
    r.ingest_record(&obj(vec![("x", num("2"))]));
    assert_eq!(r.malformed, 1);
    let report = r.complete();
    assert_eq!(report, vec![("x".to_string(), 2u64)]);
}

#[test]
fn cancellation_is_terminal_without_report() {
    let mut r = Runner::new(Mode::Exact);
    r.ingest_record(&obj(vec![("x", num("1"))]));
    r.cancel();
    assert_eq!(r.phase, Phase::Cancelled);
}

#[test]
fn empty_stream_reports_nothing() {
    let mut r = Runner::new(Mode::Exact);
    let report = r.complete();
    assert_eq!(report, vec![]);
}

#[test]
fn approximate_mode_small_counts() {
    let mut r = Runner::new(Mode::Approximate);
    r.ingest_record(&obj(vec![("x", num("1"))]));
    r.ingest_record(&obj(vec![("x", num("2"))]));
    r.ingest_record(&obj(vec![("x", num("1"))]));
    let report = r.complete();
    assert_eq!(report.len(), 1);
    assert_eq!(report[0].0, "x");
    assert_eq!(report[0].1, 2);
}
