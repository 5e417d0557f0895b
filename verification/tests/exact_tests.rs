use jc::exact::ExactAccumulator;
use jc::value::Scalar;

fn path(p: &str) -> String {
    p.to_string()
}

#[test]
fn exact_cardinality_counts_distinct_tokens() {
    // A multiset with repeats: the count is the number of distinct values.
    let mut acc = ExactAccumulator::new();
    let p = path("k");
    for s in [
        Scalar::Num("1".to_string()),
        Scalar::Num("2".to_string()),
        Scalar::Num("1".to_string()),
        Scalar::Text("x".to_string()),
        Scalar::Null,
        Scalar::Num("2".to_string()),
    ] {
        acc.ingest(&p, &s);
    }
    assert_eq!(acc.count(&p), 4);
}

#[test]
fn ingest_is_idempotent() {
    let mut acc = ExactAccumulator::new();
    let p = path("k");
    let s = Scalar::Text("same".to_string());
    acc.ingest(&p, &s);
    assert_eq!(acc.count(&p), 1);
    acc.ingest(&p, &s);
    assert_eq!(acc.count(&p), 1);
}

#[test]
fn bool_and_text_are_distinct() {
    // The boolean true and the text "true" never collapse.
    let mut acc = ExactAccumulator::new();
    let p = path("k");
    acc.ingest(&p, &Scalar::Bool(true));
    acc.ingest(&p, &Scalar::Text("true".to_string()));
    assert_eq!(acc.count(&p), 2);
}

#[test]
fn null_and_text_null_are_distinct() {
    let mut acc = ExactAccumulator::new();
    let p = path("k");
    acc.ingest(&p, &Scalar::Null);
    acc.ingest(&p, &Scalar::Text("null".to_string()));
    assert_eq!(acc.count(&p), 2);
}

#[test]
fn numbers_compare_by_rendering() {
    // Two renderings of the same quantity count as two values: distinctness
    // of numbers is textual by design.
    let mut acc = ExactAccumulator::new();
    let p = path("k");
    acc.ingest(&p, &Scalar::Num("1".to_string()));
    acc.ingest(&p, &Scalar::Num("1.0".to_string()));
    assert_eq!(acc.count(&p), 2);
}

#[test]
fn unseen_path_counts_zero() {
    let acc = ExactAccumulator::new();
    assert_eq!(acc.count(&path("missing")), 0);
}

#[test]
fn paths_are_independent() {
    let mut acc = ExactAccumulator::new();
    acc.ingest(&path("a"), &Scalar::Num("1".to_string()));
    acc.ingest(&path("b"), &Scalar::Num("1".to_string()));
    acc.ingest(&path("a"), &Scalar::Num("2".to_string()));
    assert_eq!(acc.count(&path("a")), 2);
    assert_eq!(acc.count(&path("b")), 1);
    let report = acc.report();
    assert_eq!(report, vec![("a".to_string(), 2u64), ("b".to_string(), 1u64)]);
}
