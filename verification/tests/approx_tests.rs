use jc::approx::ApproxAccumulator;
use jc::sketch::Sketch;
use jc::value::Scalar;

fn path(p: &str) -> String {
    p.to_string()
}

#[test]
fn empty_sketch_estimates_zero() {
    let sk = Sketch::new();
    assert_eq!(sk.estimate(), 0);
}

#[test]
fn tiny_cardinalities_are_exact() {
    let mut sk = Sketch::new();
    sk.insert(&"alpha".to_string());
    sk.insert(&"beta".to_string());
    sk.insert(&"gamma".to_string());
    assert_eq!(sk.estimate(), 3);
}

#[test]
fn sketch_insert_is_idempotent() {
    let mut sk = Sketch::new();
    sk.insert(&"alpha".to_string());
    let once = sk.estimate();
    sk.insert(&"alpha".to_string());
    assert_eq!(sk.estimate(), once);
}

#[test]
fn sketch_is_order_insensitive() {
    let mut a = Sketch::new();
    let mut b = Sketch::new();
    for t in ["one", "two", "three", "four"] {
        a.insert(&t.to_string());
    }
    for t in ["four", "three", "two", "one"] {
        b.insert(&t.to_string());
    }
    assert_eq!(a.estimate(), b.estimate());
}

#[test]
fn unseen_path_estimates_zero() {
    let acc = ApproxAccumulator::new();
    assert_eq!(acc.count(&path("missing")), 0);
}

#[test]
fn approx_idempotence_per_path() {
    let mut acc = ApproxAccumulator::new();
    let p = path("k");
    let s = Scalar::Text("same".to_string());
    acc.ingest(&p, &s);
    let once = acc.count(&p);
    acc.ingest(&p, &s);
    assert_eq!(acc.count(&p), once);
    assert_eq!(once, 1);
}

#[test]
fn estimate_tracks_large_cardinalities() {
    // Ten thousand distinct strings at one path: the estimate must land
    // within the configured relative error (about one to two percent).
    let mut acc = ApproxAccumulator::new();
    let p = path("k");
    for i in 0..10000 {
        acc.ingest(&p, &Scalar::Text(format!("value-{}", i)));
    }
    let e = acc.count(&p);
    assert!(e >= 9800, "estimate {} fell below the error bound", e);
    assert!(e <= 10200, "estimate {} rose above the error bound", e);
}
