use jc::flatten::flatten_record;
use jc::value::{Scalar, Value};

fn num(d: &str) -> Value {
    Value::Atom(Scalar::Num(d.to_string()))
}

fn obj(fields: Vec<(&str, Value)>) -> Value {
    Value::Obj(fields.into_iter().map(|(k, v)| (k.to_string(), v)).collect())
}

fn obs(path: &str, s: Scalar) -> (String, Scalar) {
    (path.to_string(), s)
}

#[test]
fn array_transparency() {
    // {"a":[1,2,[3,4]]} and {"a":[[1,2],3,4]} yield the same observations.
    let doc1 = obj(vec![(
        "a",
        Value::Arr(vec![num("1"), num("2"), Value::Arr(vec![num("3"), num("4")])]),
    )]);
    let doc2 = obj(vec![(
        "a",
        Value::Arr(vec![Value::Arr(vec![num("1"), num("2")]), num("3"), num("4")]),
    )]);
    let o1 = flatten_record(&doc1);
    let o2 = flatten_record(&doc2);
    let expected = vec![
        obs("a", Scalar::Num("1".to_string())),
        obs("a", Scalar::Num("2".to_string())),
        obs("a", Scalar::Num("3".to_string())),
        obs("a", Scalar::Num("4".to_string())),
    ];
    assert_eq!(o1, expected);
    assert_eq!(o2, expected);
}

#[test]
fn object_key_path_join() {
    // {"a":{"b":1}} observes ("a.b", 1).
    let doc = obj(vec![("a", obj(vec![("b", num("1"))]))]);
    assert_eq!(
        flatten_record(&doc),
        vec![obs("a.b", Scalar::Num("1".to_string()))]
    );
    // {"a":1} observes ("a", 1).
    let doc = obj(vec![("a", num("1"))]);
    assert_eq!(
        flatten_record(&doc),
        vec![obs("a", Scalar::Num("1".to_string()))]
    );
    // A bare scalar is observed at the empty root path.
    let doc = Value::Atom(Scalar::Bool(true));
    assert_eq!(flatten_record(&doc), vec![obs("", Scalar::Bool(true))]);
}

#[test]
fn empty_containers_observe_nothing() {
    let doc = obj(vec![("a", Value::Arr(vec![])), ("b", obj(vec![]))]);
    assert_eq!(flatten_record(&doc), vec![]);
}

#[test]
fn deep_nesting_keeps_paths() {
    let doc = obj(vec![(
        "a",
        Value::Arr(vec![obj(vec![("b", Value::Arr(vec![Value::Atom(Scalar::Null)]))])]),
    )]);
    assert_eq!(flatten_record(&doc), vec![obs("a.b", Scalar::Null)]);
}
