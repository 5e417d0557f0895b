//! Flattening a record into (path, scalar) observations.
//!
//! A scalar at path `p` yields one observation `(p, scalar)`. An array never
//! extends the path: every element is flattened at the array's own path. An
//! object extends the path with each field's key, joined with a dot (the
//! empty path denotes the document root and joins without a dot).
//!
//! Flattening recurses on the value's structure, so its stack use grows
//! with the input's nesting depth: a known limit of this implementation.

use vstd::prelude::*;

use crate::value::{Scalar, ScalarModel, Value};

verus! {

/// The model of one observation: a path and the scalar observed there.
pub type ObsModel = (Seq<char>, ScalarModel);

/// The path of a child reached from path `p` through object key `k`.
pub open spec fn join_path(p: Seq<char>, k: Seq<char>) -> Seq<char> {
    if p.len() == 0 {
        k
    } else {
        p + seq!['.'] + k
    }
}

/// All observations of a value at path `p`, in depth-first order.
pub open spec fn flatten_of(v: Value, p: Seq<char>) -> Seq<ObsModel>
    decreases v,
{
    match v {
        Value::Atom(s) => seq![(p, s@)],
        Value::Arr(es) => flatten_elems(es@, p),
        Value::Obj(fs) => flatten_fields(fs@, p),
    }
}

/// Observations of a run of array elements, all at the array's path `p`.
pub open spec fn flatten_elems(es: Seq<Value>, p: Seq<char>) -> Seq<ObsModel>
    decreases es,
{
    if es.len() == 0 {
        Seq::empty()
    } else {
        flatten_of(es[0], p) + flatten_elems(es.subrange(1, es.len() as int), p)
    }
}

/// Observations of a run of object fields, each at its joined child path.
pub open spec fn flatten_fields(fs: Seq<(String, Value)>, p: Seq<char>) -> Seq<ObsModel>
    decreases fs,
{
    if fs.len() == 0 {
        Seq::empty()
    } else {
        flatten_of(fs[0].1, join_path(p, fs[0].0@)) + flatten_fields(
            fs.subrange(1, fs.len() as int),
            p,
        )
    }
}

/// The model of a vector of concrete observations.
pub open spec fn obs_model_of(s: Seq<(String, Scalar)>) -> Seq<ObsModel> {
    s.map_values(|o: (String, Scalar)| (o.0@, o.1@))
}

proof fn lemma_flatten_elems_push(es: Seq<Value>, x: Value, p: Seq<char>)
    ensures
        flatten_elems(es.push(x), p) == flatten_elems(es, p) + flatten_of(x, p),
    decreases es.len(),
{
    if es.len() == 0 {
        assert(es.push(x)[0] == x);
        assert(es.push(x).subrange(1, es.push(x).len() as int) =~= Seq::<Value>::empty());
        assert(flatten_elems(es.push(x), p) == flatten_of(x, p) + flatten_elems(
            Seq::<Value>::empty(),
            p,
        ));
        assert(flatten_elems(Seq::<Value>::empty(), p) == Seq::<ObsModel>::empty());
        assert(flatten_elems(es, p) == Seq::<ObsModel>::empty());
        assert(flatten_of(x, p) + Seq::<ObsModel>::empty() =~= flatten_of(x, p));
        assert(Seq::<ObsModel>::empty() + flatten_of(x, p) =~= flatten_of(x, p));
    } else {
        let rest = es.subrange(1, es.len() as int);
        assert(es.push(x).subrange(1, es.push(x).len() as int) =~= rest.push(x));
        assert(es.push(x)[0] == es[0]);
        lemma_flatten_elems_push(rest, x, p);
        assert(flatten_elems(es.push(x), p) == flatten_of(es[0], p) + (flatten_elems(rest, p)
            + flatten_of(x, p)));
        assert(flatten_of(es[0], p) + (flatten_elems(rest, p) + flatten_of(x, p)) =~= (flatten_of(
            es[0],
            p,
        ) + flatten_elems(rest, p)) + flatten_of(x, p));
        assert(flatten_elems(es, p) == flatten_of(es[0], p) + flatten_elems(rest, p));
    }
}

proof fn lemma_flatten_fields_push(fs: Seq<(String, Value)>, x: (String, Value), p: Seq<char>)
    ensures
        flatten_fields(fs.push(x), p) == flatten_fields(fs, p) + flatten_of(
            x.1,
            join_path(p, x.0@),
        ),
    decreases fs.len(),
{
    let ox = flatten_of(x.1, join_path(p, x.0@));
    if fs.len() == 0 {
        assert(fs.push(x)[0] == x);
        assert(fs.push(x).subrange(1, fs.push(x).len() as int) =~= Seq::<(String, Value)>::empty());
        assert(flatten_fields(fs.push(x), p) == ox + flatten_fields(
            Seq::<(String, Value)>::empty(),
            p,
        ));
        assert(flatten_fields(Seq::<(String, Value)>::empty(), p) == Seq::<ObsModel>::empty());
        assert(flatten_fields(fs, p) == Seq::<ObsModel>::empty());
        assert(ox + Seq::<ObsModel>::empty() =~= ox);
        assert(Seq::<ObsModel>::empty() + ox =~= ox);
    } else {
        let rest = fs.subrange(1, fs.len() as int);
        let o0 = flatten_of(fs[0].1, join_path(p, fs[0].0@));
        assert(fs.push(x).subrange(1, fs.push(x).len() as int) =~= rest.push(x));
        assert(fs.push(x)[0] == fs[0]);
        lemma_flatten_fields_push(rest, x, p);
        assert(flatten_fields(fs.push(x), p) == o0 + (flatten_fields(rest, p) + ox));
        assert(o0 + (flatten_fields(rest, p) + ox) =~= (o0 + flatten_fields(rest, p)) + ox);
        assert(flatten_fields(fs, p) == o0 + flatten_fields(rest, p));
    }
}

/// Array transparency, first half: the observations of a run of array
/// elements split at any point into the observations of the two runs, so
/// regrouping elements into nested arrays can only regroup, never change,
/// the observations.
pub proof fn lemma_array_transparent(xs: Seq<Value>, ys: Seq<Value>, p: Seq<char>)
    ensures
        flatten_elems(xs + ys, p) == flatten_elems(xs, p) + flatten_elems(ys, p),
    decreases xs.len(),
{
    if xs.len() == 0 {
        assert(xs + ys =~= ys);
        assert(flatten_elems(xs, p) == Seq::<ObsModel>::empty());
        assert(Seq::<ObsModel>::empty() + flatten_elems(ys, p) =~= flatten_elems(ys, p));
    } else {
        let rest = xs.subrange(1, xs.len() as int);
        assert((xs + ys)[0] == xs[0]);
        assert((xs + ys).len() > 0);
        assert((xs + ys).subrange(1, (xs + ys).len() as int) =~= rest + ys);
        lemma_array_transparent(rest, ys, p);
        assert(flatten_elems(xs + ys, p) == flatten_of(xs[0], p) + (flatten_elems(rest, p)
            + flatten_elems(ys, p)));
        assert(flatten_of(xs[0], p) + (flatten_elems(rest, p) + flatten_elems(ys, p)) =~= (
        flatten_of(xs[0], p) + flatten_elems(rest, p)) + flatten_elems(ys, p));
        assert(flatten_elems(xs, p) == flatten_of(xs[0], p) + flatten_elems(rest, p));
    }
}

/// Array transparency, second half: an element wrapped alone in an array
/// yields exactly the element's own observations, at the array's own path.
pub proof fn lemma_array_wrap(v: Value, p: Seq<char>)
    ensures
        flatten_elems(seq![v], p) == flatten_of(v, p),
{
    let s = seq![v];
    assert(s.subrange(1, 1) =~= Seq::<Value>::empty());
    assert(flatten_elems(s.subrange(1, 1), p) == Seq::<ObsModel>::empty());
    assert(flatten_of(v, p) + Seq::<ObsModel>::empty() =~= flatten_of(v, p));
}

/// Object key path join is exact: a single object field observes exactly
/// its child's observations at the dot-joined child path, which is the key
/// itself at the document root.
pub proof fn lemma_key_join(k: String, v: Value, p: Seq<char>)
    ensures
        flatten_fields(seq![(k, v)], p) == flatten_of(v, join_path(p, k@)),
        p.len() == 0 ==> join_path(p, k@) == k@,
        p.len() > 0 ==> join_path(p, k@) == p + seq!['.'] + k@,
{
    let s = seq![(k, v)];
    assert(s.subrange(1, 1) =~= Seq::<(String, Value)>::empty());
    assert(flatten_fields(s.subrange(1, 1), p) == Seq::<ObsModel>::empty());
    assert(flatten_of(v, join_path(p, k@)) + Seq::<ObsModel>::empty() =~= flatten_of(
        v,
        join_path(p, k@),
    ));
}

/// The child path of `p` through key `k`, as an owned string.
pub fn child_path(p: &String, k: &String) -> (r: String)
    ensures
        r@ == join_path(p@, k@),
{
    if p.as_str().is_empty() {
        k.clone()
    } else {
        let r = p.clone().concat(".").concat(k.as_str());
        proof {
            reveal_strlit(".");
            assert(r@ =~= join_path(p@, k@));
        }
        r
    }
}

/// Appends to `out` every observation of `v` at path `path`, in depth-first
/// order.
pub fn flatten_into(v: &Value, path: &String, out: &mut Vec<(String, Scalar)>)
    ensures
        obs_model_of(final(out)@) == obs_model_of(old(out)@) + flatten_of(*v, path@),
    decreases *v,
{
    match v {
        Value::Atom(s) => {
            out.push((path.clone(), s.duplicate()));
            proof {
                assert(obs_model_of(out@) =~= obs_model_of(old(out)@) + flatten_of(*v, path@));
            }
        },
        Value::Arr(es) => {
            let n = es.len();
            let mut i: usize = 0;
            while i < n
                invariant
                    i <= n,
                    n == es@.len(),
                    v is Arr,
                    es == v->Arr_0,
                    obs_model_of(out@) == obs_model_of(old(out)@) + flatten_elems(
                        es@.subrange(0, i as int),
                        path@,
                    ),
                decreases n - i,
            {
                proof {
                    assert(decreases_to!(*v => es@[i as int]));
                }
                flatten_into(&es[i], path, out);
                proof {
                    assert(es@.subrange(0, i + 1) =~= es@.subrange(0, i as int).push(
                        es@[i as int],
                    ));
                    lemma_flatten_elems_push(es@.subrange(0, i as int), es@[i as int], path@);
                }
                i = i + 1;
            }
            proof {
                assert(es@.subrange(0, n as int) =~= es@);
            }
        },
        Value::Obj(fs) => {
            let n = fs.len();
            let mut i: usize = 0;
            while i < n
                invariant
                    i <= n,
                    n == fs@.len(),
                    v is Obj,
                    fs == v->Obj_0,
                    obs_model_of(out@) == obs_model_of(old(out)@) + flatten_fields(
                        fs@.subrange(0, i as int),
                        path@,
                    ),
                decreases n - i,
            {
                let joined = child_path(path, &fs[i].0);
                proof {
                    assert(decreases_to!(*v => fs@[i as int].1));
                }
                flatten_into(&fs[i].1, &joined, out);
                proof {
                    assert(fs@.subrange(0, i + 1) =~= fs@.subrange(0, i as int).push(
                        fs@[i as int],
                    ));
                    lemma_flatten_fields_push(fs@.subrange(0, i as int), fs@[i as int], path@);
                }
                i = i + 1;
            }
            proof {
                assert(fs@.subrange(0, n as int) =~= fs@);
            }
        },
    }
}

/// All observations of a record, taken from the document root.
pub fn flatten_record(v: &Value) -> (out: Vec<(String, Scalar)>)
    ensures
        obs_model_of(out@) == flatten_of(*v, Seq::<char>::empty()),
{
    let mut out: Vec<(String, Scalar)> = Vec::new();
    let root = String::new();
    flatten_into(v, &root, &mut out);
    proof {
        assert(obs_model_of(Seq::<(String, Scalar)>::empty()) =~= Seq::<ObsModel>::empty());
    }
    out
}

} // verus!
