//! The tree of values a record is made of, and the canonical token each
//! scalar is reduced to for distinctness accounting.

use vstd::prelude::*;

verus! {

/// A scalar leaf of a record. A number is carried as its decimal text
/// rendering: two numbers count as the same value exactly when their
/// renderings are textually identical.
#[derive(Debug, PartialEq, Eq)]
pub enum Scalar {
    Null,
    Bool(bool),
    Num(String),
    Text(String),
}

/// A parsed record: a scalar, an array of values, or an object of
/// (key, value) fields.
#[derive(Debug, PartialEq, Eq)]
pub enum Value {
    Atom(Scalar),
    Arr(Vec<Value>),
    Obj(Vec<(String, Value)>),
}

/// The mathematical model of a scalar: text fields become sequences of
/// characters.
pub enum ScalarModel {
    Null,
    Bool(bool),
    Num(Seq<char>),
    Text(Seq<char>),
}

impl View for Scalar {
    type V = ScalarModel;

    closed spec fn view(&self) -> ScalarModel {
        match self {
            Scalar::Null => ScalarModel::Null,
            Scalar::Bool(b) => ScalarModel::Bool(*b),
            Scalar::Num(d) => ScalarModel::Num(d@),
            Scalar::Text(t) => ScalarModel::Text(t@),
        }
    }
}

/// The canonical token of a scalar: a one-character kind tag followed by the
/// scalar's text, so that scalars of different kinds can never share a token.
pub open spec fn canon(s: ScalarModel) -> Seq<char> {
    match s {
        ScalarModel::Null => seq!['n'],
        ScalarModel::Bool(b) => if b { seq!['t'] } else { seq!['f'] },
        ScalarModel::Num(d) => seq!['d'] + d,
        ScalarModel::Text(t) => seq!['s'] + t,
    }
}

/// Canonicalization is injective: two scalars share a token exactly when they
/// are the same scalar. In particular the boolean `true` and the text
/// `"true"` always canonicalize apart.
pub proof fn lemma_canon_injective(a: ScalarModel, b: ScalarModel)
    ensures
        canon(a) == canon(b) <==> a == b,
{
    if canon(a) == canon(b) {
        assert(canon(a)[0] == canon(b)[0]);
        match (a, b) {
            (ScalarModel::Num(d1), ScalarModel::Num(d2)) => {
                assert((seq!['d'] + d1).len() == (seq!['d'] + d2).len());
                assert forall|i: int| 0 <= i < d1.len() implies d1[i] == d2[i] by {
                    assert((seq!['d'] + d1)[i + 1] == d1[i]);
                    assert((seq!['d'] + d2)[i + 1] == d2[i]);
                }
                assert(d1 =~= d2);
            },
            (ScalarModel::Text(t1), ScalarModel::Text(t2)) => {
                assert((seq!['s'] + t1).len() == (seq!['s'] + t2).len());
                assert forall|i: int| 0 <= i < t1.len() implies t1[i] == t2[i] by {
                    assert((seq!['s'] + t1)[i + 1] == t1[i]);
                    assert((seq!['s'] + t2)[i + 1] == t2[i]);
                }
                assert(t1 =~= t2);
            },
            _ => {},
        }
    }
}

impl Scalar {
    /// An owned copy of the scalar, with the same model.
    pub fn duplicate(&self) -> (r: Scalar)
        ensures
            r@ == self@,
    {
        match self {
            Scalar::Null => Scalar::Null,
            Scalar::Bool(b) => Scalar::Bool(*b),
            Scalar::Num(d) => Scalar::Num(d.clone()),
            Scalar::Text(t) => Scalar::Text(t.clone()),
        }
    }

    /// The canonical token of this scalar as an owned string.
    pub fn canon_token(&self) -> (r: String)
        ensures
            r@ == canon(self@),
    {
        proof {
            reveal_strlit("n");
            reveal_strlit("t");
            reveal_strlit("f");
            reveal_strlit("d");
            reveal_strlit("s");
        }
        match self {
            Scalar::Null => {
                let r = String::from_str("n");
                proof {
                    assert(r@ =~= canon(self@));
                }
                r
            },
            Scalar::Bool(b) => {
                let r = if *b {
                    String::from_str("t")
                } else {
                    String::from_str("f")
                };
                proof {
                    assert(r@ =~= canon(self@));
                }
                r
            },
            Scalar::Num(d) => {
                let r = String::from_str("d").concat(d.as_str());
                proof {
                    assert(r@ =~= canon(self@));
                }
                r
            },
            Scalar::Text(t) => {
                let r = String::from_str("s").concat(t.as_str());
                proof {
                    assert(r@ =~= canon(self@));
                }
                r
            },
        }
    }
}

} // verus!
