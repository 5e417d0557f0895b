//! The exact accumulator: per path, the set of distinct canonical tokens
//! ever observed there. Its count is exact at the price of memory growing
//! with the number of distinct (path, token) pairs.

use vstd::prelude::*;

use crate::flatten::ObsModel;
use crate::value::{canon, Scalar};

verus! {

/// The tokens a model state holds at path `p`: the empty set where the path
/// was never observed.
pub open spec fn tokens_of(m: Map<Seq<char>, Set<Seq<char>>>, p: Seq<char>) -> Set<Seq<char>> {
    if m.dom().contains(p) {
        m[p]
    } else {
        Set::empty()
    }
}

/// One observation applied to a model state: the scalar's canonical token
/// joins the set owned by the observation's path.
pub open spec fn exact_step(m: Map<Seq<char>, Set<Seq<char>>>, o: ObsModel) -> Map<
    Seq<char>,
    Set<Seq<char>>,
> {
    m.insert(o.0, tokens_of(m, o.0).insert(canon(o.1)))
}

/// A run of observations applied in order.
pub open spec fn exact_run(m: Map<Seq<char>, Set<Seq<char>>>, obs: Seq<ObsModel>) -> Map<
    Seq<char>,
    Set<Seq<char>>,
>
    decreases obs.len(),
{
    if obs.len() == 0 {
        m
    } else {
        exact_run(exact_step(m, obs[0]), obs.subrange(1, obs.len() as int))
    }
}

/// The distinct canonical tokens among the observations of `obs` made at
/// path `p`.
pub open spec fn distinct_tokens_at(obs: Seq<ObsModel>, p: Seq<char>) -> Set<Seq<char>>
    decreases obs.len(),
{
    if obs.len() == 0 {
        Set::empty()
    } else {
        let rest = distinct_tokens_at(obs.subrange(1, obs.len() as int), p);
        if obs[0].0 == p {
            rest.insert(canon(obs[0].1))
        } else {
            rest
        }
    }
}

proof fn lemma_exact_run_tokens(m: Map<Seq<char>, Set<Seq<char>>>, obs: Seq<ObsModel>, p: Seq<char>)
    ensures
        tokens_of(exact_run(m, obs), p) =~= tokens_of(m, p).union(distinct_tokens_at(obs, p)),
    decreases obs.len(),
{
    if obs.len() == 0 {
    } else {
        let m1 = exact_step(m, obs[0]);
        let rest = obs.subrange(1, obs.len() as int);
        lemma_exact_run_tokens(m1, rest, p);
        if obs[0].0 == p {
            assert(tokens_of(m1, p) =~= tokens_of(m, p).insert(canon(obs[0].1)));
        } else {
            assert(tokens_of(m1, p) =~= tokens_of(m, p));
        }
    }
}

/// The cardinality law of the exact accumulator: after any run of
/// observations over the empty state, the tokens held at a path are exactly
/// the distinct canonical tokens observed there, so the reported count is
/// the number of distinct canonical tokens, exactly.
pub proof fn lemma_exact_cardinality(obs: Seq<ObsModel>, p: Seq<char>)
    ensures
        tokens_of(exact_run(Map::empty(), obs), p) == distinct_tokens_at(obs, p),
{
    lemma_exact_run_tokens(Map::empty(), obs, p);
    assert(tokens_of(Map::<Seq<char>, Set<Seq<char>>>::empty(), p).union(
        distinct_tokens_at(obs, p),
    ) =~= distinct_tokens_at(obs, p));
}

/// Idempotence of canonicalization: applying the same observation twice
/// leaves the state where one application put it, so a repeated scalar never
/// contributes a second count.
pub proof fn lemma_exact_step_idempotent(m: Map<Seq<char>, Set<Seq<char>>>, o: ObsModel)
    ensures
        exact_step(exact_step(m, o), o) == exact_step(m, o),
{
    let m1 = exact_step(m, o);
    assert(tokens_of(m1, o.0).insert(canon(o.1)) =~= tokens_of(m, o.0).insert(canon(o.1)));
    assert(exact_step(m1, o) =~~= m1);
}

/// Observation order is invisible: two observations reach the same exact
/// state in either order, so the report does not depend on the order in
/// which records arrive or on traversal order within a record.
pub proof fn lemma_exact_step_comm(m: Map<Seq<char>, Set<Seq<char>>>, a: ObsModel, b: ObsModel)
    ensures
        exact_step(exact_step(m, a), b) == exact_step(exact_step(m, b), a),
{
    if a.0 == b.0 {
        let ta = tokens_of(m, a.0);
        assert(tokens_of(exact_step(m, a), b.0) =~= ta.insert(canon(a.1)));
        assert(tokens_of(exact_step(m, b), a.0) =~= ta.insert(canon(b.1)));
        assert(ta.insert(canon(a.1)).insert(canon(b.1)) =~= ta.insert(canon(b.1)).insert(
            canon(a.1),
        ));
        assert(exact_step(exact_step(m, a), b) =~~= exact_step(exact_step(m, b), a));
    } else {
        assert(tokens_of(exact_step(m, a), b.0) =~= tokens_of(m, b.0));
        assert(tokens_of(exact_step(m, b), a.0) =~= tokens_of(m, a.0));
        assert(exact_step(exact_step(m, a), b) =~~= exact_step(exact_step(m, b), a));
    }
}

/// The set of token views a concrete token list stands for.
pub open spec fn tokens_model(ts: Seq<String>) -> Set<Seq<char>>
    decreases ts.len(),
{
    if ts.len() == 0 {
        Set::empty()
    } else {
        tokens_model(ts.subrange(0, ts.len() - 1)).insert(ts[ts.len() - 1]@)
    }
}

/// No two tokens of the list share a view.
pub open spec fn distinct_token_views(ts: Seq<String>) -> bool {
    forall|i: int, j: int| 0 <= i < ts.len() && 0 <= j < ts.len() && i != j ==> ts[i]@ != ts[j]@
}

proof fn lemma_tokens_model_contains_at(ts: Seq<String>, i: int)
    requires
        0 <= i < ts.len(),
    ensures
        tokens_model(ts).contains(ts[i]@),
    decreases ts.len(),
{
    if i == ts.len() - 1 {
    } else {
        let front = ts.subrange(0, ts.len() - 1);
        lemma_tokens_model_contains_at(front, i);
        assert(front[i] == ts[i]);
    }
}

proof fn lemma_tokens_model_absent(ts: Seq<String>, x: Seq<char>)
    requires
        forall|i: int| 0 <= i < ts.len() ==> ts[i]@ != x,
    ensures
        !tokens_model(ts).contains(x),
    decreases ts.len(),
{
    if ts.len() > 0 {
        let front = ts.subrange(0, ts.len() - 1);
        assert(forall|i: int| 0 <= i < front.len() ==> front[i] == ts[i]);
        lemma_tokens_model_absent(front, x);
    }
}

proof fn lemma_tokens_model_len(ts: Seq<String>)
    requires
        distinct_token_views(ts),
    ensures
        tokens_model(ts).finite(),
        tokens_model(ts).len() == ts.len(),
    decreases ts.len(),
{
    if ts.len() == 0 {
    } else {
        let front = ts.subrange(0, ts.len() - 1);
        assert(distinct_token_views(front));
        lemma_tokens_model_len(front);
        assert(forall|i: int| 0 <= i < front.len() ==> front[i]@ != ts[ts.len() - 1]@);
        lemma_tokens_model_absent(front, ts[ts.len() - 1]@);
    }
}

/// Whether some entry of the list owns path `p`.
pub open spec fn has_path(es: Seq<(String, Vec<String>)>, p: Seq<char>) -> bool {
    exists|i: int| 0 <= i < es.len() && es[i].0@ == p
}

/// The token set of the first entry owning path `p` (the empty set where
/// none does).
pub open spec fn lookup_tokens(es: Seq<(String, Vec<String>)>, p: Seq<char>) -> Set<Seq<char>>
    decreases es.len(),
{
    if es.len() == 0 {
        Set::empty()
    } else if es[0].0@ == p {
        tokens_model(es[0].1@)
    } else {
        lookup_tokens(es.subrange(1, es.len() as int), p)
    }
}

/// No two entries own the same path.
pub open spec fn distinct_paths(es: Seq<(String, Vec<String>)>) -> bool {
    forall|i: int, j: int| 0 <= i < es.len() && 0 <= j < es.len() && i != j ==> es[i].0@ != es[j].0@
}

proof fn lemma_lookup_at_index(es: Seq<(String, Vec<String>)>, i: int)
    requires
        distinct_paths(es),
        0 <= i < es.len(),
    ensures
        lookup_tokens(es, es[i].0@) == tokens_model(es[i].1@),
    decreases es.len(),
{
    if i == 0 {
    } else {
        let rest = es.subrange(1, es.len() as int);
        assert(distinct_paths(rest));
        assert(rest[i - 1] == es[i]);
        assert(es[0].0@ != es[i].0@);
        lemma_lookup_at_index(rest, i - 1);
    }
}

proof fn lemma_lookup_absent(es: Seq<(String, Vec<String>)>, p: Seq<char>)
    requires
        !has_path(es, p),
    ensures
        lookup_tokens(es, p) == Set::<Seq<char>>::empty(),
    decreases es.len(),
{
    if es.len() > 0 {
        let rest = es.subrange(1, es.len() as int);
        assert(forall|i: int| 0 <= i < rest.len() ==> rest[i] == es[i + 1]);
        assert(!has_path(rest, p));
        lemma_lookup_absent(rest, p);
    }
}

proof fn lemma_lookup_update(
    es: Seq<(String, Vec<String>)>,
    i: int,
    e: (String, Vec<String>),
    q: Seq<char>,
)
    requires
        distinct_paths(es),
        0 <= i < es.len(),
        e.0@ == es[i].0@,
    ensures
        has_path(es.update(i, e), q) == has_path(es, q),
        lookup_tokens(es.update(i, e), q) == if q == es[i].0@ {
            tokens_model(e.1@)
        } else {
            lookup_tokens(es, q)
        },
    decreases es.len(),
{
    let es2 = es.update(i, e);
    assert(es2.len() == es.len());
    if has_path(es, q) {
        let w = choose|k: int| 0 <= k < es.len() && es[k].0@ == q;
        assert(es2[w].0@ == q);
    }
    if has_path(es2, q) {
        let w = choose|k: int| 0 <= k < es2.len() && es2[k].0@ == q;
        assert(es[w].0@ == q);
    }
    if i == 0 {
        if q != es[0].0@ {
            assert(es2.subrange(1, es2.len() as int) =~= es.subrange(1, es.len() as int));
        }
    } else {
        let rest = es.subrange(1, es.len() as int);
        assert(distinct_paths(rest));
        assert(rest[i - 1] == es[i]);
        assert(es2.subrange(1, es2.len() as int) =~= rest.update(i - 1, e));
        assert(es[0].0@ != es[i].0@);
        lemma_lookup_update(rest, i - 1, e, q);
    }
}

proof fn lemma_lookup_push(es: Seq<(String, Vec<String>)>, e: (String, Vec<String>), q: Seq<char>)
    ensures
        has_path(es.push(e), q) == (has_path(es, q) || q == e.0@),
        lookup_tokens(es.push(e), q) == if has_path(es, q) {
            lookup_tokens(es, q)
        } else if q == e.0@ {
            tokens_model(e.1@)
        } else {
            lookup_tokens(es, q)
        },
    decreases es.len(),
{
    let es2 = es.push(e);
    if has_path(es, q) {
        let w = choose|k: int| 0 <= k < es.len() && es[k].0@ == q;
        assert(es2[w].0@ == q);
    }
    if has_path(es2, q) && q != e.0@ {
        let w = choose|k: int| 0 <= k < es2.len() && es2[k].0@ == q;
        assert(w < es.len());
        assert(es[w].0@ == q);
    }
    if !has_path(es, q) && es.len() > 0 {
        if es[0].0@ == q {
            assert(has_path(es, q));
        }
    }
    if es.len() == 0 {
        assert(es2[0] == e);
        if q != e.0@ {
            assert(es2.subrange(1, es2.len() as int) =~= Seq::<(String, Vec<String>)>::empty());
            assert(lookup_tokens(Seq::<(String, Vec<String>)>::empty(), q) == Set::<
                Seq<char>,
            >::empty());
        }
    } else {
        let rest = es.subrange(1, es.len() as int);
        assert(forall|k: int| 0 <= k < rest.len() ==> rest[k] == es[k + 1]);
        assert(es2[0] == es[0]);
        assert(es2.subrange(1, es2.len() as int) =~= rest.push(e));
        lemma_lookup_push(rest, e, q);
        if has_path(es, q) && es[0].0@ != q {
            let w = choose|k: int| 0 <= k < es.len() && es[k].0@ == q;
            assert(rest[w - 1].0@ == q);
            assert(has_path(rest, q));
        }
        if !has_path(es, q) {
            if has_path(rest, q) {
                let w = choose|k: int| 0 <= k < rest.len() && rest[k].0@ == q;
                assert(es[w + 1].0@ == q);
                assert(has_path(es, q));
            }
            assert(!has_path(rest, q));
        }
    }
}

/// Searches a token list for a token with the given view.
fn contains_token(ts: &Vec<String>, t: &String) -> (b: bool)
    ensures
        b == tokens_model(ts@).contains(t@),
{
    let n = ts.len();
    let mut k: usize = 0;
    while k < n
        invariant
            k <= n,
            n == ts@.len(),
            forall|l: int| 0 <= l < k ==> ts@[l]@ != t@,
        decreases n - k,
    {
        if ts[k] == *t {
            proof {
                assert(ts@[k as int]@ == t@);
                lemma_tokens_model_contains_at(ts@, k as int);
            }
            return true;
        }
        k = k + 1;
    }
    proof {
        lemma_tokens_model_absent(ts@, t@);
    }
    false
}

/// The exact accumulator: a list of entries pairing each observed path with
/// the distinct canonical tokens seen there, in first-observation order.
pub struct ExactAccumulator {
    entries: Vec<(String, Vec<String>)>,
}

impl ExactAccumulator {
    /// Well-formedness: entry paths are pairwise distinct, and each token
    /// list is free of repeats.
    pub closed spec fn wf(&self) -> bool {
        &&& distinct_paths(self.entries@)
        &&& forall|i: int|
            0 <= i < self.entries@.len() ==> distinct_token_views(#[trigger] self.entries@[i].1@)
    }

    /// The abstract state: the map from each observed path to its token set.
    pub closed spec fn view(&self) -> Map<Seq<char>, Set<Seq<char>>> {
        Map::new(
            |p: Seq<char>| has_path(self.entries@, p),
            |p: Seq<char>| lookup_tokens(self.entries@, p),
        )
    }

    /// The paths of the report, in first-observation order.
    pub closed spec fn path_order(&self) -> Seq<Seq<char>> {
        self.entries@.map_values(|e: (String, Vec<String>)| e.0@)
    }

    /// A fresh accumulator holding no observation.
    pub fn new() -> (r: ExactAccumulator)
        ensures
            r.wf(),
            r@ == Map::<Seq<char>, Set<Seq<char>>>::empty(),
    {
        let r = ExactAccumulator { entries: Vec::new() };
        proof {
            assert(r@ =~= Map::<Seq<char>, Set<Seq<char>>>::empty());
        }
        r
    }

    /// Ingests one observation: the scalar's canonical token joins the set
    /// owned by `path`, created empty on that path's first observation.
    pub fn ingest(&mut self, path: &String, s: &Scalar)
        requires
            old(self).wf(),
        ensures
            final(self).wf(),
            final(self)@ == exact_step(old(self)@, (path@, s@)),
    {
        let tok = s.canon_token();
        let n = self.entries.len();
        let mut i: usize = 0;
        while i < n
            invariant
                i <= n,
                n == self.entries@.len(),
                *self == *old(self),
                self.wf(),
                tok@ == canon(s@),
                forall|j: int| 0 <= j < i ==> self.entries@[j].0@ != path@,
            decreases n - i,
        {
            if self.entries[i].0 == *path {
                let ghost es0 = self.entries@;
                let p_owned = self.entries[i].0.clone();
                let mut ts = self.entries[i].1.clone();
                proof {
                    assert(forall|l: int|
                        0 <= l < ts@.len() ==> cloned::<String>(es0[i as int].1@[l], #[trigger] ts@[l]));
                    assert(ts@ =~= es0[i as int].1@);
                }
                let present = contains_token(&ts, &tok);
                if !present {
                    ts.push(tok);
                }
                proof {
                    if !present {
                        assert(ts@.subrange(0, ts@.len() - 1) =~= es0[i as int].1@);
                        let old_ts = es0[i as int].1@;
                        assert forall|l: int| 0 <= l < old_ts.len() implies old_ts[l]@ != canon(
                            s@,
                        ) by {
                            lemma_tokens_model_contains_at(old_ts, l);
                        }
                        assert(distinct_token_views(ts@));
                    }
                    assert(tokens_model(ts@) =~= tokens_model(es0[i as int].1@).insert(canon(s@)));
                }
                self.entries.set(i, (p_owned, ts));
                proof {
                    let es2 = self.entries@;
                    assert(es2 =~= es0.update(i as int, (es0[i as int].0, ts)).update(
                        i as int,
                        es2[i as int],
                    ));
                    assert(es2 =~= es0.update(i as int, es2[i as int]));
                    assert(es2[i as int].0@ == path@);
                    assert forall|q: Seq<char>|
                        has_path(es2, q) == has_path(es0, q) && lookup_tokens(es2, q) == (if q
                            == path@ {
                            tokens_model(es2[i as int].1@)
                        } else {
                            lookup_tokens(es0, q)
                        }) by {
                        lemma_lookup_update(es0, i as int, es2[i as int], q);
                    }
                    lemma_lookup_at_index(es0, i as int);
                    assert(self@.dom() =~= exact_step(old(self)@, (path@, s@)).dom());
                    assert(self@ =~~= exact_step(old(self)@, (path@, s@)));
                    assert(distinct_paths(es2));
                    assert(forall|k: int|
                        0 <= k < es2.len() ==> distinct_token_views(#[trigger] es2[k].1@));
                }
                return ;
            }
            i = i + 1;
        }
        let ghost es0 = self.entries@;
        let mut ts: Vec<String> = Vec::new();
        ts.push(tok);
        self.entries.push((path.clone(), ts));
        proof {
            let es2 = self.entries@;
            assert(!has_path(es0, path@));
            assert(ts@.subrange(0, 0) =~= Seq::<String>::empty());
            assert(tokens_model(Seq::<String>::empty()) == Set::<Seq<char>>::empty());
            assert(tokens_model(ts@) == tokens_model(ts@.subrange(0, ts@.len() - 1)).insert(
                ts@[ts@.len() - 1]@,
            ));
            assert(tokens_model(ts@) =~= Set::<Seq<char>>::empty().insert(canon(s@)));
            assert(es2 =~= es0.push(es2[es0.len() as int]));
            assert forall|q: Seq<char>| true implies has_path(es2, q) == (has_path(es0, q) || q
                == path@) && lookup_tokens(es2, q) == (if has_path(es0, q) {
                lookup_tokens(es0, q)
            } else if q == path@ {
                tokens_model(ts@)
            } else {
                lookup_tokens(es0, q)
            }) by {
                lemma_lookup_push(es0, es2[es0.len() as int], q);
            }
            lemma_lookup_absent(es0, path@);
            assert(tokens_of(old(self)@, path@) =~= Set::<Seq<char>>::empty());
            assert(self@.dom() =~= exact_step(old(self)@, (path@, s@)).dom());
            assert(self@ =~~= exact_step(old(self)@, (path@, s@)));
            assert(distinct_paths(es2));
            assert(forall|k: int|
                0 <= k < es2.len() ==> distinct_token_views(#[trigger] es2[k].1@));
        }
    }

    /// The current count at a path: the number of distinct canonical tokens
    /// observed there, zero where the path was never observed.
    pub fn count(&self, path: &String) -> (n: usize)
        requires
            self.wf(),
        ensures
            n == tokens_of(self@, path@).len(),
    {
        let m = self.entries.len();
        let mut i: usize = 0;
        while i < m
            invariant
                i <= m,
                m == self.entries@.len(),
                self.wf(),
                forall|j: int| 0 <= j < i ==> self.entries@[j].0@ != path@,
            decreases m - i,
        {
            if self.entries[i].0 == *path {
                proof {
                    lemma_lookup_at_index(self.entries@, i as int);
                    lemma_tokens_model_len(self.entries@[i as int].1@);
                }
                return self.entries[i].1.len();
            }
            i = i + 1;
        }
        proof {
            assert(!has_path(self.entries@, path@));
        }
        0
    }

    /// The final report: every observed path with its exact count, in
    /// first-observation order. Every path of the state appears exactly
    /// once.
    pub fn report(&self) -> (r: Vec<(String, u64)>)
        requires
            self.wf(),
        ensures
            r@.len() == self.path_order().len(),
            forall|i: int| 0 <= i < r@.len() ==> (#[trigger] r@[i]).0@ == self.path_order()[i],
            forall|i: int|
                0 <= i < r@.len() ==> self@.dom().contains((#[trigger] r@[i]).0@) && r@[i].1
                    == tokens_of(self@, r@[i].0@).len(),
            forall|p: Seq<char>|
                self@.dom().contains(p) ==> exists|i: int| 0 <= i < r@.len() && (#[trigger] r@[
                i]).0@ == p,
            forall|i: int, j: int|
                0 <= i < r@.len() && 0 <= j < r@.len() && i != j ==> (#[trigger] r@[i]).0@ != (
                #[trigger] r@[j]).0@,
    {
        let n = self.entries.len();
        let mut r: Vec<(String, u64)> = Vec::new();
        let mut i: usize = 0;
        while i < n
            invariant
                i <= n,
                n == self.entries@.len(),
                self.wf(),
                r@.len() == i,
                forall|j: int| 0 <= j < i ==> (#[trigger] r@[j]).0@ == self.entries@[j].0@,
                forall|j: int|
                    0 <= j < i ==> (#[trigger] r@[j]).1 == tokens_model(self.entries@[j].1@).len(),
            decreases n - i,
        {
            let c = self.entries[i].1.len();
            proof {
                lemma_tokens_model_len(self.entries@[i as int].1@);
            }
            r.push((self.entries[i].0.clone(), c as u64));
            i = i + 1;
        }
        proof {
            assert forall|j: int| 0 <= j < r@.len() implies self@.dom().contains(
                (#[trigger] r@[j]).0@,
            ) && r@[j].1 == tokens_of(self@, r@[j].0@).len() by {
                assert(self.entries@[j].0@ == r@[j].0@);
                assert(has_path(self.entries@, r@[j].0@));
                lemma_lookup_at_index(self.entries@, j);
            }
            assert forall|p: Seq<char>| self@.dom().contains(p) implies exists|i: int|
                0 <= i < r@.len() && (#[trigger] r@[i]).0@ == p by {
                let w = choose|k: int|
                    0 <= k < self.entries@.len() && self.entries@[k].0@ == p;
                assert(r@[w].0@ == p);
            }
        }
        r
    }
}

} // verus!
