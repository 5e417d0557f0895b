//! The approximate accumulator: per path, a fixed-memory cardinality
//! sketch of the distinct canonical tokens observed there. Memory per path
//! is constant; the count is an estimate within the sketch's error bound.

use vstd::prelude::*;

use crate::flatten::ObsModel;
use crate::sketch::{empty_regs, estimate_model, sketch_insert, wf_regs, Sketch};
use crate::value::{canon, Scalar};

verus! {

/// The registers a model state holds at path `p`: the empty register state
/// where the path was never observed.
pub open spec fn regs_of(m: Map<Seq<char>, Seq<u8>>, p: Seq<char>) -> Seq<u8> {
    if m.dom().contains(p) {
        m[p]
    } else {
        empty_regs()
    }
}

/// One observation applied to a model state: the scalar's canonical token
/// joins the sketch owned by the observation's path.
pub open spec fn approx_step(m: Map<Seq<char>, Seq<u8>>, o: ObsModel) -> Map<Seq<char>, Seq<u8>> {
    m.insert(o.0, sketch_insert(regs_of(m, o.0), canon(o.1)))
}

/// A run of observations applied in order.
pub open spec fn approx_run(m: Map<Seq<char>, Seq<u8>>, obs: Seq<ObsModel>) -> Map<
    Seq<char>,
    Seq<u8>,
>
    decreases obs.len(),
{
    if obs.len() == 0 {
        m
    } else {
        approx_run(approx_step(m, obs[0]), obs.subrange(1, obs.len() as int))
    }
}

/// Every sketch a model state holds is well formed.
pub open spec fn wf_approx(m: Map<Seq<char>, Seq<u8>>) -> bool {
    forall|p: Seq<char>| m.dom().contains(p) ==> wf_regs(#[trigger] m[p])
}

/// Observation order is invisible: two observations reach the same
/// approximate state in either order, so the estimate does not depend on
/// the order in which records arrive or on traversal order within a record.
pub proof fn lemma_approx_step_comm(m: Map<Seq<char>, Seq<u8>>, a: ObsModel, b: ObsModel)
    requires
        wf_approx(m),
    ensures
        approx_step(approx_step(m, a), b) == approx_step(approx_step(m, b), a),
{
    assert(wf_regs(empty_regs()));
    if a.0 == b.0 {
        let ra = regs_of(m, a.0);
        assert(wf_regs(ra));
        assert(regs_of(approx_step(m, a), b.0) == sketch_insert(ra, canon(a.1)));
        assert(regs_of(approx_step(m, b), a.0) == sketch_insert(ra, canon(b.1)));
        crate::sketch::lemma_sketch_insert_comm(ra, canon(a.1), canon(b.1));
        assert(approx_step(approx_step(m, a), b) =~~= approx_step(approx_step(m, b), a));
    } else {
        assert(regs_of(approx_step(m, a), b.0) == regs_of(m, b.0));
        assert(regs_of(approx_step(m, b), a.0) == regs_of(m, a.0));
        assert(approx_step(approx_step(m, a), b) =~~= approx_step(approx_step(m, b), a));
    }
}

spec fn a_has_path(es: Seq<(String, Sketch)>, p: Seq<char>) -> bool {
    exists|i: int| 0 <= i < es.len() && es[i].0@ == p
}

spec fn a_lookup(es: Seq<(String, Sketch)>, p: Seq<char>) -> Seq<u8>
    decreases es.len(),
{
    if es.len() == 0 {
        empty_regs()
    } else if es[0].0@ == p {
        es[0].1@
    } else {
        a_lookup(es.subrange(1, es.len() as int), p)
    }
}

spec fn a_distinct_paths(es: Seq<(String, Sketch)>) -> bool {
    forall|i: int, j: int| 0 <= i < es.len() && 0 <= j < es.len() && i != j ==> es[i].0@ != es[j].0@
}

proof fn lemma_a_lookup_at_index(es: Seq<(String, Sketch)>, i: int)
    requires
        a_distinct_paths(es),
        0 <= i < es.len(),
    ensures
        a_lookup(es, es[i].0@) == es[i].1@,
    decreases es.len(),
{
    if i == 0 {
    } else {
        let rest = es.subrange(1, es.len() as int);
        assert(a_distinct_paths(rest));
        assert(rest[i - 1] == es[i]);
        assert(es[0].0@ != es[i].0@);
        lemma_a_lookup_at_index(rest, i - 1);
    }
}

proof fn lemma_a_lookup_absent(es: Seq<(String, Sketch)>, p: Seq<char>)
    requires
        !a_has_path(es, p),
    ensures
        a_lookup(es, p) == empty_regs(),
    decreases es.len(),
{
    if es.len() > 0 {
        let rest = es.subrange(1, es.len() as int);
        assert(forall|i: int| 0 <= i < rest.len() ==> rest[i] == es[i + 1]);
        assert(!a_has_path(rest, p));
        lemma_a_lookup_absent(rest, p);
    }
}

proof fn lemma_a_lookup_update(es: Seq<(String, Sketch)>, i: int, e: (String, Sketch), q: Seq<char>)
    requires
        a_distinct_paths(es),
        0 <= i < es.len(),
        e.0@ == es[i].0@,
    ensures
        a_has_path(es.update(i, e), q) == a_has_path(es, q),
        a_lookup(es.update(i, e), q) == if q == es[i].0@ {
            e.1@
        } else {
            a_lookup(es, q)
        },
    decreases es.len(),
{
    let es2 = es.update(i, e);
    if a_has_path(es, q) {
        let w = choose|k: int| 0 <= k < es.len() && es[k].0@ == q;
        assert(es2[w].0@ == q);
    }
    if a_has_path(es2, q) {
        let w = choose|k: int| 0 <= k < es2.len() && es2[k].0@ == q;
        assert(es[w].0@ == q);
    }
    if i == 0 {
        if q != es[0].0@ {
            assert(es2.subrange(1, es2.len() as int) =~= es.subrange(1, es.len() as int));
        }
    } else {
        let rest = es.subrange(1, es.len() as int);
        assert(a_distinct_paths(rest));
        assert(rest[i - 1] == es[i]);
        assert(es2.subrange(1, es2.len() as int) =~= rest.update(i - 1, e));
        assert(es[0].0@ != es[i].0@);
        lemma_a_lookup_update(rest, i - 1, e, q);
    }
}

proof fn lemma_a_lookup_push(es: Seq<(String, Sketch)>, e: (String, Sketch), q: Seq<char>)
    ensures
        a_has_path(es.push(e), q) == (a_has_path(es, q) || q == e.0@),
        a_lookup(es.push(e), q) == if a_has_path(es, q) {
            a_lookup(es, q)
        } else if q == e.0@ {
            e.1@
        } else {
            a_lookup(es, q)
        },
    decreases es.len(),
{
    let es2 = es.push(e);
    if a_has_path(es, q) {
        let w = choose|k: int| 0 <= k < es.len() && es[k].0@ == q;
        assert(es2[w].0@ == q);
    }
    if a_has_path(es2, q) && q != e.0@ {
        let w = choose|k: int| 0 <= k < es2.len() && es2[k].0@ == q;
        assert(w < es.len());
        assert(es[w].0@ == q);
    }
    if !a_has_path(es, q) && es.len() > 0 {
        if es[0].0@ == q {
            assert(a_has_path(es, q));
        }
    }
    if es.len() == 0 {
        assert(es2[0] == e);
        if q != e.0@ {
            assert(es2.subrange(1, es2.len() as int) =~= Seq::<(String, Sketch)>::empty());
            assert(a_lookup(Seq::<(String, Sketch)>::empty(), q) == empty_regs());
        }
    } else {
        let rest = es.subrange(1, es.len() as int);
        assert(forall|k: int| 0 <= k < rest.len() ==> rest[k] == es[k + 1]);
        assert(es2[0] == es[0]);
        assert(es2.subrange(1, es2.len() as int) =~= rest.push(e));
        lemma_a_lookup_push(rest, e, q);
        if a_has_path(es, q) && es[0].0@ != q {
            let w = choose|k: int| 0 <= k < es.len() && es[k].0@ == q;
            assert(rest[w - 1].0@ == q);
            assert(a_has_path(rest, q));
        }
        if !a_has_path(es, q) {
            if a_has_path(rest, q) {
                let w = choose|k: int| 0 <= k < rest.len() && rest[k].0@ == q;
                assert(es[w + 1].0@ == q);
                assert(a_has_path(es, q));
            }
            assert(!a_has_path(rest, q));
        }
    }
}

/// The approximate accumulator: a list of entries pairing each observed
/// path with its sketch, in first-observation order.
pub struct ApproxAccumulator {
    entries: Vec<(String, Sketch)>,
}

impl ApproxAccumulator {
    /// Well-formedness: entry paths are pairwise distinct and every sketch
    /// is well formed.
    pub closed spec fn wf(&self) -> bool {
        &&& a_distinct_paths(self.entries@)
        &&& forall|i: int| 0 <= i < self.entries@.len() ==> (#[trigger] self.entries@[i]).1.wf()
    }

    /// The abstract state: the map from each observed path to its sketch's
    /// registers.
    pub closed spec fn view(&self) -> Map<Seq<char>, Seq<u8>> {
        Map::new(
            |p: Seq<char>| a_has_path(self.entries@, p),
            |p: Seq<char>| a_lookup(self.entries@, p),
        )
    }

    /// A fresh accumulator holding no observation.
    pub fn new() -> (r: ApproxAccumulator)
        ensures
            r.wf(),
            r@ == Map::<Seq<char>, Seq<u8>>::empty(),
    {
        let r = ApproxAccumulator { entries: Vec::new() };
        proof {
            assert(r@ =~= Map::<Seq<char>, Seq<u8>>::empty());
        }
        r
    }

    /// Ingests one observation: the scalar's canonical token is fed into
    /// the sketch owned by `path`, created fresh on that path's first
    /// observation.
    pub fn ingest(&mut self, path: &String, s: &Scalar)
        requires
            old(self).wf(),
        ensures
            final(self).wf(),
            final(self)@ == approx_step(old(self)@, (path@, s@)),
    {
        let tok = s.canon_token();
        let n = self.entries.len();
        let mut i: usize = 0;
        while i < n
            invariant
                i <= n,
                n == self.entries@.len(),
                *self == *old(self),
                self.wf(),
                tok@ == canon(s@),
                forall|j: int| 0 <= j < i ==> self.entries@[j].0@ != path@,
            decreases n - i,
        {
            if self.entries[i].0 == *path {
                let ghost es0 = self.entries@;
                let e = &mut self.entries[i];
                e.1.insert(&tok);
                proof {
                    let es2 = self.entries@;
                    assert(es2 == es0.update(i as int, es2[i as int]));
                    assert(es2[i as int].0@ == path@);
                    assert(es2[i as int].1@ == sketch_insert(es0[i as int].1@, canon(s@)));
                    assert forall|q: Seq<char>|
                        a_has_path(es2, q) == a_has_path(es0, q) && a_lookup(es2, q) == (if q
                            == path@ {
                            es2[i as int].1@
                        } else {
                            a_lookup(es0, q)
                        }) by {
                        lemma_a_lookup_update(es0, i as int, es2[i as int], q);
                    }
                    lemma_a_lookup_at_index(es0, i as int);
                    assert(self@.dom() =~= approx_step(old(self)@, (path@, s@)).dom());
                    assert(self@ =~~= approx_step(old(self)@, (path@, s@)));
                    assert(a_distinct_paths(es2));
                    assert(forall|k: int| 0 <= k < es2.len() ==> (#[trigger] es2[k]).1.wf());
                }
                return ;
            }
            i = i + 1;
        }
        let ghost es0 = self.entries@;
        let mut sk = Sketch::new();
        sk.insert(&tok);
        self.entries.push((path.clone(), sk));
        proof {
            let es2 = self.entries@;
            assert(!a_has_path(es0, path@));
            assert(es2 =~= es0.push(es2[es0.len() as int]));
            assert forall|q: Seq<char>| true implies a_has_path(es2, q) == (a_has_path(es0, q) || q
                == path@) && a_lookup(es2, q) == (if a_has_path(es0, q) {
                a_lookup(es0, q)
            } else if q == path@ {
                sk@
            } else {
                a_lookup(es0, q)
            }) by {
                lemma_a_lookup_push(es0, es2[es0.len() as int], q);
            }
            lemma_a_lookup_absent(es0, path@);
            assert(regs_of(old(self)@, path@) =~= empty_regs());
            assert(self@.dom() =~= approx_step(old(self)@, (path@, s@)).dom());
            assert(self@ =~~= approx_step(old(self)@, (path@, s@)));
            assert(a_distinct_paths(es2));
            assert(forall|k: int| 0 <= k < es2.len() ==> (#[trigger] es2[k]).1.wf());
        }
    }

    /// The current estimate at a path, zero where the path was never
    /// observed.
    pub fn count(&self, path: &String) -> (n: u64)
        requires
            self.wf(),
        ensures
            self@.dom().contains(path@) ==> n as int == estimate_model(self@[path@]),
            !self@.dom().contains(path@) ==> n == 0,
    {
        let m = self.entries.len();
        let mut i: usize = 0;
        while i < m
            invariant
                i <= m,
                m == self.entries@.len(),
                self.wf(),
                forall|j: int| 0 <= j < i ==> self.entries@[j].0@ != path@,
            decreases m - i,
        {
            if self.entries[i].0 == *path {
                proof {
                    lemma_a_lookup_at_index(self.entries@, i as int);
                }
                return self.entries[i].1.estimate();
            }
            i = i + 1;
        }
        proof {
            assert(!a_has_path(self.entries@, path@));
        }
        0
    }

    /// The final report: every observed path with its estimate, in
    /// first-observation order. Every path of the state appears exactly
    /// once.
    pub fn report(&self) -> (r: Vec<(String, u64)>)
        requires
            self.wf(),
        ensures
            forall|i: int|
                0 <= i < r@.len() ==> self@.dom().contains((#[trigger] r@[i]).0@) && r@[i].1 as int
                    == estimate_model(self@[r@[i].0@]),
            forall|p: Seq<char>|
                self@.dom().contains(p) ==> exists|i: int| 0 <= i < r@.len() && (#[trigger] r@[
                i]).0@ == p,
            forall|i: int, j: int|
                0 <= i < r@.len() && 0 <= j < r@.len() && i != j ==> (#[trigger] r@[i]).0@ != (
                #[trigger] r@[j]).0@,
    {
        let n = self.entries.len();
        let mut r: Vec<(String, u64)> = Vec::new();
        let mut i: usize = 0;
        while i < n
            invariant
                i <= n,
                n == self.entries@.len(),
                self.wf(),
                r@.len() == i,
                forall|j: int| 0 <= j < i ==> (#[trigger] r@[j]).0@ == self.entries@[j].0@,
                forall|j: int|
                    0 <= j < i ==> (#[trigger] r@[j]).1 as int == estimate_model(
                        self.entries@[j].1@,
                    ),
            decreases n - i,
        {
            let c = self.entries[i].1.estimate();
            r.push((self.entries[i].0.clone(), c));
            i = i + 1;
        }
        proof {
            assert forall|j: int| 0 <= j < r@.len() implies self@.dom().contains(
                (#[trigger] r@[j]).0@,
            ) && r@[j].1 as int == estimate_model(self@[r@[j].0@]) by {
                assert(self.entries@[j].0@ == r@[j].0@);
                assert(a_has_path(self.entries@, r@[j].0@));
                lemma_a_lookup_at_index(self.entries@, j);
            }
            assert forall|p: Seq<char>| self@.dom().contains(p) implies exists|i: int|
                0 <= i < r@.len() && (#[trigger] r@[i]).0@ == p by {
                let w = choose|k: int| 0 <= k < self.entries@.len() && self.entries@[k].0@ == p;
                assert(r@[w].0@ == p);
            }
        }
        r
    }
}

} // verus!
