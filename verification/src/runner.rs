//! The stream runner: owns the accumulator of the selected mode, ingests
//! one parsed record at a time, tolerates malformed lines, and on end of
//! input completes with the final path-to-count report. Cancellation is
//! advisory: the runner stops and no report is owed.

use vstd::prelude::*;

use crate::approx::{approx_run, approx_step, ApproxAccumulator};
use crate::exact::{exact_run, exact_step, tokens_of, ExactAccumulator};
use crate::flatten::{flatten_of, flatten_record, obs_model_of, ObsModel};
use crate::sketch::estimate_model;
use crate::value::Value;

verus! {

/// The accounting mode: exact sets or approximate sketches.
#[derive(PartialEq, Eq, Structural, Clone, Copy, Debug)]
pub enum Mode {
    Exact,
    Approximate,
}

/// Where the run stands. A run starts `Running` and ends in exactly one of
/// the two terminal phases.
#[derive(PartialEq, Eq, Structural, Clone, Copy, Debug)]
pub enum Phase {
    Running,
    Completed,
    Cancelled,
}

/// The stream runner's state.
pub struct Runner {
    pub mode: Mode,
    pub phase: Phase,
    pub exact: ExactAccumulator,
    pub approx: ApproxAccumulator,
    pub malformed: u64,
}

proof fn lemma_exact_run_push(m: Map<Seq<char>, Set<Seq<char>>>, obs: Seq<ObsModel>, o: ObsModel)
    ensures
        exact_run(m, obs.push(o)) == exact_step(exact_run(m, obs), o),
    decreases obs.len(),
{
    if obs.len() == 0 {
        assert(obs.push(o)[0] == o);
        assert(obs.push(o).subrange(1, obs.push(o).len() as int) =~= Seq::<ObsModel>::empty());
        assert(exact_run(m, obs) == m);
        assert(exact_run(m, obs.push(o)) == exact_run(
            exact_step(m, o),
            obs.push(o).subrange(1, obs.push(o).len() as int),
        ));
        assert(exact_run(exact_step(m, o), Seq::<ObsModel>::empty()) == exact_step(m, o));
    } else {
        let rest = obs.subrange(1, obs.len() as int);
        assert(obs.push(o)[0] == obs[0]);
        assert(obs.push(o).subrange(1, obs.push(o).len() as int) =~= rest.push(o));
        lemma_exact_run_push(exact_step(m, obs[0]), rest, o);
        assert(exact_run(m, obs.push(o)) == exact_run(exact_step(m, obs[0]), rest.push(o)));
        assert(exact_run(m, obs) == exact_run(exact_step(m, obs[0]), rest));
    }
}

proof fn lemma_approx_run_push(m: Map<Seq<char>, Seq<u8>>, obs: Seq<ObsModel>, o: ObsModel)
    ensures
        approx_run(m, obs.push(o)) == approx_step(approx_run(m, obs), o),
    decreases obs.len(),
{
    if obs.len() == 0 {
        assert(obs.push(o)[0] == o);
        assert(obs.push(o).subrange(1, obs.push(o).len() as int) =~= Seq::<ObsModel>::empty());
        assert(approx_run(m, obs) == m);
        assert(approx_run(m, obs.push(o)) == approx_run(
            approx_step(m, o),
            obs.push(o).subrange(1, obs.push(o).len() as int),
        ));
        assert(approx_run(approx_step(m, o), Seq::<ObsModel>::empty()) == approx_step(m, o));
    } else {
        let rest = obs.subrange(1, obs.len() as int);
        assert(obs.push(o)[0] == obs[0]);
        assert(obs.push(o).subrange(1, obs.push(o).len() as int) =~= rest.push(o));
        lemma_approx_run_push(approx_step(m, obs[0]), rest, o);
        assert(approx_run(m, obs.push(o)) == approx_run(approx_step(m, obs[0]), rest.push(o)));
        assert(approx_run(m, obs) == approx_run(approx_step(m, obs[0]), rest));
    }
}

impl Runner {
    /// Well-formedness of both accumulators.
    pub open spec fn wf(&self) -> bool {
        self.exact.wf() && self.approx.wf()
    }

    /// A fresh runner: the chosen mode, the running phase, empty state.
    pub fn new(mode: Mode) -> (r: Runner)
        ensures
            r.wf(),
            r.mode == mode,
            r.phase == Phase::Running,
            r.exact@ == Map::<Seq<char>, Set<Seq<char>>>::empty(),
            r.approx@ == Map::<Seq<char>, Seq<u8>>::empty(),
            r.malformed == 0,
    {
        Runner {
            mode,
            phase: Phase::Running,
            exact: ExactAccumulator::new(),
            approx: ApproxAccumulator::new(),
            malformed: 0,
        }
    }

    /// Ingests one parsed record: every observation of the record, in
    /// depth-first order, enters the accumulator of the active mode.
    pub fn ingest_record(&mut self, v: &Value)
        requires
            old(self).wf(),
            old(self).phase == Phase::Running,
        ensures
            final(self).wf(),
            final(self).mode == old(self).mode,
            final(self).phase == old(self).phase,
            final(self).malformed == old(self).malformed,
            old(self).mode == Mode::Exact ==> final(self).exact@ == exact_run(
                old(self).exact@,
                flatten_of(*v, Seq::<char>::empty()),
            ) && final(self).approx@ == old(self).approx@,
            old(self).mode == Mode::Approximate ==> final(self).approx@ == approx_run(
                old(self).approx@,
                flatten_of(*v, Seq::<char>::empty()),
            ) && final(self).exact@ == old(self).exact@,
    {
        let obs = flatten_record(v);
        let ghost om = obs_model_of(obs@);
        proof {
            assert(om.subrange(0, 0) =~= Seq::<ObsModel>::empty());
        }
        let n = obs.len();
        let mut i: usize = 0;
        if self.mode == Mode::Exact {
            while i < n
                invariant
                    i <= n,
                    n == obs@.len(),
                    om == obs_model_of(obs@),
                    self.wf(),
                    self.mode == old(self).mode,
                    self.mode == Mode::Exact,
                    self.phase == old(self).phase,
                    self.malformed == old(self).malformed,
                    self.approx@ == old(self).approx@,
                    self.exact@ == exact_run(old(self).exact@, om.subrange(0, i as int)),
                decreases n - i,
            {
                let o = &obs[i];
                proof {
                    assert(om[i as int] == (obs@[i as int].0@, obs@[i as int].1@));
                    assert(om.subrange(0, i + 1) =~= om.subrange(0, i as int).push(om[i as int]));
                    lemma_exact_run_push(old(self).exact@, om.subrange(0, i as int), om[i as int]);
                }
                self.exact.ingest(&o.0, &o.1);
                i = i + 1;
            }
            proof {
                assert(om.subrange(0, n as int) =~= om);
            }
        } else {
            while i < n
                invariant
                    i <= n,
                    n == obs@.len(),
                    om == obs_model_of(obs@),
                    self.wf(),
                    self.mode == old(self).mode,
                    self.mode == Mode::Approximate,
                    self.phase == old(self).phase,
                    self.malformed == old(self).malformed,
                    self.exact@ == old(self).exact@,
                    self.approx@ == approx_run(old(self).approx@, om.subrange(0, i as int)),
                decreases n - i,
            {
                let o = &obs[i];
                proof {
                    assert(om[i as int] == (obs@[i as int].0@, obs@[i as int].1@));
                    assert(om.subrange(0, i + 1) =~= om.subrange(0, i as int).push(om[i as int]));
                    lemma_approx_run_push(old(self).approx@, om.subrange(0, i as int), om[i as int]);
                }
                self.approx.ingest(&o.0, &o.1);
                i = i + 1;
            }
            proof {
                assert(om.subrange(0, n as int) =~= om);
            }
        }
    }

    /// A malformed input line: it is counted for diagnostics and nothing
    /// else changes, so the two valid neighbours of a bad line contribute
    /// exactly as they would have without it and the stream goes on.
    pub fn record_malformed(&mut self)
        requires
            old(self).wf(),
            old(self).phase == Phase::Running,
        ensures
            final(self).wf(),
            final(self).mode == old(self).mode,
            final(self).phase == old(self).phase,
            final(self).exact@ == old(self).exact@,
            final(self).approx@ == old(self).approx@,
            final(self).malformed == if old(self).malformed < u64::MAX {
                old(self).malformed + 1
            } else {
                u64::MAX as int
            },
    {
        if self.malformed < u64::MAX {
            self.malformed = self.malformed + 1;
        }
    }

    /// Advisory cancellation: the run moves to its cancelled terminal
    /// phase; the accumulated state stays as it was but no report is owed.
    pub fn cancel(&mut self)
        requires
            old(self).phase == Phase::Running,
        ensures
            final(self).phase == Phase::Cancelled,
            final(self).mode == old(self).mode,
            final(self).exact == old(self).exact,
            final(self).approx == old(self).approx,
            final(self).malformed == old(self).malformed,
    {
        self.phase = Phase::Cancelled;
    }

    /// End of input: the run completes and yields the report of the active
    /// accumulator, every observed path paired with its count, each path
    /// exactly once.
    pub fn complete(&mut self) -> (r: Vec<(String, u64)>)
        requires
            old(self).wf(),
            old(self).phase == Phase::Running,
        ensures
            final(self).wf(),
            final(self).phase == Phase::Completed,
            final(self).mode == old(self).mode,
            final(self).exact@ == old(self).exact@,
            final(self).approx@ == old(self).approx@,
            final(self).malformed == old(self).malformed,
            old(self).mode == Mode::Exact ==> forall|i: int|
                0 <= i < r@.len() ==> old(self).exact@.dom().contains((#[trigger] r@[i]).0@) && r@[
                i].1 == tokens_of(old(self).exact@, r@[i].0@).len(),
            old(self).mode == Mode::Exact ==> forall|p: Seq<char>|
                old(self).exact@.dom().contains(p) ==> exists|i: int|
                    0 <= i < r@.len() && (#[trigger] r@[i]).0@ == p,
            old(self).mode == Mode::Approximate ==> forall|i: int|
                0 <= i < r@.len() ==> old(self).approx@.dom().contains((#[trigger] r@[i]).0@) && r@[
                i].1 as int == estimate_model(old(self).approx@[r@[i].0@]),
            old(self).mode == Mode::Approximate ==> forall|p: Seq<char>|
                old(self).approx@.dom().contains(p) ==> exists|i: int|
                    0 <= i < r@.len() && (#[trigger] r@[i]).0@ == p,
            forall|i: int, j: int|
                0 <= i < r@.len() && 0 <= j < r@.len() && i != j ==> (#[trigger] r@[i]).0@ != (
                #[trigger] r@[j]).0@,
    {
        self.phase = Phase::Completed;
        if self.mode == Mode::Exact {
            self.exact.report()
        } else {
            self.approx.report()
        }
    }
}

} // verus!
