//! The decisions of the iteration `z -> z*z + c`.
//!
//! The arithmetic on complex numbers is the caller's. After each application of the
//! map the caller reports whether the squared modulus of the new value lies beyond
//! the divergence threshold; the probes of this module count the iterations, keep
//! the values of an orbit, and say when the iteration is over and with what result.

use vstd::prelude::*;

verus! {

/// What the escape-time iteration reports for one seed.
#[derive(Clone, Copy, Debug, PartialEq, Eq, Structural)]
pub enum Outcome {
    /// The threshold was first crossed at the iteration of this 1-based number.
    Diverged(u32),
    /// No iteration within the budget crossed the threshold.
    Bounded,
}

/// Iteration `k + 1` is the first to cross the threshold, and lies within the
/// budget: `flags[i]` tells whether iteration `i + 1` crossed it.
pub open spec fn escapes_at(flags: Seq<bool>, budget: nat, k: int) -> bool {
    &&& 0 <= k < flags.len()
    &&& k < budget
    &&& flags[k]
    &&& forall|j: int| 0 <= j < k ==> !flags[j]
}

/// Two first crossings are the same one.
pub proof fn lemma_escape_unique(flags: Seq<bool>, budget: nat, k1: int, k2: int)
    requires
        escapes_at(flags, budget, k1),
        escapes_at(flags, budget, k2),
    ensures
        k1 == k2,
{
}

/// What the escape-time iteration reports for a trajectory whose crossings of the
/// threshold are `flags`.
pub open spec fn escape_time(flags: Seq<bool>, budget: nat) -> Outcome {
    if exists|k: int| escapes_at(flags, budget, k) {
        Outcome::Diverged(((choose|k: int| escapes_at(flags, budget, k)) + 1) as u32)
    } else {
        Outcome::Bounded
    }
}

/// A trajectory that never crosses the threshold is bounded, whatever the budget.
pub proof fn lemma_never_crossing_is_bounded(flags: Seq<bool>, budget: nat)
    requires
        forall|i: int| 0 <= i < flags.len() ==> !flags[i],
    ensures
        escape_time(flags, budget) == Outcome::Bounded,
{
}

/// A trajectory whose first value lies beyond the threshold diverges at iteration
/// 1, under any budget that allows an iteration at all.
pub proof fn lemma_first_crossing_is_one(flags: Seq<bool>, budget: nat)
    requires
        flags.len() > 0,
        flags[0],
        budget > 0,
    ensures
        escape_time(flags, budget) == Outcome::Diverged(1),
{
    assert(escapes_at(flags, budget, 0));
    let k = choose|k: int| escapes_at(flags, budget, k);
    lemma_escape_unique(flags, budget, k, 0);
}

/// The state of an escape-time iteration that is not over: fewer iterations than the
/// budget were made, and none crossed the threshold.
#[derive(Clone, Copy, Debug)]
pub struct EscapeProbe {
    budget: u32,
    taken: u32,
}

/// What comes next in an escape-time iteration.
#[derive(Clone, Copy, Debug)]
pub enum EscapeStep {
    /// Apply the map once more and report to the probe.
    Iterate(EscapeProbe),
    /// The iteration is over.
    Settled(Outcome),
}

impl EscapeProbe {
    /// The iteration budget.
    pub closed spec fn budget(self) -> nat {
        self.budget as nat
    }

    /// The number of iterations reported so far.
    pub closed spec fn taken(self) -> nat {
        self.taken as nat
    }

    /// Fewer iterations than the budget were made.
    pub open spec fn wf(self) -> bool {
        self.taken() < self.budget() <= u32::MAX
    }

    /// The step before the first iteration.
    pub closed spec fn start(max_iter: u32) -> EscapeStep {
        if max_iter == 0 {
            EscapeStep::Settled(Outcome::Bounded)
        } else {
            EscapeStep::Iterate(EscapeProbe { budget: max_iter, taken: 0 })
        }
    }

    /// The step after one more iteration, which crossed the threshold or did not.
    pub closed spec fn next(self, escaped: bool) -> EscapeStep {
        if escaped {
            EscapeStep::Settled(Outcome::Diverged((self.taken + 1) as u32))
        } else if self.taken + 1 >= self.budget {
            EscapeStep::Settled(Outcome::Bounded)
        } else {
            EscapeStep::Iterate(EscapeProbe { budget: self.budget, taken: (self.taken + 1) as u32 })
        }
    }

    /// Starts an iteration of at most `max_iter` steps. With a budget of zero it is
    /// over at once, without divergence.
    pub fn begin(max_iter: u32) -> (step: EscapeStep)
        ensures
            step == Self::start(max_iter),
            max_iter == 0 ==> step == EscapeStep::Settled(Outcome::Bounded),
            max_iter > 0 ==> (step matches EscapeStep::Iterate(p) && p.wf() && p.budget()
                == max_iter && p.taken() == 0),
    {
        if max_iter == 0 {
            EscapeStep::Settled(Outcome::Bounded)
        } else {
            EscapeStep::Iterate(EscapeProbe { budget: max_iter, taken: 0 })
        }
    }

    /// Takes the report on one more iteration: `escaped` says whether the squared
    /// modulus of its value exceeds the threshold. A crossing settles the outcome
    /// with the iteration's 1-based number; the last iteration of the budget settles
    /// it without divergence.
    pub fn observe(self, escaped: bool) -> (step: EscapeStep)
        requires
            self.wf(),
        ensures
            step == self.next(escaped),
            escaped ==> step == EscapeStep::Settled(
                Outcome::Diverged((self.taken() + 1) as u32),
            ),
            !escaped && self.taken() + 1 == self.budget() ==> step == EscapeStep::Settled(
                Outcome::Bounded,
            ),
            !escaped && self.taken() + 1 < self.budget() ==> (step matches EscapeStep::Iterate(p)
                && p.wf() && p.budget() == self.budget() && p.taken() == self.taken() + 1),
    {
        if escaped {
            EscapeStep::Settled(Outcome::Diverged(self.taken + 1))
        } else if self.taken + 1 >= self.budget {
            EscapeStep::Settled(Outcome::Bounded)
        } else {
            EscapeStep::Iterate(EscapeProbe { budget: self.budget, taken: self.taken + 1 })
        }
    }
}

/// The step reached from `step` by reporting the iterations `flags` in turn; reports
/// made after the iteration is over change nothing.
pub open spec fn escape_run(step: EscapeStep, flags: Seq<bool>) -> EscapeStep
    decreases flags.len(),
{
    if flags.len() == 0 {
        step
    } else {
        match escape_run(step, flags.drop_last()) {
            EscapeStep::Iterate(p) => p.next(flags.last()),
            EscapeStep::Settled(outcome) => EscapeStep::Settled(outcome),
        }
    }
}

/// The state of the probe after the first `n` reports.
proof fn lemma_escape_run_prefix(max_iter: u32, flags: Seq<bool>, n: int)
    requires
        0 <= n <= flags.len(),
    ensures
        (exists|k: int| k < n && escapes_at(flags, max_iter as nat, k)) ==> escape_run(
            EscapeProbe::start(max_iter),
            flags.take(n),
        ) == EscapeStep::Settled(escape_time(flags, max_iter as nat)),
        !(exists|k: int| k < n && escapes_at(flags, max_iter as nat, k)) && n >= max_iter
            ==> escape_run(EscapeProbe::start(max_iter), flags.take(n)) == EscapeStep::Settled(
            Outcome::Bounded,
        ),
        !(exists|k: int| k < n && escapes_at(flags, max_iter as nat, k)) && n < max_iter
            ==> escape_run(EscapeProbe::start(max_iter), flags.take(n)) == EscapeStep::Iterate(
            EscapeProbe { budget: max_iter, taken: n as u32 },
        ) && forall|j: int| 0 <= j < n ==> !flags[j],
    decreases n,
{
    let budget = max_iter as nat;
    if n == 0 {
        assert(flags.take(0).len() == 0);
    } else {
        lemma_escape_run_prefix(max_iter, flags, n - 1);
        assert(flags.take(n).drop_last() == flags.take(n - 1));
        assert(flags.take(n).last() == flags[n - 1]);
        if exists|k: int| k < n - 1 && escapes_at(flags, budget, k) {
            let k = choose|k: int| k < n - 1 && escapes_at(flags, budget, k);
            assert(k < n && escapes_at(flags, budget, k));
        } else if n - 1 >= max_iter {
            assert forall|k: int| k < n && escapes_at(flags, budget, k) implies false by {
                assert(k < n - 1);
            }
        } else {
            if flags[n - 1] {
                assert(escapes_at(flags, budget, n - 1));
                let c = choose|k: int| escapes_at(flags, budget, k);
                lemma_escape_unique(flags, budget, c, n - 1);
            } else {
                assert forall|k: int| k < n && escapes_at(flags, budget, k) implies false by {
                    assert(k < n - 1);
                }
            }
        }
    }
}

/// Driven through a trajectory that is at least as long as its budget, the probe
/// settles on the 1-based number of the first iteration that crossed the
/// threshold, and on `Bounded` where none of the first `max_iter` did.
pub proof fn lemma_escape_run_settles(max_iter: u32, flags: Seq<bool>)
    requires
        flags.len() >= max_iter,
    ensures
        escape_run(EscapeProbe::start(max_iter), flags) == EscapeStep::Settled(
            escape_time(flags, max_iter as nat),
        ),
{
    let n = flags.len() as int;
    lemma_escape_run_prefix(max_iter, flags, n);
    assert(flags.take(n) == flags);
    if exists|k: int| escapes_at(flags, max_iter as nat, k) {
        let k = choose|k: int| escapes_at(flags, max_iter as nat, k);
        assert(k < n && escapes_at(flags, max_iter as nat, k));
    }
}

/// What an orbit iteration has come to: the model of an `OrbitStep`.
pub enum OrbitTrace<P> {
    /// Not over; these values were kept so far.
    Running(Seq<P>),
    /// Over with divergence; these are the values that came before the crossing.
    Escaped(Seq<P>),
    /// Over without divergence; nothing is kept.
    Bounded,
}

/// The trace before the first iteration.
pub open spec fn orbit_start<P>(budget: nat) -> OrbitTrace<P> {
    if budget == 0 {
        OrbitTrace::Bounded
    } else {
        OrbitTrace::Running(Seq::empty())
    }
}

/// The trace after one more iteration, whose value is `point` and which crossed the
/// threshold or did not, where `points` were kept before it.
pub open spec fn orbit_next<P>(budget: nat, points: Seq<P>, point: P, escaped: bool) -> OrbitTrace<
    P,
> {
    if escaped {
        OrbitTrace::Escaped(points)
    } else if points.len() + 1 >= budget {
        OrbitTrace::Bounded
    } else {
        OrbitTrace::Running(points.push(point))
    }
}

/// The trace reached from `trace` by reporting in turn the iterations whose values
/// are `values` and whose crossings are `flags`; reports made after the iteration
/// is over change nothing.
pub open spec fn orbit_run<P>(
    budget: nat,
    trace: OrbitTrace<P>,
    values: Seq<P>,
    flags: Seq<bool>,
) -> OrbitTrace<P>
    recommends
        values.len() == flags.len(),
    decreases values.len(),
{
    if values.len() == 0 {
        trace
    } else {
        match orbit_run(budget, trace, values.drop_last(), flags.drop_last()) {
            OrbitTrace::Running(points) => orbit_next(budget, points, values.last(), flags.last()),
            over => over,
        }
    }
}

/// The orbit that is kept of a trajectory: the values before the first crossing of
/// the threshold, where one of the first `budget` iterations crosses it, and
/// nothing otherwise.
pub open spec fn orbit_of<P>(values: Seq<P>, flags: Seq<bool>, budget: nat) -> Option<Seq<P>> {
    if exists|k: int| escapes_at(flags, budget, k) {
        Some(values.take(choose|k: int| escapes_at(flags, budget, k)))
    } else {
        None
    }
}

/// The state of an orbit iteration that is not over: fewer iterations than the
/// budget were made, none crossed the threshold, and the value of each was kept.
pub struct OrbitProbe<P> {
    budget: usize,
    points: Vec<P>,
}

/// What comes next in an orbit iteration.
pub enum OrbitStep<P> {
    /// Apply the map once more and report to the probe.
    Iterate(OrbitProbe<P>),
    /// The iteration is over with divergence: the values that came before the
    /// crossing, in order.
    Escaped(Vec<P>),
    /// The iteration is over without divergence; its values are discarded.
    Bounded,
}

impl<P> OrbitStep<P> {
    /// The model of this step.
    pub open spec fn trace(self) -> OrbitTrace<P> {
        match self {
            OrbitStep::Iterate(p) => OrbitTrace::Running(p.points()),
            OrbitStep::Escaped(v) => OrbitTrace::Escaped(v@),
            OrbitStep::Bounded => OrbitTrace::Bounded,
        }
    }
}

impl<P> OrbitProbe<P> {
    /// The iteration budget.
    pub closed spec fn budget(self) -> nat {
        self.budget as nat
    }

    /// The values kept so far, in order.
    pub closed spec fn points(self) -> Seq<P> {
        self.points@
    }

    /// Fewer iterations than the budget were made.
    pub open spec fn wf(self) -> bool {
        self.points().len() < self.budget() <= usize::MAX
    }

    /// Starts an iteration of at most `max_iter` steps. With a budget of zero it is
    /// over at once, without divergence.
    pub fn begin(max_iter: usize) -> (step: OrbitStep<P>)
        ensures
            step.trace() == orbit_start::<P>(max_iter as nat),
            step matches OrbitStep::Iterate(p) ==> p.wf() && p.budget() == max_iter,
    {
        if max_iter == 0 {
            OrbitStep::Bounded
        } else {
            OrbitStep::Iterate(OrbitProbe { budget: max_iter, points: Vec::new() })
        }
    }

    /// Takes the report on one more iteration: `point` is its value, and `escaped`
    /// says whether the squared modulus of that value exceeds the threshold. A
    /// crossing ends the iteration and hands out the values kept before it, without
    /// `point`; the last iteration of the budget ends it and discards them;
    /// otherwise `point` is kept.
    pub fn record(self, point: P, escaped: bool) -> (step: OrbitStep<P>)
        requires
            self.wf(),
        ensures
            step.trace() == orbit_next(self.budget(), self.points(), point, escaped),
            step matches OrbitStep::Iterate(p) ==> p.wf() && p.budget() == self.budget(),
    {
        let mut points = self.points;
        if escaped {
            OrbitStep::Escaped(points)
        } else if points.len() + 1 >= self.budget {
            OrbitStep::Bounded
        } else {
            points.push(point);
            OrbitStep::Iterate(OrbitProbe { budget: self.budget, points })
        }
    }
}

/// The trace after the first `n` reports.
proof fn lemma_orbit_run_prefix<P>(budget: nat, values: Seq<P>, flags: Seq<bool>, n: int)
    requires
        values.len() == flags.len(),
        0 <= n <= flags.len(),
    ensures
        (exists|k: int| k < n && escapes_at(flags, budget, k)) ==> orbit_run(
            budget,
            orbit_start(budget),
            values.take(n),
            flags.take(n),
        ) == OrbitTrace::Escaped(orbit_of(values, flags, budget).unwrap()),
        !(exists|k: int| k < n && escapes_at(flags, budget, k)) && n >= budget ==> orbit_run(
            budget,
            orbit_start(budget),
            values.take(n),
            flags.take(n),
        ) == OrbitTrace::<P>::Bounded,
        !(exists|k: int| k < n && escapes_at(flags, budget, k)) && n < budget ==> orbit_run(
            budget,
            orbit_start(budget),
            values.take(n),
            flags.take(n),
        ) == OrbitTrace::Running(values.take(n)) && forall|j: int| 0 <= j < n ==> !flags[j],
    decreases n,
{
    if n == 0 {
        assert(values.take(0).len() == 0);
        assert(values.take(0) == Seq::<P>::empty());
    } else {
        lemma_orbit_run_prefix(budget, values, flags, n - 1);
        assert(flags.take(n).drop_last() == flags.take(n - 1));
        assert(values.take(n).drop_last() == values.take(n - 1));
        assert(flags.take(n).last() == flags[n - 1]);
        assert(values.take(n).last() == values[n - 1]);
        if exists|k: int| k < n - 1 && escapes_at(flags, budget, k) {
            let k = choose|k: int| k < n - 1 && escapes_at(flags, budget, k);
            assert(k < n && escapes_at(flags, budget, k));
        } else if n - 1 >= budget {
            assert forall|k: int| k < n && escapes_at(flags, budget, k) implies false by {
                assert(k < n - 1);
            }
        } else {
            if flags[n - 1] {
                assert(escapes_at(flags, budget, n - 1));
                let c = choose|k: int| escapes_at(flags, budget, k);
                lemma_escape_unique(flags, budget, c, n - 1);
            } else {
                assert forall|k: int| k < n && escapes_at(flags, budget, k) implies false by {
                    assert(k < n - 1);
                }
                assert(values.take(n - 1).push(values[n - 1]) == values.take(n));
            }
        }
    }
}

/// Driven through a trajectory that is at least as long as its budget, the orbit
/// probe ends on the values that came before the first crossing of the threshold,
/// and on `Bounded` where none of the first `budget` iterations crossed it.
pub proof fn lemma_orbit_run_settles<P>(budget: nat, values: Seq<P>, flags: Seq<bool>)
    requires
        values.len() == flags.len(),
        flags.len() >= budget,
    ensures
        orbit_run(budget, orbit_start(budget), values, flags) == match orbit_of(
            values,
            flags,
            budget,
        ) {
            Some(points) => OrbitTrace::Escaped(points),
            None => OrbitTrace::Bounded,
        },
{
    let n = flags.len() as int;
    lemma_orbit_run_prefix(budget, values, flags, n);
    assert(flags.take(n) == flags);
    assert(values.take(n) == values);
    if exists|k: int| escapes_at(flags, budget, k) {
        let k = choose|k: int| escapes_at(flags, budget, k);
        assert(k < n && escapes_at(flags, budget, k));
    }
}

/// The two iterations agree: an orbit is kept exactly where the escape-time
/// iteration reports divergence, and the iteration that crossed the threshold is
/// the one after the last value kept.
pub proof fn lemma_orbit_matches_escape_time<P>(values: Seq<P>, flags: Seq<bool>, budget: nat)
    requires
        values.len() == flags.len(),
        budget <= u32::MAX,
    ensures
        match orbit_of(values, flags, budget) {
            Some(points) => escape_time(flags, budget) == Outcome::Diverged(
                (points.len() + 1) as u32,
            ),
            None => escape_time(flags, budget) == Outcome::Bounded,
        },
{
}

} // verus!
