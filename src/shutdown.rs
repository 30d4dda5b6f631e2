use vstd::prelude::*;

verus! {

/// What the pool does next while it shuts down.
#[derive(PartialEq, Eq, Structural, Clone, Copy, Debug)]
pub enum ShutdownStep {
    /// Enqueue one shutdown signal.
    SendTerminate,
    /// Wait for the worker with this id to leave its loop.
    Join(usize),
    /// Every worker has been joined.
    Finished,
}

/// The whole shutdown of a pool of `n` workers, step by step: first one
/// shutdown signal per worker, and only then the joins, one per worker in
/// order of id, then the end. Joining before every signal is enqueued could
/// wait forever on a busy worker whose signal an idle one had taken.
pub open spec fn schedule(n: nat) -> Seq<ShutdownStep> {
    Seq::new(
        2 * n + 1,
        |i: int|
            if i < n {
                ShutdownStep::SendTerminate
            } else if i < 2 * n {
                ShutdownStep::Join((i - n) as usize)
            } else {
                ShutdownStep::Finished
            },
    )
}

/// The schedule is two-phase: no signal is sent after a join has begun,
/// each worker is joined exactly once, and there are as many signals as
/// workers.
pub proof fn lemma_schedule_two_phase(n: nat)
    requires
        n <= usize::MAX,
    ensures
        schedule(n).len() == 2 * n + 1,
        forall|i: int, j: int|
            0 <= i < j < schedule(n).len() && (#[trigger] schedule(n)[i] is Join) ==> !(
            #[trigger] schedule(n)[j] is SendTerminate),
        forall|i: int| 0 <= i < n ==> #[trigger] schedule(n)[i] == ShutdownStep::SendTerminate,
        forall|w: int|
            0 <= w < n ==> #[trigger] schedule(n)[n + w] == ShutdownStep::Join(w as usize),
        forall|i: int, j: int|
            0 <= i < schedule(n).len() && 0 <= j < schedule(n).len() && (schedule(n)[i] is Join)
                && #[trigger] schedule(n)[i] == #[trigger] schedule(n)[j] ==> i == j,
        schedule(n).last() == ShutdownStep::Finished,
{
    assert forall|i: int, j: int|
        0 <= i < schedule(n).len() && 0 <= j < schedule(n).len() && (schedule(n)[i] is Join)
            && #[trigger] schedule(n)[i] == #[trigger] schedule(n)[j] implies i == j by {
        assert(schedule(n)[j] is Join);
        assert(n <= i < 2 * n && n <= j < 2 * n);
        assert((i - n) as usize == i - n);
        assert((j - n) as usize == j - n);
    }
}

/// Where a pool of workers stands in its shutdown.
pub struct ShutdownPlan {
    workers: usize,
    sent: usize,
    joined: usize,
}

impl ShutdownPlan {
    /// The number of workers to shut down.
    pub closed spec fn workers(&self) -> nat {
        self.workers as nat
    }

    /// How far through the schedule the plan is.
    pub closed spec fn position(&self) -> nat {
        (self.sent + self.joined) as nat
    }

    /// Whether the plan's counters agree with its schedule.
    pub closed spec fn wf(&self) -> bool {
        &&& self.sent <= self.workers
        &&& self.joined <= self.workers
        &&& self.joined > 0 ==> self.sent == self.workers
    }

    /// A plan for `workers` workers, at the start of its schedule.
    pub fn new(workers: usize) -> (r: ShutdownPlan)
        ensures
            r.wf(),
            r.workers() == workers,
            r.position() == 0,
    {
        ShutdownPlan { workers, sent: 0, joined: 0 }
    }

    /// The next step of the schedule. Once every worker is joined the plan
    /// stays at `Finished`.
    pub fn next_step(&mut self) -> (r: ShutdownStep)
        requires
            old(self).wf(),
        ensures
            final(self).wf(),
            final(self).workers() == old(self).workers(),
            old(self).position() <= 2 * old(self).workers(),
            r == schedule(old(self).workers())[old(self).position() as int],
            r is Finished ==> final(self).position() == old(self).position(),
            !(r is Finished) ==> final(self).position() == old(self).position() + 1,
    {
        if self.sent < self.workers {
            self.sent = self.sent + 1;
            ShutdownStep::SendTerminate
        } else if self.joined < self.workers {
            let w = self.joined;
            self.joined = self.joined + 1;
            ShutdownStep::Join(w)
        } else {
            ShutdownStep::Finished
        }
    }
}

} // verus!
