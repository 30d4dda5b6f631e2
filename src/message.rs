use vstd::prelude::*;

verus! {

/// What travels through the dispatch queue: a job for one worker to run,
/// or the signal that tells one worker to leave its loop.
pub enum Message<J> {
    NewJob(J),
    Terminate,
}

impl<J> Message<J> {
    /// Whether this message is the shutdown signal.
    pub fn is_terminate(&self) -> (r: bool)
        ensures
            r == (*self is Terminate),
    {
        match self {
            Message::NewJob(_) => false,
            Message::Terminate => true,
        }
    }
}

/// The number of `Terminate` messages in `s`.
pub open spec fn count_terminates<J>(s: Seq<Message<J>>) -> nat
    decreases s.len(),
{
    if s.len() == 0 {
        0
    } else {
        count_terminates(s.drop_last()) + if s.last() is Terminate { 1nat } else { 0nat }
    }
}

/// The messages that carry the jobs of `jobs`, in the same order.
pub open spec fn job_messages<J>(jobs: Seq<J>) -> Seq<Message<J>> {
    jobs.map_values(|j: J| Message::NewJob(j))
}

/// `n` shutdown signals in a row.
pub open spec fn terminates<J>(n: nat) -> Seq<Message<J>> {
    Seq::new(n, |i: int| Message::<J>::Terminate)
}

/// Counting terminates distributes over concatenation.
pub proof fn lemma_count_terminates_append<J>(a: Seq<Message<J>>, b: Seq<Message<J>>)
    ensures
        count_terminates(a + b) == count_terminates(a) + count_terminates(b),
    decreases b.len(),
{
    if b.len() == 0 {
        assert(a + b =~= a);
    } else {
        lemma_count_terminates_append(a, b.drop_last());
        assert((a + b).drop_last() =~= a + b.drop_last());
    }
}

/// Job messages hold no shutdown signal.
pub proof fn lemma_count_job_messages<J>(jobs: Seq<J>)
    ensures
        count_terminates(job_messages(jobs)) == 0,
    decreases jobs.len(),
{
    if jobs.len() > 0 {
        lemma_count_job_messages(jobs.drop_last());
        assert(job_messages(jobs).drop_last() =~= job_messages(jobs.drop_last()));
    }
}

/// A run of `n` shutdown signals counts `n`.
pub proof fn lemma_count_terminates_run<J>(n: nat)
    ensures
        count_terminates(terminates::<J>(n)) == n,
    decreases n,
{
    if n > 0 {
        lemma_count_terminates_run::<J>((n - 1) as nat);
        assert(terminates::<J>(n).drop_last() =~= terminates::<J>((n - 1) as nat));
    }
}

/// A sequence that ends in a shutdown signal counts at least one.
pub proof fn lemma_count_terminates_last<J>(s: Seq<Message<J>>)
    requires
        s.len() > 0,
        s.last() is Terminate,
    ensures
        count_terminates(s) >= 1,
{
}

} // verus!
