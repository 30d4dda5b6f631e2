use std::collections::VecDeque;
use vstd::prelude::*;
use crate::message::{
    Message,
    count_terminates,
    job_messages,
    terminates,
    lemma_count_terminates_append,
    lemma_count_job_messages,
    lemma_count_terminates_run,
    lemma_count_terminates_last,
};

verus! {

/// Where a worker stands: waiting for its next message, running a job, or
/// gone for good after its shutdown signal.
#[derive(PartialEq, Eq, Structural, Clone, Copy, Debug)]
pub enum WorkerState {
    Idle,
    Executing,
    Terminated,
}

/// One entry of the dispatch history: a message handed to a worker, or a
/// worker reporting that the job it was given has finished.
pub enum Event<J> {
    Delivered(usize, Message<J>),
    Finished(usize),
}

/// Whether `e` hands a message to worker `w`.
pub open spec fn delivered_to<J>(e: Event<J>, w: usize) -> bool {
    match e {
        Event::Delivered(v, _) => v == w,
        Event::Finished(_) => false,
    }
}

/// Whether `e` hands a job to worker `w`.
pub open spec fn job_to<J>(e: Event<J>, w: usize) -> bool {
    match e {
        Event::Delivered(v, m) => v == w && m is NewJob,
        Event::Finished(_) => false,
    }
}

/// The messages handed out in `log`, in the order they were handed out.
pub open spec fn delivered<J>(log: Seq<Event<J>>) -> Seq<Message<J>>
    decreases log.len(),
{
    if log.len() == 0 {
        Seq::empty()
    } else {
        let before = delivered(log.drop_last());
        match log.last() {
            Event::Delivered(_, m) => before.push(m),
            Event::Finished(_) => before,
        }
    }
}

/// The number of workers in `states` that have left their loop.
pub open spec fn n_retired(states: Seq<WorkerState>) -> nat
    decreases states.len(),
{
    if states.len() == 0 {
        0
    } else {
        n_retired(states.drop_last()) + if states.last() == WorkerState::Terminated {
            1nat
        } else {
            0nat
        }
    }
}

/// Whether every worker in `states` has left its loop.
pub open spec fn all_retired(states: Seq<WorkerState>) -> bool {
    forall|w: int| 0 <= w < states.len() ==> states[w] == WorkerState::Terminated
}

proof fn lemma_n_retired_update(s: Seq<WorkerState>, i: int, v: WorkerState)
    requires
        0 <= i < s.len(),
    ensures
        n_retired(s.update(i, v)) + (if s[i] == WorkerState::Terminated { 1nat } else { 0nat })
            == n_retired(s) + (if v == WorkerState::Terminated { 1nat } else { 0nat }),
    decreases s.len(),
{
    if i == s.len() - 1 {
        assert(s.update(i, v).drop_last() =~= s.drop_last());
    } else {
        lemma_n_retired_update(s.drop_last(), i, v);
        assert(s.update(i, v).drop_last() =~= s.drop_last().update(i, v));
    }
}

proof fn lemma_n_retired_bound(s: Seq<WorkerState>)
    ensures
        n_retired(s) <= s.len(),
        n_retired(s) == s.len() <==> all_retired(s),
    decreases s.len(),
{
    if s.len() > 0 {
        lemma_n_retired_bound(s.drop_last());
        if all_retired(s) {
            assert(all_retired(s.drop_last()));
        }
        if all_retired(s.drop_last()) && s.last() == WorkerState::Terminated {
            assert forall|w: int| 0 <= w < s.len() implies s[w] == WorkerState::Terminated by {
                if w < s.len() - 1 {
                    assert(s.drop_last()[w] == s[w]);
                }
            }
        }
    }
}

proof fn lemma_n_retired_zero(s: Seq<WorkerState>)
    requires
        forall|w: int| 0 <= w < s.len() ==> s[w] != WorkerState::Terminated,
    ensures
        n_retired(s) == 0,
    decreases s.len(),
{
    if s.len() > 0 {
        lemma_n_retired_zero(s.drop_last());
    }
}

proof fn lemma_delivered_push<J>(log: Seq<Event<J>>, e: Event<J>)
    ensures
        delivered(log.push(e)) == match e {
            Event::Delivered(_, m) => delivered(log).push(m),
            Event::Finished(_) => delivered(log),
        },
{
    assert(log.push(e).drop_last() =~= log);
}

/// The queue between the pool's submitters and its workers, together with
/// the state of every worker and the history of what was handed to whom.
///
/// Jobs go in at the back; each worker takes from the front only while it is
/// idle, so every message reaches exactly one worker, in the order it was
/// enqueued. Shutdown appends one `Terminate` per worker, after which no job
/// is accepted.
pub struct Dispatch<J> {
    queue: VecDeque<Message<J>>,
    states: Vec<WorkerState>,
    terminates_sent: usize,
    submitted: Ghost<Seq<J>>,
    log: Ghost<Seq<Event<J>>>,
}

impl<J> Dispatch<J> {
    /// The messages waiting in the queue, front first.
    pub closed spec fn pending(&self) -> Seq<Message<J>> {
        self.queue@
    }

    /// The state of each worker, by worker id.
    pub closed spec fn states(&self) -> Seq<WorkerState> {
        self.states@
    }

    /// The number of workers.
    pub open spec fn n_workers(&self) -> nat {
        self.states().len()
    }

    /// Every job accepted so far, in the order of submission.
    pub closed spec fn submitted(&self) -> Seq<J> {
        self.submitted@
    }

    /// How many shutdown signals have been enqueued.
    pub closed spec fn terminates_sent(&self) -> nat {
        self.terminates_sent as nat
    }

    /// Everything that has happened to the queue's consumers, oldest first.
    pub closed spec fn log(&self) -> Seq<Event<J>> {
        self.log@
    }

    /// Whether shutdown has begun, so that no job is accepted any more.
    pub open spec fn closed(&self) -> bool {
        self.terminates_sent() > 0
    }

    /// Every message ever enqueued: the submitted jobs, then the shutdown
    /// signals.
    pub open spec fn enqueued(&self) -> Seq<Message<J>> {
        job_messages(self.submitted()) + terminates(self.terminates_sent())
    }

    /// A job handed to worker `w` at position `i` of the history is either
    /// followed by that worker's report that it finished, with nothing handed
    /// to `w` in between, or still running.
    pub open spec fn job_accounted(&self, i: int, w: usize) -> bool {
        ||| exists|k: int|
            #![trigger self.log()[k]]
            i < k < self.log().len() && self.log()[k] == Event::<J>::Finished(w) && forall|m: int|
                i < m < k ==> !delivered_to(#[trigger] self.log()[m], w)
        ||| self.states()[w as int] == WorkerState::Executing && forall|m: int|
            i < m < self.log().len() ==> !delivered_to(#[trigger] self.log()[m], w)
    }

    /// Each entry of the history names a worker of the pool; each job handed
    /// out is accounted for; a worker given its shutdown signal is gone and is
    /// handed nothing after it.
    pub open spec fn history_ok(&self) -> bool {
        forall|i: int|
            #![trigger self.log()[i]]
            0 <= i < self.log().len() ==> match self.log()[i] {
                Event::Delivered(w, m) => w < self.n_workers() && (m is NewJob ==> self.job_accounted(
                    i,
                    w,
                )) && (m is Terminate ==> self.states()[w as int] == WorkerState::Terminated
                    && forall|n: int|
                    i < n < self.log().len() ==> !delivered_to(#[trigger] self.log()[n], w)),
                Event::Finished(w) => w < self.n_workers(),
            }
    }

    /// Every worker that is gone was handed a shutdown signal.
    pub open spec fn retired_witnessed(&self) -> bool {
        forall|w: int|
            #![trigger self.states()[w]]
            0 <= w < self.n_workers() && self.states()[w] == WorkerState::Terminated ==> exists|i: int|
                0 <= i < self.log().len() && #[trigger] self.log()[i] == Event::<J>::Delivered(
                    w as usize,
                    Message::Terminate,
                )
    }

    /// The invariant of the queue and its history.
    pub open spec fn wf(&self) -> bool {
        &&& self.n_workers() > 0
        &&& self.terminates_sent() <= self.n_workers()
        &&& delivered(self.log()) + self.pending() == self.enqueued()
        &&& n_retired(self.states()) == count_terminates(delivered(self.log()))
        &&& self.history_ok()
        &&& self.retired_witnessed()
    }
}

impl<J> Dispatch<J> {

    /// A queue for `size` workers, all idle, with nothing enqueued.
    pub fn new(size: usize) -> (r: Dispatch<J>)
        requires
            size > 0,
        ensures
            r.wf(),
            r.n_workers() == size,
            r.pending() == Seq::<Message<J>>::empty(),
            r.submitted() == Seq::<J>::empty(),
            r.terminates_sent() == 0,
            r.log() == Seq::<Event<J>>::empty(),
            forall|w: int| 0 <= w < size ==> #[trigger] r.states()[w] == WorkerState::Idle,
    {
        let mut states: Vec<WorkerState> = Vec::with_capacity(size);
        let mut id: usize = 0;
        while id < size
            invariant
                id <= size,
                states@.len() == id,
                forall|w: int| 0 <= w < id ==> #[trigger] states@[w] == WorkerState::Idle,
            decreases size - id,
        {
            states.push(WorkerState::Idle);
            id = id + 1;
        }
        let r = Dispatch {
            queue: VecDeque::new(),
            states,
            terminates_sent: 0,
            submitted: Ghost(Seq::empty()),
            log: Ghost(Seq::empty()),
        };
        proof {
            assert(delivered(r.log()) + r.pending() =~= r.enqueued());
            assert(n_retired(r.states()) == 0) by {
                lemma_n_retired_zero(r.states());
            }
        }
        r
    }

    /// The number of workers.
    pub fn size(&self) -> (r: usize)
        ensures
            r == self.n_workers(),
    {
        self.states.len()
    }

    /// How many messages are waiting.
    pub fn pending_len(&self) -> (r: usize)
        ensures
            r == self.pending().len(),
    {
        self.queue.len()
    }

    /// Whether shutdown has begun.
    pub fn is_closed(&self) -> (r: bool)
        ensures
            r == self.closed(),
    {
        self.terminates_sent > 0
    }

    /// Enqueues `job` behind everything already waiting. Once shutdown has
    /// begun the job is refused and handed back, and nothing changes.
    pub fn submit(&mut self, job: J) -> (r: Result<(), J>)
        requires
            old(self).wf(),
        ensures
            final(self).wf(),
            old(self).closed() ==> r == Err::<(), J>(job) && *final(self) == *old(self),
            !old(self).closed() ==> {
                &&& r is Ok
                &&& final(self).pending() == old(self).pending().push(Message::NewJob(job))
                &&& final(self).submitted() == old(self).submitted().push(job)
                &&& final(self).states() == old(self).states()
                &&& final(self).log() == old(self).log()
                &&& final(self).terminates_sent() == 0
            },
    {
        if self.terminates_sent > 0 {
            return Err(job);
        }
        let ghost before = *self;
        proof {
            self.submitted@ = self.submitted@.push(job);
        }
        self.queue.push_back(Message::NewJob(job));
        proof {
            assert(job_messages(self.submitted()) =~= job_messages(before.submitted()).push(
                Message::NewJob(job),
            ));
            assert(delivered(self.log()) + self.pending() =~= self.enqueued());
        }
        Ok(())
    }

    /// Enqueues one shutdown signal behind everything already waiting, and
    /// from then on refuses jobs. At most one signal per worker is ever
    /// enqueued: once there are as many as workers, nothing changes and the
    /// result is `false`.
    pub fn send_terminate(&mut self) -> (r: bool)
        requires
            old(self).wf(),
        ensures
            final(self).wf(),
            r == (old(self).terminates_sent() < old(self).n_workers()),
            !r ==> *final(self) == *old(self),
            r ==> {
                &&& final(self).pending() == old(self).pending().push(Message::Terminate)
                &&& final(self).terminates_sent() == old(self).terminates_sent() + 1
                &&& final(self).submitted() == old(self).submitted()
                &&& final(self).states() == old(self).states()
                &&& final(self).log() == old(self).log()
            },
    {
        if self.terminates_sent >= self.states.len() {
            return false;
        }
        let ghost before = *self;
        self.queue.push_back(Message::Terminate);
        self.terminates_sent = self.terminates_sent + 1;
        proof {
            assert(terminates::<J>(self.terminates_sent()) =~= terminates::<J>(
                before.terminates_sent(),
            ).push(Message::Terminate));
            assert(self.enqueued() =~= before.enqueued().push(Message::Terminate));
            assert(delivered(self.log()) + self.pending() =~= self.enqueued());
        }
        true
    }

    /// The state of worker `w`.
    pub fn state_of(&self, w: usize) -> (r: WorkerState)
        requires
            w < self.n_workers(),
        ensures
            r == self.states()[w as int],
    {
        self.states[w]
    }

    /// Worker `w` takes the message at the front of the queue. Only an idle
    /// worker takes anything: it then runs the job it was given, or leaves
    /// its loop on a shutdown signal. An empty queue, or a worker that is
    /// busy or gone, gives `None` and changes nothing.
    pub fn take(&mut self, w: usize) -> (r: Option<Message<J>>)
        requires
            old(self).wf(),
            w < old(self).n_workers(),
        ensures
            final(self).wf(),
            (old(self).states()[w as int] != WorkerState::Idle || old(self).pending().len() == 0)
                ==> r is None && *final(self) == *old(self),
            (old(self).states()[w as int] == WorkerState::Idle && old(self).pending().len() > 0)
                ==> {
                let m = old(self).pending()[0];
                &&& r == Some(m)
                &&& final(self).pending() == old(self).pending().drop_first()
                &&& final(self).log() == old(self).log().push(Event::Delivered(w, m))
                &&& final(self).states() == old(self).states().update(
                    w as int,
                    if m is Terminate {
                        WorkerState::Terminated
                    } else {
                        WorkerState::Executing
                    },
                )
                &&& final(self).submitted() == old(self).submitted()
                &&& final(self).terminates_sent() == old(self).terminates_sent()
            },
    {
        if self.states[w] != WorkerState::Idle || self.queue.len() == 0 {
            return None;
        }
        let ghost before = *self;
        match self.queue.pop_front() {
            None => None,
            Some(m) => {
                let next = if m.is_terminate() {
                    WorkerState::Terminated
                } else {
                    WorkerState::Executing
                };
                self.states.set(w, next);
                proof {
                    self.log@ = self.log@.push(Event::Delivered(w, m));
                    lemma_delivered_push(before.log(), Event::Delivered(w, m));
                    assert(delivered(self.log()) + self.pending() =~= self.enqueued());
                    lemma_n_retired_update(before.states(), w as int, next);
                    assert(delivered(before.log()).push(m).drop_last() =~= delivered(
                        before.log(),
                    ));
                    self.lemma_take_keeps_history(before, w, m);
                }
                Some(m)
            },
        }
    }

    proof fn lemma_take_keeps_history(&self, before: Self, w: usize, m: Message<J>)
        requires
            before.wf(),
            w < before.n_workers(),
            before.states()[w as int] == WorkerState::Idle,
            self.log() == before.log().push(Event::Delivered(w, m)),
            self.states() == before.states().update(
                w as int,
                if m is Terminate {
                    WorkerState::Terminated
                } else {
                    WorkerState::Executing
                },
            ),
        ensures
            self.history_ok(),
            self.retired_witnessed(),
    {
        let last = before.log().len() as int;
        assert forall|i: int|
            #![trigger self.log()[i]]
            0 <= i < self.log().len() implies match self.log()[i] {
                Event::Delivered(v, mm) => v < self.n_workers() && (mm is NewJob
                    ==> self.job_accounted(i, v)) && (mm is Terminate
                    ==> self.states()[v as int] == WorkerState::Terminated && forall|n: int|
                    i < n < self.log().len() ==> !delivered_to(#[trigger] self.log()[n], v)),
                Event::Finished(v) => v < self.n_workers(),
            } by {
            if i < last {
                assert(self.log()[i] == before.log()[i]);
                match self.log()[i] {
                    Event::Delivered(v, mm) => {
                        if mm is NewJob {
                            if v == w {
                                let k = choose|k: int|
                                    #![trigger before.log()[k]]
                                    i < k < before.log().len() && before.log()[k] == Event::<
                                        J,
                                    >::Finished(v) && forall|n: int|
                                        i < n < k ==> !delivered_to(
                                            #[trigger] before.log()[n],
                                            v,
                                        );
                                assert(self.log()[k] == before.log()[k]);
                                assert forall|n: int| i < n < k implies !delivered_to(
                                    #[trigger] self.log()[n],
                                    v,
                                ) by {
                                    assert(self.log()[n] == before.log()[n]);
                                }
                            } else {
                                if exists|k: int|
                                    #![trigger before.log()[k]]
                                    i < k < before.log().len() && before.log()[k] == Event::<
                                        J,
                                    >::Finished(v) && forall|n: int|
                                        i < n < k ==> !delivered_to(
                                            #[trigger] before.log()[n],
                                            v,
                                        ) {
                                    let k = choose|k: int|
                                        #![trigger before.log()[k]]
                                        i < k < before.log().len() && before.log()[k] == Event::<
                                            J,
                                        >::Finished(v) && forall|n: int|
                                            i < n < k ==> !delivered_to(
                                                #[trigger] before.log()[n],
                                                v,
                                            );
                                    assert(self.log()[k] == before.log()[k]);
                                    assert forall|n: int| i < n < k implies !delivered_to(
                                        #[trigger] self.log()[n],
                                        v,
                                    ) by {
                                        assert(self.log()[n] == before.log()[n]);
                                    }
                                } else {
                                    assert forall|n: int|
                                        i < n < self.log().len() implies !delivered_to(
                                        #[trigger] self.log()[n],
                                        v,
                                    ) by {
                                        if n < last {
                                            assert(self.log()[n] == before.log()[n]);
                                        }
                                    }
                                }
                            }
                        } else {
                            assert(v != w);
                            assert forall|n: int| i < n < self.log().len() implies !delivered_to(
                                #[trigger] self.log()[n],
                                v,
                            ) by {
                                if n < last {
                                    assert(self.log()[n] == before.log()[n]);
                                }
                            }
                        }
                    },
                    Event::Finished(v) => {},
                }
            } else {
                assert(self.log()[i] == Event::<J>::Delivered(w, m));
            }
        }
        assert forall|v: int|
            #![trigger self.states()[v]]
            0 <= v < self.n_workers() && self.states()[v] == WorkerState::Terminated
                implies exists|i: int|
                0 <= i < self.log().len() && #[trigger] self.log()[i]
                    == Event::<J>::Delivered(v as usize, Message::Terminate) by {
            if v == w {
                assert(self.log()[last] == Event::<J>::Delivered(v as usize, Message::Terminate));
            } else {
                assert(before.states()[v] == WorkerState::Terminated);
                let i = choose|i: int|
                    0 <= i < before.log().len() && #[trigger] before.log()[i]
                        == Event::<J>::Delivered(v as usize, Message::Terminate);
                assert(self.log()[i] == before.log()[i]);
            }
        }
    }

    /// Worker `w` reports that the job it was running has finished, and is
    /// idle again. A worker that was not running a job changes nothing.
    pub fn finish(&mut self, w: usize)
        requires
            old(self).wf(),
            w < old(self).n_workers(),
        ensures
            final(self).wf(),
            old(self).states()[w as int] != WorkerState::Executing ==> *final(self) == *old(self),
            old(self).states()[w as int] == WorkerState::Executing ==> {
                &&& final(self).states() == old(self).states().update(w as int, WorkerState::Idle)
                &&& final(self).log() == old(self).log().push(Event::Finished(w))
                &&& final(self).pending() == old(self).pending()
                &&& final(self).submitted() == old(self).submitted()
                &&& final(self).terminates_sent() == old(self).terminates_sent()
            },
    {
        if self.states[w] != WorkerState::Executing {
            return;
        }
        let ghost before = *self;
        self.states.set(w, WorkerState::Idle);
        proof {
            self.log@ = self.log@.push(Event::Finished(w));
            lemma_delivered_push(before.log(), Event::Finished(w));
            lemma_n_retired_update(before.states(), w as int, WorkerState::Idle);
            self.lemma_finish_keeps_history(before, w);
        }
    }

    proof fn lemma_finish_keeps_history(&self, before: Self, w: usize)
        requires
            before.wf(),
            w < before.n_workers(),
            before.states()[w as int] == WorkerState::Executing,
            self.log() == before.log().push(Event::Finished(w)),
            self.states() == before.states().update(w as int, WorkerState::Idle),
        ensures
            self.history_ok(),
            self.retired_witnessed(),
    {
        let last = before.log().len() as int;
        assert forall|i: int|
            #![trigger self.log()[i]]
            0 <= i < self.log().len() implies match self.log()[i] {
                Event::Delivered(v, mm) => v < self.n_workers() && (mm is NewJob
                    ==> self.job_accounted(i, v)) && (mm is Terminate
                    ==> self.states()[v as int] == WorkerState::Terminated && forall|n: int|
                    i < n < self.log().len() ==> !delivered_to(#[trigger] self.log()[n], v)),
                Event::Finished(v) => v < self.n_workers(),
            } by {
            if i < last {
                assert(self.log()[i] == before.log()[i]);
                match self.log()[i] {
                    Event::Delivered(v, mm) => {
                        if mm is NewJob {
                            if exists|k: int|
                                #![trigger before.log()[k]]
                                i < k < before.log().len() && before.log()[k] == Event::<
                                    J,
                                >::Finished(v) && forall|n: int|
                                    i < n < k ==> !delivered_to(#[trigger] before.log()[n], v) {
                                let k = choose|k: int|
                                    #![trigger before.log()[k]]
                                    i < k < before.log().len() && before.log()[k] == Event::<
                                        J,
                                    >::Finished(v) && forall|n: int|
                                        i < n < k ==> !delivered_to(
                                            #[trigger] before.log()[n],
                                            v,
                                        );
                                assert(self.log()[k] == before.log()[k]);
                                assert forall|n: int| i < n < k implies !delivered_to(
                                    #[trigger] self.log()[n],
                                    v,
                                ) by {
                                    assert(self.log()[n] == before.log()[n]);
                                }
                            } else if v == w {
                                assert(self.log()[last] == Event::<J>::Finished(v));
                                assert forall|n: int| i < n < last implies !delivered_to(
                                    #[trigger] self.log()[n],
                                    v,
                                ) by {
                                    assert(self.log()[n] == before.log()[n]);
                                }
                            } else {
                                assert forall|n: int|
                                    i < n < self.log().len() implies !delivered_to(
                                    #[trigger] self.log()[n],
                                    v,
                                ) by {
                                    if n < last {
                                        assert(self.log()[n] == before.log()[n]);
                                    }
                                }
                            }
                        } else {
                            assert(v != w);
                            assert forall|n: int| i < n < self.log().len() implies !delivered_to(
                                #[trigger] self.log()[n],
                                v,
                            ) by {
                                if n < last {
                                    assert(self.log()[n] == before.log()[n]);
                                }
                            }
                        }
                    },
                    Event::Finished(v) => {},
                }
            }
        }
        assert forall|v: int|
            #![trigger self.states()[v]]
            0 <= v < self.n_workers() && self.states()[v] == WorkerState::Terminated
                implies exists|i: int|
                0 <= i < self.log().len() && #[trigger] self.log()[i]
                    == Event::<J>::Delivered(v as usize, Message::Terminate) by {
            assert(before.states()[v] == WorkerState::Terminated);
            let i = choose|i: int|
                0 <= i < before.log().len() && #[trigger] before.log()[i]
                    == Event::<J>::Delivered(v as usize, Message::Terminate);
            assert(self.log()[i] == before.log()[i]);
        }
    }
}

/// Nothing submitted is lost, duplicated or reordered: the messages handed
/// out so far, followed by those still waiting, are the submitted jobs in
/// the order of submission, then the shutdown signals.
pub proof fn lemma_exactly_once<J>(d: Dispatch<J>)
    requires
        d.wf(),
    ensures
        (delivered(d.log()) + d.pending()).len() == d.submitted().len() + d.terminates_sent(),
        forall|k: int|
            0 <= k < d.submitted().len() ==> (delivered(d.log()) + d.pending())[k]
                == Message::NewJob(#[trigger] d.submitted()[k]),
        forall|k: int|
            d.submitted().len() <= k < d.submitted().len() + d.terminates_sent() ==> (#[trigger] (
            delivered(d.log()) + d.pending())[k]) is Terminate,
{
}

/// Once a shutdown signal has been enqueued for every worker and every
/// worker has left its loop, the queue is empty and every submitted job has
/// been handed to a worker, in the order of submission.
pub proof fn lemma_shutdown_delivers_every_job<J>(d: Dispatch<J>)
    requires
        d.wf(),
        d.terminates_sent() == d.n_workers(),
        all_retired(d.states()),
    ensures
        d.pending().len() == 0,
        delivered(d.log()) == d.enqueued(),
        forall|k: int|
            0 <= k < d.submitted().len() ==> delivered(d.log())[k] == Message::NewJob(
                #[trigger] d.submitted()[k],
            ),
{
    lemma_n_retired_bound(d.states());
    lemma_count_job_messages(d.submitted());
    lemma_count_terminates_run::<J>(d.terminates_sent());
    lemma_count_terminates_append(job_messages(d.submitted()), terminates::<J>(d.terminates_sent()));
    lemma_count_terminates_append(delivered(d.log()), d.pending());
    if d.pending().len() > 0 {
        let e = d.enqueued();
        assert(d.pending().last() == e.last());
        lemma_count_terminates_last(d.pending());
    }
    assert(delivered(d.log()) =~= delivered(d.log()) + d.pending());
}

/// After a shutdown signal has been enqueued for every worker, the signals
/// still waiting are exactly as many as the workers still in their loop. So
/// no worker that has not left waits on an empty queue: shutdown cannot
/// stall, however long the jobs in progress run.
pub proof fn lemma_signal_waits_for_each_live_worker<J>(d: Dispatch<J>)
    requires
        d.wf(),
        d.terminates_sent() == d.n_workers(),
    ensures
        count_terminates(d.pending()) + n_retired(d.states()) == d.n_workers(),
        forall|w: int|
            0 <= w < d.n_workers() && #[trigger] d.states()[w] != WorkerState::Terminated
                ==> d.pending().len() > 0,
{
    lemma_n_retired_bound(d.states());
    lemma_count_job_messages(d.submitted());
    lemma_count_terminates_run::<J>(d.terminates_sent());
    lemma_count_terminates_append(job_messages(d.submitted()), terminates::<J>(d.terminates_sent()));
    lemma_count_terminates_append(delivered(d.log()), d.pending());
}

/// A worker has left its loop exactly when it has been handed a shutdown
/// signal, and it is handed exactly one: nothing reaches it afterwards.
pub proof fn lemma_one_terminate_per_worker<J>(d: Dispatch<J>, w: usize)
    requires
        d.wf(),
        w < d.n_workers(),
    ensures
        d.states()[w as int] == WorkerState::Terminated <==> exists|i: int|
            0 <= i < d.log().len() && #[trigger] d.log()[i] == Event::<J>::Delivered(
                w,
                Message::Terminate,
            ),
        forall|i: int, j: int|
            0 <= i < d.log().len() && 0 <= j < d.log().len() && #[trigger] d.log()[i]
                == Event::<J>::Delivered(w, Message::Terminate) && #[trigger] d.log()[j]
                == Event::<J>::Delivered(w, Message::Terminate) ==> i == j,
        forall|i: int, n: int|
            0 <= i < n < d.log().len() && #[trigger] d.log()[i] == Event::<J>::Delivered(
                w,
                Message::Terminate,
            ) ==> !delivered_to(#[trigger] d.log()[n], w),
{
    assert(d.states()[w as int] == WorkerState::Terminated ==> exists|i: int|
        0 <= i < d.log().len() && #[trigger] d.log()[i] == Event::<J>::Delivered(
            w,
            Message::Terminate,
        ));
    assert forall|i: int, j: int|
        0 <= i < d.log().len() && 0 <= j < d.log().len() && #[trigger] d.log()[i]
            == Event::<J>::Delivered(w, Message::Terminate) && #[trigger] d.log()[j]
            == Event::<J>::Delivered(w, Message::Terminate) implies i == j by {
        if i < j {
            assert(!delivered_to(d.log()[j], w));
        } else if j < i {
            assert(!delivered_to(d.log()[i], w));
        }
    }
}

/// A worker runs its jobs one after another: between a job handed to worker
/// `w` and anything handed to `w` later, `w` reported that job finished.
pub proof fn lemma_same_worker_runs_in_turn<J>(d: Dispatch<J>, w: usize)
    requires
        d.wf(),
    ensures
        forall|i: int, j: int|
            0 <= i < j < d.log().len() && job_to(#[trigger] d.log()[i], w) && delivered_to(
                #[trigger] d.log()[j],
                w,
            ) ==> exists|k: int|
                i < k < j && #[trigger] d.log()[k] == Event::<J>::Finished(w),
{
    assert forall|i: int, j: int|
        0 <= i < j < d.log().len() && job_to(#[trigger] d.log()[i], w) && delivered_to(
            #[trigger] d.log()[j],
            w,
        ) implies exists|k: int| i < k < j && #[trigger] d.log()[k] == Event::<J>::Finished(w) by {
        assert(d.job_accounted(i, w));
        let k = choose|k: int|
            #![trigger d.log()[k]]
            i < k < d.log().len() && d.log()[k] == Event::<J>::Finished(w) && forall|m: int|
                i < m < k ==> !delivered_to(#[trigger] d.log()[m], w);
        assert(k < j);
    }
}

} // verus!
