//! The pool: admission of jobs, FIFO dispatch to workers, and graceful shutdown.
use std::collections::VecDeque;
use vstd::prelude::*;

verus! {

/// Where one worker slot stands in its lifecycle.
#[derive(Clone, Copy, Debug, PartialEq, Eq, Structural)]
pub enum WorkerState {
    /// Ready to take the next job from the queue.
    Waiting,
    /// Running the job with the given ticket.
    Executing(u64),
    /// Saw the closed, drained queue; final.
    Terminated,
}

/// Why the pool refused a request.
#[derive(Clone, Copy, Debug, PartialEq, Eq, Structural)]
pub enum PoolError {
    /// A pool needs at least one worker.
    ZeroSize,
    /// Shutdown has begun: no job is admitted any more.
    ShutDown,
}

/// What a waiting worker is told to do next.
pub enum Action<J> {
    /// Run this job, which was admitted under this ticket.
    Run(u64, J),
    /// The queue is empty but still open: block until a job arrives.
    Wait,
    /// The queue is closed and drained: leave the loop.
    Exit,
}

/// The abstract state of a pool.
///
/// Tickets are handed out in submission order, `0, 1, 2, ...`; the jobs with
/// tickets `dispatched..submitted` are still in the queue, in that order.
pub struct PoolView {
    pub accepting: bool,
    pub submitted: nat,
    pub dispatched: nat,
    pub workers: Seq<WorkerState>,
    /// Tickets of the jobs that have returned, in order of completion.
    pub completed: Seq<u64>,
    /// Tickets of the completed jobs that faulted, in order of completion.
    pub faulted: Seq<u64>,
}

/// Some worker is running the job with ticket `t`.
pub open spec fn running(ws: Seq<WorkerState>, t: u64) -> bool {
    exists|i: int| 0 <= i < ws.len() && ws[i] == WorkerState::Executing(t)
}

/// The work a worker slot still has before it is terminated.
pub open spec fn weight(s: WorkerState) -> nat {
    match s {
        WorkerState::Waiting => 1,
        WorkerState::Executing(_) => 2,
        WorkerState::Terminated => 0,
    }
}

pub open spec fn load(ws: Seq<WorkerState>) -> nat
    decreases ws.len(),
{
    if ws.len() == 0 {
        0
    } else {
        load(ws.drop_last()) + weight(ws.last())
    }
}

impl PoolView {
    pub open spec fn size(self) -> nat {
        self.workers.len()
    }

    pub open spec fn queued(self) -> nat {
        (self.submitted - self.dispatched) as nat
    }

    pub open spec fn all_terminated(self) -> bool {
        forall|i: int| 0 <= i < self.workers.len() ==> #[trigger] self.workers[i] is Terminated
    }

    /// A measure of the work left; every step after shutdown lowers it.
    pub open spec fn remaining(self) -> nat {
        3 * self.queued() + load(self.workers)
    }

    /// With one worker, jobs complete in ticket order.
    pub open spec fn in_order(self) -> bool {
        &&& forall|k: int| 0 <= k < self.completed.len() ==> #[trigger] self.completed[k] == k
        &&& match self.workers[0] {
            WorkerState::Executing(t) => t == self.completed.len() && self.dispatched
                == self.completed.len() + 1,
            _ => self.dispatched == self.completed.len(),
        }
    }

    pub open spec fn wf(self) -> bool {
        &&& self.workers.len() >= 1
        &&& self.dispatched <= self.submitted <= u64::MAX
        &&& self.completed.no_duplicates()
        &&& forall|k: int|
            0 <= k < self.completed.len() ==> #[trigger] self.completed[k] < self.dispatched
        &&& forall|t: u64| #[trigger]
            running(self.workers, t) ==> t < self.dispatched && !self.completed.contains(t)
        &&& forall|i: int, j: int|
            0 <= i < self.workers.len() && 0 <= j < self.workers.len() && i != j
                && self.workers[i] is Executing && self.workers[j] is Executing
                ==> #[trigger] self.workers[i] != #[trigger] self.workers[j]
        &&& forall|t: u64|
            t < self.dispatched ==> #[trigger] self.completed.contains(t) || #[trigger] running(
                self.workers,
                t,
            )
        &&& forall|i: int|
            0 <= i < self.workers.len() && #[trigger] self.workers[i] is Terminated
                ==> !self.accepting && self.dispatched == self.submitted
        &&& self.workers.len() == 1 ==> self.in_order()
    }
}

proof fn lemma_load_update(ws: Seq<WorkerState>, i: int, s: WorkerState)
    requires
        0 <= i < ws.len(),
    ensures
        load(ws.update(i, s)) + weight(ws[i]) == load(ws) + weight(s),
    decreases ws.len(),
{
    let u = ws.update(i, s);
    if i == ws.len() - 1 {
        assert(u.drop_last() =~= ws.drop_last());
    } else {
        lemma_load_update(ws.drop_last(), i, s);
        assert(u.drop_last() =~= ws.drop_last().update(i, s));
    }
}

proof fn lemma_load_zero(ws: Seq<WorkerState>)
    requires
        load(ws) == 0,
    ensures
        forall|i: int| 0 <= i < ws.len() ==> #[trigger] ws[i] is Terminated,
    decreases ws.len(),
{
    if ws.len() > 0 {
        lemma_load_zero(ws.drop_last());
        assert forall|i: int| 0 <= i < ws.len() implies #[trigger] ws[i] is Terminated by {
            if i < ws.len() - 1 {
                assert(ws[i] == ws.drop_last()[i]);
            }
        }
    }
}

/// Once every worker has terminated, each submitted job has completed exactly
/// once: the completion log holds no ticket twice, and holds precisely the
/// tickets `0..submitted`, whatever the pool size.
pub proof fn lemma_drained_exactly_once(v: PoolView)
    requires
        v.wf(),
        v.all_terminated(),
    ensures
        v.queued() == 0,
        v.completed.no_duplicates(),
        forall|t: u64| #[trigger] v.completed.contains(t) <==> t < v.submitted,
{
    assert(v.workers[0] is Terminated);
    assert forall|t: u64| #[trigger] v.completed.contains(t) <==> t < v.submitted by {
        if t < v.submitted {
            if running(v.workers, t) {
                let i = choose|i: int| 0 <= i < v.workers.len() && v.workers[i]
                    == WorkerState::Executing(t);
                assert(v.workers[i] is Terminated);
            }
        }
        if v.completed.contains(t) {
            let k = choose|k: int| 0 <= k < v.completed.len() && v.completed[k] == t;
            assert(v.completed[k] < v.dispatched);
        }
    }
}

/// With a single worker, jobs complete in submission order: once the worker
/// has terminated, the completion log is exactly `0, 1, ..., submitted - 1`.
pub proof fn lemma_single_worker_fifo(v: PoolView)
    requires
        v.wf(),
        v.size() == 1,
        v.all_terminated(),
    ensures
        v.completed == Seq::new(v.submitted, |k: int| k as u64),
{
    assert(v.workers[0] is Terminated);
    assert(v.completed =~= Seq::new(v.submitted, |k: int| k as u64)) by {
        assert forall|k: int| 0 <= k < v.completed.len() implies v.completed[k] == k as u64 by {
            assert(v.completed[k] == k);
        }
    }
}

/// Shutdown terminates: once admission is closed, every worker step lowers
/// `remaining` (see the contracts of `next_job` and `finish`), and when it
/// reaches zero the queue is empty and every worker has terminated.
pub proof fn lemma_settled(v: PoolView)
    requires
        v.wf(),
        v.remaining() == 0,
    ensures
        v.queued() == 0,
        v.all_terminated(),
{
    lemma_load_zero(v.workers);
}

/// The pool: a FIFO queue of admitted jobs and one state per worker slot.
pub struct ThreadPool<J> {
    workers: Vec<WorkerState>,
    queue: VecDeque<(u64, J)>,
    accepting: bool,
    submitted: u64,
    dispatched: u64,
    completed: Vec<u64>,
    faulted: Vec<u64>,
}

impl<J> View for ThreadPool<J> {
    type V = PoolView;

    closed spec fn view(&self) -> PoolView {
        PoolView {
            accepting: self.accepting,
            submitted: self.submitted as nat,
            dispatched: self.dispatched as nat,
            workers: self.workers@,
            completed: self.completed@,
            faulted: self.faulted@,
        }
    }
}

impl<J> ThreadPool<J> {
    /// The jobs still in the queue, oldest first.
    pub closed spec fn jobs(&self) -> Seq<J> {
        self.queue@.map_values(|p: (u64, J)| p.1)
    }

    pub closed spec fn inv(&self) -> bool {
        &&& self@.wf()
        &&& self.queue@.len() == self.submitted - self.dispatched
        &&& forall|k: int|
            0 <= k < self.queue@.len() ==> (#[trigger] self.queue@[k]).0 == self.dispatched + k
    }

    /// A well-kept pool has a well-formed view, so the laws above apply to it.
    pub proof fn lemma_view_wf(&self)
        requires
            self.inv(),
        ensures
            self@.wf(),
    {
    }

    /// Creates a pool of `size` waiting workers; fails when `size` is zero.
    pub fn new(size: usize) -> (r: Result<Self, PoolError>)
        ensures
            size == 0 <==> r is Err,
            r matches Err(e) ==> e == PoolError::ZeroSize,
            r matches Ok(p) ==> {
                &&& p.inv()
                &&& p@.accepting
                &&& p@.submitted == 0
                &&& p@.dispatched == 0
                &&& p@.completed == Seq::<u64>::empty()
                &&& p@.faulted == Seq::<u64>::empty()
                &&& p@.workers == Seq::new(size as nat, |i: int| WorkerState::Waiting)
                &&& p.jobs() == Seq::<J>::empty()
            },
    {
        if size == 0 {
            return Err(PoolError::ZeroSize);
        }
        let mut workers: Vec<WorkerState> = Vec::with_capacity(size);
        let mut id: usize = 0;
        while id < size
            invariant
                id <= size,
                workers@ == Seq::new(id as nat, |i: int| WorkerState::Waiting),
            decreases size - id,
        {
            workers.push(WorkerState::Waiting);
            id = id + 1;
        }
        let p = ThreadPool {
            workers,
            queue: VecDeque::new(),
            accepting: true,
            submitted: 0,
            dispatched: 0,
            completed: Vec::new(),
            faulted: Vec::new(),
        };
        proof {
            assert(p.jobs() =~= Seq::<J>::empty());
        }
        Ok(p)
    }

    /// Admits `job` at the tail of the queue and returns its ticket; after
    /// shutdown has begun the job is refused with `ShutDown` and nothing changes.
    pub fn execute(&mut self, job: J) -> (r: Result<u64, PoolError>)
        requires
            old(self).inv(),
            old(self)@.submitted < u64::MAX,
        ensures
            final(self).inv(),
            old(self)@.accepting ==> {
                &&& r == Ok::<u64, PoolError>(old(self)@.submitted as u64)
                &&& final(self)@ == (PoolView { submitted: old(self)@.submitted + 1, ..old(self)@ })
                &&& final(self).jobs() == old(self).jobs().push(job)
            },
            !old(self)@.accepting ==> {
                &&& r == Err::<u64, PoolError>(PoolError::ShutDown)
                &&& final(self)@ == old(self)@
                &&& final(self).jobs() == old(self).jobs()
            },
    {
        if !self.accepting {
            return Err(PoolError::ShutDown);
        }
        let ticket = self.submitted;
        self.queue.push_back((ticket, job));
        self.submitted = self.submitted + 1;
        proof {
            assert(self.jobs() =~= old(self).jobs().push(job));
            assert(self@.workers == old(self)@.workers);
            assert forall|i: int|
                0 <= i < self@.workers.len() && #[trigger] self@.workers[i] is Terminated
                implies !self@.accepting && self@.dispatched == self@.submitted by {
                assert(old(self)@.workers[i] is Terminated);
            }
        }
        Ok(ticket)
    }

    /// Tells the waiting worker `id` what to do next: run the job at the head
    /// of the queue, wait while the queue is empty and open, or exit once it is
    /// closed and drained.
    pub fn next_job(&mut self, id: usize) -> (r: Action<J>)
        requires
            old(self).inv(),
            id < old(self)@.size(),
            old(self)@.workers[id as int] == WorkerState::Waiting,
        ensures
            final(self).inv(),
            match r {
                Action::Run(t, job) => {
                    &&& old(self)@.queued() > 0
                    &&& t == old(self)@.dispatched
                    &&& job == old(self).jobs()[0]
                    &&& final(self).jobs() == old(self).jobs().drop_first()
                    &&& final(self)@ == (PoolView {
                        dispatched: old(self)@.dispatched + 1,
                        workers: old(self)@.workers.update(id as int, WorkerState::Executing(t)),
                        ..old(self)@
                    })
                },
                Action::Wait => {
                    &&& old(self)@.queued() == 0
                    &&& old(self)@.accepting
                    &&& final(self)@ == old(self)@
                    &&& final(self).jobs() == old(self).jobs()
                },
                Action::Exit => {
                    &&& old(self)@.queued() == 0
                    &&& !old(self)@.accepting
                    &&& final(self).jobs() == old(self).jobs()
                    &&& final(self)@ == (PoolView {
                        workers: old(self)@.workers.update(id as int, WorkerState::Terminated),
                        ..old(self)@
                    })
                },
            },
            !old(self)@.accepting ==> final(self)@.remaining() < old(self)@.remaining(),
    {
        let ghost ws = self.workers@;
        let ghost v = self@;
        match self.queue.pop_front() {
            Some(entry) => {
                let (t, job) = entry;
                self.workers.set(id, WorkerState::Executing(t));
                self.dispatched = self.dispatched + 1;
                proof {
                    let ws2 = self.workers@;
                    assert(t == v.dispatched);
                    assert(self.jobs() =~= old(self).jobs().drop_first()) by {
                        assert forall|k: int| 0 <= k < self.queue@.len() implies
                            #[trigger] self.queue@[k] == old(self).queue@[k + 1] by {}
                    }
                    assert forall|k: int| 0 <= k < self.queue@.len() implies
                        (#[trigger] self.queue@[k]).0 == self.dispatched + k by {
                        assert(self.queue@[k] == old(self).queue@[k + 1]);
                    }
                    assert forall|s: u64| #[trigger] running(ws2, s) implies s < self.dispatched
                        && !self@.completed.contains(s) by {
                        if s != t {
                            let i = choose|i: int| 0 <= i < ws2.len() && ws2[i]
                                == WorkerState::Executing(s);
                            assert(ws[i] == ws2[i]);
                            assert(running(ws, s));
                        } else {
                            if v.completed.contains(s) {
                                let k = choose|k: int| 0 <= k < v.completed.len() && v.completed[k] == s;
                                assert(v.completed[k] < v.dispatched);
                            }
                        }
                    }
                    assert forall|i: int, j: int|
                        0 <= i < ws2.len() && 0 <= j < ws2.len() && i != j
                            && ws2[i] is Executing && ws2[j] is Executing
                            implies #[trigger] ws2[i] != #[trigger] ws2[j] by {
                        if i == id {
                            if ws2[j] == ws2[i] {
                                assert(running(ws, t));
                            }
                        } else if j == id {
                            if ws2[j] == ws2[i] {
                                assert(running(ws, t));
                            }
                        }
                    }
                    assert forall|s: u64| s < self.dispatched implies
                        #[trigger] self@.completed.contains(s) || #[trigger] running(ws2, s) by {
                        if s == t {
                            assert(ws2[id as int] == WorkerState::Executing(s));
                        } else if !v.completed.contains(s) {
                            assert(running(ws, s));
                            let i = choose|i: int| 0 <= i < ws.len() && ws[i]
                                == WorkerState::Executing(s);
                            assert(ws2[i] == ws[i]);
                        }
                    }
                    assert forall|i: int|
                        0 <= i < ws2.len() && #[trigger] ws2[i] is Terminated
                        implies !self@.accepting && self@.dispatched == self@.submitted by {
                        assert(ws[i] is Terminated);
                    }
                    lemma_load_update(ws, id as int, WorkerState::Executing(t));
                }
                Action::Run(t, job)
            },
            None => {
                if self.accepting {
                    Action::Wait
                } else {
                    self.workers.set(id, WorkerState::Terminated);
                    proof {
                        let ws2 = self.workers@;
                        assert forall|s: u64| #[trigger] running(ws2, s) implies s
                            < self.dispatched && !self@.completed.contains(s) by {
                            let i = choose|i: int| 0 <= i < ws2.len() && ws2[i]
                                == WorkerState::Executing(s);
                            assert(ws[i] == ws2[i]);
                            assert(running(ws, s));
                        }
                        assert forall|i: int, j: int|
                            0 <= i < ws2.len() && 0 <= j < ws2.len() && i != j
                                && ws2[i] is Executing && ws2[j] is Executing
                                implies #[trigger] ws2[i] != #[trigger] ws2[j] by {
                            assert(ws[i] == ws2[i] && ws[j] == ws2[j]);
                        }
                        assert forall|s: u64| s < self.dispatched implies
                            #[trigger] self@.completed.contains(s) || #[trigger] running(ws2, s) by {
                            if !v.completed.contains(s) {
                                assert(running(ws, s));
                                let i = choose|i: int| 0 <= i < ws.len() && ws[i]
                                    == WorkerState::Executing(s);
                                assert(ws2[i] == ws[i]);
                            }
                        }
                        lemma_load_update(ws, id as int, WorkerState::Terminated);
                    }
                    Action::Exit
                }
            },
        }
    }

    /// Records that worker `id` has returned from its job; `faulted` tells
    /// whether the job raised a fault. Either way the worker goes back to
    /// waiting, so a faulting job costs the pool no capacity.
    pub fn finish(&mut self, id: usize, faulted: bool)
        requires
            old(self).inv(),
            id < old(self)@.size(),
            old(self)@.workers[id as int] is Executing,
        ensures
            final(self).inv(),
            final(self).jobs() == old(self).jobs(),
            final(self)@ == (PoolView {
                workers: old(self)@.workers.update(id as int, WorkerState::Waiting),
                completed: old(self)@.completed.push(old(self)@.workers[id as int]->Executing_0),
                faulted: if faulted {
                    old(self)@.faulted.push(old(self)@.workers[id as int]->Executing_0)
                } else {
                    old(self)@.faulted
                },
                ..old(self)@
            }),
            final(self)@.remaining() < old(self)@.remaining(),
    {
        let ghost ws = self.workers@;
        let ghost v = self@;
        let t: u64 = match self.workers[id] {
            WorkerState::Executing(t) => t,
            _ => 0,
        };
        self.workers.set(id, WorkerState::Waiting);
        self.completed.push(t);
        if faulted {
            self.faulted.push(t);
        }
        proof {
            let ws2 = self.workers@;
            let c2 = self.completed@;
            assert(running(ws, t));
            assert(c2.no_duplicates()) by {
                assert forall|a: int, b: int| 0 <= a < c2.len() && 0 <= b < c2.len() && a != b
                    implies c2[a] != c2[b] by {
                    if a == c2.len() - 1 {
                        assert(!v.completed.contains(t));
                        if c2[b] == t {
                            assert(v.completed[b] == t);
                        }
                    } else if b == c2.len() - 1 {
                        assert(!v.completed.contains(t));
                        if c2[a] == t {
                            assert(v.completed[a] == t);
                        }
                    } else {
                        assert(c2[a] == v.completed[a] && c2[b] == v.completed[b]);
                    }
                }
            }
            assert forall|k: int| 0 <= k < c2.len() implies #[trigger] c2[k] < self.dispatched by {
                if k < v.completed.len() {
                    assert(c2[k] == v.completed[k]);
                }
            }
            assert forall|s: u64| #[trigger] running(ws2, s) implies s < self.dispatched
                && !c2.contains(s) by {
                let i = choose|i: int| 0 <= i < ws2.len() && ws2[i] == WorkerState::Executing(s);
                assert(i != id);
                assert(ws[i] == ws2[i]);
                assert(running(ws, s));
                assert(ws[i] != ws[id as int]);
                if c2.contains(s) {
                    let k = choose|k: int| 0 <= k < c2.len() && c2[k] == s;
                    if k < v.completed.len() {
                        assert(v.completed[k] == s);
                    }
                }
            }
            assert forall|i: int, j: int|
                0 <= i < ws2.len() && 0 <= j < ws2.len() && i != j
                    && ws2[i] is Executing && ws2[j] is Executing
                    implies #[trigger] ws2[i] != #[trigger] ws2[j] by {
                assert(ws[i] == ws2[i] && ws[j] == ws2[j]);
            }
            assert forall|s: u64| s < self.dispatched implies
                #[trigger] c2.contains(s) || #[trigger] running(ws2, s) by {
                if s == t {
                    assert(c2[c2.len() - 1] == s);
                } else if v.completed.contains(s) {
                    let k = choose|k: int| 0 <= k < v.completed.len() && v.completed[k] == s;
                    assert(c2[k] == s);
                } else {
                    assert(running(ws, s));
                    let i = choose|i: int| 0 <= i < ws.len() && ws[i] == WorkerState::Executing(s);
                    assert(i != id);
                    assert(ws2[i] == ws[i]);
                }
            }
            assert forall|i: int|
                0 <= i < ws2.len() && #[trigger] ws2[i] is Terminated
                implies !self@.accepting && self@.dispatched == self@.submitted by {
                assert(ws[i] is Terminated);
            }
            if ws.len() == 1 {
                assert forall|k: int| 0 <= k < c2.len() implies #[trigger] c2[k] == k by {
                    if k < v.completed.len() {
                        assert(c2[k] == v.completed[k]);
                    }
                }
            }
            lemma_load_update(ws, id as int, WorkerState::Waiting);
        }
    }

    /// Closes admission: the start of a graceful shutdown. Jobs already in the
    /// queue are still handed out. Doing it twice changes nothing more.
    pub fn shutdown(&mut self)
        requires
            old(self).inv(),
        ensures
            final(self).inv(),
            final(self)@ == (PoolView { accepting: false, ..old(self)@ }),
            final(self).jobs() == old(self).jobs(),
    {
        self.accepting = false;
    }

    /// The number of worker slots.
    pub fn size(&self) -> (r: usize)
        requires
            self.inv(),
        ensures
            r == self@.size(),
    {
        self.workers.len()
    }

    /// Whether jobs are still admitted.
    pub fn is_accepting(&self) -> (r: bool)
        ensures
            r == self@.accepting,
    {
        self.accepting
    }

    /// How many jobs have been admitted; also the next ticket.
    pub fn submitted_count(&self) -> (r: u64)
        ensures
            r == self@.submitted,
    {
        self.submitted
    }

    /// How many admitted jobs are still in the queue.
    pub fn queued_count(&self) -> (r: u64)
        requires
            self.inv(),
        ensures
            r == self@.queued(),
    {
        self.submitted - self.dispatched
    }

    /// The state of worker `id`.
    pub fn worker_state(&self, id: usize) -> (r: WorkerState)
        requires
            id < self@.size(),
        ensures
            r == self@.workers[id as int],
    {
        self.workers[id]
    }

    /// Tickets of the completed jobs, in order of completion.
    pub fn completed(&self) -> (r: Vec<u64>)
        ensures
            r@ == self@.completed,
    {
        self.completed.clone()
    }

    /// Tickets of the completed jobs that faulted, in order of completion.
    pub fn faulted(&self) -> (r: Vec<u64>)
        ensures
            r@ == self@.faulted,
    {
        self.faulted.clone()
    }

    /// Whether every worker has terminated: shutdown is complete.
    pub fn is_drained(&self) -> (r: bool)
        ensures
            r == self@.all_terminated(),
    {
        let mut i: usize = 0;
        while i < self.workers.len()
            invariant
                i <= self.workers@.len(),
                forall|k: int| 0 <= k < i ==> #[trigger] self.workers@[k] is Terminated,
            decreases self.workers@.len() - i,
        {
            match self.workers[i] {
                WorkerState::Terminated => {},
                _ => {
                    return false;
                },
            }
            i = i + 1;
        }
        true
    }
}

} // verus!
