//! Jobs, their life cycle, and the first-in first-out queue that hands them
//! to workers.
use std::collections::VecDeque;
use vstd::prelude::*;

verus! {

/// Where a job stands in its life cycle.
#[derive(Debug, Clone, Copy, PartialEq, Eq, Structural)]
pub enum JobStatus {
    Running,
    Pending,
    Finished,
    Failed,
    Waiting,
}

/// The abstract content of a [`ScrapeJob`].
pub struct ScrapeJobView {
    pub url: Seq<char>,
    pub status: JobStatus,
    pub index: Option<usize>,
}

/// One URL to fetch, with its status and, for batch fetches, the position
/// of its result.
pub struct ScrapeJob {
    url: String,
    status: JobStatus,
    index: Option<usize>,
}

impl View for ScrapeJob {
    type V = ScrapeJobView;

    closed spec fn view(&self) -> ScrapeJobView {
        ScrapeJobView { url: self.url@, status: self.status, index: self.index }
    }
}

impl ScrapeJob {
    /// A pending job without a result position.
    pub fn new(url: String) -> (job: Self)
        ensures
            job@ == (ScrapeJobView { url: url@, status: JobStatus::Pending, index: None }),
    {
        ScrapeJob { url, status: JobStatus::Pending, index: None }
    }

    /// A pending job whose result belongs at position `index`.
    pub fn new_indexed(url: String, index: usize) -> (job: Self)
        ensures
            job@ == (ScrapeJobView { url: url@, status: JobStatus::Pending, index: Some(index) }),
    {
        ScrapeJob { url, status: JobStatus::Pending, index: Some(index) }
    }

    pub fn url(&self) -> (url: &str)
        ensures
            url@ == self@.url,
    {
        self.url.as_str()
    }

    pub fn status(&self) -> (status: &JobStatus)
        ensures
            *status == self@.status,
    {
        &self.status
    }

    pub fn index(&self) -> (index: Option<usize>)
        ensures
            index == self@.index,
    {
        self.index
    }

    pub fn set_status(&mut self, status: JobStatus)
        ensures
            final(self)@ == (ScrapeJobView { status, ..old(self)@ }),
    {
        self.status = status;
    }

    /// Marks the job as done by its worker.
    pub fn finish(&mut self)
        ensures
            final(self)@ == (ScrapeJobView { status: JobStatus::Finished, ..old(self)@ }),
    {
        self.set_status(JobStatus::Finished);
    }
}


/// What a worker finds when it asks the queue for work.
pub enum Next {
    /// The job at the front of the queue, now taken out of it.
    Job(ScrapeJob),
    /// A stop signal, now taken out of the queue: the worker should end.
    Shutdown,
    /// Nothing is queued yet: the worker waits for a push and asks again.
    Empty,
}

/// What `next` hands out for a queue whose entries are `entries`.
pub open spec fn next_outcome(entries: Seq<Option<ScrapeJob>>) -> Next {
    if entries.len() == 0 {
        Next::Empty
    } else {
        match entries[0] {
            Some(job) => Next::Job(job),
            None => Next::Shutdown,
        }
    }
}

/// The entries left after `next`: the front one is consumed, if any.
pub open spec fn after_next(entries: Seq<Option<ScrapeJob>>) -> Seq<Option<ScrapeJob>> {
    if entries.len() == 0 {
        entries
    } else {
        entries.drop_first()
    }
}

/// `count` stop signals.
pub open spec fn stop_signals(count: nat) -> Seq<Option<ScrapeJob>> {
    Seq::new(count, |i: int| None)
}

/// The outcomes of `steps` successive calls of `next`, starting from `entries`.
pub open spec fn outcomes(entries: Seq<Option<ScrapeJob>>, steps: nat) -> Seq<Next>
    decreases steps,
{
    if steps == 0 {
        Seq::empty()
    } else {
        seq![next_outcome(entries)] + outcomes(after_next(entries), (steps - 1) as nat)
    }
}

/// The outcome that an entry stands for.
pub open spec fn entry_outcome(entry: Option<ScrapeJob>) -> Next {
    match entry {
        Some(job) => Next::Job(job),
        None => Next::Shutdown,
    }
}

/// A first-in first-out queue of jobs and stop signals, shared by workers.
///
/// Its entries are `Some(job)` for a job and `None` for a stop signal.
pub struct Queue {
    jobs: VecDeque<Option<ScrapeJob>>,
}

impl View for Queue {
    type V = Seq<Option<ScrapeJob>>;

    closed spec fn view(&self) -> Seq<Option<ScrapeJob>> {
        self.jobs@
    }
}

impl Queue {
    /// An empty queue.
    pub fn new() -> (queue: Self)
        ensures
            queue@ == Seq::<Option<ScrapeJob>>::empty(),
    {
        Queue { jobs: VecDeque::new() }
    }

    /// Appends a job at the back.
    pub fn push(&mut self, job: ScrapeJob)
        ensures
            final(self)@ == old(self)@.push(Some(job)),
    {
        self.jobs.push_back(Some(job));
    }

    /// Takes the front entry: a job, or a stop signal; `Empty` when nothing
    /// is queued, in which case the queue is left as it was.
    pub fn next(&mut self) -> (outcome: Next)
        ensures
            outcome == next_outcome(old(self)@),
            final(self)@ == after_next(old(self)@),
    {
        match self.jobs.pop_front() {
            Some(Some(job)) => Next::Job(job),
            Some(None) => Next::Shutdown,
            None => Next::Empty,
        }
    }

    /// A worker's turn at the queue: takes the front entry as `next` does;
    /// a job comes out marked `Running`, a stop signal tells the worker to
    /// end, and `Empty` tells it to wait.
    pub fn next_for_worker(&mut self) -> (outcome: Next)
        ensures
            final(self)@ == after_next(old(self)@),
            match next_outcome(old(self)@) {
                Next::Job(job) => (outcome matches Next::Job(started) && started@ == (ScrapeJobView {
                    status: JobStatus::Running,
                    ..job@
                })),
                Next::Shutdown => outcome is Shutdown,
                Next::Empty => outcome is Empty,
            },
    {
        match self.next() {
            Next::Job(mut job) => {
                job.set_status(JobStatus::Running);
                Next::Job(job)
            },
            other => other,
        }
    }

    /// Appends one stop signal for each of `workers` workers, behind every
    /// job already queued.
    pub fn shutdown(&mut self, workers: usize)
        ensures
            final(self)@ == old(self)@ + stop_signals(workers as nat),
    {
        let ghost start = self.jobs@;
        let mut i: usize = 0;
        while i < workers
            invariant
                i <= workers,
                self.jobs@ == start + stop_signals(i as nat),
            decreases workers - i,
        {
            self.jobs.push_back(None);
            i = i + 1;
            assert(self.jobs@ =~= start + stop_signals(i as nat));
        }
    }
}

impl Default for Queue {
    fn default() -> (queue: Self)
        ensures
            queue@ == Seq::<Option<ScrapeJob>>::empty(),
    {
        Queue::new()
    }
}

/// The outcomes of draining a queue: each entry in turn, then `Empty` for
/// every further call.
pub proof fn lemma_outcomes_drain(entries: Seq<Option<ScrapeJob>>, steps: nat)
    requires
        steps >= entries.len(),
    ensures
        outcomes(entries, steps) == entries.map_values(|e: Option<ScrapeJob>| entry_outcome(e))
            + Seq::new((steps - entries.len()) as nat, |i: int| Next::Empty),
    decreases steps,
{
    if steps == 0 {
        assert(outcomes(entries, steps) =~= entries.map_values(|e: Option<ScrapeJob>| entry_outcome(e))
            + Seq::new((steps - entries.len()) as nat, |i: int| Next::Empty));
    } else {
        lemma_outcomes_drain(after_next(entries), (steps - 1) as nat);
        assert(outcomes(entries, steps) =~= entries.map_values(|e: Option<ScrapeJob>| entry_outcome(e))
            + Seq::new((steps - entries.len()) as nat, |i: int| Next::Empty));
    }
}

/// Shutting a queue down lets every worker finish the work queued before:
/// when `jobs` were pushed, in this order, onto an empty queue and then
/// `shutdown(workers)` was called, successive calls of `next` hand out the
/// jobs in push order, then exactly `workers` stop signals, and `Empty` from
/// then on.
pub proof fn law_shutdown_follows_queued_jobs(jobs: Seq<ScrapeJob>, workers: nat, extra: nat)
    ensures
        outcomes(
            jobs.map_values(|j: ScrapeJob| Some(j)) + stop_signals(workers),
            jobs.len() + workers + extra,
        ) == jobs.map_values(|j: ScrapeJob| Next::Job(j))
            + Seq::new(workers, |i: int| Next::Shutdown)
            + Seq::new(extra, |i: int| Next::Empty),
{
    let entries = jobs.map_values(|j: ScrapeJob| Some(j)) + stop_signals(workers);
    lemma_outcomes_drain(entries, jobs.len() + workers + extra);
    assert(entries.map_values(|e: Option<ScrapeJob>| entry_outcome(e))
        =~= jobs.map_values(|j: ScrapeJob| Next::Job(j)) + Seq::new(workers, |i: int| Next::Shutdown));
    assert(outcomes(entries, jobs.len() + workers + extra) =~= jobs.map_values(|j: ScrapeJob| Next::Job(j))
        + Seq::new(workers, |i: int| Next::Shutdown) + Seq::new(extra, |i: int| Next::Empty));
}

/// One operation on a queue, as the lock lets them happen one at a time.
pub enum QueueOp {
    Push(ScrapeJob),
    Take,
    Shutdown(usize),
}

/// The entries an operation appends.
pub open spec fn appended(op: QueueOp) -> Seq<Option<ScrapeJob>> {
    match op {
        QueueOp::Push(job) => seq![Some(job)],
        QueueOp::Take => Seq::empty(),
        QueueOp::Shutdown(workers) => stop_signals(workers as nat),
    }
}

/// The entries an operation hands out of a queue holding `entries`.
pub open spec fn taken(entries: Seq<Option<ScrapeJob>>, op: QueueOp) -> Seq<Option<ScrapeJob>> {
    match op {
        QueueOp::Take => if entries.len() > 0 {
            seq![entries[0]]
        } else {
            Seq::empty()
        },
        _ => Seq::empty(),
    }
}

/// The entries after an operation, as `push`, `next` and `shutdown` state it.
pub open spec fn apply_op(entries: Seq<Option<ScrapeJob>>, op: QueueOp) -> Seq<Option<ScrapeJob>> {
    match op {
        QueueOp::Push(job) => entries.push(Some(job)),
        QueueOp::Take => after_next(entries),
        QueueOp::Shutdown(workers) => entries + stop_signals(workers as nat),
    }
}

/// Every entry that a history of operations appends, in order.
pub open spec fn all_appended(ops: Seq<QueueOp>) -> Seq<Option<ScrapeJob>>
    decreases ops.len(),
{
    if ops.len() == 0 {
        Seq::empty()
    } else {
        appended(ops[0]) + all_appended(ops.drop_first())
    }
}

/// The entries left after a history of operations, and every entry it
/// handed out, in order.
pub open spec fn run_ops(entries: Seq<Option<ScrapeJob>>, ops: Seq<QueueOp>) -> (Seq<Option<ScrapeJob>>, Seq<
    Option<ScrapeJob>,
>)
    decreases ops.len(),
{
    if ops.len() == 0 {
        (entries, Seq::empty())
    } else {
        let rest = run_ops(apply_op(entries, ops[0]), ops.drop_first());
        (rest.0, taken(entries, ops[0]) + rest.1)
    }
}

/// Entries present at the start, then those appended, are exactly those
/// handed out followed by those left.
pub proof fn lemma_run_ops(entries: Seq<Option<ScrapeJob>>, ops: Seq<QueueOp>)
    ensures
        entries + all_appended(ops) == run_ops(entries, ops).1 + run_ops(entries, ops).0,
    decreases ops.len(),
{
    if ops.len() == 0 {
        assert(entries + all_appended(ops) =~= run_ops(entries, ops).1 + run_ops(entries, ops).0);
    } else {
        let op = ops[0];
        let next_entries = apply_op(entries, op);
        lemma_run_ops(next_entries, ops.drop_first());
        match op {
            QueueOp::Take => {
                if entries.len() > 0 {
                    assert(entries =~= seq![entries[0]] + next_entries);
                } else {
                    assert(next_entries =~= entries);
                }
            },
            _ => {},
        }
        assert(entries + all_appended(ops) =~= taken(entries, op) + (next_entries + all_appended(ops.drop_first())));
        assert(entries + all_appended(ops) =~= run_ops(entries, ops).1 + run_ops(entries, ops).0);
    }
}

/// A queue neither loses nor repeats an entry: for any history of pushes,
/// takes and shutdowns on an empty queue, done one at a time as the lock
/// orders them, the jobs and stop signals handed out, followed by those
/// still queued, are exactly those pushed and added by shutdowns, in that
/// order. So each pushed job is handed out at most once and is never
/// dropped (until handed out, it stays queued), and each stop signal stops
/// exactly one taker.
pub proof fn law_queue_hands_out_each_entry_once(ops: Seq<QueueOp>)
    ensures
        all_appended(ops) == run_ops(Seq::empty(), ops).1 + run_ops(Seq::empty(), ops).0,
{
    lemma_run_ops(Seq::empty(), ops);
    assert(Seq::<Option<ScrapeJob>>::empty() + all_appended(ops) =~= all_appended(ops));
}

/// A history of takes appends nothing.
pub proof fn lemma_takes_append_nothing(ops: Seq<QueueOp>)
    requires
        forall|k: int| 0 <= k < ops.len() ==> #[trigger] ops[k] is Take,
    ensures
        all_appended(ops) == Seq::<Option<ScrapeJob>>::empty(),
    decreases ops.len(),
{
    if ops.len() > 0 {
        assert(ops[0] is Take);
        let rest = ops.drop_first();
        assert forall|k: int| 0 <= k < rest.len() implies #[trigger] rest[k] is Take by {
            assert(rest[k] == ops[k + 1]);
        }
        lemma_takes_append_nothing(rest);
        assert(all_appended(ops) =~= Seq::<Option<ScrapeJob>>::empty());
    }
}

/// The positions a batch's workers record are distinct: when the queue
/// holds the batch's jobs, the `k`-th carrying position `k` (as
/// `indexed_jobs` makes them), followed by stop signals, however the
/// workers then take from it, the jobs handed out carry distinct positions,
/// each below the number of jobs, and they are handed out in position
/// order. Each worker records its job's result at that position once, so
/// the board of the batch sees each position recorded at most once, which
/// is the premise of the board's history law.
pub proof fn law_batch_positions_handed_once(jobs: Seq<ScrapeJob>, workers: nat, ops: Seq<QueueOp>)
    requires
        jobs.len() <= usize::MAX,
        forall|k: int| 0 <= k < jobs.len() ==> (#[trigger] jobs[k])@.index == Some(k as usize),
        forall|k: int| 0 <= k < ops.len() ==> #[trigger] ops[k] is Take,
    ensures
        ({
            let handed = run_ops(jobs.map_values(|j: ScrapeJob| Some(j)) + stop_signals(workers), ops).1;
            &&& forall|a: int|
                0 <= a < handed.len() && #[trigger] handed[a] is Some ==> a < jobs.len()
                    && handed[a].unwrap()@.index == Some(a as usize)
            &&& forall|a: int, b: int|
                0 <= a < handed.len() && 0 <= b < handed.len() && a != b && #[trigger] handed[a] is Some
                    && #[trigger] handed[b] is Some ==> handed[a].unwrap()@.index != handed[b].unwrap()@.index
        }),
{
    let entries = jobs.map_values(|j: ScrapeJob| Some(j)) + stop_signals(workers);
    lemma_takes_append_nothing(ops);
    lemma_run_ops(entries, ops);
    assert(entries + all_appended(ops) =~= entries);
    let handed = run_ops(entries, ops).1;
    let left = run_ops(entries, ops).0;
    assert(entries == handed + left);
    assert forall|a: int| 0 <= a < handed.len() && #[trigger] handed[a] is Some implies a < jobs.len()
        && handed[a].unwrap()@.index == Some(a as usize) by {
        assert(handed[a] == entries[a]);
        if a >= jobs.len() {
            assert(entries[a] == stop_signals(workers)[a - jobs.len()]);
        } else {
            assert(entries[a] == Some(jobs[a]));
        }
    }
}

/// The I/O error that the standard library reports when it cannot tell how
/// many threads can run at once; carried through unchanged.
#[verifier::external_type_specification]
#[verifier::external_body]
pub struct ExIoError(std::io::Error);

/// Why a batch fetch could not start.
pub enum FetchError {
    /// More worker threads were requested than can run at once (both
    /// numbers are positive).
    TooManyThreads { requested: usize, available: usize },
    /// The number of threads that can run at once could not be determined.
    ParallelismUnavailable(std::io::Error),
}

/// Decides whether `requested` worker threads may be started, given what
/// the machine reported as the number of threads that can run at once.
pub fn check_thread_count(requested: usize, available: Result<usize, std::io::Error>) -> (res:
    Result<(), FetchError>)
    requires
        requested > 0,
        available matches Ok(n) ==> n > 0,
    ensures
        match available {
            Err(e) => res matches Err(FetchError::ParallelismUnavailable(e2)) && e2 == e,
            Ok(n) => if requested > n {
                res matches Err(FetchError::TooManyThreads { requested: r, available: a })
                    && r == requested && a == n
            } else {
                res is Ok
            },
        },
{
    match available {
        Err(e) => Err(FetchError::ParallelismUnavailable(e)),
        Ok(n) => {
            if requested > n {
                Err(FetchError::TooManyThreads { requested, available: n })
            } else {
                Ok(())
            }
        },
    }
}

/// The jobs of a batch fetch: one pending job per URL, in order, each
/// carrying its own position as the place of its result.
pub fn indexed_jobs(urls: Vec<String>) -> (jobs: Vec<ScrapeJob>)
    ensures
        jobs.len() == urls.len(),
        forall|i: int|
            0 <= i < jobs.len() ==> #[trigger] jobs[i]@ == (ScrapeJobView {
                url: urls[i]@,
                status: JobStatus::Pending,
                index: Some(i as usize),
            }),
{
    let mut jobs: Vec<ScrapeJob> = Vec::new();
    let mut index: usize = 0;
    let count: usize = urls.len();
    for url in it: urls.into_iter()
        invariant
            index == it.index(),
            it.seq() == urls@,
            jobs.len() == index,
            index <= count,
            count == urls@.len(),
            forall|i: int|
                0 <= i < index ==> #[trigger] jobs[i]@ == (ScrapeJobView {
                    url: urls[i]@,
                    status: JobStatus::Pending,
                    index: Some(i as usize),
                }),
    {
        assert(index < count);
        jobs.push(ScrapeJob::new_indexed(url, index));
        index = index + 1;
    }
    jobs
}

} // verus!
