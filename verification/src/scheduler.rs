//! The queues of the models: which model a job goes to, and what is said where it cannot go there.
use std::collections::VecDeque;
use tokio::sync::mpsc::error::TrySendError;
use tokio::sync::mpsc::Sender;
use vstd::prelude::*;

use crate::text::same_text;

verus! {

/// The sending end of a bounded queue, `tokio::sync::mpsc::Sender`.
#[verifier::external_type_specification]
#[verifier::external_body]
#[verifier::reject_recursive_types(T)]
pub struct ExSender<T>(Sender<T>);

/// What came of handing something to a queue.
#[derive(Clone, Copy, Debug, PartialEq, Eq, Structural)]
pub enum SendOutcome {
    Accepted,
    Full,
    Closed,
}

/// Calls `tokio::sync::mpsc::Sender::try_send` and tells which of its three outcomes came. The
/// outcome rests on what the other end of the queue has done, so nothing is claimed of it.
#[verifier::external_body]
fn try_send<T>(queue: &Sender<T>, message: T) -> (outcome: SendOutcome) {
    match queue.try_send(message) {
        Ok(()) => SendOutcome::Accepted,
        Err(TrySendError::Full(_)) => SendOutcome::Full,
        Err(TrySendError::Closed(_)) => SendOutcome::Closed,
    }
}

/// What is said of a window that was handed to the queue of its stream: a live stream fails at once
/// when that queue is full.
pub fn window_delivery(outcome: SendOutcome) -> (out: Result<(), String>)
    ensures
        outcome == SendOutcome::Accepted <==> out is Ok,
        outcome == SendOutcome::Full ==> out->Err_0@ == "client window queue full"@,
        outcome == SendOutcome::Closed ==> out->Err_0@ == "live stream worker stopped"@,
{
    match outcome {
        SendOutcome::Accepted => Ok(()),
        SendOutcome::Full => Err("client window queue full".to_string()),
        SendOutcome::Closed => Err("live stream worker stopped".to_string()),
    }
}

/// Hands a window to the queue of its stream.
pub fn send_live_window<T>(queue: &Sender<T>, window: T) -> (out: Result<(), String>)
    ensures
        out matches Err(e) ==> e@ == "client window queue full"@ || e@
            == "live stream worker stopped"@,
{
    window_delivery(try_send(queue, window))
}

/// Why a job was not taken.
#[derive(Debug)]
pub enum SubmitError {
    /// The model has as many jobs waiting as it may.
    QueueFull(String),
    /// There is no such model.
    UnknownModel,
    /// The model takes no more jobs.
    SchedulerStopped(String),
}

/// What is said of a job that was handed to the queue of its model.
pub fn submission(outcome: SendOutcome) -> (out: Result<(), SubmitError>)
    ensures
        match outcome {
            SendOutcome::Accepted => out is Ok,
            SendOutcome::Full => out matches Err(SubmitError::QueueFull(reason)) && reason@
                == "model queue full"@,
            SendOutcome::Closed => out matches Err(SubmitError::SchedulerStopped(reason)) && reason@
                == "model scheduler stopped"@,
        },
{
    match outcome {
        SendOutcome::Accepted => Ok(()),
        SendOutcome::Full => Err(SubmitError::QueueFull("model queue full".to_string())),
        SendOutcome::Closed => Err(
            SubmitError::SchedulerStopped("model scheduler stopped".to_string()),
        ),
    }
}

/// The queues of the enabled models, by the model's id.
#[verifier::reject_recursive_types(T)]
pub struct ModelSchedulers<T> {
    pub entries: Vec<(String, Sender<T>)>,
}

impl<T> ModelSchedulers<T> {
    /// True where there is a queue for `model`.
    pub open spec fn has(&self, model: Seq<char>) -> bool {
        exists|i: int| 0 <= i < self.entries@.len() && (#[trigger] self.entries@[i]).0@ == model
    }

    /// No model has a queue.
    pub fn new() -> (schedulers: ModelSchedulers<T>)
        ensures
            schedulers.entries@ == Seq::<(String, Sender<T>)>::empty(),
    {
        ModelSchedulers { entries: Vec::new() }
    }

    /// True where `queue` is the queue of `model`.
    pub open spec fn holds(&self, model: Seq<char>, queue: Sender<T>) -> bool {
        exists|i: int|
            0 <= i < self.entries@.len() && (#[trigger] self.entries@[i]).0@ == model
                && self.entries@[i].1 == queue && first_named(self.entries@, i)
    }

    /// Gives a model a queue; a queue that it had is replaced. The other models keep theirs.
    pub fn insert(&mut self, model: String, queue: Sender<T>)
        ensures
            forall|id: Seq<char>| #[trigger] final(self).has(id) <==> old(self).has(id) || id == model@,
            final(self).holds(model@, queue),
            forall|q: Sender<T>| final(self).holds(model@, q) ==> q == queue,
            forall|id: Seq<char>, q: Sender<T>|
                id != model@ ==> (#[trigger] final(self).holds(id, q) <==> old(self).holds(id, q)),
    {
        let ghost before = self.entries@;
        let ghost name = model@;
        let found = self.position(model.as_str());
        let ghost at = match found {
            Some(i) => i as int,
            None => before.len() as int,
        };
        match found {
            Some(i) => {
                self.entries.set(i, (model, queue));
            },
            None => {
                self.entries.push((model, queue));
            },
        }
        let ghost after = self.entries@;
        proof {
            assert(after[at].0@ == name && first_named(after, at));
            assert forall|id: Seq<char>| #[trigger] self.has(id) <==> old(self).has(id) || id
                == name by {
                if old(self).has(id) {
                    let j = choose|j: int|
                        0 <= j < before.len() && (#[trigger] before[j]).0@ == id;
                    assert(after[j].0@ == id);
                }
                if self.has(id) {
                    let j = choose|j: int| 0 <= j < after.len() && (#[trigger] after[j]).0@ == id;
                    if j != at {
                        assert(before[j].0@ == id);
                    }
                }
            }
            assert forall|id: Seq<char>, q: Sender<T>| id != name implies (#[trigger] self.holds(
                id,
                q,
            ) <==> old(self).holds(id, q)) by {
                if self.holds(id, q) {
                    let j = choose|j: int|
                        0 <= j < after.len() && (#[trigger] after[j]).0@ == id && after[j].1 == q
                            && first_named(after, j);
                    assert(before[j] == after[j]);
                    assert forall|k: int| 0 <= k < j implies (#[trigger] before[k]).0@ != before[j].0@ by {
                        assert(after[k].0@ == before[k].0@);
                    }
                }
                if old(self).holds(id, q) {
                    let j = choose|j: int|
                        0 <= j < before.len() && (#[trigger] before[j]).0@ == id && before[j].1 == q
                            && first_named(before, j);
                    assert(before[j] == after[j]);
                    assert forall|k: int| 0 <= k < j implies (#[trigger] after[k]).0@ != after[j].0@ by {
                        assert(after[k].0@ == before[k].0@);
                    }
                }
            }
        }
    }

    /// Where the queue of a model stands.
    fn position(&self, model: &str) -> (found: Option<usize>)
        ensures
            found is Some <==> self.has(model@),
            found matches Some(i) ==> i < self.entries@.len() && self.entries@[i as int].0@ == model@
                && first_named(self.entries@, i as int),
    {
        let mut i: usize = 0;
        while i < self.entries.len()
            invariant
                i <= self.entries@.len(),
                forall|j: int| 0 <= j < i ==> (#[trigger] self.entries@[j]).0@ != model@,
            decreases self.entries@.len() - i,
        {
            if same_text(self.entries[i].0.as_str(), model) {
                return Some(i);
            }
            i = i + 1;
        }
        None
    }

    /// How many models have queues.
    pub fn len(&self) -> (n: usize)
        ensures
            n == self.entries@.len(),
    {
        self.entries.len()
    }

    /// Whether a model has a queue.
    pub fn contains_model(&self, model: &str) -> (found: bool)
        ensures
            found == self.has(model@),
    {
        self.position(model).is_some()
    }

    /// The queue of a model, if it has one.
    pub fn queue_of(&self, model: &str) -> (out: Option<&Sender<T>>)
        ensures
            out is Some <==> self.has(model@),
            out matches Some(queue) ==> self.holds(model@, *queue),
    {
        match self.position(model) {
            Some(i) => Some(&self.entries[i].1),
            None => None,
        }
    }

    /// Hands a job to the queue of its model, which `queue_of` gives. A model without a queue is
    /// always reported as unknown, and no other is.
    pub fn submit(&self, model: &str, job: T) -> (out: Result<(), SubmitError>)
        ensures
            !self.has(model@) <==> out matches Err(SubmitError::UnknownModel),
            out matches Err(SubmitError::QueueFull(reason)) ==> reason@ == "model queue full"@,
            out matches Err(SubmitError::SchedulerStopped(reason)) ==> reason@
                == "model scheduler stopped"@,
    {
        match self.queue_of(model) {
            Some(queue) => submission(try_send(queue, job)),
            None => Err(SubmitError::UnknownModel),
        }
    }
}

/// The jobs of a model that are put off, and the numbers that jobs get.
pub struct DeferredJobs<J> {
    pub jobs: VecDeque<J>,
    pub next_job_id: usize,
}

impl<J> DeferredJobs<J> {
    /// No job is put off, and the first job gets number one.
    pub fn new() -> (deferred: DeferredJobs<J>)
        ensures
            deferred.jobs@ == Seq::<J>::empty(),
            deferred.next_job_id == 1,
    {
        DeferredJobs { jobs: VecDeque::new(), next_job_id: 1 }
    }

    /// Puts a job off.
    pub fn put_off(&mut self, job: J)
        ensures
            final(self).jobs@ == old(self).jobs@.push(job),
            final(self).next_job_id == old(self).next_job_id,
    {
        self.jobs.push_back(job);
    }

    /// The job that was put off first, if one is; it comes before any new job.
    pub fn next(&mut self) -> (job: Option<J>)
        ensures
            final(self).next_job_id == old(self).next_job_id,
            old(self).jobs@.len() == 0 ==> job is None && final(self).jobs@ == old(self).jobs@,
            old(self).jobs@.len() > 0 ==> job == Some(old(self).jobs@.first()) && final(self).jobs@
                == old(self).jobs@.drop_first(),
    {
        let job = self.jobs.pop_front();
        assert(old(self).jobs@.len() > 0 ==> self.jobs@ =~= old(self).jobs@.drop_first());
        job
    }

    /// The number of the next job, which no job has had.
    pub fn take_id(&mut self) -> (job_id: usize)
        requires
            old(self).next_job_id < usize::MAX,
        ensures
            job_id == old(self).next_job_id,
            final(self).next_job_id == job_id + 1,
            final(self).jobs == old(self).jobs,
    {
        let job_id: usize = self.next_job_id;
        self.next_job_id = job_id + 1;
        job_id
    }
}

/// True where no earlier entry has the name of entry `i`.
pub open spec fn first_named<Q>(entries: Seq<(String, Q)>, i: int) -> bool {
    forall|j: int| 0 <= j < i ==> (#[trigger] entries[j]).0@ != entries[i].0@
}

} // verus!
