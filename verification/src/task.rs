//! The unit of work: an off-chain request, the task wrapped around it, and
//! the per-task state machine of the scheduler.

use vstd::prelude::*;

verus! {

/// Persisted state of a resolution task. The numeric codes (see
/// [`TaskState::spec_code`]) are part of the storage contract; every state
/// but `Queued` is terminal.
#[derive(Copy, Clone, Debug, PartialEq, Eq, Structural)]
pub enum TaskState {
    /// Scheduled, not yet succeeded.
    Queued,
    /// No downloader registered for the URI's scheme, or the URI is malformed.
    UnknownURI,
    /// No parser registered for the manifest.
    UnknownParser,
    /// Download failed after the retry budget was exhausted.
    DownloadFailed,
    /// The parser returned an error.
    ParsingFailed,
    /// Downloaded and parsed successfully.
    Finished,
}

impl TaskState {
    /// The small-integer code under which this state is persisted.
    pub open spec fn spec_code(self) -> i32 {
        match self {
            TaskState::Queued => 0,
            TaskState::UnknownURI => 1,
            TaskState::UnknownParser => 2,
            TaskState::DownloadFailed => 3,
            TaskState::ParsingFailed => 4,
            TaskState::Finished => 5,
        }
    }

    /// A terminal state admits no further transitions.
    pub open spec fn spec_is_terminal(self) -> bool {
        self != TaskState::Queued
    }

    /// Encode this state as its storage code.
    pub fn code(self) -> (c: i32)
        ensures
            c == self.spec_code(),
    {
        match self {
            TaskState::Queued => 0,
            TaskState::UnknownURI => 1,
            TaskState::UnknownParser => 2,
            TaskState::DownloadFailed => 3,
            TaskState::ParsingFailed => 4,
            TaskState::Finished => 5,
        }
    }

    /// Decode a storage code; exactly the codes 0 through 5 are valid.
    pub fn from_code(c: i32) -> (r: Option<TaskState>)
        ensures
            r is Some <==> 0 <= c <= 5,
            r is Some ==> r->0.spec_code() == c,
    {
        if c == 0 {
            Some(TaskState::Queued)
        } else if c == 1 {
            Some(TaskState::UnknownURI)
        } else if c == 2 {
            Some(TaskState::UnknownParser)
        } else if c == 3 {
            Some(TaskState::DownloadFailed)
        } else if c == 4 {
            Some(TaskState::ParsingFailed)
        } else if c == 5 {
            Some(TaskState::Finished)
        } else {
            None
        }
    }

    /// Whether this state is terminal.
    pub fn is_terminal(self) -> (r: bool)
        ensures
            r == self.spec_is_terminal(),
    {
        !(self == TaskState::Queued)
    }
}

/// An off-chain reference produced upstream: a URI together with the retry
/// policy that applies to it. Both counters are in seconds respectively
/// attempts and are non-negative by construction.
pub struct OffchainData {
    /// The URI of the referenced content; routing reads its scheme.
    pub uri: String,
    /// How many times a failed download may be retried.
    pub max_retries: u32,
    /// Fixed delay, in seconds, before each retry.
    pub wait_before_retry: u32,
}

impl Clone for OffchainData {
    fn clone(&self) -> (r: Self)
        ensures
            r == *self,
    {
        OffchainData {
            uri: self.uri.clone(),
            max_retries: self.max_retries,
            wait_before_retry: self.wait_before_retry,
        }
    }
}

/// The identity of a task: the manifest and the whole request. The state
/// store keys its rows by this value; the retry counter is not part of it.
#[verifier::ext_equal]
pub struct TaskId {
    pub manifest: Seq<char>,
    pub uri: Seq<char>,
    pub max_retries: u32,
    pub wait_before_retry: u32,
}

/// One unit of off-chain resolution work.
pub struct ResolveTask {
    /// Selects the parser that will interpret the downloaded bytes.
    pub manifest: String,
    /// The upstream request to be resolved.
    pub request: OffchainData,
    /// How many retries have been spent; starts at 0, never exceeds
    /// `request.max_retries`.
    pub num_retries: u32,
}

impl Clone for ResolveTask {
    fn clone(&self) -> (r: Self)
        ensures
            r == *self,
    {
        ResolveTask {
            manifest: self.manifest.clone(),
            request: self.request.clone(),
            num_retries: self.num_retries,
        }
    }
}

impl ResolveTask {
    /// The identity under which the store tracks the task.
    pub open spec fn id(self) -> TaskId {
        TaskId {
            manifest: self.manifest@,
            uri: self.request.uri@,
            max_retries: self.request.max_retries,
            wait_before_retry: self.request.wait_before_retry,
        }
    }

    /// The retry counter never exceeds the task's retry budget.
    pub open spec fn wf(self) -> bool {
        self.num_retries <= self.request.max_retries
    }

    /// Whether one more retry fits in the budget.
    pub open spec fn spec_can_retry(self) -> bool {
        self.num_retries < self.request.max_retries
    }

    /// The task after one more retry has been spent.
    pub open spec fn spec_retry(self) -> ResolveTask {
        ResolveTask { num_retries: (self.num_retries + 1) as u32, ..self }
    }

    /// Spend one retry if the budget allows it: the counter moves up by one
    /// and `true` comes back; otherwise the task is unchanged and `false`
    /// comes back.
    pub fn increment_try_counter(&mut self) -> (r: bool)
        ensures
            r == old(self).spec_can_retry(),
            r ==> *final(self) == old(self).spec_retry(),
            !r ==> *final(self) == *old(self),
            old(self).wf() ==> final(self).wf(),
    {
        if self.num_retries < self.request.max_retries {
            self.num_retries = self.num_retries + 1;
            true
        } else {
            false
        }
    }

    /// How many more failed download attempts the task can absorb before it
    /// ends in `DownloadFailed`: each failed attempt either spends a retry or,
    /// once the budget is gone, is the last one.
    pub open spec fn attempts_until_exhausted(self) -> nat
        decreases self.request.max_retries - self.num_retries,
    {
        if !self.spec_can_retry() {
            1
        } else {
            1 + self.spec_retry().attempts_until_exhausted()
        }
    }
}

/// Retry budget: a task whose downloads all fail makes exactly
/// `max_retries - num_retries + 1` download attempts before it reaches
/// `DownloadFailed`; a fresh task (counter 0) therefore makes at most
/// `max_retries + 1` attempts.
pub proof fn lemma_retry_budget(t: ResolveTask)
    requires
        t.wf(),
    ensures
        t.attempts_until_exhausted() == t.request.max_retries - t.num_retries + 1,
    decreases t.request.max_retries - t.num_retries,
{
    if t.spec_can_retry() {
        lemma_retry_budget(t.spec_retry());
    }
}

} // verus!
