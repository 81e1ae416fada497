//! The task state store: a persistent table of outstanding and completed
//! resolution tasks, keyed by task identity. The trait states the contract
//! every store must meet; [`MemResolverState`] is the library's own table,
//! held in memory and verified against that contract.

use vstd::prelude::*;
use crate::queue::{DelayQueue, QueueEntry};
use crate::task::{ResolveTask, TaskId, TaskState};

verus! {

/// One row of the state table: the task as last persisted, and its state.
pub struct StoreRow {
    pub task: ResolveTask,
    pub state: TaskState,
}

/// A store operation failed. Store failures are fatal to the worker loop's
/// current iteration and propagate out of it.
#[derive(Debug)]
pub struct StoreError;

/// The table after `update_task_state(task, state)`: every row whose identity
/// matches gets the new state; nothing else moves.
pub open spec fn with_state(rows: Seq<StoreRow>, id: TaskId, state: TaskState) -> Seq<StoreRow> {
    rows.map_values(
        |r: StoreRow|
            if r.task.id() == id {
                StoreRow { state, ..r }
            } else {
                r
            },
    )
}

/// The table after `update_retry_counter(task)`: every row whose identity
/// matches gets the new counter; nothing else moves.
pub open spec fn with_retries(rows: Seq<StoreRow>, id: TaskId, num_retries: u32) -> Seq<StoreRow> {
    rows.map_values(
        |r: StoreRow|
            if r.task.id() == id {
                StoreRow { task: ResolveTask { num_retries, ..r.task }, ..r }
            } else {
                r
            },
    )
}

/// The queue that `load_tasks` owes its caller: one entry, due now, for each
/// row whose state is `Queued`, in table order; terminal rows stay behind.
pub open spec fn queued_entries(rows: Seq<StoreRow>) -> Seq<QueueEntry>
    decreases rows.len(),
{
    if rows.len() == 0 {
        Seq::empty()
    } else {
        queued_entries(rows.drop_last()) + if rows.last().state == TaskState::Queued {
            seq![QueueEntry { task: rows.last().task, delay: 0 }]
        } else {
            Seq::empty()
        }
    }
}

/// `with_state` touches exactly the rows of the given identity, and only
/// their state: length, tasks and all other rows stay.
pub proof fn lemma_with_state_frame(rows: Seq<StoreRow>, id: TaskId, state: TaskState)
    ensures
        with_state(rows, id, state).len() == rows.len(),
        forall|j: int|
            0 <= j < rows.len() ==> #[trigger] with_state(rows, id, state)[j] == (
            if rows[j].task.id() == id {
                StoreRow { state, ..rows[j] }
            } else {
                rows[j]
            }),
{
}

/// `with_retries` touches exactly the rows of the given identity, and only
/// their counter: length, identities, states and all other rows stay.
pub proof fn lemma_with_retries_frame(rows: Seq<StoreRow>, id: TaskId, num_retries: u32)
    ensures
        with_retries(rows, id, num_retries).len() == rows.len(),
        forall|j: int|
            0 <= j < rows.len() ==> #[trigger] with_retries(rows, id, num_retries)[j] == (
            if rows[j].task.id() == id {
                StoreRow { task: ResolveTask { num_retries, ..rows[j].task }, ..rows[j] }
            } else {
                rows[j]
            }),
        forall|j: int|
            0 <= j < rows.len() ==> (#[trigger] with_retries(rows, id, num_retries)[j]).task.id()
                == rows[j].task.id(),
{
    assert forall|j: int|
        0 <= j < rows.len() implies (#[trigger] with_retries(rows, id, num_retries)[j]).task.id()
        == rows[j].task.id() by {
        if rows[j].task.id() == id {
            assert(with_retries(rows, id, num_retries)[j].task.id() =~= rows[j].task.id());
        }
    }
}

/// Idempotence: re-applying the same state transition leaves the table as one
/// application does.
pub proof fn lemma_update_state_idempotent(rows: Seq<StoreRow>, id: TaskId, state: TaskState)
    ensures
        with_state(with_state(rows, id, state), id, state) == with_state(rows, id, state),
{
    assert(with_state(with_state(rows, id, state), id, state) =~= with_state(rows, id, state));
}

/// Idempotence: re-persisting the same retry counter leaves the table as one
/// application does.
pub proof fn lemma_update_retries_idempotent(rows: Seq<StoreRow>, id: TaskId, num_retries: u32)
    ensures
        with_retries(with_retries(rows, id, num_retries), id, num_retries) == with_retries(
            rows,
            id,
            num_retries,
        ),
{
    assert(with_retries(with_retries(rows, id, num_retries), id, num_retries) =~= with_retries(
        rows,
        id,
        num_retries,
    ));
}

/// What a task state store owes the resolver. Implementations persist the
/// table; `rows` is the table they stand for. Any operation may fail, and a
/// failed operation leaves the table as it was.
pub trait ResolverState: Sized {
    /// The persisted table this store stands for.
    spec fn rows(&self) -> Seq<StoreRow>;

    /// Called once at startup: a fresh delay queue holding exactly the rows
    /// whose persisted state is `Queued`, each due now.
    fn load_tasks(&mut self) -> (r: Result<DelayQueue, StoreError>)
        ensures
            final(self).rows() == old(self).rows(),
            r is Ok ==> r->Ok_0@ == queued_entries(old(self).rows()),
    ;

    /// Insert a new row for `task`, with state `Queued`.
    fn add_task(&mut self, task: &ResolveTask) -> (r: Result<(), StoreError>)
        ensures
            r is Ok ==> final(self).rows() == old(self).rows().push(
                StoreRow { task: *task, state: TaskState::Queued },
            ),
            r is Err ==> final(self).rows() == old(self).rows(),
    ;

    /// Persist a new state for every row of `task`'s identity.
    fn update_task_state(&mut self, task: &ResolveTask, state: TaskState) -> (r: Result<
        (),
        StoreError,
    >)
        ensures
            r is Ok ==> final(self).rows() == with_state(old(self).rows(), task.id(), state),
            r is Err ==> final(self).rows() == old(self).rows(),
    ;

    /// Persist `task.num_retries` (already incremented in memory by the
    /// caller) for every row of `task`'s identity.
    fn update_retry_counter(&mut self, task: &ResolveTask) -> (r: Result<(), StoreError>)
        ensures
            r is Ok ==> final(self).rows() == with_retries(
                old(self).rows(),
                task.id(),
                task.num_retries,
            ),
            r is Err ==> final(self).rows() == old(self).rows(),
    ;
}

/// The writes a backed store drives through to its persistence layer. The
/// methods carry no contract: what the layer does with them is outside the
/// library, and [`BackedResolverState`] keeps the verified bookkeeping in a
/// mirror of its own beside it.
pub trait StoreBackend {
    /// Read the whole persisted table, one entry per row.
    fn load(&mut self) -> Result<Vec<StoreRow>, StoreError>;

    /// Persist a new row for `task`, with state `Queued`.
    fn persist_add(&mut self, task: &ResolveTask) -> Result<(), StoreError>;

    /// Persist `state` for every row of `task`'s identity.
    fn persist_state(&mut self, task: &ResolveTask, state: TaskState) -> Result<(), StoreError>;

    /// Persist `task.num_retries` for every row of `task`'s identity.
    fn persist_retries(&mut self, task: &ResolveTask) -> Result<(), StoreError>;
}

/// The library's own state store: the full table, held in memory. Its
/// operations never fail.
pub struct MemResolverState {
    rows: Vec<StoreRow>,
}

impl MemResolverState {
    /// An empty table.
    pub fn new() -> (s: MemResolverState)
        ensures
            s.rows() =~= Seq::<StoreRow>::empty(),
    {
        MemResolverState { rows: Vec::new() }
    }

    /// A table holding exactly the given rows.
    pub fn from_rows(rows: Vec<StoreRow>) -> (s: MemResolverState)
        ensures
            s.rows() == rows@,
    {
        MemResolverState { rows }
    }

    /// The number of rows in the table.
    pub fn len(&self) -> (n: usize)
        ensures
            n == self.rows().len(),
    {
        self.rows.len()
    }

    /// The row at position `i` of the table.
    pub fn row(&self, i: usize) -> (r: &StoreRow)
        requires
            i < self.rows().len(),
        ensures
            *r == self.rows()[i as int],
    {
        &self.rows[i]
    }

    /// The persisted state of the first row of `task`'s identity, if any.
    pub fn state_of(&self, task: &ResolveTask) -> (r: Option<TaskState>)
        ensures
            match r {
                Some(state) => exists|i: int|
                    {
                        &&& 0 <= i < self.rows().len()
                        &&& (#[trigger] self.rows()[i]).task.id() == task.id()
                        &&& self.rows()[i].state == state
                        &&& forall|j: int| 0 <= j < i ==> (#[trigger] self.rows()[j]).task.id()
                            != task.id()
                    },
                None => forall|i: int|
                    0 <= i < self.rows().len() ==> (#[trigger] self.rows()[i]).task.id()
                        != task.id(),
            },
    {
        let n = self.rows.len();
        let mut i: usize = 0;
        while i < n
            invariant
                n == self.rows().len(),
                0 <= i <= n,
                forall|j: int| 0 <= j < i ==> (#[trigger] self.rows()[j]).task.id() != task.id(),
            decreases n - i,
        {
            if same_identity(&self.rows[i].task, task) {
                return Some(self.rows[i].state);
            }
            i = i + 1;
        }
        None
    }

    /// The persisted retry counter of the first row of `task`'s identity.
    pub fn retries_of(&self, task: &ResolveTask) -> (r: Option<u32>)
        ensures
            match r {
                Some(n) => exists|i: int|
                    {
                        &&& 0 <= i < self.rows().len()
                        &&& (#[trigger] self.rows()[i]).task.id() == task.id()
                        &&& self.rows()[i].task.num_retries == n
                        &&& forall|j: int| 0 <= j < i ==> (#[trigger] self.rows()[j]).task.id()
                            != task.id()
                    },
                None => forall|i: int|
                    0 <= i < self.rows().len() ==> (#[trigger] self.rows()[i]).task.id()
                        != task.id(),
            },
    {
        let n = self.rows.len();
        let mut i: usize = 0;
        while i < n
            invariant
                n == self.rows().len(),
                0 <= i <= n,
                forall|j: int| 0 <= j < i ==> (#[trigger] self.rows()[j]).task.id() != task.id(),
            decreases n - i,
        {
            if same_identity(&self.rows[i].task, task) {
                return Some(self.rows[i].task.num_retries);
            }
            i = i + 1;
        }
        None
    }
}

/// Whether two tasks share their identity: same manifest and same request.
pub fn same_identity(a: &ResolveTask, b: &ResolveTask) -> (r: bool)
    ensures
        r == (a.id() == b.id()),
{
    let r = a.manifest == b.manifest && a.request.uri == b.request.uri
        && a.request.max_retries == b.request.max_retries && a.request.wait_before_retry
        == b.request.wait_before_retry;
    proof {
        if r {
            assert(a.id() =~= b.id());
        }
    }
    r
}

impl ResolverState for MemResolverState {
    closed spec fn rows(&self) -> Seq<StoreRow> {
        self.rows@
    }

    fn load_tasks(&mut self) -> (r: Result<DelayQueue, StoreError>) {
        let mut q = DelayQueue::new();
        let n = self.rows.len();
        let mut i: usize = 0;
        while i < n
            invariant
                n == self.rows().len(),
                0 <= i <= n,
                q@ == queued_entries(self.rows().take(i as int)),
            decreases n - i,
        {
            proof {
                assert(self.rows().take(i + 1).drop_last() =~= self.rows().take(i as int));
                assert(self.rows().take(i + 1).last() == self.rows()[i as int]);
            }
            if self.rows[i].state == TaskState::Queued {
                let task = self.rows[i].task.clone();
                q.insert(task, 0);
                proof {
                    assert(q@ =~= queued_entries(self.rows().take(i + 1)));
                }
            } else {
                proof {
                    assert(q@ =~= queued_entries(self.rows().take(i + 1)));
                }
            }
            i = i + 1;
        }
        proof {
            assert(self.rows().take(n as int) =~= self.rows());
        }
        Ok(q)
    }

    fn add_task(&mut self, task: &ResolveTask) -> (r: Result<(), StoreError>) {
        self.rows.push(StoreRow { task: task.clone(), state: TaskState::Queued });
        Ok(())
    }

    fn update_task_state(&mut self, task: &ResolveTask, state: TaskState) -> (r: Result<
        (),
        StoreError,
    >) {
        let n = self.rows.len();
        let mut i: usize = 0;
        while i < n
            invariant
                n == self.rows().len(),
                n == old(self).rows().len(),
                0 <= i <= n,
                self.rows() =~= with_state(old(self).rows(), task.id(), state).take(i as int)
                    + old(self).rows().skip(i as int),
            decreases n - i,
        {
            let ghost target = with_state(old(self).rows(), task.id(), state);
            let ghost row_before = old(self).rows()[i as int];
            proof {
                assert(target.len() == old(self).rows().len());
                assert(target.take(i as int).len() == i as int);
                assert(old(self).rows().skip(i as int)[0] == row_before);
                assert(self.rows()[i as int] == (target.take(i as int) + old(self).rows().skip(
                    i as int,
                ))[i as int]);
                assert(self.rows()[i as int] == row_before);
                assert(target[i as int] == if row_before.task.id() == task.id() {
                    StoreRow { state, ..row_before }
                } else {
                    row_before
                });
            }
            if same_identity(&self.rows[i].task, task) {
                let updated = StoreRow { task: self.rows[i].task.clone(), state };
                self.rows[i] = updated;
            }
            proof {
                assert(self.rows()[i as int] == target[i as int]);
                assert(self.rows() =~= target.take(i + 1) + old(self).rows().skip(i + 1));
            }
            i = i + 1;
        }
        proof {
            assert(self.rows() =~= with_state(old(self).rows(), task.id(), state));
        }
        Ok(())
    }

    fn update_retry_counter(&mut self, task: &ResolveTask) -> (r: Result<(), StoreError>) {
        let n = self.rows.len();
        let mut i: usize = 0;
        while i < n
            invariant
                n == self.rows().len(),
                n == old(self).rows().len(),
                0 <= i <= n,
                self.rows() =~= with_retries(old(self).rows(), task.id(), task.num_retries).take(
                    i as int,
                ) + old(self).rows().skip(i as int),
            decreases n - i,
        {
            let ghost target = with_retries(old(self).rows(), task.id(), task.num_retries);
            let ghost row_before = old(self).rows()[i as int];
            proof {
                assert(self.rows()[i as int] == (target.take(i as int) + old(self).rows().skip(
                    i as int,
                ))[i as int]);
                assert(self.rows()[i as int] == row_before);
                assert(target[i as int] == if row_before.task.id() == task.id() {
                    StoreRow {
                        task: ResolveTask { num_retries: task.num_retries, ..row_before.task },
                        ..row_before
                    }
                } else {
                    row_before
                });
            }
            if same_identity(&self.rows[i].task, task) {
                let updated = StoreRow {
                    task: ResolveTask {
                        manifest: self.rows[i].task.manifest.clone(),
                        request: self.rows[i].task.request.clone(),
                        num_retries: task.num_retries,
                    },
                    state: self.rows[i].state,
                };
                self.rows[i] = updated;
            }
            proof {
                assert(self.rows()[i as int] == target[i as int]);
                assert(self.rows() =~= target.take(i + 1) + old(self).rows().skip(i + 1));
            }
            i = i + 1;
        }
        proof {
            assert(self.rows() =~= with_retries(old(self).rows(), task.id(), task.num_retries));
        }
        Ok(())
    }
}

/// A state store that writes through to a persistence layer and keeps the
/// verified table beside it: every operation first drives the write through
/// the backend and, only once that succeeded, applies it to the in-memory
/// mirror, which is what the contracts speak about. A backend failure leaves
/// the mirror untouched and propagates.
pub struct BackedResolverState<B: StoreBackend> {
    backend: B,
    mirror: MemResolverState,
}

impl<B: StoreBackend> BackedResolverState<B> {
    /// Mirror `rows` — the table as the caller just read it out of the
    /// persistence layer, typically through [`StoreBackend::load`] — and
    /// drive every further write through `backend`.
    pub fn from_loaded(backend: B, rows: Vec<StoreRow>) -> (s: Self)
        ensures
            s.rows() == rows@,
    {
        BackedResolverState { backend, mirror: MemResolverState::from_rows(rows) }
    }
}

impl<B: StoreBackend> ResolverState for BackedResolverState<B> {
    closed spec fn rows(&self) -> Seq<StoreRow> {
        self.mirror.rows()
    }

    fn load_tasks(&mut self) -> (r: Result<DelayQueue, StoreError>) {
        self.mirror.load_tasks()
    }

    fn add_task(&mut self, task: &ResolveTask) -> (r: Result<(), StoreError>) {
        match self.backend.persist_add(task) {
            Ok(_) => {},
            Err(e) => {
                return Err(e);
            },
        }
        self.mirror.add_task(task)
    }

    fn update_task_state(&mut self, task: &ResolveTask, state: TaskState) -> (r: Result<
        (),
        StoreError,
    >) {
        match self.backend.persist_state(task, state) {
            Ok(_) => {},
            Err(e) => {
                return Err(e);
            },
        }
        self.mirror.update_task_state(task, state)
    }

    fn update_retry_counter(&mut self, task: &ResolveTask) -> (r: Result<(), StoreError>) {
        match self.backend.persist_retries(task) {
            Ok(_) => {},
            Err(e) => {
                return Err(e);
            },
        }
        self.mirror.update_retry_counter(task)
    }
}

} // verus!
