//! The orchestrator: registers downloaders and parsers, accepts new tasks,
//! drains the delay queue, routes each task to the downloader for its URI
//! scheme and the parser for its manifest, applies the retry policy, and
//! writes every transition through to the state store before proceeding.

use vstd::prelude::*;
use vstd::string::StringExecFns;
use crate::queue::{is_next_due, DelayQueue, QueueEntry};
use crate::store::{
    lemma_with_retries_frame, lemma_with_state_frame, queued_entries, with_retries, with_state,
    ResolverState, StoreError, StoreRow,
};
use crate::task::{OffchainData, ResolveTask, TaskId, TaskState};
use crate::uri::{scheme_split_at, uri_scheme};

verus! {

/// A download failed; the cause is opaque to the core.
#[derive(Debug)]
pub struct DownloadError;

/// A parser rejected its input; the cause is opaque to the core.
#[derive(Debug)]
pub struct ParseError;

/// A link resolver: the capability of producing the raw bytes behind a URI.
/// One implementation is registered per URI scheme; an implementation only
/// ever receives URIs of the scheme it was registered under. Implementations
/// live outside the core, and all their failures are collapsed to
/// [`DownloadError`].
pub trait LinkResolver {
    fn download(&self, uri: &str) -> Result<Vec<u8>, DownloadError>;
}

/// A content parser: interprets the downloaded bytes in the context of the
/// completed task, emitting whatever it derives through its own channel. One
/// parser is registered per manifest; failures are collapsed to
/// [`ParseError`].
pub trait ContentParser {
    fn parse(&mut self, task: &ResolveTask, content: Vec<u8>) -> Result<(), ParseError>;
}

/// What one dequeued task's processing came to. The state the worker
/// persists for it is [`outcome_state`] of this.
pub enum TaskOutcome {
    /// The URI has no well-formed scheme, or no downloader is registered
    /// for it.
    NoDownloader,
    /// A downloader is registered, but no parser for the manifest.
    NoParser,
    /// Downloaded `bytes`, and the parser accepted (`true`) or rejected
    /// them.
    Parsed { bytes: Seq<u8>, ok: bool },
    /// The download failed with budget left: one retry was spent and the
    /// task re-enqueued after `delay` seconds.
    Retried { delay: u64 },
    /// The download failed and the retry budget was already spent.
    Exhausted,
}

/// The state the task state machine prescribes for an outcome: this is what
/// the worker persists when a task's processing ends that way.
pub open spec fn outcome_state(o: TaskOutcome) -> TaskState {
    match o {
        TaskOutcome::NoDownloader => TaskState::UnknownURI,
        TaskOutcome::NoParser => TaskState::UnknownParser,
        TaskOutcome::Parsed { ok, .. } => if ok {
            TaskState::Finished
        } else {
            TaskState::ParsingFailed
        },
        TaskOutcome::Retried { .. } => TaskState::Queued,
        TaskOutcome::Exhausted => TaskState::DownloadFailed,
    }
}

/// One call the worker made. The resolver keeps a ghost log of these so
/// that its contracts can say which calls a run performs and what each
/// came to.
pub enum ResolverEvent {
    /// The downloader registered for the task's scheme was called and
    /// returned the bytes in `result`, or an error (`None`).
    Download { task: ResolveTask, result: Option<Seq<u8>> },
    /// The parser registered for the task's manifest was called on `bytes`
    /// and accepted (`true`) or rejected them.
    Parse { task: ResolveTask, bytes: Seq<u8>, ok: bool },
    /// One `update_task_state` call: the task's processing came to
    /// `outcome` and `outcome_state(outcome)` was persisted for its
    /// identity.
    Processed { task: ResolveTask, outcome: TaskOutcome },
}

/// The task a logged call was made for.
pub open spec fn event_task(e: ResolverEvent) -> ResolveTask {
    match e {
        ResolverEvent::Download { task, .. } => task,
        ResolverEvent::Parse { task, .. } => task,
        ResolverEvent::Processed { task, .. } => task,
    }
}

/// Whether a logged call persisted a terminal state.
pub open spec fn is_terminal_update(e: ResolverEvent) -> bool {
    match e {
        ResolverEvent::Processed { outcome, .. } => outcome_state(outcome).spec_is_terminal(),
        _ => false,
    }
}

/// Whether a logged call is a downloader call.
pub open spec fn is_download(e: ResolverEvent) -> bool {
    e is Download
}

/// Whether the event is a downloader call for identity `id` that failed.
pub open spec fn failed_download_for(e: ResolverEvent, id: TaskId) -> bool {
    match e {
        ResolverEvent::Download { task, result } => result is None && task.id() == id,
        _ => false,
    }
}

/// A `Processed` event is witnessed by the collaborator results logged
/// right before it: a parse verdict follows the parse call on exactly the
/// downloaded bytes; a retry or an exhaustion follows a failed download of
/// the same task — and a retry's counter is that download's counter plus
/// one. The lookup-miss outcomes need no witness: their evidence stands in
/// [`step_valid`].
pub open spec fn outcome_witnessed(log: Seq<ResolverEvent>, i: int) -> bool {
    match log[i] {
        ResolverEvent::Processed { task, outcome } => match outcome {
            TaskOutcome::NoDownloader => true,
            TaskOutcome::NoParser => true,
            TaskOutcome::Parsed { bytes, ok } => {
                &&& i >= 2
                &&& log[i - 1] == (ResolverEvent::Parse { task, bytes, ok })
                &&& log[i - 2] == (ResolverEvent::Download { task, result: Some(bytes) })
            },
            TaskOutcome::Retried { .. } => {
                &&& i >= 1
                &&& task.num_retries >= 1
                &&& log[i - 1] == (ResolverEvent::Download {
                    task: ResolveTask { num_retries: (task.num_retries - 1) as u32, ..task },
                    result: None,
                })
            },
            TaskOutcome::Exhausted => {
                &&& i >= 1
                &&& log[i - 1] == (ResolverEvent::Download { task, result: None })
            },
        },
        _ => true,
    }
}

/// The state a `Processed` event persisted. On the other events, which
/// persist nothing, this is `Queued` and means nothing.
pub open spec fn processed_state(e: ResolverEvent) -> TaskState {
    match e {
        ResolverEvent::Processed { outcome, .. } => outcome_state(outcome),
        _ => TaskState::Queued,
    }
}

/// Whether the URI of `t` has a well-formed scheme with a downloader
/// registered for it.
pub open spec fn scheme_routed(t: ResolveTask, downloader_keys: Seq<Seq<char>>) -> bool {
    exists|i: int|
        #[trigger] scheme_split_at(t.request.uri@, i) && downloader_keys.contains(
            t.request.uri@.take(i),
        )
}

/// Whether `t` can be routed at all: a downloader for its scheme and a
/// parser for its manifest.
pub open spec fn routable(
    t: ResolveTask,
    downloader_keys: Seq<Seq<char>>,
    parser_keys: Seq<Seq<char>>,
) -> bool {
    scheme_routed(t, downloader_keys) && parser_keys.contains(t.manifest@)
}

/// What every logged call certifies. A download or parse call happens only
/// for a routable task within its retry budget; a `Processed` event carries
/// the evidence that decided its outcome: which lookup missed, that a retry
/// fit the budget and used the task's own delay, or that the budget was
/// exactly spent.
pub open spec fn step_valid(
    e: ResolverEvent,
    downloader_keys: Seq<Seq<char>>,
    parser_keys: Seq<Seq<char>>,
) -> bool {
    let t = event_task(e);
    &&& t.wf()
    &&& match e {
        ResolverEvent::Download { .. } => routable(t, downloader_keys, parser_keys),
        ResolverEvent::Parse { .. } => routable(t, downloader_keys, parser_keys),
        ResolverEvent::Processed { outcome, .. } => match outcome {
            TaskOutcome::NoDownloader => !scheme_routed(t, downloader_keys),
            TaskOutcome::NoParser => scheme_routed(t, downloader_keys) && !parser_keys.contains(
                t.manifest@,
            ),
            TaskOutcome::Parsed { .. } => routable(t, downloader_keys, parser_keys),
            TaskOutcome::Retried { delay } => routable(t, downloader_keys, parser_keys) && delay
                == t.request.wait_before_retry && 1 <= t.num_retries,
            TaskOutcome::Exhausted => routable(t, downloader_keys, parser_keys) && t.num_retries
                == t.request.max_retries,
        },
    }
}

/// Whether the log from index `from` on records a terminal outcome for the
/// identity `id`.
pub open spec fn resolved_in(log: Seq<ResolverEvent>, from: int, id: TaskId) -> bool {
    exists|i: int|
        from <= i < log.len() && is_terminal_update(#[trigger] log[i]) && event_task(log[i]).id()
            == id
}

/// Whether no two entries of `q` carry tasks of one identity.
pub open spec fn queue_ids_distinct(q: Seq<QueueEntry>) -> bool {
    forall|a: int, b: int|
        0 <= a < b < q.len() ==> (#[trigger] q[a].task.id()) != (#[trigger] q[b].task.id())
}

/// Whether some entry of `q` carries a task of identity `id`.
pub open spec fn task_was_queued(q: Seq<QueueEntry>, id: TaskId) -> bool {
    exists|k: int| 0 <= k < q.len() && (#[trigger] q[k]).task.id() == id
}

/// Whether the fields of `t` are the manifest, the request and a zeroed
/// retry counter — the task [`Resolver::add_task`] builds.
pub open spec fn is_new_task(t: ResolveTask, manifest: Seq<char>, request: OffchainData) -> bool {
    &&& t.manifest@ == manifest
    &&& t.request.uri@ == request.uri@
    &&& t.request.max_retries == request.max_retries
    &&& t.request.wait_before_retry == request.wait_before_retry
    &&& t.num_retries == 0
}

/// The off-chain content resolver: the single worker that owns the delay
/// queue, the state store and the two registries.
pub struct Resolver<D: LinkResolver, P: ContentParser, S: ResolverState> {
    state: S,
    queue: DelayQueue,
    downloaders: Vec<(String, D)>,
    parsers: Vec<(String, P)>,
    events: Ghost<Seq<ResolverEvent>>,
}

/// Find the first pair of `v` whose key equals `key`.
fn find_key<T>(v: &Vec<(String, T)>, key: &String) -> (r: Option<usize>)
    ensures
        match r {
            Some(i) => i < v@.len() && v@[i as int].0@ == key@ && forall|j: int|
                0 <= j < i ==> (#[trigger] v@[j].0)@ != key@,
            None => forall|j: int| 0 <= j < v@.len() ==> (#[trigger] v@[j].0)@ != key@,
        },
{
    let n = v.len();
    let mut i: usize = 0;
    while i < n
        invariant
            n == v@.len(),
            0 <= i <= n,
            forall|j: int| 0 <= j < i ==> (#[trigger] v@[j].0)@ != key@,
        decreases n - i,
    {
        if v[i].0.eq(key) {
            return Some(i);
        }
        i = i + 1;
    }
    None
}

impl<D: LinkResolver, P: ContentParser, S: ResolverState> Resolver<D, P, S> {
    /// The state store this resolver owns.
    pub closed spec fn spec_state(self) -> S {
        self.state
    }

    /// The persisted table, as the store stands for it.
    pub open spec fn rows(self) -> Seq<StoreRow> {
        self.spec_state().rows()
    }

    /// The entries of the delay queue, oldest insertion first.
    pub closed spec fn queue_view(self) -> Seq<QueueEntry> {
        self.queue@
    }

    /// The registered URI schemes, in registration order.
    pub closed spec fn downloader_keys(self) -> Seq<Seq<char>> {
        self.downloaders@.map_values(|p: (String, D)| p.0@)
    }

    /// The registered manifests, in registration order.
    pub closed spec fn parser_keys(self) -> Seq<Seq<char>> {
        self.parsers@.map_values(|p: (String, P)| p.0@)
    }

    /// The downloader registry: scheme and implementation pairs, in
    /// registration order.
    pub closed spec fn downloader_registry(self) -> Seq<(Seq<char>, D)> {
        self.downloaders@.map_values(|p: (String, D)| (p.0@, p.1))
    }

    /// The parser registry: manifest and implementation pairs, in
    /// registration order.
    pub closed spec fn parser_registry(self) -> Seq<(Seq<char>, P)> {
        self.parsers@.map_values(|p: (String, P)| (p.0@, p.1))
    }

    /// Whether a downloader is registered for `scheme`.
    pub open spec fn has_downloader_for(self, scheme: Seq<char>) -> bool {
        self.downloader_keys().contains(scheme)
    }

    /// Whether a parser is registered for `manifest`.
    pub open spec fn has_parser_for(self, manifest: Seq<char>) -> bool {
        self.parser_keys().contains(manifest)
    }

    /// The ghost log of collaborator calls made so far.
    pub closed spec fn events(self) -> Seq<ResolverEvent> {
        self.events@
    }

    /// Well-formedness: every queued task is within its retry budget, and
    /// each registry holds at most one implementation per key.
    pub open spec fn wf(self) -> bool {
        &&& forall|k: int|
            0 <= k < self.queue_view().len() ==> (#[trigger] self.queue_view()[k]).task.wf()
        &&& self.downloader_keys().no_duplicates()
        &&& self.parser_keys().no_duplicates()
    }

    /// Build a resolver over `state`: load every task whose persisted state
    /// is `Queued` into a fresh delay queue, each due now, and start with
    /// empty registries. This is restart recovery: the queue afterwards holds
    /// exactly the rows that were `Queued`, and nothing terminal.
    pub fn new(state: S) -> (r: Result<Self, StoreError>)
        ensures
            match r {
                Ok(res) => {
                    &&& res.rows() == state.rows()
                    &&& res.queue_view() == queued_entries(state.rows())
                    &&& res.downloader_registry() =~= Seq::<(Seq<char>, D)>::empty()
                    &&& res.parser_registry() =~= Seq::<(Seq<char>, P)>::empty()
                    &&& res.downloader_keys() =~= Seq::<Seq<char>>::empty()
                    &&& res.parser_keys() =~= Seq::<Seq<char>>::empty()
                    &&& res.events() =~= Seq::<ResolverEvent>::empty()
                    &&& (forall|j: int|
                        0 <= j < state.rows().len() ==> (#[trigger] state.rows()[j]).task.wf())
                        ==> res.wf()
                },
                Err(_) => true,
            },
    {
        let mut state = state;
        let queue = match state.load_tasks() {
            Ok(q) => q,
            Err(e) => {
                return Err(e);
            },
        };
        let res = Resolver {
            state,
            queue,
            downloaders: Vec::new(),
            parsers: Vec::new(),
            events: Ghost(Seq::empty()),
        };
        proof {
            lemma_queued_entries_tasks(res.rows());
        }
        Ok(res)
    }

    /// Register `downloader` for `scheme`; re-registration replaces the
    /// downloader registered before, so one downloader serves each scheme.
    pub fn with_link_resolver(self, scheme: String, downloader: D) -> (r: Self)
        ensures
            r.rows() == self.rows(),
            r.queue_view() == self.queue_view(),
            r.events() == self.events(),
            r.parser_registry() == self.parser_registry(),
            r.parser_keys() == self.parser_keys(),
            forall|s: Seq<char>|
                #[trigger] r.has_downloader_for(s) <==> (self.has_downloader_for(s) || s
                    == scheme@),
            (forall|j: int|
                0 <= j < self.downloader_registry().len() ==> (
                #[trigger] self.downloader_registry()[j]).0 != scheme@)
                ==> r.downloader_registry() == self.downloader_registry().push(
                (scheme@, downloader),
            ),
            (exists|i: int|
                0 <= i < self.downloader_registry().len() && (
                #[trigger] self.downloader_registry()[i]).0 == scheme@) ==> exists|i: int|
                {
                    &&& 0 <= i < self.downloader_registry().len()
                    &&& (#[trigger] self.downloader_registry()[i]).0 == scheme@
                    &&& forall|j: int|
                        0 <= j < i ==> self.downloader_registry()[j].0 != scheme@
                    &&& r.downloader_registry() == self.downloader_registry().update(
                        i,
                        (scheme@, downloader),
                    )
                },
            self.wf() ==> r.wf(),
    {
        let mut this = self;
        let ghost old_keys = self.downloader_keys();
        let found = find_key(&this.downloaders, &scheme);
        match found {
            Some(i) => {
                proof {
                    assert(old_keys[i as int] == scheme@);
                }
                this.downloaders[i] = (scheme, downloader);
                proof {
                    assert(this.downloader_registry() =~= self.downloader_registry().update(
                        i as int,
                        (scheme@, downloader),
                    ));
                    assert(self.downloader_registry()[i as int].0 == scheme@);
                    assert forall|j: int| 0 <= j < i implies self.downloader_registry()[j].0
                        != scheme@ by {
                        assert(self.downloaders@[j].0@ != scheme@);
                    }
                    assert(this.downloader_keys() =~= old_keys);
                    assert(this.downloader_keys()[i as int] == scheme@);
                    assert forall|s: Seq<char>|
                        #[trigger] this.has_downloader_for(s) <==> (self.has_downloader_for(s)
                            || s == scheme@) by {
                        if s == scheme@ {
                            assert(this.downloader_keys()[i as int] == s);
                        }
                    }
                }
            },
            None => {
                proof {
                    assert forall|j: int| 0 <= j < old_keys.len() implies old_keys[j]
                        != scheme@ by {
                        assert(self.downloaders@[j].0@ != scheme@);
                    }
                }
                this.downloaders.push((scheme, downloader));
                proof {
                    assert(this.downloader_registry() =~= self.downloader_registry().push(
                        (scheme@, downloader),
                    ));
                    assert forall|j: int|
                        0 <= j < self.downloader_registry().len() implies (
                    #[trigger] self.downloader_registry()[j]).0 != scheme@ by {
                        assert(self.downloaders@[j].0@ != scheme@);
                    }
                    let keys = this.downloader_keys();
                    assert(keys =~= old_keys.push(scheme@));
                    assert(keys[old_keys.len() as int] == scheme@);
                    if old_keys.no_duplicates() {
                        assert forall|a: int, b: int|
                            0 <= a < keys.len() && 0 <= b < keys.len() && a != b implies keys[a]
                            != keys[b] by {
                            if a < old_keys.len() && b < old_keys.len() {
                                assert(old_keys[a] != old_keys[b]);
                            }
                        }
                        assert(keys.no_duplicates());
                    }
                    assert forall|s: Seq<char>|
                        #[trigger] this.has_downloader_for(s) <==> (self.has_downloader_for(s)
                            || s == scheme@) by {
                        if this.has_downloader_for(s) {
                            let k = choose|k: int| 0 <= k < keys.len() && keys[k] == s;
                            if k < old_keys.len() {
                                assert(old_keys[k] == s);
                            }
                        }
                        if self.has_downloader_for(s) {
                            let k = choose|k: int|
                                0 <= k < old_keys.len() && old_keys[k] == s;
                            assert(keys[k] == s);
                        }
                        if s == scheme@ {
                            assert(keys[old_keys.len() as int] == s);
                        }
                    }
                }
            },
        }
        this
    }

    /// Register `parser` for `manifest`; re-registration replaces the
    /// parser registered before, so one parser serves each manifest.
    pub fn with_parser(self, manifest: String, parser: P) -> (r: Self)
        ensures
            r.rows() == self.rows(),
            r.queue_view() == self.queue_view(),
            r.events() == self.events(),
            r.downloader_registry() == self.downloader_registry(),
            r.downloader_keys() == self.downloader_keys(),
            forall|m: Seq<char>|
                #[trigger] r.has_parser_for(m) <==> (self.has_parser_for(m) || m == manifest@),
            (forall|j: int|
                0 <= j < self.parser_registry().len() ==> (#[trigger] self.parser_registry()[
                j]).0 != manifest@) ==> r.parser_registry() == self.parser_registry().push(
                (manifest@, parser),
            ),
            (exists|i: int|
                0 <= i < self.parser_registry().len() && (#[trigger] self.parser_registry()[
                i]).0 == manifest@) ==> exists|i: int|
                {
                    &&& 0 <= i < self.parser_registry().len()
                    &&& (#[trigger] self.parser_registry()[i]).0 == manifest@
                    &&& forall|j: int| 0 <= j < i ==> self.parser_registry()[j].0 != manifest@
                    &&& r.parser_registry() == self.parser_registry().update(
                        i,
                        (manifest@, parser),
                    )
                },
            self.wf() ==> r.wf(),
    {
        let mut this = self;
        let ghost old_keys = self.parser_keys();
        let found = find_key(&this.parsers, &manifest);
        match found {
            Some(i) => {
                proof {
                    assert(old_keys[i as int] == manifest@);
                }
                this.parsers[i] = (manifest, parser);
                proof {
                    assert(this.parser_registry() =~= self.parser_registry().update(
                        i as int,
                        (manifest@, parser),
                    ));
                    assert(self.parser_registry()[i as int].0 == manifest@);
                    assert forall|j: int| 0 <= j < i implies self.parser_registry()[j].0
                        != manifest@ by {
                        assert(self.parsers@[j].0@ != manifest@);
                    }
                    assert(this.parser_keys() =~= old_keys);
                    assert(this.parser_keys()[i as int] == manifest@);
                    assert forall|m: Seq<char>|
                        #[trigger] this.has_parser_for(m) <==> (self.has_parser_for(m) || m
                            == manifest@) by {
                        if m == manifest@ {
                            assert(this.parser_keys()[i as int] == m);
                        }
                    }
                }
            },
            None => {
                proof {
                    assert forall|j: int| 0 <= j < old_keys.len() implies old_keys[j]
                        != manifest@ by {
                        assert(self.parsers@[j].0@ != manifest@);
                    }
                }
                this.parsers.push((manifest, parser));
                proof {
                    assert(this.parser_registry() =~= self.parser_registry().push(
                        (manifest@, parser),
                    ));
                    assert forall|j: int|
                        0 <= j < self.parser_registry().len() implies (
                    #[trigger] self.parser_registry()[j]).0 != manifest@ by {
                        assert(self.parsers@[j].0@ != manifest@);
                    }
                    let keys = this.parser_keys();
                    assert(keys =~= old_keys.push(manifest@));
                    assert(keys[old_keys.len() as int] == manifest@);
                    if old_keys.no_duplicates() {
                        assert forall|a: int, b: int|
                            0 <= a < keys.len() && 0 <= b < keys.len() && a != b implies keys[a]
                            != keys[b] by {
                            if a < old_keys.len() && b < old_keys.len() {
                                assert(old_keys[a] != old_keys[b]);
                            }
                        }
                        assert(keys.no_duplicates());
                    }
                    assert forall|m: Seq<char>|
                        #[trigger] this.has_parser_for(m) <==> (self.has_parser_for(m) || m
                            == manifest@) by {
                        if this.has_parser_for(m) {
                            let k = choose|k: int| 0 <= k < keys.len() && keys[k] == m;
                            if k < old_keys.len() {
                                assert(old_keys[k] == m);
                            }
                        }
                        if self.has_parser_for(m) {
                            let k = choose|k: int|
                                0 <= k < old_keys.len() && old_keys[k] == m;
                            assert(keys[k] == m);
                        }
                        if m == manifest@ {
                            assert(keys[old_keys.len() as int] == m);
                        }
                    }
                }
            },
        }
        this
    }

    /// Accept a new task: build it with a zeroed retry counter, persist it
    /// first, and only on success schedule it due now. A store failure
    /// propagates and leaves the queue untouched.
    pub fn add_task(&mut self, manifest: &str, request: OffchainData) -> (r: Result<
        (),
        StoreError,
    >)
        ensures
            final(self).downloader_registry() == old(self).downloader_registry(),
            final(self).downloader_keys() == old(self).downloader_keys(),
            final(self).parser_registry() == old(self).parser_registry(),
            final(self).parser_keys() == old(self).parser_keys(),
            final(self).events() == old(self).events(),
            old(self).wf() ==> final(self).wf(),
            r is Ok ==> {
                &&& final(self).rows().len() == old(self).rows().len() + 1
                &&& final(self).rows().drop_last() == old(self).rows()
                &&& is_new_task(final(self).rows().last().task, manifest@, request)
                &&& final(self).rows().last().state == TaskState::Queued
                &&& final(self).queue_view() == old(self).queue_view().push(
                    QueueEntry { task: final(self).rows().last().task, delay: 0 },
                )
            },
            r is Err ==> final(self).rows() == old(self).rows() && final(self).queue_view() == old(
                self,
            ).queue_view(),
    {
        let task = ResolveTask { manifest: String::from_str(manifest), request, num_retries: 0 };
        match self.state.add_task(&task) {
            Ok(_) => {},
            Err(e) => {
                return Err(e);
            },
        }
        proof {
            assert(self.rows().drop_last() =~= old(self).rows());
        }
        self.queue.insert(task, 0);
        proof {
            if old(self).wf() {
                assert forall|k: int| 0 <= k < self.queue_view().len() implies (
                #[trigger] self.queue_view()[k]).task.wf() by {
                    if k < old(self).queue_view().len() {
                        assert(self.queue_view()[k] == old(self).queue_view()[k]);
                    }
                }
            }
        }
        Ok(())
    }

    /// The worker loop: drain the delay queue, routing each due task to the
    /// downloader for its URI scheme and the parser for its manifest,
    /// retrying failed downloads until the task's budget is spent, and
    /// persisting every transition before proceeding. A store failure
    /// propagates at once. `exit_on_completion` mirrors the worker's two
    /// modes; this single synchronous worker owns the queue, so once it is
    /// empty nothing can become due any more, and both modes stop there —
    /// the indefinite mode is its caller's loop around this one.
    ///
    /// The contract carries the run-long guarantees. Success: an empty
    /// starting queue returns `Ok` without a store call, and on `Ok` the
    /// queue is drained and every starting entry's identity was carried to
    /// a terminal outcome, logged as a `Processed` event whose persisted
    /// state is the one the task state machine prescribes for it
    /// ([`outcome_state`]). Framing: the table keeps its length and its
    /// identities; a row moves only if its identity passed through the
    /// starting queue, and a counter moves only to a value within the
    /// row's budget, after a logged failed download of that identity
    /// ([`counters_anchored`]). Every logged call is for an identity of the
    /// starting queue — which [`Resolver::new`] builds from the persisted
    /// `Queued` rows and [`Resolver::add_task`] extends only after
    /// persisting — so nothing is processed that was not first persisted.
    /// Validity: every event satisfies [`step_valid`] — downloads and
    /// parses happen only for routable tasks within their retry budget,
    /// and each outcome carries the evidence that decided it — and every
    /// `Processed` event is witnessed by the collaborator results logged
    /// right before it ([`outcome_witnessed`]): a verdict follows the parse
    /// of exactly the downloaded bytes, a retry or exhaustion follows a
    /// failed download, and a retry raises that download's counter by one.
    /// When the starting queue holds no two entries of one identity,
    /// additionally: nothing more is logged for an identity after its
    /// terminal write — it gets exactly one and is never touched again —
    /// and the store rows of that identity end in the state of that write.
    /// (Two enqueues of one identity share their store rows, so there
    /// those two bounds cannot hold.)
    #[verifier::rlimit(100)]
    pub fn run(&mut self, exit_on_completion: bool) -> (r: Result<(), StoreError>)
        requires
            old(self).wf(),
        ensures
            final(self).wf(),
            final(self).downloader_registry() == old(self).downloader_registry(),
            final(self).downloader_keys() == old(self).downloader_keys(),
            final(self).parser_keys() == old(self).parser_keys(),
            old(self).queue_view().len() == 0 ==> r is Ok,
            r is Ok ==> final(self).queue_view().len() == 0,
            r is Ok ==> forall|k: int|
                0 <= k < old(self).queue_view().len() ==> resolved_in(
                    final(self).events(),
                    old(self).events().len() as int,
                    (#[trigger] old(self).queue_view()[k]).task.id(),
                ),
            final(self).rows().len() == old(self).rows().len(),
            forall|j: int|
                0 <= j < final(self).rows().len()
                    ==> (#[trigger] final(self).rows()[j]).task.id()
                    == old(self).rows()[j].task.id(),
            forall|j: int|
                0 <= j < final(self).rows().len() && final(self).rows()[j] != old(self).rows()[j]
                    ==> task_was_queued(
                    old(self).queue_view(),
                    (#[trigger] final(self).rows()[j]).task.id(),
                ),
            final(self).events().len() >= old(self).events().len(),
            final(self).events().take(old(self).events().len() as int) == old(self).events(),
            forall|i: int|
                old(self).events().len() <= i < final(self).events().len() ==> step_valid(
                    #[trigger] final(self).events()[i],
                    old(self).downloader_keys(),
                    old(self).parser_keys(),
                ),
            forall|i: int|
                old(self).events().len() <= i < final(self).events().len() ==> outcome_witnessed(
                    final(self).events(),
                    i,
                ),
            counters_anchored(
                old(self).rows(),
                final(self).rows(),
                final(self).events(),
                old(self).events().len() as int,
            ),
            forall|i: int|
                old(self).events().len() <= i < final(self).events().len() ==> task_was_queued(
                    old(self).queue_view(),
                    event_task(#[trigger] final(self).events()[i]).id(),
                ),
            queue_ids_distinct(old(self).queue_view()) ==> forall|i: int, i2: int|
                old(self).events().len() <= i < i2 < final(self).events().len()
                    && is_terminal_update(#[trigger] final(self).events()[i]) ==> event_task(
                    #[trigger] final(self).events()[i2],
                ).id() != event_task(final(self).events()[i]).id(),
            queue_ids_distinct(old(self).queue_view()) ==> forall|i: int, j: int|
                old(self).events().len() <= i < final(self).events().len() && is_terminal_update(
                    #[trigger] final(self).events()[i],
                ) && 0 <= j < final(self).rows().len()
                    && (#[trigger] final(self).rows()[j]).task.id()
                    == event_task(final(self).events()[i]).id()
                    ==> final(self).rows()[j].state == processed_state(final(self).events()[i]),
            queue_ids_distinct(old(self).queue_view()) ==> forall|i: int, i2: int|
                old(self).events().len() <= i < i2 < final(self).events().len() && is_download(
                    #[trigger] final(self).events()[i],
                ) && is_download(#[trigger] final(self).events()[i2]) && event_task(
                    final(self).events()[i2],
                ).id() == event_task(final(self).events()[i]).id() ==> event_task(
                    final(self).events()[i],
                ).num_retries < event_task(final(self).events()[i2]).num_retries,
    {
        let ghost nodup = queue_ids_distinct(old(self).queue_view());
        loop
            invariant
                self.wf(),
                self.downloader_registry() == old(self).downloader_registry(),
                self.downloader_keys() == old(self).downloader_keys(),
                self.parser_keys() == old(self).parser_keys(),
                old(self).queue_view().len() == 0 ==> self.queue_view().len() == 0,
                self.rows().len() == old(self).rows().len(),
                forall|j: int|
                    0 <= j < self.rows().len() ==> (#[trigger] self.rows()[j]).task.id() == old(
                        self,
                    ).rows()[j].task.id(),
                forall|j: int|
                    0 <= j < self.rows().len() && self.rows()[j] != old(self).rows()[j]
                        ==> task_was_queued(
                        old(self).queue_view(),
                        (#[trigger] self.rows()[j]).task.id(),
                    ),
                forall|k: int|
                    0 <= k < self.queue_view().len() ==> task_was_queued(
                        old(self).queue_view(),
                        (#[trigger] self.queue_view()[k]).task.id(),
                    ),
                forall|k: int|
                    0 <= k < old(self).queue_view().len() ==> task_was_queued(
                        self.queue_view(),
                        (#[trigger] old(self).queue_view()[k]).task.id(),
                    ) || resolved_in(
                        self.events(),
                        old(self).events().len() as int,
                        old(self).queue_view()[k].task.id(),
                    ),
                self.events().len() >= old(self).events().len(),
                self.events().take(old(self).events().len() as int) == old(self).events(),
                forall|i: int|
                    old(self).events().len() <= i < self.events().len() ==> step_valid(
                        #[trigger] self.events()[i],
                        old(self).downloader_keys(),
                        old(self).parser_keys(),
                    ),
                forall|i: int|
                    old(self).events().len() <= i < self.events().len() ==> outcome_witnessed(
                        self.events(),
                        i,
                    ),
                counters_anchored(
                    old(self).rows(),
                    self.rows(),
                    self.events(),
                    old(self).events().len() as int,
                ),
                forall|i: int|
                    old(self).events().len() <= i < self.events().len() ==> task_was_queued(
                        old(self).queue_view(),
                        event_task(#[trigger] self.events()[i]).id(),
                    ),
                nodup == queue_ids_distinct(old(self).queue_view()),
                nodup ==> queue_ids_distinct(self.queue_view()),
                nodup ==> forall|k: int, i: int|
                    0 <= k < self.queue_view().len() && old(self).events().len() <= i
                        < self.events().len() && is_terminal_update(#[trigger] self.events()[i])
                        ==> (#[trigger] self.queue_view()[k]).task.id() != event_task(
                        self.events()[i],
                    ).id(),
                nodup ==> forall|i: int, i2: int|
                    old(self).events().len() <= i < i2 < self.events().len()
                        && is_terminal_update(#[trigger] self.events()[i]) ==> event_task(
                        #[trigger] self.events()[i2],
                    ).id() != event_task(self.events()[i]).id(),
                nodup ==> forall|i: int, j: int|
                    old(self).events().len() <= i < self.events().len() && is_terminal_update(
                        #[trigger] self.events()[i],
                    ) && 0 <= j < self.rows().len() && (#[trigger] self.rows()[j]).task.id()
                        == event_task(self.events()[i]).id() ==> self.rows()[j].state
                        == processed_state(self.events()[i]),
                nodup ==> forall|i: int, i2: int|
                    old(self).events().len() <= i < i2 < self.events().len() && is_download(
                        #[trigger] self.events()[i],
                    ) && is_download(#[trigger] self.events()[i2]) && event_task(
                        self.events()[i2],
                    ).id() == event_task(self.events()[i]).id() ==> event_task(
                        self.events()[i],
                    ).num_retries < event_task(self.events()[i2]).num_retries,
                nodup ==> forall|k: int, i: int|
                    0 <= k < self.queue_view().len() && old(self).events().len() <= i
                        < self.events().len() && is_download(#[trigger] self.events()[i])
                        && event_task(self.events()[i]).id() == (#[trigger] self.queue_view()[
                    k]).task.id() ==> event_task(self.events()[i]).num_retries
                        < self.queue_view()[k].task.num_retries,
            ensures
                self.queue_view().len() == 0,
            decreases queue_budget(self.queue_view()),
        {
            if exit_on_completion && self.queue.is_empty() {
                break;
            }
            if self.queue.is_empty() {
                // A single worker owns this queue: once it is empty nothing
                // can become due any more, so waiting on the next entry
                // would never resolve.
                break;
            }
            let ghost q_head = self.queue_view();
            let popped = self.queue.next();
            let entry = match popped {
                Some(e) => e,
                None => {
                    // The queue was checked non-empty just above.
                    proof {
                        assert(false);
                    }
                    break;
                },
            };
            let ghost kpop = choose|k: int|
                is_next_due(q_head, k) && entry == q_head[k] && self.queue_view() == q_head.remove(
                    k,
                );
            let mut task = entry.task;
            let ghost orig_task = task;
            proof {
                lemma_queue_budget_remove(q_head, kpop);
                assert(q_head[kpop].task.wf());
                assert(entry_budget(q_head[kpop]) >= 1);
                assert(task_was_queued(old(self).queue_view(), q_head[kpop].task.id()));
                assert forall|k2: int| 0 <= k2 < self.queue_view().len() implies task_was_queued(
                    old(self).queue_view(),
                    (#[trigger] self.queue_view()[k2]).task.id(),
                ) && self.queue_view()[k2].task.wf() by {
                    if k2 < kpop {
                        assert(self.queue_view()[k2] == q_head[k2]);
                    } else {
                        assert(self.queue_view()[k2] == q_head[k2 + 1]);
                    }
                }
                // Each starting identity is still queued, already resolved,
                // or is the one just dequeued.
                assert forall|k: int| 0 <= k < old(self).queue_view().len() implies task_was_queued(
                    self.queue_view(),
                    (#[trigger] old(self).queue_view()[k]).task.id(),
                ) || resolved_in(
                    self.events(),
                    old(self).events().len() as int,
                    old(self).queue_view()[k].task.id(),
                ) || old(self).queue_view()[k].task.id() == orig_task.id() by {
                    let id = old(self).queue_view()[k].task.id();
                    if task_was_queued(q_head, id) {
                        let k2 = choose|k2: int|
                            0 <= k2 < q_head.len() && (#[trigger] q_head[k2]).task.id() == id;
                        if k2 == kpop {
                            assert(id == orig_task.id());
                        } else if k2 < kpop {
                            assert(self.queue_view()[k2] == q_head[k2]);
                            assert(task_was_queued(self.queue_view(), id));
                        } else {
                            assert(self.queue_view()[k2 - 1] == q_head[k2]);
                            assert(task_was_queued(self.queue_view(), id));
                        }
                    }
                }
                if nodup {
                    // The dequeued identity stands nowhere else in the queue,
                    assert forall|k2: int|
                        0 <= k2 < self.queue_view().len() implies (#[trigger] self.queue_view()[
                    k2]).task.id() != orig_task.id() by {
                        if k2 < kpop {
                            assert(self.queue_view()[k2] == q_head[k2]);
                        } else {
                            assert(self.queue_view()[k2] == q_head[k2 + 1]);
                        }
                    }
                    // the remaining entries keep pairwise distinct identities,
                    assert forall|a: int, b: int|
                        0 <= a < b < self.queue_view().len() implies (
                    #[trigger] self.queue_view()[a].task.id()) != (
                    #[trigger] self.queue_view()[b].task.id()) by {
                        let a0: int = if a < kpop {
                            a
                        } else {
                            a + 1
                        };
                        let b0: int = if b < kpop {
                            b
                        } else {
                            b + 1
                        };
                        assert(self.queue_view()[a] == q_head[a0]);
                        assert(self.queue_view()[b] == q_head[b0]);
                        assert(q_head[a0].task.id() != q_head[b0].task.id());
                    }
                    // no terminal write has been logged for the dequeued identity,
                    assert forall|i2: int|
                        old(self).events().len() <= i2 < self.events().len()
                            && is_terminal_update(#[trigger] self.events()[i2]) implies
                        event_task(self.events()[i2]).id() != orig_task.id() by {
                        assert(q_head[kpop].task.id() == orig_task.id());
                    }
                    // and the remaining entries stay clear of every one logged.
                    assert forall|k2: int, i2: int|
                        0 <= k2 < self.queue_view().len() && old(self).events().len() <= i2
                            < self.events().len() && is_terminal_update(
                            #[trigger] self.events()[i2],
                        ) implies (#[trigger] self.queue_view()[k2]).task.id() != event_task(
                        self.events()[i2],
                    ).id() by {
                        if k2 < kpop {
                            assert(self.queue_view()[k2] == q_head[k2]);
                        } else {
                            assert(self.queue_view()[k2] == q_head[k2 + 1]);
                        }
                    }
                    // every downloader call logged for the dequeued identity
                    // sits below its current retry counter,
                    assert forall|i2: int|
                        old(self).events().len() <= i2 < self.events().len() && is_download(
                            #[trigger] self.events()[i2],
                        ) && event_task(self.events()[i2]).id() == orig_task.id() implies
                        event_task(self.events()[i2]).num_retries < orig_task.num_retries by {
                        assert(q_head[kpop].task.id() == orig_task.id());
                        assert(q_head[kpop].task.num_retries == orig_task.num_retries);
                    }
                    // and the remaining entries keep their counters above
                    // everything logged for them.
                    assert forall|k2: int, i2: int|
                        0 <= k2 < self.queue_view().len() && old(self).events().len() <= i2
                            < self.events().len() && is_download(#[trigger] self.events()[i2])
                            && event_task(self.events()[i2]).id() == (
                        #[trigger] self.queue_view()[k2]).task.id() implies event_task(
                        self.events()[i2],
                    ).num_retries < self.queue_view()[k2].task.num_retries by {
                        if k2 < kpop {
                            assert(self.queue_view()[k2] == q_head[k2]);
                        } else {
                            assert(self.queue_view()[k2] == q_head[k2 + 1]);
                        }
                    }
                }
            }
            let scheme_opt = uri_scheme(task.request.uri.as_str());
            let dl_found: Option<usize> = match &scheme_opt {
                Some(s) => find_key(&self.downloaders, s),
                None => None,
            };
            match dl_found {
                None => {
                    let ghost rows0 = self.rows();
                    match self.state.update_task_state(&task, TaskState::UnknownURI) {
                        Ok(_) => {},
                        Err(err) => {
                            return Err(err);
                        },
                    }
                    proof {
                        lemma_with_state_frame(rows0, task.id(), TaskState::UnknownURI);
                        lemma_rows_step(
                            old(self).rows(),
                            rows0,
                            self.rows(),
                            old(self).queue_view(),
                            task.id(),
                        );
                        assert forall|j: int| 0 <= j < self.rows().len() implies (#[trigger] self.rows()[
                        j]).task == rows0[j].task by {
                            assert(self.rows()[j] == with_state(rows0, task.id(), TaskState::UnknownURI)[j]);
                        }
                        lemma_counters_anchored_keep(
                            old(self).rows(),
                            rows0,
                            self.rows(),
                            self.events(),
                            old(self).events().len() as int,
                        );
                        if nodup {
                            lemma_linkage_rows_write(
                                old(self).events().len() as int,
                                self.events(),
                                rows0,
                                self.rows(),
                                orig_task.id(),
                            );
                        }
                        assert(queue_budget(self.queue_view()) < queue_budget(q_head));
                    }
                    let ghost ev_prev = self.events();
                    self.events = Ghost(
                        self.events@.push(
                            ResolverEvent::Processed { task, outcome: TaskOutcome::NoDownloader },
                        ),
                    );
                    proof {
                        let e = ResolverEvent::Processed {
                            task,
                            outcome: TaskOutcome::NoDownloader,
                        };
                        assert(!scheme_routed(task, old(self).downloader_keys())) by {
                            if scheme_routed(task, old(self).downloader_keys()) {
                                let i = choose|i: int|
                                    #[trigger] scheme_split_at(task.request.uri@, i) && old(
                                        self,
                                    ).downloader_keys().contains(task.request.uri@.take(i));
                                if scheme_opt is Some {
                                    let sv = scheme_opt->0@;
                                    let l = sv.len() as int;
                                    assert(scheme_split_at(task.request.uri@, l));
                                    if i < l {
                                        assert(task.request.uri@[i] == ':');
                                    } else if i > l {
                                        assert(task.request.uri@[l] == ':');
                                    }
                                    assert(i == l);
                                    assert(task.request.uri@.take(i) == sv);
                                    let k3 = choose|k3: int|
                                        0 <= k3 < old(self).downloader_keys().len() && old(
                                            self,
                                        ).downloader_keys()[k3] == sv;
                                    assert(self.downloaders@[k3].0@ == sv);
                                } else {
                                    assert(!scheme_split_at(task.request.uri@, i));
                                }
                            }
                        }
                        assert(step_valid(
                            e,
                            old(self).downloader_keys(),
                            old(self).parser_keys(),
                        ));
                        if nodup {
                            assert forall|j: int|
                                0 <= j < self.rows().len() && (#[trigger] self.rows()[
                            j]).task.id() == orig_task.id() implies self.rows()[j].state
                                == processed_state(e) by {
                                assert(self.rows()[j] == with_state(
                                    rows0,
                                    task.id(),
                                    TaskState::UnknownURI,
                                )[j]);
                                assert(rows0[j].task.id() == orig_task.id());
                            }
                        }
                        assert(outcome_witnessed(self.events(), ev_prev.len() as int));
                        lemma_run_log_step(
                            old(self).queue_view(),
                            self.queue_view(),
                            old(self).events(),
                            ev_prev,
                            self.events(),
                            e,
                            orig_task.id(),
                            old(self).rows(),
                            self.rows(),
                            old(self).downloader_keys(),
                            old(self).parser_keys(),
                            nodup,
                        );
                        lemma_download_order_push(
                            self.queue_view(),
                            old(self).events().len() as int,
                            ev_prev,
                            self.events(),
                            e,
                            orig_task.id(),
                            nodup,
                        );
                    }
                    continue;
                },
                Some(di) => {
                    let p_found = find_key(&self.parsers, &task.manifest);
                    match p_found {
                        None => {
                            let ghost rows0 = self.rows();
                            match self.state.update_task_state(&task, TaskState::UnknownParser) {
                                Ok(_) => {},
                                Err(err) => {
                                    return Err(err);
                                },
                            }
                            proof {
                                lemma_with_state_frame(rows0, task.id(), TaskState::UnknownParser);
                                lemma_rows_step(
                                    old(self).rows(),
                                    rows0,
                                    self.rows(),
                                    old(self).queue_view(),
                                    task.id(),
                                );
                                assert forall|j: int| 0 <= j < self.rows().len() implies (#[trigger] self.rows()[
                                j]).task == rows0[j].task by {
                                    assert(self.rows()[j] == with_state(rows0, task.id(), TaskState::UnknownParser)[j]);
                                }
                                lemma_counters_anchored_keep(
                                    old(self).rows(),
                                    rows0,
                                    self.rows(),
                                    self.events(),
                                    old(self).events().len() as int,
                                );
                                if nodup {
                                    lemma_linkage_rows_write(
                                        old(self).events().len() as int,
                                        self.events(),
                                        rows0,
                                        self.rows(),
                                        orig_task.id(),
                                    );
                                }
                                assert(queue_budget(self.queue_view()) < queue_budget(q_head));
                            }
                            let ghost ev_prev = self.events();
                            self.events = Ghost(
                                self.events@.push(
                                    ResolverEvent::Processed {
                                        task,
                                        outcome: TaskOutcome::NoParser,
                                    },
                                ),
                            );
                            proof {
                                let e = ResolverEvent::Processed {
                                    task,
                                    outcome: TaskOutcome::NoParser,
                                };
                                let sv = scheme_opt->0@;
                                assert(scheme_split_at(task.request.uri@, sv.len() as int));
                                assert(self.downloaders@[di as int].0@ == sv);
                                assert(self.downloader_keys()[di as int] == sv);
                                assert(self.downloader_keys().contains(sv));
                                assert(task.request.uri@.take(sv.len() as int) == sv);
                                assert(scheme_routed(task, old(self).downloader_keys()));
                                assert forall|j: int|
                                    0 <= j < self.parser_keys().len() implies (
                                #[trigger] self.parser_keys()[j]) != task.manifest@ by {
                                    assert(self.parsers@[j].0@ != task.manifest@);
                                }
                                assert(!old(self).parser_keys().contains(task.manifest@));
                                assert(step_valid(
                                    e,
                                    old(self).downloader_keys(),
                                    old(self).parser_keys(),
                                ));
                                if nodup {
                                    assert forall|j: int|
                                        0 <= j < self.rows().len() && (#[trigger] self.rows()[
                                    j]).task.id() == orig_task.id() implies self.rows()[j].state
                                        == processed_state(e) by {
                                        assert(self.rows()[j] == with_state(
                                            rows0,
                                            task.id(),
                                            TaskState::UnknownParser,
                                        )[j]);
                                        assert(rows0[j].task.id() == orig_task.id());
                                    }
                                }
                                assert(outcome_witnessed(self.events(), ev_prev.len() as int));
                                lemma_run_log_step(
                                    old(self).queue_view(),
                                    self.queue_view(),
                                    old(self).events(),
                                    ev_prev,
                                    self.events(),
                                    e,
                                    orig_task.id(),
                                    old(self).rows(),
                                    self.rows(),
                                    old(self).downloader_keys(),
                                    old(self).parser_keys(),
                                    nodup,
                                );
                                lemma_download_order_push(
                                    self.queue_view(),
                                    old(self).events().len() as int,
                                    ev_prev,
                                    self.events(),
                                    e,
                                    orig_task.id(),
                                    nodup,
                                );
                            }
                            continue;
                        },
                        Some(pi) => {
                            proof {
                                let sv = scheme_opt->0@;
                                assert(scheme_split_at(task.request.uri@, sv.len() as int));
                                assert(self.downloaders@[di as int].0@ == sv);
                                assert(self.downloader_keys()[di as int] == sv);
                                assert(self.downloader_keys().contains(sv));
                                assert(task.request.uri@.take(sv.len() as int) == sv);
                                assert(scheme_routed(task, old(self).downloader_keys()));
                                assert(self.parsers@[pi as int].0@ == task.manifest@);
                                assert(self.parser_keys()[pi as int] == task.manifest@);
                                assert(self.parser_keys().contains(task.manifest@));
                                assert(routable(
                                    task,
                                    old(self).downloader_keys(),
                                    old(self).parser_keys(),
                                ));
                            }
                            let dl_res = self.downloaders[di].1.download(task.request.uri.as_str());
                            let ghost dl_result: Option<Seq<u8>> = if dl_res is Ok {
                                Some(dl_res->Ok_0@)
                            } else {
                                None
                            };
                            let ghost ev_prev = self.events();
                            self.events = Ghost(
                                self.events@.push(
                                    ResolverEvent::Download { task, result: dl_result },
                                ),
                            );
                            proof {
                                let e = ResolverEvent::Download { task, result: dl_result };
                                assert(step_valid(
                                    e,
                                    old(self).downloader_keys(),
                                    old(self).parser_keys(),
                                ));
                                assert(outcome_witnessed(self.events(), ev_prev.len() as int));
                                lemma_run_log_step(
                                    old(self).queue_view(),
                                    self.queue_view(),
                                    old(self).events(),
                                    ev_prev,
                                    self.events(),
                                    e,
                                    orig_task.id(),
                                    old(self).rows(),
                                    self.rows(),
                                    old(self).downloader_keys(),
                                    old(self).parser_keys(),
                                    nodup,
                                );
                                lemma_download_order_push(
                                    self.queue_view(),
                                    old(self).events().len() as int,
                                    ev_prev,
                                    self.events(),
                                    e,
                                    orig_task.id(),
                                    nodup,
                                );
                            }
                            let new_state: TaskState;
                            let mut outc: Ghost<TaskOutcome> = Ghost(TaskOutcome::Exhausted);
                            match dl_res {
                                Ok(bytes) => {
                                    let ghost dl_bytes = bytes@;
                                    let ghost pk0 = self.parser_keys();
                                    let pr = self.parsers[pi].1.parse(&task, bytes);
                                    proof {
                                        assert(self.parser_keys() =~= pk0);
                                    }
                                    let p_ok = pr.is_ok();
                                    let ghost ev_prev2 = self.events();
                                    self.events = Ghost(
                                        self.events@.push(
                                            ResolverEvent::Parse { task, bytes: dl_bytes, ok: p_ok },
                                        ),
                                    );
                                    proof {
                                        let e = ResolverEvent::Parse {
                                            task,
                                            bytes: dl_bytes,
                                            ok: p_ok,
                                        };
                                        assert(step_valid(
                                            e,
                                            old(self).downloader_keys(),
                                            old(self).parser_keys(),
                                        ));
                                        assert(outcome_witnessed(self.events(), ev_prev2.len() as int));
                                        lemma_run_log_step(
                                            old(self).queue_view(),
                                            self.queue_view(),
                                            old(self).events(),
                                            ev_prev2,
                                            self.events(),
                                            e,
                                            orig_task.id(),
                                            old(self).rows(),
                                            self.rows(),
                                            old(self).downloader_keys(),
                                            old(self).parser_keys(),
                                            nodup,
                                        );
                                        lemma_download_order_push(
                                            self.queue_view(),
                                            old(self).events().len() as int,
                                            ev_prev2,
                                            self.events(),
                                            e,
                                            orig_task.id(),
                                            nodup,
                                        );
                                    }
                                    new_state = if p_ok {
                                        TaskState::Finished
                                    } else {
                                        TaskState::ParsingFailed
                                    };
                                    outc = Ghost(TaskOutcome::Parsed { bytes: dl_bytes, ok: p_ok });
                                    proof {
                                        // the verdict is witnessed by the two
                                        // calls just logged
                                        assert(self.events()[self.events().len() - 1]
                                            == (ResolverEvent::Parse {
                                            task,
                                            bytes: dl_bytes,
                                            ok: p_ok,
                                        }));
                                        assert(self.events()[self.events().len() - 2]
                                            == (ResolverEvent::Download {
                                            task,
                                            result: Some(dl_bytes),
                                        }));
                                    }
                                },
                                Err(_) => {
                                    if task.increment_try_counter() {
                                        let ghost rows0 = self.rows();
                                        match self.state.update_retry_counter(&task) {
                                            Ok(_) => {},
                                            Err(err) => {
                                                return Err(err);
                                            },
                                        }
                                        proof {
                                            assert(task.id() == orig_task.id());
                                            lemma_with_retries_frame(
                                                rows0,
                                                task.id(),
                                                task.num_retries,
                                            );
                                            lemma_rows_step(
                                                old(self).rows(),
                                                rows0,
                                                self.rows(),
                                                old(self).queue_view(),
                                                task.id(),
                                            );
                                            if nodup {
                                                lemma_linkage_rows_write(
                                                    old(self).events().len() as int,
                                                    self.events(),
                                                    rows0,
                                                    self.rows(),
                                                    orig_task.id(),
                                                );
                                            }
                                            // the write keeps every counter within
                                            // its budget, anchored to the failed
                                            // download just logged
                                            assert(task.wf());
                                            assert forall|j: int|
                                                0 <= j < self.rows().len() && (#[trigger] self.rows()[j]).task.num_retries
                                                    != old(self).rows()[j].task.num_retries implies self.rows()[
                                            j].task.num_retries <= self.rows()[j].task.request.max_retries && exists|i: int|
                                                old(self).events().len() <= i < self.events().len() && failed_download_for(
                                                    #[trigger] self.events()[i],
                                                    self.rows()[j].task.id(),
                                                ) by {
                                                assert(self.rows()[j] == with_retries(rows0, task.id(), task.num_retries)[j]);
                                                if self.rows()[j].task.num_retries != rows0[j].task.num_retries {
                                                    assert(rows0[j].task.id() == task.id());
                                                    assert(self.rows()[j].task.id() == task.id());
                                                    assert(self.rows()[j].task.request.max_retries
                                                        == task.request.max_retries);
                                                    assert(self.events()[ev_prev.len() as int] == (ResolverEvent::Download {
                                                        task: orig_task,
                                                        result: None,
                                                    }));
                                                    assert(failed_download_for(
                                                        self.events()[ev_prev.len() as int],
                                                        self.rows()[j].task.id(),
                                                    ));
                                                } else {
                                                    assert(rows0[j].task.num_retries != old(self).rows()[j].task.num_retries);
                                                    assert(self.rows()[j].task.id() == rows0[j].task.id());
                                                    assert(self.rows()[j].task.request == rows0[j].task.request);
                                                }
                                            }
                                            assert(counters_anchored(
                                                old(self).rows(),
                                                self.rows(),
                                                self.events(),
                                                old(self).events().len() as int,
                                            ));
                                        }
                                        let ghost q_mid = self.queue_view();
                                        let retry_task = task.clone();
                                        let delay = task.request.wait_before_retry as u64;
                                        self.queue.insert(retry_task, delay);
                                        proof {
                                            let e_new = QueueEntry { task, delay };
                                            lemma_queue_budget_push(q_mid, e_new);
                                            assert(task.wf());
                                            assert(entry_budget(e_new) + 1 == entry_budget(
                                                q_head[kpop],
                                            ));
                                            assert(queue_budget(self.queue_view()) < queue_budget(
                                                q_head,
                                            ));
                                            assert forall|k2: int|
                                                0 <= k2 < self.queue_view().len() implies
                                                task_was_queued(
                                                old(self).queue_view(),
                                                (#[trigger] self.queue_view()[k2]).task.id(),
                                            ) && self.queue_view()[k2].task.wf() by {
                                                if k2 < q_mid.len() {
                                                    assert(self.queue_view()[k2] == q_mid[k2]);
                                                } else {
                                                    assert(self.queue_view()[k2] == e_new);
                                                    assert(e_new.task.id() == orig_task.id());
                                                }
                                            }
                                            // each starting identity stays queued, resolved or
                                            // the one in hand
                                            assert forall|k: int|
                                                0 <= k < old(self).queue_view().len() implies
                                                task_was_queued(
                                                self.queue_view(),
                                                (#[trigger] old(self).queue_view()[k]).task.id(),
                                            ) || resolved_in(
                                                self.events(),
                                                old(self).events().len() as int,
                                                old(self).queue_view()[k].task.id(),
                                            ) || old(self).queue_view()[k].task.id()
                                                == orig_task.id() by {
                                                let id = old(self).queue_view()[k].task.id();
                                                if task_was_queued(q_mid, id) {
                                                    let k2 = choose|k2: int|
                                                        0 <= k2 < q_mid.len() && (
                                                        #[trigger] q_mid[k2]).task.id() == id;
                                                    assert(self.queue_view()[k2] == q_mid[k2]);
                                                    assert(task_was_queued(
                                                        self.queue_view(),
                                                        id,
                                                    ));
                                                }
                                            }
                                            if nodup {
                                                assert forall|a: int, b: int|
                                                    0 <= a < b < self.queue_view().len() implies (
                                                #[trigger] self.queue_view()[a].task.id()) != (
                                                #[trigger] self.queue_view()[b].task.id()) by {
                                                    assert(self.queue_view()[a] == q_mid[a]);
                                                    if b < q_mid.len() {
                                                        assert(self.queue_view()[b] == q_mid[b]);
                                                    } else {
                                                        assert(self.queue_view()[b] == e_new);
                                                        assert(q_mid[a].task.id()
                                                            != orig_task.id());
                                                    }
                                                }
                                                assert forall|k2: int, i2: int|
                                                    0 <= k2 < self.queue_view().len() && old(
                                                        self,
                                                    ).events().len() <= i2 < self.events().len()
                                                        && is_terminal_update(
                                                        #[trigger] self.events()[i2],
                                                    ) implies (#[trigger] self.queue_view()[
                                                k2]).task.id() != event_task(
                                                    self.events()[i2],
                                                ).id() by {
                                                    if k2 < q_mid.len() {
                                                        assert(self.queue_view()[k2] == q_mid[k2]);
                                                    } else {
                                                        assert(self.queue_view()[k2] == e_new);
                                                        assert(event_task(self.events()[i2]).id()
                                                            != orig_task.id());
                                                    }
                                                }
                                                // everything logged for this
                                                // identity sits below the
                                                // re-inserted counter,
                                                assert forall|i2: int|
                                                    old(self).events().len() <= i2
                                                        < self.events().len() && is_download(
                                                        #[trigger] self.events()[i2],
                                                    ) && event_task(self.events()[i2]).id()
                                                        == orig_task.id() implies event_task(
                                                    self.events()[i2],
                                                ).num_retries < task.num_retries by {
                                                    if i2 < ev_prev.len() {
                                                        assert(self.events()[i2] == ev_prev[i2]);
                                                    } else {
                                                        assert(self.events()[i2]
                                                            == ResolverEvent::Download {
                                                            task: orig_task,
                                                            result: None,
                                                        });
                                                    }
                                                }
                                                // and the grown queue keeps its
                                                // counters above the log.
                                                assert forall|k2: int, i2: int|
                                                    0 <= k2 < self.queue_view().len() && old(
                                                        self,
                                                    ).events().len() <= i2 < self.events().len()
                                                        && is_download(
                                                        #[trigger] self.events()[i2],
                                                    ) && event_task(self.events()[i2]).id() == (
                                                    #[trigger] self.queue_view()[k2]).task.id()
                                                    implies event_task(
                                                    self.events()[i2],
                                                ).num_retries < self.queue_view()[
                                                k2].task.num_retries by {
                                                    if k2 < q_mid.len() {
                                                        assert(self.queue_view()[k2] == q_mid[k2]);
                                                    } else {
                                                        assert(self.queue_view()[k2] == e_new);
                                                    }
                                                }
                                            }
                                        }
                                        new_state = TaskState::Queued;
                                        proof {
                                            outc@ = TaskOutcome::Retried { delay };
                                            // the spent retry is witnessed by
                                            // the failed download just logged
                                            assert(self.events()[self.events().len() - 1] == (
                                            ResolverEvent::Download {
                                                task: orig_task,
                                                result: None,
                                            }));
                                            assert((ResolveTask {
                                                num_retries: (task.num_retries - 1) as u32,
                                                ..task
                                            }) == orig_task);
                                        }
                                    } else {
                                        new_state = TaskState::DownloadFailed;
                                        proof {
                                            outc@ = TaskOutcome::Exhausted;
                                            assert(self.events()[self.events().len() - 1] == (
                                            ResolverEvent::Download {
                                                task: orig_task,
                                                result: None,
                                            }));
                                            assert(task == orig_task);
                                        }
                                    }
                                },
                            }
                            let ghost rows1 = self.rows();
                            match self.state.update_task_state(&task, new_state) {
                                Ok(_) => {},
                                Err(err) => {
                                    return Err(err);
                                },
                            }
                            proof {
                                assert(task.id() == orig_task.id());
                                lemma_with_state_frame(rows1, task.id(), new_state);
                                lemma_rows_step(
                                    old(self).rows(),
                                    rows1,
                                    self.rows(),
                                    old(self).queue_view(),
                                    task.id(),
                                );
                                assert forall|j: int| 0 <= j < self.rows().len() implies (#[trigger] self.rows()[
                                j]).task == rows1[j].task by {
                                    assert(self.rows()[j] == with_state(rows1, task.id(), new_state)[j]);
                                }
                                lemma_counters_anchored_keep(
                                    old(self).rows(),
                                    rows1,
                                    self.rows(),
                                    self.events(),
                                    old(self).events().len() as int,
                                );
                                if nodup {
                                    lemma_linkage_rows_write(
                                        old(self).events().len() as int,
                                        self.events(),
                                        rows1,
                                        self.rows(),
                                        orig_task.id(),
                                    );
                                }
                                assert(queue_budget(self.queue_view()) < queue_budget(q_head));
                            }
                            let ghost ev_prev3 = self.events();
                            self.events = Ghost(
                                self.events@.push(
                                    ResolverEvent::Processed { task, outcome: outc@ },
                                ),
                            );
                            proof {
                                let e = ResolverEvent::Processed { task, outcome: outc@ };
                                assert(outcome_state(outc@) == new_state);
                                assert(task.request == orig_task.request);
                                assert(task.manifest@ == orig_task.manifest@);
                                assert(step_valid(
                                    e,
                                    old(self).downloader_keys(),
                                    old(self).parser_keys(),
                                ));
                                if nodup {
                                    assert forall|j: int|
                                        0 <= j < self.rows().len() && (#[trigger] self.rows()[
                                    j]).task.id() == orig_task.id() implies self.rows()[j].state
                                        == processed_state(e) by {
                                        assert(self.rows()[j] == with_state(
                                            rows1,
                                            task.id(),
                                            new_state,
                                        )[j]);
                                        assert(rows1[j].task.id() == orig_task.id());
                                    }
                                }
                                assert(outcome_witnessed(self.events(), ev_prev3.len() as int));
                                lemma_run_log_step(
                                    old(self).queue_view(),
                                    self.queue_view(),
                                    old(self).events(),
                                    ev_prev3,
                                    self.events(),
                                    e,
                                    orig_task.id(),
                                    old(self).rows(),
                                    self.rows(),
                                    old(self).downloader_keys(),
                                    old(self).parser_keys(),
                                    nodup,
                                );
                                lemma_download_order_push(
                                    self.queue_view(),
                                    old(self).events().len() as int,
                                    ev_prev3,
                                    self.events(),
                                    e,
                                    orig_task.id(),
                                    nodup,
                                );
                                // a retried task is back in the queue, so each
                                // starting identity is again queued or resolved
                                assert forall|k: int|
                                    0 <= k < old(self).queue_view().len() implies task_was_queued(
                                    self.queue_view(),
                                    (#[trigger] old(self).queue_view()[k]).task.id(),
                                ) || resolved_in(
                                    self.events(),
                                    old(self).events().len() as int,
                                    old(self).queue_view()[k].task.id(),
                                ) by {
                                    if !is_terminal_update(e) && old(self).queue_view()[
                                    k].task.id() == orig_task.id() {
                                        assert(self.queue_view()[self.queue_view().len()
                                            - 1].task.id() == orig_task.id());
                                        assert(task_was_queued(
                                            self.queue_view(),
                                            orig_task.id(),
                                        ));
                                    }
                                }
                            }
                        },
                    }
                },
            }
        }
        Ok(())
    }

    /// How many entries the delay queue holds.
    pub fn queue_len(&self) -> (n: usize)
        ensures
            n == self.queue_view().len(),
    {
        self.queue.len()
    }

    /// The state store, for observation.
    pub fn store(&self) -> (s: &S)
        ensures
            *s == self.spec_state(),
    {
        &self.state
    }

    /// The parser registered for `manifest`, if any — parsers may be
    /// stateful, and this is how their state is read back.
    pub fn parser(&self, manifest: &String) -> (r: Option<&P>)
        ensures
            r is Some <==> self.has_parser_for(manifest@),
    {
        let found = find_key(&self.parsers, manifest);
        match found {
            Some(i) => {
                proof {
                    assert(self.parser_keys()[i as int] == manifest@);
                }
                Some(&self.parsers[i].1)
            },
            None => {
                proof {
                    if self.has_parser_for(manifest@) {
                        let k = choose|k: int|
                            0 <= k < self.parser_keys().len() && self.parser_keys()[k]
                                == manifest@;
                        assert(self.parsers@[k].0@ == manifest@);
                    }
                }
                None
            },
        }
    }
}

/// How many more failed download attempts one queue entry can absorb before
/// its task turns terminal.
pub open spec fn entry_budget(e: QueueEntry) -> nat {
    if e.task.wf() {
        (e.task.request.max_retries - e.task.num_retries + 1) as nat
    } else {
        1
    }
}

/// How many more download attempts the whole queue can absorb: the worker
/// loop runs at most this many more iterations, which is what bounds a run.
pub open spec fn queue_budget(q: Seq<QueueEntry>) -> nat
    decreases q.len(),
{
    if q.len() == 0 {
        0
    } else {
        queue_budget(q.drop_last()) + entry_budget(q.last())
    }
}

/// Removing an entry takes exactly its own budget out of the queue's.
pub proof fn lemma_queue_budget_remove(q: Seq<QueueEntry>, k: int)
    requires
        0 <= k < q.len(),
    ensures
        queue_budget(q.remove(k)) + entry_budget(q[k]) == queue_budget(q),
    decreases q.len(),
{
    if k == q.len() - 1 {
        assert(q.remove(k) =~= q.drop_last());
    } else {
        assert(q.remove(k).drop_last() =~= q.drop_last().remove(k));
        assert(q.remove(k).last() == q.last());
        lemma_queue_budget_remove(q.drop_last(), k);
        assert(q.drop_last()[k] == q[k]);
    }
}

/// Scheduling an entry adds exactly its own budget to the queue's.
pub proof fn lemma_queue_budget_push(q: Seq<QueueEntry>, e: QueueEntry)
    ensures
        queue_budget(q.push(e)) == queue_budget(q) + entry_budget(e),
{
    assert(q.push(e).drop_last() =~= q);
    assert(q.push(e).last() == e);
}

/// Chain one store write into the run-long framing: if the table so far
/// differs from the starting table only at identities that were enqueued,
/// and one more write touches only rows of an identity that was enqueued,
/// the combined change still touches only enqueued identities.
proof fn lemma_rows_step(
    rows_old: Seq<StoreRow>,
    rows0: Seq<StoreRow>,
    rows1: Seq<StoreRow>,
    q_old: Seq<QueueEntry>,
    id: TaskId,
)
    requires
        rows0.len() == rows_old.len(),
        forall|j: int|
            0 <= j < rows0.len() ==> (#[trigger] rows0[j]).task.id() == rows_old[j].task.id(),
        forall|j: int|
            0 <= j < rows0.len() && rows0[j] != rows_old[j] ==> task_was_queued(
                q_old,
                (#[trigger] rows0[j]).task.id(),
            ),
        task_was_queued(q_old, id),
        rows1.len() == rows0.len(),
        forall|j: int|
            0 <= j < rows1.len() ==> (#[trigger] rows1[j]).task.id() == rows0[j].task.id(),
        forall|j: int|
            0 <= j < rows1.len() && rows1[j] != rows0[j] ==> (#[trigger] rows1[j]).task.id() == id,
    ensures
        rows1.len() == rows_old.len(),
        forall|j: int|
            0 <= j < rows1.len() ==> (#[trigger] rows1[j]).task.id() == rows_old[j].task.id(),
        forall|j: int|
            0 <= j < rows1.len() && rows1[j] != rows_old[j] ==> task_was_queued(
                q_old,
                (#[trigger] rows1[j]).task.id(),
            ),
{
    assert forall|j: int|
        0 <= j < rows1.len() && rows1[j] != rows_old[j] implies task_was_queued(
        q_old,
        (#[trigger] rows1[j]).task.id(),
    ) by {
        if rows1[j] != rows0[j] {
            assert(rows1[j].task.id() == id);
        } else {
            assert(rows0[j] != rows_old[j]);
        }
    }
}

/// Every persisted retry counter the run has changed stays within its
/// row's budget and is anchored to a logged failed download of that
/// identity: the worker writes a counter only while retrying.
pub open spec fn counters_anchored(
    rows_old: Seq<StoreRow>,
    rows: Seq<StoreRow>,
    log: Seq<ResolverEvent>,
    from: int,
) -> bool {
    &&& rows.len() == rows_old.len()
    &&& forall|j: int|
        0 <= j < rows.len() && (#[trigger] rows[j]).task.num_retries
            != rows_old[j].task.num_retries ==> rows[j].task.num_retries
            <= rows[j].task.request.max_retries && exists|i: int|
            from <= i < log.len() && failed_download_for(#[trigger] log[i], rows[j].task.id())
}

/// A store write that moves no task — such as a state transition — keeps
/// the counters anchored.
proof fn lemma_counters_anchored_keep(
    rows_old: Seq<StoreRow>,
    rows0: Seq<StoreRow>,
    rows1: Seq<StoreRow>,
    log: Seq<ResolverEvent>,
    from: int,
)
    requires
        counters_anchored(rows_old, rows0, log, from),
        rows1.len() == rows0.len(),
        forall|j: int| 0 <= j < rows1.len() ==> (#[trigger] rows1[j]).task == rows0[j].task,
    ensures
        counters_anchored(rows_old, rows1, log, from),
{
}

/// A store write for the identity being processed keeps the log-to-row
/// linkage: a row of any identity that already has a terminal event is not
/// of the processed identity, so its state does not move.
proof fn lemma_linkage_rows_write(
    base_len: int,
    ev: Seq<ResolverEvent>,
    rows0: Seq<StoreRow>,
    rows1: Seq<StoreRow>,
    xid: TaskId,
)
    requires
        0 <= base_len <= ev.len(),
        forall|i: int|
            base_len <= i < ev.len() && is_terminal_update(#[trigger] ev[i]) ==> event_task(
                ev[i],
            ).id() != xid,
        forall|i: int, j: int|
            base_len <= i < ev.len() && is_terminal_update(#[trigger] ev[i]) && 0 <= j
                < rows0.len() && (#[trigger] rows0[j]).task.id() == event_task(ev[i]).id()
                ==> rows0[j].state == processed_state(ev[i]),
        rows1.len() == rows0.len(),
        forall|j: int|
            0 <= j < rows1.len() ==> (#[trigger] rows1[j]).task.id() == rows0[j].task.id(),
        forall|j: int|
            0 <= j < rows1.len() && rows1[j] != rows0[j] ==> (#[trigger] rows1[j]).task.id()
                == xid,
    ensures
        forall|i: int, j: int|
            base_len <= i < ev.len() && is_terminal_update(#[trigger] ev[i]) && 0 <= j
                < rows1.len() && (#[trigger] rows1[j]).task.id() == event_task(ev[i]).id()
                ==> rows1[j].state == processed_state(ev[i]),
{
    assert forall|i: int, j: int|
        base_len <= i < ev.len() && is_terminal_update(#[trigger] ev[i]) && 0 <= j < rows1.len()
            && (#[trigger] rows1[j]).task.id() == event_task(ev[i]).id() implies rows1[j].state
        == processed_state(ev[i]) by {
        assert(rows1[j].task.id() != xid);
        assert(rows1[j] == rows0[j]);
    }
}

/// One event appended to the run's log: the prefix, the earlier entries and
/// the validity of every entry stay; the completeness trichotomy and, under
/// distinct starting identities, the after-terminal silence, the queue
/// disjointness and the log-to-row linkage carry over to the grown log.
#[verifier::rlimit(30)]
proof fn lemma_run_log_step(
    q_old: Seq<QueueEntry>,
    q_cur: Seq<QueueEntry>,
    base: Seq<ResolverEvent>,
    prev: Seq<ResolverEvent>,
    cur: Seq<ResolverEvent>,
    e: ResolverEvent,
    xid: TaskId,
    rows_old: Seq<StoreRow>,
    rows: Seq<StoreRow>,
    dks: Seq<Seq<char>>,
    pks: Seq<Seq<char>>,
    nodup: bool,
)
    requires
        cur == prev.push(e),
        base.len() <= prev.len(),
        prev.take(base.len() as int) == base,
        forall|i: int| base.len() <= i < prev.len() ==> step_valid(#[trigger] prev[i], dks, pks),
        step_valid(e, dks, pks),
        event_task(e).id() == xid,
        forall|i: int| base.len() <= i < prev.len() ==> outcome_witnessed(prev, i),
        outcome_witnessed(cur, prev.len() as int),
        counters_anchored(rows_old, rows, prev, base.len() as int),
        forall|k: int|
            0 <= k < q_old.len() ==> task_was_queued(q_cur, (#[trigger] q_old[k]).task.id())
                || resolved_in(prev, base.len() as int, q_old[k].task.id()) || q_old[k].task.id()
                == xid,
        task_was_queued(q_old, xid),
        forall|i: int|
            base.len() <= i < prev.len() ==> task_was_queued(
                q_old,
                event_task(#[trigger] prev[i]).id(),
            ),
        nodup ==> forall|i: int|
            base.len() <= i < prev.len() && is_terminal_update(#[trigger] prev[i]) ==> event_task(
                prev[i],
            ).id() != xid,
        nodup ==> forall|k: int, i: int|
            0 <= k < q_cur.len() && base.len() <= i < prev.len() && is_terminal_update(
                #[trigger] prev[i],
            ) ==> (#[trigger] q_cur[k]).task.id() != event_task(prev[i]).id(),
        nodup ==> forall|i: int, i2: int|
            base.len() <= i < i2 < prev.len() && is_terminal_update(#[trigger] prev[i])
                ==> event_task(#[trigger] prev[i2]).id() != event_task(prev[i]).id(),
        nodup ==> forall|i: int, j: int|
            base.len() <= i < prev.len() && is_terminal_update(#[trigger] prev[i]) && 0 <= j
                < rows.len() && (#[trigger] rows[j]).task.id() == event_task(prev[i]).id()
                ==> rows[j].state == processed_state(prev[i]),
        nodup && is_terminal_update(e) ==> forall|k: int|
            0 <= k < q_cur.len() ==> (#[trigger] q_cur[k]).task.id() != xid,
        nodup && is_terminal_update(e) ==> forall|j: int|
            0 <= j < rows.len() && (#[trigger] rows[j]).task.id() == xid ==> rows[j].state
                == processed_state(e),
    ensures
        cur.len() == prev.len() + 1,
        cur.take(base.len() as int) == base,
        forall|i: int| 0 <= i < prev.len() ==> #[trigger] cur[i] == prev[i],
        cur[prev.len() as int] == e,
        forall|i: int| base.len() <= i < cur.len() ==> step_valid(#[trigger] cur[i], dks, pks),
        forall|i: int| base.len() <= i < cur.len() ==> outcome_witnessed(cur, i),
        counters_anchored(rows_old, rows, cur, base.len() as int),
        forall|k: int|
            0 <= k < q_old.len() ==> task_was_queued(q_cur, (#[trigger] q_old[k]).task.id())
                || resolved_in(cur, base.len() as int, q_old[k].task.id()) || (!is_terminal_update(
                e,
            ) && q_old[k].task.id() == xid),
        forall|i: int|
            base.len() <= i < cur.len() ==> task_was_queued(
                q_old,
                event_task(#[trigger] cur[i]).id(),
            ),
        nodup && !is_terminal_update(e) ==> forall|i: int|
            base.len() <= i < cur.len() && is_terminal_update(#[trigger] cur[i]) ==> event_task(
                cur[i],
            ).id() != xid,
        nodup ==> forall|k: int, i: int|
            0 <= k < q_cur.len() && base.len() <= i < cur.len() && is_terminal_update(
                #[trigger] cur[i],
            ) ==> (#[trigger] q_cur[k]).task.id() != event_task(cur[i]).id(),
        nodup ==> forall|i: int, i2: int|
            base.len() <= i < i2 < cur.len() && is_terminal_update(#[trigger] cur[i])
                ==> event_task(#[trigger] cur[i2]).id() != event_task(cur[i]).id(),
        nodup ==> forall|i: int, j: int|
            base.len() <= i < cur.len() && is_terminal_update(#[trigger] cur[i]) && 0 <= j
                < rows.len() && (#[trigger] rows[j]).task.id() == event_task(cur[i]).id()
                ==> rows[j].state == processed_state(cur[i]),
{
    assert(cur.take(base.len() as int) =~= prev.take(base.len() as int));
    assert forall|i: int| base.len() <= i < cur.len() implies outcome_witnessed(cur, i) by {
        if i < prev.len() {
            assert(cur[i] == prev[i]);
            if i - 1 >= 0 {
                assert(cur[i - 1] == prev[i - 1]);
            }
            if i - 2 >= 0 {
                assert(cur[i - 2] == prev[i - 2]);
            }
            assert(outcome_witnessed(prev, i));
        }
    }
    assert forall|j: int|
        0 <= j < rows.len() && (#[trigger] rows[j]).task.num_retries
            != rows_old[j].task.num_retries implies rows[j].task.num_retries
        <= rows[j].task.request.max_retries && exists|i: int|
        base.len() <= i < cur.len() && failed_download_for(
            #[trigger] cur[i],
            rows[j].task.id(),
        ) by {
        let i0 = choose|i0: int|
            base.len() <= i0 < prev.len() && failed_download_for(
                #[trigger] prev[i0],
                rows[j].task.id(),
            );
        assert(cur[i0] == prev[i0]);
    }
    assert forall|k: int|
        0 <= k < q_old.len() implies task_was_queued(q_cur, (#[trigger] q_old[k]).task.id())
        || resolved_in(cur, base.len() as int, q_old[k].task.id()) || (!is_terminal_update(e)
        && q_old[k].task.id() == xid) by {
        let id = q_old[k].task.id();
        if !task_was_queued(q_cur, id) {
            if resolved_in(prev, base.len() as int, id) {
                let i = choose|i: int|
                    base.len() <= i < prev.len() && is_terminal_update(#[trigger] prev[i])
                        && event_task(prev[i]).id() == id;
                assert(cur[i] == prev[i]);
                assert(resolved_in(cur, base.len() as int, id));
            } else if id == xid && is_terminal_update(e) {
                assert(cur[prev.len() as int] == e);
                assert(resolved_in(cur, base.len() as int, id));
            }
        }
    }
    assert forall|i: int|
        base.len() <= i < cur.len() implies task_was_queued(
        q_old,
        event_task(#[trigger] cur[i]).id(),
    ) by {
        if i < prev.len() {
            assert(cur[i] == prev[i]);
        } else {
            assert(cur[i] == e);
        }
    }
    if nodup {
        assert forall|i: int, i2: int|
            base.len() <= i < i2 < cur.len() && is_terminal_update(#[trigger] cur[i]) implies
            event_task(#[trigger] cur[i2]).id() != event_task(cur[i]).id() by {
            assert(cur[i] == prev[i]);
            if i2 < prev.len() {
                assert(cur[i2] == prev[i2]);
            } else {
                assert(cur[i2] == e);
                assert(event_task(prev[i]).id() != xid);
            }
        }
        assert forall|k: int, i: int|
            0 <= k < q_cur.len() && base.len() <= i < cur.len() && is_terminal_update(
                #[trigger] cur[i],
            ) implies (#[trigger] q_cur[k]).task.id() != event_task(cur[i]).id() by {
            if i < prev.len() {
                assert(cur[i] == prev[i]);
            } else {
                assert(cur[i] == e);
            }
        }
        assert forall|i: int, j: int|
            base.len() <= i < cur.len() && is_terminal_update(#[trigger] cur[i]) && 0 <= j
                < rows.len() && (#[trigger] rows[j]).task.id() == event_task(cur[i]).id() implies
            rows[j].state == processed_state(cur[i]) by {
            if i < prev.len() {
                assert(cur[i] == prev[i]);
            } else {
                assert(cur[i] == e);
            }
        }
    }
}

/// One event appended to the run's log keeps the download order: under
/// distinct starting identities, later downloader calls for one identity
/// carry strictly larger retry counters, and every logged call for an
/// identity still in the queue sits strictly below that entry's counter.
proof fn lemma_download_order_push(
    q_cur: Seq<QueueEntry>,
    base_len: int,
    prev: Seq<ResolverEvent>,
    cur: Seq<ResolverEvent>,
    e: ResolverEvent,
    xid: TaskId,
    nodup: bool,
)
    requires
        cur == prev.push(e),
        0 <= base_len <= prev.len(),
        event_task(e).id() == xid,
        nodup ==> forall|i: int, i2: int|
            base_len <= i < i2 < prev.len() && is_download(#[trigger] prev[i]) && is_download(
                #[trigger] prev[i2],
            ) && event_task(prev[i2]).id() == event_task(prev[i]).id() ==> event_task(
                prev[i],
            ).num_retries < event_task(prev[i2]).num_retries,
        nodup ==> forall|k: int, i: int|
            0 <= k < q_cur.len() && base_len <= i < prev.len() && is_download(#[trigger] prev[i])
                && event_task(prev[i]).id() == (#[trigger] q_cur[k]).task.id() ==> event_task(
                prev[i],
            ).num_retries < q_cur[k].task.num_retries,
        nodup && is_download(e) ==> forall|i: int|
            base_len <= i < prev.len() && is_download(#[trigger] prev[i]) && event_task(
                prev[i],
            ).id() == xid ==> event_task(prev[i]).num_retries < event_task(e).num_retries,
        nodup && is_download(e) ==> forall|k: int|
            0 <= k < q_cur.len() ==> (#[trigger] q_cur[k]).task.id() != xid,
    ensures
        nodup ==> forall|i: int, i2: int|
            base_len <= i < i2 < cur.len() && is_download(#[trigger] cur[i]) && is_download(
                #[trigger] cur[i2],
            ) && event_task(cur[i2]).id() == event_task(cur[i]).id() ==> event_task(
                cur[i],
            ).num_retries < event_task(cur[i2]).num_retries,
        nodup ==> forall|k: int, i: int|
            0 <= k < q_cur.len() && base_len <= i < cur.len() && is_download(#[trigger] cur[i])
                && event_task(cur[i]).id() == (#[trigger] q_cur[k]).task.id() ==> event_task(
                cur[i],
            ).num_retries < q_cur[k].task.num_retries,
{
    if nodup {
        assert forall|i: int, i2: int|
            base_len <= i < i2 < cur.len() && is_download(#[trigger] cur[i]) && is_download(
                #[trigger] cur[i2],
            ) && event_task(cur[i2]).id() == event_task(cur[i]).id() implies event_task(
            cur[i],
        ).num_retries < event_task(cur[i2]).num_retries by {
            assert(cur[i] == prev[i]);
            if i2 < prev.len() {
                assert(cur[i2] == prev[i2]);
            } else {
                assert(cur[i2] == e);
            }
        }
        assert forall|k: int, i: int|
            0 <= k < q_cur.len() && base_len <= i < cur.len() && is_download(#[trigger] cur[i])
                && event_task(cur[i]).id() == (#[trigger] q_cur[k]).task.id() implies event_task(
            cur[i],
        ).num_retries < q_cur[k].task.num_retries by {
            if i < prev.len() {
                assert(cur[i] == prev[i]);
            } else {
                assert(cur[i] == e);
            }
        }
    }
}

/// Every task `load_tasks` yields comes from some row of the table.
pub proof fn lemma_queued_entries_tasks(rows: Seq<StoreRow>)
    ensures
        forall|k: int|
            0 <= k < queued_entries(rows).len() ==> exists|j: int|
                0 <= j < rows.len() && (#[trigger] queued_entries(rows)[k]).task == rows[j].task
                    && rows[j].state == TaskState::Queued,
    decreases rows.len(),
{
    if rows.len() > 0 {
        lemma_queued_entries_tasks(rows.drop_last());
        let q = queued_entries(rows);
        let qd = queued_entries(rows.drop_last());
        assert forall|k: int| 0 <= k < q.len() implies exists|j: int|
            0 <= j < rows.len() && (#[trigger] q[k]).task == rows[j].task && rows[j].state
                == TaskState::Queued by {
            if k < qd.len() {
                assert(q[k] == qd[k]);
                let j = choose|j: int|
                    0 <= j < rows.drop_last().len() && (#[trigger] qd[k]).task == rows.drop_last(
                    )[j].task && rows.drop_last()[j].state == TaskState::Queued;
                assert(rows[j].task == q[k].task && rows[j].state == TaskState::Queued);
            } else {
                assert(rows.last().state == TaskState::Queued && q[k].task == rows.last().task);
                assert(rows[rows.len() - 1].task == q[k].task);
            }
        }
    }
}

} // verus!
