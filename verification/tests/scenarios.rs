//! End-to-end scenarios: the resolver driven with test downloaders and
//! parsers over the in-memory state store.

use std::cell::RefCell;
use std::rc::Rc;

use offchain::resolver::{ContentParser, DownloadError, LinkResolver, ParseError, Resolver};
use offchain::store::{
    BackedResolverState, MemResolverState, ResolverState, StoreBackend, StoreError, StoreRow,
};
use offchain::task::{OffchainData, ResolveTask, TaskState};

/// A downloader that counts its calls, errors on the first `fail_first`
/// of them, and afterwards returns `bytes`.
struct TestDownloader {
    bytes: Vec<u8>,
    fail_first: usize,
    calls: Rc<RefCell<usize>>,
}

impl LinkResolver for TestDownloader {
    fn download(&self, _uri: &str) -> Result<Vec<u8>, DownloadError> {
        let mut calls = self.calls.borrow_mut();
        *calls += 1;
        if *calls <= self.fail_first {
            Err(DownloadError)
        } else {
            Ok(self.bytes.clone())
        }
    }
}

/// A parser that records every byte string handed to it and can be told to
/// reject them all.
struct TestParser {
    seen: Rc<RefCell<Vec<Vec<u8>>>>,
    fail: bool,
}

impl ContentParser for TestParser {
    fn parse(&mut self, _task: &ResolveTask, content: Vec<u8>) -> Result<(), ParseError> {
        self.seen.borrow_mut().push(content);
        if self.fail {
            Err(ParseError)
        } else {
            Ok(())
        }
    }
}

fn request(uri: &str, max_retries: u32, wait_before_retry: u32) -> OffchainData {
    OffchainData {
        uri: uri.to_string(),
        max_retries,
        wait_before_retry,
    }
}

fn task(manifest: &str, uri: &str, max_retries: u32, wait_before_retry: u32) -> ResolveTask {
    ResolveTask {
        manifest: manifest.to_string(),
        request: request(uri, max_retries, wait_before_retry),
        num_retries: 0,
    }
}

#[test]
fn happy_path() {
    let calls = Rc::new(RefCell::new(0));
    let seen = Rc::new(RefCell::new(Vec::new()));
    let mut resolver = Resolver::new(MemResolverState::new())
        .unwrap()
        .with_link_resolver(
            "https".to_string(),
            TestDownloader {
                bytes: vec![0x41, 0x42],
                fail_first: 0,
                calls: calls.clone(),
            },
        )
        .with_parser(
            "m1".to_string(),
            TestParser {
                seen: seen.clone(),
                fail: false,
            },
        );
    resolver.add_task("m1", request("https://x", 3, 0)).unwrap();
    resolver.run(true).unwrap();
    let probe = task("m1", "https://x", 3, 0);
    assert_eq!(resolver.store().state_of(&probe), Some(TaskState::Finished));
    assert_eq!(resolver.store().retries_of(&probe), Some(0));
    assert_eq!(*seen.borrow(), vec![vec![0x41, 0x42]]);
    assert_eq!(*calls.borrow(), 1);
    assert_eq!(resolver.queue_len(), 0);
}

#[test]
fn unknown_scheme() {
    let calls = Rc::new(RefCell::new(0));
    let seen = Rc::new(RefCell::new(Vec::new()));
    let mut resolver = Resolver::new(MemResolverState::new())
        .unwrap()
        .with_link_resolver(
            "https".to_string(),
            TestDownloader {
                bytes: vec![1],
                fail_first: 0,
                calls: calls.clone(),
            },
        )
        .with_parser(
            "m1".to_string(),
            TestParser {
                seen: seen.clone(),
                fail: false,
            },
        );
    resolver
        .add_task("m1", request("ipfs://cid", 3, 0))
        .unwrap();
    resolver.run(true).unwrap();
    let probe = task("m1", "ipfs://cid", 3, 0);
    assert_eq!(
        resolver.store().state_of(&probe),
        Some(TaskState::UnknownURI)
    );
    assert_eq!(*calls.borrow(), 0);
    assert!(seen.borrow().is_empty());
}

#[test]
fn unknown_parser() {
    let calls = Rc::new(RefCell::new(0));
    let seen = Rc::new(RefCell::new(Vec::new()));
    let mut resolver = Resolver::new(MemResolverState::new())
        .unwrap()
        .with_link_resolver(
            "https".to_string(),
            TestDownloader {
                bytes: vec![1],
                fail_first: 0,
                calls: calls.clone(),
            },
        )
        .with_parser(
            "m1".to_string(),
            TestParser {
                seen: seen.clone(),
                fail: false,
            },
        );
    resolver.add_task("m2", request("https://x", 3, 0)).unwrap();
    resolver.run(true).unwrap();
    let probe = task("m2", "https://x", 3, 0);
    assert_eq!(
        resolver.store().state_of(&probe),
        Some(TaskState::UnknownParser)
    );
    assert_eq!(*calls.borrow(), 0);
    assert!(seen.borrow().is_empty());
}

#[test]
fn malformed_uri() {
    let calls = Rc::new(RefCell::new(0));
    let seen = Rc::new(RefCell::new(Vec::new()));
    let mut resolver = Resolver::new(MemResolverState::new())
        .unwrap()
        .with_link_resolver(
            "https".to_string(),
            TestDownloader {
                bytes: vec![1],
                fail_first: 0,
                calls: calls.clone(),
            },
        )
        .with_parser(
            "m1".to_string(),
            TestParser {
                seen: seen.clone(),
                fail: false,
            },
        );
    resolver
        .add_task("m1", request("no scheme here", 3, 0))
        .unwrap();
    resolver.run(true).unwrap();
    let probe = task("m1", "no scheme here", 3, 0);
    assert_eq!(
        resolver.store().state_of(&probe),
        Some(TaskState::UnknownURI)
    );
    assert_eq!(*calls.borrow(), 0);
}

#[test]
fn parse_failure() {
    let calls = Rc::new(RefCell::new(0));
    let seen = Rc::new(RefCell::new(Vec::new()));
    let mut resolver = Resolver::new(MemResolverState::new())
        .unwrap()
        .with_link_resolver(
            "https".to_string(),
            TestDownloader {
                bytes: vec![7],
                fail_first: 0,
                calls: calls.clone(),
            },
        )
        .with_parser(
            "m1".to_string(),
            TestParser {
                seen: seen.clone(),
                fail: true,
            },
        );
    resolver.add_task("m1", request("https://x", 3, 0)).unwrap();
    resolver.run(true).unwrap();
    let probe = task("m1", "https://x", 3, 0);
    assert_eq!(
        resolver.store().state_of(&probe),
        Some(TaskState::ParsingFailed)
    );
    assert_eq!(*calls.borrow(), 1);
    assert_eq!(seen.borrow().len(), 1);
}

#[test]
fn retry_then_succeed() {
    let calls = Rc::new(RefCell::new(0));
    let seen = Rc::new(RefCell::new(Vec::new()));
    let mut resolver = Resolver::new(MemResolverState::new())
        .unwrap()
        .with_link_resolver(
            "https".to_string(),
            TestDownloader {
                bytes: vec![0x01],
                fail_first: 2,
                calls: calls.clone(),
            },
        )
        .with_parser(
            "m1".to_string(),
            TestParser {
                seen: seen.clone(),
                fail: false,
            },
        );
    resolver.add_task("m1", request("https://x", 5, 0)).unwrap();
    resolver.run(true).unwrap();
    let probe = task("m1", "https://x", 5, 0);
    assert_eq!(resolver.store().state_of(&probe), Some(TaskState::Finished));
    assert_eq!(resolver.store().retries_of(&probe), Some(2));
    assert_eq!(*calls.borrow(), 3);
    assert_eq!(*seen.borrow(), vec![vec![0x01]]);
}

#[test]
fn retry_then_exhaust() {
    let calls = Rc::new(RefCell::new(0));
    let seen = Rc::new(RefCell::new(Vec::new()));
    let mut resolver = Resolver::new(MemResolverState::new())
        .unwrap()
        .with_link_resolver(
            "https".to_string(),
            TestDownloader {
                bytes: vec![1],
                fail_first: usize::MAX,
                calls: calls.clone(),
            },
        )
        .with_parser(
            "m1".to_string(),
            TestParser {
                seen: seen.clone(),
                fail: false,
            },
        );
    resolver.add_task("m1", request("https://x", 2, 0)).unwrap();
    resolver.run(true).unwrap();
    let probe = task("m1", "https://x", 2, 0);
    assert_eq!(
        resolver.store().state_of(&probe),
        Some(TaskState::DownloadFailed)
    );
    assert_eq!(resolver.store().retries_of(&probe), Some(2));
    assert_eq!(*calls.borrow(), 3);
    assert!(seen.borrow().is_empty());
}

#[test]
fn restart_recovery() {
    let mut store = MemResolverState::new();
    let t1 = task("m1", "https://x", 3, 0);
    let t2 = task("m1", "https://y", 3, 0);
    store.add_task(&t1).unwrap();
    store.add_task(&t2).unwrap();
    store.update_task_state(&t2, TaskState::Finished).unwrap();

    let calls = Rc::new(RefCell::new(0));
    let seen = Rc::new(RefCell::new(Vec::new()));
    let mut resolver = Resolver::new(store)
        .unwrap()
        .with_link_resolver(
            "https".to_string(),
            TestDownloader {
                bytes: vec![9],
                fail_first: 0,
                calls: calls.clone(),
            },
        )
        .with_parser(
            "m1".to_string(),
            TestParser {
                seen: seen.clone(),
                fail: false,
            },
        );
    assert_eq!(resolver.queue_len(), 1);
    resolver.run(true).unwrap();
    assert_eq!(*calls.borrow(), 1);
    assert_eq!(resolver.store().state_of(&t1), Some(TaskState::Finished));
    assert_eq!(resolver.store().state_of(&t2), Some(TaskState::Finished));
}

#[test]
fn reregistration_replaces() {
    let calls_first = Rc::new(RefCell::new(0));
    let calls_second = Rc::new(RefCell::new(0));
    let seen = Rc::new(RefCell::new(Vec::new()));
    let mut resolver = Resolver::new(MemResolverState::new())
        .unwrap()
        .with_link_resolver(
            "https".to_string(),
            TestDownloader {
                bytes: vec![1],
                fail_first: 0,
                calls: calls_first.clone(),
            },
        )
        .with_link_resolver(
            "https".to_string(),
            TestDownloader {
                bytes: vec![2],
                fail_first: 0,
                calls: calls_second.clone(),
            },
        )
        .with_parser(
            "m1".to_string(),
            TestParser {
                seen: seen.clone(),
                fail: false,
            },
        );
    resolver.add_task("m1", request("https://x", 0, 0)).unwrap();
    resolver.run(true).unwrap();
    assert_eq!(*calls_first.borrow(), 0);
    assert_eq!(*calls_second.borrow(), 1);
    assert_eq!(*seen.borrow(), vec![vec![2]]);
}

#[test]
fn update_task_state_is_idempotent() {
    let mut store = MemResolverState::new();
    let t = task("m1", "https://x", 3, 0);
    store.add_task(&t).unwrap();
    store.update_task_state(&t, TaskState::Finished).unwrap();
    let len_once = store.len();
    let state_once = store.state_of(&t);
    let retries_once = store.retries_of(&t);
    store.update_task_state(&t, TaskState::Finished).unwrap();
    assert_eq!(store.len(), len_once);
    assert_eq!(store.state_of(&t), state_once);
    assert_eq!(store.retries_of(&t), retries_once);
}

#[test]
fn update_retry_counter_is_idempotent() {
    let mut store = MemResolverState::new();
    let mut t = task("m1", "https://x", 3, 0);
    store.add_task(&t).unwrap();
    assert!(t.increment_try_counter());
    store.update_retry_counter(&t).unwrap();
    assert_eq!(store.retries_of(&t), Some(1));
    store.update_retry_counter(&t).unwrap();
    assert_eq!(store.retries_of(&t), Some(1));
    assert_eq!(store.state_of(&t), Some(TaskState::Queued));
    assert_eq!(store.len(), 1);
}

/// A persistence layer that only records what is driven through it.
struct RecordingBackend {
    log: Rc<RefCell<Vec<String>>>,
}

impl StoreBackend for RecordingBackend {
    fn load(&mut self) -> Result<Vec<StoreRow>, StoreError> {
        Ok(Vec::new())
    }

    fn persist_add(&mut self, task: &ResolveTask) -> Result<(), StoreError> {
        self.log.borrow_mut().push(format!("add {}", task.request.uri));
        Ok(())
    }

    fn persist_state(&mut self, task: &ResolveTask, state: TaskState) -> Result<(), StoreError> {
        self.log
            .borrow_mut()
            .push(format!("state {} {}", task.request.uri, state.code()));
        Ok(())
    }

    fn persist_retries(&mut self, task: &ResolveTask) -> Result<(), StoreError> {
        self.log
            .borrow_mut()
            .push(format!("retries {} {}", task.request.uri, task.num_retries));
        Ok(())
    }
}

#[test]
fn backed_store_writes_every_transition_through() {
    let log = Rc::new(RefCell::new(Vec::new()));
    let calls = Rc::new(RefCell::new(0));
    let seen = Rc::new(RefCell::new(Vec::new()));
    let mut backend = RecordingBackend { log: log.clone() };
    let loaded = backend.load().unwrap();
    let store = BackedResolverState::from_loaded(backend, loaded);
    let mut resolver = Resolver::new(store)
        .unwrap()
        .with_link_resolver(
            "https".to_string(),
            TestDownloader {
                bytes: vec![3],
                fail_first: 1,
                calls: calls.clone(),
            },
        )
        .with_parser(
            "m1".to_string(),
            TestParser {
                seen: seen.clone(),
                fail: false,
            },
        );
    resolver.add_task("m1", request("https://x", 2, 0)).unwrap();
    resolver.run(true).unwrap();
    // The new task is persisted first; the failed attempt persists the
    // counter before the still-queued state; the successful attempt ends in
    // exactly one terminal write.
    assert_eq!(
        *log.borrow(),
        vec![
            "add https://x".to_string(),
            "retries https://x 1".to_string(),
            "state https://x 0".to_string(),
            "state https://x 5".to_string(),
        ]
    );
    assert_eq!(*seen.borrow(), vec![vec![3]]);
    assert_eq!(*calls.borrow(), 2);
}

#[test]
fn store_keeps_rows_in_table_order() {
    let mut store = MemResolverState::new();
    let t1 = task("m1", "https://x", 3, 0);
    let t2 = task("m2", "https://y", 1, 0);
    store.add_task(&t1).unwrap();
    store.add_task(&t2).unwrap();
    assert_eq!(store.len(), 2);
    assert_eq!(store.row(0).task.manifest, "m1");
    assert_eq!(store.row(0).state, TaskState::Queued);
    assert_eq!(store.row(1).task.manifest, "m2");
    assert_eq!(store.row(1).task.request.max_retries, 1);
}

#[test]
fn load_tasks_yields_exactly_the_queued_rows() {
    let mut store = MemResolverState::new();
    let t1 = task("m1", "https://a", 3, 0);
    let t2 = task("m2", "https://b", 3, 0);
    let t3 = task("m3", "https://c", 3, 0);
    store.add_task(&t1).unwrap();
    store.add_task(&t2).unwrap();
    store.add_task(&t3).unwrap();
    store.update_task_state(&t2, TaskState::DownloadFailed).unwrap();
    let mut queue = store.load_tasks().unwrap();
    assert_eq!(queue.len(), 2);
    let first = queue.next().unwrap();
    assert_eq!(first.task.manifest, "m1");
    assert_eq!(first.delay, 0);
    let second = queue.next().unwrap();
    assert_eq!(second.task.manifest, "m3");
    assert_eq!(second.delay, 0);
    assert!(queue.next().is_none());
}

#[test]
fn backed_store_restart_from_loaded_rows() {
    let log = Rc::new(RefCell::new(Vec::new()));
    let calls = Rc::new(RefCell::new(0));
    let seen = Rc::new(RefCell::new(Vec::new()));
    let loaded = vec![
        StoreRow {
            task: task("m1", "https://x", 3, 0),
            state: TaskState::Queued,
        },
        StoreRow {
            task: task("m1", "https://y", 3, 0),
            state: TaskState::Finished,
        },
    ];
    let store = BackedResolverState::from_loaded(RecordingBackend { log: log.clone() }, loaded);
    let mut resolver = Resolver::new(store)
        .unwrap()
        .with_link_resolver(
            "https".to_string(),
            TestDownloader {
                bytes: vec![8],
                fail_first: 0,
                calls: calls.clone(),
            },
        )
        .with_parser(
            "m1".to_string(),
            TestParser {
                seen: seen.clone(),
                fail: false,
            },
        );
    assert_eq!(resolver.queue_len(), 1);
    resolver.run(true).unwrap();
    assert_eq!(*calls.borrow(), 1);
    assert_eq!(*log.borrow(), vec!["state https://x 5".to_string()]);
}
