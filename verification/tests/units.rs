//! Unit tests for the task model, the delay queue, scheme extraction, the
//! SQL operation builder and the stream cursor types.

use offchain::operation::{Operation, OperationType, SqlType};
use offchain::queue::DelayQueue;
use offchain::sink::{BlockRef, Cursor};
use offchain::task::{OffchainData, ResolveTask, TaskState};
use offchain::uri::uri_scheme;

fn task(manifest: &str, uri: &str, max_retries: u32) -> ResolveTask {
    ResolveTask {
        manifest: manifest.to_string(),
        request: OffchainData {
            uri: uri.to_string(),
            max_retries,
            wait_before_retry: 0,
        },
        num_retries: 0,
    }
}

#[test]
fn state_codes_round_trip() {
    let states = [
        (TaskState::Queued, 0),
        (TaskState::UnknownURI, 1),
        (TaskState::UnknownParser, 2),
        (TaskState::DownloadFailed, 3),
        (TaskState::ParsingFailed, 4),
        (TaskState::Finished, 5),
    ];
    for (state, code) in states {
        assert_eq!(state.code(), code);
        assert_eq!(TaskState::from_code(code), Some(state));
    }
    assert_eq!(TaskState::from_code(6), None);
    assert_eq!(TaskState::from_code(-1), None);
}

#[test]
fn only_queued_is_not_terminal() {
    assert!(!TaskState::Queued.is_terminal());
    assert!(TaskState::UnknownURI.is_terminal());
    assert!(TaskState::UnknownParser.is_terminal());
    assert!(TaskState::DownloadFailed.is_terminal());
    assert!(TaskState::ParsingFailed.is_terminal());
    assert!(TaskState::Finished.is_terminal());
}

#[test]
fn increment_try_counter_respects_budget() {
    let mut t = task("m", "https://x", 2);
    assert!(t.increment_try_counter());
    assert_eq!(t.num_retries, 1);
    assert!(t.increment_try_counter());
    assert_eq!(t.num_retries, 2);
    assert!(!t.increment_try_counter());
    assert_eq!(t.num_retries, 2);
}

#[test]
fn increment_try_counter_zero_budget() {
    let mut t = task("m", "https://x", 0);
    assert!(!t.increment_try_counter());
    assert_eq!(t.num_retries, 0);
}

#[test]
fn delay_queue_yields_least_delay_first() {
    let mut q = DelayQueue::new();
    q.insert(task("a", "https://a", 0), 5);
    q.insert(task("b", "https://b", 0), 0);
    q.insert(task("c", "https://c", 0), 3);
    assert_eq!(q.len(), 3);
    assert!(!q.is_empty());
    let e1 = q.next().unwrap();
    assert_eq!(e1.delay, 0);
    assert_eq!(e1.task.manifest, "b");
    let e2 = q.next().unwrap();
    assert_eq!(e2.delay, 3);
    let e3 = q.next().unwrap();
    assert_eq!(e3.delay, 5);
    assert!(q.next().is_none());
    assert!(q.is_empty());
}

#[test]
fn delay_queue_breaks_ties_by_insertion_order() {
    let mut q = DelayQueue::new();
    q.insert(task("first", "https://a", 0), 1);
    q.insert(task("second", "https://b", 0), 1);
    assert_eq!(q.next().unwrap().task.manifest, "first");
    assert_eq!(q.next().unwrap().task.manifest, "second");
}

#[test]
fn uri_scheme_accepts_wellformed_schemes() {
    assert_eq!(uri_scheme("https://x").as_deref(), Some("https"));
    assert_eq!(uri_scheme("ipfs://cid").as_deref(), Some("ipfs"));
    assert_eq!(uri_scheme("a+b-c.d:rest").as_deref(), Some("a+b-c.d"));
    assert_eq!(uri_scheme("X:").as_deref(), Some("X"));
}

#[test]
fn uri_scheme_rejects_malformed_uris() {
    assert_eq!(uri_scheme(""), None);
    assert_eq!(uri_scheme("nocolon"), None);
    assert_eq!(uri_scheme(":missing"), None);
    assert_eq!(uri_scheme("1http://x"), None);
    assert_eq!(uri_scheme("ht tp://x"), None);
}

#[test]
fn build_query_delete() {
    let op = Operation::new(
        "s".to_string(),
        "t".to_string(),
        "id".to_string(),
        OperationType::Delete,
        SqlType::new("7".to_string()),
        Vec::new(),
    );
    assert_eq!(op.build_query(), "DELETE FROM s.t WHERE id = 7");
}

#[test]
fn build_query_insert() {
    let op = Operation::new(
        "s".to_string(),
        "t".to_string(),
        "id".to_string(),
        OperationType::Insert,
        SqlType::new("7".to_string()),
        vec![
            ("a".to_string(), SqlType::new("1".to_string())),
            ("b".to_string(), SqlType::new("'x'".to_string())),
        ],
    );
    assert_eq!(op.build_query(), "INSERT INTO s.t (a,b) VALUES (1,'x')");
}

#[test]
fn build_query_update() {
    let op = Operation::new(
        "s".to_string(),
        "t".to_string(),
        "id".to_string(),
        OperationType::Update,
        SqlType::new("7".to_string()),
        vec![
            ("a".to_string(), SqlType::new("1".to_string())),
            ("b".to_string(), SqlType::new("'x'".to_string())),
        ],
    );
    assert_eq!(op.build_query(), "UPDATE s.t SET a=1,b='x' WHERE id=7");
}

#[test]
fn build_query_single_column() {
    let op = Operation::new(
        "public".to_string(),
        "rows".to_string(),
        "pk".to_string(),
        OperationType::Insert,
        SqlType::new("0".to_string()),
        vec![("only".to_string(), SqlType::new("42".to_string()))],
    );
    assert_eq!(
        op.build_query(),
        "INSERT INTO public.rows (only) VALUES (42)"
    );
}

#[test]
fn sql_type_to_string() {
    let v = SqlType::new("'hello'".to_string());
    assert_eq!(v.to_string(), "'hello'");
}

#[test]
fn blank_cursor() {
    let c = Cursor::new_blank_cursor();
    assert!(c.is_blank());
    assert_eq!(c.to_string(), "");
    assert_eq!(c.block.num, 0);
    assert_eq!(c.block.id, "");
}

#[test]
fn cursor_equality_ignores_block() {
    let a = Cursor::new("pos".to_string(), BlockRef::new("h1".to_string(), 5));
    let b = Cursor::new("pos".to_string(), BlockRef::new("h2".to_string(), 9));
    let c = Cursor::new("other".to_string(), BlockRef::new("h1".to_string(), 5));
    assert!(a.is_equal_to(&b));
    assert!(!a.is_equal_to(&c));
    assert!(!a.is_blank());
    assert_eq!(a.to_string(), "pos");
}
