use forge::cache::{cache_key, sha256_hex, CacheStore};
use forge::cached::{CacheLookup, CachedDistributedExecutor};
use forge::graph::{TaskGraph, TaskState};
use forge::store::StoreError;

#[test]
fn cache_key_changes_when_command_changes() {
    assert_ne!(cache_key("echo one", None), cache_key("echo two", None));
}

#[test]
fn cache_key_changes_when_timeout_changes() {
    assert_ne!(cache_key("echo one", Some(100)), cache_key("echo one", Some(200)));
}

#[test]
fn sha256_hex_matches_the_standard_digest() {
    assert_eq!(sha256_hex(b"abc"), "ba7816bf8f01cfea414140de5dae2223b00361a396177a9cb410ff61f20015ad");
    assert_eq!(sha256_hex(b""), "e3b0c44298fc1c149afbf4c8996fb92427ae41e4649b934ca495991b7852b855");
}

#[test]
fn cache_key_hashes_version_timeout_and_command() {
    assert_eq!(cache_key("echo one", None), format!("task-v1:{}", sha256_hex(b"v1\n0\necho one")));
    assert_eq!(cache_key("echo one", Some(250)), format!("task-v1:{}", sha256_hex(b"v1\n250\necho one")));
    assert_eq!(cache_key("echo one", Some(0)), cache_key("echo one", None));
    assert_eq!(cache_key("echo one", None).len(), 8 + 64);
}

#[test]
fn index_keeps_one_entry_per_key() {
    let mut index = CacheStore::new();
    index.insert("k1".to_string(), "h1".to_string());
    index.insert("k2".to_string(), "h2".to_string());
    index.insert("k1".to_string(), "h3".to_string());
    assert_eq!(index.len(), 2);
    assert_eq!(index.lookup("k1").unwrap().artifact_hash, "h3");
    assert!(index.lookup("k3").is_none());
    assert_eq!(index.render(), b"k1\th3\nk2\th2\n".to_vec());
}

#[test]
fn index_survives_a_round_trip() {
    let mut index = CacheStore::new();
    index.insert("task-v1:aa".to_string(), "0123".to_string());
    index.insert("task-v1:bb".to_string(), "4567".to_string());
    let reread = CacheStore::parse(&index.render()).unwrap();
    assert_eq!(reread.len(), 2);
    assert_eq!(reread.lookup("task-v1:bb").unwrap().artifact_hash, "4567");
}

#[test]
fn index_lines_without_tab_are_skipped_and_later_lines_win() {
    let index = CacheStore::parse(b"junk\nk\told\r\nk\tnew\n\nlast\tx").unwrap();
    assert_eq!(index.len(), 2);
    assert_eq!(index.lookup("k").unwrap().artifact_hash, "new");
    assert_eq!(index.lookup("last").unwrap().artifact_hash, "x");
}

#[test]
fn index_with_invalid_utf8_is_refused() {
    assert_eq!(CacheStore::parse(b"k\t\xff\n").unwrap_err(), StoreError::InvalidUtf8);
}

#[test]
fn cached_tasks_skip_the_workers() {
    let mut index = CacheStore::new();
    let key = cache_key("echo cache-me", None);
    index.insert(key.clone(), sha256_hex(b"echo cache-me"));
    let executor = CachedDistributedExecutor::new(vec!["127.0.0.1:1".to_string()], "root".to_string(), index);
    assert_eq!(executor.root(), "root");

    let mut graph = TaskGraph::default();
    graph.add_task(1, "echo cache-me".to_string(), Vec::new()).unwrap();
    graph.add_task(2, "echo other".to_string(), Vec::new()).unwrap();
    let pending = graph.pending();
    let lookups = executor.lookups(&graph, &pending);
    assert_eq!(
        lookups,
        vec![
            CacheLookup { task_id: 1, key, artifact_hash: Some(sha256_hex(b"echo cache-me")) },
            CacheLookup { task_id: 2, key: cache_key("echo other", None), artifact_hash: None },
        ]
    );

    let cached = CachedDistributedExecutor::mark_cached(&mut graph, &vec![1, 9]);
    assert_eq!(cached, vec![1]);
    assert_eq!(graph.task(1).unwrap().state, TaskState::Succeeded);
    assert_eq!(graph.pending(), vec![2]);
}

#[test]
fn tasks_that_ran_are_written_to_the_cache() {
    let executor =
        CachedDistributedExecutor::new(vec!["w:1".to_string()], "root".to_string(), CacheStore::new()).with_task_timeout(100);
    let mut graph = TaskGraph::default();
    graph.add_task(1, "echo cached".to_string(), Vec::new()).unwrap();
    graph.add_task(2, "echo ran".to_string(), Vec::new()).unwrap();
    graph.add_task(3, "echo failed".to_string(), Vec::new()).unwrap();
    let pending = graph.pending();
    graph.set_state(1, TaskState::Succeeded);
    graph.set_state(2, TaskState::Succeeded);
    graph.set_state(3, TaskState::Failed);
    let writes = executor.cache_writes(&graph, &pending, &vec![1]);
    assert_eq!(writes.len(), 1);
    assert_eq!(writes[0].task_id, 2);
    assert_eq!(writes[0].key, cache_key("echo ran", Some(100)));
    assert_eq!(writes[0].content, b"echo ran".to_vec());

    let mut executor = executor;
    executor.record_artifact(writes[0].key.clone(), sha256_hex(&writes[0].content));
    assert_eq!(executor.cache().len(), 1);
}

#[test]
fn completed_tasks_are_merged_in_order_without_repeats() {
    assert_eq!(CachedDistributedExecutor::merge_completed(&vec![5, 1], &vec![3, 1, 2]), vec![1, 2, 3, 5]);
    assert!(CachedDistributedExecutor::merge_completed(&Vec::new(), &Vec::new()).is_empty());
}
