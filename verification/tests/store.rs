use forge::store::{JobRecord, JobStore, StoreError};

#[test]
fn records_survive_a_round_trip() {
    let mut store = JobStore::new();
    store.upsert(JobRecord { job_id: 7, status: "succeeded".into() });
    let reread = JobStore::parse(&store.render()).unwrap();
    assert_eq!(reread.get(7).unwrap().status, "succeeded");
}

#[test]
fn upsert_replaces_the_record_of_the_same_job() {
    let mut store = JobStore::new();
    store.upsert(JobRecord { job_id: 7, status: "running".into() });
    store.upsert(JobRecord { job_id: 8, status: "queued".into() });
    store.upsert(JobRecord { job_id: 7, status: "failed".into() });
    assert_eq!(store.len(), 2);
    assert_eq!(store.get(7).unwrap().status, "failed");
    assert!(store.get(9).is_none());
    assert_eq!(store.render(), b"7\tfailed\n8\tqueued\n".to_vec());
}

#[test]
fn malformed_lines_are_skipped_and_later_lines_win() {
    let store = JobStore::parse(b"7\tqueued\nnot-a-number\tx\nno tab\n7\tdone\r\n+8\tok").unwrap();
    assert_eq!(store.len(), 2);
    assert_eq!(store.get(7).unwrap().status, "done");
    assert_eq!(store.get(8).unwrap().status, "ok");
}

#[test]
fn store_with_invalid_utf8_is_refused() {
    assert_eq!(JobStore::parse(b"1\t\xff\n").unwrap_err(), StoreError::InvalidUtf8);
}
