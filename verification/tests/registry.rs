use forge::registry::{clock_millis, WorkerClient, WorkerHealth, WorkerRegistry, DEFAULT_CONNECT_TIMEOUT_MS};

#[test]
fn dead_worker_is_not_healthy() {
    let registry = WorkerRegistry::new(vec!["127.0.0.1:1".to_string()]);
    assert!(registry.healthy_workers().is_empty());
}

#[test]
fn stale_worker_becomes_unhealthy() {
    let mut registry = WorkerRegistry::new(vec!["127.0.0.1:1".to_string()]).with_heartbeat_timeout(1);
    registry.record_probe("127.0.0.1:1", Some("worker".to_string()), clock_millis() - 1000);
    assert_eq!(registry.record("127.0.0.1:1").unwrap().health, WorkerHealth::Healthy);

    registry.refresh_health();
    assert!(registry.healthy_workers().is_empty());
}

#[test]
fn answered_probe_marks_worker_healthy_until_its_heartbeat_expires() {
    let mut registry = WorkerRegistry::new(vec!["10.0.0.2:9".to_string(), "10.0.0.1:9".to_string()]);
    assert_eq!(registry.worker_count(), 2);
    assert_eq!(registry.heartbeat_timeout(), 15000);
    assert_eq!(registry.addresses(), vec!["10.0.0.1:9".to_string(), "10.0.0.2:9".to_string()]);

    registry.record_probe("10.0.0.2:9", Some("w2".to_string()), 1_000);
    let record = registry.record("10.0.0.2:9").unwrap();
    assert_eq!(record.worker_id.as_deref(), Some("w2"));
    assert_eq!(record.last_seen, Some(1_000));

    let healthy = registry.healthy_workers_at(16_000);
    assert_eq!(healthy.len(), 1);
    assert_eq!(healthy[0].address(), "10.0.0.2:9");
    assert!(registry.healthy_workers_at(16_001).is_empty());

    registry.refresh_health_at(16_001);
    assert_eq!(registry.record("10.0.0.2:9").unwrap().health, WorkerHealth::Unhealthy);
}

#[test]
fn unanswered_probe_marks_worker_unhealthy() {
    let mut registry = WorkerRegistry::new(vec!["a:1".to_string()]);
    registry.record_probe("a:1", Some("w".to_string()), 5);
    registry.record_probe("a:1", None, 6);
    let record = registry.record("a:1").unwrap();
    assert_eq!(record.health, WorkerHealth::Unhealthy);
    assert_eq!(record.last_seen, Some(5));
    assert!(registry.healthy_workers_at(6).is_empty());
}

#[test]
fn marking_unhealthy_leaves_other_workers_alone() {
    let mut registry = WorkerRegistry::new(vec!["a:1".to_string(), "b:1".to_string()]);
    registry.record_probe("a:1", Some("wa".to_string()), 10);
    registry.record_probe("b:1", Some("wb".to_string()), 10);
    registry.mark_unhealthy("a:1");
    let healthy = registry.healthy_workers_at(10);
    assert_eq!(healthy.len(), 1);
    assert_eq!(healthy[0].address(), "b:1");
    assert!(registry.record("c:1").is_none());
}

#[test]
fn zero_heartbeat_timeout_becomes_one_millisecond() {
    let registry = WorkerRegistry::new(Vec::new()).with_heartbeat_timeout(0);
    assert_eq!(registry.heartbeat_timeout(), 1);
}

#[test]
fn record_health_needs_a_recent_heartbeat() {
    let mut registry = WorkerRegistry::new(vec!["a:1".to_string()]);
    registry.record_probe("a:1", Some("w".to_string()), 100);
    let record = registry.record("a:1").unwrap();
    assert!(record.is_healthy(150, 50));
    assert!(!record.is_healthy(151, 50));
    assert!(record.is_healthy(40, 50));
}

#[test]
fn clients_carry_their_address_and_timeout() {
    let client = WorkerClient::new("host:1".to_string());
    assert_eq!(client.address(), "host:1");
    assert_eq!(client.connect_timeout_ms(), DEFAULT_CONNECT_TIMEOUT_MS);
    let client = client.with_connect_timeout(250);
    assert_eq!(client.connect_timeout_ms(), 250);
}

#[test]
fn probes_go_to_every_worker_once_in_address_order() {
    let registry = WorkerRegistry::new(vec!["b:1".to_string(), "a:1".to_string(), "b:1".to_string()]);
    let targets: Vec<String> = registry.probe_targets().iter().map(|c| c.address().to_string()).collect();
    assert_eq!(targets, vec!["a:1".to_string(), "b:1".to_string()]);
}
