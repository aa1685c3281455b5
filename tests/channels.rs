use ztp::registry::ChannelRegistry;
use ztp::retry::{Attempts, RetryOutcome};
use ztp::ztp::{ZTPRequest, ZTPRequestCode};

fn pool() -> Vec<String> {
    vec!["127.0.0.1:5001".to_string(), "127.0.0.1:5002".to_string(), "127.0.0.1:5001".to_string()]
}

#[test]
fn allocate_hands_out_each_channel_once() {
    let mut reg = ChannelRegistry::new(&pool());
    let a = reg.allocate().unwrap();
    let b = reg.allocate().unwrap();
    assert_ne!(a, b);
    assert!(pool().contains(&a) && pool().contains(&b));
    assert_eq!(reg.allocate(), None);
    assert!(reg.release(&a));
    assert!(!reg.release(&a));
    assert_eq!(reg.allocate(), Some(a.clone()));
    assert_eq!(reg.allocate(), None);
}

#[test]
fn release_of_unknown_channel_is_refused() {
    let mut reg = ChannelRegistry::new(&pool());
    assert!(!reg.release(&"10.0.0.1:1".to_string()));
    assert!(!reg.release(&"127.0.0.1:5001".to_string()));
    assert!(reg.allocate().is_some());
}

#[test]
fn empty_pool_refuses_every_client() {
    let mut reg = ChannelRegistry::new(&Vec::new());
    assert_eq!(reg.allocate(), None);
}

#[test]
fn only_connection_requests_get_a_channel() {
    let mut reg = ChannelRegistry::new(&pool());
    let get = ZTPRequest::new(ZTPRequestCode::Get, Some("x".to_string())).encode_to_vec();
    assert_eq!(reg.resolve_conn_req(&get), None);
    assert_eq!(reg.resolve_conn_req(&[1, 2, 3, 4]), None);
    let conn = ZTPRequest::new(ZTPRequestCode::Conn, None).encode_to_vec();
    assert!(reg.resolve_conn_req(&conn).is_some());
    assert!(reg.resolve_conn_req(&conn).is_some());
    assert_eq!(reg.resolve_conn_req(&conn), None);
}

#[test]
fn attempts_run_out() {
    let mut a = Attempts::new(3);
    assert_eq!(a.record(false), RetryOutcome::TryAgain);
    assert_eq!(a.record(false), RetryOutcome::TryAgain);
    assert_eq!(a.record(false), RetryOutcome::GaveUp);
    let mut b = Attempts::new(2);
    assert_eq!(b.record(false), RetryOutcome::TryAgain);
    assert_eq!(b.record(true), RetryOutcome::Succeeded);
    assert_eq!(b.used, 1);
}
