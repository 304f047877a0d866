use std::sync::Arc;

use balancer::{LoadBalancer, RoundRobinLoadBalancer, BackendServer};

#[test]
fn test_backend_creation() {
    let backend = BackendServer::new("127.0.0.1".to_string(), 8080);
    assert_eq!(backend.address(), "127.0.0.1");
    assert_eq!(backend.port(), 8080);
}

#[test]
fn test_round_robin_load_balancer() {
    let backends = vec![
        Arc::new(BackendServer::new("127.0.0.1".to_string(), 8080)),
        Arc::new(BackendServer::new("127.0.0.2".to_string(), 8081)),
    ];
    let mut lb = RoundRobinLoadBalancer::new(backends.clone()).unwrap();

    let backend1 = lb.select_backend().unwrap();
    assert_eq!(backend1.address(), "127.0.0.1");
    assert_eq!(backend1.port(), 8080);

    let backend2 = lb.select_backend().unwrap();
    assert_eq!(backend2.address(), "127.0.0.2");
    assert_eq!(backend2.port(), 8081);

    let backend1_again = lb.select_backend().unwrap();
    assert_eq!(backend1_again.address(), "127.0.0.1");
    assert_eq!(backend1_again.port(), 8080);
}

#[test]
fn backend_clone_keeps_address_and_port() {
    let backend = BackendServer::new("10.0.0.9".to_string(), 7000);
    let copy = backend.clone();
    assert_eq!(copy.address(), "10.0.0.9");
    assert_eq!(copy.port(), 7000);
}
