use std::sync::Arc;

use balancer::{
    AppError, BackendPool, BackendServer, LeastConnectionsLoadBalancer, LoadBalancer,
    RoundRobinLoadBalancer, WeightedRoundRobinLoadBalancer,
};

fn server(port: u16) -> Arc<BackendServer> {
    Arc::new(BackendServer::new("10.0.0.1".to_string(), port))
}

fn ports(n: u16) -> Vec<Arc<BackendServer>> {
    (0..n).map(|i| server(9000 + i)).collect()
}

#[test]
fn round_robin_counts_are_floor_or_ceil() {
    let mut lb = RoundRobinLoadBalancer::new(ports(3)).unwrap();
    let mut counts = [0usize; 3];
    let mut order = Vec::new();
    for _ in 0..7 {
        let b = lb.select_backend().unwrap();
        let i = (b.port() - 9000) as usize;
        counts[i] += 1;
        order.push(i);
    }
    assert_eq!(counts, [3, 2, 2]);
    assert_eq!(&order[..3], &[0, 1, 2]);
}

#[test]
fn round_robin_skips_dead_backends() {
    let mut lb = RoundRobinLoadBalancer::new(ports(3)).unwrap();
    lb.pool.mark_alive(0, false);
    let picks: Vec<u16> = (0..4).map(|_| lb.select_backend().unwrap().port()).collect();
    assert_eq!(picks, vec![9001, 9001, 9002, 9001]);
}

#[test]
fn round_robin_cursor_values_are_distinct() {
    let mut pool = BackendPool::new(ports(5).into_iter().map(|b| (b, 1)).collect()).unwrap();
    let values: Vec<usize> = (0..4).map(|_| pool.next_cursor()).collect();
    assert_eq!(values, vec![0, 1, 2, 3]);
    assert_eq!(pool.next_cursor(), 4);
    assert_eq!(pool.next_cursor(), 0);
}

#[test]
fn weighted_window_holds_each_weight() {
    let backends = vec![(server(1), 3), (server(2), 1)];
    let mut lb = WeightedRoundRobinLoadBalancer::new(backends).unwrap();
    let picks: Vec<u16> = (0..12).map(|_| lb.select_backend().unwrap().port()).collect();
    for start in 0..=8 {
        let window = &picks[start..start + 4];
        assert_eq!(window.iter().filter(|p| **p == 1).count(), 3);
        assert_eq!(window.iter().filter(|p| **p == 2).count(), 1);
    }
    assert_eq!(&picks[..4], &[1, 1, 1, 2]);
}

#[test]
fn weighted_skips_zero_weight_and_dead() {
    let backends = vec![(server(1), 0), (server(2), 2), (server(3), 1)];
    let mut lb = WeightedRoundRobinLoadBalancer::new(backends).unwrap();
    let picks: Vec<u16> = (0..6).map(|_| lb.select_backend().unwrap().port()).collect();
    assert_eq!(picks, vec![2, 2, 3, 2, 2, 3]);
    lb.pool.mark_alive(1, false);
    let picks: Vec<u16> = (0..3).map(|_| lb.select_backend().unwrap().port()).collect();
    assert_eq!(picks, vec![3, 3, 3]);
}

#[test]
fn weighted_with_all_weights_zero_still_serves_alive_backends() {
    let mut lb = WeightedRoundRobinLoadBalancer::new(vec![(server(1), 0)]).unwrap();
    assert_eq!(lb.select_backend().unwrap().port(), 1);
    lb.pool.mark_alive(0, false);
    assert!(matches!(lb.select_backend(), Err(AppError::NoBackendAvailable)));
}

#[test]
fn weighted_falls_back_to_zero_weight_when_weighted_ones_are_down() {
    let backends = vec![(server(1), 2), (server(2), 0), (server(3), 1)];
    let mut lb = WeightedRoundRobinLoadBalancer::new(backends).unwrap();
    lb.pool.mark_alive(0, false);
    let picks: Vec<u16> = (0..3).map(|_| lb.select_backend().unwrap().port()).collect();
    assert_eq!(picks, vec![3, 3, 3]);
    lb.pool.mark_alive(2, false);
    let picks: Vec<u16> = (0..3).map(|_| lb.select_backend().unwrap().port()).collect();
    assert_eq!(picks, vec![2, 2, 2]);
}

#[test]
fn least_connections_picks_least_loaded() {
    let backends = vec![(server(1), 2), (server(2), 0), (server(3), 1)];
    let mut lb = LeastConnectionsLoadBalancer::new(backends).unwrap();
    let b = lb.select_backend().unwrap();
    assert_eq!(b.port(), 2);
    assert_eq!(lb.pool.snapshot()[1].active_connections, 1);
    lb.pool.decrement_connections(1);
    assert_eq!(lb.pool.snapshot()[1].active_connections, 0);
}

#[test]
fn least_connections_breaks_ties_in_order() {
    let backends = vec![(server(1), 1), (server(2), 0), (server(3), 0)];
    let mut lb = LeastConnectionsLoadBalancer::new(backends).unwrap();
    assert_eq!(lb.select_backend().unwrap().port(), 2);
    assert_eq!(lb.select_backend().unwrap().port(), 3);
    assert_eq!(lb.select_backend().unwrap().port(), 1);
    let counts: Vec<usize> = lb.pool.snapshot().iter().map(|e| e.active_connections).collect();
    assert_eq!(counts, vec![2, 1, 1]);
}

#[test]
fn dead_backend_is_never_returned() {
    let mut rr = RoundRobinLoadBalancer::new(ports(3)).unwrap();
    let mut wrr =
        WeightedRoundRobinLoadBalancer::new(ports(3).into_iter().map(|b| (b, 2)).collect()).unwrap();
    let mut lc =
        LeastConnectionsLoadBalancer::new(ports(3).into_iter().map(|b| (b, 0)).collect()).unwrap();
    rr.pool.mark_alive(1, false);
    wrr.pool.mark_alive(1, false);
    lc.pool.mark_alive(1, false);
    for _ in 0..10 {
        assert_ne!(rr.select_backend().unwrap().port(), 9001);
        assert_ne!(wrr.select_backend().unwrap().port(), 9001);
        assert_ne!(lc.select_backend().unwrap().port(), 9001);
    }
}

#[test]
fn all_dead_fails_for_every_strategy() {
    let mut rr = RoundRobinLoadBalancer::new(ports(2)).unwrap();
    let mut wrr =
        WeightedRoundRobinLoadBalancer::new(ports(2).into_iter().map(|b| (b, 1)).collect()).unwrap();
    let mut lc =
        LeastConnectionsLoadBalancer::new(ports(2).into_iter().map(|b| (b, 0)).collect()).unwrap();
    for i in 0..2 {
        rr.pool.mark_alive(i, false);
        wrr.pool.mark_alive(i, false);
        lc.pool.mark_alive(i, false);
    }
    assert!(matches!(rr.select_backend(), Err(AppError::NoBackendAvailable)));
    assert!(matches!(wrr.select_backend(), Err(AppError::NoBackendAvailable)));
    assert!(matches!(lc.select_backend(), Err(AppError::NoBackendAvailable)));
}

#[test]
fn empty_backend_lists_are_refused() {
    assert!(matches!(BackendPool::new(Vec::new()), Err(AppError::ConfigError(_))));
    assert!(matches!(RoundRobinLoadBalancer::new(Vec::new()), Err(AppError::ConfigError(_))));
    assert!(matches!(WeightedRoundRobinLoadBalancer::new(Vec::new()), Err(AppError::ConfigError(_))));
    assert!(matches!(LeastConnectionsLoadBalancer::new(Vec::new()), Err(AppError::ConfigError(_))));
}

#[test]
fn counters_saturate_and_ignore_absent_ids() {
    let mut pool = BackendPool::new(vec![(server(1), 1)]).unwrap();
    pool.decrement_connections(0);
    assert_eq!(pool.snapshot()[0].active_connections, 0);
    pool.increment_connections(5);
    pool.decrement_connections(5);
    pool.mark_alive(5, false);
    let snap = pool.snapshot();
    assert_eq!(snap.len(), 1);
    assert!(snap[0].alive);
    assert_eq!(pool.len(), 1);
    assert_eq!(pool.backend_at(0).port(), 1);
}

#[test]
fn duplicate_backends_are_refused() {
    let twice = vec![(server(1), 1), (server(2), 1), (server(1), 3)];
    assert!(matches!(BackendPool::new(twice), Err(AppError::ConfigError(_))));
    assert!(matches!(
        RoundRobinLoadBalancer::new(vec![server(5), server(5)]),
        Err(AppError::ConfigError(_))
    ));
    let other_address = Arc::new(BackendServer::new("10.0.0.2".to_string(), 1));
    assert!(BackendPool::new(vec![(server(1), 1), (other_address, 1)]).is_ok());
}

#[test]
fn least_connections_equal_counters_visit_each_once() {
    let backends = vec![(server(1), 0), (server(2), 0), (server(3), 0)];
    let mut lb = LeastConnectionsLoadBalancer::new(backends).unwrap();
    let picks: Vec<u16> = (0..3).map(|_| lb.select_backend().unwrap().port()).collect();
    assert_eq!(picks, vec![1, 2, 3]);
    let counts: Vec<usize> = lb.pool.snapshot().iter().map(|e| e.active_connections).collect();
    assert_eq!(counts, vec![1, 1, 1]);
}
