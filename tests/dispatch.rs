use balancer::config::check_config;
use balancer::{AppError, BackendConfig, Config, HealthChecker, RequestHandler, StrategyKind};

fn config(name: &str, ports: &[u16]) -> Config {
    Config {
        load_balancer: name.to_string(),
        backend_servers: ports
            .iter()
            .map(|p| BackendConfig { address: "127.0.0.1".to_string(), port: *p, weight: None })
            .collect(),
    }
}

#[test]
fn strategy_names_are_recognised() {
    assert_eq!(StrategyKind::from_name("round_robin").unwrap(), StrategyKind::RoundRobin);
    assert_eq!(
        StrategyKind::from_name("weighted_round_robin").unwrap(),
        StrategyKind::WeightedRoundRobin
    );
    assert_eq!(StrategyKind::from_name("least_connections").unwrap(), StrategyKind::LeastConnections);
    assert!(matches!(StrategyKind::from_name("random"), Err(AppError::ConfigError(_))));
}

#[test]
fn handler_refuses_bad_configuration() {
    assert!(matches!(RequestHandler::new(&config("round_robin", &[])), Err(AppError::ConfigError(_))));
    assert!(matches!(RequestHandler::new(&config("fastest", &[80])), Err(AppError::ConfigError(_))));
    assert!(matches!(check_config(config("round_robin", &[])), Err(AppError::ConfigError(_))));
    assert!(matches!(check_config(config("fastest", &[80])), Err(AppError::ConfigError(_))));
    let ok = check_config(config("least_connections", &[80, 81])).unwrap();
    assert_eq!(ok.backend_servers.len(), 2);
    assert_eq!(ok.backend_servers[1].port, 81);
}

#[test]
fn handler_uses_configured_weights() {
    let mut c = config("weighted_round_robin", &[80, 81]);
    c.backend_servers[0].weight = Some(2);
    let mut h = RequestHandler::new(&c).unwrap();
    assert_eq!(h.strategy(), StrategyKind::WeightedRoundRobin);
    let mut picks = Vec::new();
    for _ in 0..6 {
        let i = h.begin_request().unwrap();
        picks.push(h.backend(i).port());
        h.end_request(i);
    }
    assert_eq!(picks, vec![80, 80, 81, 80, 80, 81]);
}

#[test]
fn failed_forward_releases_the_counter() {
    let mut h = RequestHandler::new(&config("least_connections", &[80, 81])).unwrap();
    let before: Vec<usize> = h.pool().snapshot().iter().map(|e| e.active_connections).collect();
    let i = h.begin_request().unwrap();
    assert_eq!(i, 0);
    assert_eq!(h.pool().snapshot()[0].active_connections, 1);
    let j = h.begin_request().unwrap();
    assert_eq!(j, 1);
    // the forward of the first request fails; its counter is released all the same
    h.end_request(i);
    h.end_request(j);
    let after: Vec<usize> = h.pool().snapshot().iter().map(|e| e.active_connections).collect();
    assert_eq!(before, after);
}

#[test]
fn health_probes_drive_liveness() {
    let mut h = RequestHandler::new(&config("round_robin", &[80, 81])).unwrap();
    h.record_probe(0, false);
    for _ in 0..3 {
        let i = h.begin_request().unwrap();
        assert_eq!(h.backend(i).port(), 81);
        h.end_request(i);
    }
    h.record_probe(1, false);
    assert!(matches!(h.begin_request(), Err(AppError::NoBackendAvailable)));
    h.record_probe(0, true);
    assert_eq!(h.begin_request().unwrap(), 0);
}

#[test]
fn health_checker_records_into_pool() {
    let h = RequestHandler::new(&config("round_robin", &[80])).unwrap();
    let mut pool = balancer::BackendPool::new(vec![(h.backend(0), 4)]).unwrap();
    HealthChecker::record(&mut pool, 0, false);
    assert!(!pool.snapshot()[0].alive);
    HealthChecker::record(&mut pool, 0, true);
    assert!(pool.snapshot()[0].alive);
    assert_eq!(pool.snapshot()[0].weight, 4);
}

#[test]
fn handler_refuses_duplicate_backends() {
    assert!(matches!(
        RequestHandler::new(&config("round_robin", &[80, 81, 80])),
        Err(AppError::ConfigError(_))
    ));
}
