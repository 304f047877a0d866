use vstd::prelude::*;
use crate::error::AppError;

verus! {

/// One backend as configured.
pub struct BackendConfig {
    pub address: String,
    pub port: u16,
    /// The weight for weighted round robin; one where absent.
    pub weight: Option<u32>,
}

/// The configuration: the strategy's name and the backends, in order.
pub struct Config {
    pub load_balancer: String,
    pub backend_servers: Vec<BackendConfig>,
}

/// The three selection strategies.
#[derive(PartialEq, Eq, Structural, Clone, Copy, Debug)]
pub enum StrategyKind {
    RoundRobin,
    WeightedRoundRobin,
    LeastConnections,
}

/// The strategy that a configured name stands for, if any.
pub open spec fn strategy_named(name: Seq<char>) -> Option<StrategyKind> {
    if name == "round_robin"@ {
        Some(StrategyKind::RoundRobin)
    } else if name == "weighted_round_robin"@ {
        Some(StrategyKind::WeightedRoundRobin)
    } else if name == "least_connections"@ {
        Some(StrategyKind::LeastConnections)
    } else {
        None
    }
}

/// The weight of a configured backend.
pub open spec fn weight_of(b: BackendConfig) -> u32 {
    match b.weight {
        Some(w) => w,
        None => 1,
    }
}

/// A configuration can start the balancer: it names a known strategy and
/// at least one backend.
pub open spec fn config_ok(c: Config) -> bool {
    &&& strategy_named(c.load_balancer@) is Some
    &&& c.backend_servers@.len() > 0
}

impl StrategyKind {
    /// The strategy named `name`; `ConfigError` for any other name.
    pub fn from_name(name: &str) -> (r: Result<StrategyKind, AppError>)
        ensures
            match strategy_named(name@) {
                Some(k) => r == Ok::<StrategyKind, AppError>(k),
                None => r matches Err(e) && e is ConfigError,
            },
    {
        let s = name.to_owned();
        if s == "round_robin".to_owned() {
            Ok(StrategyKind::RoundRobin)
        } else if s == "weighted_round_robin".to_owned() {
            Ok(StrategyKind::WeightedRoundRobin)
        } else if s == "least_connections".to_owned() {
            Ok(StrategyKind::LeastConnections)
        } else {
            Err(AppError::ConfigError("unknown load balancer strategy".to_owned()))
        }
    }
}

/// Accepts a configuration that names a known strategy and at least one
/// backend, and hands it back unchanged; `ConfigError` otherwise.
pub fn check_config(config: Config) -> (r: Result<Config, AppError>)
    ensures
        config_ok(config) ==> r == Ok::<Config, AppError>(config),
        !config_ok(config) ==> (r matches Err(e) && e is ConfigError),
{
    if config.backend_servers.len() == 0 {
        return Err(AppError::ConfigError("no backend servers specified".to_owned()));
    }
    match StrategyKind::from_name(config.load_balancer.as_str()) {
        Ok(_) => Ok(config),
        Err(e) => Err(e),
    }
}

} // verus!
