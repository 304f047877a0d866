//! Backend selection for a load balancer: the pool of backends, the
//! selection strategies over it, and the bookkeeping of the dispatcher
//! and the health monitor.

pub mod backend;
pub mod client;
pub mod config;
pub mod error;
pub mod guarantees;
pub mod health;
pub mod load_balancer;
pub mod pool;
pub mod request_handler;

pub use backend::BackendServer;
pub use client::Client;
pub use config::{BackendConfig, Config, StrategyKind};
pub use error::AppError;
pub use health::HealthChecker;
pub use load_balancer::{
    LeastConnectionsLoadBalancer, LoadBalancer, RoundRobinLoadBalancer, WeightedRoundRobinLoadBalancer,
};
pub use pool::{BackendPool, PoolEntry};
pub use request_handler::RequestHandler;
