//! A pool of upstream AI API providers: configuration, provider state,
//! round-robin selection with failover, health bookkeeping and the
//! routing decisions of the proxy server.

pub mod text;

pub mod config;
pub mod providers;
pub mod load_balancer;
pub mod health_check;
pub mod server;
