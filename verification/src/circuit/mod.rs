//! Circuit Management Module
//!
//! Circuit management for the routing layer:
//! - Circuit pool management with pre-built ready circuits
//! - Health monitoring with EWMA-based latency tracking
//! - Automatic circuit rotation (time-based, usage-based, health-based)
//!
//! After Tor's circuit management practice:
//! - Exponentially Weighted Moving Average (EWMA) for latency measurement
//! - Circuit pre-building to reduce connection latency
//! - Periodic rotation to limit exposure
//! - Health scoring for circuit quality assessment

pub mod health;
pub mod manager;
pub mod pool;
pub mod rotation;
pub mod supply;

pub use health::{
    CircuitHealthMonitor, FailureType, HealthMonitorConfig, HealthStatistics, HealthStatus,
};
pub use manager::{
    CircuitHandle, CircuitManager, CircuitManagerConfig, CircuitManagerEvent,
    CircuitManagerStatistics,
};
pub use pool::{
    CircuitBuilder, CircuitId, CircuitPool, CircuitPoolConfig, PoolCircuit, PoolCircuitState,
    PoolError, PoolEvent, PoolStatistics, RetireReason,
};
pub use rotation::{RotationEvent, RotationPolicy, RotationStatistics, RotationTrigger};

use crate::time::{Duration, Instant};
use vstd::prelude::*;

verus! {

/// Builder for constructing a circuit manager with all components
#[derive(Debug, Clone, Copy, PartialEq, Eq, Structural)]
pub struct CircuitManagerBuilder {
    /// The configuration so far.
    pub config: CircuitManagerConfig,
}

impl CircuitManagerBuilder {
    /// Create a new builder with default configuration
    pub fn new() -> (r: CircuitManagerBuilder)
        ensures
            r.config == manager::default_manager_config(),
    {
        CircuitManagerBuilder { config: CircuitManagerConfig::default() }
    }

    /// Create a new builder with custom configuration
    pub fn with_config(config: CircuitManagerConfig) -> (r: CircuitManagerBuilder)
        ensures
            r.config == config,
    {
        CircuitManagerBuilder { config }
    }

    /// Set the pool configuration
    pub fn pool_config(self, config: CircuitPoolConfig) -> (r: CircuitManagerBuilder)
        ensures
            r.config == (CircuitManagerConfig { pool_config: config, ..self.config }),
    {
        let mut r = self;
        r.config.pool_config = config;
        r
    }

    /// Set the health monitor configuration
    pub fn health_config(self, config: HealthMonitorConfig) -> (r: CircuitManagerBuilder)
        ensures
            r.config == (CircuitManagerConfig { health_config: config, ..self.config }),
    {
        let mut r = self;
        r.config.health_config = config;
        r
    }

    /// Set the rotation policy
    pub fn rotation_policy(self, policy: RotationPolicy) -> (r: CircuitManagerBuilder)
        ensures
            r.config == (CircuitManagerConfig { rotation_policy: policy, ..self.config }),
    {
        let mut r = self;
        r.config.rotation_policy = policy;
        r
    }

    /// Set maximum concurrent circuits
    pub fn max_concurrent(self, max: usize) -> (r: CircuitManagerBuilder)
        ensures
            r.config == (CircuitManagerConfig { max_concurrent_circuits: max, ..self.config }),
    {
        let mut r = self;
        r.config.max_concurrent_circuits = max;
        r
    }

    /// Set circuit timeout
    pub fn circuit_timeout(self, timeout: Duration) -> (r: CircuitManagerBuilder)
        ensures
            r.config == (CircuitManagerConfig { circuit_timeout: timeout, ..self.config }),
    {
        let mut r = self;
        r.config.circuit_timeout = timeout;
        r
    }

    /// Disable automatic rotation
    pub fn disable_rotation(self) -> (r: CircuitManagerBuilder)
        ensures
            r.config == (CircuitManagerConfig { enable_rotation: false, ..self.config }),
    {
        let mut r = self;
        r.config.enable_rotation = false;
        r
    }

    /// Disable health monitoring
    pub fn disable_health_monitoring(self) -> (r: CircuitManagerBuilder)
        ensures
            r.config == (CircuitManagerConfig { enable_health_monitoring: false, ..self.config }),
    {
        let mut r = self;
        r.config.enable_health_monitoring = false;
        r
    }

    /// Disable pool management
    pub fn disable_pool_management(self) -> (r: CircuitManagerBuilder)
        ensures
            r.config == (CircuitManagerConfig { enable_pool_management: false, ..self.config }),
    {
        let mut r = self;
        r.config.enable_pool_management = false;
        r
    }

    /// Build the circuit manager
    pub fn build(self, now: Instant) -> (r: CircuitManager)
        ensures
            r.wf(),
            r.is_new(self.config, now),
    {
        CircuitManager::new(self.config, now)
    }
}

/// Convenience function to create a circuit manager with default settings
pub fn create_circuit_manager(now: Instant) -> (r: CircuitManager)
    ensures
        r.wf(),
        r.is_new(manager::default_manager_config(), now),
{
    CircuitManagerBuilder::new().build(now)
}

/// Convenience function to create a circuit manager with custom pool size
pub fn create_circuit_manager_with_pool(
    min_pool_size: usize,
    max_pool_size: usize,
    now: Instant,
) -> (r: CircuitManager)
    ensures
        r.wf(),
        r.is_new(
            (CircuitManagerConfig {
                pool_config: (CircuitPoolConfig {
                    min_pool_size,
                    max_pool_size,
                    pre_build_count: min_pool_size,
                    ..pool::default_pool_config()
                }),
                ..manager::default_manager_config()
            }),
            now,
        ),
{
    let mut pool_config = CircuitPoolConfig::default();
    pool_config.min_pool_size = min_pool_size;
    pool_config.max_pool_size = max_pool_size;
    pool_config.pre_build_count = min_pool_size;
    CircuitManagerBuilder::new().pool_config(pool_config).build(now)
}

} // verus!
