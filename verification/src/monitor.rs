//! Handles of the monitoring tools that watch a cluster.

use vstd::prelude::*;

verus! {

/// Checks the health of a cluster. It holds no state of its own.
#[derive(Debug)]
pub struct HealthChecker {}

impl HealthChecker {
    /// A health checker.
    pub fn new() -> (checker: Self) {
        HealthChecker {  }
    }
}

/// Presents what the monitoring tools have gathered. It holds no state of its
/// own.
#[derive(Debug)]
pub struct MonitoringDashboard {}

impl MonitoringDashboard {
    /// A dashboard.
    pub fn new() -> (dashboard: Self) {
        MonitoringDashboard {  }
    }
}

} // verus!
