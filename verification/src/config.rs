use vstd::prelude::*;

verus! {

/// Run-length and reporting settings.
#[derive(Debug, Clone, Copy, PartialEq, Eq)]
pub struct SimConfig {
    pub max_ticks: u64,
    /// Fixed seed → fully reproducible run. Remove from config for random behavior.
    pub random_seed: Option<u64>,
    /// Print a one-line status summary to stdout every this many ticks.
    pub print_every: u64,
}

/// Warehouse layout settings.
#[derive(Debug, Clone, Copy, PartialEq, Eq)]
pub struct WorldConfig {
    pub width: usize,
    pub height: usize,
    pub num_robots: usize,
    pub num_charging_stations: usize,
    pub num_shelf_locations: usize,
    /// Impassable wall tiles scattered across the grid
    pub num_obstacles: usize,
    /// Drop-off point where robots deliver completed orders
    pub dispatch_x: usize,
    pub dispatch_y: usize,
}

/// Debug output settings.
#[derive(Debug, Clone, Copy, PartialEq, Eq)]
pub struct DebugConfig {
    /// Master switch:  set to true to enable any debug output
    pub enabled: bool,
    /// Print the ASCII grid every N ticks (0 = never)
    pub grid_every: u64,
    /// Print the full robot/station status every N ticks (0 = never)
    pub status_every: u64,
    /// Automatically dump both views the first time a stuck robot is detected
    /// (a robot that is routing but A* found no path).
    pub dump_on_stuck: bool,
}

} // verus!
