//! The simulation's tunable settings and their defaults.

use vstd::prelude::*;

verus! {

/// Simulation-level knobs (robot counts, UI framerate).
#[derive(Clone, Copy, Debug)]
pub struct SimulationConfig {
    /// Number of scout robots spawned at startup.
    pub num_scouts: usize,
    /// Number of collector robots spawned at startup.
    pub num_collectors: usize,
    /// UI redraw / event-poll interval in milliseconds.
    pub ui_poll_ms: u64,
}

/// Per-robot timing configuration.
#[derive(Clone, Copy, Debug)]
pub struct RobotsConfig {
    /// How often each scout moves and scans, in milliseconds.
    pub scout_tick_ms: u64,
    /// How often each collector acts, in milliseconds.
    pub collector_tick_ms: u64,
}

impl Default for SimulationConfig {
    fn default() -> (r: Self)
        ensures
            r.num_scouts == 10,
            r.num_collectors == 5,
            r.ui_poll_ms == 50,
    {
        SimulationConfig { num_scouts: 10, num_collectors: 5, ui_poll_ms: 50 }
    }
}

impl Default for RobotsConfig {
    fn default() -> (r: Self)
        ensures
            r.scout_tick_ms == 200,
            r.collector_tick_ms == 200,
    {
        RobotsConfig { scout_tick_ms: 200, collector_tick_ms: 200 }
    }
}

} // verus!
