//! Settings.

use vstd::prelude::*;

use crate::fixed::MMR_POINT;

verus! {

/// All settings of the matchmaker.
#[derive(Debug, Clone, Copy)]
pub struct Config {
    /// How many workers look for matches at the same time.
    pub num_workers: usize,
    /// How long a worker that found no match sleeps, in milliseconds.
    pub idle_sleep_ms: u64,
    /// The rating tolerance of a player who has just joined, in rating units.
    pub base_mmr_range: u64,
    /// By how much the tolerance grows each second, in rating units.
    pub relaxation_rate_per_sec: u64,
    /// The largest tolerance, however long the wait, in rating units.
    pub max_mmr_range: u64,
    /// The port that the server listens on.
    pub port: u16,
}

impl Default for Config {
    fn default() -> (c: Self)
        ensures
            c == (Config {
                num_workers: 4,
                idle_sleep_ms: 50,
                base_mmr_range: (150 * MMR_POINT) as u64,
                relaxation_rate_per_sec: (25 * MMR_POINT) as u64,
                max_mmr_range: (600 * MMR_POINT) as u64,
                port: 3000,
            }),
    {
        Config {
            num_workers: 4,
            idle_sleep_ms: 50,
            base_mmr_range: 150 * MMR_POINT,
            relaxation_rate_per_sec: 25 * MMR_POINT,
            max_mmr_range: 600 * MMR_POINT,
            port: 3000,
        }
    }
}

} // verus!
