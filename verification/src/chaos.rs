//! The synthetic-fault injector's activation knob: an explicitly
//! constructed configuration that decides, with fixed probability per call,
//! whether a frame should be corrupted. The process-wide toggle (an
//! environment variable in the surrounding program) is read outside this
//! crate and handed in as a plain boolean.

use vstd::prelude::*;

verus! {

/// Relies on `rand::random`: draws a value from the thread-local generator.
/// Nothing is promised of the result.
pub assume_specification<T>[ rand::random::<T> ]() -> (r: T)
    where
        rand::distributions::Standard: rand::distributions::Distribution<T>,
;

/// Configuration of the corruption hook. When `enabled` is false the hook
/// never fires.
pub struct ChaosConfig {
    pub enabled: bool,
}

impl ChaosConfig {
    /// A configuration whose hook never fires.
    pub fn disabled() -> (r: Self)
        ensures
            !r.enabled,
    {
        ChaosConfig { enabled: false }
    }

    /// A configuration with the given toggle, as read from the environment
    /// by the surrounding program.
    pub fn new(enabled: bool) -> (r: Self)
        ensures
            r.enabled == enabled,
    {
        ChaosConfig { enabled }
    }

    /// Decides whether this call is the moment for a synthetic fault:
    /// never when disabled, else with fixed probability.
    pub fn is_time_for_random_error(&self) -> (r: bool)
        ensures
            r ==> self.enabled,
    {
        if self.enabled {
            let sample: u8 = rand::random::<u8>();
            sample < 30
        } else {
            false
        }
    }
}

} // verus!
