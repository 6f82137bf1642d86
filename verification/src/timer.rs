//! The randomised election timeout.

use rand::RngExt;
use vstd::prelude::*;

use crate::config::RaftConfig;

verus! {

/// `RngExt::random_range` of the `rand` crate on the thread's own generator,
/// `rand::rng`: a number from the range, both ends included. It panics on an
/// empty range. Which number comes is left open, and so is what happens on a
/// machine that has no source of randomness to seed the generator with.
#[verifier::external_body]
fn random_between(min: u64, max: u64) -> (n: u64)
    requires
        min <= max,
    ensures
        min <= n <= max,
{
    rand::rng().random_range(min..=max)
}

/// How long a node waits for a leader before it starts an election: a random
/// number of milliseconds between the two bounds of the configuration.
pub fn election_timeout_ms(config: &RaftConfig) -> (ms: u64)
    requires
        config.election_timeout_min_ms <= config.election_timeout_max_ms,
    ensures
        config.election_timeout_min_ms <= ms <= config.election_timeout_max_ms,
{
    random_between(config.election_timeout_min_ms, config.election_timeout_max_ms)
}

} // verus!
