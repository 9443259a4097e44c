//! Launching the game and cleaning up after it.

pub mod launch;
pub mod paths;
pub mod teardown;
