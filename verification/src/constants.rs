use vstd::prelude::*;

verus! {

/// Idle time, in milliseconds, after which a silent connection is closed.
pub const TIMEOUT_DURATION: u64 = 60_000;

/// Time, in milliseconds, a client waits for its TCP connection to open.
pub const CLIENT_CONNECTION_TIMEOUT: u64 = 5_000;

/// Time, in milliseconds, each connection task is given to finish on shutdown.
pub const SERVER_SHUTDOWN_CONNECTION_TIMEOUT: u64 = 500;

/// Interval, in milliseconds, at which expired keys are swept.
pub const DB_EXPIRATION_CHECK_INTERVAL: u64 = 100;

/// Largest number of clients served at the same time.
pub const MAX_CLIENTS: usize = 50;

} // verus!
