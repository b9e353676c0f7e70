//! The periodic removal of expired mailboxes and their messages.
use vstd::prelude::*;

verus! {

/// Seconds between two cleanup rounds.
pub const CLEANUP_INTERVAL_SECS: u64 = 60;

/// Most messages removed in one cleanup round.
pub const CLEANUP_BATCH_SIZE: u64 = 100;

/// The cleanup task: where it removes from, how often, and how much at a time.
pub struct CleanupTask<D> {
    db: D,
    interval_secs: u64,
    batch_size: u64,
}

impl<D> CleanupTask<D> {
    /// The store that the task cleans.
    pub closed spec fn database(&self) -> D {
        self.db
    }

    /// Seconds between rounds.
    pub closed spec fn interval(&self) -> u64 {
        self.interval_secs
    }

    /// Most messages removed per round.
    pub closed spec fn batch(&self) -> u64 {
        self.batch_size
    }

    /// A task for `db` that runs every minute and removes at most a hundred
    /// messages per round.
    pub fn new(db: D) -> (t: Self)
        ensures
            t.database() == db,
            t.interval() == CLEANUP_INTERVAL_SECS,
            t.batch() == CLEANUP_BATCH_SIZE,
    {
        CleanupTask { db, interval_secs: CLEANUP_INTERVAL_SECS, batch_size: CLEANUP_BATCH_SIZE }
    }

    /// The store that the task cleans.
    pub fn db(&self) -> (r: &D)
        ensures
            *r == self.database(),
    {
        &self.db
    }

    /// Seconds between rounds.
    pub fn interval_secs(&self) -> (r: u64)
        ensures
            r == self.interval(),
    {
        self.interval_secs
    }

    /// Most messages removed per round.
    pub fn batch_size(&self) -> (r: u64)
        ensures
            r == self.batch(),
    {
        self.batch_size
    }
}

} // verus!
