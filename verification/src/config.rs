//! Deployment parameters of the replica group.
//!
//! A group of `n` replicas tolerates `f` faulty ones only when `n = 3f + 1`;
//! every quorum has `2f + 1` members, and the primary of view `v` is replica
//! `v mod n`.  Any other shape is rejected at startup as a fatal
//! misconfiguration.

use vstd::prelude::*;

verus! {

/// Why a replica group configuration was rejected.
#[derive(Clone, Copy, Debug, PartialEq, Eq, Structural)]
pub enum ConfigError {
    /// The replica count is not of the form `3f + 1` for some `f >= 1`.
    NotThreeFPlusOne,
}

/// The fixed parameters of a replica group: `n` replicas, up to `f` faulty.
#[derive(Clone, Copy, Debug, PartialEq, Eq, Structural)]
pub struct Config {
    /// Maximum number of faulty replicas tolerated.
    pub f: usize,
    /// Total number of replicas; always `3f + 1`.
    pub n: usize,
}

impl Config {
    /// The group is well formed exactly when `n = 3f + 1`.
    pub open spec fn wf(self) -> bool {
        self.n == 3 * self.f + 1
    }

    /// Number of votes a certificate needs: `2f + 1`.
    pub open spec fn quorum_spec(self) -> int {
        2 * self.f + 1
    }

    /// The primary of view `v` is replica `v mod n`, for any integer view.
    pub open spec fn primary_int(self, view: int) -> int {
        view % self.n as int
    }

    /// The primary of view `v` is replica `v mod n`.
    pub open spec fn primary_spec(self, view: u64) -> int {
        self.primary_int(view as int)
    }

    /// Build a group that tolerates `f` faults.
    pub fn new(f: usize) -> (r: Result<Config, ConfigError>)
        ensures
            r is Ok <==> 3 * f + 1 <= usize::MAX,
            r is Ok ==> r->Ok_0.wf() && r->Ok_0.f == f,
    {
        if f <= (usize::MAX - 1) / 3 {
            Ok(Config { f, n: 3 * f + 1 })
        } else {
            Err(ConfigError::NotThreeFPlusOne)
        }
    }

    /// Build a group of `n` replicas; rejected unless `n = 3f + 1` for some
    /// `f >= 1`.
    pub fn from_replica_count(n: usize) -> (r: Result<Config, ConfigError>)
        ensures
            r is Ok <==> (n >= 4 && (n - 1) % 3 == 0),
            r is Ok ==> r->Ok_0.wf() && r->Ok_0.n == n && r->Ok_0.f >= 1,
    {
        if n >= 4 && (n - 1) % 3 == 0 {
            Ok(Config { f: (n - 1) / 3, n })
        } else {
            Err(ConfigError::NotThreeFPlusOne)
        }
    }

    /// Number of votes a certificate needs.
    pub fn quorum(&self) -> (q: usize)
        requires
            self.wf(),
        ensures
            q == self.quorum_spec(),
    {
        2 * self.f + 1
    }

    /// The replica acting as primary in view `view`.
    pub fn primary_of(&self, view: u64) -> (p: usize)
        requires
            self.wf(),
        ensures
            p == self.primary_spec(view),
            p < self.n,
    {
        (view % (self.n as u64)) as usize
    }

    /// Whether replica `id` is the primary of view `view`.
    pub fn is_primary(&self, id: usize, view: u64) -> (b: bool)
        requires
            self.wf(),
        ensures
            b <==> id == self.primary_spec(view),
    {
        self.primary_of(view) == id
    }
}

} // verus!
