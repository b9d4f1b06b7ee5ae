//! Quorum certificate tracking.
//!
//! A certificate for a key `(view, seq, digest)` is the set of distinct
//! replicas that voted for it.  The tracker keeps one vote table for the
//! prepare phase and one for the commit phase; a key is prepared or
//! committed once its certificate holds at least `2f + 1` voters.  Votes are
//! idempotent: recording the same replica twice for the same key changes
//! nothing, and votes for different digests at the same `(view, seq)` are
//! kept apart.

use vstd::prelude::*;

use crate::config::Config;

verus! {

/// Votes collected for a single `(view, seq, digest)` key.
#[derive(Clone, Debug)]
pub struct VoteEntry {
    pub view: u64,
    pub seq: u64,
    pub digest: u64,
    /// The distinct replicas that voted for this key.
    pub voters: Vec<usize>,
}

/// The key a vote entry collects votes for.
pub open spec fn key_of(e: VoteEntry) -> (u64, u64, u64) {
    (e.view, e.seq, e.digest)
}

/// A vote table is well formed when no two entries share a key and no entry
/// lists a voter twice.
pub open spec fn entries_wf(s: Seq<VoteEntry>) -> bool {
    &&& forall|i: int, j: int|
        0 <= i < j < s.len() ==> #[trigger] key_of(s[i]) != #[trigger] key_of(s[j])
    &&& forall|i: int| 0 <= i < s.len() ==> (#[trigger] s[i]).voters@.no_duplicates()
}

/// The set of replicas recorded as voting for key `k` in the table `s`.
pub open spec fn votes_at(s: Seq<VoteEntry>, k: (u64, u64, u64)) -> Set<usize> {
    Set::new(
        |r: usize|
            exists|i: int| 0 <= i < s.len() && key_of(#[trigger] s[i]) == k && s[i].voters@.contains(r),
    )
}

/// In a well-formed table, the votes for the key of entry `i` are exactly
/// that entry's voter list.
proof fn lemma_votes_at_found(s: Seq<VoteEntry>, i: int)
    requires
        entries_wf(s),
        0 <= i < s.len(),
    ensures
        votes_at(s, key_of(s[i])) == s[i].voters@.to_set(),
{
    let k = key_of(s[i]);
    assert forall|r: usize| votes_at(s, k).contains(r) implies s[i].voters@.to_set().contains(r) by {
        let j = choose|j: int| 0 <= j < s.len() && key_of(s[j]) == k && s[j].voters@.contains(r);
        assert(j == i);
    }
    assert forall|r: usize| s[i].voters@.to_set().contains(r) implies votes_at(s, k).contains(r) by {
        assert(0 <= i < s.len() && key_of(s[i]) == k && s[i].voters@.contains(r));
    }
    assert(votes_at(s, k) =~= s[i].voters@.to_set());
}

/// A key that no entry carries has no votes.
proof fn lemma_votes_at_absent(s: Seq<VoteEntry>, k: (u64, u64, u64))
    requires
        forall|i: int| 0 <= i < s.len() ==> #[trigger] key_of(s[i]) != k,
    ensures
        votes_at(s, k) == Set::<usize>::empty(),
{
    assert(votes_at(s, k) =~= Set::<usize>::empty());
}

/// Whether `x` occurs in the voter list `v`.
fn voters_contain(v: &Vec<usize>, x: usize) -> (b: bool)
    ensures
        b <==> v@.contains(x),
{
    let mut i: usize = 0;
    while i < v.len()
        invariant
            0 <= i <= v@.len(),
            forall|j: int| 0 <= j < i ==> v@[j] != x,
        decreases v@.len() - i,
    {
        if v[i] == x {
            return true;
        }
        i = i + 1;
    }
    false
}

/// Find the entry carrying key `(view, seq, digest)`, if any.
fn find_entry(s: &Vec<VoteEntry>, view: u64, seq: u64, digest: u64) -> (r: Option<usize>)
    ensures
        match r {
            Some(i) => 0 <= i < s@.len() && key_of(s@[i as int]) == (view, seq, digest),
            None => forall|i: int| 0 <= i < s@.len() ==> #[trigger] key_of(s@[i]) != (view, seq, digest),
        },
{
    let mut i: usize = 0;
    while i < s.len()
        invariant
            0 <= i <= s@.len(),
            forall|j: int| 0 <= j < i ==> #[trigger] key_of(s@[j]) != (view, seq, digest),
        decreases s@.len() - i,
    {
        let e = &s[i];
        if e.view == view && e.seq == seq && e.digest == digest {
            return Some(i);
        }
        i = i + 1;
    }
    None
}

/// Record one vote by `voter` for key `(view, seq, digest)` in table `s`.
fn record_vote(s: &mut Vec<VoteEntry>, view: u64, seq: u64, digest: u64, voter: usize)
    requires
        entries_wf(old(s)@),
    ensures
        entries_wf(final(s)@),
        votes_at(final(s)@, (view, seq, digest)) == votes_at(old(s)@, (view, seq, digest)).insert(
            voter,
        ),
        forall|k: (u64, u64, u64)|
            k != (view, seq, digest) ==> #[trigger] votes_at(final(s)@, k) == votes_at(old(s)@, k),
{
    let ghost s0 = s@;
    let ghost k = (view, seq, digest);
    match find_entry(s, view, seq, digest) {
        Some(i) => {
            if voters_contain(&s[i].voters, voter) {
                proof {
                    lemma_votes_at_found(s0, i as int);
                    assert(votes_at(s0, k).contains(voter));
                    assert(votes_at(s0, k).insert(voter) =~= votes_at(s0, k));
                }
                return ;
            }
            let mut e = s.remove(i);
            e.voters.push(voter);
            s.push(e);
            proof {
                let s1 = s@;
                let n = s1.len();
                // Every surviving entry is an old entry; the moved entry sits last.
                assert forall|j: int| 0 <= j < n - 1 implies s1[j] == if j < i {
                    s0[j]
                } else {
                    s0[j + 1]
                } by {}
                assert(s1[n - 1].voters@ == s0[i as int].voters@.push(voter));
                assert(key_of(s1[n - 1]) == k);
                // Well-formedness: keys stay distinct, voter lists stay duplicate free.
                assert forall|a: int, b: int| 0 <= a < b < n implies #[trigger] key_of(s1[a])
                    != #[trigger] key_of(s1[b]) by {
                    if b < n - 1 {
                        let a0: int = if a < i { a } else { a + 1 };
                        let b0: int = if b < i { b } else { b + 1 };
                        assert(key_of(s0[a0]) != key_of(s0[b0]));
                    } else {
                        let a0: int = if a < i { a } else { a + 1 };
                        if a0 != i {
                            assert(key_of(s0[a0]) != key_of(s0[i as int]));
                        }
                    }
                }
                assert forall|a: int| 0 <= a < n implies (#[trigger] s1[a]).voters@.no_duplicates() by {
                    if a < n - 1 {
                        let a0: int = if a < i { a } else { a + 1 };
                        assert(s1[a].voters@ == s0[a0].voters@);
                    } else {
                        assert(s0[i as int].voters@.no_duplicates());
                        assert(!s0[i as int].voters@.contains(voter));
                    }
                }
                assert(entries_wf(s1));
                // Votes for the touched key grow by exactly `voter`.
                lemma_votes_at_found(s1, n - 1);
                lemma_votes_at_found(s0, i as int);
                assert(s1[n - 1].voters@.to_set() =~= s0[i as int].voters@.to_set().insert(voter)) by {
                    let v1 = s1[n - 1].voters@;
                    let v0 = s0[i as int].voters@;
                    assert(v1 == v0.push(voter));
                    assert forall|r: usize| v1.to_set().contains(r) implies v0.to_set().insert(
                        voter,
                    ).contains(r) by {
                        let j = choose|j: int| 0 <= j < v1.len() && v1[j] == r;
                        if j < v0.len() {
                            assert(v0[j] == r);
                        }
                    }
                    assert forall|r: usize| v0.to_set().insert(voter).contains(r) implies v1.to_set()
                        .contains(r) by {
                        if r == voter {
                            assert(v1[v1.len() - 1] == r);
                        } else {
                            let j = choose|j: int| 0 <= j < v0.len() && v0[j] == r;
                            assert(v1[j] == r);
                        }
                    }
                }
                assert(votes_at(s1, k) == votes_at(s0, k).insert(voter));
                // Votes for every other key are untouched.
                assert forall|k2: (u64, u64, u64)| k2 != k implies #[trigger] votes_at(s1, k2)
                    == votes_at(s0, k2) by {
                    assert forall|r: usize| votes_at(s1, k2).contains(r) implies votes_at(
                        s0,
                        k2,
                    ).contains(r) by {
                        let j = choose|j: int|
                            0 <= j < s1.len() && key_of(s1[j]) == k2 && s1[j].voters@.contains(r);
                        assert(j < n - 1);
                        let j0: int = if j < i { j } else { j + 1 };
                        assert(key_of(s0[j0]) == k2 && s0[j0].voters@.contains(r));
                    }
                    assert forall|r: usize| votes_at(s0, k2).contains(r) implies votes_at(
                        s1,
                        k2,
                    ).contains(r) by {
                        let j0 = choose|j0: int|
                            0 <= j0 < s0.len() && key_of(s0[j0]) == k2 && s0[j0].voters@.contains(r);
                        assert(j0 != i);
                        let j: int = if j0 < i { j0 } else { j0 - 1 };
                        assert(s1[j] == s0[j0]);
                    }
                    assert(votes_at(s1, k2) =~= votes_at(s0, k2));
                }
            }
        },
        None => {
            let mut voters: Vec<usize> = Vec::new();
            voters.push(voter);
            let e = VoteEntry { view, seq, digest, voters };
            s.push(e);
            proof {
                let s1 = s@;
                let n = s1.len();
                assert(s1[n - 1].voters@ =~= seq![voter]);
                assert(s1[n - 1].voters@.no_duplicates());
                assert(entries_wf(s1));
                lemma_votes_at_found(s1, n - 1);
                lemma_votes_at_absent(s0, k);
                assert(s1[n - 1].voters@.to_set() =~= Set::<usize>::empty().insert(voter)) by {
                    assert(s1[n - 1].voters@[0] == voter);
                }
                assert(votes_at(s1, k) == votes_at(s0, k).insert(voter));
                assert forall|k2: (u64, u64, u64)| k2 != k implies #[trigger] votes_at(s1, k2)
                    == votes_at(s0, k2) by {
                    assert forall|r: usize| votes_at(s1, k2).contains(r) implies votes_at(
                        s0,
                        k2,
                    ).contains(r) by {
                        let j = choose|j: int|
                            0 <= j < s1.len() && key_of(s1[j]) == k2 && s1[j].voters@.contains(r);
                        assert(j < n - 1);
                        assert(s1[j] == s0[j]);
                    }
                    assert forall|r: usize| votes_at(s0, k2).contains(r) implies votes_at(
                        s1,
                        k2,
                    ).contains(r) by {
                        let j0 = choose|j0: int|
                            0 <= j0 < s0.len() && key_of(s0[j0]) == k2 && s0[j0].voters@.contains(r);
                        assert(s1[j0] == s0[j0]);
                    }
                    assert(votes_at(s1, k2) =~= votes_at(s0, k2));
                }
            }
        },
    }
}

/// Count the votes recorded for key `(view, seq, digest)` in table `s`.
fn count_votes(s: &Vec<VoteEntry>, view: u64, seq: u64, digest: u64) -> (c: usize)
    requires
        entries_wf(s@),
    ensures
        c == votes_at(s@, (view, seq, digest)).len(),
{
    match find_entry(s, view, seq, digest) {
        Some(i) => {
            proof {
                lemma_votes_at_found(s@, i as int);
                s@[i as int].voters@.unique_seq_to_set();
            }
            s[i].voters.len()
        },
        None => {
            proof {
                lemma_votes_at_absent(s@, (view, seq, digest));
            }
            0
        },
    }
}

/// Per-replica vote tables for the prepare and commit phases.
#[derive(Clone, Debug)]
pub struct QuorumTracker {
    pub prepares: Vec<VoteEntry>,
    pub commits: Vec<VoteEntry>,
}

impl QuorumTracker {
    /// Both tables are well formed.
    pub open spec fn wf(self) -> bool {
        entries_wf(self.prepares@) && entries_wf(self.commits@)
    }

    /// The prepare certificate for `(view, seq, digest)`.
    pub open spec fn prepare_voters(self, view: u64, seq: u64, digest: u64) -> Set<usize> {
        votes_at(self.prepares@, (view, seq, digest))
    }

    /// The commit certificate for `(view, seq, digest)`.
    pub open spec fn commit_voters(self, view: u64, seq: u64, digest: u64) -> Set<usize> {
        votes_at(self.commits@, (view, seq, digest))
    }

    /// An empty tracker: no certificate holds any vote.
    pub fn new() -> (t: QuorumTracker)
        ensures
            t.wf(),
            forall|v: u64, s: u64, d: u64| #[trigger] t.prepare_voters(v, s, d) == Set::<usize>::empty(),
            forall|v: u64, s: u64, d: u64| #[trigger] t.commit_voters(v, s, d) == Set::<usize>::empty(),
    {
        let t = QuorumTracker { prepares: Vec::new(), commits: Vec::new() };
        proof {
            assert forall|v: u64, s: u64, d: u64| #[trigger] t.prepare_voters(v, s, d) == Set::<
                usize,
            >::empty() by {
                lemma_votes_at_absent(t.prepares@, (v, s, d));
            }
            assert forall|v: u64, s: u64, d: u64| #[trigger] t.commit_voters(v, s, d) == Set::<
                usize,
            >::empty() by {
                lemma_votes_at_absent(t.commits@, (v, s, d));
            }
        }
        t
    }

    /// Record a prepare vote; recording the same voter again changes nothing.
    pub fn record_prepare(&mut self, view: u64, seq: u64, digest: u64, voter: usize)
        requires
            old(self).wf(),
        ensures
            final(self).wf(),
            final(self).prepare_voters(view, seq, digest) == old(self).prepare_voters(
                view,
                seq,
                digest,
            ).insert(voter),
            forall|v: u64, s: u64, d: u64|
                (v, s, d) != (view, seq, digest) ==> #[trigger] final(self).prepare_voters(v, s, d)
                    == old(self).prepare_voters(v, s, d),
            forall|v: u64, s: u64, d: u64| #[trigger]
                final(self).commit_voters(v, s, d) == old(self).commit_voters(v, s, d),
    {
        record_vote(&mut self.prepares, view, seq, digest, voter);
    }

    /// Record a commit vote; recording the same voter again changes nothing.
    pub fn record_commit(&mut self, view: u64, seq: u64, digest: u64, voter: usize)
        requires
            old(self).wf(),
        ensures
            final(self).wf(),
            final(self).commit_voters(view, seq, digest) == old(self).commit_voters(
                view,
                seq,
                digest,
            ).insert(voter),
            forall|v: u64, s: u64, d: u64|
                (v, s, d) != (view, seq, digest) ==> #[trigger] final(self).commit_voters(v, s, d)
                    == old(self).commit_voters(v, s, d),
            forall|v: u64, s: u64, d: u64| #[trigger]
                final(self).prepare_voters(v, s, d) == old(self).prepare_voters(v, s, d),
    {
        record_vote(&mut self.commits, view, seq, digest, voter);
    }

    /// Number of distinct prepare votes for `(view, seq, digest)`.
    pub fn prepare_count(&self, view: u64, seq: u64, digest: u64) -> (c: usize)
        requires
            self.wf(),
        ensures
            c == self.prepare_voters(view, seq, digest).len(),
    {
        count_votes(&self.prepares, view, seq, digest)
    }

    /// Number of distinct commit votes for `(view, seq, digest)`.
    pub fn commit_count(&self, view: u64, seq: u64, digest: u64) -> (c: usize)
        requires
            self.wf(),
        ensures
            c == self.commit_voters(view, seq, digest).len(),
    {
        count_votes(&self.commits, view, seq, digest)
    }

    /// Whether `(view, seq, digest)` holds a prepare quorum of `2f + 1`.
    pub fn is_prepared(&self, cfg: &Config, view: u64, seq: u64, digest: u64) -> (b: bool)
        requires
            self.wf(),
            cfg.wf(),
        ensures
            b <==> self.prepare_voters(view, seq, digest).len() >= cfg.quorum_spec(),
    {
        self.prepare_count(view, seq, digest) >= cfg.quorum()
    }

    /// Whether `(view, seq, digest)` holds a commit quorum of `2f + 1`.
    pub fn is_committed(&self, cfg: &Config, view: u64, seq: u64, digest: u64) -> (b: bool)
        requires
            self.wf(),
            cfg.wf(),
        ensures
            b <==> self.commit_voters(view, seq, digest).len() >= cfg.quorum_spec(),
    {
        self.commit_count(view, seq, digest) >= cfg.quorum()
    }
}

} // verus!
