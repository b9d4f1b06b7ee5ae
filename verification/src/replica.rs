//! The per-replica protocol engine.
//!
//! Each replica owns its log, its vote trackers and its view exclusively;
//! handlers take one already-delivered message at a time and return the
//! messages to send next, so the caller owns transport and timers.  A log
//! slot moves `Preprepared -> Prepared -> Committed -> Executed`; slots
//! execute strictly in sequence order, and a slot that reached `Committed`
//! never changes its digest or request again.  Messages that are malformed,
//! out of the watermark window, or for the wrong view are dropped without
//! touching any state.

use vstd::prelude::*;

use crate::config::Config;
use crate::digest::request_digest;
use crate::digest::request_digest_spec;
use crate::digest::state_digest_spec;
use crate::digest::DIGEST_SEED;
use crate::messages::Checkpoint;
use crate::messages::Commit;
use crate::messages::Message;
use crate::messages::PrePrepare;
use crate::messages::Prepare;
use crate::messages::Reply;
use crate::messages::Request;
use crate::messages::ViewChange;
use crate::tracker::QuorumTracker;

verus! {

/// How far a log slot has come.
#[derive(Clone, Copy, Debug, PartialEq, Eq, Structural)]
pub enum SlotStatus {
    /// The primary's proposal was accepted.
    Preprepared,
    /// A quorum of prepare votes exists.
    Prepared,
    /// A quorum of commit votes exists; the slot is decided.
    Committed,
    /// The request ran against the replicated state.
    Executed,
}

/// Numeric rank of a status, for "has come at least this far" comparisons.
pub open spec fn status_rank(s: SlotStatus) -> int {
    match s {
        SlotStatus::Preprepared => 0,
        SlotStatus::Prepared => 1,
        SlotStatus::Committed => 2,
        SlotStatus::Executed => 3,
    }
}

/// One log slot: the proposal accepted at a sequence number and how far it
/// has come.
#[derive(Clone, Copy, Debug, PartialEq, Eq, Structural)]
pub struct LogEntry {
    pub seq: u64,
    /// View in which the digest was accepted.
    pub view: u64,
    pub digest: u64,
    pub request: Request,
    pub status: SlotStatus,
}

/// Whether the replica is serving the normal three-phase flow or waiting
/// for a new primary.
#[derive(Clone, Copy, Debug, PartialEq, Eq, Structural)]
pub enum Mode {
    /// Normal-case operation.
    Normal,
    /// A view change is in flight; normal-case messages of the old view are
    /// refused.
    ViewChanging,
    /// Fresh from a restart; state synchronization is the caller's concern.
    Recovering,
}

/// No two log slots carry the same sequence number.
pub open spec fn log_seqs_unique(s: Seq<LogEntry>) -> bool {
    forall|i: int, j: int|
        0 <= i < j < s.len() ==> (#[trigger] s[i]).seq != (#[trigger] s[j]).seq
}

/// Whether some log slot carries sequence number `seq`.
pub open spec fn has_slot(s: Seq<LogEntry>, seq: u64) -> bool {
    exists|i: int| 0 <= i < s.len() && (#[trigger] s[i]).seq == seq
}

/// The log index of the slot carrying sequence number `seq`; meaningful
/// when `has_slot`.
pub open spec fn slot_index(s: Seq<LogEntry>, seq: u64) -> int {
    choose|i: int| 0 <= i < s.len() && (#[trigger] s[i]).seq == seq
}

/// The log slot carrying sequence number `seq`; meaningful when `has_slot`.
pub open spec fn slot_at(s: Seq<LogEntry>, seq: u64) -> LogEntry {
    s[slot_index(s, seq)]
}

/// In a log with unique sequence numbers, the slot at `s[i].seq` is `s[i]`.
pub proof fn lemma_slot_at(s: Seq<LogEntry>, i: int)
    requires
        log_seqs_unique(s),
        0 <= i < s.len(),
    ensures
        has_slot(s, s[i].seq),
        slot_index(s, s[i].seq) == i,
        slot_at(s, s[i].seq) == s[i],
{
    let seq = s[i].seq;
    assert(0 <= i < s.len() && s[i].seq == seq);
    let j = choose|j: int| 0 <= j < s.len() && (#[trigger] s[j]).seq == seq;
    assert(j == i);
}

/// A slot that had reached `Committed` keeps its digest, request and rank
/// wherever it still stands in the log.
pub open spec fn committed_immutable(pre: Seq<LogEntry>, post: Seq<LogEntry>) -> bool {
    forall|i: int, j: int|
        0 <= i < pre.len() && 0 <= j < post.len() && (#[trigger] pre[i]).seq == (
        #[trigger] post[j]).seq && status_rank(pre[i].status) >= 2 ==> post[j].digest
            == pre[i].digest && post[j].request == pre[i].request && status_rank(post[j].status)
            >= status_rank(pre[i].status)
}

/// The cached reply for `client`, if one exists.
pub open spec fn cached_for(rs: Seq<Reply>, client: u64) -> Option<Reply> {
    if exists|i: int| 0 <= i < rs.len() && (#[trigger] rs[i]).client == client {
        Some(rs[choose|i: int| 0 <= i < rs.len() && (#[trigger] rs[i]).client == client])
    } else {
        None
    }
}

/// Whether some log slot already carries a request with this client and
/// timestamp: the request is in flight and needs no second slot.
pub open spec fn has_inflight(s: Seq<LogEntry>, client: u64, timestamp: u64) -> bool {
    exists|i: int|
        0 <= i < s.len() && (#[trigger] s[i]).request.client == client && s[i].request.timestamp
            == timestamp
}

/// At most one cached reply per client.
pub open spec fn replies_unique(rs: Seq<Reply>) -> bool {
    forall|i: int, j: int|
        0 <= i < j < rs.len() ==> (#[trigger] rs[i]).client != (#[trigger] rs[j]).client
}

/// In a duplicate-free cache, the cached reply for `rs[i].client` is `rs[i]`.
pub proof fn lemma_cached_for(rs: Seq<Reply>, i: int)
    requires
        replies_unique(rs),
        0 <= i < rs.len(),
    ensures
        cached_for(rs, rs[i].client) == Some(rs[i]),
{
    let c = rs[i].client;
    assert(0 <= i < rs.len() && rs[i].client == c);
    let j = choose|j: int| 0 <= j < rs.len() && (#[trigger] rs[j]).client == c;
    assert(j == i);
}

/// Store `rep` as the cached reply for its client, replacing any older one.
fn cache_reply(rs: &mut Vec<Reply>, rep: Reply)
    requires
        replies_unique(old(rs)@),
    ensures
        replies_unique(final(rs)@),
        cached_for(final(rs)@, rep.client) == Some(rep),
        forall|c: u64| c != rep.client ==> cached_for(final(rs)@, c) == cached_for(old(rs)@, c),
{
    let ghost rs0 = rs@;
    let mut i: usize = 0;
    let mut found = false;
    while i < rs.len() && !found
        invariant
            replies_unique(rs@),
            rs@ == rs0,
            0 <= i <= rs@.len(),
            found ==> i < rs@.len() && rs@[i as int].client == rep.client,
            !found ==> forall|j: int| 0 <= j < i ==> (#[trigger] rs@[j]).client != rep.client,
        decreases rs@.len() - i, if found { 0int } else { 1int },
    {
        if rs[i].client == rep.client {
            found = true;
        } else {
            i = i + 1;
        }
    }
    if found {
        rs.set(i, rep);
        proof {
            assert forall|a: int, b: int|
                0 <= a < b < rs@.len() implies (#[trigger] rs@[a]).client != (
            #[trigger] rs@[b]).client by {
                assert(rs@[a].client == rs0[a].client);
                assert(rs@[b].client == rs0[b].client);
            }
            lemma_cached_for(rs@, i as int);
            assert forall|c: u64| c != rep.client implies cached_for(rs@, c) == cached_for(
                rs0,
                c,
            ) by {
                if exists|j: int| 0 <= j < rs0.len() && (#[trigger] rs0[j]).client == c {
                    let j = choose|j: int| 0 <= j < rs0.len() && (#[trigger] rs0[j]).client == c;
                    assert(j != i);
                    assert(rs@[j] == rs0[j]);
                    lemma_cached_for(rs@, j);
                    lemma_cached_for(rs0, j);
                } else {
                    assert forall|j: int| 0 <= j < rs@.len() implies (#[trigger] rs@[j]).client
                        != c by {
                        assert(rs@[j].client == rs0[j].client || j == i);
                    }
                }
            }
        }
    } else {
        rs.push(rep);
        proof {
            assert forall|a: int, b: int|
                0 <= a < b < rs@.len() implies (#[trigger] rs@[a]).client != (
            #[trigger] rs@[b]).client by {
                if b < rs0.len() {
                    assert(rs@[a] == rs0[a] && rs@[b] == rs0[b]);
                } else {
                    assert(rs@[a] == rs0[a]);
                }
            }
            lemma_cached_for(rs@, rs@.len() - 1);
            assert forall|c: u64| c != rep.client implies cached_for(rs@, c) == cached_for(
                rs0,
                c,
            ) by {
                if exists|j: int| 0 <= j < rs0.len() && (#[trigger] rs0[j]).client == c {
                    let j = choose|j: int| 0 <= j < rs0.len() && (#[trigger] rs0[j]).client == c;
                    assert(rs@[j] == rs0[j]);
                    lemma_cached_for(rs@, j);
                    lemma_cached_for(rs0, j);
                } else {
                    assert forall|j: int| 0 <= j < rs@.len() implies (#[trigger] rs@[j]).client
                        != c by {
                        if j < rs0.len() {
                            assert(rs@[j] == rs0[j]);
                        }
                    }
                }
            }
        }
    }
}

/// The log after discarding every slot at or below the stable checkpoint
/// `n`, keeping the rest in order.
pub open spec fn compacted(s: Seq<LogEntry>, n: u64) -> Seq<LogEntry>
    decreases s.len(),
{
    if s.len() == 0 {
        Seq::empty()
    } else {
        let rest = compacted(s.drop_last(), n);
        if s.last().seq > n {
            rest.push(s.last())
        } else {
            rest
        }
    }
}

/// Compaction keeps exactly the slots above `n`, in order, and preserves
/// sequence-number uniqueness.
#[verifier::rlimit(100)]
pub proof fn lemma_compacted(s: Seq<LogEntry>, n: u64)
    requires
        log_seqs_unique(s),
    ensures
        log_seqs_unique(compacted(s, n)),
        forall|i: int|
            0 <= i < compacted(s, n).len() ==> (#[trigger] compacted(s, n)[i]).seq > n && exists|
                j: int,
            | 0 <= j < s.len() && s[j] == compacted(s, n)[i],
        forall|j: int|
            0 <= j < s.len() && (#[trigger] s[j]).seq > n ==> exists|i: int|
                0 <= i < compacted(s, n).len() && compacted(s, n)[i] == s[j],
    decreases s.len(),
{
    if s.len() == 0 {
    } else {
        let pre = s.drop_last();
        assert(log_seqs_unique(pre)) by {
            assert forall|a: int, b: int|
                0 <= a < b < pre.len() implies (#[trigger] pre[a]).seq != (#[trigger] pre[b]).seq by {
                assert(pre[a] == s[a] && pre[b] == s[b]);
            }
        }
        lemma_compacted(pre, n);
        let rest = compacted(pre, n);
        if s.last().seq > n {
            let out = compacted(s, n);
            assert(out == rest.push(s.last()));
            assert forall|i: int| 0 <= i < out.len() implies (#[trigger] out[i]).seq > n && exists|
                j: int,
            | 0 <= j < s.len() && s[j] == out[i] by {
                if i < rest.len() {
                    assert(rest[i].seq > n);
                    let j = choose|j: int| 0 <= j < pre.len() && pre[j] == rest[i];
                    assert(s[j] == out[i]);
                } else {
                    assert(out[i] == s[s.len() - 1]);
                }
            }
            assert forall|a: int, b: int|
                0 <= a < b < out.len() implies (#[trigger] out[a]).seq != (#[trigger] out[b]).seq by {
                if b < rest.len() {
                    assert(rest[a].seq != rest[b].seq);
                } else {
                    let j = choose|j: int| 0 <= j < pre.len() && pre[j] == rest[a];
                    assert(s[j].seq != s[s.len() - 1].seq);
                }
            }
            assert forall|j: int|
                0 <= j < s.len() && (#[trigger] s[j]).seq > n implies exists|i: int|
                    0 <= i < out.len() && out[i] == s[j] by {
                if j < s.len() - 1 {
                    assert(pre[j] == s[j]);
                    let i = choose|i: int| 0 <= i < rest.len() && rest[i] == pre[j];
                    assert(out[i] == s[j]);
                } else {
                    assert(out[out.len() - 1] == s[j]);
                }
            }
        } else {
            let out = compacted(s, n);
            assert(out == rest);
            assert forall|j: int|
                0 <= j < s.len() && (#[trigger] s[j]).seq > n implies exists|i: int|
                    0 <= i < out.len() && out[i] == s[j] by {
                assert(j < s.len() - 1);
                assert(pre[j] == s[j]);
            }
        }
    }
}

/// One replica of the group.
#[derive(Clone, Debug)]
pub struct Replica {
    /// The group parameters.
    pub config: Config,
    /// This replica's identity, in `0..n`.
    pub id: usize,
    /// Current view; never decreases.
    pub view: u64,
    /// Protocol-level mode.
    pub mode: Mode,
    /// Sequence number of the last stable checkpoint; the watermark window
    /// is `(low, low + window]`.
    pub low: u64,
    /// Width of the watermark window.
    pub window: u64,
    /// State digest of the last stable checkpoint.
    pub stable_digest: u64,
    /// Last sequence number this replica assigned as primary.
    pub next_seq: u64,
    /// The slots accepted above the last stable checkpoint.
    pub log: Vec<LogEntry>,
    /// Prepare and commit certificates.
    pub tracker: QuorumTracker,
    /// Checkpoint certificates, keyed `(0, seq, state_digest)`.
    pub cp_tracker: QuorumTracker,
    /// Digests of the executed requests, in execution order; sequence
    /// number `k` executed as position `k - 1`.
    pub executed: Vec<u64>,
    /// Running state digest: always `state_digest_spec(executed)`.
    pub state: u64,
    /// Every `checkpoint_interval` executions a checkpoint is proposed.
    pub checkpoint_interval: u64,
    /// Last reply sent to each client, for duplicate suppression.
    pub replies: Vec<Reply>,
    /// View-change messages collected by a prospective primary.
    pub vc_msgs: Vec<ViewChange>,
}

impl Replica {
    /// The replica's internal invariant.
    pub open spec fn wf(self) -> bool {
        &&& self.config.wf()
        &&& self.id < self.config.n
        &&& self.tracker.wf()
        &&& self.cp_tracker.wf()
        &&& log_seqs_unique(self.log@)
        &&& forall|i: int|
            0 <= i < self.log@.len() ==> self.low < (#[trigger] self.log@[i]).seq <= self.low
                + self.window
        &&& self.state == state_digest_spec(self.executed@)
        &&& self.window >= 1
        &&& self.checkpoint_interval >= 1
        &&& replies_unique(self.replies@)
    }

    /// A fresh replica: view 0, empty log, empty history, normal mode.
    pub fn new(config: Config, id: usize, window: u64, checkpoint_interval: u64) -> (r: Replica)
        requires
            config.wf(),
            id < config.n,
            window >= 1,
            checkpoint_interval >= 1,
        ensures
            r.wf(),
            r.config == config,
            r.id == id,
            r.view == 0,
            r.mode is Normal,
            r.low == 0,
            r.window == window,
            r.checkpoint_interval == checkpoint_interval,
            r.next_seq == 0,
            r.state == DIGEST_SEED,
            r.stable_digest == DIGEST_SEED,
            r.executed@.len() == 0,
            r.log@.len() == 0,
            r.replies@.len() == 0,
            r.vc_msgs@.len() == 0,
            forall|v: u64, s: u64, d: u64| #[trigger] r.tracker.prepare_voters(v, s, d) == Set::<
                usize,
            >::empty(),
            forall|v: u64, s: u64, d: u64| #[trigger] r.tracker.commit_voters(v, s, d) == Set::<
                usize,
            >::empty(),
            forall|s: u64, d: u64| #[trigger] r.cp_voters(s, d) == Set::<usize>::empty(),
    {
        Replica {
            config,
            id,
            view: 0,
            mode: Mode::Normal,
            low: 0,
            window,
            stable_digest: DIGEST_SEED,
            next_seq: 0,
            log: Vec::new(),
            tracker: QuorumTracker::new(),
            cp_tracker: QuorumTracker::new(),
            executed: Vec::new(),
            state: DIGEST_SEED,
            checkpoint_interval,
            replies: Vec::new(),
            vc_msgs: Vec::new(),
        }
    }

    /// A restarted replica re-enters service through `Recovering`; once the
    /// caller has resynchronized its state it resumes normal operation.
    pub fn finish_recovery(&mut self)
        requires
            old(self).wf(),
            old(self).mode is Recovering,
        ensures
            final(self).wf(),
            *final(self) == (Replica { mode: Mode::Normal, ..*old(self) }),
    {
        self.mode = Mode::Normal;
    }

    /// Find the log index of the slot carrying `seq`, if any.
    pub(crate) fn find_slot(&self, seq: u64) -> (r: Option<usize>)
        ensures
            match r {
                Some(i) => 0 <= i < self.log@.len() && self.log@[i as int].seq == seq,
                None => !has_slot(self.log@, seq),
            },
    {
        let mut i: usize = 0;
        while i < self.log.len()
            invariant
                0 <= i <= self.log@.len(),
                forall|j: int| 0 <= j < i ==> (#[trigger] self.log@[j]).seq != seq,
            decreases self.log@.len() - i,
        {
            if self.log[i].seq == seq {
                return Some(i);
            }
            i = i + 1;
        }
        None
    }

    /// Whether the primary of the current view may assign the next sequence
    /// number: the slot after `next_seq` lies inside the watermark window
    /// and is still free.
    pub open spec fn can_assign(self) -> bool {
        &&& self.mode is Normal
        &&& self.id == self.config.primary_spec(self.view)
        &&& self.next_seq < u64::MAX
        &&& self.next_seq >= self.low
        &&& self.next_seq < self.low + self.window
        &&& !has_slot(self.log@, (self.next_seq + 1) as u64)
    }

    /// Whether an unexecuted or executed log slot already carries a request
    /// with this client and timestamp.
    fn find_inflight(&self, client: u64, timestamp: u64) -> (b: bool)
        ensures
            b <==> has_inflight(self.log@, client, timestamp),
    {
        let mut i: usize = 0;
        while i < self.log.len()
            invariant
                0 <= i <= self.log@.len(),
                forall|j: int|
                    0 <= j < i ==> !((#[trigger] self.log@[j]).request.client == client
                        && self.log@[j].request.timestamp == timestamp),
            decreases self.log@.len() - i,
        {
            let e = &self.log[i];
            if e.request.client == client && e.request.timestamp == timestamp {
                return true;
            }
            i = i + 1;
        }
        false
    }

    /// Find the cached reply for `client`, if any.
    fn find_cached(&self, client: u64) -> (r: Option<usize>)
        requires
            replies_unique(self.replies@),
        ensures
            match r {
                Some(i) => 0 <= i < self.replies@.len() && self.replies@[i as int].client == client
                    && cached_for(self.replies@, client) == Some(self.replies@[i as int]),
                None => cached_for(self.replies@, client) is None,
            },
    {
        let mut i: usize = 0;
        while i < self.replies.len()
            invariant
                replies_unique(self.replies@),
                0 <= i <= self.replies@.len(),
                forall|j: int| 0 <= j < i ==> (#[trigger] self.replies@[j]).client != client,
            decreases self.replies@.len() - i,
        {
            if self.replies[i].client == client {
                proof {
                    lemma_cached_for(self.replies@, i as int);
                }
                return Some(i);
            }
            i = i + 1;
        }
        None
    }

    /// Handle a client request.
    ///
    /// A request already executed for this client and timestamp is answered
    /// from the reply cache without touching any state.  Otherwise only the
    /// primary of the current view acts: it assigns the next sequence
    /// number inside the watermark window, stores the slot as `Preprepared`
    /// together with its own implicit prepare vote, and broadcasts the
    /// pre-prepare.  A backup, a view-changing replica, or a primary with
    /// an exhausted window drops the request.
    ///
    /// A retransmit of a request that is still in flight — an unexecuted
    /// log slot already carries this client and timestamp — is dropped
    /// rather than given a second sequence number.
    #[verifier::rlimit(100)]
    pub fn on_request(&mut self, req: Request) -> (out: Vec<Message>)
        requires
            old(self).wf(),
        ensures
            final(self).wf(),
            ({
                let cached = cached_for(old(self).replies@, req.client);
                let n = (old(self).next_seq + 1) as u64;
                let d = request_digest_spec(req);
                if cached is Some && cached->0.timestamp == req.timestamp {
                    &&& *final(self) == *old(self)
                    &&& out@ =~= seq![Message::Reply(cached->0)]
                } else if old(self).can_assign() && !has_inflight(
                    old(self).log@,
                    req.client,
                    req.timestamp,
                ) {
                    &&& *final(self) == (Replica {
                        next_seq: n,
                        log: final(self).log,
                        tracker: final(self).tracker,
                        ..*old(self)
                    })
                    &&& final(self).log@ == old(self).log@.push(
                        LogEntry {
                            seq: n,
                            view: old(self).view,
                            digest: d,
                            request: req,
                            status: SlotStatus::Preprepared,
                        },
                    )
                    &&& final(self).tracker.prepare_voters(old(self).view, n, d) == old(
                        self,
                    ).tracker.prepare_voters(old(self).view, n, d).insert(old(self).id)
                    &&& forall|v2: u64, s2: u64, d2: u64|
                        (v2, s2, d2) != (old(self).view, n, d)
                            ==> #[trigger] final(self).tracker.prepare_voters(v2, s2, d2) == old(
                            self,
                        ).tracker.prepare_voters(v2, s2, d2)
                    &&& forall|v2: u64, s2: u64, d2: u64| #[trigger]
                        final(self).tracker.commit_voters(v2, s2, d2) == old(
                            self,
                        ).tracker.commit_voters(v2, s2, d2)
                    &&& out@ =~= seq![
                        Message::PrePrepare(
                            PrePrepare { view: old(self).view, seq: n, digest: d, request: req },
                        ),
                    ]
                } else {
                    &&& *final(self) == *old(self)
                    &&& out@.len() == 0
                }
            }),
    {
        let mut out: Vec<Message> = Vec::new();
        // Duplicate suppression: a resend of an executed request is answered
        // from the cache, with no second execution.
        match self.find_cached(req.client) {
            Some(i) => {
                if self.replies[i].timestamp == req.timestamp {
                    out.push(Message::Reply(self.replies[i]));
                    return out;
                }
            },
            None => {},
        }
        if !matches!(self.mode, Mode::Normal) {
            return out;
        }
        if !self.config.is_primary(self.id, self.view) {
            return out;
        }
        if !(self.next_seq < u64::MAX && self.next_seq >= self.low && self.next_seq - self.low
            < self.window) {
            return out;
        }
        if self.find_inflight(req.client, req.timestamp) {
            return out;
        }
        let n = self.next_seq + 1;
        match self.find_slot(n) {
            Some(_) => out,
            None => {
                let d = request_digest(&req);
                let entry = LogEntry {
                    seq: n,
                    view: self.view,
                    digest: d,
                    request: req,
                    status: SlotStatus::Preprepared,
                };
                let ghost log0 = self.log@;
                self.log.push(entry);
                self.next_seq = n;
                // The pre-prepare is the primary's own implicit prepare vote.
                self.tracker.record_prepare(self.view, n, d, self.id);
                out.push(
                    Message::PrePrepare(
                        PrePrepare { view: self.view, seq: n, digest: d, request: req },
                    ),
                );
                proof {
                    assert forall|i: int|
                        0 <= i < self.log@.len() implies self.low < (#[trigger] self.log@[i]).seq
                        <= self.low + self.window by {
                        if i < log0.len() {
                            assert(self.log@[i] == log0[i]);
                        }
                    }
                    assert forall|i: int, j: int|
                        0 <= i < j < self.log@.len() implies (#[trigger] self.log@[i]).seq != (
                    #[trigger] self.log@[j]).seq by {
                        if j < log0.len() {
                            assert(log0[i].seq != log0[j].seq);
                        } else {
                            assert(!has_slot(log0, n));
                            assert(log0[i].seq != n);
                        }
                    }
                }
                out
            },
        }
    }

    /// Whether a backup accepts the proposal `msg`: right view and mode,
    /// sent for a slot inside the watermark window that is still free, with
    /// a digest that really fingerprints the carried request.
    pub open spec fn accepts_preprepare(self, msg: PrePrepare) -> bool {
        &&& self.mode is Normal
        &&& msg.view == self.view
        &&& self.id != self.config.primary_spec(msg.view)
        &&& msg.digest == request_digest_spec(msg.request)
        &&& self.low < msg.seq <= self.low + self.window
        &&& !has_slot(self.log@, msg.seq)
    }

    /// Handle the primary's ordering proposal.
    ///
    /// A backup accepts it exactly under `accepts_preprepare`; a proposal
    /// for an occupied slot — in particular one carrying a different digest
    /// for `(view, seq)` — is dropped without touching state.  On acceptance
    /// the slot becomes `Preprepared`, the proposal counts as the primary's
    /// implicit prepare vote, and the backup broadcasts its own prepare
    /// vote, recording it for itself as well.
    #[verifier::rlimit(100)]
    pub fn on_pre_prepare(&mut self, msg: &PrePrepare) -> (out: Vec<Message>)
        requires
            old(self).wf(),
        ensures
            final(self).wf(),
            ({
                let p = old(self).config.primary_spec(msg.view) as usize;
                if old(self).accepts_preprepare(*msg) {
                    &&& *final(self) == (Replica {
                        log: final(self).log,
                        tracker: final(self).tracker,
                        ..*old(self)
                    })
                    &&& final(self).log@ == old(self).log@.push(
                        LogEntry {
                            seq: msg.seq,
                            view: msg.view,
                            digest: msg.digest,
                            request: msg.request,
                            status: SlotStatus::Preprepared,
                        },
                    )
                    &&& final(self).tracker.prepare_voters(msg.view, msg.seq, msg.digest) == old(
                        self,
                    ).tracker.prepare_voters(msg.view, msg.seq, msg.digest).insert(p).insert(
                        old(self).id,
                    )
                    &&& forall|v2: u64, s2: u64, d2: u64|
                        (v2, s2, d2) != (msg.view, msg.seq, msg.digest)
                            ==> #[trigger] final(self).tracker.prepare_voters(v2, s2, d2) == old(
                            self,
                        ).tracker.prepare_voters(v2, s2, d2)
                    &&& forall|v2: u64, s2: u64, d2: u64| #[trigger]
                        final(self).tracker.commit_voters(v2, s2, d2) == old(
                            self,
                        ).tracker.commit_voters(v2, s2, d2)
                    &&& out@ =~= seq![
                        Message::Prepare(
                            Prepare {
                                view: msg.view,
                                seq: msg.seq,
                                digest: msg.digest,
                                replica: old(self).id,
                            },
                        ),
                    ]
                } else {
                    &&& *final(self) == *old(self)
                    &&& out@.len() == 0
                }
            }),
    {
        let mut out: Vec<Message> = Vec::new();
        if !matches!(self.mode, Mode::Normal) {
            return out;
        }
        if msg.view != self.view {
            return out;
        }
        let p = self.config.primary_of(msg.view);
        if self.id == p {
            return out;
        }
        if request_digest(&msg.request) != msg.digest {
            return out;
        }
        if !(msg.seq > self.low && msg.seq - self.low <= self.window) {
            return out;
        }
        match self.find_slot(msg.seq) {
            Some(_) => out,
            None => {
                let ghost log0 = self.log@;
                self.log.push(
                    LogEntry {
                        seq: msg.seq,
                        view: msg.view,
                        digest: msg.digest,
                        request: msg.request,
                        status: SlotStatus::Preprepared,
                    },
                );
                self.tracker.record_prepare(msg.view, msg.seq, msg.digest, p);
                self.tracker.record_prepare(msg.view, msg.seq, msg.digest, self.id);
                out.push(
                    Message::Prepare(
                        Prepare {
                            view: msg.view,
                            seq: msg.seq,
                            digest: msg.digest,
                            replica: self.id,
                        },
                    ),
                );
                proof {
                    assert forall|i: int|
                        0 <= i < self.log@.len() implies self.low < (#[trigger] self.log@[i]).seq
                        <= self.low + self.window by {
                        if i < log0.len() {
                            assert(self.log@[i] == log0[i]);
                        }
                    }
                    assert forall|i: int, j: int|
                        0 <= i < j < self.log@.len() implies (#[trigger] self.log@[i]).seq != (
                    #[trigger] self.log@[j]).seq by {
                        if j < log0.len() {
                            assert(log0[i].seq != log0[j].seq);
                        } else {
                            assert(!has_slot(log0, msg.seq));
                            assert(log0[i].seq != msg.seq);
                        }
                    }
                }
                out
            },
        }
    }

    /// Whether a vote message for `(view, seq)` from `replica` is taken at
    /// all: right view and mode, a named replica, a slot inside the window.
    pub open spec fn accepts_vote(self, view: u64, seq: u64, replica: usize) -> bool {
        &&& self.mode is Normal
        &&& view == self.view
        &&& replica < self.config.n
        &&& self.low < seq <= self.low + self.window
    }

    /// Whether the prepare-quorum transition fires for the slot at `seq`
    /// once the certificate for `(view, seq, digest)` holds `2f + 1` votes:
    /// the slot must hold exactly this proposal and still be `Preprepared`.
    pub open spec fn slot_preparable(self, view: u64, seq: u64, digest: u64) -> bool {
        &&& has_slot(self.log@, seq)
        &&& slot_at(self.log@, seq).view == view
        &&& slot_at(self.log@, seq).digest == digest
        &&& slot_at(self.log@, seq).status is Preprepared
    }

    /// Handle a prepare vote.
    ///
    /// An acceptable vote is recorded (idempotently); when the certificate
    /// for `(view, seq, digest)` reaches `2f + 1` distinct votes and the
    /// slot holds exactly this proposal, the slot becomes `Prepared` and
    /// the replica broadcasts its commit vote, recording it for itself.  A
    /// vote for a mismatched digest still counts for its own certificate
    /// but can never fire the transition for this slot.
    #[verifier::rlimit(100)]
    pub fn on_prepare(&mut self, msg: &Prepare) -> (out: Vec<Message>)
        requires
            old(self).wf(),
        ensures
            final(self).wf(),
            ({
                let voters = old(self).tracker.prepare_voters(msg.view, msg.seq, msg.digest).insert(
                    msg.replica,
                );
                let fires = voters.len() >= old(self).config.quorum_spec() && old(
                    self,
                ).slot_preparable(msg.view, msg.seq, msg.digest);
                if old(self).accepts_vote(msg.view, msg.seq, msg.replica) {
                    &&& *final(self) == (Replica {
                        log: final(self).log,
                        tracker: final(self).tracker,
                        ..*old(self)
                    })
                    &&& final(self).tracker.prepare_voters(msg.view, msg.seq, msg.digest) == voters
                    &&& forall|v2: u64, s2: u64, d2: u64|
                        (v2, s2, d2) != (msg.view, msg.seq, msg.digest)
                            ==> #[trigger] final(self).tracker.prepare_voters(v2, s2, d2) == old(
                            self,
                        ).tracker.prepare_voters(v2, s2, d2)
                    &&& forall|v2: u64, s2: u64, d2: u64|
                        (v2, s2, d2) != (msg.view, msg.seq, msg.digest)
                            ==> #[trigger] final(self).tracker.commit_voters(v2, s2, d2) == old(
                            self,
                        ).tracker.commit_voters(v2, s2, d2)
                    &&& if fires {
                        &&& final(self).log@ == old(self).log@.update(
                            slot_index(old(self).log@, msg.seq),
                            LogEntry {
                                status: SlotStatus::Prepared,
                                ..slot_at(old(self).log@, msg.seq)
                            },
                        )
                        &&& final(self).tracker.commit_voters(msg.view, msg.seq, msg.digest) == old(
                            self,
                        ).tracker.commit_voters(msg.view, msg.seq, msg.digest).insert(old(self).id)
                        &&& out@ =~= seq![
                            Message::Commit(
                                Commit {
                                    view: msg.view,
                                    seq: msg.seq,
                                    digest: msg.digest,
                                    replica: old(self).id,
                                },
                            ),
                        ]
                    } else {
                        &&& final(self).log@ == old(self).log@
                        &&& final(self).tracker.commit_voters(msg.view, msg.seq, msg.digest) == old(
                            self,
                        ).tracker.commit_voters(msg.view, msg.seq, msg.digest)
                        &&& out@.len() == 0
                    }
                } else {
                    &&& *final(self) == *old(self)
                    &&& out@.len() == 0
                }
            }),
    {
        let mut out: Vec<Message> = Vec::new();
        if !matches!(self.mode, Mode::Normal) {
            return out;
        }
        if msg.view != self.view || msg.replica >= self.config.n {
            return out;
        }
        if !(msg.seq > self.low && msg.seq - self.low <= self.window) {
            return out;
        }
        self.tracker.record_prepare(msg.view, msg.seq, msg.digest, msg.replica);
        if self.tracker.prepare_count(msg.view, msg.seq, msg.digest) >= self.config.quorum() {
            match self.find_slot(msg.seq) {
                Some(i) => {
                    let e = self.log[i];
                    proof {
                        lemma_slot_at(self.log@, i as int);
                    }
                    if e.view == msg.view && e.digest == msg.digest && matches!(
                        e.status,
                        SlotStatus::Preprepared,
                    ) {
                        self.log.set(i, LogEntry { status: SlotStatus::Prepared, ..e });
                        self.tracker.record_commit(msg.view, msg.seq, msg.digest, self.id);
                        out.push(
                            Message::Commit(
                                Commit {
                                    view: msg.view,
                                    seq: msg.seq,
                                    digest: msg.digest,
                                    replica: self.id,
                                },
                            ),
                        );
                        proof {
                            let log0 = old(self).log@;
                            let i0 = i as int;
                            assert forall|a: int, b: int|
                                0 <= a < b < self.log@.len() implies (#[trigger] self.log@[a]).seq
                                != (#[trigger] self.log@[b]).seq by {
                                assert(self.log@[a].seq == log0[a].seq);
                                assert(self.log@[b].seq == log0[b].seq);
                            }
                            assert forall|a: int|
                                0 <= a < self.log@.len() implies self.low < (
                            #[trigger] self.log@[a]).seq <= self.low + self.window by {
                                assert(self.log@[a].seq == log0[a].seq);
                            }
                        }
                    }
                },
                None => {},
            }
        }
        out
    }

    /// Whether the commit-quorum transition fires for the slot at `seq`:
    /// the slot must hold exactly this proposal and be `Prepared`.
    pub open spec fn slot_committable(self, view: u64, seq: u64, digest: u64) -> bool {
        &&& has_slot(self.log@, seq)
        &&& slot_at(self.log@, seq).view == view
        &&& slot_at(self.log@, seq).digest == digest
        &&& slot_at(self.log@, seq).status is Prepared
    }

    /// Handle a commit vote.
    ///
    /// An acceptable vote is recorded (idempotently); when the certificate
    /// for `(view, seq, digest)` reaches `2f + 1` distinct commit votes and
    /// the slot holds exactly this proposal in state `Prepared`, the slot
    /// becomes `Committed` — decided for good.  Execution is a separate
    /// step, `execute_ready`.
    #[verifier::rlimit(100)]
    pub fn on_commit(&mut self, msg: &Commit)
        requires
            old(self).wf(),
        ensures
            final(self).wf(),
            ({
                let voters = old(self).tracker.commit_voters(msg.view, msg.seq, msg.digest).insert(
                    msg.replica,
                );
                let fires = voters.len() >= old(self).config.quorum_spec() && old(
                    self,
                ).slot_committable(msg.view, msg.seq, msg.digest);
                if old(self).accepts_vote(msg.view, msg.seq, msg.replica) {
                    &&& *final(self) == (Replica {
                        log: final(self).log,
                        tracker: final(self).tracker,
                        ..*old(self)
                    })
                    &&& final(self).tracker.commit_voters(msg.view, msg.seq, msg.digest) == voters
                    &&& forall|v2: u64, s2: u64, d2: u64|
                        (v2, s2, d2) != (msg.view, msg.seq, msg.digest)
                            ==> #[trigger] final(self).tracker.commit_voters(v2, s2, d2) == old(
                            self,
                        ).tracker.commit_voters(v2, s2, d2)
                    &&& forall|v2: u64, s2: u64, d2: u64| #[trigger]
                        final(self).tracker.prepare_voters(v2, s2, d2) == old(
                            self,
                        ).tracker.prepare_voters(v2, s2, d2)
                    &&& if fires {
                        final(self).log@ == old(self).log@.update(
                            slot_index(old(self).log@, msg.seq),
                            LogEntry {
                                status: SlotStatus::Committed,
                                ..slot_at(old(self).log@, msg.seq)
                            },
                        )
                    } else {
                        final(self).log@ == old(self).log@
                    }
                } else {
                    *final(self) == *old(self)
                }
            }),
    {
        if !matches!(self.mode, Mode::Normal) {
            return ;
        }
        if msg.view != self.view || msg.replica >= self.config.n {
            return ;
        }
        if !(msg.seq > self.low && msg.seq - self.low <= self.window) {
            return ;
        }
        self.tracker.record_commit(msg.view, msg.seq, msg.digest, msg.replica);
        if self.tracker.commit_count(msg.view, msg.seq, msg.digest) >= self.config.quorum() {
            match self.find_slot(msg.seq) {
                Some(i) => {
                    let e = self.log[i];
                    proof {
                        lemma_slot_at(self.log@, i as int);
                    }
                    if e.view == msg.view && e.digest == msg.digest && matches!(
                        e.status,
                        SlotStatus::Prepared,
                    ) {
                        self.log.set(i, LogEntry { status: SlotStatus::Committed, ..e });
                        proof {
                            let log0 = old(self).log@;
                            assert forall|a: int, b: int|
                                0 <= a < b < self.log@.len() implies (#[trigger] self.log@[a]).seq
                                != (#[trigger] self.log@[b]).seq by {
                                assert(self.log@[a].seq == log0[a].seq);
                                assert(self.log@[b].seq == log0[b].seq);
                            }
                            assert forall|a: int|
                                0 <= a < self.log@.len() implies self.low < (
                            #[trigger] self.log@[a]).seq <= self.low + self.window by {
                                assert(self.log@[a].seq == log0[a].seq);
                            }
                        }
                    }
                },
                None => {},
            }
        }
    }

    /// The reply a replica sends after executing the slot `e`: the counter
    /// value equals the sequence number just executed.
    pub open spec fn reply_for_slot(view: u64, id: usize, e: LogEntry) -> Reply {
        Reply {
            view,
            timestamp: e.request.timestamp,
            client: e.request.client,
            replica: id,
            result: e.seq,
        }
    }

    /// The checkpoint certificate for `(seq, state_digest)`; checkpoint
    /// votes are view-independent, so they are keyed under view `0`.
    pub open spec fn cp_voters(self, seq: u64, digest: u64) -> Set<usize> {
        self.cp_tracker.prepare_voters(0, seq, digest)
    }

    /// Apply the next slot in sequence order, if it is decided.
    ///
    /// Slot `n` runs only after slot `n - 1` has run.  Applying a slot
    /// appends its digest to the executed history, folds it into the
    /// running state digest, marks the slot `Executed`, caches the reply
    /// for the client — replacing any older one, so a later resend with
    /// the same timestamp is answered without re-executing — and emits the
    /// reply.  When the sequence number is a multiple of
    /// `checkpoint_interval`, a checkpoint vote for the resulting state
    /// digest is emitted and recorded as well.
    #[verifier::rlimit(100)]
    pub fn execute_one(&mut self) -> (out: Vec<Message>)
        requires
            old(self).wf(),
        ensures
            final(self).wf(),
            *final(self) == (Replica {
                log: final(self).log,
                cp_tracker: final(self).cp_tracker,
                executed: final(self).executed,
                state: final(self).state,
                replies: final(self).replies,
                ..*old(self)
            }),
            ({
                let len = old(self).executed@.len() as int;
                let s64 = (len + 1) as u64;
                let can = len < u64::MAX && has_slot(old(self).log@, s64) && slot_at(
                    old(self).log@,
                    s64,
                ).status is Committed;
                if can {
                    let e = slot_at(old(self).log@, s64);
                    let rep = Self::reply_for_slot(old(self).view, old(self).id, e);
                    &&& final(self).executed@ == old(self).executed@.push(e.digest)
                    &&& final(self).log@ == old(self).log@.update(
                        slot_index(old(self).log@, s64),
                        LogEntry { status: SlotStatus::Executed, ..e },
                    )
                    &&& cached_for(final(self).replies@, e.request.client) == Some(rep)
                    &&& forall|c: u64|
                        c != e.request.client ==> cached_for(final(self).replies@, c) == cached_for(
                            old(self).replies@,
                            c,
                        )
                    &&& if s64 % old(self).checkpoint_interval == 0 {
                        &&& out@ =~= seq![
                            Message::Reply(rep),
                            Message::Checkpoint(
                                Checkpoint {
                                    seq: s64,
                                    state_digest: state_digest_spec(final(self).executed@),
                                    replica: old(self).id,
                                },
                            ),
                        ]
                        &&& final(self).cp_voters(s64, final(self).state) == old(self).cp_voters(
                            s64,
                            final(self).state,
                        ).insert(old(self).id)
                        &&& forall|s2: u64, d2: u64|
                            (s2, d2) != (s64, final(self).state)
                                ==> #[trigger] final(self).cp_voters(s2, d2) == old(
                                self,
                            ).cp_voters(s2, d2)
                    } else {
                        &&& out@ =~= seq![Message::Reply(rep)]
                        &&& final(self).cp_tracker == old(self).cp_tracker
                    }
                } else {
                    &&& *final(self) == *old(self)
                    &&& out@.len() == 0
                }
            }),
    {
        let mut out: Vec<Message> = Vec::new();
        let len64: u64 = self.executed.len() as u64;
        if len64 == u64::MAX {
            // The sequence space is exhausted; nothing further can run.
            return out;
        }
        let next: u64 = len64 + 1;
        match self.find_slot(next) {
            None => out,
            Some(i) => {
                let e = self.log[i];
                proof {
                    lemma_slot_at(self.log@, i as int);
                }
                if !matches!(e.status, SlotStatus::Committed) {
                    return out;
                }
                let ghost exec_pre = self.executed@;
                self.executed.push(e.digest);
                self.state = self.state.wrapping_mul(crate::digest::MIX_FACTOR).wrapping_add(
                    e.digest,
                );
                proof {
                    assert(self.executed@.drop_last() =~= exec_pre);
                    assert(self.executed@.last() == e.digest);
                }
                self.log.set(i, LogEntry { status: SlotStatus::Executed, ..e });
                let rep = Reply {
                    view: self.view,
                    timestamp: e.request.timestamp,
                    client: e.request.client,
                    replica: self.id,
                    result: next,
                };
                cache_reply(&mut self.replies, rep);
                out.push(Message::Reply(rep));
                if next % self.checkpoint_interval == 0 {
                    self.cp_tracker.record_prepare(0, next, self.state, self.id);
                    out.push(
                        Message::Checkpoint(
                            Checkpoint { seq: next, state_digest: self.state, replica: self.id },
                        ),
                    );
                }
                proof {
                    let log0 = old(self).log@;
                    assert forall|a: int, b: int|
                        0 <= a < b < self.log@.len() implies (#[trigger] self.log@[a]).seq != (
                    #[trigger] self.log@[b]).seq by {
                        assert(self.log@[a].seq == log0[a].seq);
                        assert(self.log@[b].seq == log0[b].seq);
                    }
                    assert forall|a: int|
                        0 <= a < self.log@.len() implies self.low < (#[trigger] self.log@[a]).seq
                        <= self.low + self.window by {
                        assert(self.log@[a].seq == log0[a].seq);
                    }
                }
                out
            },
        }
    }

    /// Apply every decided slot, strictly in sequence order: run
    /// `execute_one` until the next slot in order is not yet committed.
    /// Each appended history digest is the digest of the log slot executed
    /// at that position; the per-step effects — replies, reply caching,
    /// checkpoint votes — are those of `execute_one`.
    #[verifier::rlimit(100)]
    pub fn execute_ready(&mut self) -> (out: Vec<Message>)
        requires
            old(self).wf(),
        ensures
            final(self).wf(),
            *final(self) == (Replica {
                log: final(self).log,
                cp_tracker: final(self).cp_tracker,
                executed: final(self).executed,
                state: final(self).state,
                replies: final(self).replies,
                ..*old(self)
            }),
            old(self).executed@.is_prefix_of(final(self).executed@),
            final(self).executed@.len() < u64::MAX ==> !(has_slot(
                final(self).log@,
                (final(self).executed@.len() + 1) as u64,
            ) && slot_at(final(self).log@, (final(self).executed@.len() + 1) as u64).status
                is Committed),
    {
        let mut out: Vec<Message> = Vec::new();
        let ghost exec0 = old(self).executed@;
        loop
            invariant
                self.wf(),
                *self == (Replica {
                    log: self.log,
                    cp_tracker: self.cp_tracker,
                    executed: self.executed,
                    state: self.state,
                    replies: self.replies,
                    ..*old(self)
                }),
                exec0 == old(self).executed@,
                exec0.is_prefix_of(self.executed@),
            ensures
                self.executed@.len() < u64::MAX ==> !(has_slot(
                    self.log@,
                    (self.executed@.len() + 1) as u64,
                ) && slot_at(self.log@, (self.executed@.len() + 1) as u64).status is Committed),
            decreases self.low as int + self.window as int - self.executed@.len(),
        {
            let ghost pre = *self;
            let mut step = self.execute_one();
            if step.len() == 0 {
                proof {
                    assert(*self == pre);
                }
                break ;
            }
            out.append(&mut step);
        }
        out
    }


    /// Handle a checkpoint vote.
    ///
    /// A vote from a named replica is recorded (idempotently).  Once
    /// `2f + 1` distinct replicas vouch for the same `(seq, state_digest)`
    /// above the current low watermark, the checkpoint becomes stable: the
    /// watermark advances to `seq` and every log slot at or below it is
    /// discarded.
    #[verifier::rlimit(100)]
    pub fn on_checkpoint(&mut self, msg: &Checkpoint)
        requires
            old(self).wf(),
        ensures
            final(self).wf(),
            ({
                let voters = old(self).cp_voters(msg.seq, msg.state_digest).insert(msg.replica);
                let stabilizes = voters.len() >= old(self).config.quorum_spec() && msg.seq > old(
                    self,
                ).low;
                if msg.replica < old(self).config.n {
                    &&& *final(self) == (Replica {
                        low: final(self).low,
                        stable_digest: final(self).stable_digest,
                        log: final(self).log,
                        cp_tracker: final(self).cp_tracker,
                        ..*old(self)
                    })
                    &&& final(self).cp_voters(msg.seq, msg.state_digest) == voters
                    &&& forall|s2: u64, d2: u64|
                        (s2, d2) != (msg.seq, msg.state_digest)
                            ==> #[trigger] final(self).cp_voters(s2, d2) == old(
                            self,
                        ).cp_voters(s2, d2)
                    &&& if stabilizes {
                        &&& final(self).low == msg.seq
                        &&& final(self).stable_digest == msg.state_digest
                        &&& final(self).log@ == compacted(old(self).log@, msg.seq)
                    } else {
                        &&& final(self).low == old(self).low
                        &&& final(self).stable_digest == old(self).stable_digest
                        &&& final(self).log@ == old(self).log@
                    }
                } else {
                    *final(self) == *old(self)
                }
            }),
    {
        if msg.replica >= self.config.n {
            return ;
        }
        self.cp_tracker.record_prepare(0, msg.seq, msg.state_digest, msg.replica);
        if self.cp_tracker.prepare_count(0, msg.seq, msg.state_digest) >= self.config.quorum()
            && msg.seq > self.low {
            let ghost log0 = self.log@;
            let mut kept: Vec<LogEntry> = Vec::new();
            let mut i: usize = 0;
            while i < self.log.len()
                invariant
                    0 <= i <= self.log@.len(),
                    self.log@ == log0,
                    kept@ == compacted(log0.take(i as int), msg.seq),
                decreases self.log@.len() - i,
            {
                let e = self.log[i];
                proof {
                    assert(log0.take(i + 1).drop_last() =~= log0.take(i as int));
                    assert(log0.take(i + 1).last() == log0[i as int]);
                }
                if e.seq > msg.seq {
                    kept.push(e);
                }
                i = i + 1;
            }
            proof {
                assert(log0.take(log0.len() as int) =~= log0);
                lemma_compacted(log0, msg.seq);
            }
            self.log = kept;
            let ghost low0 = self.low;
            self.low = msg.seq;
            self.stable_digest = msg.state_digest;
            proof {
                assert forall|a: int|
                    0 <= a < self.log@.len() implies self.low < (#[trigger] self.log@[a]).seq
                    <= self.low + self.window by {
                    let j = choose|j: int| 0 <= j < log0.len() && log0[j] == self.log@[a];
                    assert(log0[j].seq <= low0 + self.window);
                }
            }
        }
    }
}

} // verus!
