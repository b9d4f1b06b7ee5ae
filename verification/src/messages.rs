//! The closed set of protocol messages.
//!
//! All payloads are plain integers: a request's operation is an opaque
//! operation code, digests are 64-bit fingerprints, and timestamps are
//! client-chosen numbers used only for duplicate suppression.  Replicas are
//! named by their index in `0..n`.

use vstd::prelude::*;

verus! {

/// A state-transition request from a client.
#[derive(Clone, Copy, Debug, PartialEq, Eq, Structural)]
pub struct Request {
    /// The submitting client.
    pub client: u64,
    /// Opaque operation code for the replicated state machine.
    pub op: u64,
    /// Client-chosen timestamp; two submissions with the same client and
    /// timestamp are the same request.
    pub timestamp: u64,
}

/// The primary's ordering proposal: request `request` runs at sequence
/// number `seq` in view `view`.
#[derive(Clone, Copy, Debug, PartialEq, Eq, Structural)]
pub struct PrePrepare {
    pub view: u64,
    pub seq: u64,
    /// Fingerprint of `request`; receivers recompute and compare it.
    pub digest: u64,
    pub request: Request,
}

/// A backup's vote that it accepted the proposal `(view, seq, digest)`.
#[derive(Clone, Copy, Debug, PartialEq, Eq, Structural)]
pub struct Prepare {
    pub view: u64,
    pub seq: u64,
    pub digest: u64,
    /// The voting replica.
    pub replica: usize,
}

/// A replica's vote that `(view, seq, digest)` is prepared at a quorum.
#[derive(Clone, Copy, Debug, PartialEq, Eq, Structural)]
pub struct Commit {
    pub view: u64,
    pub seq: u64,
    pub digest: u64,
    /// The voting replica.
    pub replica: usize,
}

/// A replica's claim that after executing through `seq` its state has
/// fingerprint `state_digest`.
#[derive(Clone, Copy, Debug, PartialEq, Eq, Structural)]
pub struct Checkpoint {
    pub seq: u64,
    pub state_digest: u64,
    /// The voting replica.
    pub replica: usize,
}

/// Summary of a prepared certificate, carried inside a view change: the
/// sender saw `(view, seq, digest)` reach `2f + 1` prepare votes.
#[derive(Clone, Copy, Debug, PartialEq, Eq, Structural)]
pub struct PreparedCert {
    pub view: u64,
    pub seq: u64,
    pub digest: u64,
    /// The request the certificate is about, so a new primary can
    /// re-propose it even when it never saw the original proposal.
    pub request: Request,
}

/// A replica's demand to replace the primary: it moves to `new_view` and
/// reports everything it prepared above its last stable checkpoint.
#[derive(Clone, Debug)]
pub struct ViewChange {
    pub new_view: u64,
    /// The sender.
    pub replica: usize,
    /// Sequence number of the sender's last stable checkpoint.
    pub checkpoint_seq: u64,
    /// State fingerprint of that checkpoint.
    pub checkpoint_digest: u64,
    /// Certificates the sender collected above the checkpoint.
    pub prepared: Vec<PreparedCert>,
}

/// The new primary's opening move: the proposals that carry every possibly
/// committed slot into `new_view`, justified by `2f + 1` view changes.
#[derive(Clone, Debug)]
pub struct NewView {
    pub new_view: u64,
    /// Re-proposals for every slot referenced by the proofs.
    pub preprepares: Vec<PrePrepare>,
    /// The collected view-change messages justifying the selection.
    pub proofs: Vec<ViewChange>,
}

/// A replica's answer to a client after executing its request.
#[derive(Clone, Copy, Debug, PartialEq, Eq, Structural)]
pub struct Reply {
    /// View in which the request executed.
    pub view: u64,
    /// Timestamp copied from the request.
    pub timestamp: u64,
    /// The client addressed.
    pub client: u64,
    /// The answering replica.
    pub replica: usize,
    /// Result of the replicated state machine.
    pub result: u64,
}

/// Every message the protocol exchanges.
#[derive(Clone, Debug)]
pub enum Message {
    Request(Request),
    PrePrepare(PrePrepare),
    Prepare(Prepare),
    Commit(Commit),
    Checkpoint(Checkpoint),
    ViewChange(ViewChange),
    NewView(NewView),
    Reply(Reply),
}

} // verus!
