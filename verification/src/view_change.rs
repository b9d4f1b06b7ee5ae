//! Timeout-driven leader replacement.
//!
//! When a replica's request timer expires before the slot commits, it moves
//! to the next view, stops normal-case processing, and reports everything
//! it prepared to the prospective primary.  That primary collects `2f + 1`
//! such reports, re-proposes for every referenced slot the prepared
//! certificate with the highest view — or a no-op filler where a slot in
//! range has none — and opens the new view with the proposals and their
//! justifying proofs.  Receivers validate a new view by recomputing that
//! selection from the included proofs; a slot already committed locally is
//! never overwritten.

use vstd::prelude::*;

use crate::digest::request_digest;
use crate::messages::Message;
use crate::messages::PrePrepare;
use crate::messages::Prepare;
use crate::messages::PreparedCert;
use crate::messages::Request;
use crate::messages::ViewChange;
use crate::messages::NewView;
use crate::replica::LogEntry;
use crate::replica::Mode;
use crate::replica::Replica;
use crate::replica::SlotStatus;
use crate::replica::committed_immutable;
use crate::replica::status_rank;

verus! {

/// The certificates a replica reports in a view change: one for every log
/// slot at `Prepared` or beyond, in log order.
pub open spec fn prepared_summary(s: Seq<LogEntry>) -> Seq<PreparedCert>
    decreases s.len(),
{
    if s.len() == 0 {
        Seq::empty()
    } else {
        let rest = prepared_summary(s.drop_last());
        if !(s.last().status is Preprepared) {
            rest.push(
                PreparedCert {
                    view: s.last().view,
                    seq: s.last().seq,
                    digest: s.last().digest,
                    request: s.last().request,
                },
            )
        } else {
            rest
        }
    }
}

/// The no-op filler request.
pub open spec fn noop_request_spec() -> Request {
    Request { client: 0, op: 0, timestamp: 0 }
}

/// The request re-proposed for a slot that must be filled but has no
/// prepared certificate: a no-op the state machine executes without effect
/// on any client's protocol state.
pub fn noop_request() -> (r: Request)
    ensures
        r == noop_request_spec(),
{
    Request { client: 0, op: 0, timestamp: 0 }
}

/// The certificates of one report whose digest really fingerprints their
/// request; the others are forgeries or corruption and are ignored.
pub open spec fn valid_of(cs: Seq<PreparedCert>) -> Seq<PreparedCert>
    decreases cs.len(),
{
    if cs.len() == 0 {
        Seq::empty()
    } else {
        let rest = valid_of(cs.drop_last());
        if cs.last().digest == crate::digest::request_digest_spec(cs.last().request) {
            rest.push(cs.last())
        } else {
            rest
        }
    }
}

/// All valid certificates carried by the reports that demand `nv`, in
/// report order.
pub open spec fn valid_certs_of(msgs: Seq<ViewChange>, nv: u64) -> Seq<PreparedCert>
    decreases msgs.len(),
{
    if msgs.len() == 0 {
        Seq::empty()
    } else {
        let rest = valid_certs_of(msgs.drop_last(), nv);
        if msgs.last().new_view == nv {
            rest + valid_of(msgs.last().prepared@)
        } else {
            rest
        }
    }
}

/// Every valid certificate fingerprints its request.
proof fn lemma_valid_of(cs: Seq<PreparedCert>)
    ensures
        forall|t: int|
            0 <= t < valid_of(cs).len() ==> (#[trigger] valid_of(cs)[t]).digest
                == crate::digest::request_digest_spec(valid_of(cs)[t].request),
    decreases cs.len(),
{
    if cs.len() > 0 {
        lemma_valid_of(cs.drop_last());
        let rest = valid_of(cs.drop_last());
        assert forall|t: int|
            0 <= t < valid_of(cs).len() implies (#[trigger] valid_of(cs)[t]).digest
            == crate::digest::request_digest_spec(valid_of(cs)[t].request) by {
            if t < rest.len() {
                assert(valid_of(cs)[t] == rest[t]);
            } else {
                assert(valid_of(cs)[t] == cs.last());
            }
        }
    }
}

/// Every collected certificate fingerprints its request.
proof fn lemma_valid_certs_of(msgs: Seq<ViewChange>, nv: u64)
    ensures
        forall|t: int|
            0 <= t < valid_certs_of(msgs, nv).len() ==> (#[trigger] valid_certs_of(msgs, nv)[t]).digest
                == crate::digest::request_digest_spec(valid_certs_of(msgs, nv)[t].request),
    decreases msgs.len(),
{
    if msgs.len() > 0 {
        lemma_valid_certs_of(msgs.drop_last(), nv);
        lemma_valid_of(msgs.last().prepared@);
        let rest = valid_certs_of(msgs.drop_last(), nv);
        let add = valid_of(msgs.last().prepared@);
        assert forall|t: int|
            0 <= t < valid_certs_of(msgs, nv).len() implies (#[trigger] valid_certs_of(msgs, nv)[t]).digest
            == crate::digest::request_digest_spec(valid_certs_of(msgs, nv)[t].request) by {
            if msgs.last().new_view == nv {
                if t < rest.len() {
                    assert(valid_certs_of(msgs, nv)[t] == rest[t]);
                } else {
                    assert(valid_certs_of(msgs, nv)[t] == add[t - rest.len()]);
                }
            } else {
                assert(valid_certs_of(msgs, nv)[t] == rest[t]);
            }
        }
    }
}

/// The highest stable checkpoint reported by the demands for `nv`.
pub open spec fn highest_cp(msgs: Seq<ViewChange>, nv: u64) -> u64
    decreases msgs.len(),
{
    if msgs.len() == 0 {
        0
    } else {
        let rest = highest_cp(msgs.drop_last(), nv);
        if msgs.last().new_view == nv && msgs.last().checkpoint_seq > rest {
            msgs.last().checkpoint_seq
        } else {
            rest
        }
    }
}

/// The selection rule for one slot: the proposal carries the digest and
/// request of a valid certificate for `s` whose view no other valid
/// certificate for `s` exceeds; where no valid certificate for `s` exists,
/// it carries the no-op filler.
#[verifier::opaque]
pub open spec fn selection_of(certs: Seq<PreparedCert>, nv: u64, s: u64, pp: PrePrepare) -> bool {
    &&& pp.view == nv
    &&& pp.seq == s
    &&& pp.digest == crate::digest::request_digest_spec(pp.request)
    &&& if exists|t: int| 0 <= t < certs.len() && (#[trigger] certs[t]).seq == s {
        exists|t: int|
            0 <= t < certs.len() && (#[trigger] certs[t]).seq == s && certs[t].digest == pp.digest
                && certs[t].request == pp.request && (forall|u: int|
                0 <= u < certs.len() && (#[trigger] certs[u]).seq == s ==> certs[u].view
                    <= certs[t].view)
    } else {
        pp.request == noop_request_spec()
    }
}

/// What a set of re-proposals must be, given the demands for `nv`: one
/// proposal per sequence number from just above the highest reported
/// checkpoint through the highest slot any valid certificate names, each
/// chosen by the selection rule.
pub open spec fn reproposals_valid(pps: Seq<PrePrepare>, msgs: Seq<ViewChange>, nv: u64) -> bool {
    let certs = valid_certs_of(msgs, nv);
    let base = highest_cp(msgs, nv);
    &&& base + pps.len() <= u64::MAX
    &&& forall|k: int|
        0 <= k < pps.len() ==> selection_of(certs, nv, (base + 1 + k) as u64, #[trigger] pps[k])
    &&& forall|t: int| 0 <= t < certs.len() ==> (#[trigger] certs[t]).seq <= base + pps.len()
    &&& pps.len() > 0 ==> exists|t: int|
        0 <= t < certs.len() && (#[trigger] certs[t]).seq == base + pps.len()
}

/// Whether a report from `rep` demanding `nv` was already collected.
pub open spec fn has_vc(s: Seq<ViewChange>, nv: u64, rep: usize) -> bool {
    exists|i: int| 0 <= i < s.len() && (#[trigger] s[i]).new_view == nv && s[i].replica == rep
}

/// The collected reports demanding `nv`, in arrival order.
pub open spec fn demands_for(s: Seq<ViewChange>, nv: u64) -> Seq<ViewChange>
    decreases s.len(),
{
    if s.len() == 0 {
        Seq::empty()
    } else {
        let rest = demands_for(s.drop_last(), nv);
        if s.last().new_view == nv {
            rest.push(s.last())
        } else {
            rest
        }
    }
}

/// Field-by-field equality of two reports.
pub open spec fn same_vc(a: ViewChange, b: ViewChange) -> bool {
    &&& a.new_view == b.new_view
    &&& a.replica == b.replica
    &&& a.checkpoint_seq == b.checkpoint_seq
    &&& a.checkpoint_digest == b.checkpoint_digest
    &&& a.prepared@ == b.prepared@
}

/// Copy a report; the derived clone of a vector-bearing type says nothing,
/// so the copy is spelled out.
fn copy_vc(v: &ViewChange) -> (r: ViewChange)
    ensures
        same_vc(r, *v),
{
    let mut certs: Vec<PreparedCert> = Vec::new();
    let mut i: usize = 0;
    while i < v.prepared.len()
        invariant
            0 <= i <= v.prepared@.len(),
            certs@ == v.prepared@.take(i as int),
        decreases v.prepared@.len() - i,
    {
        proof {
            assert(v.prepared@.take(i + 1) =~= v.prepared@.take(i as int).push(
                v.prepared@[i as int],
            ));
        }
        certs.push(v.prepared[i]);
        i = i + 1;
    }
    proof {
        assert(v.prepared@.take(v.prepared@.len() as int) =~= v.prepared@);
    }
    ViewChange {
        new_view: v.new_view,
        replica: v.replica,
        checkpoint_seq: v.checkpoint_seq,
        checkpoint_digest: v.checkpoint_digest,
        prepared: certs,
    }
}

/// Gather all valid certificates of the demands for `nv`, in order.
fn collect_valid_certs(msgs: &Vec<ViewChange>, nv: u64) -> (certs: Vec<PreparedCert>)
    ensures
        certs@ == valid_certs_of(msgs@, nv),
{
    let mut certs: Vec<PreparedCert> = Vec::new();
    let mut i: usize = 0;
    while i < msgs.len()
        invariant
            0 <= i <= msgs@.len(),
            certs@ == valid_certs_of(msgs@.take(i as int), nv),
        decreases msgs@.len() - i,
    {
        let m = &msgs[i];
        proof {
            assert(msgs@.take(i + 1).drop_last() =~= msgs@.take(i as int));
            assert(msgs@.take(i + 1).last() == msgs@[i as int]);
        }
        if m.new_view == nv {
            let ghost certs0 = certs@;
            let mut j: usize = 0;
            while j < m.prepared.len()
                invariant
                    0 <= j <= m.prepared@.len(),
                    certs@ == certs0 + valid_of(m.prepared@.take(j as int)),
                decreases m.prepared@.len() - j,
            {
                let c = m.prepared[j];
                proof {
                    assert(m.prepared@.take(j + 1).drop_last() =~= m.prepared@.take(j as int));
                    assert(m.prepared@.take(j + 1).last() == m.prepared@[j as int]);
                }
                if request_digest(&c.request) == c.digest {
                    certs.push(c);
                    proof {
                        assert(certs@ =~= certs0 + valid_of(m.prepared@.take(j + 1)));
                    }
                } else {
                    proof {
                        assert(certs@ =~= certs0 + valid_of(m.prepared@.take(j + 1)));
                    }
                }
                j = j + 1;
            }
            proof {
                assert(m.prepared@.take(m.prepared@.len() as int) =~= m.prepared@);
                assert(certs@ =~= valid_certs_of(msgs@.take(i + 1), nv));
            }
        } else {
            proof {
                assert(certs@ =~= valid_certs_of(msgs@.take(i + 1), nv));
            }
        }
        i = i + 1;
    }
    proof {
        assert(msgs@.take(msgs@.len() as int) =~= msgs@);
    }
    certs
}

/// Build the re-proposals for `new_view` from the collected reports: for
/// every sequence number from just above the highest reported stable
/// checkpoint through the highest slot any valid certificate names, the
/// certificate with the highest view wins; a slot without one gets a
/// no-op filler.
#[verifier::rlimit(100)]
fn build_reproposals(msgs: &Vec<ViewChange>, new_view: u64) -> (out: Vec<PrePrepare>)
    ensures
        forall|k: int|
            0 <= k < out@.len() ==> (#[trigger] out@[k]).view == new_view && out@[k].digest
                == crate::digest::request_digest_spec(out@[k].request),
{
    let ghost gcerts = valid_certs_of(msgs@, new_view);
    let certs = collect_valid_certs(msgs, new_view);
    proof {
        lemma_valid_certs_of(msgs@, new_view);
    }
    // The highest checkpoint any demand reports.
    let mut base: u64 = 0;
    let mut i: usize = 0;
    while i < msgs.len()
        invariant
            0 <= i <= msgs@.len(),
            base == highest_cp(msgs@.take(i as int), new_view),
        decreases msgs@.len() - i,
    {
        let m = &msgs[i];
        proof {
            assert(msgs@.take(i + 1).drop_last() =~= msgs@.take(i as int));
            assert(msgs@.take(i + 1).last() == msgs@[i as int]);
        }
        if m.new_view == new_view && m.checkpoint_seq > base {
            base = m.checkpoint_seq;
        }
        i = i + 1;
    }
    proof {
        assert(msgs@.take(msgs@.len() as int) =~= msgs@);
    }
    // The highest slot any valid certificate names.
    let mut top: u64 = 0;
    let mut t: usize = 0;
    while t < certs.len()
        invariant
            0 <= t <= certs@.len(),
            certs@ == gcerts,
            forall|u: int| 0 <= u < t ==> (#[trigger] certs@[u]).seq <= top,
            top == 0 || exists|u: int| 0 <= u < t && (#[trigger] certs@[u]).seq == top,
        decreases certs@.len() - t,
    {
        if certs[t].seq > top {
            top = certs[t].seq;
        }
        t = t + 1;
    }
    let mut out: Vec<PrePrepare> = Vec::new();
    if top <= base {
        return out;
    }
    let mut s: u64 = base + 1;
    while s <= top
        invariant
            certs@ == gcerts,
            base < s <= top,
            forall|t2: int|
                0 <= t2 < certs@.len() ==> (#[trigger] certs@[t2]).digest
                    == crate::digest::request_digest_spec(certs@[t2].request),
            forall|k: int|
                0 <= k < out@.len() ==> (#[trigger] out@[k]).view == new_view && out@[k].digest
                    == crate::digest::request_digest_spec(out@[k].request),
        decreases top - s,
    {
        match select_for_slot(&certs, s) {
            Some(c) => {
                out.push(
                    PrePrepare { view: new_view, seq: s, digest: c.digest, request: c.request },
                );
            },
            None => {
                let req = noop_request();
                let d = request_digest(&req);
                out.push(PrePrepare { view: new_view, seq: s, digest: d, request: req });
            },
        }
        if s == top {
            break ;
        }
        s = s + 1;
    }
    out
}

/// The valid certificate for slot `s` with the highest view, if any.
fn select_for_slot(certs: &Vec<PreparedCert>, s: u64) -> (r: Option<PreparedCert>)
    requires
        forall|t: int|
            0 <= t < certs@.len() ==> (#[trigger] certs@[t]).digest
                == crate::digest::request_digest_spec(certs@[t].request),
    ensures
        match r {
            Some(c) => exists|t: int|
                0 <= t < certs@.len() && #[trigger] certs@[t] == c && c.seq == s && (forall|u: int|
                    0 <= u < certs@.len() && (#[trigger] certs@[u]).seq == s ==> certs@[u].view
                        <= c.view) && c.digest == crate::digest::request_digest_spec(c.request),
            None => forall|u: int| 0 <= u < certs@.len() ==> (#[trigger] certs@[u]).seq != s,
        },
{
    let mut best: Option<PreparedCert> = None;
    let mut t2: usize = 0;
    while t2 < certs.len()
        invariant
            0 <= t2 <= certs@.len(),
            best is None ==> forall|u: int| 0 <= u < t2 ==> (#[trigger] certs@[u]).seq != s,
            best is Some ==> exists|u: int|
                0 <= u < t2 && #[trigger] certs@[u] == best->0 && certs@[u].seq == s,
            best is Some ==> forall|u: int|
                0 <= u < t2 && (#[trigger] certs@[u]).seq == s ==> certs@[u].view <= best->0.view,
        decreases certs@.len() - t2,
    {
        let c = certs[t2];
        if c.seq == s {
            let better = match &best {
                None => true,
                Some(b) => c.view > b.view,
            };
            if better {
                best = Some(c);
            }
        }
        t2 = t2 + 1;
    }
    proof {
        if best is Some {
            let u = choose|u: int|
                0 <= u < certs@.len() && #[trigger] certs@[u] == best->0 && certs@[u].seq == s;
            assert(certs@[u].digest == crate::digest::request_digest_spec(certs@[u].request));
        }
    }
    best
}

impl Replica {
    /// The view-change message this replica sends when its timer expires:
    /// the next view, its last stable checkpoint, and a certificate for
    /// every slot it holds at `Prepared` or beyond.
    fn make_view_change(&self, new_view: u64) -> (vc: ViewChange)
        ensures
            vc.new_view == new_view,
            vc.replica == self.id,
            vc.checkpoint_seq == self.low,
            vc.checkpoint_digest == self.stable_digest,
            vc.prepared@ == prepared_summary(self.log@),
    {
        let mut certs: Vec<PreparedCert> = Vec::new();
        let mut i: usize = 0;
        while i < self.log.len()
            invariant
                0 <= i <= self.log@.len(),
                certs@ == prepared_summary(self.log@.take(i as int)),
            decreases self.log@.len() - i,
        {
            let e = &self.log[i];
            proof {
                assert(self.log@.take(i + 1).drop_last() =~= self.log@.take(i as int));
                assert(self.log@.take(i + 1).last() == self.log@[i as int]);
            }
            if !matches!(e.status, SlotStatus::Preprepared) {
                certs.push(PreparedCert { view: e.view, seq: e.seq, digest: e.digest, request: e.request });
            }
            i = i + 1;
        }
        proof {
            assert(self.log@.take(self.log@.len() as int) =~= self.log@);
        }
        ViewChange {
            new_view,
            replica: self.id,
            checkpoint_seq: self.low,
            checkpoint_digest: self.stable_digest,
            prepared: certs,
        }
    }

    /// An expired request timer is the sole trigger for a view change: the
    /// replica moves to the next view, refuses normal-case messages of the
    /// old one, and broadcasts its view change.  If the replica is itself
    /// the prospective primary, it also counts its own report.
    pub fn on_timeout(&mut self) -> (out: Vec<Message>)
        requires
            old(self).wf(),
        ensures
            final(self).wf(),
            final(self).view >= old(self).view,
            old(self).view == u64::MAX ==> *final(self) == *old(self) && out@.len() == 0,
            old(self).view < u64::MAX ==> ({
                let nv = (old(self).view + 1) as u64;
                &&& *final(self) == (Replica {
                    view: final(self).view,
                    mode: final(self).mode,
                    vc_msgs: final(self).vc_msgs,
                    ..*old(self)
                })
                &&& final(self).view == nv
                &&& final(self).mode is ViewChanging
                &&& out@.len() == 1
                &&& out@[0] is ViewChange
                &&& ({
                    let vc = out@[0]->ViewChange_0;
                    vc.new_view == nv && vc.replica == old(self).id && vc.checkpoint_seq == old(
                        self,
                    ).low && vc.checkpoint_digest == old(self).stable_digest && vc.prepared@
                        == prepared_summary(old(self).log@)
                })
                &&& if old(self).id == old(self).config.primary_spec(nv) {
                    &&& final(self).vc_msgs@.len() == old(self).vc_msgs@.len() + 1
                    &&& final(self).vc_msgs@.drop_last() == old(self).vc_msgs@
                    &&& ({
                        let lv = final(self).vc_msgs@.last();
                        lv.new_view == nv && lv.replica == old(self).id && lv.checkpoint_seq
                            == old(self).low && lv.checkpoint_digest == old(self).stable_digest
                            && lv.prepared@ == prepared_summary(old(self).log@)
                    })
                } else {
                    final(self).vc_msgs@ == old(self).vc_msgs@
                }
            }),
    {
        let mut out: Vec<Message> = Vec::new();
        if self.view == u64::MAX {
            // The view space is exhausted; no further change is possible.
            return out;
        }
        let nv = self.view + 1;
        self.view = nv;
        self.mode = Mode::ViewChanging;
        if self.config.primary_of(nv) == self.id {
            let own = self.make_view_change(nv);
            self.vc_msgs.push(own);
            proof {
                assert(self.vc_msgs@.drop_last() =~= old(self).vc_msgs@);
            }
        }
        let vc = self.make_view_change(nv);
        out.push(Message::ViewChange(vc));
        out
    }

    /// Handle a view-change report.
    ///
    /// Only the prospective primary of the named view collects reports,
    /// one per replica.  Once `2f + 1` distinct replicas demand the view,
    /// it builds the re-proposals, installs them, enters the new view as
    /// its primary, and opens it with a new-view message.
    pub fn on_view_change(&mut self, msg: ViewChange) -> (out: Vec<Message>)
        requires
            old(self).wf(),
        ensures
            final(self).wf(),
            final(self).view >= old(self).view,
    {
        let mut out: Vec<Message> = Vec::new();
        if msg.replica >= self.config.n || msg.new_view < self.view {
            return out;
        }
        if self.config.primary_of(msg.new_view) != self.id {
            return out;
        }
        // One report per replica and view.
        let mut i: usize = 0;
        while i < self.vc_msgs.len()
            invariant
                self.wf(),
                *self == *old(self),
            decreases self.vc_msgs@.len() - i,
        {
            let m = &self.vc_msgs[i];
            if m.new_view == msg.new_view && m.replica == msg.replica {
                return out;
            }
            i = i + 1;
        }
        let nv = msg.new_view;
        self.vc_msgs.push(msg);
        // Count distinct demanders of `nv`; senders are deduplicated above.
        let mut count: usize = 0;
        let mut i2: usize = 0;
        while i2 < self.vc_msgs.len()
            invariant
                count <= i2 <= self.vc_msgs@.len(),
                self.wf(),
                self.view == old(self).view,
                self.config == old(self).config,
                self.id == old(self).id,
                nv >= self.view,
            decreases self.vc_msgs@.len() - i2,
        {
            if self.vc_msgs[i2].new_view == nv {
                count = count + 1;
            }
            i2 = i2 + 1;
        }
        if count >= self.config.quorum() {
            let pps = build_reproposals(&self.vc_msgs, nv);
            self.view = nv;
            self.mode = Mode::Normal;
            self.install_reproposals(&pps, nv);
            let mut proofs: Vec<ViewChange> = Vec::new();
            let mut i3: usize = 0;
            while i3 < self.vc_msgs.len()
                invariant
                    self.wf(),
                    self.view >= old(self).view,
                decreases self.vc_msgs@.len() - i3,
            {
                if self.vc_msgs[i3].new_view == nv {
                    proofs.push(self.vc_msgs[i3].clone());
                }
                i3 = i3 + 1;
            }
            out.push(Message::NewView(NewView { new_view: nv, preprepares: pps, proofs }));
        }
        out
    }

    /// Install the re-proposals of a new view into the log: a free slot in
    /// the watermark window is filled as `Preprepared`; a slot already held
    /// below `Committed` is overwritten with the new view's proposal; a
    /// committed slot is never touched.
    fn install_reproposals(&mut self, pps: &Vec<PrePrepare>, nv: u64)
        requires
            old(self).wf(),
        ensures
            final(self).wf(),
            committed_immutable(old(self).log@, final(self).log@),
            *final(self) == (Replica {
                log: final(self).log,
                next_seq: final(self).next_seq,
                ..*old(self)
            }),
    {
        let ghost log00 = self.log@;
        let mut k: usize = 0;
        while k < pps.len()
            invariant
                self.wf(),
                committed_immutable(log00, self.log@),
                *self == (Replica { log: self.log, next_seq: self.next_seq, ..*old(self) }),
                log00 == old(self).log@,
                self.log@.len() >= log00.len(),
                forall|a: int| 0 <= a < log00.len() ==> (#[trigger] self.log@[a]).seq == log00[a].seq,
            decreases pps@.len() - k,
        {
            let pp = &pps[k];
            let ghost log0 = self.log@;
            if pp.seq > self.low && pp.seq - self.low <= self.window {
                match self.find_slot(pp.seq) {
                    None => {
                        self.log.push(
                            LogEntry {
                                seq: pp.seq,
                                view: nv,
                                digest: pp.digest,
                                request: pp.request,
                                status: SlotStatus::Preprepared,
                            },
                        );
                        proof {
                            assert forall|a: int, b: int|
                                0 <= a < b < self.log@.len() implies (#[trigger] self.log@[a]).seq
                                != (#[trigger] self.log@[b]).seq by {
                                if b < log0.len() {
                                    assert(log0[a].seq != log0[b].seq);
                                } else {
                                    assert(!crate::replica::has_slot(log0, pp.seq));
                                    assert(log0[a].seq != pp.seq);
                                }
                            }
                            assert forall|a: int|
                                0 <= a < self.log@.len() implies self.low < (
                            #[trigger] self.log@[a]).seq <= self.low + self.window by {
                                if a < log0.len() {
                                    assert(self.log@[a] == log0[a]);
                                }
                            }
                            assert forall|i: int, j: int|
                                0 <= i < log00.len() && 0 <= j < self.log@.len() && (
                                #[trigger] log00[i]).seq == (#[trigger] self.log@[j]).seq
                                    && status_rank(log00[i].status) >= 2 implies self.log@[j].digest
                                == log00[i].digest && self.log@[j].request == log00[i].request
                                && status_rank(self.log@[j].status) >= status_rank(
                                log00[i].status,
                            ) by {
                                if j < log0.len() {
                                    assert(self.log@[j] == log0[j]);
                                } else {
                                    assert(log0[i].seq == log00[i].seq);
                                    assert(crate::replica::has_slot(log0, pp.seq));
                                }
                            }
                        }
                    },
                    Some(i) => {
                        let e = self.log[i];
                        if status_lt_committed(&e.status) {
                            self.log.set(
                                i,
                                LogEntry {
                                    seq: e.seq,
                                    view: nv,
                                    digest: pp.digest,
                                    request: pp.request,
                                    status: SlotStatus::Preprepared,
                                },
                            );
                            proof {
                                assert forall|a: int, b: int|
                                    0 <= a < b < self.log@.len() implies (
                                #[trigger] self.log@[a]).seq != (#[trigger] self.log@[b]).seq by {
                                    assert(self.log@[a].seq == log0[a].seq);
                                    assert(self.log@[b].seq == log0[b].seq);
                                }
                                assert forall|a: int|
                                    0 <= a < self.log@.len() implies self.low < (
                                #[trigger] self.log@[a]).seq <= self.low + self.window by {
                                    assert(self.log@[a].seq == log0[a].seq);
                                }
                                assert forall|x: int, j: int|
                                    0 <= x < log00.len() && 0 <= j < self.log@.len() && (
                                    #[trigger] log00[x]).seq == (#[trigger] self.log@[j]).seq
                                        && status_rank(log00[x].status) >= 2 implies self.log@[j].digest
                                    == log00[x].digest && self.log@[j].request == log00[x].request
                                    && status_rank(self.log@[j].status) >= status_rank(
                                    log00[x].status,
                                ) by {
                                    if j != i {
                                        assert(self.log@[j] == log0[j]);
                                    } else {
                                        assert(log0[i as int].seq == self.log@[j].seq);
                                        assert(status_rank(log0[i as int].status) < 2);
                                    }
                                }
                            }
                        }
                    },
                }
                if pp.seq > self.next_seq {
                    self.next_seq = pp.seq;
                }
            }
            k = k + 1;
        }
    }

    /// Handle a new-view message: validate it by recomputing the selection
    /// from the included proofs, then adopt the view, install the
    /// re-proposals, and vote prepare for each — the new primary's
    /// proposals count as its implicit votes.
    pub fn on_new_view(&mut self, msg: &NewView) -> (out: Vec<Message>)
        requires
            old(self).wf(),
        ensures
            final(self).wf(),
            final(self).view >= old(self).view,
            committed_immutable(old(self).log@, final(self).log@),
    {
        let mut out: Vec<Message> = Vec::new();
        if msg.new_view < self.view {
            return out;
        }
        if self.config.primary_of(msg.new_view) == self.id {
            return out;
        }
        proof {
            // A log equals itself slot by slot: sequence numbers are unique.
            assert forall|a: int, b: int|
                0 <= a < self.log@.len() && 0 <= b < self.log@.len() && (
                #[trigger] self.log@[a]).seq == (#[trigger] self.log@[b]).seq && status_rank(
                self.log@[a].status,
            ) >= 2 implies self.log@[b].digest == self.log@[a].digest && self.log@[b].request
                == self.log@[a].request && status_rank(self.log@[b].status) >= status_rank(
                self.log@[a].status,
            ) by {
                if a < b {
                    assert(self.log@[a].seq != self.log@[b].seq);
                } else if b < a {
                    assert(self.log@[b].seq != self.log@[a].seq);
                }
            }
        }
        // A valid new view carries 2f + 1 distinct demands for it.
        let mut count: usize = 0;
        let mut i: usize = 0;
        while i < msg.proofs.len()
            invariant
                self.wf(),
                committed_immutable(old(self).log@, self.log@),
                count <= i <= msg.proofs@.len(),
                *self == *old(self),
            decreases msg.proofs@.len() - i,
        {
            let m = &msg.proofs[i];
            if m.new_view == msg.new_view && m.replica < self.config.n {
                let mut dup = false;
                let mut j: usize = 0;
                while j < i
                    invariant
                        j <= i,
                        i < msg.proofs@.len(),
                    decreases i - j,
                {
                    if msg.proofs[j].new_view == msg.new_view && msg.proofs[j].replica == m.replica
                    {
                        dup = true;
                    }
                    j = j + 1;
                }
                if !dup {
                    count = count + 1;
                }
            }
            i = i + 1;
        }
        if count < self.config.quorum() {
            return out;
        }
        // The proposals must be exactly the selection the proofs dictate.
        let expected = build_reproposals(&msg.proofs, msg.new_view);
        if expected.len() != msg.preprepares.len() {
            return out;
        }
        let mut k: usize = 0;
        while k < expected.len()
            invariant
                self.wf(),
                committed_immutable(old(self).log@, self.log@),
                k <= expected@.len(),
                expected@.len() == msg.preprepares@.len(),
                *self == *old(self),
            decreases expected@.len() - k,
        {
            if !(expected[k] == msg.preprepares[k]) {
                return out;
            }
            k = k + 1;
        }
        self.view = msg.new_view;
        self.mode = Mode::Normal;
        self.install_reproposals(&msg.preprepares, msg.new_view);
        // Re-run the normal case for the re-proposals: vote prepare for
        // each, counting the new primary's implicit vote and our own.
        let p = self.config.primary_of(msg.new_view);
        let mut k2: usize = 0;
        while k2 < msg.preprepares.len()
            invariant
                self.wf(),
                self.view == msg.new_view,
                self.view >= old(self).view,
                self.config == old(self).config,
                self.id == old(self).id,
                committed_immutable(old(self).log@, self.log@),
                p < self.config.n,
            decreases msg.preprepares@.len() - k2,
        {
            let pp = &msg.preprepares[k2];
            self.tracker.record_prepare(pp.view, pp.seq, pp.digest, p);
            self.tracker.record_prepare(pp.view, pp.seq, pp.digest, self.id);
            out.push(
                Message::Prepare(
                    Prepare { view: pp.view, seq: pp.seq, digest: pp.digest, replica: self.id },
                ),
            );
            k2 = k2 + 1;
        }
        out
    }
}

/// Whether a slot status is strictly below `Committed`.
fn status_lt_committed(s: &SlotStatus) -> (b: bool)
    ensures
        b <==> status_rank(*s) < 2,
{
    matches!(s, SlotStatus::Preprepared | SlotStatus::Prepared)
}

} // verus!
