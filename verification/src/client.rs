//! The client driver.
//!
//! A client broadcasts its request to every replica, collects replies, and
//! accepts a result once `f + 1` replicas — more than can be faulty — have
//! answered identically for its timestamp.  On timeout it rebroadcasts,
//! up to a retry budget; an exhausted budget surfaces as failure.

use vstd::prelude::*;

use crate::config::Config;
use crate::messages::Message;
use crate::messages::Reply;
use crate::messages::Request;

verus! {

/// One in-flight request of a client.
#[derive(Clone, Debug)]
pub struct ClientSession {
    pub config: Config,
    pub client: u64,
    pub op: u64,
    pub timestamp: u64,
    /// Replies received for this timestamp, at most one per replica.
    pub replies: Vec<Reply>,
    pub retries: u64,
    pub max_retries: u64,
}

/// How many stored replies carry the result `v`.
pub open spec fn matching_replies(rs: Seq<Reply>, v: u64) -> int
    decreases rs.len(),
{
    if rs.len() == 0 {
        0
    } else {
        matching_replies(rs.drop_last(), v) + if rs.last().result == v {
            1int
        } else {
            0int
        }
    }
}

impl ClientSession {
    /// Replies come one per replica, and all for this client and timestamp.
    pub open spec fn wf(self) -> bool {
        &&& self.config.wf()
        &&& forall|i: int, j: int|
            0 <= i < j < self.replies@.len() ==> (#[trigger] self.replies@[i]).replica != (
            #[trigger] self.replies@[j]).replica
        &&& forall|i: int|
            0 <= i < self.replies@.len() ==> (#[trigger] self.replies@[i]).client == self.client
                && self.replies@[i].timestamp == self.timestamp
    }

    /// Open a session for one operation.
    pub fn new(config: Config, client: u64, op: u64, timestamp: u64, max_retries: u64) -> (s:
        ClientSession)
        requires
            config.wf(),
        ensures
            s.wf(),
            s.client == client,
            s.op == op,
            s.timestamp == timestamp,
            s.replies@.len() == 0,
            s.retries == 0,
            s.max_retries == max_retries,
    {
        ClientSession {
            config,
            client,
            op,
            timestamp,
            replies: Vec::new(),
            retries: 0,
            max_retries,
        }
    }

    /// The request message this session broadcasts.
    pub fn request(&self) -> (m: Message)
        ensures
            m == Message::Request(
                Request { client: self.client, op: self.op, timestamp: self.timestamp },
            ),
    {
        Message::Request(Request { client: self.client, op: self.op, timestamp: self.timestamp })
    }

    /// Whether a reply is taken in: it answers this client and timestamp,
    /// comes from a named replica, and that replica was not yet heard.
    pub open spec fn accepts_reply(self, r: Reply) -> bool {
        &&& r.client == self.client
        &&& r.timestamp == self.timestamp
        &&& r.replica < self.config.n
        &&& forall|i: int| 0 <= i < self.replies@.len() ==> (#[trigger] self.replies@[i]).replica != r.replica
    }

    /// Take one reply in.  An acceptable reply is stored; the result is
    /// accepted — returned as `Some` — exactly when `f + 1` distinct
    /// replicas have now reported it.  A reply for another client or
    /// timestamp, from an unnamed replica, or from a replica already heard
    /// is dropped without a trace.
    pub fn on_reply(&mut self, r: &Reply) -> (res: Option<u64>)
        requires
            old(self).wf(),
        ensures
            final(self).wf(),
            *final(self) == (ClientSession { replies: final(self).replies, ..*old(self) }),
            if old(self).accepts_reply(*r) {
                &&& final(self).replies@ == old(self).replies@.push(*r)
                &&& res == if matching_replies(final(self).replies@, r.result) >= old(
                    self,
                ).config.f + 1 {
                    Some(r.result)
                } else {
                    None::<u64>
                }
            } else {
                &&& *final(self) == *old(self)
                &&& res is None
            },
    {
        if r.client != self.client || r.timestamp != self.timestamp || r.replica >= self.config.n {
            return None;
        }
        let mut i: usize = 0;
        while i < self.replies.len()
            invariant
                self.wf(),
                *self == *old(self),
                0 <= i <= self.replies@.len(),
                forall|j: int| 0 <= j < i ==> (#[trigger] self.replies@[j]).replica != r.replica,
            decreases self.replies@.len() - i,
        {
            if self.replies[i].replica == r.replica {
                return None;
            }
            i = i + 1;
        }
        let ghost rs0 = self.replies@;
        self.replies.push(*r);
        proof {
            assert forall|a: int, b: int|
                0 <= a < b < self.replies@.len() implies (#[trigger] self.replies@[a]).replica != (
            #[trigger] self.replies@[b]).replica by {
                if b < rs0.len() {
                    assert(self.replies@[a] == rs0[a] && self.replies@[b] == rs0[b]);
                } else {
                    assert(self.replies@[a] == rs0[a]);
                }
            }
        }
        let mut count: usize = 0;
        let mut j: usize = 0;
        let ghost rs = self.replies@;
        while j < self.replies.len()
            invariant
                self.wf(),
                rs == self.replies@,
                0 <= j <= self.replies@.len(),
                count == matching_replies(self.replies@.take(j as int), r.result),
                count <= j,
            decreases self.replies@.len() - j,
        {
            proof {
                assert(self.replies@.take(j + 1).drop_last() =~= self.replies@.take(j as int));
                assert(self.replies@.take(j + 1).last() == self.replies@[j as int]);
            }
            if self.replies[j].result == r.result {
                count = count + 1;
            }
            j = j + 1;
        }
        proof {
            assert(self.replies@.take(self.replies@.len() as int) =~= self.replies@);
        }
        if count >= self.config.f + 1 {
            Some(r.result)
        } else {
            None
        }
    }

    /// The timer expired: spend one retry and rebroadcast, or give up when
    /// the budget is exhausted.
    pub fn on_timeout(&mut self) -> (m: Option<Message>)
        requires
            old(self).wf(),
        ensures
            final(self).wf(),
            old(self).retries < old(self).max_retries ==> final(self).retries == old(self).retries
                + 1 && m == Some(
                Message::Request(
                    Request {
                        client: old(self).client,
                        op: old(self).op,
                        timestamp: old(self).timestamp,
                    },
                ),
            ),
            old(self).retries >= old(self).max_retries ==> m is None && *final(self) == *old(self),
    {
        if self.retries < self.max_retries {
            self.retries = self.retries + 1;
            Some(self.request())
        } else {
            None
        }
    }
}

} // verus!
