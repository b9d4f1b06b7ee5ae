//! The agreement laws of the protocol.
//!
//! These proof functions state, over the abstract certificates and histories
//! that the rest of the library computes, why the protocol is safe: any two
//! quorums of a `3f + 1` group share a correct replica, so at most one
//! digest can gather a quorum at a `(view, seq)` slot; replicas that execute
//! the committed digests in sequence order execute the same history; equal
//! histories carry equal checkpoint digests; and among any `f + 1`
//! consecutive views at least one has a correct primary, which bounds the
//! view changes a stalled request can need.

use vstd::prelude::*;

use vstd::assert_by_contradiction;
use vstd::arithmetic::div_mod::lemma_fundamental_div_mod;
use vstd::relations::injective_on;
use vstd::set_lib::lemma_int_range;
use vstd::set_lib::lemma_len_intersect;
use vstd::set_lib::lemma_len_subset;
use vstd::set_lib::lemma_map_size;
use vstd::set_lib::lemma_set_difference_len;
use vstd::set_lib::lemma_set_empty_equivalency_len;
use vstd::set_lib::lemma_set_intersect_union_lens;
use vstd::set_lib::set_int_range;

use crate::config::Config;
use crate::digest::state_digest_spec;

verus! {

/// The identities of the `n` replicas of a group.
pub open spec fn replica_ids(n: usize) -> Set<usize> {
    Set::new(|r: usize| r < n)
}

/// There are exactly `n` replica identities.
pub proof fn lemma_replica_ids_len(n: usize)
    ensures
        replica_ids(n).finite(),
        replica_ids(n).len() == n,
    decreases n,
{
    if n == 0 {
        assert(replica_ids(0) =~= Set::<usize>::empty());
    } else {
        let m = (n - 1) as usize;
        lemma_replica_ids_len(m);
        assert(replica_ids(n) =~= replica_ids(m).insert(m));
        assert(!replica_ids(m).contains(m));
    }
}

/// Any two quorums of `2f + 1` replicas out of `3f + 1`, of which at most
/// `f` are faulty, share at least one correct replica: the quorums overlap
/// in `f + 1` replicas, one more than there are faulty ones.
pub proof fn lemma_quorum_intersection(
    cfg: Config,
    faulty: Set<usize>,
    q1: Set<usize>,
    q2: Set<usize>,
)
    requires
        cfg.wf(),
        q1.subset_of(replica_ids(cfg.n)),
        q2.subset_of(replica_ids(cfg.n)),
        q1.len() >= cfg.quorum_spec(),
        q2.len() >= cfg.quorum_spec(),
        faulty.finite(),
        faulty.len() <= cfg.f,
    ensures
        exists|r: usize| q1.contains(r) && q2.contains(r) && !faulty.contains(r),
{
    let u = replica_ids(cfg.n);
    lemma_replica_ids_len(cfg.n);
    lemma_len_subset(q1, u);
    lemma_len_subset(q2, u);
    assert((q1 + q2).subset_of(u));
    lemma_len_subset(q1 + q2, u);
    lemma_set_intersect_union_lens(q1, q2);
    let inter = q1.intersect(q2);
    assert(inter.len() >= cfg.f + 1);
    assert(inter.subset_of(q1));
    lemma_len_subset(inter, q1);
    let good = inter.difference(faulty);
    lemma_set_difference_len(inter, faulty);
    lemma_len_intersect(faulty, inter);
    assert(inter.intersect(faulty) =~= faulty.intersect(inter));
    assert(good.len() >= 1);
    assert(good.subset_of(inter));
    lemma_len_subset(good, inter);
    lemma_set_empty_equivalency_len(good);
    let r = good.choose();
    assert(good.contains(r));
    assert(q1.contains(r) && q2.contains(r) && !faulty.contains(r));
}

/// At most one digest gathers a quorum at a given slot: if every correct
/// replica votes for at most one digest per slot (`vote` gives it), two
/// quorum certificates for the same slot name the same digest.  This holds
/// equally of prepare and of commit certificates.
pub proof fn lemma_quorum_digest_unique(
    cfg: Config,
    faulty: Set<usize>,
    q1: Set<usize>,
    q2: Set<usize>,
    d1: u64,
    d2: u64,
    vote: Map<usize, u64>,
)
    requires
        cfg.wf(),
        q1.subset_of(replica_ids(cfg.n)),
        q2.subset_of(replica_ids(cfg.n)),
        q1.len() >= cfg.quorum_spec(),
        q2.len() >= cfg.quorum_spec(),
        faulty.finite(),
        faulty.len() <= cfg.f,
        forall|r: usize|
            q1.contains(r) && !faulty.contains(r) ==> vote.dom().contains(r) && vote[r] == d1,
        forall|r: usize|
            q2.contains(r) && !faulty.contains(r) ==> vote.dom().contains(r) && vote[r] == d2,
    ensures
        d1 == d2,
{
    lemma_quorum_intersection(cfg, faulty, q1, q2);
    let r = choose|r: usize| q1.contains(r) && q2.contains(r) && !faulty.contains(r);
    assert(vote[r] == d1 && vote[r] == d2);
}

/// Replicas that execute the committed digests in strict sequence order
/// execute the same history: if each position of two histories carries the
/// digest committed at that position, the shorter history is a prefix of the
/// longer.
pub proof fn lemma_execution_agreement(a: Seq<u64>, b: Seq<u64>, committed: Map<int, u64>)
    requires
        forall|i: int|
            0 <= i < a.len() ==> committed.dom().contains(i) && a[i] == #[trigger] committed[i],
        forall|i: int|
            0 <= i < b.len() ==> committed.dom().contains(i) && b[i] == #[trigger] committed[i],
        a.len() <= b.len(),
    ensures
        a == b.take(a.len() as int),
{
    assert forall|i: int| 0 <= i < a.len() implies a[i] == b.take(a.len() as int)[i] by {
        assert(a[i] == committed[i]);
        assert(b[i] == committed[i]);
    }
    assert(a =~= b.take(a.len() as int));
}

/// Checkpoint consistency: two replicas whose histories agree position by
/// position with the committed digests carry the same state digest after
/// executing through position `n`.
pub proof fn lemma_checkpoint_agreement(
    a: Seq<u64>,
    b: Seq<u64>,
    committed: Map<int, u64>,
    n: int,
)
    requires
        forall|i: int|
            0 <= i < a.len() ==> committed.dom().contains(i) && a[i] == #[trigger] committed[i],
        forall|i: int|
            0 <= i < b.len() ==> committed.dom().contains(i) && b[i] == #[trigger] committed[i],
        0 <= n <= a.len(),
        n <= b.len(),
    ensures
        state_digest_spec(a.take(n)) == state_digest_spec(b.take(n)),
{
    assert forall|i: int| 0 <= i < n implies a.take(n)[i] == b.take(n)[i] by {
        assert(a[i] == committed[i]);
        assert(b[i] == committed[i]);
    }
    assert(a.take(n) =~= b.take(n));
}

/// Primaries rotate, so among the `f + 1` views `v .. v + f` at least one
/// has a correct primary: a request kept alive by resubmission needs at most
/// `f + 1` view changes before a correct primary serves it.
pub proof fn lemma_correct_primary_within_window(cfg: Config, faulty: Set<usize>, v: int)
    requires
        cfg.wf(),
        faulty.subset_of(replica_ids(cfg.n)),
        faulty.finite(),
        faulty.len() <= cfg.f,
        v >= 0,
    ensures
        exists|w: int|
            v <= w <= v + cfg.f && !faulty.contains(#[trigger] cfg.primary_int(w) as usize),
{
    let n = cfg.n as int;
    let f = cfg.f as int;
    let views = set_int_range(v, v + f + 1);
    lemma_int_range(v, v + f + 1);
    let to_primary = |w: int| cfg.primary_int(w) as usize;
    assert_by_contradiction!(
        exists|w: int|
            v <= w <= v + cfg.f && !faulty.contains(#[trigger] cfg.primary_int(w) as usize),
        {
            // Every view in the window would have a faulty primary; but the
            // window's primaries are f + 1 distinct replicas, one too many.
            assert forall|w1: int, w2: int|
                views.contains(w1) && views.contains(w2) && #[trigger] to_primary(w1)
                    == #[trigger] to_primary(w2) implies w1 == w2 by {
                assert(0 <= w1 % n < n && 0 <= w2 % n < n);
                assert(w1 % n == w2 % n);
                lemma_fundamental_div_mod(w1, n);
                lemma_fundamental_div_mod(w2, n);
                let k = w1 / n - w2 / n;
                assert(w1 - w2 == n * k) by (nonlinear_arith)
                    requires
                        w1 == n * (w1 / n) + w1 % n,
                        w2 == n * (w2 / n) + w2 % n,
                        w1 % n == w2 % n,
                        k == w1 / n - w2 / n,
                {}
                assert(k == 0) by (nonlinear_arith)
                    requires
                        w1 - w2 == n * k,
                        -n < w1 - w2 < n,
                        n > 0,
                {}
            }
            assert(injective_on(to_primary, views));
            let image = views.map(to_primary);
            lemma_map_size(views, image, to_primary);
            assert forall|p: usize| image.contains(p) implies faulty.contains(p) by {
                let w = choose|w: int| views.contains(w) && to_primary(w) == p;
                assert(v <= w <= v + cfg.f);
            }
            assert(image.subset_of(faulty));
            lemma_len_subset(image, faulty);
        }
    );
}

} // verus!
