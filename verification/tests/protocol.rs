use pbft::client::ClientSession;
use pbft::config::Config;
use pbft::config::ConfigError;
use pbft::messages::Message;
use pbft::messages::Reply;
use pbft::messages::Request;
use pbft::replica::Mode;
use pbft::replica::Replica;
use pbft::tracker::QuorumTracker;

fn new_group() -> Vec<Replica> {
    let config = Config::from_replica_count(4).unwrap();
    let mut reps = Vec::new();
    for id in 0..4 {
        reps.push(Replica::new(config, id, 100, 10));
    }
    reps
}

/// Deliver every queued message to every replica but its sender, running
/// execution after each handler call; replies are collected for the client.
fn pump(reps: &mut Vec<Replica>, mut queue: Vec<Message>) -> Vec<Reply> {
    let mut replies = Vec::new();
    while !queue.is_empty() {
        let m = queue.remove(0);
        match m {
            Message::Reply(r) => replies.push(r),
            Message::Request(req) => {
                for i in 0..reps.len() {
                    let out = reps[i].on_request(req);
                    queue.extend(out);
                }
            }
            Message::PrePrepare(pp) => {
                let sender = (pp.view as usize) % reps.len();
                for i in 0..reps.len() {
                    if i != sender {
                        let out = reps[i].on_pre_prepare(&pp);
                        queue.extend(out);
                    }
                }
            }
            Message::Prepare(p) => {
                for i in 0..reps.len() {
                    if i != p.replica {
                        let out = reps[i].on_prepare(&p);
                        queue.extend(out);
                    }
                }
            }
            Message::Commit(c) => {
                for i in 0..reps.len() {
                    if i != c.replica {
                        reps[i].on_commit(&c);
                        let out = reps[i].execute_ready();
                        queue.extend(out);
                    }
                }
            }
            Message::Checkpoint(cp) => {
                // Checkpoint votes are idempotent, so a replica may also
                // process its own broadcast; that is when a vote recorded
                // during execution can complete a quorum.
                for i in 0..reps.len() {
                    reps[i].on_checkpoint(&cp);
                }
            }
            Message::ViewChange(vc) => {
                for i in 0..reps.len() {
                    if i != vc.replica {
                        let out = reps[i].on_view_change(vc.clone());
                        queue.extend(out);
                    }
                }
            }
            Message::NewView(nv) => {
                let sender = (nv.new_view as usize) % reps.len();
                for i in 0..reps.len() {
                    if i != sender {
                        let out = reps[i].on_new_view(&nv);
                        queue.extend(out);
                    }
                }
            }
        }
    }
    replies
}

#[test]
fn config_shapes() {
    assert!(Config::from_replica_count(4).is_ok());
    assert!(Config::from_replica_count(7).is_ok());
    assert_eq!(
        Config::from_replica_count(5),
        Err(ConfigError::NotThreeFPlusOne)
    );
    assert_eq!(
        Config::from_replica_count(3),
        Err(ConfigError::NotThreeFPlusOne)
    );
    let c = Config::from_replica_count(4).unwrap();
    assert_eq!(c.f, 1);
    assert_eq!(c.quorum(), 3);
    assert_eq!(c.primary_of(0), 0);
    assert_eq!(c.primary_of(5), 1);
}

#[test]
fn digest_is_deterministic() {
    let a = Request {
        client: 7,
        op: 3,
        timestamp: 99,
    };
    let b = Request {
        client: 7,
        op: 3,
        timestamp: 99,
    };
    let c = Request {
        client: 7,
        op: 3,
        timestamp: 100,
    };
    assert_eq!(pbft::digest::request_digest(&a), pbft::digest::request_digest(&b));
    assert_ne!(pbft::digest::request_digest(&a), pbft::digest::request_digest(&c));
}

#[test]
fn tracker_votes_are_idempotent_and_separate() {
    let cfg = Config::from_replica_count(4).unwrap();
    let mut t = QuorumTracker::new();
    t.record_prepare(0, 1, 42, 0);
    t.record_prepare(0, 1, 42, 0);
    t.record_prepare(0, 1, 42, 0);
    assert_eq!(t.prepare_count(0, 1, 42), 1);
    t.record_prepare(0, 1, 42, 1);
    t.record_prepare(0, 1, 42, 2);
    assert!(t.is_prepared(&cfg, 0, 1, 42));
    // A vote for a different digest at the same slot counts separately.
    t.record_prepare(0, 1, 43, 3);
    assert_eq!(t.prepare_count(0, 1, 43), 1);
    assert!(!t.is_prepared(&cfg, 0, 1, 43));
    assert_eq!(t.commit_count(0, 1, 42), 0);
}

#[test]
fn all_correct_single_request_commits_everywhere() {
    let mut reps = new_group();
    let config = reps[0].config;
    let req = Request {
        client: 9,
        op: 1,
        timestamp: 1,
    };
    let replies = pump(&mut reps, vec![Message::Request(req)]);
    for r in reps.iter() {
        assert_eq!(r.executed.len(), 1);
        assert_eq!(r.view, 0);
    }
    // All replicas executed the same digest and reached the same state.
    for r in reps.iter() {
        assert_eq!(r.executed, reps[0].executed);
        assert_eq!(r.state, reps[0].state);
    }
    // The client accepts after f + 1 = 2 matching replies.
    let mut session = ClientSession::new(config, 9, 1, 1, 3);
    let mut accepted = None;
    let mut needed = 0;
    for r in replies.iter() {
        needed += 1;
        if let Some(v) = session.on_reply(r) {
            accepted = Some(v);
            break;
        }
    }
    assert_eq!(accepted, Some(1));
    assert_eq!(needed, 2);
}

#[test]
fn silent_primary_is_replaced_and_request_commits() {
    let mut reps = new_group();
    let req = Request {
        client: 5,
        op: 2,
        timestamp: 10,
    };
    // The primary of view 0 stays silent: nothing is proposed.
    let out = reps[1].on_request(req);
    assert!(out.is_empty());
    // The backups' request timers expire; view 1 begins.
    let mut queue = Vec::new();
    for i in 1..4 {
        queue.extend(reps[i].on_timeout());
    }
    let replies = pump(&mut reps, queue);
    assert!(replies.is_empty());
    for r in reps.iter() {
        assert_eq!(r.view, 1);
        assert!(matches!(r.mode, Mode::Normal));
    }
    // The client rebroadcasts; the new primary (replica 1) proposes.
    let replies = pump(&mut reps, vec![Message::Request(req)]);
    for r in reps.iter() {
        assert_eq!(r.executed.len(), 1);
    }
    assert!(replies.iter().all(|r| r.view == 1));
    assert!(replies.iter().any(|r| r.client == 5 && r.result == 1));
}

#[test]
fn mismatched_prepare_vote_is_harmless() {
    let mut reps = new_group();
    let req = Request {
        client: 2,
        op: 8,
        timestamp: 4,
    };
    let mut queue = vec![Message::Request(req)];
    let mut replies = Vec::new();
    while !queue.is_empty() {
        let m = queue.remove(0);
        match m {
            Message::Prepare(mut p) if p.replica == 3 => {
                // Replica 3 is faulty: its prepare vote names a wrong digest.
                p.digest = p.digest.wrapping_add(1);
                for i in 0..reps.len() {
                    if i != 3 {
                        queue.extend(reps[i].on_prepare(&p));
                    }
                }
            }
            other => {
                let mut rs = pump_one(&mut reps, other, &mut queue);
                replies.append(&mut rs);
            }
        }
    }
    // The corrupted votes are counted apart; quorum still forms from the
    // other 2f + 1 votes and every replica executes the request.
    for r in reps.iter() {
        assert_eq!(r.executed.len(), 1);
    }
    let _ = replies;
}

/// Deliver a single message as `pump` would.
fn pump_one(reps: &mut Vec<Replica>, m: Message, queue: &mut Vec<Message>) -> Vec<Reply> {
    let mut replies = Vec::new();
    match m {
        Message::Reply(r) => replies.push(r),
        Message::Request(req) => {
            for i in 0..reps.len() {
                queue.extend(reps[i].on_request(req));
            }
        }
        Message::PrePrepare(pp) => {
            let sender = (pp.view as usize) % reps.len();
            for i in 0..reps.len() {
                if i != sender {
                    queue.extend(reps[i].on_pre_prepare(&pp));
                }
            }
        }
        Message::Prepare(p) => {
            for i in 0..reps.len() {
                if i != p.replica {
                    queue.extend(reps[i].on_prepare(&p));
                }
            }
        }
        Message::Commit(c) => {
            for i in 0..reps.len() {
                if i != c.replica {
                    reps[i].on_commit(&c);
                    queue.extend(reps[i].execute_ready());
                }
            }
        }
        Message::Checkpoint(cp) => {
            for i in 0..reps.len() {
                reps[i].on_checkpoint(&cp);
            }
        }
        Message::ViewChange(vc) => {
            for i in 0..reps.len() {
                if i != vc.replica {
                    queue.extend(reps[i].on_view_change(vc.clone()));
                }
            }
        }
        Message::NewView(nv) => {
            let sender = (nv.new_view as usize) % reps.len();
            for i in 0..reps.len() {
                if i != sender {
                    queue.extend(reps[i].on_new_view(&nv));
                }
            }
        }
    }
    replies
}

#[test]
fn duplicate_resend_returns_cached_reply_without_reexecution() {
    let mut reps = new_group();
    let req = Request {
        client: 11,
        op: 6,
        timestamp: 77,
    };
    let _ = pump(&mut reps, vec![Message::Request(req)]);
    assert_eq!(reps[0].executed.len(), 1);
    let state_before = reps[0].state;
    // The client resends the same request (same client, same timestamp).
    let out = reps[0].on_request(req);
    assert_eq!(out.len(), 1);
    match &out[0] {
        Message::Reply(r) => {
            assert_eq!(r.client, 11);
            assert_eq!(r.timestamp, 77);
            assert_eq!(r.result, 1);
        }
        other => panic!("expected a cached reply, got {:?}", other),
    }
    // No second execution, no state mutation.
    assert_eq!(reps[0].executed.len(), 1);
    assert_eq!(reps[0].state, state_before);
}

#[test]
fn checkpoint_stabilizes_and_compacts_the_log() {
    let config = Config::from_replica_count(4).unwrap();
    let mut reps = Vec::new();
    for id in 0..4 {
        // Checkpoint every execution, to exercise compaction quickly.
        reps.push(Replica::new(config, id, 100, 1));
    }
    let req = Request {
        client: 1,
        op: 1,
        timestamp: 1,
    };
    let _ = pump(&mut reps, vec![Message::Request(req)]);
    // Every replica checkpointed seq 1; 2f + 1 matching votes make it
    // stable, the watermark advances and the slot is discarded.
    for r in reps.iter() {
        assert_eq!(r.executed.len(), 1);
        assert_eq!(r.low, 1);
        assert!(r.log.is_empty());
    }
}

#[test]
fn client_retry_budget_is_finite() {
    let config = Config::from_replica_count(4).unwrap();
    let mut s = ClientSession::new(config, 3, 1, 5, 2);
    assert!(s.on_timeout().is_some());
    assert!(s.on_timeout().is_some());
    assert!(s.on_timeout().is_none());
}

#[test]
fn client_ignores_mismatched_and_duplicate_replies() {
    let config = Config::from_replica_count(4).unwrap();
    let mut s = ClientSession::new(config, 3, 1, 5, 2);
    let good = Reply {
        view: 0,
        timestamp: 5,
        client: 3,
        replica: 0,
        result: 1,
    };
    let wrong_ts = Reply {
        timestamp: 6,
        ..good
    };
    assert_eq!(s.on_reply(&wrong_ts), None);
    assert_eq!(s.on_reply(&good), None);
    // The same replica again does not count twice.
    assert_eq!(s.on_reply(&good), None);
    let second = Reply {
        replica: 1,
        ..good
    };
    assert_eq!(s.on_reply(&second), Some(1));
}
