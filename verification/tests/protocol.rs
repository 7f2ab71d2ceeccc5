use pbft::behavior::{Config, NetworkAction, Pbft, PbftHandlerEvent, PbftHandlerIn, ResponseTag};
use pbft::message::{Commit, Message, PrePrepare, PrePrepareSequence, Prepare, ProtocolError, Request};

fn req(op: &str, ts: u64, client: &str) -> Request {
    Request::new(op.as_bytes().to_vec(), ts, client.as_bytes().to_vec())
}

fn single_node() -> Pbft {
    Pbft::new(0, Config::new(1, 0, u64::MAX))
}

fn backup(id: u64) -> Pbft {
    Pbft::new(id, Config::new(4, 0, u64::MAX))
}

#[test]
fn single_node_commits_locally_and_replies() {
    // n = 1, f = 0: the primary commits after its own PRE-PREPARE.
    let mut node = single_node();
    node.add_client_request(req("SET x 1", 100, "C")).unwrap();
    let replies = node.take_client_replies();
    assert_eq!(replies.len(), 1);
    assert_eq!(replies[0].view, 0);
    assert_eq!(replies[0].timestamp, 100);
    assert_eq!(replies[0].client, b"C".to_vec());
    assert_eq!(replies[0].replica, 0);
    assert_eq!(replies[0].result, b"SET x 1".to_vec());
}

#[test]
fn single_node_emits_no_peer_traffic() {
    let mut node = single_node();
    node.add_client_request(req("SET x 1", 100, "C")).unwrap();
    assert!(node.poll().is_none());
    assert_eq!(node.take_client_replies().len(), 1);
}

#[test]
fn quorum_thresholds_n4() {
    // n = 4, f = 1: prepared needs 2 PREPAREs, committed-local 3 COMMITs.
    let mut node = backup(3);
    let pp = PrePrepare::from(0, 1, req("SET x 1", 100, "C"));
    let prepare0 = Prepare::from(&pp, 0);
    let prepare1 = Prepare::from(&pp, 1);
    let commit0 = Commit::from(&prepare0, 0);
    let commit1 = Commit::from(&prepare1, 1);

    node.process_pre_prepare(pp, true).unwrap();
    // Only the node's own PREPARE is logged so far.
    assert!(!node.prepared(0, 1));
    node.process_prepare(0, &prepare0, true).unwrap();
    assert!(node.prepared(0, 1));
    // The transition into prepared records the node's own COMMIT (1 vote).
    assert!(!node.committed_local(0, 1));
    node.process_commit(0, &commit0, true).unwrap();
    // f + 1 = 2 matching COMMITs witness a commit somewhere in the cluster,
    // but committed-local needs 2f + 1 = 3.
    assert!(node.committed(0, 1));
    assert!(!node.committed_local(0, 1));
    assert_eq!(node.take_client_replies().len(), 0);
    node.process_commit(1, &commit1, true).unwrap();
    assert!(node.committed_local(0, 1));
    let replies = node.take_client_replies();
    assert_eq!(replies.len(), 1);
    assert_eq!(replies[0].timestamp, 100);
}

#[test]
fn prepare_before_pre_prepare_is_rejected_then_accepted() {
    let mut node = backup(3);
    let pp = PrePrepare::from(0, 1, req("SET x 1", 100, "C"));
    let prepare0 = Prepare::from(&pp, 0);
    assert_eq!(
        node.process_prepare(0, &prepare0, true),
        Err(ProtocolError::NoMatchingPrePrepare)
    );
    node.process_pre_prepare(pp, true).unwrap();
    assert_eq!(node.process_prepare(0, &prepare0, true), Ok(()));
}

#[test]
fn happy_path_primary_n4() {
    let mut primary = backup(0);
    primary.inject_connected(1);
    primary.inject_connected(2);
    primary.inject_connected(3);
    primary.add_client_request(req("SET x 1", 100, "C")).unwrap();

    // The PRE-PREPARE went to all three peers, then the primary's PREPARE.
    let mut pre_prepare_sends = 0;
    let mut prepare_sends = 0;
    let mut the_pp: Option<PrePrepare> = None;
    while let Some(action) = primary.poll() {
        match action {
            NetworkAction::SendEvent { event, .. } => match event {
                PbftHandlerIn::PrePrepareRequest(p) => {
                    pre_prepare_sends += 1;
                    the_pp = Some(p);
                }
                PbftHandlerIn::PrepareRequest(_) => prepare_sends += 1,
                _ => {}
            },
            NetworkAction::DialPeer { .. } => {}
        }
    }
    assert_eq!(pre_prepare_sends, 3);
    assert_eq!(prepare_sends, 3);
    let pp = the_pp.unwrap();
    assert_eq!(pp.view_number(), 0);
    assert_eq!(pp.sequence_number(), 1);

    // Two matching PREPAREs complete the 2f quorum; the COMMIT broadcast
    // follows the transition.
    let prepare1 = Prepare::from(&pp, 1);
    primary.process_prepare(1, &prepare1, true).unwrap();
    assert!(primary.prepared(0, 1));
    let mut commit_sends = 0;
    while let Some(action) = primary.poll() {
        if let NetworkAction::SendEvent { event: PbftHandlerIn::CommitRequest(_), .. } = action {
            commit_sends += 1;
        }
    }
    assert_eq!(commit_sends, 3);

    // Two peer COMMITs plus the primary's own make 2f + 1.
    let commit1 = Commit::from(&prepare1, 1);
    let commit2 = Commit::from(&prepare1, 2);
    primary.process_commit(1, &commit1, true).unwrap();
    assert_eq!(primary.take_client_replies().len(), 0);
    primary.process_commit(2, &commit2, true).unwrap();
    let replies = primary.take_client_replies();
    assert_eq!(replies.len(), 1);
    assert_eq!(replies[0].view, 0);
    assert_eq!(replies[0].timestamp, 100);
    assert_eq!(replies[0].client, b"C".to_vec());
    assert_eq!(replies[0].replica, 0);
    assert_eq!(primary.state.last_timestamp(&b"C".to_vec()), 100);
}

#[test]
fn duplicate_request_is_suppressed() {
    let mut primary = backup(0);
    primary.inject_connected(1);
    primary.inject_connected(2);
    primary.inject_connected(3);

    // First round executes and replies.
    primary.add_client_request(req("SET x 1", 100, "C")).unwrap();
    let pp1 = PrePrepare::from(0, 1, req("SET x 1", 100, "C"));
    let prepare1 = Prepare::from(&pp1, 1);
    primary.process_prepare(1, &prepare1, true).unwrap();
    primary.process_commit(1, &Commit::from(&prepare1, 1), true).unwrap();
    primary.process_commit(2, &Commit::from(&prepare1, 2), true).unwrap();
    assert_eq!(primary.take_client_replies().len(), 1);

    // The client resends the same request; the second round completes but
    // execution is suppressed by the exactly-once filter.
    primary.add_client_request(req("SET x 1", 100, "C")).unwrap();
    let pp2 = PrePrepare::from(0, 2, req("SET x 1", 100, "C"));
    let prepare2 = Prepare::from(&pp2, 1);
    primary.process_prepare(1, &prepare2, true).unwrap();
    primary.process_commit(1, &Commit::from(&prepare2, 1), true).unwrap();
    primary.process_commit(2, &Commit::from(&prepare2, 2), true).unwrap();
    assert_eq!(primary.take_client_replies().len(), 0);
    assert_eq!(primary.state.last_timestamp(&b"C".to_vec()), 100);
}

#[test]
fn equivocating_primary_is_refused() {
    // The backup logged digest B for (0, 1); the conflicting PRE-PREPARE
    // and the PREPARE built from digest A are both rejected.
    let mut node = backup(2);
    let pp_b = PrePrepare::from(0, 1, req("SET x B", 100, "C"));
    let pp_a = PrePrepare::from(0, 1, req("SET x A", 100, "C"));
    let prepare_a = Prepare::from(&pp_a, 1);
    node.process_pre_prepare(pp_b, true).unwrap();
    assert_eq!(
        node.process_pre_prepare(pp_a, true),
        Err(ProtocolError::ConflictingDigest)
    );
    assert_eq!(
        node.process_prepare(1, &prepare_a, true),
        Err(ProtocolError::InvalidMessage)
    );
}

#[test]
fn out_of_order_commit_defers_execution() {
    let mut node = backup(3);
    let pp1 = PrePrepare::from(0, 1, req("SET x 1", 100, "C"));
    let pp2 = PrePrepare::from(0, 2, req("SET x 2", 200, "C"));
    let prepare1_0 = Prepare::from(&pp1, 0);
    let prepare2_0 = Prepare::from(&pp2, 0);
    node.process_pre_prepare(pp1, true).unwrap();
    node.process_pre_prepare(pp2, true).unwrap();
    node.process_prepare(0, &prepare1_0, true).unwrap();
    node.process_prepare(0, &prepare2_0, true).unwrap();
    assert!(node.prepared(0, 1));
    assert!(node.prepared(0, 2));

    // Slot 2 becomes committed-local first; execution is deferred.
    node.process_commit(0, &Commit::from(&prepare2_0, 0), true).unwrap();
    node.process_commit(1, &Commit::from(&prepare2_0, 1), true).unwrap();
    assert!(node.committed_local(0, 2));
    assert_eq!(node.take_client_replies().len(), 0);

    // Once slot 1 commits, both execute, in sequence order.
    node.process_commit(0, &Commit::from(&prepare1_0, 0), true).unwrap();
    node.process_commit(1, &Commit::from(&prepare1_0, 1), true).unwrap();
    let replies = node.take_client_replies();
    assert_eq!(replies.len(), 2);
    assert_eq!(replies[0].timestamp, 100);
    assert_eq!(replies[0].result, b"SET x 1".to_vec());
    assert_eq!(replies[1].timestamp, 200);
    assert_eq!(replies[1].result, b"SET x 2".to_vec());
}

#[test]
fn redelivery_changes_nothing() {
    // Re-delivering an already-processed PRE-PREPARE, PREPARE or COMMIT
    // leaves the log and the outbound queue unchanged.
    let mut node = backup(3);
    node.inject_connected(0);
    let pp = PrePrepare::from(0, 1, req("SET x 1", 100, "C"));
    let prepare0 = Prepare::from(&pp, 0);
    let commit0 = Commit::from(&prepare0, 0);
    let digest = pp.digest();

    node.process_pre_prepare(pp.duplicate(), true).unwrap();
    node.process_prepare(0, &prepare0, true).unwrap();
    node.process_commit(0, &commit0, true).unwrap();
    while node.poll().is_some() {}
    let prepares_before = node.state.count_prepares(0, 1, &digest);
    let commits_before = node.state.count_commits(0, 1, &digest);

    node.process_pre_prepare(pp, true).unwrap();
    node.process_prepare(0, &prepare0, true).unwrap();
    node.process_commit(0, &commit0, true).unwrap();
    assert_eq!(node.state.count_prepares(0, 1, &digest), prepares_before);
    assert_eq!(node.state.count_commits(0, 1, &digest), commits_before);
    assert!(node.poll().is_none());
    assert_eq!(node.take_client_replies().len(), 0);
}

#[test]
fn validation_errors() {
    let mut node = backup(3);
    // Failed signature verdict.
    let pp = PrePrepare::from(0, 1, req("SET x 1", 100, "C"));
    assert_eq!(
        node.process_pre_prepare(pp, false),
        Err(ProtocolError::InvalidMessage)
    );
    // Tampered digest.
    let mut bad = PrePrepare::from(0, 1, req("SET x 1", 100, "C"));
    bad.digest[0] ^= 1;
    assert_eq!(
        node.process_pre_prepare(bad, true),
        Err(ProtocolError::InvalidMessage)
    );
    // Stale view.
    let stale = PrePrepare::from(7, 1, req("SET x 1", 100, "C"));
    assert_eq!(
        node.process_pre_prepare(stale, true),
        Err(ProtocolError::ViewMismatch)
    );
    let pp2 = PrePrepare::from(0, 2, req("SET x 1", 100, "C"));
    let prepare_stale = Prepare { view: 7, n: 1, digest: pp2.digest(), replica: 0 };
    assert_eq!(
        node.process_prepare(0, &prepare_stale, true),
        Err(ProtocolError::ViewMismatch)
    );
    let commit_stale = Commit { view: 7, n: 1, digest: pp2.digest(), replica: 0 };
    assert_eq!(
        node.process_commit(0, &commit_stale, true),
        Err(ProtocolError::ViewMismatch)
    );
    // Outside the watermark window.
    let mut windowed = Pbft::new(3, Config::new(4, 0, 10));
    let far = PrePrepare::from(0, 11, req("SET x 1", 100, "C"));
    assert_eq!(
        windowed.process_pre_prepare(far, true),
        Err(ProtocolError::OutOfWatermark)
    );
    let commit_far = Commit { view: 0, n: 11, digest: vec![0u8; 64], replica: 0 };
    assert_eq!(
        windowed.process_commit(0, &commit_far, true),
        Err(ProtocolError::OutOfWatermark)
    );
    // A COMMIT with no matching PRE-PREPARE.
    let commit_orphan = Commit { view: 0, n: 5, digest: vec![0u8; 64], replica: 0 };
    assert_eq!(
        node.process_commit(0, &commit_orphan, true),
        Err(ProtocolError::NoMatchingPrePrepare)
    );
}

#[test]
fn inject_node_event_dispatches_and_acknowledges() {
    let mut node = backup(3);
    let pp = PrePrepare::from(0, 1, req("SET x 1", 100, "C"));
    let event = PbftHandlerEvent::ProcessPrePrepareRequest { request: pp, connection_id: 9 };
    node.inject_node_event(0, event, true);
    let mut saw_ack = false;
    while let Some(action) = node.poll() {
        if let NetworkAction::SendEvent {
            peer_id,
            event: PbftHandlerIn::PrePrepareResponse(tag, conn),
        } = action
        {
            assert_eq!(peer_id, 0);
            assert_eq!(conn, 9);
            assert_eq!(tag, ResponseTag::Accepted);
            saw_ack = true;
        }
    }
    assert!(saw_ack);

    // A rejected message is acknowledged with its error.
    let stale = PrePrepare::from(7, 1, req("SET x 1", 100, "C"));
    let event = PbftHandlerEvent::ProcessPrePrepareRequest { request: stale, connection_id: 10 };
    node.inject_node_event(0, event, true);
    let mut saw_reject = false;
    while let Some(action) = node.poll() {
        if let NetworkAction::SendEvent {
            event: PbftHandlerIn::PrePrepareResponse(tag, _),
            ..
        } = action
        {
            assert_eq!(tag, ResponseTag::Rejected(ProtocolError::ViewMismatch));
            saw_reject = true;
        }
    }
    assert!(saw_reject);
}

#[test]
fn peer_bookkeeping() {
    let mut node = single_node();
    assert!(!node.has_peer(7));
    node.inject_connected(7);
    assert!(node.has_peer(7));
    node.inject_connected(7);
    assert!(node.has_peer(7));
    node.inject_disconnected(7);
    assert!(!node.has_peer(7));

    node.add_peer(7, b"/ip4/127.0.0.1/tcp/4001".to_vec());
    node.add_peer(7, b"/ip4/127.0.0.1/tcp/4002".to_vec());
    node.add_peer(7, b"/ip4/127.0.0.1/tcp/4001".to_vec());
    let addrs = node.addresses_of_peer(7);
    assert_eq!(addrs.len(), 2);
    assert!(node.addresses_of_peer(8).is_empty());
    let mut dials = 0;
    while let Some(action) = node.poll() {
        if let NetworkAction::DialPeer { peer_id } = action {
            assert_eq!(peer_id, 7);
            dials += 1;
        }
    }
    assert_eq!(dials, 3);
}

#[test]
fn sequence_allocator_is_monotonic() {
    let mut seq = PrePrepareSequence::new();
    assert_eq!(seq.value(), 0);
    seq.increment();
    assert_eq!(seq.value(), 1);
    seq.increment();
    assert_eq!(seq.value(), 2);
}

#[test]
fn digest_binds_the_request() {
    let pp = PrePrepare::from(0, 1, req("SET x 1", 100, "C"));
    assert_eq!(pp.digest().len(), 64);
    assert!(pp.validate_digest());
    let other = PrePrepare::from(0, 1, req("SET x 2", 100, "C"));
    assert_ne!(pp.digest(), other.digest());
    let mut tampered = PrePrepare::from(0, 1, req("SET x 1", 100, "C"));
    tampered.digest[0] ^= 1;
    assert!(!tampered.validate_digest());
}

#[test]
fn response_ack_is_a_no_op() {
    let mut node = backup(3);
    let event = PbftHandlerEvent::Response { response: b"OK".to_vec() };
    node.inject_node_event(0, event, true);
    assert!(node.poll().is_none());
    assert_eq!(node.take_client_replies().len(), 0);
}

#[test]
fn failure_marker_describes_itself() {
    let failure = pbft::behavior::PbftFailure;
    assert_eq!(failure.message(), "pbft failure");
}

#[test]
fn client_request_accessors() {
    let r = req("SET x 1", 100, "C");
    assert_eq!(r.operation(), b"SET x 1".to_vec());
    assert_eq!(r.timestamp(), 100);
    assert_eq!(r.client(), b"C".to_vec());
}
