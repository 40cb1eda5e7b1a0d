use mpc_exploration::auth::{authorize_peer, parse_decimal_bounded, parse_peer_id_list, AuthError};
use mpc_exploration::communication::{
    build_envelope, build_envelopes, PeerMessage, PeerMessagePayload, PeerRoutingError,
};
use mpc_exploration::config::{build_peers, ConfigError, Peer};
use mpc_exploration::outbox::{
    partition_dispatch_results, InMemoryOutboxRepository, OutboxPeerMessagesSender,
};

fn three_peers() -> Vec<Peer> {
    vec![
        Peer::new(1, "http://localhost:50001".to_string()),
        Peer::new(2, "http://localhost:50002".to_string()),
        Peer::new(3, "http://localhost:50003".to_string()),
    ]
}

#[test]
fn test_parse_decimal() {
    assert_eq!(parse_decimal_bounded(b"0", 255), Some(0));
    assert_eq!(parse_decimal_bounded(b"42", 255), Some(42));
    assert_eq!(parse_decimal_bounded(b"255", 255), Some(255));
    assert_eq!(parse_decimal_bounded(b"256", 255), None);
    assert_eq!(parse_decimal_bounded(b"007", 255), Some(7));
    assert_eq!(parse_decimal_bounded(b"+9", 255), Some(9));
    assert_eq!(parse_decimal_bounded(b"", 255), None);
    assert_eq!(parse_decimal_bounded(b"+", 255), None);
    assert_eq!(parse_decimal_bounded(b"9a", 255), None);
    assert_eq!(parse_decimal_bounded(b"-3", 255), None);
    assert_eq!(parse_decimal_bounded(b"65535", 65535), Some(65535));
}

#[test]
fn test_unknown_peer_rejected() {
    // a caller with an id outside the peer set is refused and nothing else
    // happens
    let peers = three_peers();
    match authorize_peer(Some(b"99"), &peers) {
        Err(AuthError::UnknownPeer(id)) => assert_eq!(id, 99),
        other => panic!("expected an unknown-peer rejection, got {:?}", other.map(|p| p.id)),
    }
    match authorize_peer(None, &peers) {
        Err(AuthError::MissingPeerId) => {}
        _ => panic!("expected a missing-header rejection"),
    }
    match authorize_peer(Some(b"abc"), &peers) {
        Err(AuthError::InvalidPeerId) => {}
        _ => panic!("expected an invalid-header rejection"),
    }
    let ok = authorize_peer(Some(b"2"), &peers).unwrap();
    assert_eq!(ok.id, 2);
}

#[test]
fn test_parse_peer_id_list() {
    assert_eq!(parse_peer_id_list(b"1,2,3"), Some(vec![1, 2, 3]));
    assert_eq!(parse_peer_id_list(b" 7 , 8 "), Some(vec![7, 8]));
    assert_eq!(parse_peer_id_list(b"200"), Some(vec![200]));
    assert_eq!(parse_peer_id_list(b""), None);
    assert_eq!(parse_peer_id_list(b"1,,3"), None);
    assert_eq!(parse_peer_id_list(b"1,256"), None);
    assert_eq!(parse_peer_id_list(b"1,x"), None);
}

#[test]
fn test_build_peers_validation() {
    let urls = vec!["http://a".to_string(), "http://b".to_string()];
    assert!(matches!(
        build_peers(vec![], vec![]),
        Err(ConfigError::NoPeers)
    ));
    assert!(matches!(
        build_peers(urls.clone(), vec![1]),
        Err(ConfigError::LengthMismatch)
    ));
    assert!(matches!(
        build_peers(urls.clone(), vec![1, 1]),
        Err(ConfigError::DuplicatePeerId)
    ));
    let peers = build_peers(urls, vec![1, 2]).unwrap();
    assert_eq!(peers.len(), 2);
    assert_eq!(peers[0].id, 1);
    assert_eq!(peers[1].url, "http://b");
}

#[test]
fn test_build_envelope_routing() {
    let peers = three_peers();
    let msg = PeerMessage::new_share_message(2, 77, 123);
    let env = build_envelope(msg, 1, &peers).unwrap();
    assert_eq!(env.peer_id, 2);
    assert_eq!(env.peer_url, "http://localhost:50002");
    assert!(matches!(env.payload, PeerMessagePayload::Share { value: 123 }));

    let own = PeerMessage::new_share_message(1, 77, 5);
    assert!(matches!(
        build_envelope(own, 1, &peers),
        Err(PeerRoutingError::OwnPeerId(1))
    ));
    let unknown = PeerMessage::new_shares_sum_message(9, 77, 5);
    assert!(matches!(
        build_envelope(unknown, 1, &peers),
        Err(PeerRoutingError::PeerNotFound(9))
    ));
}

#[test]
fn test_outbox_enqueue_and_ready_order() {
    let peers = three_peers();
    let mut repo = InMemoryOutboxRepository::new();
    let msgs = vec![
        PeerMessage::new_share_message(2, 1, 10),
        PeerMessage::new_share_message(3, 1, 20),
    ];
    let envs = build_envelopes(msgs, 1, &peers).unwrap();
    let items = repo.enqueue_envelopes_at(envs, 100);
    assert_eq!(items.len(), 2);
    for it in &items {
        assert_eq!(it.attempts, 0);
        assert_eq!(it.created_at, 100);
        assert_eq!(it.scheduled_at, 100);
    }

    // both are ready at their schedule time, none before it
    let ready = repo.ready_to_send_at(10, 100);
    assert_eq!(ready.len(), 2);
    let early = repo.ready_to_send_at(10, 99);
    assert_eq!(early.len(), 0);
    let limited = repo.ready_to_send_at(1, 100);
    assert_eq!(limited.len(), 1);

    // a rescheduled item sorts after a fresh one and gains an attempt
    let ids: Vec<u128> = vec![items[0].id];
    repo.re_enqueue_envelopes_at(&ids, 1000, 100).unwrap();
    let ready = repo.ready_to_send_at(10, 2000);
    assert_eq!(ready.len(), 2);
    assert_eq!(ready[0].id, items[1].id);
    assert_eq!(ready[1].id, items[0].id);
    assert_eq!(ready[1].attempts, 1);
    assert_eq!(ready[1].scheduled_at, 1100);

    // rescheduling an unknown id fails
    let bogus: Vec<u128> = vec![999_999];
    assert!(repo.re_enqueue_envelopes_at(&bogus, 1000, 100).is_err());

    // dequeue removes items for good
    let both: Vec<u128> = vec![items[0].id, items[1].id];
    let removed = repo.dequeue_envelopes(&both);
    assert_eq!(removed.len(), 2);
    let after = repo.ready_to_send_at(10, i64::MAX);
    assert_eq!(after.len(), 0);
    let none = repo.dequeue_envelopes(&both);
    assert_eq!(none.len(), 0);
}

#[test]
fn test_partition_dispatch_results() {
    // success, failure below the cap, failure at the cap
    let extracts: Vec<(u128, u8)> = vec![(10, 0), (11, 2), (12, 5), (13, 5)];
    let results: Vec<bool> = vec![true, false, false, true];
    let parts = partition_dispatch_results(&extracts, &results);
    assert_eq!(parts.success, vec![10, 13]);
    assert_eq!(parts.retried, vec![11]);
    assert_eq!(parts.abandoned, vec![12]);
}

#[test]
fn test_outbox_retry_until_abandoned() {
    // an envelope whose delivery keeps failing is rescheduled with growing
    // attempt counts and finally abandoned at the cap
    let peers = three_peers();
    let mut repo = InMemoryOutboxRepository::new();
    let envs =
        build_envelopes(vec![PeerMessage::new_share_message(2, 3, 9)], 1, &peers).unwrap();
    let items = repo.enqueue_envelopes_at(envs, 0);
    let id = items[0].id;

    let mut now = 0;
    loop {
        let ready = repo.ready_to_send_at(10, now + 10_000);
        assert_eq!(ready.len(), 1);
        let extracts: Vec<(u128, u8)> = ready.iter().map(|it| (it.id, it.attempts)).collect();
        let results = vec![false];
        let parts = partition_dispatch_results(&extracts, &results);
        if !parts.abandoned.is_empty() {
            assert_eq!(parts.abandoned, vec![id]);
            let removed = repo.dequeue_envelopes(&parts.abandoned);
            assert_eq!(removed.len(), 1);
            assert_eq!(removed[0].attempts, 5);
            break;
        }
        assert_eq!(parts.retried, vec![id]);
        repo.re_enqueue_envelopes_at(&parts.retried, 1000, now).unwrap();
        now += 1000;
    }
    assert!(repo.ready_to_send_at(10, i64::MAX).is_empty());
}

#[test]
fn test_sender_rejects_own_id() {
    let peers = three_peers();
    let mut sender = OutboxPeerMessagesSender::new(1, peers);
    let msgs = vec![PeerMessage::new_share_message(1, 7, 5)];
    assert!(sender.send_messages(msgs).is_err());
    let ok = vec![PeerMessage::new_share_message(2, 7, 5)];
    let items = sender.send_messages(ok).unwrap();
    assert_eq!(items.len(), 1);
    assert_eq!(items[0].envelope.peer_id, 2);
}
