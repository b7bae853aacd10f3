use raft_server::{
    decode_frames, decode_preamble, encode_frame, encode_preamble, Actions, ConnectionKind,
    ConsensusTimeout, Delivery, Fired, Preamble, RaftError, Server, RECONNECT_DELAY_MILLIS,
};

fn addr(s: &str) -> Vec<u8> {
    s.as_bytes().to_vec()
}

fn new_test_server(peers: Vec<(u64, Vec<u8>)>) -> Result<Server, RaftError> {
    Server::new(0, addr("127.0.0.1:9000"))
        .with_peers(peers)
        .with_election_min_millis(1500)
        .with_election_max_millis(3000)
        .with_heartbeat_millis(1000)
        .with_max_connections(129)
        .finalize()
}

/// The payloads of the frames queued on a connection, from the head.
fn queued_payloads(server: &Server, token: usize) -> Vec<Vec<u8>> {
    let conn = server.connection(token).unwrap();
    let mut bytes = Vec::new();
    for frame in &conn.outbox {
        bytes.extend_from_slice(frame);
    }
    let (frames, rest) = decode_frames(&bytes).unwrap();
    assert!(rest.is_empty());
    frames
}

fn read_server_preamble(payload: &Vec<u8>) -> u64 {
    match decode_preamble(payload) {
        Some(Preamble::Server { id, .. }) => id,
        _ => panic!("unexpected preamble id"),
    }
}

/// Writes out every queued byte of a connection.
fn drain(server: &mut Server, token: usize) {
    loop {
        let n = {
            let conn = server.connection(token).unwrap();
            if conn.outbox.is_empty() {
                break;
            }
            conn.outbox[0].len() - conn.cursor
        };
        server.on_written(token, n);
    }
}

fn client_preamble(id: u128) -> Vec<u8> {
    encode_frame(&encode_preamble(&Preamble::Client { id }))
}

fn server_preamble(id: u64, a: &str) -> Vec<u8> {
    encode_frame(&encode_preamble(&Preamble::Server { id, addr: addr(a) }))
}

/// Feeds bytes to a connection and hands each complete message to the server,
/// resetting the connection on any error, as the event loop does.
fn feed(server: &mut Server, token: usize, bytes: &[u8]) -> Vec<Delivery> {
    let mut out = Vec::new();
    match server.readable(token, &bytes.to_vec()) {
        Err(_) => server.reset_connection(token),
        Ok(messages) => {
            for m in messages {
                match server.handle_message(token, m) {
                    Ok(d) => out.push(d),
                    Err(_) => {
                        server.reset_connection(token);
                        break;
                    }
                }
            }
        }
    }
    out
}

#[test]
fn test_illegal_peer_set() {
    let peers = vec![(0u64, addr("127.0.0.1:0"))];
    assert!(new_test_server(peers).is_err());
    assert_eq!(
        new_test_server(vec![(0u64, addr("127.0.0.1:0"))]).err(),
        Some(RaftError::InvalidPeerSet)
    );
}

#[test]
fn duplicate_peer_is_rejected() {
    let peers = vec![(1u64, addr("10.0.0.1:1")), (1u64, addr("10.0.0.2:1"))];
    assert_eq!(new_test_server(peers).err(), Some(RaftError::InvalidPeerSet));
}

#[test]
fn too_many_peers_for_the_table() {
    let r = Server::new(0, addr("127.0.0.1:9000"))
        .with_peers(vec![(1, addr("a")), (2, addr("b"))])
        .with_max_connections(1)
        .finalize();
    assert_eq!(r.err(), Some(RaftError::ConnectionLimitReached));
}

#[test]
fn one_index_entry_per_peer() {
    let server =
        new_test_server(vec![(1, addr("10.0.0.1:1")), (2, addr("10.0.0.2:2"))]).unwrap();
    assert_eq!(server.peers(), &vec![1u64, 2]);
    let t1 = server.peer_token(1).unwrap();
    let t2 = server.peer_token(2).unwrap();
    assert_ne!(t1, t2);
    assert_eq!(server.connection(t1).unwrap().kind, ConnectionKind::Peer(1));
    assert_eq!(server.connection(t2).unwrap().addr, addr("10.0.0.2:2"));
    assert_eq!(server.peer_token(3), None);
    assert_eq!(server.peer_token(0), None);
}

#[test]
fn test_peer_connect() {
    let mut server = new_test_server(vec![(1, addr("127.0.0.1:7001"))]).unwrap();
    let tokens = server.start_loop();
    let token = server.peer_token(1).unwrap();
    assert_eq!(tokens, vec![token]);
    // The server sends a valid preamble first.
    let frames = queued_payloads(&server, token);
    assert_eq!(0, read_server_preamble(&frames[0]));
    assert!(server.peer_connected(1));
    drain(&mut server, token);

    // The connection drops.
    server.reset_connection(token);
    assert!(!server.peer_connected(1));

    // Nothing fires before the back-off ends.
    server.tick(RECONNECT_DELAY_MILLIS - 1, 0);
    assert!(server.expire().is_none());

    // The server reconnects after the back-off, preamble first.
    server.tick(RECONNECT_DELAY_MILLIS, 0);
    match server.expire() {
        Some(Fired::Reconnect { token: t, id, addr: a }) => {
            assert_eq!(t, token);
            assert_eq!(id, 1);
            assert_eq!(a, addr("127.0.0.1:7001"));
        }
        other => panic!("unexpected: {:?}", other),
    }
    assert!(server.peer_connected(1));
    let frames = queued_payloads(&server, token);
    assert_eq!(0, read_server_preamble(&frames[0]));
}

#[test]
fn test_peer_accept() {
    let mut server = new_test_server(vec![(1, addr("127.0.0.1:7001"))]).unwrap();
    server.start_loop();
    let old_token = server.peer_token(1).unwrap();
    assert!(server.peer_connected(1));

    // A replacement connection arrives and announces peer 1.
    let token = server.accept_connection(addr("127.0.0.1:50000")).unwrap();
    let out = feed(&mut server, token, &server_preamble(1, "192.168.0.1:12345"));
    assert_eq!(out.len(), 1);
    match &out[0] {
        Delivery::PeerConnected { id, addr: a, replaced } => {
            assert_eq!(*id, 1);
            assert_eq!(*a, addr("192.168.0.1:12345"));
            assert_eq!(*replaced, old_token);
        }
        other => panic!("unexpected: {:?}", other),
    }
    // The old connection is gone; the new one keeps the announced address.
    assert!(server.connection(old_token).is_none());
    assert_eq!(server.peer_token(1), Some(token));
    let conn = server.connection(token).unwrap();
    assert_eq!(conn.kind, ConnectionKind::Peer(1));
    assert!(conn.addr.ends_with(b":12345"));
    assert!(server.peer_connected(1));
}

#[test]
fn peer_swap_cancels_reconnection_timer() {
    let mut server = new_test_server(vec![(1, addr("127.0.0.1:7001"))]).unwrap();
    server.start_loop();
    let old_token = server.peer_token(1).unwrap();
    server.reset_connection(old_token);
    assert!(!server.peer_connected(1));
    let token = server.accept_connection(addr("127.0.0.1:50000")).unwrap();
    feed(&mut server, token, &server_preamble(1, "10.0.0.1:1"));
    assert!(server.peer_connected(1));
    assert_eq!(server.next_deadline(), None);
    server.tick(u64::MAX, 0);
    assert!(server.expire().is_none());
}

#[test]
fn preamble_of_unknown_peer_is_refused() {
    let mut server = new_test_server(vec![(1, addr("127.0.0.1:7001"))]).unwrap();
    let token = server.accept_connection(addr("127.0.0.1:50000")).unwrap();
    let msg = encode_preamble(&Preamble::Server { id: 7, addr: addr("10.0.0.7:7") });
    assert_eq!(server.handle_message(token, msg).err(), Some(RaftError::UnknownPeer));
    assert_eq!(server.connection(token).unwrap().kind, ConnectionKind::Unknown);
}

#[test]
fn test_client_accept() {
    let mut server = new_test_server(vec![]).unwrap();
    let token = server.accept_connection(addr("127.0.0.1:50001")).unwrap();
    let client_id: u128 = 0x0123_4567_89ab_cdef_fedc_ba98_7654_3210;
    let out = feed(&mut server, token, &client_preamble(client_id));
    assert_eq!(out.len(), 1);
    assert!(matches!(out[0], Delivery::ClientConnected { id } if id == client_id));
    assert!(server.client_connected(client_id));

    // The client hangs up.
    server.reset_connection(token);
    assert!(!server.client_connected(client_id));
    assert!(server.connection(token).is_none());
}

#[test]
fn second_client_with_same_id_is_refused() {
    let mut server = new_test_server(vec![]).unwrap();
    let a = server.accept_connection(addr("127.0.0.1:50001")).unwrap();
    let b = server.accept_connection(addr("127.0.0.1:50002")).unwrap();
    feed(&mut server, a, &client_preamble(9));
    let msg = encode_preamble(&Preamble::Client { id: 9 });
    assert_eq!(server.handle_message(b, msg).err(), Some(RaftError::DuplicateClient));
    server.reset_connection(b);
    assert!(server.connection(b).is_none());
    assert!(server.client_connected(9));
}

#[test]
fn test_invalid_accept() {
    let mut server = new_test_server(vec![]).unwrap();
    let token = server.accept_connection(addr("127.0.0.1:50001")).unwrap();
    assert_eq!(
        server.readable(token, &b"foo bar baz".to_vec()).err(),
        Some(RaftError::MalformedFrame)
    );
    server.reset_connection(token);
    // The server disposes of the connection.
    assert!(server.connection(token).is_none());
}

#[test]
fn framed_garbage_is_no_preamble() {
    let mut server = new_test_server(vec![]).unwrap();
    let token = server.accept_connection(addr("127.0.0.1:50001")).unwrap();
    let r = server.handle_message(token, b"foo bar baz".to_vec());
    assert_eq!(r.err(), Some(RaftError::UnknownConnectionType));
}

#[test]
fn test_invalid_peer_message() {
    let mut server = new_test_server(vec![(1, addr("127.0.0.1:7001"))]).unwrap();
    server.start_loop();
    let token = server.peer_token(1).unwrap();
    drain(&mut server, token);

    // Garbage from the peer resets the connection.
    feed(&mut server, token, b"foo bar baz");
    assert!(!server.peer_connected(1));
    assert_eq!(server.peer_token(1), Some(token));

    // It reconnects after the back-off.
    server.tick(RECONNECT_DELAY_MILLIS, 0);
    assert!(matches!(server.expire(), Some(Fired::Reconnect { .. })));
    assert!(server.peer_connected(1));
}

#[test]
fn test_invalid_client_message() {
    let mut server = new_test_server(vec![]).unwrap();
    let token = server.accept_connection(addr("127.0.0.1:50001")).unwrap();
    let client_id: u128 = 77;
    feed(&mut server, token, &client_preamble(client_id));
    assert!(server.client_connected(client_id));
    feed(&mut server, token, b"foo bar baz");
    assert!(!server.client_connected(client_id));
}

#[test]
fn test_unreachable_peer() {
    let mut server = new_test_server(vec![(1, addr("127.0.0.1:1"))]).unwrap();
    let tokens = server.start_loop();
    // The first dial fails at once.
    server.reset_connection(tokens[0]);
    assert!(!server.peer_connected(1));
}

#[test]
fn test_connection_send() {
    let mut server = new_test_server(vec![(1, addr("127.0.0.1:7001"))]).unwrap();
    server.start_loop();
    let token = server.peer_token(1).unwrap();
    drain(&mut server, token);

    let mut actions = Actions::new();
    actions
        .peer_messages
        .push((1, encode_preamble(&Preamble::Server { id: 1, addr: addr("127.0.0.1:7001") })));
    assert!(server.can_execute(&actions));
    let rearm = server.execute_actions(actions);
    assert_eq!(rearm, vec![token]);
    let frames = queued_payloads(&server, token);
    assert_eq!(frames.len(), 1);
    assert_eq!(1, read_server_preamble(&frames[0]));
}

#[test]
fn empty_actions_change_nothing() {
    let mut server = new_test_server(vec![(1, addr("127.0.0.1:7001"))]).unwrap();
    server.start_loop();
    let token = server.peer_token(1).unwrap();
    let before = queued_payloads(&server, token);
    let rearm = server.execute_actions(Actions::new());
    assert!(rearm.is_empty());
    assert_eq!(queued_payloads(&server, token), before);
    assert_eq!(server.next_deadline(), None);
    assert!(server.peer_connected(1));
}

#[test]
fn actions_run_in_order() {
    let mut server = new_test_server(vec![(1, addr("a:1")), (2, addr("b:2"))]).unwrap();
    server.start_loop();
    let t1 = server.peer_token(1).unwrap();
    let t2 = server.peer_token(2).unwrap();
    let c = server.accept_connection(addr("c:3")).unwrap();
    feed(&mut server, c, &client_preamble(5));

    let mut a = Actions::new();
    a.clear_peer_messages = true;
    a.peer_messages.push((1, vec![1]));
    a.peer_messages.push((2, vec![2]));
    a.peer_messages.push((1, vec![3]));
    a.client_messages.push((5, vec![4]));
    a.client_messages.push((6, vec![5]));
    let rearm = server.execute_actions(a);
    // Queued preambles were dropped; messages are in order.
    assert_eq!(queued_payloads(&server, t1), vec![vec![1u8], vec![3u8]]);
    assert_eq!(queued_payloads(&server, t2), vec![vec![2u8]]);
    assert_eq!(queued_payloads(&server, c), vec![vec![4u8]]);
    assert_eq!(rearm.len(), 3);
    assert!(rearm.contains(&t1) && rearm.contains(&t2) && rearm.contains(&c));
}

#[test]
fn consensus_timers_are_unique_per_kind() {
    let mut server = new_test_server(vec![(1, addr("a:1"))]).unwrap();
    server.tick(1000, 0);
    let mut a = Actions::new();
    a.timeouts.push(ConsensusTimeout::Election);
    a.timeouts.push(ConsensusTimeout::Heartbeat(1));
    server.execute_actions(a);
    // Heartbeat at 1000 + 1000; election at 1000 + 1500 + 0 % 1501.
    assert_eq!(server.next_deadline(), Some(2000));

    server.tick(1200, 0);
    let mut b = Actions::new();
    b.timeouts.push(ConsensusTimeout::Heartbeat(1));
    server.execute_actions(b);
    // The heartbeat was replaced, not doubled: it fires once, at 2200.
    assert_eq!(server.next_deadline(), Some(2200));
    server.tick(2100, 0);
    assert!(server.expire().is_none());
    server.tick(2200, 0);
    assert!(matches!(server.expire(), Some(Fired::Consensus(ConsensusTimeout::Heartbeat(1)))));
    assert!(server.expire().is_none());
    server.tick(2500, 0);
    assert!(matches!(server.expire(), Some(Fired::Consensus(ConsensusTimeout::Election))));
    assert!(server.expire().is_none());
    assert_eq!(server.next_deadline(), None);
}

#[test]
fn clear_timeouts_cancels_every_consensus_timer() {
    let mut server = new_test_server(vec![(1, addr("a:1"))]).unwrap();
    let mut a = Actions::new();
    a.timeouts.push(ConsensusTimeout::Election);
    server.execute_actions(a);
    assert!(server.next_deadline().is_some());
    let mut b = Actions::new();
    b.clear_timeouts = true;
    server.execute_actions(b);
    assert_eq!(server.next_deadline(), None);
}

#[test]
fn election_duration_is_drawn_from_the_range() {
    let mut server = new_test_server(vec![]).unwrap();
    server.tick(0, 1501);
    let mut a = Actions::new();
    a.timeouts.push(ConsensusTimeout::Election);
    server.execute_actions(a);
    // 1500 + 1501 % 1501 = 1500.
    assert_eq!(server.next_deadline(), Some(1500));
    server.tick(0, 1500);
    let mut b = Actions::new();
    b.timeouts.push(ConsensusTimeout::Election);
    server.execute_actions(b);
    // 1500 + 1500 % 1501 = 3000, the maximum.
    assert_eq!(server.next_deadline(), Some(3000));
}

#[test]
fn connection_limit_refuses_accept() {
    let mut server = Server::new(0, addr("x:1")).with_max_connections(1).finalize().unwrap();
    assert!(server.accept_connection(addr("y:1")).is_ok());
    assert_eq!(
        server.accept_connection(addr("y:2")).err(),
        Some(RaftError::ConnectionLimitReached)
    );
}

#[test]
fn partial_writes_keep_order() {
    let mut server = new_test_server(vec![(1, addr("a:1"))]).unwrap();
    let token = server.peer_token(1).unwrap();
    let mut a = Actions::new();
    a.peer_messages.push((1, vec![10, 11]));
    a.peer_messages.push((1, vec![12]));
    server.execute_actions(a);
    // First frame is 6 bytes: write 4, then 2.
    assert!(!server.on_written(token, 4));
    assert_eq!(server.connection(token).unwrap().cursor, 4);
    assert!(!server.on_written(token, 2));
    assert_eq!(server.connection(token).unwrap().outbox, vec![vec![1u8, 0, 0, 0, 12]]);
    assert!(server.on_written(token, 5));
}

#[test]
fn messages_split_across_reads() {
    let mut server = new_test_server(vec![(1, addr("a:1"))]).unwrap();
    let token = server.peer_token(1).unwrap();
    let bytes = [encode_frame(&vec![1, 2, 3]), encode_frame(&vec![4])].concat();
    let first = server.readable(token, &bytes[..5].to_vec()).unwrap();
    assert!(first.is_empty());
    let rest = server.readable(token, &bytes[5..].to_vec()).unwrap();
    assert_eq!(rest, vec![vec![1u8, 2, 3], vec![4u8]]);
    let out = server.handle_message(token, vec![9]).unwrap();
    assert!(matches!(out, Delivery::Peer { id: 1, ref message } if *message == vec![9u8]));
}
