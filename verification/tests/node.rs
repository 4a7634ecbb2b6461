use hypernet::address::IpAddr;
use hypernet::codec::{decode, encode, CodecError};
use hypernet::link::{receive_helper, send_helper, LinkError, Outbound, Transfer};
use hypernet::node::Node;
use hypernet::protocol::{Identity, Message, Peer, MAX_MESSAGE_SIZE};
use std::collections::HashMap;

const TEST_PORT: u16 = 8080;

fn identity() -> Identity {
    Identity { ip: IpAddr::from_octets(0, 0, 0, 0), port: TEST_PORT }
}

/// Carries a request to the node that listens at its target and brings the
/// response back, as a connection would.
fn deliver(server: &mut Node, request: Result<Outbound, LinkError>) -> Result<Message, LinkError> {
    let request = request?;
    assert_eq!(request.target, server.identity());
    match server.respond(&request.frame) {
        Ok(reply) => receive_helper(Transfer::Received(reply)),
        Err(_) => receive_helper(Transfer::Received(vec![])),
    }
}

#[test]
fn test_send_ping() {
    let mut server = Node::new(IpAddr::from_octets(0, 0, 0, 0), TEST_PORT);
    let node_client = Node::new(IpAddr::from_octets(127, 0, 0, 1), 9090);
    let res = deliver(&mut server, node_client.send_ping(&identity())).unwrap();
    assert_eq!(res, Message::Pong);
}

#[test]
fn test_send_peer() {
    let mut server = Node::new(IpAddr::from_octets(0, 0, 0, 0), TEST_PORT);
    let mut node_client = Node::new(IpAddr::from_octets(127, 0, 0, 1), 9090);
    let i = &identity();
    let peers = vec![Peer { label: 100, ip: IpAddr::from_octets(127, 0, 0, 1), port: 9000 }];
    let res = deliver(&mut server, node_client.set_peers(i, peers)).unwrap();
    assert_eq!(res, Message::Okay);

    let res = deliver(&mut server, node_client.get_peers(i)).unwrap();
    assert_eq!(
        res,
        Message::PeerInfo(HashMap::from([(
            100,
            Identity { ip: IpAddr::from_octets(127, 0, 0, 1), port: 9000 }
        )]))
    );

    // Now update peer 100
    let peers = vec![Peer { label: 100, ip: IpAddr::from_octets(127, 0, 0, 1), port: 9001 }];
    deliver(&mut server, node_client.set_peers(i, peers)).unwrap();
    let res = deliver(&mut server, node_client.get_peers(i)).unwrap();
    assert_eq!(
        res,
        Message::PeerInfo(HashMap::from([(
            100,
            Identity { ip: IpAddr::from_octets(127, 0, 0, 1), port: 9001 }
        )]))
    );
}

#[test]
fn a_new_node_has_no_label_and_no_peers() {
    let mut node = Node::new(IpAddr::from_octets(10, 1, 2, 3), 9090);
    assert_eq!(node.label(), None);
    assert_eq!(node.identity(), Identity::new(IpAddr::from_octets(10, 1, 2, 3), 9090));
    assert_eq!(node.peer(0), None);
    assert_eq!(node.request_handler(Message::GetPeerInfo), Message::PeerInfo(HashMap::new()));
    let labelled = Node::with_label(7, IpAddr::localhost(), 1);
    assert_eq!(labelled.label(), Some(7));
}

#[test]
fn every_ping_gets_its_pong() {
    let mut node = Node::new(IpAddr::localhost(), TEST_PORT);
    let peer = Peer { label: 1, ip: IpAddr::localhost(), port: 9000 };
    let between = vec![
        Message::SetPeerInfo(vec![peer]),
        Message::GetPeerInfo,
        Message::Pong,
        Message::Value(3),
        Message::Error("no".to_string()),
    ];
    for other in between {
        for _ in 0..3 {
            assert_eq!(node.request_handler(Message::Ping), Message::Pong);
        }
        node.request_handler(other);
    }
    assert_eq!(node.request_handler(Message::Ping), Message::Pong);
    assert_eq!(node.peer(1), Some(peer.identity()));
}

#[test]
fn the_last_address_for_a_label_stays() {
    let mut node = Node::new(IpAddr::localhost(), TEST_PORT);
    let first = Peer { label: 5, ip: IpAddr::from_octets(10, 0, 0, 1), port: 1 };
    let second = Peer { label: 5, ip: IpAddr::from_octets(10, 0, 0, 2), port: 2 };
    let other = Peer { label: 6, ip: IpAddr::from_octets(10, 0, 0, 3), port: 3 };
    assert_eq!(node.request_handler(Message::SetPeerInfo(vec![first, other])), Message::Okay);
    assert_eq!(node.request_handler(Message::SetPeerInfo(vec![second])), Message::Okay);
    assert_eq!(
        node.request_handler(Message::GetPeerInfo),
        Message::PeerInfo(HashMap::from([(5, second.identity()), (6, other.identity())]))
    );
    // within one request the later entry stays too
    assert_eq!(node.request_handler(Message::SetPeerInfo(vec![second, first])), Message::Okay);
    assert_eq!(node.peer(5), Some(first.identity()));
    assert_eq!(node.peer(6), Some(other.identity()));
    assert_eq!(node.peer(7), None);
}

#[test]
fn what_is_no_request_gets_an_error() {
    let mut node = Node::new(IpAddr::localhost(), TEST_PORT);
    node.request_handler(Message::SetPeerInfo(vec![Peer {
        label: 1,
        ip: IpAddr::localhost(),
        port: 2,
    }]));
    let cases = vec![
        (Message::Okay, "unknown request type Okay"),
        (Message::Error("x".to_string()), "unknown request type Error"),
        (Message::Pong, "unknown request type Pong"),
        (Message::PeerInfo(HashMap::new()), "unknown request type PeerInfo"),
        (Message::Propagate(1), "unknown request type Propagate"),
        (Message::Broadcast(1), "unknown request type Broadcast"),
    ];
    for (req, text) in cases {
        assert_eq!(node.request_handler(req), Message::Error(text.to_string()));
        assert_eq!(node.peer(1), Some(Identity::new(IpAddr::localhost(), 2)));
        assert_eq!(node.value(), 0);
    }
}

#[test]
fn a_value_query_is_answered_with_the_value() {
    let mut node = Node::new(IpAddr::localhost(), TEST_PORT);
    assert_eq!(node.value(), 0);
    assert_eq!(node.request_handler(Message::GetValue), Message::Value(0));
    assert_eq!(node.request_handler(Message::Value(99)), Message::Value(0));
    assert_eq!(node.respond(&[7]), Ok(vec![8, 0, 0, 0, 0]));
    let peer = Peer { label: 1, ip: IpAddr::localhost(), port: 2 };
    node.request_handler(Message::SetPeerInfo(vec![peer]));
    node.set_value(0x0102_0304);
    assert_eq!(node.value(), 0x0102_0304);
    assert_eq!(node.request_handler(Message::GetValue), Message::Value(0x0102_0304));
    assert_eq!(node.request_handler(Message::Value(5)), Message::Value(0x0102_0304));
    assert_eq!(node.respond(&[7]), Ok(vec![8, 4, 3, 2, 1]));
    assert_eq!(node.respond(&[8, 9, 9, 9, 9]), Ok(vec![8, 4, 3, 2, 1]));
    // asking changes nothing
    assert_eq!(node.value(), 0x0102_0304);
    assert_eq!(node.peer(1), Some(peer.identity()));
    assert_eq!(node.label(), None);
}

#[test]
fn frames_in_frames_out() {
    let mut node = Node::new(IpAddr::localhost(), TEST_PORT);
    assert_eq!(node.respond(&[2]), Ok(vec![3]));
    assert_eq!(node.respond(&[5]), Ok(vec![6]));
    let reply = node.respond(&encode(&Message::Pong).unwrap()).unwrap();
    assert_eq!(decode(&reply), Ok(Message::Error("unknown request type Pong".to_string())));
}

#[test]
fn a_bad_frame_gets_no_response_and_changes_nothing() {
    let mut node = Node::new(IpAddr::localhost(), TEST_PORT);
    let peer = Peer { label: 1, ip: IpAddr::localhost(), port: 2 };
    node.request_handler(Message::SetPeerInfo(vec![peer]));
    assert_eq!(node.respond(&[]), Err(CodecError::MalformedFrame));
    assert_eq!(node.respond(&[4, 1, 2]), Err(CodecError::MalformedFrame));
    assert_eq!(node.respond(&[99]), Err(CodecError::MalformedFrame));
    assert_eq!(node.respond(&vec![2; MAX_MESSAGE_SIZE + 1]), Err(CodecError::FrameTooLarge));
    assert_eq!(
        node.request_handler(Message::GetPeerInfo),
        Message::PeerInfo(HashMap::from([(1, peer.identity())]))
    );
    assert_eq!(node.respond(&[2]), Ok(vec![3]));
}

#[test]
fn a_response_that_is_too_large_is_not_sent() {
    let mut node = Node::new(IpAddr::localhost(), TEST_PORT);
    let first: Vec<Peer> =
        (0..44).map(|i| Peer { label: i, ip: IpAddr::localhost(), port: 1 }).collect();
    let frame = encode(&Message::SetPeerInfo(first)).unwrap();
    assert_eq!(node.respond(&frame), Ok(vec![0]));
    assert_eq!(node.respond(&[5]).unwrap().len(), 1 + 23 * 44);
    let one_more = vec![Peer { label: 44, ip: IpAddr::localhost(), port: 1 }];
    let frame = encode(&Message::SetPeerInfo(one_more)).unwrap();
    assert_eq!(node.respond(&frame), Ok(vec![0]));
    assert_eq!(node.respond(&[5]), Err(CodecError::FrameTooLarge));
    assert_eq!(node.peer(44), Some(Identity::new(IpAddr::localhost(), 1)));
}

#[test]
fn requests_are_checked_before_they_are_sent() {
    let target = identity();
    let out = send_helper(&target, &Message::Ping).unwrap();
    assert_eq!(out, Outbound { target, frame: vec![2] });
    let too_long = Message::Error("x".repeat(MAX_MESSAGE_SIZE));
    assert_eq!(send_helper(&target, &too_long), Err(LinkError::FrameTooLarge));
    let mut client = Node::new(IpAddr::localhost(), 1);
    let many: Vec<Peer> =
        (0..45).map(|i| Peer { label: i, ip: IpAddr::localhost(), port: 1 }).collect();
    assert_eq!(client.set_peers(&target, many), Err(LinkError::FrameTooLarge));
    assert_eq!(client.get_peers(&target).unwrap().frame, vec![5]);
    assert_eq!(client.send_ping(&target).unwrap().target, target);
}

#[test]
fn what_went_wrong_with_a_request_is_told() {
    assert_eq!(receive_helper(Transfer::ConnectFailed), Err(LinkError::ConnectionFailed));
    assert_eq!(receive_helper(Transfer::TimedOut), Err(LinkError::Timeout));
    assert_eq!(receive_helper(Transfer::Received(vec![])), Err(LinkError::MalformedFrame));
    assert_eq!(receive_helper(Transfer::Received(vec![8, 1])), Err(LinkError::MalformedFrame));
    assert_eq!(
        receive_helper(Transfer::Received(vec![3; MAX_MESSAGE_SIZE + 1])),
        Err(LinkError::FrameTooLarge)
    );
    assert_eq!(receive_helper(Transfer::Received(vec![3])), Ok(Message::Pong));
    assert_eq!(receive_helper(Transfer::Received(vec![8, 7, 0, 0, 0])), Ok(Message::Value(7)));
}

#[test]
fn a_node_listens_on_every_address_at_its_port() {
    let node = Node::new(IpAddr::from_octets(192, 168, 1, 20), 9090);
    assert_eq!(node.start(), Identity::new(IpAddr::from_octets(0, 0, 0, 0), 9090));
    assert_eq!(node.start().address(), "0.0.0.0:9090");
}
