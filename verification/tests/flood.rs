use hypernet::address::{IpAddr, SocketAddr};
use hypernet::codec::{decode, encode, CodecError};
use hypernet::collective::{Launch, QueryError, QueryFailure};
use hypernet::hypernode::{Delivery, Handled, Hypernode};
use hypernet::identity::Identity;
use hypernet::link::{receive_helper, LinkError, Outbound, Transfer};
use hypernet::protocol::{Message, Peer, MAX_MESSAGE_SIZE};
use hypernet::topology::Hypercube;
use std::collections::{HashMap, VecDeque};

fn all_free() -> Vec<bool> {
    vec![true; 4000]
}

fn coordinator() -> hypernet::protocol::Identity {
    hypernet::protocol::Identity::new(IpAddr::localhost(), 1)
}

fn endpoint(identity: &Identity) -> hypernet::protocol::Identity {
    identity.endpoint()
}

/// The nodes of a topology, by label, as they are right after their start.
fn launch(cube: &Hypercube) -> Vec<Hypernode> {
    cube.launches()
        .iter()
        .map(|l| {
            Hypernode::new(Identity::new(l.id, SocketAddr::new(IpAddr::localhost(), l.port)), l.d)
        })
        .collect()
}

/// The node that listens where `out` is addressed to.
fn addressee(nodes: &[Hypernode], out: &Outbound) -> usize {
    nodes.iter().position(|n| endpoint(&n.identity()) == out.target).unwrap()
}

/// Carries each request of a plan to its node and collects what comes back.
fn carry_out(nodes: &mut [Hypernode], plan: Vec<Outbound>) -> Vec<Result<Message, LinkError>> {
    plan.iter()
        .map(|out| {
            let i = addressee(nodes, out);
            let served = nodes[i].respond(&coordinator(), &out.frame).unwrap();
            assert!(served.forward.is_empty());
            receive_helper(Transfer::Received(served.reply))
        })
        .collect()
}

/// Delivers `seed` and everything that is passed on because of it, first come
/// first served, until nothing is under way. Returns how many messages were
/// delivered and what each node held right after it was first reached.
fn flood(nodes: &mut [Hypernode], seed: Outbound) -> (usize, Vec<Option<u32>>) {
    let mut first = vec![None; nodes.len()];
    let mut delivered = 0;
    let mut under_way = VecDeque::from([(coordinator(), seed)]);
    while let Some((sender, out)) = under_way.pop_front() {
        let i = addressee(nodes, &out);
        let served = nodes[i].respond(&sender, &out.frame).unwrap();
        assert_eq!(decode(&served.reply), Ok(Message::Okay));
        delivered += 1;
        if first[i].is_none() {
            first[i] = Some(nodes[i].value());
        } else {
            assert!(served.forward.is_empty());
        }
        let here = endpoint(&nodes[i].identity());
        for next in served.forward {
            assert_ne!(next.target, sender);
            under_way.push_back((here, next));
        }
    }
    (delivered, first)
}

#[test]
fn an_untouched_topology_holds_zero_everywhere() {
    let mut cube = Hypercube::new(3, &all_free()).unwrap();
    let mut nodes = launch(&cube);
    assert!(cube.start((100..108).collect()));
    let replies = carry_out(&mut nodes, cube.queries());
    let values = cube.query(&replies).unwrap();
    assert_eq!(values, (0..8u16).map(|label| (label, 0u32)).collect::<HashMap<u16, u32>>());
}

#[test]
fn each_node_is_started_with_its_label_dimension_and_port() {
    let cube = Hypercube::new(2, &all_free()).unwrap();
    assert_eq!(
        cube.launches(),
        vec![
            Launch { id: 0, d: 2, port: 8000 },
            Launch { id: 1, d: 2, port: 8001 },
            Launch { id: 2, d: 2, port: 8002 },
            Launch { id: 3, d: 2, port: 8003 },
        ]
    );
}

#[test]
fn each_node_is_told_of_its_neighbors() {
    let cube = Hypercube::new(3, &all_free()).unwrap();
    let mut nodes = launch(&cube);
    let plan = cube.distribute_peers();
    assert_eq!(plan.len(), 8);
    for (label, out) in plan.iter().enumerate() {
        assert_eq!(out.target, endpoint(&cube.identity(label as u16).unwrap()));
    }
    assert_eq!(
        decode(&plan[5].frame),
        Ok(Message::SetPeerInfo(vec![
            Peer { label: 4, ip: IpAddr::localhost(), port: 8004 },
            Peer { label: 7, ip: IpAddr::localhost(), port: 8007 },
            Peer { label: 1, ip: IpAddr::localhost(), port: 8001 },
        ]))
    );
    for reply in carry_out(&mut nodes, plan) {
        assert_eq!(reply, Ok(Message::Okay));
    }
    let table = nodes[5].handle(&coordinator(), Message::GetPeerInfo).response;
    assert_eq!(
        table,
        Message::PeerInfo(HashMap::from([
            (4, hypernet::protocol::Identity::new(IpAddr::localhost(), 8004)),
            (7, hypernet::protocol::Identity::new(IpAddr::localhost(), 8007)),
            (1, hypernet::protocol::Identity::new(IpAddr::localhost(), 8001)),
        ]))
    );
}

#[test]
fn a_flood_reaches_every_node_and_ends() {
    let mut cube = Hypercube::new(3, &all_free()).unwrap();
    let mut nodes = launch(&cube);
    carry_out(&mut nodes, cube.distribute_peers());

    let seed = cube.monotonic();
    assert_eq!(seed.target, endpoint(&cube.identity(0).unwrap()));
    assert_eq!(decode(&seed.frame), Ok(Message::Propagate(0)));
    let (delivered, first) = flood(&mut nodes, seed);

    // every node was reached
    let replies = carry_out(&mut nodes, cube.queries());
    let values = cube.query(&replies).unwrap();
    assert!((0..8u16).all(|label| values[&label] != 0));
    // the seed, and from each node but the first one message per neighbor
    // except the one it was reached from
    assert_eq!(delivered, 1 + 3 + 7 * 2);
    // what a node holds when it is first reached: one more than its distance
    // from where the flood began
    for label in 0..8u16 {
        assert_eq!(first[label as usize], Some(1 + label.count_ones()));
    }
    // node zero was reached by the seed alone, node one by node zero alone
    assert_eq!(values[&0], 1);
    assert_eq!(values[&1], 2);
    // first come, first served: the sums of what reached each node
    let expected: HashMap<u16, u32> =
        HashMap::from([(0, 1), (1, 2), (2, 5), (3, 5), (4, 8), (5, 9), (6, 9), (7, 10)]);
    assert_eq!(values, expected);
}

#[test]
fn a_flood_reaches_every_node_whatever_the_order() {
    let cube = Hypercube::new(4, &all_free()).unwrap();
    for order in 0..4 {
        let mut nodes = launch(&cube);
        carry_out(&mut nodes, cube.distribute_peers());
        let seed = cube.flood_from(5).unwrap();
        let mut under_way = vec![(coordinator(), seed)];
        let mut delivered = 0;
        while !under_way.is_empty() {
            // the last, the first, the middle one, or these in turn
            let pick = match (order + (order / 3) * delivered) % 3 {
                0 => under_way.len() - 1,
                1 => 0,
                _ => under_way.len() / 2,
            };
            let (sender, out) = under_way.remove(pick);
            let i = addressee(&nodes, &out);
            let served = nodes[i].respond(&sender, &out.frame).unwrap();
            delivered += 1;
            // every other run the nodes see each other under addresses at
            // which nobody listens, as behind connections made for one request
            let seen_as = if order % 2 == 0 {
                endpoint(&nodes[i].identity())
            } else {
                hypernet::protocol::Identity::new(IpAddr::localhost(), 40000 + i as u16)
            };
            for next in served.forward {
                under_way.push((seen_as, next));
            }
        }
        assert!(nodes.iter().all(|n| n.value() != 0));
        assert!(delivered <= 17 * 16 + 1);
        // a node that knows its sender passes on to the three other
        // neighbors, one that does not to all four
        let passed_on_by_each = if order % 2 == 0 { 3 } else { 4 };
        assert_eq!(delivered, 1 + 4 + 15 * passed_on_by_each);
    }
}

#[test]
fn a_flood_can_begin_anywhere() {
    let cube = Hypercube::new(4, &all_free()).unwrap();
    let mut nodes = launch(&cube);
    carry_out(&mut nodes, cube.distribute_peers());
    assert!(cube.flood_from(16).is_none());
    assert!(cube.flood_from(u32::MAX).is_none());
    assert!(cube.flood_from(0x1_0005).is_none());
    let seed = cube.flood_from(9).unwrap();
    assert_eq!(seed.target, endpoint(&cube.identity(9).unwrap()));
    assert_eq!(decode(&seed.frame), Ok(Message::Propagate(0)));
    let (delivered, first) = flood(&mut nodes, seed);
    // the seed, and from each node one message per neighbor but the sender
    assert_eq!(delivered, 1 + 4 + 15 * 3);
    for label in 0..16u16 {
        assert_eq!(first[label as usize], Some(1 + (label ^ 9).count_ones()));
        assert!(nodes[label as usize].value() >= 1);
    }
}

#[test]
fn the_first_arrival_sets_later_ones_add() {
    let me = Identity::new(5, SocketAddr::new(IpAddr::localhost(), 8005));
    let mut node = Hypernode::new(me, 3);
    assert_eq!(node.value(), 0);
    assert_eq!(node.dimension(), 3);
    assert_eq!(node.identity(), me);
    let peers = vec![
        Peer { label: 4, ip: IpAddr::localhost(), port: 8004 },
        Peer { label: 7, ip: IpAddr::localhost(), port: 8007 },
        Peer { label: 1, ip: IpAddr::localhost(), port: 8001 },
        Peer { label: 2, ip: IpAddr::localhost(), port: 8002 },
    ];
    let told = node.handle(&coordinator(), Message::SetPeerInfo(peers));
    assert_eq!(told, Handled { response: Message::Okay, forward: vec![] });

    let from_seven = hypernet::protocol::Identity::new(IpAddr::localhost(), 8007);
    let out = node.handle(&from_seven, Message::Propagate(10));
    assert_eq!(node.value(), 11);
    assert_eq!(
        out,
        Handled {
            response: Message::Okay,
            forward: vec![
                Delivery {
                    target: hypernet::protocol::Identity::new(IpAddr::localhost(), 8004),
                    message: Message::Propagate(11)
                },
                Delivery {
                    target: hypernet::protocol::Identity::new(IpAddr::localhost(), 8001),
                    message: Message::Propagate(11)
                },
            ]
        }
    );
    let out = node.handle(&from_seven, Message::Propagate(10));
    assert_eq!(node.value(), 21);
    assert_eq!(out, Handled { response: Message::Okay, forward: vec![] });
    let out = node.handle(&coordinator(), Message::Propagate(0));
    assert_eq!(node.value(), 21);
    assert_eq!(out, Handled { response: Message::Okay, forward: vec![] });
}

#[test]
fn a_hypercube_node_listens_at_its_own_address() {
    let me = Identity::new(5, SocketAddr::new(IpAddr::localhost(), 8005));
    let node = Hypernode::new(me, 3);
    assert_eq!(node.start(), endpoint(&me));
    assert_eq!(node.start().address(), "127.0.0.1:8005");
}

#[test]
fn a_node_that_knows_no_peers_passes_nothing_on() {
    let mut node = Hypernode::new(Identity::new(0, SocketAddr::new(IpAddr::localhost(), 8000)), 3);
    let out = node.handle(&coordinator(), Message::Propagate(0));
    assert_eq!(out, Handled { response: Message::Okay, forward: vec![] });
    assert_eq!(node.value(), 1);
}

#[test]
fn a_value_that_does_not_fit_is_refused() {
    let mut node = Hypernode::new(Identity::new(0, SocketAddr::new(IpAddr::localhost(), 8000)), 3);
    let refused =
        Handled { response: Message::Error("value out of range".to_string()), forward: vec![] };
    assert_eq!(node.handle(&coordinator(), Message::Propagate(u32::MAX)), refused);
    assert_eq!(node.value(), 0);
    node.handle(&coordinator(), Message::Propagate(u32::MAX - 1));
    assert_eq!(node.value(), u32::MAX);
    assert_eq!(node.handle(&coordinator(), Message::Propagate(1)), refused);
    assert_eq!(node.value(), u32::MAX);
    assert_eq!(
        node.handle(&coordinator(), Message::Propagate(0)),
        Handled { response: Message::Okay, forward: vec![] }
    );
    assert_eq!(node.value(), u32::MAX);
}

#[test]
fn the_value_is_had_by_either_query() {
    let mut node = Hypernode::new(Identity::new(2, SocketAddr::new(IpAddr::localhost(), 8002)), 2);
    node.handle(&coordinator(), Message::Propagate(6));
    assert_eq!(node.handle(&coordinator(), Message::GetValue).response, Message::Value(7));
    assert_eq!(node.handle(&coordinator(), Message::Value(99)).response, Message::Value(7));
    assert_eq!(node.value(), 7);
    assert_eq!(node.respond(&coordinator(), &[7]).unwrap().reply, vec![8, 7, 0, 0, 0]);
}

#[test]
fn a_hypercube_node_serves_the_peer_table_too() {
    let mut node = Hypernode::new(Identity::new(2, SocketAddr::new(IpAddr::localhost(), 8002)), 2);
    for _ in 0..3 {
        assert_eq!(node.handle(&coordinator(), Message::Ping).response, Message::Pong);
    }
    assert_eq!(
        node.handle(&coordinator(), Message::Pong).response,
        Message::Error("unknown request type Pong".to_string())
    );
    assert_eq!(node.respond(&coordinator(), &[]).unwrap_err(), CodecError::MalformedFrame);
    assert_eq!(
        node.respond(&coordinator(), &vec![2; MAX_MESSAGE_SIZE + 1]).unwrap_err(),
        CodecError::FrameTooLarge
    );
    assert_eq!(node.value(), 0);
}

#[test]
fn a_gathering_fails_at_the_first_node_that_fails() {
    let cube = Hypercube::new(2, &all_free()).unwrap();
    let value = |v: u32| Ok(Message::Value(v));
    assert_eq!(
        cube.query(&vec![value(4), value(3), value(2), value(1)]),
        Ok(HashMap::from([(0, 4), (1, 3), (2, 2), (3, 1)]))
    );
    assert_eq!(
        cube.query(&vec![value(4), Err(LinkError::Timeout), Err(LinkError::ConnectionFailed)]),
        Err(QueryError { label: 1, cause: QueryFailure::Link(LinkError::Timeout) })
    );
    assert_eq!(
        cube.query(&vec![value(4), value(3), Ok(Message::Pong), value(1)]),
        Err(QueryError { label: 2, cause: QueryFailure::UnexpectedResponse })
    );
    assert_eq!(
        cube.query(&vec![value(4), value(3), value(2)]),
        Err(QueryError { label: 3, cause: QueryFailure::NoReply })
    );
    assert_eq!(cube.query(&vec![]), Err(QueryError { label: 0, cause: QueryFailure::NoReply }));
    assert_eq!(
        cube.query(&vec![
            Err(LinkError::MalformedFrame),
            Err(LinkError::FrameTooLarge),
            value(1),
            value(1)
        ]),
        Err(QueryError { label: 0, cause: QueryFailure::Link(LinkError::MalformedFrame) })
    );
}

#[test]
fn every_node_is_asked_for_its_value() {
    let cube = Hypercube::new(2, &all_free()).unwrap();
    let plan = cube.queries();
    assert_eq!(plan.len(), 4);
    for (label, out) in plan.iter().enumerate() {
        assert_eq!(out.target, endpoint(&cube.identity(label as u16).unwrap()));
        assert_eq!(out.frame, encode(&Message::GetValue).unwrap());
    }
}

#[test]
fn hypercube_nodes_are_told_apart_by_label() {
    let here = Hypernode::new(Identity::new(5, SocketAddr::new(IpAddr::localhost(), 8005)), 3);
    let mut same = Hypernode::new(Identity::new(5, SocketAddr::new(IpAddr::localhost(), 9)), 4);
    let other = Hypernode::new(Identity::new(6, SocketAddr::new(IpAddr::localhost(), 8005)), 3);
    same.handle(&coordinator(), Message::Propagate(1));
    assert!(here == same);
    assert!(here != other);
}

/// Delivers `seed` and everything that is passed on because of it, in the
/// order that `pick` gives, until nothing is under way. Each node is seen by
/// its neighbors as `seen_as` says. Returns how many messages were delivered
/// and the most hops that any of them had made between nodes.
fn spread(
    nodes: &mut [Hypernode],
    seed: Outbound,
    pick: fn(usize) -> usize,
    seen_as: fn(&Hypernode) -> hypernet::protocol::Identity,
) -> (usize, usize) {
    let mut under_way = vec![(coordinator(), seed, 0usize)];
    let mut delivered = 0;
    let mut most_hops = 0;
    while !under_way.is_empty() {
        let (sender, out, hops) = under_way.remove(pick(under_way.len()));
        let i = addressee(nodes, &out);
        let served = nodes[i].respond(&sender, &out.frame).unwrap();
        assert_eq!(decode(&served.reply), Ok(Message::Okay));
        delivered += 1;
        most_hops = most_hops.max(hops);
        let here = seen_as(&nodes[i]);
        for next in served.forward {
            under_way.push((here, next, hops + 1));
        }
    }
    (delivered, most_hops)
}

fn at_its_address(node: &Hypernode) -> hypernet::protocol::Identity {
    node.identity().endpoint()
}

fn at_no_address(node: &Hypernode) -> hypernet::protocol::Identity {
    hypernet::protocol::Identity::new(IpAddr::localhost(), 40000 + node.identity().id)
}

#[test]
fn a_broadcast_gives_every_node_the_value_once() {
    let orders: [fn(usize) -> usize; 3] = [|_| 0, |n| n - 1, |n| n / 2];
    for d in 0..=5u16 {
        let cube = Hypercube::new(d, &all_free()).unwrap();
        let n = 1usize << d;
        for from in [0u32, (n as u32) - 1, (n as u32) / 3] {
            for order in orders {
                let mut nodes = launch(&cube);
                carry_out(&mut nodes, cube.distribute_peers());
                let seed = cube.broadcast(from, 77).unwrap();
                assert_eq!(seed.target, endpoint(&cube.identity(from as u16).unwrap()));
                assert_eq!(decode(&seed.frame), Ok(Message::Broadcast(77)));
                let (delivered, most_hops) = spread(&mut nodes, seed, order, at_its_address);
                assert!(nodes.iter().all(|node| node.value() == 77));
                // the seed, and one message to each other node
                assert_eq!(delivered, n);
                assert!(delivered - 1 <= (d as usize) * n / 2);
                assert_eq!(most_hops, d as usize);
            }
        }
    }
    let cube = Hypercube::new(3, &all_free()).unwrap();
    assert!(cube.broadcast(8, 1).is_none());
    assert!(cube.broadcast(u32::MAX, 1).is_none());
    assert!(cube.broadcast(0x1_0003, 1).is_none());
}

#[test]
fn a_broadcast_that_arrives_again_changes_nothing() {
    let cube = Hypercube::new(3, &all_free()).unwrap();
    let mut nodes = launch(&cube);
    carry_out(&mut nodes, cube.distribute_peers());
    spread(&mut nodes, cube.broadcast(2, 5).unwrap(), |_| 0, at_its_address);
    for i in 0..8 {
        for sender in [coordinator(), endpoint(&cube.identity(0).unwrap())] {
            let again = nodes[i].handle(&sender, Message::Broadcast(5));
            assert_eq!(again, Handled { response: Message::Okay, forward: vec![] });
            let other = nodes[i].handle(&sender, Message::Broadcast(6));
            assert_eq!(other, Handled { response: Message::Okay, forward: vec![] });
            assert_eq!(nodes[i].value(), 5);
        }
    }
    // a second broadcast reaches nobody any more, and each node answers the
    // query with what it holds
    let (delivered, _) = spread(&mut nodes, cube.broadcast(7, 9).unwrap(), |_| 0, at_its_address);
    assert_eq!(delivered, 1);
    let replies = carry_out(&mut nodes, cube.queries());
    assert_eq!(cube.query(&replies).unwrap(), (0..8u16).map(|l| (l, 5u32)).collect());
}

#[test]
fn a_broadcast_goes_across_the_bits_below_the_one_it_came_across() {
    let me = Identity::new(5, SocketAddr::new(IpAddr::localhost(), 8005));
    let at = |port: u16| hypernet::protocol::Identity::new(IpAddr::localhost(), port);
    let told = vec![
        Peer { label: 4, ip: IpAddr::localhost(), port: 8004 },
        Peer { label: 7, ip: IpAddr::localhost(), port: 8007 },
        Peer { label: 1, ip: IpAddr::localhost(), port: 8001 },
    ];
    let to = |ports: &[u16]| Handled {
        response: Message::Okay,
        forward: ports
            .iter()
            .map(|p| Delivery { target: at(*p), message: Message::Broadcast(3) })
            .collect(),
    };
    // from node 1, across bit 2: on across bits 0 and 1
    // from node 7, across bit 1: on across bit 0
    // from node 4, across bit 0: on to nobody
    // from somebody else: on across every bit
    for (sender, ports) in [
        (at(8001), vec![8004, 8007]),
        (at(8007), vec![8004]),
        (at(8004), vec![]),
        (coordinator(), vec![8004, 8007, 8001]),
    ] {
        let mut node = Hypernode::new(me, 3);
        node.handle(&coordinator(), Message::SetPeerInfo(told.clone()));
        assert_eq!(node.handle(&sender, Message::Broadcast(3)), to(&ports));
        assert_eq!(node.value(), 3);
    }
}

#[test]
fn a_broadcast_ends_where_nodes_do_not_know_their_senders() {
    let cube = Hypercube::new(3, &all_free()).unwrap();
    let mut nodes = launch(&cube);
    carry_out(&mut nodes, cube.distribute_peers());
    let seed = cube.broadcast(0, 4).unwrap();
    let (delivered, _) = spread(&mut nodes, seed, |_| 0, at_no_address);
    assert!(nodes.iter().all(|node| node.value() == 4));
    // each node takes the value once and then passes it on across every bit
    assert_eq!(delivered, 1 + 8 * 3);
}

#[test]
fn a_flood_sends_one_message_for_each_neighbor_but_the_sender() {
    for d in 0..=5usize {
        let mut cube = Hypercube::new(d as u16, &all_free()).unwrap();
        let n = 1usize << d;
        let mut nodes = launch(&cube);
        carry_out(&mut nodes, cube.distribute_peers());
        let (delivered, _) = flood(&mut nodes, cube.monotonic());
        assert_eq!(delivered as isize, 1 + d as isize + (n as isize - 1) * (d as isize - 1));
    }
}

#[test]
fn a_broadcast_of_zero_changes_nothing() {
    let cube = Hypercube::new(3, &all_free()).unwrap();
    let mut nodes = launch(&cube);
    carry_out(&mut nodes, cube.distribute_peers());
    let seed = cube.broadcast(3, 0).unwrap();
    assert_eq!(decode(&seed.frame), Ok(Message::Broadcast(0)));
    let (delivered, _) = spread(&mut nodes, seed, |_| 0, at_no_address);
    assert_eq!(delivered, 1);
    assert!(nodes.iter().all(|node| node.value() == 0));
}
