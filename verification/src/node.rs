//! A node's value and peer table, and the requests that read and fill them.

use crate::address::IpAddr;
use crate::codec::{decode, decoded, encode, frame_len, is_frame, CodecError};
use crate::link::{send_helper, LinkError, Outbound};
use crate::protocol::{
    lemma_merge_peers_last, merge_peers, Identity, Message, MessageView, Peer, MAX_MESSAGE_SIZE,
};
use std::collections::HashMap;
use vstd::prelude::*;
use vstd::std_specs::hash::*;

verus! {

broadcast use group_hash_axioms;

/// A node that answers pings, holds a value and keeps a table of its peers.
#[derive(Debug)]
pub struct Node {
    label: Option<u32>,
    /// Peer label to identity map.
    peers: HashMap<u32, Identity>,
    identity: Identity,
    /// The value stored in this node; zero until something else is set.
    value: u32,
}

/// The state of a node, as mathematics.
pub struct NodeView {
    /// The node's own label, if it was given one.
    pub label: Option<u32>,
    /// The peer table.
    pub peers: Map<u32, Identity>,
    /// Where the node listens.
    pub identity: Identity,
    /// The value that the node holds.
    pub value: u32,
}

/// The description sent back for a message that is no request the node serves.
pub open spec fn unsupported(req: MessageView) -> Seq<char> {
    match req {
        MessageView::Okay => "unknown request type Okay"@,
        MessageView::Error(_) => "unknown request type Error"@,
        MessageView::Ping => "unknown request type Ping"@,
        MessageView::Pong => "unknown request type Pong"@,
        MessageView::SetPeerInfo(_) => "unknown request type SetPeerInfo"@,
        MessageView::GetPeerInfo => "unknown request type GetPeerInfo"@,
        MessageView::PeerInfo(_) => "unknown request type PeerInfo"@,
        MessageView::GetValue => "unknown request type GetValue"@,
        MessageView::Value(_) => "unknown request type Value"@,
        MessageView::Propagate(_) => "unknown request type Propagate"@,
        MessageView::Broadcast(_) => "unknown request type Broadcast"@,
    }
}

impl NodeView {
    /// What a request does to the node and what is sent back.
    ///
    /// `Ping` is answered `Pong`. `GetValue`, and `Value` as a request, are
    /// answered with the node's value. `SetPeerInfo` overwrites the table's
    /// entries for the labels it names and is answered `Okay`. `GetPeerInfo`
    /// is answered with the whole table. Anything else leaves the node as it
    /// is and is answered with an `Error`.
    pub open spec fn step(self, req: MessageView) -> (NodeView, MessageView) {
        match req {
            MessageView::Ping => (self, MessageView::Pong),
            MessageView::GetValue | MessageView::Value(_) => (
                self,
                MessageView::Value(self.value),
            ),
            MessageView::SetPeerInfo(peers) => (
                NodeView { peers: merge_peers(self.peers, peers), ..self },
                MessageView::Okay,
            ),
            MessageView::GetPeerInfo => (self, MessageView::PeerInfo(self.peers)),
            _ => (self, MessageView::Error(unsupported(req))),
        }
    }

    /// The node after a sequence of requests, served one after the other.
    pub open spec fn after(self, reqs: Seq<MessageView>) -> NodeView
        decreases reqs.len(),
    {
        if reqs.len() == 0 {
            self
        } else {
            self.after(reqs.drop_last()).step(reqs.last()).0
        }
    }

    /// The response to the last of a sequence of requests.
    pub open spec fn last_response(self, reqs: Seq<MessageView>) -> MessageView
        recommends
            reqs.len() > 0,
    {
        self.after(reqs.drop_last()).step(reqs.last()).1
    }
}

impl View for Node {
    type V = NodeView;

    closed spec fn view(&self) -> NodeView {
        NodeView {
            label: self.label,
            peers: self.peers@,
            identity: self.identity,
            value: self.value,
        }
    }
}

/// What serving the frame `frame` does to a node, and what is written back:
/// the frame of the response, or the reason why the connection is closed
/// without one. A frame that is not decoded leaves the node as it was.
pub open spec fn served(node: NodeView, frame: Seq<u8>) -> (
    NodeView,
    Result<MessageView, CodecError>,
) {
    match decoded(frame) {
        Err(e) => (node, Err(e)),
        Ok(req) => {
            let (next, response) = node.step(req);
            if frame_len(response) <= MAX_MESSAGE_SIZE {
                (next, Ok(response))
            } else {
                (next, Err(CodecError::FrameTooLarge))
            }
        },
    }
}

/// Wherever a `Ping` stands in a sequence of requests, it is answered `Pong`
/// and leaves the node as the requests before it left it.
pub proof fn lemma_ping_always_pong(node: NodeView, reqs: Seq<MessageView>, i: int)
    requires
        0 <= i < reqs.len(),
        reqs[i] == MessageView::Ping,
    ensures
        node.last_response(reqs.take(i + 1)) == MessageView::Pong,
        node.after(reqs.take(i + 1)) == node.after(reqs.take(i)),
{
    assert(reqs.take(i + 1).drop_last() =~= reqs.take(i));
}

/// Any number of `Ping`s leave a node as it was.
pub proof fn lemma_pings_change_nothing(node: NodeView, reqs: Seq<MessageView>)
    requires
        forall|i: int| 0 <= i < reqs.len() ==> reqs[i] == MessageView::Ping,
    ensures
        node.after(reqs) == node,
    decreases reqs.len(),
{
    if reqs.len() > 0 {
        lemma_pings_change_nothing(node, reqs.drop_last());
    }
}

/// After `SetPeerInfo` for a label, and then `SetPeerInfo` for the same label
/// with another address, `GetPeerInfo` gives the second address for that
/// label, whatever the node held before.
pub proof fn lemma_peer_info_overwrite(
    node: NodeView,
    label: u32,
    first: Identity,
    second: Identity,
)
    ensures
        ({
            let one = MessageView::SetPeerInfo(
                seq![Peer { label, ip: first.ip, port: first.port }],
            );
            let two = MessageView::SetPeerInfo(
                seq![Peer { label, ip: second.ip, port: second.port }],
            );
            let end = node.step(one).0.step(two).0;
            &&& node.step(one).1 == MessageView::Okay
            &&& node.step(one).0.step(two).1 == MessageView::Okay
            &&& end.step(MessageView::GetPeerInfo).1 == MessageView::PeerInfo(end.peers)
            &&& end.peers.contains_key(label)
            &&& end.peers[label] == second
        }),
{
    let mid = node.step(
        MessageView::SetPeerInfo(seq![Peer { label, ip: first.ip, port: first.port }]),
    ).0;
    lemma_merge_peers_last(
        mid.peers,
        seq![Peer { label, ip: second.ip, port: second.port }],
        0,
    );
}

/// A `SetPeerInfo` overwrites: each label that it names holds afterwards what
/// the last entry naming it says.
pub proof fn lemma_set_peer_info_last_wins(node: NodeView, peers: Seq<Peer>, i: int)
    requires
        0 <= i < peers.len(),
        forall|j: int| i < j < peers.len() ==> peers[j].label != peers[i].label,
    ensures
        node.step(MessageView::SetPeerInfo(peers)).0.peers.contains_key(peers[i].label),
        node.step(MessageView::SetPeerInfo(peers)).0.peers[peers[i].label]
            == peers[i].spec_identity(),
{
    lemma_merge_peers_last(node.peers, peers, i);
}

impl Node {
    /// A node that listens at `ip`, port `port`, has no label yet, holds zero
    /// and knows no peers.
    pub fn new(ip: IpAddr, port: u16) -> (node: Node)
        ensures
            node@ == (NodeView {
                label: None,
                peers: Map::empty(),
                identity: Identity { ip, port },
                value: 0,
            }),
    {
        Node { label: None, peers: HashMap::new(), identity: Identity::new(ip, port), value: 0 }
    }

    /// A node that carries `label`, listens at `ip`, port `port`, holds zero
    /// and knows no peers.
    pub fn with_label(label: u32, ip: IpAddr, port: u16) -> (node: Node)
        ensures
            node@ == (NodeView {
                label: Some(label),
                peers: Map::empty(),
                identity: Identity { ip, port },
                value: 0,
            }),
    {
        Node {
            label: Some(label),
            peers: HashMap::new(),
            identity: Identity::new(ip, port),
            value: 0,
        }
    }

    /// Serves one request: changes the node as the request asks and returns
    /// the response.
    pub fn request_handler(&mut self, req: Message) -> (res: Message)
        ensures
            (final(self)@, res@) == old(self)@.step(req@),
    {
        match req {
            Message::Ping => Message::Pong,
            Message::SetPeerInfo(peers) => {
                let mut i: usize = 0;
                while i < peers.len()
                    invariant
                        i <= peers.len(),
                        self.label == old(self).label,
                        self.identity == old(self).identity,
                        self.value == old(self).value,
                        self.peers@ == merge_peers(old(self).peers@, peers@.take(i as int)),
                    decreases peers.len() - i,
                {
                    let peer = peers[i];
                    self.peers.insert(peer.label, peer.identity());
                    proof {
                        assert(peers@.take(i + 1).drop_last() =~= peers@.take(i as int));
                    }
                    i += 1;
                }
                proof {
                    assert(peers@.take(i as int) =~= peers@);
                }
                Message::Okay
            },
            Message::GetPeerInfo => Message::PeerInfo(self.peers.clone()),
            Message::Okay => Message::Error("unknown request type Okay".to_owned()),
            Message::Error(_) => Message::Error("unknown request type Error".to_owned()),
            Message::Pong => Message::Error("unknown request type Pong".to_owned()),
            Message::PeerInfo(_) => Message::Error("unknown request type PeerInfo".to_owned()),
            Message::GetValue => Message::Value(self.value),
            Message::Value(_) => Message::Value(self.value),
            Message::Propagate(_) => Message::Error("unknown request type Propagate".to_owned()),
            Message::Broadcast(_) => Message::Error("unknown request type Broadcast".to_owned()),
        }
    }

    /// Where the node is to listen once it is started: on every address of
    /// the machine, at the node's port.
    pub fn start(&self) -> (listen: Identity)
        ensures
            listen == (Identity { ip: IpAddr::V4(0), port: self@.identity.port }),
    {
        Identity::new(IpAddr::V4(0), self.identity.port)
    }

    /// Serves one connection: decodes the request in `frame`, serves it and
    /// returns the frame of the response.
    ///
    /// Fails, and the connection is then closed without a response, with
    /// `FrameTooLarge` when `frame` or the response's frame is longer than
    /// `MAX_MESSAGE_SIZE`, and with `MalformedFrame` when `frame` is no frame.
    /// A request that is not decoded leaves the node as it was.
    pub fn respond(&mut self, frame: &[u8]) -> (r: Result<Vec<u8>, CodecError>)
        ensures
            final(self)@ == served(old(self)@, frame@).0,
            match served(old(self)@, frame@).1 {
                Ok(response) => r matches Ok(bytes) && is_frame(bytes@, response) && bytes@.len()
                    <= MAX_MESSAGE_SIZE,
                Err(e) => r == Err::<Vec<u8>, CodecError>(e),
            },
    {
        let req = match decode(frame) {
            Ok(req) => req,
            Err(e) => {
                return Err(e);
            },
        };
        let response = self.request_handler(req);
        encode(&response)
    }

    /// The value that the node holds.
    pub fn value(&self) -> (value: u32)
        ensures
            value == self@.value,
    {
        self.value
    }

    /// Makes the node hold `value`, and changes nothing else.
    pub fn set_value(&mut self, value: u32)
        ensures
            final(self)@ == (NodeView { value, ..old(self)@ }),
    {
        self.value = value;
    }

    /// The node's own label, if it has one.
    pub fn label(&self) -> (label: Option<u32>)
        ensures
            label == self@.label,
    {
        self.label
    }

    /// Where the node listens.
    pub fn identity(&self) -> (identity: Identity)
        ensures
            identity == self@.identity,
    {
        self.identity
    }

    /// What the peer table holds for `label`.
    pub fn peer(&self, label: u32) -> (peer: Option<Identity>)
        ensures
            peer is Some <==> self@.peers.contains_key(label),
            peer matches Some(found) ==> found == self@.peers[label],
    {
        match self.peers.get(&label) {
            Some(found) => Some(*found),
            None => None,
        }
    }

    /// The request that asks `peer` whether it is alive.
    pub fn send_ping(&self, peer: &Identity) -> (r: Result<Outbound, LinkError>)
        ensures
            r matches Ok(out) && out.target == *peer && is_frame(out.frame@, MessageView::Ping),
    {
        send_helper(peer, &Message::Ping)
    }

    /// The request that tells `peer` of `peers`. Fails with `FrameTooLarge`
    /// when they are too many for one frame.
    pub fn set_peers(&mut self, peer: &Identity, peers: Vec<Peer>) -> (r: Result<
        Outbound,
        LinkError,
    >)
        ensures
            final(self)@ == old(self)@,
            r is Ok <==> frame_len(MessageView::SetPeerInfo(peers@)) <= MAX_MESSAGE_SIZE,
            r matches Ok(out) ==> out.target == *peer && is_frame(
                out.frame@,
                MessageView::SetPeerInfo(peers@),
            ),
            r matches Err(e) ==> e == LinkError::FrameTooLarge,
    {
        send_helper(peer, &Message::SetPeerInfo(peers))
    }

    /// The request that asks `peer` for its peer table.
    pub fn get_peers(&mut self, peer: &Identity) -> (r: Result<Outbound, LinkError>)
        ensures
            final(self)@ == old(self)@,
            r matches Ok(out) && out.target == *peer && is_frame(
                out.frame@,
                MessageView::GetPeerInfo,
            ),
    {
        send_helper(peer, &Message::GetPeerInfo)
    }
}

} // verus!
