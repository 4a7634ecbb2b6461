//! A node of the hypercube: a node with a label and a dimension, which takes
//! part in floods and broadcasts.
//!
//! A node that holds zero has not been reached. The first `Propagate` that
//! reaches it sets its value to the carried value plus one and is passed on,
//! with the new value, to every neighbour but the sender. Every later
//! `Propagate` adds the carried value to the node's own and is passed on to
//! nobody, so a flood ends once every node was reached. What a node holds in
//! the end depends on the order in which the messages reach it.
//!
//! A `Broadcast` sets the value of a node that holds zero to the carried value
//! and changes nothing at a node that holds something. Zero stands for
//! nothing held, so a broadcast of zero changes nothing. A node that took the
//! value passes it on across the bits below the one across which it came, and
//! across all bits if it came from somebody who is no neighbour. So each node
//! is sent the value once, along a path that flips each bit at most once.

use crate::bits::{flip, flip_bit, LABEL_BITS};
use crate::codec::{decode, decoded, encode, frame_len, is_frame, CodecError};
use crate::identity::Identity;
use crate::link::Outbound;
use crate::node::{Node, NodeView};
use crate::protocol::{Message, MessageView, MAX_MESSAGE_SIZE};
use vstd::prelude::*;

verus! {

/// A node of the hypercube. Two are the same node when their identities are:
/// `==` goes by the label alone.
#[derive(Debug)]
pub struct Hypernode {
    /// This node's identity.
    identity: Identity,
    /// Dimension of the hypercube.
    d: u16,
    /// The value, the peer table and what serves them.
    node: Node,
}

/// The state of a hypercube node, as mathematics.
pub struct HypernodeView {
    pub identity: Identity,
    pub d: u16,
    pub node: NodeView,
}

/// A message to be sent on to a neighbour.
#[derive(Debug, PartialEq, Eq)]
pub struct Delivery {
    pub target: crate::protocol::Identity,
    pub message: Message,
}

/// What serving a request comes to: the response, and what is to be sent on.
#[derive(Debug, PartialEq, Eq)]
pub struct Handled {
    pub response: Message,
    pub forward: Vec<Delivery>,
}

/// What serving a frame comes to: the frame of the response, and the frames
/// to be sent on.
#[derive(Debug, PartialEq, Eq)]
pub struct Served {
    pub reply: Vec<u8>,
    pub forward: Vec<Outbound>,
}

/// The description sent back for a `Propagate` whose sum does not fit the
/// value.
pub open spec fn out_of_range() -> Seq<char> {
    "value out of range"@
}

/// The deliveries that pass `message` on to each of `targets`.
pub open spec fn passed_on(targets: Seq<crate::protocol::Identity>, message: MessageView) -> Seq<
    (crate::protocol::Identity, MessageView),
> {
    Seq::new(targets.len(), |i: int| (targets[i], message))
}

impl HypernodeView {
    /// A node right after its start: it holds zero and knows no peers.
    pub open spec fn started(identity: Identity, d: u16) -> HypernodeView {
        HypernodeView {
            identity,
            d,
            node: NodeView {
                label: Some(identity.id as u32),
                peers: Map::empty(),
                identity: identity.endpoint(),
                value: 0,
            },
        }
    }

    /// How many bits of the label are flipped to find neighbours: the
    /// dimension, as far as labels have bits.
    pub open spec fn reach(self) -> int {
        if self.d <= LABEL_BITS {
            self.d as int
        } else {
            LABEL_BITS as int
        }
    }

    /// The neighbours to pass a flood on to, among those found by flipping one
    /// of the low `k` bits of the node's label: each that the peer table knows
    /// and that is not the sender, in the order of the bits.
    pub open spec fn relay_upto(self, sender: crate::protocol::Identity, k: int) -> Seq<
        crate::protocol::Identity,
    >
        decreases k,
    {
        if k <= 0 {
            Seq::empty()
        } else {
            let before = self.relay_upto(sender, k - 1);
            let label = flip(self.identity.id, (k - 1) as u16) as u32;
            if self.node.peers.contains_key(label) && self.node.peers[label] != sender {
                before.push(self.node.peers[label])
            } else {
                before
            }
        }
    }

    /// The neighbours to pass a flood on to.
    pub open spec fn relay(self, sender: crate::protocol::Identity) -> Seq<
        crate::protocol::Identity,
    > {
        self.relay_upto(sender, self.reach())
    }

    /// The lowest of the low `k` bits across which `sender` is the node's
    /// neighbour, and `k` if it is across none of them.
    pub open spec fn span_upto(self, sender: crate::protocol::Identity, k: int) -> int
        decreases k,
    {
        if k <= 0 {
            0
        } else {
            let below = self.span_upto(sender, k - 1);
            let label = flip(self.identity.id, (k - 1) as u16) as u32;
            if below < k - 1 {
                below
            } else if self.node.peers.contains_key(label) && self.node.peers[label] == sender {
                k - 1
            } else {
                k
            }
        }
    }

    /// The number of low bits across which a broadcast that came from `sender`
    /// is passed on: those below the bit across which `sender` is the node's
    /// neighbour, and all if `sender` is no neighbour.
    pub open spec fn span(self, sender: crate::protocol::Identity) -> int {
        self.span_upto(sender, self.reach())
    }

    /// The neighbours to pass a broadcast on to.
    pub open spec fn spread(self, sender: crate::protocol::Identity) -> Seq<
        crate::protocol::Identity,
    > {
        self.relay_upto(sender, self.span(sender))
    }

    /// The value that the node holds.
    pub open spec fn value(self) -> u32 {
        self.node.value
    }

    /// The node with `value` for its value.
    pub open spec fn holding(self, value: u32) -> HypernodeView {
        HypernodeView { node: NodeView { value, ..self.node }, ..self }
    }

    /// What a request from `sender` does to the node, what is sent back, and
    /// to whom what is passed on.
    ///
    /// `Propagate` is one step of a flood and answered `Okay`, or, where the
    /// new value would not fit, answered with an `Error` and without any
    /// change. `Broadcast` is one step of a broadcast and answered `Okay`.
    /// Every other request is served as `NodeView::step` says, and nothing is
    /// passed on.
    pub open spec fn step(self, sender: crate::protocol::Identity, req: MessageView) -> (
        HypernodeView,
        MessageView,
        Seq<(crate::protocol::Identity, MessageView)>,
    ) {
        let nothing = Seq::<(crate::protocol::Identity, MessageView)>::empty();
        match req {
            MessageView::Propagate(carried) => {
                if self.value() == 0 {
                    if carried == u32::MAX {
                        (self, MessageView::Error(out_of_range()), nothing)
                    } else {
                        let value = (carried + 1) as u32;
                        (
                            self.holding(value),
                            MessageView::Okay,
                            passed_on(self.relay(sender), MessageView::Propagate(value)),
                        )
                    }
                } else if self.value() + carried > u32::MAX {
                    (self, MessageView::Error(out_of_range()), nothing)
                } else {
                    (self.holding((self.value() + carried) as u32), MessageView::Okay, nothing)
                }
            },
            MessageView::Broadcast(value) => {
                if self.value() == 0 && value != 0 {
                    (
                        self.holding(value),
                        MessageView::Okay,
                        passed_on(self.spread(sender), MessageView::Broadcast(value)),
                    )
                } else {
                    (self, MessageView::Okay, nothing)
                }
            },
            _ => {
                let (node, response) = self.node.step(req);
                (HypernodeView { node, ..self }, response, nothing)
            },
        }
    }

    /// Whether a flood or a broadcast has reached the node.
    pub open spec fn visited(self) -> bool {
        self.value() != 0
    }
}

impl View for Hypernode {
    type V = HypernodeView;

    closed spec fn view(&self) -> HypernodeView {
        HypernodeView { identity: self.identity, d: self.d, node: self.node@ }
    }
}

impl PartialEq for Hypernode {
    fn eq(&self, other: &Hypernode) -> (r: bool) {
        self.identity == other.identity
    }
}

impl Eq for Hypernode {

}

impl vstd::std_specs::cmp::PartialEqSpecImpl for Hypernode {
    open spec fn obeys_eq_spec() -> bool {
        true
    }

    open spec fn eq_spec(&self, other: &Hypernode) -> bool {
        self@.identity.id == other@.identity.id
    }
}

impl View for Delivery {
    type V = (crate::protocol::Identity, MessageView);

    open spec fn view(&self) -> (crate::protocol::Identity, MessageView) {
        (self.target, self.message@)
    }
}

/// The deliveries of a list, each as mathematics.
pub open spec fn deliveries(forward: Seq<Delivery>) -> Seq<
    (crate::protocol::Identity, MessageView),
> {
    Seq::new(forward.len(), |i: int| forward[i]@)
}

/// No step of a flood makes a node's value smaller; a node that was reached
/// stays reached and passes nothing on; and a `Propagate` that is answered
/// `Okay` leaves the node reached.
pub proof fn lemma_flood_step(
    node: HypernodeView,
    sender: crate::protocol::Identity,
    carried: u32,
)
    ensures
        ({
            let (next, response, forward) = node.step(sender, MessageView::Propagate(carried));
            &&& next.value() >= node.value()
            &&& node.visited() ==> next.visited() && forward.len() == 0
            &&& response == MessageView::Okay ==> next.visited()
            &&& next == node.holding(next.value())
        }),
{
}

/// A broadcast changes a node once: a node that holds nothing takes the
/// value, and a node that holds something is left as it is and passes nothing
/// on. So a broadcast that arrives again, from whomever, leaves the node as
/// the first arrival left it. A broadcast of zero, which stands for nothing,
/// changes no node.
pub proof fn lemma_broadcast_step(
    node: HypernodeView,
    sender: crate::protocol::Identity,
    again: crate::protocol::Identity,
    value: u32,
)
    ensures
        ({
            let (next, response, forward) = node.step(sender, MessageView::Broadcast(value));
            &&& response == MessageView::Okay
            &&& !node.visited() ==> next == node.holding(value)
            &&& node.visited() || value == 0 ==> next == node && forward.len() == 0
            &&& next.step(again, MessageView::Broadcast(value)) == (
                next,
                MessageView::Okay,
                Seq::<(crate::protocol::Identity, MessageView)>::empty(),
            )
        }),
{
}

/// A request that is no step of a flood or of a broadcast is served as the
/// node within serves it, and nothing is passed on. So a `Ping` is answered
/// `Pong` whatever the node holds, a value query is answered with the value,
/// and a `SetPeerInfo` overwrites.
pub proof fn lemma_serves_as_node(
    node: HypernodeView,
    sender: crate::protocol::Identity,
    req: MessageView,
)
    requires
        !(req is Propagate || req is Broadcast),
    ensures
        node.step(sender, req) == (
            HypernodeView { node: node.node.step(req).0, ..node },
            node.node.step(req).1,
            Seq::<(crate::protocol::Identity, MessageView)>::empty(),
        ),
        req is Ping ==> node.step(sender, req).0 == node && node.step(sender, req).1
            == MessageView::Pong,
        req is GetValue || req is Value ==> node.step(sender, req).0 == node && node.step(
            sender,
            req,
        ).1 == MessageView::Value(node.value()),
{
}

/// A flood is passed on to at most one neighbour per bit of the dimension,
/// and never back to the sender.
pub proof fn lemma_relay_bounded(node: HypernodeView, sender: crate::protocol::Identity, k: int)
    requires
        0 <= k,
    ensures
        node.relay_upto(sender, k).len() <= k,
        forall|i: int|
            0 <= i < node.relay_upto(sender, k).len() ==> #[trigger] node.relay_upto(sender, k)[i]
                != sender,
    decreases k,
{
    if k > 0 {
        lemma_relay_bounded(node, sender, k - 1);
    }
}

/// Only `Propagate` and `Broadcast` messages are ever passed on.
pub proof fn lemma_forward_is_small(
    node: HypernodeView,
    sender: crate::protocol::Identity,
    req: MessageView,
)
    ensures
        forall|i: int|
            0 <= i < node.step(sender, req).2.len() ==> {
                let message = (#[trigger] node.step(sender, req).2[i]).1;
                message is Propagate || message is Broadcast
            },
{
}

/// The span of a sender is no more than the bits looked at, and across the
/// bits below it the sender is not the node's neighbour.
pub proof fn lemma_span(node: HypernodeView, sender: crate::protocol::Identity, k: int)
    requires
        0 <= k,
    ensures
        0 <= node.span_upto(sender, k) <= k,
        forall|b: u16|
            b < node.span_upto(sender, k) ==> !(node.node.peers.contains_key(
                #[trigger] flip(node.identity.id, b) as u32,
            ) && node.node.peers[flip(node.identity.id, b) as u32] == sender),
        node.span_upto(sender, k) < k ==> node.node.peers.contains_key(
            flip(node.identity.id, node.span_upto(sender, k) as u16) as u32,
        ) && node.node.peers[flip(node.identity.id, node.span_upto(sender, k) as u16) as u32]
            == sender,
    decreases k,
{
    if k > 0 {
        lemma_span(node, sender, k - 1);
    }
}

/// Once the sender is found across bit `k` and across no bit below, looking
/// at more bits finds nothing lower.
proof fn lemma_span_found(
    node: HypernodeView,
    sender: crate::protocol::Identity,
    k: int,
    upto: int,
)
    requires
        0 <= k < upto,
        node.span_upto(sender, k) == k,
        node.node.peers.contains_key(flip(node.identity.id, k as u16) as u32),
        node.node.peers[flip(node.identity.id, k as u16) as u32] == sender,
    ensures
        node.span_upto(sender, upto) == k,
    decreases upto,
{
    if upto > k + 1 {
        lemma_span_found(node, sender, k, upto - 1);
    }
}

/// What serving the frame `frame` from `sender` does to a node, and what is
/// written: the response with what is to be sent on, or the reason why the
/// connection is closed without a response. A frame that is not decoded leaves
/// the node as it was.
pub open spec fn served(node: HypernodeView, sender: crate::protocol::Identity, frame: Seq<u8>) -> (
    HypernodeView,
    Result<(MessageView, Seq<(crate::protocol::Identity, MessageView)>), CodecError>,
) {
    match decoded(frame) {
        Err(e) => (node, Err(e)),
        Ok(req) => {
            let (next, response, forward) = node.step(sender, req);
            if frame_len(response) <= MAX_MESSAGE_SIZE {
                (next, Ok((response, forward)))
            } else {
                (next, Err(CodecError::FrameTooLarge))
            }
        },
    }
}

/// Whether `frames` are the frames of `forward`, one by one and to the same
/// targets.
pub open spec fn frames_of(
    frames: Seq<Outbound>,
    forward: Seq<(crate::protocol::Identity, MessageView)>,
) -> bool {
    &&& frames.len() == forward.len()
    &&& forall|i: int|
        0 <= i < frames.len() ==> (#[trigger] frames[i]).target == forward[i].0 && is_frame(
            frames[i].frame@,
            forward[i].1,
        )
}

impl Hypernode {
    /// A node with identity `identity` in a hypercube of dimension `d`. It
    /// holds zero and knows no peers.
    pub fn new(identity: Identity, d: u16) -> (node: Hypernode)
        ensures
            node@ == HypernodeView::started(identity, d),
    {
        Hypernode {
            identity,
            d,
            node: Node::with_label(identity.id as u32, identity.address.ip, identity.address.port),
        }
    }

    /// Where the node is to listen once it is started: at the address of its
    /// identity.
    pub fn start(&self) -> (listen: crate::protocol::Identity)
        ensures
            listen == self@.identity.endpoint(),
    {
        self.identity.endpoint()
    }

    /// The node's identity.
    pub fn identity(&self) -> (identity: Identity)
        ensures
            identity == self@.identity,
    {
        self.identity
    }

    /// The value that the node holds.
    pub fn value(&self) -> (value: u32)
        ensures
            value == self@.value(),
    {
        self.node.value()
    }

    /// The dimension of the hypercube that the node belongs to.
    pub fn dimension(&self) -> (d: u16)
        ensures
            d == self@.d,
    {
        self.d
    }

    /// The number of bits of the label that are flipped to find neighbours.
    fn reach(&self) -> (reach: u16)
        ensures
            reach == self@.reach(),
            reach <= LABEL_BITS,
    {
        if self.d <= LABEL_BITS {
            self.d
        } else {
            LABEL_BITS
        }
    }

    /// The number of low bits across which a broadcast from `sender` is
    /// passed on.
    fn span(&self, sender: &crate::protocol::Identity) -> (span: u16)
        ensures
            span == self@.span(*sender),
            span <= self@.reach(),
    {
        let reach = self.reach();
        let mut k: u16 = 0;
        while k < reach
            invariant
                k <= reach,
                reach == self@.reach(),
                self@.span_upto(*sender, k as int) == k,
            decreases reach - k,
        {
            let label = flip_bit(self.identity.id, k) as u32;
            match self.node.peer(label) {
                Some(target) => {
                    if target == *sender {
                        proof {
                            lemma_span_found(self@, *sender, k as int, reach as int);
                        }
                        return k;
                    }
                },
                None => {},
            }
            k += 1;
        }
        k
    }

    /// The deliveries that pass a value on to every neighbour across one of
    /// the low `upto` bits but `sender`: as a step of a broadcast if
    /// `broadcast` says so, and of a flood if not.
    fn relay(
        &self,
        sender: &crate::protocol::Identity,
        upto: u16,
        value: u32,
        broadcast: bool,
    ) -> (forward: Vec<Delivery>)
        requires
            upto <= LABEL_BITS,
        ensures
            deliveries(forward@) == passed_on(
                self@.relay_upto(*sender, upto as int),
                if broadcast {
                    MessageView::Broadcast(value)
                } else {
                    MessageView::Propagate(value)
                },
            ),
    {
        let ghost message = if broadcast {
            MessageView::Broadcast(value)
        } else {
            MessageView::Propagate(value)
        };
        let mut forward: Vec<Delivery> = Vec::new();
        let mut k: u16 = 0;
        while k < upto
            invariant
                k <= upto,
                upto <= LABEL_BITS,
                message == if broadcast {
                    MessageView::Broadcast(value)
                } else {
                    MessageView::Propagate(value)
                },
                deliveries(forward@) =~= passed_on(self@.relay_upto(*sender, k as int), message),
            decreases upto - k,
        {
            let label = flip_bit(self.identity.id, k) as u32;
            let ghost before = self@.relay_upto(*sender, k as int);
            let ghost sent = forward@;
            match self.node.peer(label) {
                Some(target) => {
                    if target != *sender {
                        let message = if broadcast {
                            Message::Broadcast(value)
                        } else {
                            Message::Propagate(value)
                        };
                        forward.push(Delivery { target, message });
                        proof {
                            assert(passed_on(before, message@).len() == before.len());
                            assert forall|i: int| 0 <= i < sent.len() implies deliveries(
                                forward@,
                            )[i] == passed_on(before.push(target), message@)[i] by {
                                assert(deliveries(sent)[i] == passed_on(before, message@)[i]);
                            }
                            assert(deliveries(forward@) =~= passed_on(
                                before.push(target),
                                message@,
                            ));
                        }
                    }
                },
                None => {},
            }
            k += 1;
        }
        forward
    }

    /// Serves one request from `sender`: changes the node as the request asks
    /// and returns the response and what is to be sent on.
    pub fn handle(&mut self, sender: &crate::protocol::Identity, req: Message) -> (out: Handled)
        ensures
            (final(self)@, out.response@, deliveries(out.forward@)) == old(self)@.step(
                *sender,
                req@,
            ),
    {
        match req {
            Message::Propagate(carried) => {
                let held = self.node.value();
                if held == 0 {
                    if carried == u32::MAX {
                        Handled {
                            response: Message::Error("value out of range".to_owned()),
                            forward: Vec::new(),
                        }
                    } else {
                        let forward = self.relay(sender, self.reach(), carried + 1, false);
                        self.node.set_value(carried + 1);
                        Handled { response: Message::Okay, forward }
                    }
                } else {
                    match held.checked_add(carried) {
                        Some(sum) => {
                            self.node.set_value(sum);
                            Handled { response: Message::Okay, forward: Vec::new() }
                        },
                        None => Handled {
                            response: Message::Error("value out of range".to_owned()),
                            forward: Vec::new(),
                        },
                    }
                }
            },
            Message::Broadcast(value) => {
                if self.node.value() == 0 && value != 0 {
                    let forward = self.relay(sender, self.span(sender), value, true);
                    self.node.set_value(value);
                    Handled { response: Message::Okay, forward }
                } else {
                    Handled { response: Message::Okay, forward: Vec::new() }
                }
            },
            Message::Okay => self.delegate(Message::Okay),
            Message::Error(text) => self.delegate(Message::Error(text)),
            Message::Ping => self.delegate(Message::Ping),
            Message::Pong => self.delegate(Message::Pong),
            Message::SetPeerInfo(peers) => self.delegate(Message::SetPeerInfo(peers)),
            Message::GetPeerInfo => self.delegate(Message::GetPeerInfo),
            Message::PeerInfo(table) => self.delegate(Message::PeerInfo(table)),
            Message::GetValue => self.delegate(Message::GetValue),
            Message::Value(value) => self.delegate(Message::Value(value)),
        }
    }

    /// Serves a request that is no step of a flood or of a broadcast.
    fn delegate(&mut self, req: Message) -> (out: Handled)
        requires
            !(req@ is Propagate || req@ is Broadcast),
        ensures
            (final(self)@, out.response@, deliveries(out.forward@)) == (
                HypernodeView { node: old(self)@.node.step(req@).0, ..old(self)@ },
                old(self)@.node.step(req@).1,
                Seq::<(crate::protocol::Identity, MessageView)>::empty(),
            ),
    {
        let response = self.node.request_handler(req);
        Handled { response, forward: Vec::new() }
    }

    /// Serves one connection from `sender`: decodes the request in `frame`,
    /// serves it and returns the frame of the response and the frames to be
    /// sent on.
    ///
    /// Fails, and the connection is then closed without a response, with
    /// `FrameTooLarge` when `frame` or the response's frame is longer than
    /// `MAX_MESSAGE_SIZE`, and with `MalformedFrame` when `frame` is no frame.
    /// A request that is not decoded leaves the node as it was.
    pub fn respond(&mut self, sender: &crate::protocol::Identity, frame: &[u8]) -> (r: Result<
        Served,
        CodecError,
    >)
        ensures
            final(self)@ == served(old(self)@, *sender, frame@).0,
            match served(old(self)@, *sender, frame@).1 {
                Ok((response, forward)) => r matches Ok(out) && is_frame(out.reply@, response)
                    && out.reply@.len() <= MAX_MESSAGE_SIZE && frames_of(out.forward@, forward),
                Err(e) => r == Err::<Served, CodecError>(e),
            },
    {
        let req = match decode(frame) {
            Ok(req) => req,
            Err(e) => {
                return Err(e);
            },
        };
        proof {
            lemma_forward_is_small(self@, *sender, req@);
        }
        let handled = self.handle(sender, req);
        let reply = match encode(&handled.response) {
            Ok(reply) => reply,
            Err(e) => {
                return Err(e);
            },
        };
        let mut forward: Vec<Outbound> = Vec::new();
        let mut i: usize = 0;
        while i < handled.forward.len()
            invariant
                i <= handled.forward.len(),
                forward.len() == i,
                forall|j: int|
                    0 <= j < handled.forward.len() ==> frame_len(
                        (#[trigger] deliveries(handled.forward@)[j]).1,
                    ) <= MAX_MESSAGE_SIZE,
                forall|j: int|
                    0 <= j < i ==> (#[trigger] forward[j]).target == handled.forward[j].target
                        && is_frame(forward[j].frame@, handled.forward[j].message@),
            decreases handled.forward.len() - i,
        {
            let delivery = &handled.forward[i];
            proof {
                assert(frame_len(deliveries(handled.forward@)[i as int].1) <= MAX_MESSAGE_SIZE);
            }
            match encode(&delivery.message) {
                Ok(bytes) => {
                    forward.push(Outbound { target: delivery.target, frame: bytes });
                },
                Err(e) => {
                    return Err(e);
                },
            }
            i += 1;
        }
        Ok(Served { reply, forward })
    }
}

} // verus!
