//! What the coordinator asks of all nodes at once: starting them, seeding
//! their peer tables, gathering their values, and beginning a flood or a
//! broadcast.
//!
//! Each operation is split in two. A plan says which frame goes to which node;
//! whoever owns the sockets carries it out, one request per node and in the
//! order of the labels. What came back is then handed in again and judged.

use crate::bits::{is_label, lemma_node_count_is_shift, node_count};
use crate::codec::is_frame;
use crate::identity::Identity;
use crate::link::{reply_view, send_helper, LinkError, Outbound};
use crate::protocol::{Message, MessageView, Peer};
use crate::topology::{Hypercube, HypercubeView};
use std::collections::HashMap;
use vstd::pervasive::unreached;
use vstd::prelude::*;
use vstd::std_specs::hash::*;

verus! {

broadcast use group_hash_axioms;

/// The arguments with which the process of one node is started.
#[derive(Clone, Copy, Debug, PartialEq, Eq, Structural)]
pub struct Launch {
    pub id: u16,
    pub d: u16,
    pub port: u16,
}

/// Why a node's value could not be had.
#[derive(Clone, Copy, Debug, PartialEq, Eq, Structural)]
pub enum QueryFailure {
    /// The request to the node failed.
    Link(LinkError),
    /// The node answered with something else than a value.
    UnexpectedResponse,
    /// No reply of the node was handed in.
    NoReply,
}

/// A gathering of values that failed, and the node it failed at.
#[derive(Clone, Copy, Debug, PartialEq, Eq, Structural)]
pub struct QueryError {
    pub label: u16,
    pub cause: QueryFailure,
}

/// A node as its neighbours are told of it.
pub open spec fn as_peer(identity: Identity) -> Peer {
    Peer { label: identity.id as u32, ip: identity.address.ip, port: identity.address.port }
}

/// The value that the reply of a node holds, or why it holds none.
pub open spec fn reply_value(reply: Result<MessageView, LinkError>) -> Result<u32, QueryFailure> {
    match reply {
        Ok(MessageView::Value(value)) => Ok(value),
        Ok(_) => Err(QueryFailure::UnexpectedResponse),
        Err(e) => Err(QueryFailure::Link(e)),
    }
}

/// The value of node `label` according to `replies`, which hold the nodes'
/// replies by label.
pub open spec fn value_at(replies: Seq<Result<Message, LinkError>>, label: int) -> Result<
    u32,
    QueryFailure,
> {
    if 0 <= label < replies.len() {
        reply_value(reply_view(replies[label]))
    } else {
        Err(QueryFailure::NoReply)
    }
}

impl HypercubeView {
    /// What the node `label` is told of its neighbours.
    pub open spec fn peers_of(self, label: int) -> Seq<Peer> {
        Seq::new(self.adjacency[label].len(), |k: int| as_peer(self.adjacency[label][k]))
    }

    /// Whether `plan` holds, for each node and in the order of the labels, a
    /// frame of the message that `message` gives for it, addressed to it.
    pub open spec fn is_plan(
        self,
        plan: Seq<Outbound>,
        message: spec_fn(int) -> MessageView,
    ) -> bool {
        &&& plan.len() == self.registry.len()
        &&& forall|i: int|
            0 <= i < plan.len() ==> (#[trigger] plan[i]).target == self.registry[i].endpoint()
                && is_frame(plan[i].frame@, message(i))
    }
}

impl Hypercube {
    /// The arguments with which to start each node's process, by label.
    pub fn launches(&self) -> (plan: Vec<Launch>)
        ensures
            plan.len() == node_count(self@.d),
            forall|i: int|
                0 <= i < plan.len() ==> #[trigger] plan[i] == (Launch {
                    id: i as u16,
                    d: self@.d,
                    port: self@.registry[i].address.port,
                }),
    {
        let n = self.len();
        let d = self.dimension();
        let mut plan: Vec<Launch> = Vec::new();
        let mut i: usize = 0;
        proof {
            use_type_invariant(self);
            lemma_node_count_is_shift(self@.d);
        }
        while i < n
            invariant
                self.wf(),
                i <= n,
                n == node_count(self@.d),
                n <= 0x8000,
                d == self@.d,
                plan.len() == i,
                forall|j: int|
                    0 <= j < i ==> #[trigger] plan[j] == (Launch {
                        id: j as u16,
                        d: self@.d,
                        port: self@.registry[j].address.port,
                    }),
            decreases n - i,
        {
            match self.identity(i as u16) {
                Some(identity) => {
                    plan.push(Launch { id: identity.id, d, port: identity.address.port });
                },
                None => unreached(),
            }
            i += 1;
        }
        plan
    }

    /// The requests that tell each node of its neighbours, so that it can
    /// reach them by label: for each node a `SetPeerInfo` with its neighbours.
    pub fn distribute_peers(&self) -> (plan: Vec<Outbound>)
        ensures
            self@.is_plan(plan@, |i: int| MessageView::SetPeerInfo(self@.peers_of(i))),
    {
        let n = self.len();
        let mut plan: Vec<Outbound> = Vec::new();
        let mut i: usize = 0;
        proof {
            use_type_invariant(self);
            lemma_node_count_is_shift(self@.d);
        }
        while i < n
            invariant
                self.wf(),
                i <= n,
                n == node_count(self@.d),
                n <= 0x8000,
                plan.len() == i,
                forall|j: int|
                    0 <= j < i ==> (#[trigger] plan[j]).target == self@.registry[j].endpoint()
                        && is_frame(plan[j].frame@, MessageView::SetPeerInfo(self@.peers_of(j))),
            decreases n - i,
        {
            let peers = self.peers_for(i as u16);
            match self.identity(i as u16) {
                Some(identity) => {
                    match send_helper(&identity.endpoint(), &Message::SetPeerInfo(peers)) {
                        Ok(out) => {
                            plan.push(out);
                        },
                        Err(_) => unreached(),
                    }
                },
                None => unreached(),
            }
            i += 1;
        }
        plan
    }

    /// What the node `label` is told of its neighbours.
    fn peers_for(&self, label: u16) -> (peers: Vec<Peer>)
        requires
            is_label(self@.d, label as int),
        ensures
            peers@ == self@.peers_of(label as int),
            peers.len() == self@.d,
    {
        proof {
            use_type_invariant(self);
        }
        let mut peers: Vec<Peer> = Vec::new();
        match self.neighbors(label) {
            Some(neighbors) => {
                let mut k: usize = 0;
                while k < neighbors.len()
                    invariant
                        k <= neighbors.len(),
                        neighbors@ == self@.adjacency[label as int],
                        peers.len() == k,
                        forall|j: int| 0 <= j < k ==> #[trigger] peers[j] == as_peer(neighbors[j]),
                    decreases neighbors.len() - k,
                {
                    let neighbor = neighbors[k];
                    peers.push(
                        Peer {
                            label: neighbor.id as u32,
                            ip: neighbor.address.ip,
                            port: neighbor.address.port,
                        },
                    );
                    k += 1;
                }
            },
            None => unreached(),
        }
        peers
    }

    /// The requests that ask each node for its value: a `GetValue` for each.
    pub fn queries(&self) -> (plan: Vec<Outbound>)
        ensures
            self@.is_plan(plan@, |i: int| MessageView::GetValue),
    {
        let n = self.len();
        let mut plan: Vec<Outbound> = Vec::new();
        let mut i: usize = 0;
        proof {
            use_type_invariant(self);
            lemma_node_count_is_shift(self@.d);
        }
        while i < n
            invariant
                self.wf(),
                i <= n,
                n == node_count(self@.d),
                n <= 0x8000,
                plan.len() == i,
                forall|j: int|
                    0 <= j < i ==> (#[trigger] plan[j]).target == self@.registry[j].endpoint()
                        && is_frame(plan[j].frame@, MessageView::GetValue),
            decreases n - i,
        {
            match self.identity(i as u16) {
                Some(identity) => {
                    match send_helper(&identity.endpoint(), &Message::GetValue) {
                        Ok(out) => {
                            plan.push(out);
                        },
                        Err(_) => unreached(),
                    }
                },
                None => unreached(),
            }
            i += 1;
        }
        plan
    }

    /// Gathers the value of every node from the replies to `queries`, which
    /// `replies` holds by label.
    ///
    /// All or nothing: fails at the first node, by label, whose reply is
    /// missing, is an error or is no `Value`, and names that node and the
    /// cause.
    pub fn query(&self, replies: &Vec<Result<Message, LinkError>>) -> (r: Result<
        HashMap<u16, u32>,
        QueryError,
    >)
        ensures
            match r {
                Ok(values) => {
                    &&& forall|label: u16|
                        values@.contains_key(label) <==> is_label(self@.d, label as int)
                    &&& forall|label: u16|
                        is_label(self@.d, label as int) ==> value_at(replies@, label as int)
                            == Ok::<u32, QueryFailure>(#[trigger] values@[label])
                },
                Err(e) => {
                    &&& is_label(self@.d, e.label as int)
                    &&& value_at(replies@, e.label as int) == Err::<u32, QueryFailure>(e.cause)
                    &&& forall|label: int|
                        0 <= label < e.label ==> (#[trigger] value_at(replies@, label)) is Ok
                },
            },
    {
        let n = self.len();
        let mut values: HashMap<u16, u32> = HashMap::new();
        let mut i: usize = 0;
        proof {
            use_type_invariant(self);
            lemma_node_count_is_shift(self@.d);
        }
        while i < n
            invariant
                i <= n,
                n == node_count(self@.d),
                n <= 0x8000,
                forall|label: u16| values@.contains_key(label) <==> label < i,
                forall|label: int|
                    0 <= label < i ==> #[trigger] value_at(replies@, label) == Ok::<
                        u32,
                        QueryFailure,
                    >(values@[label as u16]),
            decreases n - i,
        {
            let label = i as u16;
            if i >= replies.len() {
                return Err(QueryError { label, cause: QueryFailure::NoReply });
            }
            match &replies[i] {
                Ok(Message::Value(value)) => {
                    values.insert(label, *value);
                },
                Ok(_) => {
                    return Err(QueryError { label, cause: QueryFailure::UnexpectedResponse });
                },
                Err(e) => {
                    return Err(QueryError { label, cause: QueryFailure::Link(*e) });
                },
            }
            i += 1;
        }
        Ok(values)
    }

    /// The request that starts a broadcast of `value` from node `from`: a
    /// `Broadcast` to that node. There is none if the topology has no such
    /// node. What the nodes make of it, and that it reaches each of them
    /// once, is `broadcast::lemma_broadcast_of_topology`.
    pub fn broadcast(&self, from: u32, value: u32) -> (seed: Option<Outbound>)
        ensures
            seed is Some <==> is_label(self@.d, from as int),
            seed matches Some(out) ==> out.target == self@.registry[from as int].endpoint()
                && is_frame(out.frame@, MessageView::Broadcast(value)),
    {
        self.seed(from, Message::Broadcast(value))
    }

    /// The request that starts a flood from node `origin`: a `Propagate` of
    /// zero to that node. There is none if the topology has no such node.
    /// What the nodes make of it, and that it ends, is
    /// `flood::lemma_flood_of_topology`.
    pub fn flood_from(&self, origin: u32) -> (seed: Option<Outbound>)
        ensures
            seed is Some <==> is_label(self@.d, origin as int),
            seed matches Some(out) ==> out.target == self@.registry[origin as int].endpoint()
                && is_frame(out.frame@, MessageView::Propagate(0)),
    {
        self.seed(origin, Message::Propagate(0))
    }

    /// The request that hands `message`, which carries a number, to node
    /// `label`, if the topology has that node.
    fn seed(&self, label: u32, message: Message) -> (seed: Option<Outbound>)
        requires
            message@ is Propagate || message@ is Broadcast,
        ensures
            seed is Some <==> is_label(self@.d, label as int),
            seed matches Some(out) ==> out.target == self@.registry[label as int].endpoint()
                && is_frame(out.frame@, message@),
    {
        proof {
            use_type_invariant(self);
            lemma_node_count_is_shift(self@.d);
        }
        if label > u16::MAX as u32 {
            return None;
        }
        match self.identity(label as u16) {
            Some(identity) => {
                match send_helper(&identity.endpoint(), &message) {
                    Ok(out) => Some(out),
                    Err(_) => unreached(),
                }
            },
            None => None,
        }
    }

    /// The request that starts the flood by which every node comes to hold a
    /// value that grows with each message reaching it: a `Propagate` of zero
    /// to node zero.
    pub fn monotonic(&mut self) -> (seed: Outbound)
        ensures
            final(self)@ == old(self)@,
            seed.target == old(self)@.registry[0].endpoint(),
            is_frame(seed.frame@, MessageView::Propagate(0)),
    {
        proof {
            use_type_invariant(&*self);
            vstd::arithmetic::power2::lemma_pow2_pos(self@.d as nat);
        }
        match self.flood_from(0) {
            Some(out) => out,
            None => unreached(),
        }
    }
}

} // verus!
