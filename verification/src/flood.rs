//! A flood as a whole: the nodes of a hypercube and the messages under way
//! between them.
//!
//! Nodes run on their own and links deliver in no particular order, so the
//! model lets any message under way be delivered next. Whatever the order, a
//! flood ends, and when it has ended it has reached every node. Where every
//! node is seen by its neighbours at the address at which it listens, it takes
//! no more than `1 + d + (2^d - 1) * (d - 1)` messages.

use crate::bits::{
    flip, is_label, lemma_flip_distinct, lemma_flip_is_label, lemma_flip_twice,
    lemma_node_count_is_shift, node_count, MAX_DIMENSION,
};
use crate::hypernode::{lemma_relay_bounded, HypernodeView};
use crate::protocol::{lemma_merge_peers_last, Identity, MessageView};
use crate::topology::HypercubeView;
use vstd::prelude::*;

verus! {

/// A `Propagate` under way: who sent it, to whom, and the value it carries.
pub struct Envelope {
    pub sender: Identity,
    pub target: Identity,
    pub carried: u32,
}

/// The nodes of a hypercube, by label, and the messages under way.
pub struct Network {
    pub nodes: Seq<HypernodeView>,
    pub under_way: Seq<Envelope>,
}

/// How many of `nodes` no flood has reached.
pub open spec fn unvisited(nodes: Seq<HypernodeView>) -> nat
    decreases nodes.len(),
{
    if nodes.len() == 0 {
        0
    } else {
        unvisited(nodes.drop_last()) + if nodes.last().visited() {
            0nat
        } else {
            1nat
        }
    }
}

/// The value that a `Propagate` carries.
pub open spec fn carried_by(message: MessageView) -> u32 {
    match message {
        MessageView::Propagate(value) => value,
        _ => 0,
    }
}

/// The envelopes in which the node that listens at `here` passes on what
/// `forward` lists.
pub open spec fn sent_on(here: Identity, forward: Seq<(Identity, MessageView)>) -> Seq<Envelope> {
    Seq::new(
        forward.len(),
        |j: int| Envelope { sender: here, target: forward[j].0, carried: carried_by(forward[j].1) },
    )
}

impl Network {
    /// Whether some node listens at `target`.
    pub open spec fn hosts(self, target: Identity) -> bool {
        exists|n: int|
            0 <= n < self.nodes.len() && (#[trigger] self.nodes[n]).identity.endpoint() == target
    }

    /// The label of a node that listens at `target`.
    pub open spec fn host(self, target: Identity) -> int {
        choose|n: int|
            0 <= n < self.nodes.len() && (#[trigger] self.nodes[n]).identity.endpoint() == target
    }

    /// The network after the `i`-th of the messages under way was delivered:
    /// the node it is addressed to has served it, and what that node passes on
    /// is under way in its place, with `seen_as` for its sender. A message to
    /// nobody is lost.
    pub open spec fn deliver(self, i: int, seen_as: Identity) -> Network
        recommends
            0 <= i < self.under_way.len(),
    {
        let envelope = self.under_way[i];
        let rest = self.under_way.remove(i);
        if self.hosts(envelope.target) {
            let n = self.host(envelope.target);
            let (next, _, forward) = self.nodes[n].step(
                envelope.sender,
                MessageView::Propagate(envelope.carried),
            );
            Network {
                nodes: self.nodes.update(n, next),
                under_way: rest + sent_on(seen_as, forward),
            }
        } else {
            Network { nodes: self.nodes, under_way: rest }
        }
    }

    /// Whether `seen_as` can stand for the sender of what the addressee of the
    /// `i`-th message passes on: it is the address at which that node listens,
    /// or an address at which no node listens.
    pub open spec fn stands_for(self, i: int, seen_as: Identity) -> bool {
        !self.hosts(seen_as) || (self.hosts(self.under_way[i].target) && seen_as
            == self.under_way[i].target)
    }

    /// A number that every delivery makes smaller: so many steps a flood can
    /// take at most before nothing is under way any more. It counts the
    /// messages under way, and for each node not yet reached the sixteen that
    /// it passes on at most, one for each bit of a label, and one more.
    pub open spec fn steps_left(self) -> nat {
        unvisited(self.nodes) * 17 + self.under_way.len()
    }

    /// What stays as it is during a flood: the nodes carry their labels and
    /// the same dimension, no two listen at the same address, and each knows
    /// where each of its neighbours listens.
    pub open spec fn settled(self, d: u16) -> bool {
        &&& d <= MAX_DIMENSION
        &&& self.nodes.len() == node_count(d)
        &&& forall|n: int|
            0 <= n < self.nodes.len() ==> (#[trigger] self.nodes[n]).identity.id == n
                && self.nodes[n].d == d
        &&& forall|m: int, n: int|
            0 <= m < self.nodes.len() && 0 <= n < self.nodes.len() && (
            #[trigger] self.nodes[m]).identity.endpoint() == (
            #[trigger] self.nodes[n]).identity.endpoint() ==> m == n
        &&& forall|n: int, k: u16|
            0 <= n < self.nodes.len() && k < d ==> self.nodes[n].node.peers.contains_key(
                #[trigger] flip(n as u16, k) as u32,
            ) && self.nodes[n].node.peers[flip(n as u16, k) as u32] == self.nodes[flip(
                n as u16,
                k,
            ) as int].identity.endpoint()
    }

    /// What holds at every moment of a flood.
    ///
    /// Every message under way is addressed to a node, was sent by a node that
    /// the flood has reached or by somebody who is no node, and carries a
    /// value that can still grow by one for each node not yet reached. Every
    /// neighbour of a node that the flood has reached was reached too, or a
    /// message to it is under way. And the flood has begun: it has reached a
    /// node, or a message is under way.
    pub open spec fn flooding(self, d: u16) -> bool {
        &&& self.settled(d)
        &&& forall|i: int|
            0 <= i < self.under_way.len() ==> {
                let envelope = #[trigger] self.under_way[i];
                &&& self.hosts(envelope.target)
                &&& self.hosts(envelope.sender) ==> self.nodes[self.host(
                    envelope.sender,
                )].visited()
                &&& envelope.carried + unvisited(self.nodes) < u32::MAX
            }
        &&& forall|n: int, k: u16|
            0 <= n < self.nodes.len() && k < d && self.nodes[n].visited() ==> self.nodes[(
            #[trigger] flip(n as u16, k)) as int].visited() || self.awaits(flip(n as u16, k) as int)
        &&& self.under_way.len() > 0 || exists|n: int|
            0 <= n < self.nodes.len() && (#[trigger] self.nodes[n]).visited()
    }

    /// Whether a message to node `n` is under way.
    pub open spec fn awaits(self, n: int) -> bool {
        exists|i: int|
            0 <= i < self.under_way.len() && (#[trigger] self.under_way[i]).target
                == self.nodes[n].identity.endpoint()
    }

    /// Whether the flood has reached every node.
    pub open spec fn all_visited(self) -> bool {
        forall|n: int| 0 <= n < self.nodes.len() ==> (#[trigger] self.nodes[n]).visited()
    }
}

/// Changing one node changes the count of nodes not reached by what that
/// node adds to it.
pub proof fn lemma_unvisited_update(nodes: Seq<HypernodeView>, n: int, next: HypernodeView)
    requires
        0 <= n < nodes.len(),
    ensures
        unvisited(nodes.update(n, next)) + (if nodes[n].visited() {
            0nat
        } else {
            1nat
        }) == unvisited(nodes) + (if next.visited() {
            0nat
        } else {
            1nat
        }),
    decreases nodes.len(),
{
    if n == nodes.len() - 1 {
        assert(nodes.update(n, next).drop_last() =~= nodes.drop_last());
    } else {
        assert(nodes.update(n, next).drop_last() =~= nodes.drop_last().update(n, next));
        lemma_unvisited_update(nodes.drop_last(), n, next);
    }
}

/// A flood ends: every delivery, whichever message it takes, leaves fewer
/// steps to go.
pub proof fn lemma_delivery_counts_down(net: Network, i: int, seen_as: Identity)
    requires
        0 <= i < net.under_way.len(),
    ensures
        net.deliver(i, seen_as).steps_left() < net.steps_left(),
{
    let envelope = net.under_way[i];
    if net.hosts(envelope.target) {
        let n = net.host(envelope.target);
        let node = net.nodes[n];
        let (next, _, forward) = node.step(
            envelope.sender,
            MessageView::Propagate(envelope.carried),
        );
        lemma_unvisited_update(net.nodes, n, next);
        lemma_relay_bounded(node, envelope.sender, node.reach());
    }
}

/// In a settled network a node is the only one to listen at its address.
pub proof fn lemma_host(net: Network, d: u16, n: int)
    requires
        net.settled(d),
        0 <= n < net.nodes.len(),
    ensures
        net.hosts(net.nodes[n].identity.endpoint()),
        net.host(net.nodes[n].identity.endpoint()) == n,
{
    let target = net.nodes[n].identity.endpoint();
    assert(net.nodes[n].identity.endpoint() == target);
    let m = net.host(target);
    assert(net.nodes[m].identity.endpoint() == net.nodes[n].identity.endpoint());
}

/// Whoever a node passes a flood on to is one of its peers across one of the
/// low `k` bits, and each such peer that is not the sender is passed on to.
proof fn lemma_relay_members(node: HypernodeView, sender: Identity, k: int)
    requires
        0 <= k <= 16,
    ensures
        forall|j: int|
            0 <= j < node.relay_upto(sender, k).len() ==> exists|b: u16|
                b < k && node.node.peers.contains_key(#[trigger] flip(node.identity.id, b) as u32)
                    && (#[trigger] node.relay_upto(sender, k)[j]) == node.node.peers[flip(
                    node.identity.id,
                    b,
                ) as u32],
        forall|b: u16|
            b < k && node.node.peers.contains_key(#[trigger] flip(node.identity.id, b) as u32)
                && node.node.peers[flip(node.identity.id, b) as u32] != sender
                ==> node.relay_upto(sender, k).contains(
                node.node.peers[flip(node.identity.id, b) as u32],
            ),
    decreases k,
{
    if k > 0 {
        lemma_relay_members(node, sender, k - 1);
        let before = node.relay_upto(sender, k - 1);
        let now = node.relay_upto(sender, k);
        let last = (k - 1) as u16;
        let label = flip(node.identity.id, last) as u32;
        assert forall|j: int| 0 <= j < now.len() implies exists|b: u16|
            b < k && node.node.peers.contains_key(#[trigger] flip(node.identity.id, b) as u32)
                && (#[trigger] now[j]) == node.node.peers[flip(node.identity.id, b) as u32] by {
            if j < before.len() {
                assert(now[j] == before[j]);
                let b = choose|b: u16|
                    b < k - 1 && node.node.peers.contains_key(
                        #[trigger] flip(node.identity.id, b) as u32,
                    ) && before[j] == node.node.peers[flip(node.identity.id, b) as u32];
                assert(b < k && node.node.peers.contains_key(flip(node.identity.id, b) as u32));
            } else {
                assert(now[j] == node.node.peers[flip(node.identity.id, last) as u32]);
            }
        }
        assert forall|b: u16|
            b < k && node.node.peers.contains_key(#[trigger] flip(node.identity.id, b) as u32)
                && node.node.peers[flip(node.identity.id, b) as u32]
                != sender implies now.contains(
            node.node.peers[flip(node.identity.id, b) as u32],
        ) by {
            let peer = node.node.peers[flip(node.identity.id, b) as u32];
            if b < k - 1 {
                assert(before.contains(peer));
                let j = choose|j: int| 0 <= j < before.len() && before[j] == peer;
                assert(now[j] == peer);
            } else {
                assert(b == last);
                assert(now[now.len() - 1] == peer);
            }
        }
    }
}

/// What a delivery during a flood comes to: the node that the message is
/// addressed to is reached, if it was not before, and stays what it was in
/// every other way; no other node changes; and what is newly under way, if
/// the node was not reached before, goes from it to its neighbours and
/// carries one more than the message did.
proof fn lemma_delivery(net: Network, d: u16, i: int, seen_as: Identity)
    requires
        net.flooding(d),
        0 <= i < net.under_way.len(),
    ensures
        ({
            let envelope = net.under_way[i];
            let n = net.host(envelope.target);
            let after = net.deliver(i, seen_as);
            let fresh = after.under_way.skip(net.under_way.len() - 1);
            &&& 0 <= n < net.nodes.len()
            &&& net.nodes[n].identity.endpoint() == envelope.target
            &&& after.nodes == net.nodes.update(n, after.nodes[n])
            &&& after.nodes[n].visited()
            &&& after.nodes[n].identity == net.nodes[n].identity
            &&& after.nodes[n].d == net.nodes[n].d
            &&& after.nodes[n].node.peers == net.nodes[n].node.peers
            &&& after.under_way == net.under_way.remove(i) + fresh
            &&& after.settled(d)
            &&& if net.nodes[n].visited() {
                fresh.len() == 0 && unvisited(after.nodes) == unvisited(net.nodes)
            } else {
                &&& unvisited(after.nodes) + 1 == unvisited(net.nodes)
                &&& fresh.len() == net.nodes[n].relay(envelope.sender).len()
                &&& forall|j: int|
                    0 <= j < fresh.len() ==> #[trigger] fresh[j] == (Envelope {
                        sender: seen_as,
                        target: net.nodes[n].relay(envelope.sender)[j],
                        carried: (envelope.carried + 1) as u32,
                    })
            }
        }),
{
    let envelope = net.under_way[i];
    let n = net.host(envelope.target);
    let after = net.deliver(i, seen_as);
    let node = net.nodes[n];
    let (next, _, forward) = node.step(envelope.sender, MessageView::Propagate(envelope.carried));
    let sent = sent_on(seen_as, forward);
    assert(after.under_way == net.under_way.remove(i) + sent);
    assert(after.under_way.skip(net.under_way.len() - 1) =~= sent);
    lemma_unvisited_update(net.nodes, n, next);
    assert(after.nodes[n] == next);
    assert(after.settled(d)) by {
        assert forall|m: int| 0 <= m < after.nodes.len() implies (
        #[trigger] after.nodes[m]).identity == net.nodes[m].identity && after.nodes[m].d
            == net.nodes[m].d && after.nodes[m].node.peers == net.nodes[m].node.peers by {}
        assert forall|a: int, b: int|
            0 <= a < after.nodes.len() && 0 <= b < after.nodes.len() && (
            #[trigger] after.nodes[a]).identity.endpoint() == (
            #[trigger] after.nodes[b]).identity.endpoint() implies a == b by {
            assert(net.nodes[a].identity.endpoint() == net.nodes[b].identity.endpoint());
        }
        assert forall|m: int, k: u16|
            0 <= m < after.nodes.len() && k < d implies after.nodes[m].node.peers.contains_key(
            #[trigger] flip(m as u16, k) as u32,
        ) && after.nodes[m].node.peers[flip(m as u16, k) as u32] == after.nodes[flip(
            m as u16,
            k,
        ) as int].identity.endpoint() by {
            lemma_node_count_is_shift(d);
            lemma_flip_is_label(d, m as u16, k);
            assert(after.nodes[m].node.peers == net.nodes[m].node.peers);
            assert(after.nodes[flip(m as u16, k) as int].identity == net.nodes[flip(
                m as u16,
                k,
            ) as int].identity);
        }
    }
}

/// Nodes keep their addresses over a delivery, so whoever listened at an
/// address before listens there after.
proof fn lemma_same_hosts(net: Network, d: u16, i: int, seen_as: Identity, target: Identity)
    requires
        net.flooding(d),
        0 <= i < net.under_way.len(),
    ensures
        net.deliver(i, seen_as).hosts(target) == net.hosts(target),
        net.hosts(target) ==> net.deliver(i, seen_as).host(target) == net.host(target),
{
    lemma_delivery(net, d, i, seen_as);
    let after = net.deliver(i, seen_as);
    assert forall|m: int| 0 <= m < after.nodes.len() implies (#[trigger] after.nodes[m]).identity
        == net.nodes[m].identity by {}
    if net.hosts(target) {
        let m = net.host(target);
        assert(after.nodes[m].identity.endpoint() == target);
        lemma_host(after, d, m);
    }
    if after.hosts(target) {
        let m = after.host(target);
        assert(net.nodes[m].identity.endpoint() == target);
    }
}

/// What holds at every moment of a flood still holds after any one of the
/// messages under way was delivered.
pub proof fn lemma_flood_goes_on(net: Network, d: u16, i: int, seen_as: Identity)
    requires
        net.flooding(d),
        0 <= i < net.under_way.len(),
        net.stands_for(i, seen_as),
    ensures
        net.deliver(i, seen_as).flooding(d),
{
    lemma_delivery(net, d, i, seen_as);
    lemma_node_count_is_shift(d);
    let envelope = net.under_way[i];
    let n = net.host(envelope.target);
    let node = net.nodes[n];
    let after = net.deliver(i, seen_as);
    let rest = net.under_way.remove(i);
    let fresh = after.under_way.skip(net.under_way.len() - 1);
    let was_new = !node.visited();
    assert(node.reach() == d);
    lemma_relay_members(node, envelope.sender, d as int);
    lemma_host(net, d, n);
    lemma_host(after, d, n);

    assert forall|j: int| 0 <= j < after.under_way.len() implies {
        let e = #[trigger] after.under_way[j];
        &&& after.hosts(e.target)
        &&& after.hosts(e.sender) ==> after.nodes[after.host(e.sender)].visited()
        &&& e.carried + unvisited(after.nodes) < u32::MAX
    } by {
        let e = after.under_way[j];
        lemma_same_hosts(net, d, i, seen_as, e.target);
        lemma_same_hosts(net, d, i, seen_as, e.sender);
        if j < rest.len() {
            let old_j = if j < i {
                j
            } else {
                j + 1
            };
            assert(e == net.under_way[old_j]);
            if net.hosts(e.sender) {
                let m = net.host(e.sender);
                assert(net.nodes[m].visited());
            }
        } else {
            assert(e == fresh[j - rest.len()]);
            let target = node.relay(envelope.sender)[j - rest.len()];
            let b = choose|b: u16|
                b < d && node.node.peers.contains_key(#[trigger] flip(node.identity.id, b) as u32)
                    && target == node.node.peers[flip(node.identity.id, b) as u32];
            lemma_flip_is_label(d, n as u16, b);
            lemma_host(net, d, flip(n as u16, b) as int);
        }
    }

    assert forall|m: int, k: u16|
        0 <= m < after.nodes.len() && k < d && after.nodes[m].visited() implies after.nodes[(
    #[trigger] flip(m as u16, k)) as int].visited() || after.awaits(flip(m as u16, k) as int) by {
        lemma_flip_is_label(d, m as u16, k);
        let y = flip(m as u16, k) as int;
        if y == n {
        } else if m == n && was_new {
            let peer = node.node.peers[flip(n as u16, k) as u32];
            assert(peer == net.nodes[y].identity.endpoint());
            if peer == envelope.sender {
                lemma_host(net, d, y);
                assert(net.nodes[y].visited());
            } else {
                assert(node.relay(envelope.sender).contains(peer));
                let j = choose|j: int|
                    0 <= j < node.relay(envelope.sender).len() && node.relay(envelope.sender)[j]
                        == peer;
                assert(fresh[j].target == peer);
                assert(after.under_way[rest.len() + j] == fresh[j]);
                assert(after.awaits(y));
            }
        } else {
            assert(net.nodes[m].visited());
            if !net.nodes[y].visited() {
                assert(net.awaits(y));
                let j = choose|j: int|
                    0 <= j < net.under_way.len() && (#[trigger] net.under_way[j]).target
                        == net.nodes[y].identity.endpoint();
                assert(j != i);
                let new_j = if j < i {
                    j
                } else {
                    j - 1
                };
                assert(after.under_way[new_j] == net.under_way[j]);
                assert(after.awaits(y));
            }
        }
    }
    assert(after.nodes[n].visited());
}

/// There are no more nodes not reached than there are nodes.
pub proof fn lemma_unvisited_bound(nodes: Seq<HypernodeView>)
    ensures
        unvisited(nodes) <= nodes.len(),
    decreases nodes.len(),
{
    if nodes.len() > 0 {
        lemma_unvisited_bound(nodes.drop_last());
    }
}

/// A flood begins: when no node was reached yet, and somebody who is no node
/// sends a value to one of them, what holds at every moment of a flood holds.
/// The value must leave room to grow by one for each node.
pub proof fn lemma_flood_begins(
    nodes: Seq<HypernodeView>,
    d: u16,
    origin: u16,
    coordinator: Identity,
    seed: u32,
)
    requires
        (Network { nodes, under_way: Seq::empty() }).settled(d),
        forall|n: int| 0 <= n < nodes.len() ==> !(#[trigger] nodes[n]).visited(),
        is_label(d, origin as int),
        !(Network { nodes, under_way: Seq::empty() }).hosts(coordinator),
        seed + node_count(d) < u32::MAX,
    ensures
        (Network {
            nodes,
            under_way: seq![
                Envelope {
                    sender: coordinator,
                    target: nodes[origin as int].identity.endpoint(),
                    carried: seed,
                },
            ],
        }).flooding(d),
{
    let idle = Network { nodes, under_way: Seq::empty() };
    let net = Network {
        nodes,
        under_way: seq![
            Envelope {
                sender: coordinator,
                target: nodes[origin as int].identity.endpoint(),
                carried: seed,
            },
        ],
    };
    lemma_unvisited_bound(nodes);
    assert(net.settled(d));
    lemma_host(net, d, origin as int);
    assert forall|t: Identity| net.hosts(t) == idle.hosts(t) by {
        if net.hosts(t) {
            let m = net.host(t);
            assert(idle.nodes[m].identity.endpoint() == t);
        }
        if idle.hosts(t) {
            let m = idle.host(t);
            assert(net.nodes[m].identity.endpoint() == t);
        }
    }
}

/// The label that has its low `k` bits from `to` and its other bits from
/// `from`.
pub open spec fn blend(from: u16, to: u16, k: u16) -> u16 {
    (to & (((1u16 << k) - 1) as u16)) | (from & !(((1u16 << k) - 1) as u16))
}

/// From any label any other is reached by flipping, from the lowest bit up,
/// the bits in which the two differ; and all labels on the way are labels.
proof fn lemma_blend(d: u16, from: u16, to: u16, k: u16)
    requires
        d <= MAX_DIMENSION,
        is_label(d, from as int),
        is_label(d, to as int),
        k <= d,
    ensures
        is_label(d, blend(from, to, k) as int),
        blend(from, to, 0) == from,
        blend(from, to, d) == to,
        k < d ==> blend(from, to, (k + 1) as u16) == blend(from, to, k) || blend(
            from,
            to,
            (k + 1) as u16,
        ) == flip(blend(from, to, k), k),
{
    lemma_node_count_is_shift(d);
    assert(d <= 15 && from < (1u16 << d) && to < (1u16 << d) && k <= d ==> ((to & (((1u16 << k)
        - 1) as u16)) | (from & !(((1u16 << k) - 1) as u16))) < (1u16 << d)) by (bit_vector);
    assert(((to & (((1u16 << 0u16) - 1) as u16)) | (from & !(((1u16 << 0u16) - 1) as u16)))
        == from) by (bit_vector);
    assert(d <= 15 && from < (1u16 << d) && to < (1u16 << d) ==> ((to & (((1u16 << d) - 1) as u16))
        | (from & !(((1u16 << d) - 1) as u16))) == to) by (bit_vector);
    if k < d {
        let next = (k + 1) as u16;
        assert(k < 15 && next == k + 1 ==> ((to & (((1u16 << next) - 1) as u16)) | (from & !(((1u16
            << next) - 1) as u16))) == ((to & (((1u16 << k) - 1) as u16)) | (from & !(((1u16 << k)
            - 1) as u16))) || ((to & (((1u16 << next) - 1) as u16)) | (from & !(((1u16 << next)
            - 1) as u16))) == (((to & (((1u16 << k) - 1) as u16)) | (from & !(((1u16 << k)
            - 1) as u16))) ^ (1u16 << k))) by (bit_vector);
    }
}

/// When a flood has reached a node and no message is under way, it has
/// reached every label between that node's and any other.
proof fn lemma_reached_along(net: Network, d: u16, from: u16, to: u16, k: u16)
    requires
        net.flooding(d),
        net.under_way.len() == 0,
        is_label(d, from as int),
        is_label(d, to as int),
        net.nodes[from as int].visited(),
        k <= d,
    ensures
        net.nodes[blend(from, to, k) as int].visited(),
    decreases k,
{
    lemma_blend(d, from, to, k);
    if k > 0 {
        let before = (k - 1) as u16;
        lemma_reached_along(net, d, from, to, before);
        lemma_blend(d, from, to, before);
        let here = blend(from, to, before);
        if blend(from, to, k) != here {
            assert(net.nodes[flip(here, before) as int].visited() || net.awaits(
                flip(here, before) as int,
            ));
        }
    }
}

/// When a flood has ended, it has reached every node.
pub proof fn lemma_flood_reaches_all(net: Network, d: u16)
    requires
        net.flooding(d),
        net.under_way.len() == 0,
    ensures
        net.all_visited(),
{
    let from = choose|n: int| 0 <= n < net.nodes.len() && (#[trigger] net.nodes[n]).visited();
    lemma_node_count_is_shift(d);
    assert forall|n: int| 0 <= n < net.nodes.len() implies (#[trigger] net.nodes[n]).visited() by {
        lemma_reached_along(net, d, from as u16, n as u16, d);
        lemma_blend(d, from as u16, n as u16, d);
    }
}

/// The nodes of a topology are ready for a flood once each was started and
/// then told of its neighbours: none was reached by a flood, and each knows
/// where each of its neighbours listens.
pub proof fn lemma_launched_is_settled(
    cube: HypercubeView,
    nodes: Seq<HypernodeView>,
    teller: Identity,
)
    requires
        cube.wf(),
        nodes.len() == cube.registry.len(),
        forall|n: int|
            0 <= n < nodes.len() ==> #[trigger] nodes[n] == HypernodeView::started(
                cube.registry[n],
                cube.d,
            ).step(teller, MessageView::SetPeerInfo(cube.peers_of(n))).0,
    ensures
        (Network { nodes, under_way: Seq::empty() }).settled(cube.d),
        forall|n: int| 0 <= n < nodes.len() ==> !(#[trigger] nodes[n]).visited(),
{
    let net = Network { nodes, under_way: Seq::empty() };
    let d = cube.d;
    lemma_node_count_is_shift(d);
    assert forall|n: int| 0 <= n < nodes.len() implies (#[trigger] nodes[n]).identity
        == cube.registry[n] && nodes[n].d == d && !nodes[n].visited() by {}
    assert forall|m: int, n: int|
        0 <= m < nodes.len() && 0 <= n < nodes.len() && (
        #[trigger] nodes[m]).identity.endpoint() == (
        #[trigger] nodes[n]).identity.endpoint() implies m == n by {
        if m < n {
            assert(cube.registry[m].address != cube.registry[n].address);
        }
        if n < m {
            assert(cube.registry[n].address != cube.registry[m].address);
        }
    }
    assert forall|n: int, k: u16|
        0 <= n < nodes.len() && k < d implies nodes[n].node.peers.contains_key(
        #[trigger] flip(n as u16, k) as u32,
    ) && nodes[n].node.peers[flip(n as u16, k) as u32] == nodes[flip(
        n as u16,
        k,
    ) as int].identity.endpoint() by {
        let told = cube.peers_of(n);
        lemma_flip_is_label(d, n as u16, k);
        assert forall|j: int| 0 <= j < told.len() implies (#[trigger] told[j]).label == flip(
            n as u16,
            j as u16,
        ) as u32 by {
            lemma_flip_is_label(d, n as u16, j as u16);
            assert(cube.adjacency[n][j] == cube.registry[flip(n as u16, j as u16) as int]);
        }
        assert forall|j: int| k < j < told.len() implies told[j].label != told[k as int].label by {
            lemma_flip_distinct(n as u16, j as u16, k);
        }
        lemma_merge_peers_last(Map::empty(), told, k as int);
        assert(cube.adjacency[n][k as int] == cube.registry[flip(n as u16, k) as int]);
    }
}

/// Which message is delivered next, and what stands for the sender of what
/// its addressee passes on.
pub struct Pick {
    pub index: int,
    pub seen_as: Identity,
}

impl Network {
    /// The network after the deliveries that `picks` names, one after the
    /// other.
    pub open spec fn run(self, picks: Seq<Pick>) -> Network
        decreases picks.len(),
    {
        if picks.len() == 0 {
            self
        } else {
            self.run(picks.drop_last()).deliver(picks.last().index, picks.last().seen_as)
        }
    }

    /// Whether each of `picks` names, when its turn comes, a message that is
    /// under way, and a sender that can stand for its addressee.
    pub open spec fn orderly(self, picks: Seq<Pick>) -> bool
        decreases picks.len(),
    {
        picks.len() > 0 ==> {
            let before = self.run(picks.drop_last());
            &&& self.orderly(picks.drop_last())
            &&& 0 <= picks.last().index < before.under_way.len()
            &&& before.stands_for(picks.last().index, picks.last().seen_as)
        }
    }
}

/// Whatever the order of the deliveries: a flood takes no more steps than
/// `steps_left` says, what holds at every moment of a flood holds after each,
/// and once nothing is under way the flood has reached every node.
pub proof fn lemma_flood_converges(net: Network, d: u16, picks: Seq<Pick>)
    requires
        net.flooding(d),
        net.orderly(picks),
    ensures
        net.run(picks).flooding(d),
        picks.len() + net.run(picks).steps_left() <= net.steps_left(),
        net.run(picks).under_way.len() == 0 ==> net.run(picks).all_visited(),
    decreases picks.len(),
{
    if picks.len() > 0 {
        let before = net.run(picks.drop_last());
        lemma_flood_converges(net, d, picks.drop_last());
        lemma_flood_goes_on(before, d, picks.last().index, picks.last().seen_as);
        lemma_delivery_counts_down(before, picks.last().index, picks.last().seen_as);
    }
    if net.run(picks).under_way.len() == 0 {
        lemma_flood_reaches_all(net.run(picks), d);
    }
}

impl Network {
    /// Whether the `i`-th of the messages under way was sent by a neighbour of
    /// the node it is addressed to, from the address at which that neighbour
    /// listens.
    pub open spec fn from_neighbor(self, d: u16, i: int) -> bool {
        exists|k: u16|
            k < d && self.under_way[i].sender == self.nodes[(#[trigger] flip(
                self.host(self.under_way[i].target) as u16,
                k,
            )) as int].identity.endpoint()
    }

    /// Whether the one message under way is from somebody who is no node: the
    /// seed of a flood that has not been delivered yet.
    pub open spec fn seed_pending(self) -> bool {
        self.under_way.len() == 1 && !self.hosts(self.under_way[0].sender)
    }

    /// What holds at every moment of a flood in which every node is seen by
    /// its neighbours at the address at which it listens: beyond `flooding`,
    /// that only the seed is under way, or every message under way is from a
    /// neighbour of its addressee.
    pub open spec fn plain_flooding(self, d: u16) -> bool {
        &&& self.flooding(d)
        &&& self.seed_pending() || forall|i: int|
            0 <= i < self.under_way.len() ==> #[trigger] self.from_neighbor(d, i)
    }

    /// The number of deliveries that such a flood can still take: those of
    /// the messages under way, one for each neighbour but the sender of each
    /// node not yet reached, and one more while the seed is under way, which
    /// is passed on to every neighbour.
    pub open spec fn messages_left(self, d: u16) -> int {
        self.under_way.len() + unvisited(self.nodes) * (d - 1) + if self.seed_pending() {
            1int
        } else {
            0int
        }
    }

    /// Whether `picks` are orderly and each lets the addressee be seen at the
    /// address at which it listens.
    pub open spec fn plain(self, picks: Seq<Pick>) -> bool
        decreases picks.len(),
    {
        picks.len() > 0 ==> {
            let before = self.run(picks.drop_last());
            &&& self.plain(picks.drop_last())
            &&& 0 <= picks.last().index < before.under_way.len()
            &&& picks.last().seen_as == before.under_way[picks.last().index].target
        }
    }
}

/// A node does not pass a flood on to the neighbour that it came from: where
/// the sender is the neighbour across bit `k`, fewer neighbours are passed on
/// to than bits are looked at.
proof fn lemma_relay_skips(node: HypernodeView, sender: Identity, k: int, upto: int)
    requires
        0 <= k < upto,
        node.node.peers.contains_key(flip(node.identity.id, k as u16) as u32),
        node.node.peers[flip(node.identity.id, k as u16) as u32] == sender,
    ensures
        node.relay_upto(sender, upto).len() <= upto - 1,
    decreases upto,
{
    if upto - 1 == k {
        lemma_relay_bounded(node, sender, k);
    } else {
        lemma_relay_skips(node, sender, k, upto - 1);
    }
}

/// Where no node was reached yet, as many are not reached as there are.
proof fn lemma_none_visited(nodes: Seq<HypernodeView>)
    requires
        forall|n: int| 0 <= n < nodes.len() ==> !(#[trigger] nodes[n]).visited(),
    ensures
        unvisited(nodes) == nodes.len(),
    decreases nodes.len(),
{
    if nodes.len() > 0 {
        lemma_none_visited(nodes.drop_last());
    }
}

/// Where a node was reached, fewer are not reached than there are.
proof fn lemma_some_visited(nodes: Seq<HypernodeView>, n: int)
    requires
        0 <= n < nodes.len(),
        nodes[n].visited(),
    ensures
        unvisited(nodes) < nodes.len(),
    decreases nodes.len(),
{
    lemma_unvisited_bound(nodes.drop_last());
    if n < nodes.len() - 1 {
        lemma_some_visited(nodes.drop_last(), n);
    }
}

/// In a flood in which every node is seen at the address at which it listens,
/// each delivery leaves at least one delivery less to come, and never less
/// than none.
pub proof fn lemma_plain_delivery(net: Network, d: u16, i: int)
    requires
        net.plain_flooding(d),
        0 <= i < net.under_way.len(),
    ensures
        net.deliver(i, net.under_way[i].target).plain_flooding(d),
        net.deliver(i, net.under_way[i].target).messages_left(d) < net.messages_left(d),
        0 <= net.deliver(i, net.under_way[i].target).messages_left(d),
{
    let envelope = net.under_way[i];
    let seen_as = envelope.target;
    let n = net.host(envelope.target);
    let node = net.nodes[n];
    let after = net.deliver(i, seen_as);
    let rest = net.under_way.remove(i);
    let fresh = after.under_way.skip(net.under_way.len() - 1);
    let u = unvisited(net.nodes) as int;
    lemma_delivery(net, d, i, seen_as);
    lemma_flood_goes_on(net, d, i, seen_as);
    lemma_node_count_is_shift(d);
    lemma_host(net, d, n);
    lemma_host(after, d, n);
    lemma_relay_members(node, envelope.sender, d as int);
    lemma_relay_bounded(node, envelope.sender, d as int);
    lemma_unvisited_bound(net.nodes);
    lemma_unvisited_bound(after.nodes);

    // every message under way afterwards is from a neighbour of its addressee
    assert forall|j: int| 0 <= j < after.under_way.len() implies #[trigger] after.from_neighbor(
        d,
        j,
    ) by {
        let e = after.under_way[j];
        lemma_same_hosts(net, d, i, seen_as, e.target);
        if j < rest.len() {
            let old_j = if j < i {
                j
            } else {
                j + 1
            };
            assert(e == net.under_way[old_j]);
            assert(!net.seed_pending());
            assert(net.from_neighbor(d, old_j));
            let k = choose|k: u16|
                k < d && net.under_way[old_j].sender == net.nodes[(#[trigger] flip(
                    net.host(net.under_way[old_j].target) as u16,
                    k,
                )) as int].identity.endpoint();
            lemma_flip_is_label(d, net.host(e.target) as u16, k);
            assert(after.nodes[flip(after.host(e.target) as u16, k) as int].identity
                == net.nodes[flip(net.host(e.target) as u16, k) as int].identity);
        } else {
            assert(e == fresh[j - rest.len()]);
            let target = node.relay(envelope.sender)[j - rest.len()];
            let b = choose|b: u16|
                b < d && node.node.peers.contains_key(#[trigger] flip(node.identity.id, b) as u32)
                    && target == node.node.peers[flip(node.identity.id, b) as u32];
            lemma_flip_is_label(d, n as u16, b);
            lemma_flip_twice(n as u16, b);
            let y = flip(n as u16, b);
            lemma_host(net, d, y as int);
            lemma_host(after, d, y as int);
            assert(after.host(e.target) == y);
            assert(e.sender == after.nodes[flip(y, b) as int].identity.endpoint());
        }
    }
    if after.under_way.len() == 1 {
        assert(after.from_neighbor(d, 0));
        let k = choose|k: u16|
            k < d && after.under_way[0].sender == after.nodes[(#[trigger] flip(
                after.host(after.under_way[0].target) as u16,
                k,
            )) as int].identity.endpoint();
        let t = after.host(after.under_way[0].target);
        lemma_same_hosts(net, d, i, seen_as, after.under_way[0].target);
        lemma_flip_is_label(d, t as u16, k);
        lemma_host(after, d, flip(t as u16, k) as int);
        assert(!after.seed_pending());
    }
    assert(!after.seed_pending());

    // what is passed on is one less than the bits, once the seed is delivered
    if !node.visited() && !net.seed_pending() {
        assert(net.from_neighbor(d, i));
        let k = choose|k: u16|
            k < d && envelope.sender == net.nodes[(#[trigger] flip(
                n as u16,
                k,
            )) as int].identity.endpoint();
        lemma_relay_skips(node, envelope.sender, k as int, d as int);
    }
    let u_after = unvisited(after.nodes) as int;
    assert(u_after * (d - 1) == u * (d - 1) - (if node.visited() {
        0int
    } else {
        d - 1
    })) by (nonlinear_arith)
        requires
            u_after == u - (if node.visited() {
                0int
            } else {
                1int
            }),
    ;
    if d >= 1 {
        assert(0 <= u_after * (d - 1)) by (nonlinear_arith)
            requires
                0 <= u_after,
                d >= 1,
        ;
    } else {
        assert(u_after * (d - 1) == -u_after) by (nonlinear_arith)
            requires
                d == 0,
        ;
        assert(net.nodes.len() == 1) by {
            vstd::arithmetic::power2::lemma2_to64();
        }
        lemma_some_visited(after.nodes, n);
    }
}

/// How many messages a flood takes: where the flood begins as `lemma_flood_begins`
/// says and every node is seen by its neighbours at the address at which it
/// listens, no more messages are delivered than the seed, one for each
/// neighbour of the node that the seed reaches, and one for each neighbour but
/// the sender of each other node.
pub proof fn lemma_flood_message_bound(
    nodes: Seq<HypernodeView>,
    d: u16,
    origin: u16,
    coordinator: Identity,
    seed: u32,
    picks: Seq<Pick>,
)
    requires
        (Network { nodes, under_way: Seq::empty() }).settled(d),
        forall|n: int| 0 <= n < nodes.len() ==> !(#[trigger] nodes[n]).visited(),
        is_label(d, origin as int),
        !(Network { nodes, under_way: Seq::empty() }).hosts(coordinator),
        seed + node_count(d) < u32::MAX,
        (Network {
            nodes,
            under_way: seq![
                Envelope {
                    sender: coordinator,
                    target: nodes[origin as int].identity.endpoint(),
                    carried: seed,
                },
            ],
        }).plain(picks),
    ensures
        picks.len() <= 1 + d + (node_count(d) - 1) * (d - 1),
{
    let idle = Network { nodes, under_way: Seq::empty() };
    let net = Network {
        nodes,
        under_way: seq![
            Envelope {
                sender: coordinator,
                target: nodes[origin as int].identity.endpoint(),
                carried: seed,
            },
        ],
    };
    lemma_flood_begins(nodes, d, origin, coordinator, seed);
    lemma_none_visited(nodes);
    assert(!net.hosts(coordinator)) by {
        if net.hosts(coordinator) {
            let m = net.host(coordinator);
            assert(idle.nodes[m].identity.endpoint() == coordinator);
        }
    }
    assert(net.seed_pending());
    lemma_plain_run(net, d, picks);
    let count = node_count(d) as int;
    assert(net.messages_left(d) == 1 + count * (d - 1) + 1);
    assert(1 + count * (d - 1) + 1 == 1 + d + (count - 1) * (d - 1)) by (nonlinear_arith);
    if d == 0 {
        vstd::arithmetic::power2::lemma2_to64();
    } else {
        vstd::arithmetic::power2::lemma_pow2_pos(d as nat);
        assert(0 <= (count - 1) * (d - 1)) by (nonlinear_arith)
            requires
                count >= 1,
                d >= 1,
        ;
    }
}

/// Whatever the order of the deliveries in such a flood: after a run there
/// are as many deliveries less to come as were made, or fewer.
pub proof fn lemma_plain_run(net: Network, d: u16, picks: Seq<Pick>)
    requires
        net.plain_flooding(d),
        net.plain(picks),
    ensures
        net.run(picks).plain_flooding(d),
        picks.len() + net.run(picks).messages_left(d) <= net.messages_left(d),
        picks.len() > 0 ==> 0 <= net.run(picks).messages_left(d),
        picks.len() <= net.messages_left(d) || picks.len() == 0,
    decreases picks.len(),
{
    if picks.len() > 0 {
        let before = net.run(picks.drop_last());
        lemma_plain_run(net, d, picks.drop_last());
        lemma_plain_delivery(before, d, picks.last().index);
    }
}

/// The flood at its beginning: `coordinator` has sent `seed` to node `origin`,
/// and nothing else is under way.
pub open spec fn begun(
    nodes: Seq<HypernodeView>,
    origin: u16,
    coordinator: Identity,
    seed: u32,
) -> Network {
    Network {
        nodes,
        under_way: seq![
            Envelope {
                sender: coordinator,
                target: nodes[origin as int].identity.endpoint(),
                carried: seed,
            },
        ],
    }
}

/// A flood over a topology: where every node was started and then told of its
/// neighbours, somebody who is no node sends a seed to node `origin`, and
/// every node is seen by its neighbours at the address at which it listens,
/// then, whatever the order of the deliveries,
///
/// - no more messages are delivered than `1 + d + (2^d - 1) * (d - 1)`: the
///   seed, one for each neighbour of the node that the seed reaches, and one
///   for each neighbour but the sender of each other node;
/// - once nothing is under way, the flood has reached every node.
pub proof fn lemma_flood_of_topology(
    cube: HypercubeView,
    nodes: Seq<HypernodeView>,
    teller: Identity,
    origin: u16,
    coordinator: Identity,
    seed: u32,
    picks: Seq<Pick>,
)
    requires
        cube.wf(),
        nodes.len() == cube.registry.len(),
        forall|n: int|
            0 <= n < nodes.len() ==> #[trigger] nodes[n] == HypernodeView::started(
                cube.registry[n],
                cube.d,
            ).step(teller, MessageView::SetPeerInfo(cube.peers_of(n))).0,
        is_label(cube.d, origin as int),
        !(Network { nodes, under_way: Seq::empty() }).hosts(coordinator),
        seed + node_count(cube.d) < u32::MAX,
        begun(nodes, origin, coordinator, seed).plain(picks),
    ensures
        picks.len() <= 1 + cube.d + (node_count(cube.d) - 1) * (cube.d - 1),
        begun(nodes, origin, coordinator, seed).run(picks).under_way.len() == 0 ==> begun(
            nodes,
            origin,
            coordinator,
            seed,
        ).run(picks).all_visited(),
{
    let net = begun(nodes, origin, coordinator, seed);
    lemma_launched_is_settled(cube, nodes, teller);
    lemma_flood_begins(nodes, cube.d, origin, coordinator, seed);
    lemma_flood_message_bound(nodes, cube.d, origin, coordinator, seed, picks);
    lemma_plain_is_orderly(net, cube.d, picks);
    lemma_flood_converges(net, cube.d, picks);
}

/// Deliveries that let each addressee be seen at the address at which it
/// listens are orderly.
proof fn lemma_plain_is_orderly(net: Network, d: u16, picks: Seq<Pick>)
    requires
        net.flooding(d),
        net.plain(picks),
    ensures
        net.orderly(picks),
    decreases picks.len(),
{
    if picks.len() > 0 {
        lemma_plain_is_orderly(net, d, picks.drop_last());
        lemma_flood_converges(net, d, picks.drop_last());
    }
}

} // verus!
