//! A broadcast as a whole: the nodes of a hypercube and the messages under
//! way between them.
//!
//! As in a flood, any message under way may be delivered next. The model is
//! of a broadcast in which every node is seen by its neighbours at the
//! address at which it listens. Whatever the order of the deliveries, each
//! node is handed the value exactly once, after no more hops than the
//! hypercube has dimensions, and then holds it.

use crate::bits::{
    flip, is_label, lemma_flip_distinct, lemma_flip_is_label, lemma_flip_twice,
    lemma_node_count_is_shift, node_count,
};
use crate::flood::{
    lemma_host, lemma_launched_is_settled, lemma_unvisited_bound, lemma_unvisited_update,
    unvisited, Network,
};
use crate::topology::HypercubeView;
use crate::hypernode::{lemma_span, HypernodeView};
use crate::protocol::{Identity, MessageView};
use vstd::prelude::*;

verus! {

/// A `Broadcast` under way: who sent it, to whom, the value it carries and
/// how many nodes have passed it on.
pub struct Parcel {
    pub sender: Identity,
    pub target: Identity,
    pub value: u32,
    pub hops: nat,
}

/// The nodes of a hypercube, by label, and the broadcasts under way.
pub struct Casting {
    pub nodes: Seq<HypernodeView>,
    pub under_way: Seq<Parcel>,
}

/// The value that a `Broadcast` carries.
pub open spec fn cast_by(message: MessageView) -> u32 {
    match message {
        MessageView::Broadcast(value) => value,
        _ => 0,
    }
}

/// Whether `y` lies in the part of the hypercube that a parcel to node `t`
/// is to reach when it is passed on across the low `rank` bits: the labels
/// that differ from `t` in those bits alone.
pub open spec fn in_cube(t: u16, rank: u16, y: u16) -> bool {
    (y ^ t) < (1u16 << rank)
}

impl Casting {
    /// The nodes alone, with nothing under way.
    pub open spec fn net(self) -> Network {
        Network { nodes: self.nodes, under_way: Seq::empty() }
    }

    /// The label of the node that the `i`-th parcel is addressed to.
    pub open spec fn to(self, i: int) -> int {
        self.net().host(self.under_way[i].target)
    }

    /// The number of low bits across which the addressee of the `i`-th
    /// parcel passes it on.
    pub open spec fn rank(self, i: int) -> int {
        self.nodes[self.to(i)].span(self.under_way[i].sender)
    }

    /// Whether the `i`-th parcel is to reach node `y`, itself or passed on.
    pub open spec fn reaches(self, i: int, y: u16) -> bool {
        in_cube(self.to(i) as u16, self.rank(i) as u16, y)
    }

    /// The parcels in which a node, seen as `seen_as`, passes on what
    /// `forward` lists, after `hops` hops.
    pub open spec fn sent_on(
        seen_as: Identity,
        forward: Seq<(Identity, MessageView)>,
        hops: nat,
    ) -> Seq<Parcel> {
        Seq::new(
            forward.len(),
            |j: int|
                Parcel {
                    sender: seen_as,
                    target: forward[j].0,
                    value: cast_by(forward[j].1),
                    hops,
                },
        )
    }

    /// The broadcast after the `i`-th of the parcels under way was delivered:
    /// the node it is addressed to has served it, and what that node passes on
    /// is under way in its place, one hop further. A parcel to nobody is lost.
    pub open spec fn deliver(self, i: int) -> Casting
        recommends
            0 <= i < self.under_way.len(),
    {
        let parcel = self.under_way[i];
        let rest = self.under_way.remove(i);
        if self.net().hosts(parcel.target) {
            let n = self.to(i);
            let (next, _, forward) = self.nodes[n].step(
                parcel.sender,
                MessageView::Broadcast(parcel.value),
            );
            Casting {
                nodes: self.nodes.update(n, next),
                under_way: rest + Self::sent_on(parcel.target, forward, parcel.hops + 1),
            }
        } else {
            Casting { nodes: self.nodes, under_way: rest }
        }
    }

    /// The broadcast after the deliveries that `picks` names, one after the
    /// other.
    pub open spec fn run(self, picks: Seq<int>) -> Casting
        decreases picks.len(),
    {
        if picks.len() == 0 {
            self
        } else {
            self.run(picks.drop_last()).deliver(picks.last())
        }
    }

    /// Whether each of `picks` names, when its turn comes, a parcel that is
    /// under way.
    pub open spec fn orderly(self, picks: Seq<int>) -> bool
        decreases picks.len(),
    {
        picks.len() > 0 ==> self.orderly(picks.drop_last()) && 0 <= picks.last() < self.run(
            picks.drop_last(),
        ).under_way.len()
    }

    /// What holds at every moment of a broadcast of `value`.
    ///
    /// No node holds anything but the value. Every parcel under way carries
    /// the value to a node, and has made no more hops than leaves room for
    /// the bits it is still to cross. The parts of the hypercube that the
    /// parcels under way are to reach hold no node that has the value, no two
    /// of them have a node in common, and every node that has not got the
    /// value lies in one of them.
    pub open spec fn casting(self, d: u16, value: u32) -> bool {
        &&& self.net().settled(d)
        &&& value != 0
        &&& forall|n: int|
            0 <= n < self.nodes.len() ==> (#[trigger] self.nodes[n]).value() == 0
                || self.nodes[n].value() == value
        &&& forall|i: int|
            0 <= i < self.under_way.len() ==> {
                let parcel = #[trigger] self.under_way[i];
                &&& self.net().hosts(parcel.target)
                &&& parcel.value == value
                &&& 0 <= self.rank(i)
                &&& parcel.hops + self.rank(i) <= d
            }
        &&& forall|i: int, y: u16|
            0 <= i < self.under_way.len() && is_label(d, y as int) && #[trigger] self.reaches(i, y)
                ==> !self.nodes[y as int].visited()
        &&& forall|i: int, j: int, y: u16|
            0 <= i < self.under_way.len() && 0 <= j < self.under_way.len() && i != j
                && #[trigger] self.reaches(i, y) ==> !#[trigger] self.reaches(j, y)
        &&& forall|y: u16|
            is_label(d, y as int) && !(#[trigger] self.nodes[y as int]).visited() ==> exists|
                i: int,
            |
                0 <= i < self.under_way.len() && #[trigger] self.reaches(i, y)
    }

    /// Whether every node holds `value`.
    pub open spec fn all_hold(self, value: u32) -> bool {
        forall|n: int| 0 <= n < self.nodes.len() ==> (#[trigger] self.nodes[n]).value() == value
    }
}

/// A node lies in every part of the hypercube that is reached from it.
proof fn lemma_cube_self(t: u16, rank: u16)
    requires
        rank <= 15,
    ensures
        in_cube(t, rank, t),
{
    assert(rank <= 15 ==> (t ^ t) < (1u16 << rank)) by (bit_vector);
}

/// What is reached across bit `k` and then across the bits below lies in what
/// is reached across any bits beyond `k`, and is not the node itself.
proof fn lemma_cube_child(t: u16, y: u16, k: u16, rank: u16)
    requires
        k < rank <= 15,
        in_cube(flip(t, k), k, y),
    ensures
        in_cube(t, rank, y),
        y != t,
{
    assert(k < rank && rank <= 15 && (y ^ (t ^ (1u16 << k))) < (1u16 << k) ==> (y ^ t) < (1u16
        << rank) && y != t) by (bit_vector);
}

/// What is reached across one bit and then across the bits below is not
/// reached across another bit and then across the bits below that.
proof fn lemma_cube_children_apart(t: u16, y: u16, j: u16, k: u16)
    requires
        j < 16,
        k < 16,
        j != k,
    ensures
        !(in_cube(flip(t, j), j, y) && in_cube(flip(t, k), k, y)),
{
    assert(j < 16 && k < 16 && j != k ==> !((y ^ (t ^ (1u16 << j))) < (1u16 << j) && (y ^ (t ^ (1u16
        << k))) < (1u16 << k))) by (bit_vector);
}

/// Whatever is reached from a node across the low `rank` bits, but the node
/// itself, is reached across one of those bits and then across the bits below
/// it.
proof fn lemma_cube_split(t: u16, y: u16, rank: u16) -> (k: u16)
    requires
        rank <= 15,
        in_cube(t, rank, y),
        y != t,
    ensures
        k < rank,
        in_cube(flip(t, k), k, y),
    decreases rank,
{
    if rank == 0 {
        assert((y ^ t) < (1u16 << 0u16) ==> y == t) by (bit_vector);
        0
    } else {
        let below = (rank - 1) as u16;
        if in_cube(t, below, y) {
            lemma_cube_split(t, y, below)
        } else {
            assert(rank <= 15 && below == rank - 1 && (y ^ t) < (1u16 << rank) && !((y ^ t) < (1u16
                << below)) ==> (y ^ (t ^ (1u16 << below))) < (1u16 << below)) by (bit_vector);
            below
        }
    }
}

/// Every label is reached from every other across all bits of the dimension.
proof fn lemma_cube_whole(d: u16, t: u16, y: u16)
    requires
        d <= 15,
        is_label(d, t as int),
        is_label(d, y as int),
    ensures
        in_cube(t, d, y),
{
    lemma_node_count_is_shift(d);
    assert(d <= 15 && t < (1u16 << d) && y < (1u16 << d) ==> (y ^ t) < (1u16 << d))
        by (bit_vector);
}

/// What is reached from a label across bits below the dimension is a label.
proof fn lemma_cube_labels(d: u16, t: u16, rank: u16, y: u16)
    requires
        rank <= d <= 15,
        is_label(d, t as int),
        in_cube(t, rank, y),
    ensures
        is_label(d, y as int),
{
    lemma_node_count_is_shift(d);
    assert(rank <= d && d <= 15 && t < (1u16 << d) && (y ^ t) < (1u16 << rank) ==> y < (1u16
        << d)) by (bit_vector);
}

/// A node passes a broadcast from the neighbour across bit `k` on across the
/// bits below `k`.
proof fn lemma_span_of_neighbor(net: Network, d: u16, y: int, k: u16)
    requires
        net.settled(d),
        0 <= y < net.nodes.len(),
        k < d,
    ensures
        net.nodes[y].span(net.nodes[flip(y as u16, k) as int].identity.endpoint()) == k,
{
    let node = net.nodes[y];
    let sender = net.nodes[flip(y as u16, k) as int].identity.endpoint();
    lemma_node_count_is_shift(d);
    lemma_flip_is_label(d, y as u16, k);
    lemma_span(node, sender, d as int);
    let s = node.span(sender);
    assert(node.reach() == d);
    assert(node.node.peers[flip(y as u16, k) as u32] == sender);
    if s < d {
        let b = s as u16;
        lemma_flip_is_label(d, y as u16, b);
        assert(node.node.peers[flip(y as u16, b) as u32] == net.nodes[flip(
            y as u16,
            b,
        ) as int].identity.endpoint());
        assert(net.nodes[flip(y as u16, b) as int].identity.endpoint() == net.nodes[flip(
            y as u16,
            k,
        ) as int].identity.endpoint());
        if b != k {
            lemma_flip_distinct(y as u16, b, k);
        }
    }
}

/// A node passes a broadcast from somebody who is no node on across every
/// bit of the dimension.
proof fn lemma_span_of_stranger(net: Network, d: u16, y: int, sender: Identity)
    requires
        net.settled(d),
        0 <= y < net.nodes.len(),
        !net.hosts(sender),
    ensures
        net.nodes[y].span(sender) == d,
{
    let node = net.nodes[y];
    lemma_node_count_is_shift(d);
    lemma_span(node, sender, d as int);
    let s = node.span(sender);
    if s < d {
        let b = s as u16;
        lemma_flip_is_label(d, y as u16, b);
        assert(net.nodes[flip(y as u16, b) as int].identity.endpoint() == sender);
    }
}

/// Where each neighbour across the low `rank` bits is known and is not the
/// sender, what is passed on across those bits goes to each of them, in the
/// order of the bits.
proof fn lemma_spread_exact(node: HypernodeView, sender: Identity, rank: int)
    requires
        0 <= rank <= 16,
        forall|b: u16|
            b < rank ==> node.node.peers.contains_key(#[trigger] flip(node.identity.id, b) as u32)
                && node.node.peers[flip(node.identity.id, b) as u32] != sender,
    ensures
        node.relay_upto(sender, rank).len() == rank,
        forall|k: int|
            0 <= k < rank ==> #[trigger] node.relay_upto(sender, rank)[k] == node.node.peers[flip(
                node.identity.id,
                k as u16,
            ) as u32],
    decreases rank,
{
    if rank > 0 {
        lemma_spread_exact(node, sender, rank - 1);
        let last = (rank - 1) as u16;
        assert(node.node.peers.contains_key(flip(node.identity.id, last) as u32));
    }
}

/// What a node holds makes no difference to where it passes a broadcast on
/// to.
proof fn lemma_span_holding(node: HypernodeView, sender: Identity, value: u32, k: int)
    ensures
        node.holding(value).span_upto(sender, k) == node.span_upto(sender, k),
    decreases k,
{
    if k > 0 {
        lemma_span_holding(node, sender, value, k - 1);
    }
}

/// Where two networks have the same nodes at the same addresses, the same
/// node listens at an address in both.
proof fn lemma_hosts_alike(a: Network, b: Network, d: u16, target: Identity)
    requires
        a.settled(d),
        b.settled(d),
        forall|m: int|
            0 <= m < a.nodes.len() ==> (#[trigger] a.nodes[m]).identity == b.nodes[m].identity,
    ensures
        a.hosts(target) == b.hosts(target),
        a.hosts(target) ==> a.host(target) == b.host(target),
{
    if a.hosts(target) {
        let m = a.host(target);
        assert(b.nodes[m].identity.endpoint() == target);
        lemma_host(b, d, m);
    }
    if b.hosts(target) {
        let m = b.host(target);
        assert(a.nodes[m].identity.endpoint() == target);
    }
}

/// The place that the `j`-th of the parcels left after the `i`-th was taken
/// away had before.
pub open spec fn place_before(i: int, j: int) -> int {
    if j < i {
        j
    } else {
        j + 1
    }
}

/// What a delivery during a broadcast comes to: the node that the parcel is
/// addressed to had not got the value, takes it and stays what it was in
/// every other way; no other node changes; the other parcels stay as they
/// are; and one new parcel goes to the neighbour across each of the bits that
/// the parcel was still to cross, to be passed on across the bits below.
proof fn lemma_cast_delivery(c: Casting, d: u16, value: u32, i: int)
    requires
        c.casting(d, value),
        0 <= i < c.under_way.len(),
    ensures
        ({
            let parcel = c.under_way[i];
            let t = c.to(i);
            let r = c.rank(i);
            let after = c.deliver(i);
            let rest = c.under_way.remove(i);
            &&& 0 <= t < c.nodes.len()
            &&& c.nodes[t].identity.endpoint() == parcel.target
            &&& !c.nodes[t].visited()
            &&& 0 <= r <= d
            &&& after.nodes == c.nodes.update(t, c.nodes[t].holding(value))
            &&& after.net().settled(d)
            &&& unvisited(after.nodes) + 1 == unvisited(c.nodes)
            &&& after.under_way.len() == rest.len() + r
            &&& forall|j: int|
                0 <= j < rest.len() ==> #[trigger] after.under_way[j] == c.under_way[place_before(
                    i,
                    j,
                )] && after.to(j) == c.to(place_before(i, j)) && after.rank(j) == c.rank(
                    place_before(i, j),
                )
            &&& forall|k: int|
                0 <= k < r ==> #[trigger] after.under_way[rest.len() + k] == (Parcel {
                    sender: parcel.target,
                    target: c.nodes[flip(t as u16, k as u16) as int].identity.endpoint(),
                    value,
                    hops: parcel.hops + 1,
                }) && after.to(rest.len() + k) == flip(t as u16, k as u16) && after.rank(
                    rest.len() + k,
                ) == k
        }),
{
    let parcel = c.under_way[i];
    let t = c.to(i);
    let r = c.rank(i);
    let after = c.deliver(i);
    let rest = c.under_way.remove(i);
    let node = c.nodes[t];
    let next = node.holding(value);
    lemma_node_count_is_shift(d);
    assert(c.net().hosts(parcel.target));
    assert(0 <= t < c.nodes.len() && c.nodes[t].identity.endpoint() == parcel.target);
    assert(node.reach() == d);
    lemma_span(node, parcel.sender, d as int);
    lemma_cube_self(t as u16, r as u16);
    assert(c.reaches(i, t as u16));
    assert(!node.visited());
    assert forall|b: u16| b < r implies node.node.peers.contains_key(
        #[trigger] flip(node.identity.id, b) as u32,
    ) && node.node.peers[flip(node.identity.id, b) as u32] != parcel.sender by {
        assert(node.node.peers.contains_key(flip(t as u16, b) as u32));
    }
    lemma_spread_exact(node, parcel.sender, r);
    let (stepped, _, forward) = node.step(parcel.sender, MessageView::Broadcast(parcel.value));
    assert(stepped == next);
    assert(forward.len() == r);
    let fresh = Casting::sent_on(parcel.target, forward, parcel.hops + 1);
    assert(after.under_way == rest + fresh);
    assert(after.nodes == c.nodes.update(t, next));
    lemma_unvisited_update(c.nodes, t, next);

    let here = c.net();
    let there = after.net();
    assert(there.settled(d)) by {
        assert forall|m: int| 0 <= m < there.nodes.len() implies (
        #[trigger] there.nodes[m]).identity == here.nodes[m].identity && there.nodes[m].d
            == here.nodes[m].d && there.nodes[m].node.peers == here.nodes[m].node.peers by {}
        assert forall|a: int, b: int|
            0 <= a < there.nodes.len() && 0 <= b < there.nodes.len() && (
            #[trigger] there.nodes[a]).identity.endpoint() == (
            #[trigger] there.nodes[b]).identity.endpoint() implies a == b by {
            assert(here.nodes[a].identity.endpoint() == here.nodes[b].identity.endpoint());
        }
        assert forall|m: int, k: u16|
            0 <= m < there.nodes.len() && k < d implies there.nodes[m].node.peers.contains_key(
            #[trigger] flip(m as u16, k) as u32,
        ) && there.nodes[m].node.peers[flip(m as u16, k) as u32] == there.nodes[flip(
            m as u16,
            k,
        ) as int].identity.endpoint() by {
            lemma_flip_is_label(d, m as u16, k);
            assert(there.nodes[m].node.peers == here.nodes[m].node.peers);
            assert(there.nodes[flip(m as u16, k) as int].identity == here.nodes[flip(
                m as u16,
                k,
            ) as int].identity);
        }
    }
    assert forall|m: int| 0 <= m < here.nodes.len() implies (#[trigger] here.nodes[m]).identity
        == there.nodes[m].identity by {}
    assert forall|m: int, sender: Identity| 0 <= m < here.nodes.len() implies (
    #[trigger] there.nodes[m].span(sender)) == here.nodes[m].span(sender) by {
        if m == t {
            lemma_span_holding(node, sender, value, d as int);
        }
    }
    assert forall|j: int| 0 <= j < rest.len() implies #[trigger] after.under_way[j]
        == c.under_way[place_before(i, j)] && after.to(j) == c.to(place_before(i, j))
        && after.rank(j) == c.rank(place_before(i, j)) by {
        let p = place_before(i, j);
        assert(after.under_way[j] == c.under_way[p]);
        assert(here.hosts(c.under_way[p].target));
        lemma_hosts_alike(here, there, d, c.under_way[p].target);
        assert(there.nodes[c.to(p)].span(c.under_way[p].sender) == here.nodes[c.to(p)].span(
            c.under_way[p].sender,
        ));
    }
    assert forall|k: int| 0 <= k < r implies #[trigger] after.under_way[rest.len() + k] == (Parcel {
        sender: parcel.target,
        target: c.nodes[flip(t as u16, k as u16) as int].identity.endpoint(),
        value,
        hops: parcel.hops + 1,
    }) && after.to(rest.len() + k) == flip(t as u16, k as u16) && after.rank(rest.len() + k)
        == k by {
        let y = flip(t as u16, k as u16);
        lemma_flip_is_label(d, t as u16, k as u16);
        lemma_flip_twice(t as u16, k as u16);
        assert(after.under_way[rest.len() + k] == fresh[k]);
        assert(forward[k].0 == node.relay_upto(parcel.sender, r)[k]);
        assert(node.node.peers[flip(t as u16, k as u16) as u32]
            == c.nodes[y as int].identity.endpoint());
        lemma_host(there, d, y as int);
        assert(there.nodes[y as int].identity == here.nodes[y as int].identity);
        lemma_span_of_neighbor(there, d, y as int, k as u16);
        assert(there.nodes[flip(y, k as u16) as int].identity == node.identity);
    }
}

/// What holds at every moment of a broadcast still holds after any one of
/// the parcels under way was delivered; the delivery hands the value to a node
/// that had not got it, so that one node less is without it; and the parcel
/// had made no more hops between nodes than the hypercube has dimensions.
pub proof fn lemma_broadcast_goes_on(c: Casting, d: u16, value: u32, i: int)
    requires
        c.casting(d, value),
        0 <= i < c.under_way.len(),
    ensures
        c.deliver(i).casting(d, value),
        !c.nodes[c.to(i)].visited(),
        c.deliver(i).nodes[c.to(i)].value() == value,
        unvisited(c.deliver(i).nodes) + 1 == unvisited(c.nodes),
        c.under_way[i].hops <= d,
{
    lemma_cast_delivery(c, d, value, i);
    lemma_node_count_is_shift(d);
    let parcel = c.under_way[i];
    let t = c.to(i);
    let r = c.rank(i);
    let after = c.deliver(i);
    let rest = c.under_way.remove(i);
    let split = rest.len() as int;

    assert forall|j: int| 0 <= j < after.under_way.len() implies {
        let p = #[trigger] after.under_way[j];
        &&& after.net().hosts(p.target)
        &&& p.value == value
        &&& 0 <= after.rank(j)
        &&& p.hops + after.rank(j) <= d
    } by {
        if j < split {
            let b = place_before(i, j);
            assert(after.under_way[j] == c.under_way[b]);
            assert(c.net().hosts(c.under_way[b].target));
            lemma_hosts_alike(c.net(), after.net(), d, c.under_way[b].target);
        } else {
            let k = j - split;
            assert(after.under_way[split + k].hops == parcel.hops + 1);
            lemma_flip_is_label(d, t as u16, k as u16);
            lemma_host(after.net(), d, flip(t as u16, k as u16) as int);
        }
    }

    // whatever a parcel is to reach afterwards, the parcel it came from was to
    // reach before, and it is not the node that has just got the value
    assert forall|j: int, y: u16|
        0 <= j < after.under_way.len() && #[trigger] after.reaches(j, y) implies y != t && if j
        < split {
        c.reaches(place_before(i, j), y)
    } else {
        c.reaches(i, y)
    } by {
        if j < split {
            let b = place_before(i, j);
            assert(after.under_way[j] == c.under_way[b]);
            assert(c.reaches(b, y));
            if y == t {
                lemma_cube_self(t as u16, r as u16);
                assert(c.reaches(i, t as u16));
                assert(false);
            }
        } else {
            let k = j - split;
            assert(after.under_way[split + k].hops == parcel.hops + 1);
            lemma_cube_child(t as u16, y, k as u16, r as u16);
        }
    }

    assert forall|j: int, y: u16|
        0 <= j < after.under_way.len() && is_label(d, y as int) && #[trigger] after.reaches(
            j,
            y,
        ) implies !after.nodes[y as int].visited() by {
        if j < split {
            assert(c.reaches(place_before(i, j), y));
        } else {
            assert(c.reaches(i, y));
        }
    }

    assert forall|a: int, b: int, y: u16|
        0 <= a < after.under_way.len() && 0 <= b < after.under_way.len() && a != b
            && #[trigger] after.reaches(a, y) implies !#[trigger] after.reaches(b, y) by {
        if after.reaches(b, y) {
            if a < split && b < split {
                assert(c.reaches(place_before(i, a), y));
                assert(c.reaches(place_before(i, b), y));
                assert(false);
            } else if a < split {
                assert(c.reaches(place_before(i, a), y));
                assert(c.reaches(i, y));
                assert(false);
            } else if b < split {
                assert(c.reaches(place_before(i, b), y));
                assert(c.reaches(i, y));
                assert(false);
            } else {
                let ka = a - split;
                let kb = b - split;
                assert(after.under_way[split + ka].hops == parcel.hops + 1);
                assert(after.under_way[split + kb].hops == parcel.hops + 1);
                lemma_cube_children_apart(t as u16, y, ka as u16, kb as u16);
            }
        }
    }

    assert forall|y: u16|
        is_label(d, y as int) && !(#[trigger] after.nodes[y as int]).visited() implies exists|
        j: int,
    |
        0 <= j < after.under_way.len() && #[trigger] after.reaches(j, y) by {
        assert(y != t);
        assert(!c.nodes[y as int].visited());
        let b = choose|b: int| 0 <= b < c.under_way.len() && #[trigger] c.reaches(b, y);
        if b == i {
            let k = lemma_cube_split(t as u16, y, r as u16);
            assert(after.under_way[split + k].hops == parcel.hops + 1);
            assert(after.reaches(split + k, y));
        } else {
            let j = if b < i {
                b
            } else {
                b - 1
            };
            assert(place_before(i, j) == b);
            assert(after.under_way[j] == c.under_way[b]);
            assert(after.reaches(j, y));
        }
    }
}

/// A broadcast begins: when no node holds anything, and somebody who is no
/// node sends a value that is not zero to one of them, what holds at every
/// moment of a broadcast holds.
pub proof fn lemma_broadcast_begins(
    nodes: Seq<HypernodeView>,
    d: u16,
    from: u16,
    coordinator: Identity,
    value: u32,
)
    requires
        (Network { nodes, under_way: Seq::empty() }).settled(d),
        forall|n: int| 0 <= n < nodes.len() ==> !(#[trigger] nodes[n]).visited(),
        is_label(d, from as int),
        !(Network { nodes, under_way: Seq::empty() }).hosts(coordinator),
        value != 0,
    ensures
        (Casting {
            nodes,
            under_way: seq![
                Parcel {
                    sender: coordinator,
                    target: nodes[from as int].identity.endpoint(),
                    value,
                    hops: 0,
                },
            ],
        }).casting(d, value),
{
    let c = Casting {
        nodes,
        under_way: seq![
            Parcel {
                sender: coordinator,
                target: nodes[from as int].identity.endpoint(),
                value,
                hops: 0,
            },
        ],
    };
    lemma_node_count_is_shift(d);
    assert(c.net() == (Network { nodes, under_way: Seq::empty() }));
    lemma_host(c.net(), d, from as int);
    lemma_span_of_stranger(c.net(), d, from as int, coordinator);
    assert(c.to(0) == from);
    assert(c.rank(0) == d);
    assert forall|y: u16| is_label(d, y as int) implies #[trigger] c.reaches(0, y) by {
        lemma_cube_whole(d, from, y);
    }
    assert forall|y: u16|
        is_label(d, y as int) && !(#[trigger] c.nodes[y as int]).visited() implies exists|i: int|
        0 <= i < c.under_way.len() && #[trigger] c.reaches(i, y) by {
        assert(c.reaches(0, y));
    }
    assert forall|i: int| 0 <= i < c.under_way.len() implies {
        let parcel = #[trigger] c.under_way[i];
        &&& c.net().hosts(parcel.target)
        &&& parcel.value == value
        &&& 0 <= c.rank(i)
        &&& parcel.hops + c.rank(i) <= d
    } by {
        assert(i == 0);
    }
}

/// Whatever the order of the deliveries: a broadcast hands the value to one
/// more node with each delivery, so it takes no more deliveries than there
/// are nodes without the value; what holds at every moment of a broadcast
/// holds after each; and once nothing is under way every node holds the value.
pub proof fn lemma_broadcast_converges(c: Casting, d: u16, value: u32, picks: Seq<int>)
    requires
        c.casting(d, value),
        c.orderly(picks),
    ensures
        c.run(picks).casting(d, value),
        picks.len() + unvisited(c.run(picks).nodes) == unvisited(c.nodes),
        c.run(picks).under_way.len() == 0 ==> c.run(picks).all_hold(value),
    decreases picks.len(),
{
    if picks.len() > 0 {
        let before = c.run(picks.drop_last());
        lemma_broadcast_converges(c, d, value, picks.drop_last());
        lemma_broadcast_goes_on(before, d, value, picks.last());
    }
    let end = c.run(picks);
    if end.under_way.len() == 0 {
        lemma_node_count_is_shift(d);
        assert forall|n: int| 0 <= n < end.nodes.len() implies (#[trigger] end.nodes[n]).value()
            == value by {
            if !end.nodes[n].visited() {
                assert(is_label(d, n as u16 as int));
                assert(!end.nodes[n as u16 as int].visited());
            }
        }
    }
}

/// How many messages a broadcast takes: where it begins as
/// `lemma_broadcast_begins` says, no more parcels are delivered than there are
/// nodes, the seed among them; so the nodes send each other no more than one
/// for each two ends of an edge of the hypercube, `d * 2^(d-1)`.
pub proof fn lemma_broadcast_message_bound(
    nodes: Seq<HypernodeView>,
    d: u16,
    from: u16,
    coordinator: Identity,
    value: u32,
    picks: Seq<int>,
)
    requires
        (Network { nodes, under_way: Seq::empty() }).settled(d),
        forall|n: int| 0 <= n < nodes.len() ==> !(#[trigger] nodes[n]).visited(),
        is_label(d, from as int),
        !(Network { nodes, under_way: Seq::empty() }).hosts(coordinator),
        value != 0,
        (Casting {
            nodes,
            under_way: seq![
                Parcel {
                    sender: coordinator,
                    target: nodes[from as int].identity.endpoint(),
                    value,
                    hops: 0,
                },
            ],
        }).orderly(picks),
    ensures
        picks.len() <= node_count(d),
        2 * (picks.len() - 1) <= d * node_count(d),
{
    let c = Casting {
        nodes,
        under_way: seq![
            Parcel {
                sender: coordinator,
                target: nodes[from as int].identity.endpoint(),
                value,
                hops: 0,
            },
        ],
    };
    lemma_broadcast_begins(nodes, d, from, coordinator, value);
    lemma_broadcast_converges(c, d, value, picks);
    lemma_unvisited_bound(nodes);
    let count = node_count(d) as int;
    vstd::arithmetic::power2::lemma2_to64();
    vstd::arithmetic::power2::lemma_pow2_pos(d as nat);
    if d >= 2 {
        assert(2 * count <= d * count) by (nonlinear_arith)
            requires
                d >= 2,
                count >= 1,
        ;
    } else if d == 1 {
        assert(count == 2);
        assert(d * count == 2) by (nonlinear_arith)
            requires
                d == 1,
                count == 2,
        ;
    } else {
        assert(count == 1);
        assert(d * count == 0) by (nonlinear_arith)
            requires
                d == 0,
        ;
    }
}

/// The broadcast at its beginning: `coordinator` has sent `value` to node
/// `from`, and nothing else is under way.
pub open spec fn begun(
    nodes: Seq<HypernodeView>,
    from: u16,
    coordinator: Identity,
    value: u32,
) -> Casting {
    Casting {
        nodes,
        under_way: seq![
            Parcel {
                sender: coordinator,
                target: nodes[from as int].identity.endpoint(),
                value,
                hops: 0,
            },
        ],
    }
}

/// A broadcast over a topology: where every node was started and then told
/// of its neighbours, and somebody who is no node sends a value that is not
/// zero to node `from`, then, whatever the order of the deliveries,
///
/// - no more parcels are delivered than there are nodes, the seed among
///   them, so the nodes send each other no more than `d * 2^(d-1)`;
/// - every parcel under way has made no more than `d` hops between nodes;
/// - once nothing is under way, every node holds the value.
pub proof fn lemma_broadcast_of_topology(
    cube: HypercubeView,
    nodes: Seq<HypernodeView>,
    teller: Identity,
    from: u16,
    coordinator: Identity,
    value: u32,
    picks: Seq<int>,
)
    requires
        cube.wf(),
        nodes.len() == cube.registry.len(),
        forall|n: int|
            0 <= n < nodes.len() ==> #[trigger] nodes[n] == HypernodeView::started(
                cube.registry[n],
                cube.d,
            ).step(teller, MessageView::SetPeerInfo(cube.peers_of(n))).0,
        is_label(cube.d, from as int),
        !(Network { nodes, under_way: Seq::empty() }).hosts(coordinator),
        value != 0,
        begun(nodes, from, coordinator, value).orderly(picks),
    ensures
        picks.len() <= node_count(cube.d),
        2 * (picks.len() - 1) <= cube.d * node_count(cube.d),
        forall|i: int|
            0 <= i < begun(nodes, from, coordinator, value).run(picks).under_way.len() ==> (
            #[trigger] begun(nodes, from, coordinator, value).run(picks).under_way[i]).hops
                <= cube.d,
        begun(nodes, from, coordinator, value).run(picks).under_way.len() == 0 ==> begun(
            nodes,
            from,
            coordinator,
            value,
        ).run(picks).all_hold(value),
{
    lemma_launched_is_settled(cube, nodes, teller);
    lemma_broadcast_begins(nodes, cube.d, from, coordinator, value);
    lemma_broadcast_message_bound(nodes, cube.d, from, coordinator, value, picks);
    lemma_broadcast_converges(begun(nodes, from, coordinator, value), cube.d, value, picks);
}

} // verus!
