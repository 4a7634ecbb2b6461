//! The messages that nodes and the coordinator exchange.

use crate::address::IpAddr;
use crate::text::{address_text, format_address};
use std::collections::HashMap;
use vstd::prelude::*;

verus! {

/// Size in bytes of the largest message that can be sent over the network.
pub const MAX_MESSAGE_SIZE: usize = 1024;

/// A node as another node is told of it: its label and where it listens.
#[derive(Clone, Copy, Debug, PartialEq, Eq, Structural)]
pub struct Peer {
    pub label: u32,
    pub ip: IpAddr,
    pub port: u16,
}

/// Where a node listens.
#[derive(Clone, Copy, Debug, PartialEq, Eq, Structural)]
pub struct Identity {
    pub ip: IpAddr,
    pub port: u16,
}

/// One request or one response. Every message stands for itself: none refers
/// to an earlier one.
#[derive(Debug, PartialEq, Eq)]
pub enum Message {
    /// Response: the request was carried out.
    Okay,
    /// Response: the request failed, with a description for a human reader.
    Error(String),
    /// Request: is the node alive?
    Ping,
    /// Response to `Ping`.
    Pong,
    /// Request: overwrite the entries of the peer table for these labels.
    SetPeerInfo(Vec<Peer>),
    /// Request: the whole peer table.
    GetPeerInfo,
    /// Response to `GetPeerInfo`.
    PeerInfo(HashMap<u32, Identity>),
    /// Request: the node's value.
    GetValue,
    /// Response to `GetValue`. As a request it asks for the value too, and
    /// what it carries is not looked at.
    Value(u32),
    /// Request: one step of a flood, carrying the sender's value.
    Propagate(u32),
    /// Request: one step of a broadcast, carrying the value that every node
    /// is to hold. A flood and a broadcast treat a repeated arrival in
    /// different ways, so each has a message of its own.
    Broadcast(u32),
}

/// A message as mathematics: text as characters, a list as a sequence, a
/// table as a map.
pub enum MessageView {
    Okay,
    Error(Seq<char>),
    Ping,
    Pong,
    SetPeerInfo(Seq<Peer>),
    GetPeerInfo,
    PeerInfo(Map<u32, Identity>),
    GetValue,
    Value(u32),
    Propagate(u32),
    Broadcast(u32),
}

impl View for Message {
    type V = MessageView;

    open spec fn view(&self) -> MessageView {
        match *self {
            Message::Okay => MessageView::Okay,
            Message::Error(text) => MessageView::Error(text@),
            Message::Ping => MessageView::Ping,
            Message::Pong => MessageView::Pong,
            Message::SetPeerInfo(peers) => MessageView::SetPeerInfo(peers@),
            Message::GetPeerInfo => MessageView::GetPeerInfo,
            Message::PeerInfo(table) => MessageView::PeerInfo(table@),
            Message::GetValue => MessageView::GetValue,
            Message::Value(value) => MessageView::Value(value),
            Message::Propagate(value) => MessageView::Propagate(value),
            Message::Broadcast(value) => MessageView::Broadcast(value),
        }
    }
}

/// The peer table after the entries of `peers` were written over `table`, one
/// after the other: for a label that occurs twice the later entry stays.
pub open spec fn merge_peers(table: Map<u32, Identity>, peers: Seq<Peer>) -> Map<u32, Identity>
    decreases peers.len(),
{
    if peers.len() == 0 {
        table
    } else {
        merge_peers(table, peers.drop_last()).insert(
            peers.last().label,
            peers.last().spec_identity(),
        )
    }
}

/// Whether no label occurs twice in `listing`.
pub open spec fn distinct_labels(listing: Seq<Peer>) -> bool {
    forall|i: int, j: int| 0 <= i < j < listing.len() ==> listing[i].label != listing[j].label
}

/// The peer table that holds exactly the entries of `listing`.
pub open spec fn table_of(listing: Seq<Peer>) -> Map<u32, Identity> {
    merge_peers(Map::empty(), listing)
}

/// Whether `listing` names each entry of `table` once and nothing else.
pub open spec fn lists(listing: Seq<Peer>, table: Map<u32, Identity>) -> bool {
    distinct_labels(listing) && table_of(listing) == table
}

/// Writing peers over a table leaves alone every label that none of them
/// names.
pub proof fn lemma_merge_peers_untouched(table: Map<u32, Identity>, peers: Seq<Peer>, label: u32)
    requires
        forall|i: int| 0 <= i < peers.len() ==> peers[i].label != label,
    ensures
        merge_peers(table, peers).contains_key(label) <==> table.contains_key(label),
        merge_peers(table, peers)[label] == table[label],
    decreases peers.len(),
{
    if peers.len() > 0 {
        lemma_merge_peers_untouched(table, peers.drop_last(), label);
    }
}

/// After peers were written over a table, a label that one of them names
/// holds what the last entry naming it says.
pub proof fn lemma_merge_peers_last(table: Map<u32, Identity>, peers: Seq<Peer>, i: int)
    requires
        0 <= i < peers.len(),
        forall|j: int| i < j < peers.len() ==> peers[j].label != peers[i].label,
    ensures
        merge_peers(table, peers).contains_key(peers[i].label),
        merge_peers(table, peers)[peers[i].label] == peers[i].spec_identity(),
    decreases peers.len(),
{
    if i < peers.len() - 1 {
        lemma_merge_peers_last(table, peers.drop_last(), i);
    }
}

/// The labels of the table made from a listing are the labels listed.
pub proof fn lemma_table_of_dom(listing: Seq<Peer>)
    ensures
        table_of(listing).dom() =~= listing.map_values(|p: Peer| p.label).to_set(),
        table_of(listing).dom().finite(),
    decreases listing.len(),
{
    let labels = listing.map_values(|p: Peer| p.label);
    if listing.len() > 0 {
        lemma_table_of_dom(listing.drop_last());
        let before = listing.drop_last().map_values(|p: Peer| p.label);
        assert(labels.to_set() =~= before.to_set().insert(listing.last().label)) by {
            assert forall|l: u32| labels.to_set().contains(l) implies before.to_set().insert(
                listing.last().label,
            ).contains(l) by {
                let i = choose|i: int| 0 <= i < labels.len() && labels[i] == l;
                if i < before.len() {
                    assert(before[i] == l);
                }
            }
            let grown = before.to_set().insert(listing.last().label);
            assert forall|l: u32| grown.contains(l) implies labels.to_set().contains(l) by {
                if l == listing.last().label {
                    assert(labels[labels.len() - 1] == l);
                } else {
                    let i = choose|i: int| 0 <= i < before.len() && before[i] == l;
                    assert(labels[i] == l);
                }
            }
        }
    }
}

/// A table made from a listing without repeated labels has one entry per
/// entry listed, and each label holds what its entry says.
pub proof fn lemma_table_of_distinct(listing: Seq<Peer>)
    requires
        distinct_labels(listing),
    ensures
        table_of(listing).dom().finite(),
        table_of(listing).len() == listing.len(),
        forall|i: int|
            0 <= i < listing.len() ==> table_of(listing).contains_key(
                (#[trigger] listing[i]).label,
            ) && table_of(listing)[listing[i].label] == listing[i].spec_identity(),
{
    lemma_table_of_dom(listing);
    let labels = listing.map_values(|p: Peer| p.label);
    labels.unique_seq_to_set();
    assert forall|i: int| 0 <= i < listing.len() implies table_of(listing).contains_key(
        (#[trigger] listing[i]).label,
    ) && table_of(listing)[listing[i].label] == listing[i].spec_identity() by {
        lemma_merge_peers_last(Map::empty(), listing, i);
    }
}

impl Peer {
    /// Where the peer listens.
    pub open spec fn spec_identity(self) -> Identity {
        Identity { ip: self.ip, port: self.port }
    }

    /// Where the peer listens.
    pub fn identity(&self) -> (identity: Identity)
        ensures
            identity == self.spec_identity(),
    {
        Identity { ip: self.ip, port: self.port }
    }
}

impl Identity {
    /// The address `ip`, port `port`.
    pub fn new(ip: IpAddr, port: u16) -> (identity: Identity)
        ensures
            identity.ip == ip,
            identity.port == port,
    {
        Identity { ip, port }
    }

    /// The address as text: the IP address, a colon, the port.
    pub fn address(&self) -> (text: String)
        ensures
            text@ == address_text(self.ip, self.port),
    {
        format_address(self.ip, self.port)
    }
}

} // verus!
