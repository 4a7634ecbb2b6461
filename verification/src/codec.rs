//! The wire format: one message, one frame.
//!
//! A frame is a tag byte followed by the payload of the message it stands for.
//! Numbers are little-endian. Text is UTF-8 and runs to the end of the frame.
//! A peer takes `PEER_LEN` bytes: label, address family, address, port. A
//! list of peers is its peers one after the other, up to the end of the frame.
//! No frame is longer than `MAX_MESSAGE_SIZE` bytes.

use crate::address::IpAddr;
use crate::protocol::{
    distinct_labels, lemma_table_of_distinct, lemma_table_of_dom, lists, table_of, Identity,
    Message, MessageView, Peer, MAX_MESSAGE_SIZE,
};
use std::collections::HashMap;
use vstd::bytes::*;
use vstd::prelude::*;
use vstd::slice::{slice_subrange, slice_to_vec};
use vstd::std_specs::hash::*;
use vstd::std_specs::iter::IteratorSpec;
use vstd::string::StringSliceAdditionalSpecFns;
use vstd::utf8::{
    decode_utf8, decode_utf8_encode_utf8, encode_utf8, encode_utf8_decode_utf8,
    encode_utf8_valid_utf8, valid_utf8,
};

verus! {

broadcast use group_hash_axioms;

/// Why bytes were not turned into a message, or a message not into bytes.
#[derive(Clone, Copy, Debug, PartialEq, Eq, Structural)]
pub enum CodecError {
    /// The frame is, or would be, longer than `MAX_MESSAGE_SIZE`.
    FrameTooLarge,
    /// The bytes are no frame.
    MalformedFrame,
}

/// The tag of `Okay`.
pub const TAG_OKAY: u8 = 0;

/// The tag of `Error`.
pub const TAG_ERROR: u8 = 1;

/// The tag of `Ping`.
pub const TAG_PING: u8 = 2;

/// The tag of `Pong`.
pub const TAG_PONG: u8 = 3;

/// The tag of `SetPeerInfo`.
pub const TAG_SET_PEER_INFO: u8 = 4;

/// The tag of `GetPeerInfo`.
pub const TAG_GET_PEER_INFO: u8 = 5;

/// The tag of `PeerInfo`.
pub const TAG_PEER_INFO: u8 = 6;

/// The tag of `GetValue`.
pub const TAG_GET_VALUE: u8 = 7;

/// The tag of `Value`.
pub const TAG_VALUE: u8 = 8;

/// The tag of `Propagate`.
pub const TAG_PROPAGATE: u8 = 9;

/// The tag of `Broadcast`.
pub const TAG_BROADCAST: u8 = 10;

/// The byte that stands for an IPv4 address.
pub const FAMILY_V4: u8 = 4;

/// The byte that stands for an IPv6 address.
pub const FAMILY_V6: u8 = 6;

/// The number of bytes that one peer takes.
pub const PEER_LEN: usize = 23;

/// An address on the wire: its family, then its sixteen bytes. An IPv4
/// address fills the low four and leaves the others zero.
pub open spec fn address_bytes(ip: IpAddr) -> Seq<u8> {
    match ip {
        IpAddr::V4(bits) => seq![FAMILY_V4] + spec_u128_to_le_bytes(bits as u128),
        IpAddr::V6(bits) => seq![FAMILY_V6] + spec_u128_to_le_bytes(bits),
    }
}

/// A peer on the wire: label, address, port.
pub open spec fn peer_bytes(peer: Peer) -> Seq<u8> {
    spec_u32_to_le_bytes(peer.label) + address_bytes(peer.ip) + spec_u16_to_le_bytes(peer.port)
}

/// The address that a family byte and sixteen address bytes stand for, if any.
pub open spec fn parse_address(family: u8, bits: u128) -> Option<IpAddr> {
    if family == FAMILY_V4 && bits <= u32::MAX {
        Some(IpAddr::V4(bits as u32))
    } else if family == FAMILY_V6 {
        Some(IpAddr::V6(bits))
    } else {
        None
    }
}

/// The peer that `PEER_LEN` bytes stand for, if any.
pub open spec fn parse_peer(chunk: Seq<u8>) -> Option<Peer>
    recommends
        chunk.len() == PEER_LEN,
{
    match parse_address(chunk[4], spec_u128_from_le_bytes(chunk.subrange(5, 21))) {
        Some(ip) => Some(
            Peer {
                label: spec_u32_from_le_bytes(chunk.subrange(0, 4)),
                ip,
                port: spec_u16_from_le_bytes(chunk.subrange(21, 23)),
            },
        ),
        None => None,
    }
}

/// A peer's bytes are `PEER_LEN` long and stand for that peer.
pub proof fn lemma_parse_peer_bytes(peer: Peer)
    ensures
        peer_bytes(peer).len() == PEER_LEN,
        parse_peer(peer_bytes(peer)) == Some(peer),
{
    lemma_auto_spec_u16_to_from_le_bytes();
    lemma_auto_spec_u32_to_from_le_bytes();
    lemma_auto_spec_u128_to_from_le_bytes();
    let chunk = peer_bytes(peer);
    let bits: u128 = match peer.ip {
        IpAddr::V4(b) => b as u128,
        IpAddr::V6(b) => b,
    };
    assert(chunk.subrange(0, 4) =~= spec_u32_to_le_bytes(peer.label));
    assert(chunk.subrange(5, 21) =~= spec_u128_to_le_bytes(bits));
    assert(chunk.subrange(21, 23) =~= spec_u16_to_le_bytes(peer.port));
}

/// Bytes that stand for a peer are that peer's bytes.
pub proof fn lemma_peer_bytes_parse(chunk: Seq<u8>)
    requires
        chunk.len() == PEER_LEN,
        parse_peer(chunk) is Some,
    ensures
        peer_bytes(parse_peer(chunk)->0) == chunk,
{
    lemma_auto_spec_u16_to_from_le_bytes();
    lemma_auto_spec_u32_to_from_le_bytes();
    lemma_auto_spec_u128_to_from_le_bytes();
    let peer = parse_peer(chunk)->0;
    assert(address_bytes(peer.ip) =~= chunk.subrange(4, 21));
}

/// Appends a peer's bytes to `out`.
fn write_peer(out: &mut Vec<u8>, peer: &Peer)
    ensures
        final(out)@ == old(out)@ + peer_bytes(*peer),
{
    let mut label = u32_to_le_bytes(peer.label);
    out.append(&mut label);
    let mut bits = match peer.ip {
        IpAddr::V4(bits) => {
            out.push(FAMILY_V4);
            u128_to_le_bytes(bits as u128)
        },
        IpAddr::V6(bits) => {
            out.push(FAMILY_V6);
            u128_to_le_bytes(bits)
        },
    };
    out.append(&mut bits);
    let mut port = u16_to_le_bytes(peer.port);
    out.append(&mut port);
}

/// Reads the peer that the `PEER_LEN` bytes of `chunk` stand for.
fn read_peer(chunk: &[u8]) -> (peer: Option<Peer>)
    requires
        chunk@.len() == PEER_LEN,
    ensures
        peer == parse_peer(chunk@),
{
    let label = u32_from_le_bytes(slice_subrange(chunk, 0, 4));
    let family = chunk[4];
    let bits = u128_from_le_bytes(slice_subrange(chunk, 5, 21));
    let port = u16_from_le_bytes(slice_subrange(chunk, 21, 23));
    if family == FAMILY_V4 && bits <= u32::MAX as u128 {
        Some(Peer { label, ip: IpAddr::V4(bits as u32), port })
    } else if family == FAMILY_V6 {
        Some(Peer { label, ip: IpAddr::V6(bits), port })
    } else {
        None
    }
}

/// A list of peers on the wire: the peers one after the other.
pub open spec fn peers_bytes(peers: Seq<Peer>) -> Seq<u8>
    decreases peers.len(),
{
    if peers.len() == 0 {
        Seq::empty()
    } else {
        peers_bytes(peers.drop_last()) + peer_bytes(peers.last())
    }
}

/// The list of peers that `bytes` stand for, if any.
pub open spec fn parse_peers(bytes: Seq<u8>) -> Option<Seq<Peer>>
    decreases bytes.len(),
{
    if bytes.len() == 0 {
        Some(Seq::empty())
    } else if bytes.len() < PEER_LEN {
        None
    } else {
        let cut = bytes.len() - PEER_LEN;
        match (parse_peers(bytes.take(cut)), parse_peer(bytes.skip(cut))) {
            (Some(peers), Some(peer)) => Some(peers.push(peer)),
            _ => None,
        }
    }
}

/// The bytes of a list of peers are `PEER_LEN` per peer and stand for that
/// list.
pub proof fn lemma_parse_peers_bytes(peers: Seq<Peer>)
    ensures
        peers_bytes(peers).len() == PEER_LEN * peers.len(),
        parse_peers(peers_bytes(peers)) == Some(peers),
    decreases peers.len(),
{
    if peers.len() > 0 {
        let bytes = peers_bytes(peers);
        lemma_parse_peers_bytes(peers.drop_last());
        lemma_parse_peer_bytes(peers.last());
        let cut = bytes.len() - PEER_LEN;
        assert(bytes.take(cut) =~= peers_bytes(peers.drop_last()));
        assert(bytes.skip(cut) =~= peer_bytes(peers.last()));
    }
}

/// Bytes that stand for a list of peers are that list's bytes, `PEER_LEN` per
/// peer.
pub proof fn lemma_peers_bytes_parse(bytes: Seq<u8>)
    requires
        parse_peers(bytes) is Some,
    ensures
        peers_bytes(parse_peers(bytes)->0) == bytes,
        bytes.len() == PEER_LEN * (parse_peers(bytes)->0).len(),
    decreases bytes.len(),
{
    if bytes.len() > 0 {
        let cut = bytes.len() - PEER_LEN;
        let peers = parse_peers(bytes)->0;
        lemma_peers_bytes_parse(bytes.take(cut));
        lemma_peer_bytes_parse(bytes.skip(cut));
        assert(peers.drop_last() =~= parse_peers(bytes.take(cut))->0);
        assert(bytes =~= bytes.take(cut) + bytes.skip(cut));
    }
}

/// Where a list of peers parses, so does each of its peers and each of its
/// leading parts, to the same peers.
pub proof fn lemma_parse_peers_prefix(bytes: Seq<u8>, k: int)
    requires
        parse_peers(bytes) is Some,
        0 <= k,
        PEER_LEN * (k + 1) <= bytes.len(),
    ensures
        parse_peers(bytes.take(PEER_LEN * k)) == Some((parse_peers(bytes)->0).take(k)),
        parse_peer(bytes.subrange(PEER_LEN * k, PEER_LEN * (k + 1))) == Some(
            (parse_peers(bytes)->0)[k],
        ),
        k < (parse_peers(bytes)->0).len(),
    decreases bytes.len(),
{
    lemma_peers_bytes_parse(bytes);
    let cut = bytes.len() - PEER_LEN;
    lemma_peers_bytes_parse(bytes.take(cut));
    if PEER_LEN * (k + 1) == bytes.len() {
        assert(bytes.take(PEER_LEN * k) =~= bytes.take(cut));
        assert(bytes.subrange(PEER_LEN * k, PEER_LEN * (k + 1)) =~= bytes.skip(cut));
    } else {
        lemma_parse_peers_prefix(bytes.take(cut), k);
        assert(bytes.take(cut).take(PEER_LEN * k) =~= bytes.take(PEER_LEN * k));
        assert(bytes.take(cut).subrange(PEER_LEN * k, PEER_LEN * (k + 1)) =~= bytes.subrange(
            PEER_LEN * k,
            PEER_LEN * (k + 1),
        ));
    }
}

/// Appends the bytes of a list of peers to `out`.
fn write_peers(out: &mut Vec<u8>, peers: &Vec<Peer>)
    ensures
        final(out)@ == old(out)@ + peers_bytes(peers@),
{
    let mut i: usize = 0;
    while i < peers.len()
        invariant
            i <= peers.len(),
            out@ == old(out)@ + peers_bytes(peers@.take(i as int)),
        decreases peers.len() - i,
    {
        write_peer(out, &peers[i]);
        proof {
            assert(peers@.take(i + 1).drop_last() =~= peers@.take(i as int));
        }
        i += 1;
    }
    proof {
        assert(peers@.take(i as int) =~= peers@);
    }
}

/// Reads the list of peers that `bytes` stand for.
fn read_peers(bytes: &[u8]) -> (peers: Option<Vec<Peer>>)
    ensures
        peers is Some <==> parse_peers(bytes@) is Some,
        peers matches Some(v) ==> parse_peers(bytes@) == Some(v@),
{
    let count = bytes.len() / PEER_LEN;
    if bytes.len() % PEER_LEN != 0 {
        proof {
            if parse_peers(bytes@) is Some {
                lemma_peers_bytes_parse(bytes@);
            }
        }
        return None;
    }
    let mut peers: Vec<Peer> = Vec::new();
    let mut k: usize = 0;
    while k < count
        invariant
            k <= count,
            bytes.len() == PEER_LEN * count,
            bytes@.len() == bytes.len(),
            peers.len() == k,
            parse_peers(bytes@.take(PEER_LEN * k)) == Some(peers@),
        decreases count - k,
    {
        let chunk = slice_subrange(bytes, PEER_LEN * k, PEER_LEN * (k + 1));
        match read_peer(chunk) {
            Some(peer) => {
                proof {
                    let longer = bytes@.take(PEER_LEN * (k + 1));
                    assert(longer.take(longer.len() - PEER_LEN) =~= bytes@.take(PEER_LEN * k));
                    assert(longer.skip(longer.len() - PEER_LEN) =~= chunk@);
                }
                peers.push(peer);
            },
            None => {
                proof {
                    if parse_peers(bytes@) is Some {
                        lemma_parse_peers_prefix(bytes@, k as int);
                    }
                }
                return None;
            },
        }
        k += 1;
    }
    proof {
        assert(bytes@.take(PEER_LEN * k) =~= bytes@);
    }
    Some(peers)
}

/// The length of the frame of a message.
pub open spec fn frame_len(message: MessageView) -> nat {
    match message {
        MessageView::Error(text) => 1 + encode_utf8(text).len(),
        MessageView::SetPeerInfo(peers) => 1 + PEER_LEN as nat * peers.len(),
        MessageView::PeerInfo(table) => 1 + PEER_LEN as nat * table.len(),
        MessageView::Value(_) | MessageView::Propagate(_) | MessageView::Broadcast(_) => 5,
        _ => 1,
    }
}

/// Whether `bytes` are a frame of `message`.
///
/// Every message but `PeerInfo` has one frame. A peer table has one for each
/// order in which its entries can be listed.
pub open spec fn is_frame(bytes: Seq<u8>, message: MessageView) -> bool {
    match message {
        MessageView::Okay => bytes == seq![TAG_OKAY],
        MessageView::Error(text) => bytes == seq![TAG_ERROR] + encode_utf8(text),
        MessageView::Ping => bytes == seq![TAG_PING],
        MessageView::Pong => bytes == seq![TAG_PONG],
        MessageView::SetPeerInfo(peers) => bytes == seq![TAG_SET_PEER_INFO] + peers_bytes(peers),
        MessageView::GetPeerInfo => bytes == seq![TAG_GET_PEER_INFO],
        MessageView::PeerInfo(table) => exists|listing: Seq<Peer>|
            lists(listing, table) && bytes == seq![TAG_PEER_INFO] + #[trigger] peers_bytes(listing),
        MessageView::GetValue => bytes == seq![TAG_GET_VALUE],
        MessageView::Value(value) => bytes == seq![TAG_VALUE] + spec_u32_to_le_bytes(value),
        MessageView::Propagate(value) => bytes == seq![TAG_PROPAGATE] + spec_u32_to_le_bytes(
            value,
        ),
        MessageView::Broadcast(value) => bytes == seq![TAG_BROADCAST] + spec_u32_to_le_bytes(
            value,
        ),
    }
}

/// The message that `bytes` are a frame of, if any.
pub open spec fn parse(bytes: Seq<u8>) -> Option<MessageView> {
    if bytes.len() == 0 {
        None
    } else {
        let tag = bytes[0];
        let payload = bytes.skip(1);
        if tag == TAG_ERROR {
            if valid_utf8(payload) {
                Some(MessageView::Error(decode_utf8(payload)))
            } else {
                None
            }
        } else if tag == TAG_SET_PEER_INFO {
            match parse_peers(payload) {
                Some(peers) => Some(MessageView::SetPeerInfo(peers)),
                None => None,
            }
        } else if tag == TAG_PEER_INFO {
            match parse_peers(payload) {
                Some(listing) => if distinct_labels(listing) {
                    Some(MessageView::PeerInfo(table_of(listing)))
                } else {
                    None
                },
                None => None,
            }
        } else if tag == TAG_VALUE || tag == TAG_PROPAGATE || tag == TAG_BROADCAST {
            if payload.len() == 4 {
                let value = spec_u32_from_le_bytes(payload);
                if tag == TAG_VALUE {
                    Some(MessageView::Value(value))
                } else if tag == TAG_PROPAGATE {
                    Some(MessageView::Propagate(value))
                } else {
                    Some(MessageView::Broadcast(value))
                }
            } else {
                None
            }
        } else if payload.len() > 0 {
            None
        } else if tag == TAG_OKAY {
            Some(MessageView::Okay)
        } else if tag == TAG_PING {
            Some(MessageView::Ping)
        } else if tag == TAG_PONG {
            Some(MessageView::Pong)
        } else if tag == TAG_GET_PEER_INFO {
            Some(MessageView::GetPeerInfo)
        } else if tag == TAG_GET_VALUE {
            Some(MessageView::GetValue)
        } else {
            None
        }
    }
}

/// Decoding inverts encoding: a frame of a message is parsed as that message,
/// and is as long as `frame_len` says.
pub proof fn lemma_round_trip(bytes: Seq<u8>, message: MessageView)
    requires
        is_frame(bytes, message),
    ensures
        parse(bytes) == Some(message),
        bytes.len() == frame_len(message),
{
    lemma_auto_spec_u32_to_from_le_bytes();
    match message {
        MessageView::Error(text) => {
            assert(bytes.skip(1) =~= encode_utf8(text));
            encode_utf8_valid_utf8(text);
            encode_utf8_decode_utf8(text);
        },
        MessageView::SetPeerInfo(peers) => {
            assert(bytes.skip(1) =~= peers_bytes(peers));
            lemma_parse_peers_bytes(peers);
        },
        MessageView::PeerInfo(table) => {
            let listing = choose|listing: Seq<Peer>|
                lists(listing, table) && bytes == seq![TAG_PEER_INFO] + #[trigger] peers_bytes(
                    listing,
                );
            assert(bytes.skip(1) =~= peers_bytes(listing));
            lemma_parse_peers_bytes(listing);
            lemma_table_of_distinct(listing);
        },
        MessageView::Value(value) => {
            assert(bytes.skip(1) =~= spec_u32_to_le_bytes(value));
        },
        MessageView::Propagate(value) => {
            assert(bytes.skip(1) =~= spec_u32_to_le_bytes(value));
        },
        MessageView::Broadcast(value) => {
            assert(bytes.skip(1) =~= spec_u32_to_le_bytes(value));
        },
        _ => {},
    }
}

/// Only frames are decoded: bytes that are parsed as a message are a frame of
/// it.
pub proof fn lemma_parsed_is_frame(bytes: Seq<u8>)
    requires
        parse(bytes) is Some,
    ensures
        is_frame(bytes, parse(bytes)->0),
{
    lemma_auto_spec_u32_to_from_le_bytes();
    let tag = bytes[0];
    let payload = bytes.skip(1);
    assert(bytes =~= seq![tag] + payload);
    if tag == TAG_ERROR {
        decode_utf8_encode_utf8(payload);
    } else if tag == TAG_SET_PEER_INFO {
        lemma_peers_bytes_parse(payload);
    } else if tag == TAG_PEER_INFO {
        lemma_peers_bytes_parse(payload);
    }
}

/// A message has at most one meaning: bytes are a frame of one message only.
pub proof fn lemma_frame_unambiguous(bytes: Seq<u8>, a: MessageView, b: MessageView)
    requires
        is_frame(bytes, a),
        is_frame(bytes, b),
    ensures
        a == b,
{
    lemma_round_trip(bytes, a);
    lemma_round_trip(bytes, b);
}

/// `String::from_utf8`: the text that `bytes` spell where they are UTF-8, and
/// nothing where they are not.
#[verifier::external_body]
fn string_from_utf8(bytes: Vec<u8>) -> (text: Option<String>)
    ensures
        text is Some <==> valid_utf8(bytes@),
        text matches Some(t) ==> t@ == decode_utf8(bytes@),
{
    match String::from_utf8(bytes) {
        Ok(text) => Some(text),
        Err(_) => None,
    }
}

/// Lists the entries of a peer table, each once, in the order in which the
/// table hands them out.
fn list_table(table: &HashMap<u32, Identity>) -> (listing: Vec<Peer>)
    ensures
        lists(listing@, table@),
        listing.len() == table@.len(),
{
    let ghost pairs = spec_hash_map_iter(table).remaining();
    let mut listing: Vec<Peer> = Vec::new();
    for entry in it: table.iter()
        invariant
            it.seq() == pairs,
            pairs.no_duplicates(),
            listing.len() == it.index(),
            forall|j: int|
                0 <= j < listing.len() ==> (#[trigger] listing[j]).label == *pairs[j].0
                    && listing[j].spec_identity() == *pairs[j].1,
    {
        let (label, identity) = entry;
        listing.push(Peer { label: *label, ip: identity.ip, port: identity.port });
    }
    proof {
        assert(distinct_labels(listing@)) by {
            assert forall|i: int, j: int| 0 <= i < j < listing.len() implies listing[i].label
                != listing[j].label by {
                assert(table@[*pairs[j].0] == *pairs[j].1);
            }
        }
        lemma_table_of_distinct(listing@);
        assert(table_of(listing@) =~= table@) by {
            assert forall|label: u32| table@.contains_key(label) implies table_of(
                listing@,
            ).contains_key(label) by {
                let j = choose|j: int|
                    0 <= j < pairs.len() && pairs[j] == (&label, &table@[label]);
                assert(listing[j].label == label);
            }
            assert forall|label: u32|
                table_of(listing@).contains_key(label) implies table@.contains_key(label) by {
                lemma_table_of_dom(listing@);
            }
            assert forall|label: u32| table@.contains_key(label) implies table_of(listing@)[label]
                == table@[label] by {
                let j = choose|j: int|
                    0 <= j < pairs.len() && pairs[j] == (&label, &table@[label]);
                assert(listing[j].label == label);
            }
        }
    }
    listing
}

/// Makes the peer table that holds the entries of `listing`, unless a label
/// occurs twice in it.
fn table_from(listing: &Vec<Peer>) -> (table: Option<HashMap<u32, Identity>>)
    ensures
        table is Some <==> distinct_labels(listing@),
        table matches Some(t) ==> t@ == table_of(listing@),
{
    let mut table: HashMap<u32, Identity> = HashMap::new();
    let mut i: usize = 0;
    while i < listing.len()
        invariant
            i <= listing.len(),
            distinct_labels(listing@.take(i as int)),
            table@ == table_of(listing@.take(i as int)),
        decreases listing.len() - i,
    {
        let peer = listing[i];
        if table.contains_key(&peer.label) {
            proof {
                lemma_table_of_dom(listing@.take(i as int));
            }
            return None;
        }
        table.insert(peer.label, peer.identity());
        proof {
            let seen = listing@.take(i as int);
            let more = listing@.take(i + 1);
            assert(more.drop_last() =~= seen);
            assert forall|a: int, b: int| 0 <= a < b < more.len() implies more[a].label
                != more[b].label by {
                if b == i {
                    lemma_table_of_dom(seen);
                    let labels = seen.map_values(|p: Peer| p.label);
                    assert(labels.to_set().contains(labels[a]));
                }
            }
        }
        i += 1;
    }
    proof {
        assert(listing@.take(i as int) =~= listing@);
    }
    Some(table)
}

/// Turns a message into its frame.
///
/// Fails with `FrameTooLarge`, and only so, when the frame would be longer
/// than `MAX_MESSAGE_SIZE`.
pub fn encode(message: &Message) -> (r: Result<Vec<u8>, CodecError>)
    ensures
        r is Ok <==> frame_len(message@) <= MAX_MESSAGE_SIZE,
        r matches Ok(bytes) ==> is_frame(bytes@, message@) && bytes@.len() == frame_len(message@),
        r matches Err(e) ==> e == CodecError::FrameTooLarge,
{
    let most_peers = (MAX_MESSAGE_SIZE - 1) / PEER_LEN;
    let mut out: Vec<u8> = Vec::new();
    match message {
        Message::Okay => {
            out.push(TAG_OKAY);
        },
        Message::Error(text) => {
            let payload = text.as_str().as_bytes();
            if payload.len() > MAX_MESSAGE_SIZE - 1 {
                return Err(CodecError::FrameTooLarge);
            }
            out.push(TAG_ERROR);
            out.extend_from_slice(payload);
            assert(out@ =~= seq![TAG_ERROR] + encode_utf8(text@));
        },
        Message::Ping => {
            out.push(TAG_PING);
        },
        Message::Pong => {
            out.push(TAG_PONG);
        },
        Message::SetPeerInfo(peers) => {
            if peers.len() > most_peers {
                return Err(CodecError::FrameTooLarge);
            }
            out.push(TAG_SET_PEER_INFO);
            write_peers(&mut out, peers);
        },
        Message::GetPeerInfo => {
            out.push(TAG_GET_PEER_INFO);
        },
        Message::PeerInfo(table) => {
            if table.len() > most_peers {
                return Err(CodecError::FrameTooLarge);
            }
            let listing = list_table(table);
            out.push(TAG_PEER_INFO);
            write_peers(&mut out, &listing);
        },
        Message::GetValue => {
            out.push(TAG_GET_VALUE);
        },
        Message::Value(value) => {
            out.push(TAG_VALUE);
            let mut number = u32_to_le_bytes(*value);
            out.append(&mut number);
        },
        Message::Propagate(value) => {
            out.push(TAG_PROPAGATE);
            let mut number = u32_to_le_bytes(*value);
            out.append(&mut number);
        },
        Message::Broadcast(value) => {
            out.push(TAG_BROADCAST);
            let mut number = u32_to_le_bytes(*value);
            out.append(&mut number);
        },
    }
    proof {
        lemma_round_trip(out@, message@);
    }
    Ok(out)
}

/// What decoding `bytes` gives: the message they are a frame of, or why there
/// is none.
pub open spec fn decoded(bytes: Seq<u8>) -> Result<MessageView, CodecError> {
    if bytes.len() > MAX_MESSAGE_SIZE {
        Err(CodecError::FrameTooLarge)
    } else {
        match parse(bytes) {
            Some(message) => Ok(message),
            None => Err(CodecError::MalformedFrame),
        }
    }
}

/// A decoding result with the message, if there is one, as mathematics.
pub open spec fn outcome_view(r: Result<Message, CodecError>) -> Result<MessageView, CodecError> {
    match r {
        Ok(message) => Ok(message@),
        Err(e) => Err(e),
    }
}

/// Decoding is the inverse of encoding: what `encode` made of a message,
/// `decode` turns back into that message.
pub proof fn lemma_decode_inverts_encode(message: MessageView, bytes: Seq<u8>)
    requires
        is_frame(bytes, message),
        bytes.len() <= MAX_MESSAGE_SIZE,
    ensures
        decoded(bytes) == Ok::<MessageView, CodecError>(message),
{
    lemma_round_trip(bytes, message);
}

/// Decoding accepts frames only: it gives a message for bytes that are a
/// frame of it, `MalformedFrame` for bytes that are a frame of nothing, and
/// `FrameTooLarge` for more bytes than a frame may have.
pub proof fn lemma_decoded_exact(bytes: Seq<u8>)
    ensures
        match decoded(bytes) {
            Ok(message) => bytes.len() <= MAX_MESSAGE_SIZE && is_frame(bytes, message),
            Err(CodecError::FrameTooLarge) => bytes.len() > MAX_MESSAGE_SIZE,
            Err(CodecError::MalformedFrame) => bytes.len() <= MAX_MESSAGE_SIZE && forall|
                message: MessageView,
            | !is_frame(bytes, message),
        },
{
    if parse(bytes) is Some {
        lemma_parsed_is_frame(bytes);
    }
    assert forall|message: MessageView| is_frame(bytes, message) implies parse(bytes) == Some(
        message,
    ) by {
        lemma_round_trip(bytes, message);
    }
}

/// Turns a frame back into its message.
///
/// Fails with `FrameTooLarge` when `bytes` are longer than
/// `MAX_MESSAGE_SIZE`, and with `MalformedFrame` when they are no frame of any
/// message.
pub fn decode(bytes: &[u8]) -> (r: Result<Message, CodecError>)
    ensures
        outcome_view(r) == decoded(bytes@),
{
    if bytes.len() > MAX_MESSAGE_SIZE {
        return Err(CodecError::FrameTooLarge);
    }
    match read_message(bytes) {
        Some(message) => Ok(message),
        None => Err(CodecError::MalformedFrame),
    }
}

/// Reads the message that `bytes` are a frame of.
fn read_message(bytes: &[u8]) -> (message: Option<Message>)
    ensures
        message is Some <==> parse(bytes@) is Some,
        message matches Some(m) ==> parse(bytes@) == Some(m@),
{
    if bytes.len() == 0 {
        return None;
    }
    let tag = bytes[0];
    let payload = slice_subrange(bytes, 1, bytes.len());
    proof {
        assert(payload@ =~= bytes@.skip(1));
    }
    if tag == TAG_ERROR {
        match string_from_utf8(slice_to_vec(payload)) {
            Some(text) => Some(Message::Error(text)),
            None => None,
        }
    } else if tag == TAG_SET_PEER_INFO {
        match read_peers(payload) {
            Some(peers) => Some(Message::SetPeerInfo(peers)),
            None => None,
        }
    } else if tag == TAG_PEER_INFO {
        match read_peers(payload) {
            Some(listing) => match table_from(&listing) {
                Some(table) => Some(Message::PeerInfo(table)),
                None => None,
            },
            None => None,
        }
    } else if tag == TAG_VALUE || tag == TAG_PROPAGATE || tag == TAG_BROADCAST {
        if payload.len() == 4 {
            let value = u32_from_le_bytes(payload);
            if tag == TAG_VALUE {
                Some(Message::Value(value))
            } else if tag == TAG_PROPAGATE {
                Some(Message::Propagate(value))
            } else {
                Some(Message::Broadcast(value))
            }
        } else {
            None
        }
    } else if payload.len() > 0 {
        None
    } else if tag == TAG_OKAY {
        Some(Message::Okay)
    } else if tag == TAG_PING {
        Some(Message::Ping)
    } else if tag == TAG_PONG {
        Some(Message::Pong)
    } else if tag == TAG_GET_PEER_INFO {
        Some(Message::GetPeerInfo)
    } else if tag == TAG_GET_VALUE {
        Some(Message::GetValue)
    } else {
        None
    }
}

} // verus!
