use hypernet::address::IpAddr;
use hypernet::codec::{decode, encode, CodecError};
use hypernet::protocol::{Identity, Message, Peer, MAX_MESSAGE_SIZE};
use std::collections::HashMap;

fn peer(label: u32, port: u16) -> Peer {
    Peer { label, ip: IpAddr::from_octets(127, 0, 0, 1), port }
}

fn samples() -> Vec<Message> {
    vec![
        Message::Okay,
        Message::Error(String::new()),
        Message::Error("unknown request type Pong".to_string()),
        Message::Error("h\u{e9}llo \u{4e16}\u{754c} \u{1f600}".to_string()),
        Message::Ping,
        Message::Pong,
        Message::SetPeerInfo(vec![]),
        Message::SetPeerInfo(vec![peer(100, 9000)]),
        Message::SetPeerInfo(vec![peer(1, 9000), peer(1, 9001), peer(u32::MAX, u16::MAX)]),
        Message::SetPeerInfo(vec![Peer {
            label: 7,
            ip: IpAddr::V6(0x2001_0db8_0000_0000_0000_0000_0000_0001),
            port: 443,
        }]),
        Message::GetPeerInfo,
        Message::PeerInfo(HashMap::new()),
        Message::PeerInfo(HashMap::from([
            (100, Identity::new(IpAddr::from_octets(127, 0, 0, 1), 9000)),
            (3, Identity::new(IpAddr::V6(1), 1)),
            (0, Identity::new(IpAddr::V4(0), 0)),
        ])),
        Message::GetValue,
        Message::Value(0),
        Message::Value(0x0102_0304),
        Message::Propagate(0),
        Message::Propagate(u32::MAX),
        Message::Broadcast(0),
        Message::Broadcast(0xdead_beef),
    ]
}

#[test]
fn decoding_inverts_encoding() {
    for message in samples() {
        let frame = encode(&message).unwrap();
        assert!(frame.len() <= MAX_MESSAGE_SIZE);
        assert_eq!(decode(&frame), Ok(message));
    }
}

#[test]
fn frames_are_tag_then_payload() {
    assert_eq!(encode(&Message::Okay).unwrap(), vec![0]);
    assert_eq!(encode(&Message::Error("hi".to_string())).unwrap(), vec![1, b'h', b'i']);
    assert_eq!(encode(&Message::Ping).unwrap(), vec![2]);
    assert_eq!(encode(&Message::Pong).unwrap(), vec![3]);
    assert_eq!(encode(&Message::SetPeerInfo(vec![])).unwrap(), vec![4]);
    assert_eq!(encode(&Message::GetPeerInfo).unwrap(), vec![5]);
    assert_eq!(encode(&Message::PeerInfo(HashMap::new())).unwrap(), vec![6]);
    assert_eq!(encode(&Message::GetValue).unwrap(), vec![7]);
    assert_eq!(encode(&Message::Value(0x0102_0304)).unwrap(), vec![8, 4, 3, 2, 1]);
    assert_eq!(encode(&Message::Propagate(258)).unwrap(), vec![9, 2, 1, 0, 0]);
    assert_eq!(encode(&Message::Broadcast(7)).unwrap(), vec![10, 7, 0, 0, 0]);
}

#[test]
fn a_peer_takes_twenty_three_bytes() {
    let frame = encode(&Message::SetPeerInfo(vec![peer(100, 9000)])).unwrap();
    let mut expected = vec![4u8, 100, 0, 0, 0, 4, 1, 0, 0, 127];
    expected.extend_from_slice(&[0; 12]);
    expected.extend_from_slice(&[0x28, 0x23]);
    assert_eq!(frame, expected);
    assert_eq!(frame.len(), 1 + 23);

    let six = Message::PeerInfo(HashMap::from([(
        0x0a0b_0c0d,
        Identity::new(IpAddr::V6(0x0102_0304_0506_0708_090a_0b0c_0d0e_0f10), 0x1234),
    )]));
    let frame = encode(&six).unwrap();
    assert_eq!(
        frame,
        vec![
            6, 0x0d, 0x0c, 0x0b, 0x0a, 6, 0x10, 0x0f, 0x0e, 0x0d, 0x0c, 0x0b, 0x0a, 0x09, 0x08,
            0x07, 0x06, 0x05, 0x04, 0x03, 0x02, 0x01, 0x34, 0x12
        ]
    );
}

#[test]
fn oversize_messages_are_not_encoded() {
    let fits = "x".repeat(MAX_MESSAGE_SIZE - 1);
    assert_eq!(encode(&Message::Error(fits)).unwrap().len(), MAX_MESSAGE_SIZE);
    let too_long = "x".repeat(MAX_MESSAGE_SIZE);
    assert_eq!(encode(&Message::Error(too_long)), Err(CodecError::FrameTooLarge));
    // two bytes per character: 512 characters are 1024 bytes
    assert_eq!(encode(&Message::Error("\u{e9}".repeat(512))), Err(CodecError::FrameTooLarge));
    assert_eq!(encode(&Message::Error("\u{e9}".repeat(511))).unwrap().len(), 1023);

    let most: Vec<Peer> = (0..44).map(|i| peer(i, 9000)).collect();
    assert_eq!(encode(&Message::SetPeerInfo(most)).unwrap().len(), 1 + 23 * 44);
    let more: Vec<Peer> = (0..45).map(|i| peer(i, 9000)).collect();
    assert_eq!(encode(&Message::SetPeerInfo(more)), Err(CodecError::FrameTooLarge));

    let table: HashMap<u32, Identity> =
        (0..44).map(|i| (i, Identity::new(IpAddr::localhost(), 9000))).collect();
    assert_eq!(encode(&Message::PeerInfo(table)).unwrap().len(), 1 + 23 * 44);
    let table: HashMap<u32, Identity> =
        (0..45).map(|i| (i, Identity::new(IpAddr::localhost(), 9000))).collect();
    assert_eq!(encode(&Message::PeerInfo(table)), Err(CodecError::FrameTooLarge));
}

#[test]
fn oversize_frames_are_not_decoded() {
    let mut frame = vec![1u8];
    frame.extend_from_slice(&[b'x'; MAX_MESSAGE_SIZE - 1]);
    assert_eq!(decode(&frame), Ok(Message::Error("x".repeat(MAX_MESSAGE_SIZE - 1))));
    frame.push(b'x');
    assert_eq!(decode(&frame), Err(CodecError::FrameTooLarge));
    assert_eq!(decode(&vec![2u8; 5000]), Err(CodecError::FrameTooLarge));
}

#[test]
fn what_is_no_frame_is_malformed() {
    let malformed: Vec<Vec<u8>> = vec![
        vec![],
        vec![10],
        vec![10, 1, 2, 3, 4, 5],
        vec![11],
        vec![11, 0, 0, 0, 0],
        vec![255],
        vec![0, 0],
        vec![2, 1],
        vec![3, 0],
        vec![5, 9],
        vec![7, 7],
        vec![8],
        vec![8, 1, 2, 3],
        vec![8, 1, 2, 3, 4, 5],
        vec![9, 1],
        vec![1, 0xff],
        vec![1, 0xc3],
        vec![1, 0xed, 0xa0, 0x80],
        vec![4, 1, 2, 3],
        vec![6, 1, 2, 3],
    ];
    for frame in malformed {
        assert_eq!(decode(&frame), Err(CodecError::MalformedFrame), "{frame:?}");
    }
}

fn peer_frame(tag: u8, entries: &[(u32, u8, u128, u16)]) -> Vec<u8> {
    let mut frame = vec![tag];
    for (label, family, bits, port) in entries {
        frame.extend_from_slice(&label.to_le_bytes());
        frame.push(*family);
        frame.extend_from_slice(&bits.to_le_bytes());
        frame.extend_from_slice(&port.to_le_bytes());
    }
    frame
}

#[test]
fn peers_are_checked_when_decoded() {
    let good = peer_frame(4, &[(1, 4, 0x7f00_0001, 9000), (1, 6, u128::MAX, 1)]);
    assert_eq!(
        decode(&good),
        Ok(Message::SetPeerInfo(vec![
            peer(1, 9000),
            Peer { label: 1, ip: IpAddr::V6(u128::MAX), port: 1 }
        ]))
    );
    // an unknown address family
    assert_eq!(decode(&peer_frame(4, &[(1, 5, 1, 1)])), Err(CodecError::MalformedFrame));
    assert_eq!(decode(&peer_frame(4, &[(1, 0, 1, 1)])), Err(CodecError::MalformedFrame));
    // an IPv4 address that does not fit four bytes
    assert_eq!(decode(&peer_frame(4, &[(1, 4, 1 << 32, 1)])), Err(CodecError::MalformedFrame));
    assert_eq!(
        decode(&peer_frame(4, &[(1, 4, u32::MAX as u128, 1)])),
        Ok(Message::SetPeerInfo(vec![Peer { label: 1, ip: IpAddr::V4(u32::MAX), port: 1 }]))
    );
    // a bad peer behind a good one
    assert_eq!(
        decode(&peer_frame(4, &[(1, 4, 1, 1), (2, 9, 1, 1)])),
        Err(CodecError::MalformedFrame)
    );
    // a peer cut short
    let mut short = peer_frame(6, &[(1, 4, 1, 1), (2, 4, 1, 1)]);
    short.pop();
    assert_eq!(decode(&short), Err(CodecError::MalformedFrame));
}

#[test]
fn a_peer_table_names_each_label_once() {
    let twice = peer_frame(6, &[(1, 4, 1, 1), (2, 4, 1, 1), (1, 4, 2, 2)]);
    assert_eq!(decode(&twice), Err(CodecError::MalformedFrame));
    let once = peer_frame(6, &[(2, 4, 1, 1), (1, 4, 2, 2)]);
    assert_eq!(
        decode(&once),
        Ok(Message::PeerInfo(HashMap::from([
            (1, Identity::new(IpAddr::V4(2), 2)),
            (2, Identity::new(IpAddr::V4(1), 1)),
        ])))
    );
    // the same table, listed the other way round
    let other = peer_frame(6, &[(1, 4, 2, 2), (2, 4, 1, 1)]);
    assert_eq!(decode(&other), decode(&once));
    // as a list of peers the repetition is fine
    let list = peer_frame(4, &[(1, 4, 1, 1), (1, 4, 2, 2)]);
    assert!(decode(&list).is_ok());
}

#[test]
fn text_is_utf8() {
    let frame = vec![1u8, 0xc3, 0xa9, 0xe4, 0xb8, 0x96];
    assert_eq!(decode(&frame), Ok(Message::Error("\u{e9}\u{4e16}".to_string())));
    assert_eq!(encode(&Message::Error("\u{e9}\u{4e16}".to_string())).unwrap(), frame);
    assert_eq!(decode(&[1]), Ok(Message::Error(String::new())));
}
