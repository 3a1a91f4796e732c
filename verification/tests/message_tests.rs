use blockchain_node::block::Block;
use blockchain_node::networked_message::{DeserializeError, NetworkedMessage, PeerAddr};

fn encode(m: &NetworkedMessage) -> Vec<u8> {
    let mut out = Vec::new();
    m.send(&mut out);
    out
}

fn decode(bytes: &[u8]) -> Result<(NetworkedMessage, usize), DeserializeError> {
    NetworkedMessage::receive(bytes[0], &bytes[1..])
}

#[test]
fn ping_and_pong_are_one_byte() {
    assert_eq!(encode(&NetworkedMessage::Ping), vec![0]);
    assert_eq!(encode(&NetworkedMessage::Pong), vec![1]);
    assert!(matches!(decode(&[0]), Ok((NetworkedMessage::Ping, 0))));
    assert!(matches!(decode(&[1]), Ok((NetworkedMessage::Pong, 0))));
}

#[test]
fn block_round_trip() {
    let b = Block::new([1; 32], [2; 32], 7, 99);
    let bytes = encode(&NetworkedMessage::Block(b));
    assert_eq!(bytes.len(), 82);
    assert_eq!(bytes[0], 2);
    assert_eq!(bytes[73], b.difficulty());
    match decode(&bytes) {
        Ok((NetworkedMessage::Block(r), 81)) => {
            assert_eq!(r.hash(), b.hash());
            assert_eq!(r.nonce(), 7);
            assert_eq!(r.time(), 99);
        }
        other => panic!("unexpected {:?}", other),
    }
}

#[test]
fn request_round_trips() {
    for (m, t) in [
        (NetworkedMessage::Request([3; 32]), 3u8),
        (NetworkedMessage::RequestChild([4; 32]), 4u8),
        (NetworkedMessage::Challenge([6; 32]), 6u8),
    ] {
        let bytes = encode(&m);
        assert_eq!(bytes.len(), 33);
        assert_eq!(bytes[0], t);
        let (r, used) = decode(&bytes).unwrap();
        assert_eq!(used, 32);
        assert_eq!(encode(&r), bytes);
    }
}

#[test]
fn challenge_response_round_trip() {
    let m = NetworkedMessage::ChallengeResponse { public_key: [8; 32], signature: [9; 64] };
    let bytes = encode(&m);
    assert_eq!(bytes.len(), 97);
    match decode(&bytes) {
        Ok((NetworkedMessage::ChallengeResponse { public_key, signature }, 96)) => {
            assert_eq!(public_key, [8; 32]);
            assert_eq!(signature, [9; 64]);
        }
        other => panic!("unexpected {:?}", other),
    }
}

#[test]
fn peers_round_trip() {
    let peers = vec![
        (PeerAddr::V4([127, 0, 0, 1], 8080), [4; 32]),
        (PeerAddr::V6([1; 16], 0x1234), [5; 32]),
    ];
    let bytes = encode(&NetworkedMessage::Peers(peers));
    assert_eq!(
        &bytes[..16],
        &[5, 2, 0, 0, 0, 0, 0, 0, 0, 0, 127, 0, 0, 1, 0x90, 0x1f]
    );
    assert_eq!(&bytes[16..48], &[4; 32]);
    assert_eq!(bytes[48], 1);
    assert_eq!(bytes.len(), 1 + 8 + (7 + 32) + (19 + 32));
    match decode(&bytes) {
        Ok((NetworkedMessage::Peers(r), used)) => {
            assert_eq!(used, bytes.len() - 1);
            assert_eq!(r.len(), 2);
            assert!(matches!(r[0], (PeerAddr::V4([127, 0, 0, 1], 8080), k) if k == [4; 32]));
            assert!(matches!(r[1], (PeerAddr::V6(ip, 0x1234), k) if ip == [1; 16] && k == [5; 32]));
        }
        other => panic!("unexpected {:?}", other),
    }
}

#[test]
fn peer_without_its_whole_key_is_cut_short() {
    let mut bytes = vec![5, 1, 0, 0, 0, 0, 0, 0, 0, 0, 10, 0, 0, 1, 0x39, 0x05];
    bytes.extend_from_slice(&[9; 31]);
    assert!(matches!(decode(&bytes), Err(DeserializeError::UnexpectedEof)));
    bytes.push(9);
    match decode(&bytes) {
        Ok((NetworkedMessage::Peers(r), used)) => {
            assert_eq!(used, 8 + 7 + 32);
            assert!(matches!(r[..], [(PeerAddr::V4([10, 0, 0, 1], 1337), k)] if k == [9; 32]));
        }
        other => panic!("unexpected {:?}", other),
    }
}

#[test]
fn unknown_message_type_is_refused() {
    assert!(matches!(decode(&[8]), Err(DeserializeError::InvalidMessageType(8))));
    assert!(matches!(decode(&[255, 1, 2]), Err(DeserializeError::InvalidMessageType(255))));
}

#[test]
fn unknown_address_type_is_refused() {
    let bytes = [5, 1, 0, 0, 0, 0, 0, 0, 0, 2, 1, 2, 3, 4, 0, 0];
    assert!(matches!(decode(&bytes), Err(DeserializeError::InvalidSocketAddrType(2))));
}

#[test]
fn short_messages_end_early() {
    assert!(matches!(decode(&[2; 50]), Err(DeserializeError::UnexpectedEof)));
    assert!(matches!(decode(&[3, 1, 2]), Err(DeserializeError::UnexpectedEof)));
    assert!(matches!(decode(&[5, 1, 0]), Err(DeserializeError::UnexpectedEof)));
    assert!(matches!(
        decode(&[5, 1, 0, 0, 0, 0, 0, 0, 0, 0, 127, 0]),
        Err(DeserializeError::UnexpectedEof)
    ));
    assert!(matches!(decode(&[7; 90]), Err(DeserializeError::UnexpectedEof)));
}
