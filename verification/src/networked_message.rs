//! The messages that peers exchange, and their encoding on the wire: a type
//! byte, then the message's fields.

use vstd::prelude::*;
use vstd::bytes::spec_u64_to_le_bytes;
use vstd::bytes::spec_u64_from_le_bytes;
use vstd::bytes::u64_to_le_bytes;
use vstd::bytes::u64_from_le_bytes;
use vstd::bytes::lemma_auto_spec_u64_to_from_le_bytes;
use vstd::bytes::spec_u16_to_le_bytes;
use vstd::bytes::spec_u16_from_le_bytes;
use vstd::bytes::u16_to_le_bytes;
use vstd::bytes::u16_from_le_bytes;
use vstd::bytes::lemma_auto_spec_u16_to_from_le_bytes;

use crate::block::{Block, BlockView, difficulty_of, lemma_block_roundtrip};
use crate::byte_util::{append_bytes, equal_bytes, to_array};
use crate::keyed_map::MapKey;

verus! {

/// The address of a peer: an IPv4 or IPv6 address and a port.
#[derive(Debug, Clone, Copy)]
pub enum PeerAddr {
    V4([u8; 4], u16),
    V6([u8; 16], u16),
}

pub enum PeerAddrView {
    V4(Seq<u8>, u16),
    V6(Seq<u8>, u16),
}

impl View for PeerAddr {
    type V = PeerAddrView;

    open spec fn view(&self) -> PeerAddrView {
        match self {
            PeerAddr::V4(ip, port) => PeerAddrView::V4(ip@, *port),
            PeerAddr::V6(ip, port) => PeerAddrView::V6(ip@, *port),
        }
    }
}

impl MapKey for PeerAddr {
    fn same_key(&self, other: &Self) -> (res: bool) {
        match (self, other) {
            (PeerAddr::V4(a, p), PeerAddr::V4(b, q)) => *p == *q && equal_bytes(a.as_slice(), b.as_slice()),
            (PeerAddr::V6(a, p), PeerAddr::V6(b, q)) => *p == *q && equal_bytes(a.as_slice(), b.as_slice()),
            _ => false,
        }
    }
}

/// A message between peers.
#[derive(Debug, Clone)]
pub enum NetworkedMessage {
    Block(Block),
    Ping,
    Pong,
    /// Asks for the block with this hash.
    Request([u8; 32]),
    /// Asks for the main-chain child of the block with this hash.
    RequestChild([u8; 32]),
    /// Peers to connect to: each one's address and public key.
    Peers(Vec<(PeerAddr, [u8; 32])>),
    /// Asks the receiver to sign these bytes.
    Challenge([u8; 32]),
    /// The receiver's public key and its signature of a challenge.
    ChallengeResponse { public_key: [u8; 32], signature: [u8; 64] },
}

pub enum MessageView {
    Block(BlockView),
    Ping,
    Pong,
    Request(Seq<u8>),
    RequestChild(Seq<u8>),
    Peers(Seq<(PeerAddrView, Seq<u8>)>),
    Challenge(Seq<u8>),
    ChallengeResponse(Seq<u8>, Seq<u8>),
}

/// A listed peer, address and public key, by their views.
pub open spec fn peer_entry_view(p: (PeerAddr, [u8; 32])) -> (PeerAddrView, Seq<u8>) {
    (p.0@, p.1@)
}

/// A list of peers by the views of its entries.
pub open spec fn peers_view(ps: Seq<(PeerAddr, [u8; 32])>) -> Seq<(PeerAddrView, Seq<u8>)> {
    ps.map_values(|p: (PeerAddr, [u8; 32])| peer_entry_view(p))
}

impl View for NetworkedMessage {
    type V = MessageView;

    open spec fn view(&self) -> MessageView {
        match self {
            NetworkedMessage::Block(b) => MessageView::Block(b@),
            NetworkedMessage::Ping => MessageView::Ping,
            NetworkedMessage::Pong => MessageView::Pong,
            NetworkedMessage::Request(h) => MessageView::Request(h@),
            NetworkedMessage::RequestChild(h) => MessageView::RequestChild(h@),
            NetworkedMessage::Peers(ps) => MessageView::Peers(peers_view(ps@)),
            NetworkedMessage::Challenge(c) => MessageView::Challenge(c@),
            NetworkedMessage::ChallengeResponse { public_key, signature } => MessageView::ChallengeResponse(
                public_key@,
                signature@,
            ),
        }
    }
}

/// Why a message could not be read.
#[derive(Debug)]
pub enum DeserializeError {
    /// The input ended before the whole message.
    UnexpectedEof,
    /// A peer address with a type byte other than 0 (IPv4) or 1 (IPv6).
    InvalidSocketAddrType(u8),
    /// A message type byte that no message has.
    InvalidMessageType(u8),
}

/// A block on the wire: parent hash, miner address, nonce, difficulty byte,
/// time.
pub open spec fn encode_block(v: BlockView) -> Seq<u8> {
    v.parent_hash + v.miner_address + spec_u64_to_le_bytes(v.nonce) + seq![difficulty_of(v) as u8]
        + spec_u64_to_le_bytes(v.time)
}

/// A peer address on the wire: 0 and four address bytes, or 1 and sixteen,
/// then the port as a little-endian 16-bit integer.
pub open spec fn encode_addr(a: PeerAddrView) -> Seq<u8> {
    match a {
        PeerAddrView::V4(ip, port) => seq![0u8] + ip + spec_u16_to_le_bytes(port),
        PeerAddrView::V6(ip, port) => seq![1u8] + ip + spec_u16_to_le_bytes(port),
    }
}

/// A listed peer on the wire: its address, then its public key.
pub open spec fn encode_peer(p: (PeerAddrView, Seq<u8>)) -> Seq<u8> {
    encode_addr(p.0) + p.1
}

pub open spec fn encode_peers(ps: Seq<(PeerAddrView, Seq<u8>)>) -> Seq<u8>
    decreases ps.len(),
{
    if ps.len() == 0 {
        Seq::empty()
    } else {
        encode_peer(ps[0]) + encode_peers(ps.drop_first())
    }
}

/// The bytes of a message, type byte first.
pub open spec fn encode(m: MessageView) -> Seq<u8> {
    match m {
        MessageView::Ping => seq![0u8],
        MessageView::Pong => seq![1u8],
        MessageView::Block(v) => seq![2u8] + encode_block(v),
        MessageView::Request(h) => seq![3u8] + h,
        MessageView::RequestChild(h) => seq![4u8] + h,
        MessageView::Peers(ps) => seq![5u8] + spec_u64_to_le_bytes(ps.len() as u64) + encode_peers(ps),
        MessageView::Challenge(c) => seq![6u8] + c,
        MessageView::ChallengeResponse(pk, sig) => seq![7u8] + pk + sig,
    }
}

/// The peer address at the start of `s` and the bytes it takes.
pub open spec fn parse_addr(s: Seq<u8>) -> Result<(PeerAddrView, nat), DeserializeError> {
    if s.len() < 1 {
        Err(DeserializeError::UnexpectedEof)
    } else if s[0] == 0 {
        if s.len() < 7 {
            Err(DeserializeError::UnexpectedEof)
        } else {
            Ok((PeerAddrView::V4(s.subrange(1, 5), spec_u16_from_le_bytes(s.subrange(5, 7))), 7))
        }
    } else if s[0] == 1 {
        if s.len() < 19 {
            Err(DeserializeError::UnexpectedEof)
        } else {
            Ok((PeerAddrView::V6(s.subrange(1, 17), spec_u16_from_le_bytes(s.subrange(17, 19))), 19))
        }
    } else {
        Err(DeserializeError::InvalidSocketAddrType(s[0]))
    }
}

/// The listed peer at the start of `s`, address then 32 key bytes, and the
/// bytes it takes.
pub open spec fn parse_peer(s: Seq<u8>) -> Result<((PeerAddrView, Seq<u8>), nat), DeserializeError> {
    match parse_addr(s) {
        Err(e) => Err(e),
        Ok(a) => if s.len() < a.1 + 32 {
            Err(DeserializeError::UnexpectedEof)
        } else {
            Ok(((a.0, s.subrange(a.1 as int, a.1 + 32int)), a.1 + 32))
        },
    }
}

/// The first `count` listed peers of `s` and the bytes they take.
pub open spec fn parse_peers(s: Seq<u8>, count: nat) -> Result<(Seq<(PeerAddrView, Seq<u8>)>, nat), DeserializeError>
    decreases count,
{
    if count == 0 {
        Ok((Seq::empty(), 0))
    } else {
        match parse_peer(s) {
            Err(e) => Err(e),
            Ok(first) => match parse_peers(s.skip(first.1 as int), (count - 1) as nat) {
                Err(e) => Err(e),
                Ok(rest) => Ok((seq![first.0] + rest.0, first.1 + rest.1)),
            },
        }
    }
}

/// The message of type `t` whose fields start `s`, and the bytes its fields
/// take.
pub open spec fn decode(t: u8, s: Seq<u8>) -> Result<(MessageView, nat), DeserializeError> {
    if t == 0 {
        Ok((MessageView::Ping, 0))
    } else if t == 1 {
        Ok((MessageView::Pong, 0))
    } else if t == 2 {
        if s.len() < 81 {
            Err(DeserializeError::UnexpectedEof)
        } else {
            Ok((
                MessageView::Block(
                    BlockView {
                        parent_hash: s.subrange(0, 32),
                        miner_address: s.subrange(32, 64),
                        nonce: spec_u64_from_le_bytes(s.subrange(64, 72)),
                        time: spec_u64_from_le_bytes(s.subrange(73, 81)),
                    },
                ),
                81,
            ))
        }
    } else if t == 3 || t == 4 || t == 6 {
        if s.len() < 32 {
            Err(DeserializeError::UnexpectedEof)
        } else if t == 3 {
            Ok((MessageView::Request(s.subrange(0, 32)), 32))
        } else if t == 4 {
            Ok((MessageView::RequestChild(s.subrange(0, 32)), 32))
        } else {
            Ok((MessageView::Challenge(s.subrange(0, 32)), 32))
        }
    } else if t == 5 {
        if s.len() < 8 {
            Err(DeserializeError::UnexpectedEof)
        } else {
            match parse_peers(s.skip(8), spec_u64_from_le_bytes(s.subrange(0, 8)) as nat) {
                Err(e) => Err(e),
                Ok(peers) => Ok((MessageView::Peers(peers.0), 8 + peers.1)),
            }
        }
    } else if t == 7 {
        if s.len() < 96 {
            Err(DeserializeError::UnexpectedEof)
        } else {
            Ok((MessageView::ChallengeResponse(s.subrange(0, 32), s.subrange(32, 96)), 96))
        }
    } else {
        Err(DeserializeError::InvalidMessageType(t))
    }
}

/// The peers already read, put in front of what reading the rest gives.
pub open spec fn prepend_peers(
    acc: Seq<(PeerAddrView, Seq<u8>)>,
    used: nat,
    rest: Result<(Seq<(PeerAddrView, Seq<u8>)>, nat), DeserializeError>,
) -> Result<(Seq<(PeerAddrView, Seq<u8>)>, nat), DeserializeError> {
    match rest {
        Err(e) => Err(e),
        Ok(r) => Ok((acc + r.0, used + r.1)),
    }
}

proof fn lemma_encode_peers_push(ps: Seq<(PeerAddrView, Seq<u8>)>, p: (PeerAddrView, Seq<u8>))
    ensures
        encode_peers(ps.push(p)) == encode_peers(ps) + encode_peer(p),
    decreases ps.len(),
{
    if ps.len() == 0 {
        assert(ps.push(p).drop_first() =~= Seq::<(PeerAddrView, Seq<u8>)>::empty());
        assert(encode_peers(Seq::<(PeerAddrView, Seq<u8>)>::empty()) == Seq::<u8>::empty());
        assert(ps =~= Seq::<(PeerAddrView, Seq<u8>)>::empty());
        assert(encode_peers(ps.push(p)) =~= encode_peer(p) + Seq::<u8>::empty());
        assert(encode_peers(ps.push(p)) =~= encode_peer(p));
    } else {
        assert(ps.push(p).drop_first() =~= ps.drop_first().push(p));
        lemma_encode_peers_push(ps.drop_first(), p);
        assert(encode_peers(ps.push(p)) =~= encode_peers(ps) + encode_peer(p));
    }
}

/// A peer address has the lengths that its exec form gives it.
pub open spec fn addr_view_wf(a: PeerAddrView) -> bool {
    match a {
        PeerAddrView::V4(ip, _) => ip.len() == 4,
        PeerAddrView::V6(ip, _) => ip.len() == 16,
    }
}

/// A listed peer has the lengths that its exec form gives it.
pub open spec fn peer_view_wf(p: (PeerAddrView, Seq<u8>)) -> bool {
    addr_view_wf(p.0) && p.1.len() == 32
}

/// A message view has the lengths that its exec form gives it.
pub open spec fn message_view_wf(m: MessageView) -> bool {
    match m {
        MessageView::Block(v) => v.parent_hash.len() == 32 && v.miner_address.len() == 32,
        MessageView::Request(h) => h.len() == 32,
        MessageView::RequestChild(h) => h.len() == 32,
        MessageView::Challenge(c) => c.len() == 32,
        MessageView::ChallengeResponse(pk, sig) => pk.len() == 32 && sig.len() == 64,
        MessageView::Peers(ps) => ps.len() <= u64::MAX && forall|i: int|
            0 <= i < ps.len() ==> #[trigger] peer_view_wf(ps[i]),
        _ => true,
    }
}

proof fn lemma_addr_roundtrip(a: PeerAddrView, rest: Seq<u8>)
    requires
        addr_view_wf(a),
    ensures
        parse_addr(encode_addr(a) + rest) == Ok::<(PeerAddrView, nat), DeserializeError>(
            (a, encode_addr(a).len()),
        ),
{
    lemma_auto_spec_u16_to_from_le_bytes();
    let s = encode_addr(a) + rest;
    match a {
        PeerAddrView::V4(ip, port) => {
            assert(s.subrange(1, 5) =~= ip);
            assert(s.subrange(5, 7) =~= spec_u16_to_le_bytes(port));
        },
        PeerAddrView::V6(ip, port) => {
            assert(s.subrange(1, 17) =~= ip);
            assert(s.subrange(17, 19) =~= spec_u16_to_le_bytes(port));
        },
    }
}

proof fn lemma_peer_roundtrip(p: (PeerAddrView, Seq<u8>), rest: Seq<u8>)
    requires
        peer_view_wf(p),
    ensures
        parse_peer(encode_peer(p) + rest) == Ok::<((PeerAddrView, Seq<u8>), nat), DeserializeError>(
            (p, encode_peer(p).len()),
        ),
{
    let a = encode_addr(p.0);
    let s = encode_peer(p) + rest;
    assert(s =~= a + (p.1 + rest));
    lemma_addr_roundtrip(p.0, p.1 + rest);
    assert(s.subrange(a.len() as int, a.len() + 32int) =~= p.1);
}

proof fn lemma_peers_roundtrip(ps: Seq<(PeerAddrView, Seq<u8>)>, rest: Seq<u8>)
    requires
        forall|i: int| 0 <= i < ps.len() ==> #[trigger] peer_view_wf(ps[i]),
    ensures
        parse_peers(encode_peers(ps) + rest, ps.len()) == Ok::<(Seq<(PeerAddrView, Seq<u8>)>, nat), DeserializeError>(
            (ps, encode_peers(ps).len()),
        ),
    decreases ps.len(),
{
    if ps.len() > 0 {
        let tail = ps.drop_first();
        assert(peer_view_wf(ps[0]));
        assert forall|i: int| 0 <= i < tail.len() implies #[trigger] peer_view_wf(tail[i]) by {
            assert(tail[i] == ps[i + 1]);
        }
        let s = encode_peers(ps) + rest;
        assert(s =~= encode_peer(ps[0]) + (encode_peers(tail) + rest));
        lemma_peer_roundtrip(ps[0], encode_peers(tail) + rest);
        assert(s.skip(encode_peer(ps[0]).len() as int) =~= encode_peers(tail) + rest);
        lemma_peers_roundtrip(tail, rest);
        assert(seq![ps[0]] + tail =~= ps);
    } else {
        assert(ps =~= Seq::<(PeerAddrView, Seq<u8>)>::empty());
    }
}

/// Reading a message back from the bytes that `send` writes gives the same
/// message, and takes all of its bytes.
pub proof fn lemma_message_roundtrip(m: MessageView, rest: Seq<u8>)
    requires
        message_view_wf(m),
    ensures
        decode(encode(m)[0], encode(m).skip(1) + rest) == Ok::<(MessageView, nat), DeserializeError>(
            (m, (encode(m).len() - 1) as nat),
        ),
{
    lemma_auto_spec_u64_to_from_le_bytes();
    let e = encode(m);
    let s = e.skip(1) + rest;
    match m {
        MessageView::Block(v) => {
            assert(s.subrange(0, 32) =~= v.parent_hash);
            assert(s.subrange(32, 64) =~= v.miner_address);
            assert(s.subrange(64, 72) =~= spec_u64_to_le_bytes(v.nonce));
            assert(s.subrange(73, 81) =~= spec_u64_to_le_bytes(v.time));
        },
        MessageView::Request(h) => {
            assert(s.subrange(0, 32) =~= h);
        },
        MessageView::RequestChild(h) => {
            assert(s.subrange(0, 32) =~= h);
        },
        MessageView::Challenge(c) => {
            assert(s.subrange(0, 32) =~= c);
        },
        MessageView::ChallengeResponse(pk, sig) => {
            assert(s.subrange(0, 32) =~= pk);
            assert(s.subrange(32, 96) =~= sig);
        },
        MessageView::Peers(ps) => {
            let count = spec_u64_to_le_bytes(ps.len() as u64);
            assert(s.subrange(0, 8) =~= count);
            assert(s.skip(8) =~= encode_peers(ps) + rest);
            lemma_peers_roundtrip(ps, rest);
        },
        _ => {},
    }
}

/// The wire layout of a block message, byte by byte: type 2 at 0, the
/// parent hash at 1..33, the miner address at 33..65, the nonce
/// (little-endian) at 65..73, the difficulty at 73, the time (little-endian)
/// at 74..82; and reading a block's fields takes the nonce from bytes 0..8
/// after the two hashes and the time from the bytes after the difficulty.
pub proof fn lemma_block_wire_layout(b: Block, fields: Seq<u8>)
    requires
        fields.len() >= 81,
    ensures
        ({
            let e = encode(MessageView::Block(b@));
            &&& e.len() == 82
            &&& e[0] == 2
            &&& e.subrange(1, 33) == b@.parent_hash
            &&& e.subrange(33, 65) == b@.miner_address
            &&& e.subrange(65, 73) == spec_u64_to_le_bytes(b@.nonce)
            &&& e[73] == difficulty_of(b@) as u8
            &&& e.subrange(74, 82) == spec_u64_to_le_bytes(b@.time)
        }),
        decode(2, fields) == Ok::<(MessageView, nat), DeserializeError>(
            (
                MessageView::Block(
                    BlockView {
                        parent_hash: fields.subrange(0, 32),
                        miner_address: fields.subrange(32, 64),
                        nonce: spec_u64_from_le_bytes(fields.subrange(64, 72)),
                        time: spec_u64_from_le_bytes(fields.subrange(73, 81)),
                    },
                ),
                81,
            ),
        ),
{
    lemma_block_roundtrip(b);
    let e = encode(MessageView::Block(b@));
    assert(spec_u64_to_le_bytes(b@.nonce).len() == 8) by {
        lemma_auto_spec_u64_to_from_le_bytes();
    }
    assert(spec_u64_to_le_bytes(b@.time).len() == 8) by {
        lemma_auto_spec_u64_to_from_le_bytes();
    }
    assert(e.subrange(1, 33) =~= b@.parent_hash);
    assert(e.subrange(33, 65) =~= b@.miner_address);
    assert(e.subrange(65, 73) =~= spec_u64_to_le_bytes(b@.nonce));
    assert(e.subrange(74, 82) =~= spec_u64_to_le_bytes(b@.time));
}

/// Every message has the lengths that the encoding expects, when it holds
/// fewer than 2^64 listed peers.
pub proof fn lemma_message_view_wf(m: NetworkedMessage)
    requires
        m matches NetworkedMessage::Peers(ps) ==> ps@.len() <= u64::MAX,
    ensures
        message_view_wf(m@),
{
    match m {
        NetworkedMessage::Block(b) => {
            lemma_block_roundtrip(b);
        },
        NetworkedMessage::Peers(ps) => {
            let views = peers_view(ps@);
            assert forall|i: int| 0 <= i < views.len() implies #[trigger] peer_view_wf(views[i]) by {
                assert(views[i] == peer_entry_view(ps@[i]));
            }
        },
        _ => {},
    }
}

fn read_addr(input: &[u8], pos: usize) -> (res: Result<(PeerAddr, usize), DeserializeError>)
    requires
        pos <= input@.len(),
    ensures
        match parse_addr(input@.skip(pos as int)) {
            Ok(r) => res matches Ok(got) && got.0@ == r.0 && got.1 == r.1,
            Err(e) => res matches Err(got) && got == e,
        },
        res matches Ok(got) ==> 1 <= got.1 && pos + got.1 <= input@.len(),
{
    let ghost s = input@.skip(pos as int);
    if input.len() - pos < 1 {
        return Err(DeserializeError::UnexpectedEof);
    }
    let kind = input[pos];
    if kind == 0 {
        if input.len() - pos < 7 {
            return Err(DeserializeError::UnexpectedEof);
        }
        let ip: [u8; 4] = to_array(&input[pos + 1..pos + 5]);
        let port = u16_from_le_bytes(&input[pos + 5..pos + 7]);
        assert(input@.subrange(pos + 1, pos + 5) =~= s.subrange(1, 5));
        assert(input@.subrange(pos + 5, pos + 7) =~= s.subrange(5, 7));
        Ok((PeerAddr::V4(ip, port), 7))
    } else if kind == 1 {
        if input.len() - pos < 19 {
            return Err(DeserializeError::UnexpectedEof);
        }
        let ip: [u8; 16] = to_array(&input[pos + 1..pos + 17]);
        let port = u16_from_le_bytes(&input[pos + 17..pos + 19]);
        assert(input@.subrange(pos + 1, pos + 17) =~= s.subrange(1, 17));
        assert(input@.subrange(pos + 17, pos + 19) =~= s.subrange(17, 19));
        Ok((PeerAddr::V6(ip, port), 19))
    } else {
        Err(DeserializeError::InvalidSocketAddrType(kind))
    }
}

fn read_peer(input: &[u8], pos: usize) -> (res: Result<((PeerAddr, [u8; 32]), usize), DeserializeError>)
    requires
        pos <= input@.len(),
    ensures
        match parse_peer(input@.skip(pos as int)) {
            Ok(r) => res matches Ok(got) && peer_entry_view(got.0) == r.0 && got.1 == r.1,
            Err(e) => res matches Err(got) && got == e,
        },
        res matches Ok(got) ==> 1 <= got.1 && pos + got.1 <= input@.len(),
{
    let ghost s = input@.skip(pos as int);
    let (addr, used) = match read_addr(input, pos) {
        Ok(got) => got,
        Err(e) => return Err(e),
    };
    if input.len() - pos - used < 32 {
        return Err(DeserializeError::UnexpectedEof);
    }
    let start = pos + used;
    let key: [u8; 32] = to_array(&input[start..start + 32]);
    assert(input@.subrange(start as int, start + 32) =~= s.subrange(used as int, used + 32));
    Ok(((addr, key), used + 32))
}

impl NetworkedMessage {
    /// Reads the fields of a message of type `type_byte` from the start of
    /// `input`; gives the message and the number of bytes its fields took.
    /// A block's difficulty byte is read past: a block's difficulty is always
    /// that of its hash.
    pub fn receive(type_byte: u8, input: &[u8]) -> (res: Result<(NetworkedMessage, usize), DeserializeError>)
        ensures
            match decode(type_byte, input@) {
                Ok(r) => res matches Ok(got) && got.0@ == r.0 && got.1 == r.1,
                Err(e) => res matches Err(got) && got == e,
            },
    {
        let ghost s = input@;
        if type_byte == 0 {
            Ok((NetworkedMessage::Ping, 0))
        } else if type_byte == 1 {
            Ok((NetworkedMessage::Pong, 0))
        } else if type_byte == 2 {
            if input.len() < 81 {
                return Err(DeserializeError::UnexpectedEof);
            }
            let parent_hash: [u8; 32] = to_array(&input[0..32]);
            let miner_address: [u8; 32] = to_array(&input[32..64]);
            let nonce = u64_from_le_bytes(&input[64..72]);
            let time = u64_from_le_bytes(&input[73..81]);
            Ok((NetworkedMessage::Block(Block::new(parent_hash, miner_address, nonce, time)), 81))
        } else if type_byte == 3 || type_byte == 4 || type_byte == 6 {
            if input.len() < 32 {
                return Err(DeserializeError::UnexpectedEof);
            }
            let hash: [u8; 32] = to_array(&input[0..32]);
            if type_byte == 3 {
                Ok((NetworkedMessage::Request(hash), 32))
            } else if type_byte == 4 {
                Ok((NetworkedMessage::RequestChild(hash), 32))
            } else {
                Ok((NetworkedMessage::Challenge(hash), 32))
            }
        } else if type_byte == 5 {
            if input.len() < 8 {
                return Err(DeserializeError::UnexpectedEof);
            }
            let count = u64_from_le_bytes(&input[0..8]);
            let len = input.len();
            let ghost total = count as nat;
            let mut peers: Vec<(PeerAddr, [u8; 32])> = Vec::new();
            let mut pos: usize = 8;
            let mut i: u64 = 0;
            assert(s.skip(8) =~= s.skip(pos as int));
            assert(peers_view(peers@) =~= Seq::<(PeerAddrView, Seq<u8>)>::empty());
            assert(seq![] + Seq::<(PeerAddrView, Seq<u8>)>::empty() =~= Seq::<(PeerAddrView, Seq<u8>)>::empty());
            while i < count
                invariant
                    s == input@,
                    s.len() == len,
                    type_byte == 5,
                    count == spec_u64_from_le_bytes(s.subrange(0, 8)),
                    8 <= pos <= s.len(),
                    i <= count,
                    total == count as nat,
                    parse_peers(s.skip(8), total) == prepend_peers(
                        peers_view(peers@),
                        (pos - 8) as nat,
                        parse_peers(s.skip(pos as int), (total - i) as nat),
                    ),
                decreases s.len() - pos,
            {
                let ghost before = peers_view(peers@);
                match read_peer(input, pos) {
                    Err(e) => {
                        assert(parse_peers(s.skip(pos as int), (total - i) as nat) == Err::<(Seq<(PeerAddrView, Seq<u8>)>, nat), DeserializeError>(e));
                        return Err(e);
                    },
                    Ok(got) => {
                        let ghost rest = s.skip(pos as int);
                        assert(rest.skip(got.1 as int) =~= s.skip(pos + got.1));
                        peers.push(got.0);
                        pos = pos + got.1;
                        i = i + 1;
                        proof {
                            assert(peers_view(peers@) =~= before.push(peer_entry_view(got.0)));
                            match parse_peers(s.skip(pos as int), (total - i) as nat) {
                                Err(e) => {},
                                Ok(r) => {
                                    assert(before + (seq![peer_entry_view(got.0)] + r.0) =~= before.push(peer_entry_view(got.0)) + r.0);
                                },
                            }
                        }
                    },
                }
            }
            assert(peers_view(peers@) + Seq::<(PeerAddrView, Seq<u8>)>::empty() =~= peers_view(peers@));
            Ok((NetworkedMessage::Peers(peers), pos))
        } else if type_byte == 7 {
            if input.len() < 96 {
                return Err(DeserializeError::UnexpectedEof);
            }
            let public_key: [u8; 32] = to_array(&input[0..32]);
            let signature: [u8; 64] = to_array(&input[32..96]);
            Ok((NetworkedMessage::ChallengeResponse { public_key, signature }, 96))
        } else {
            Err(DeserializeError::InvalidMessageType(type_byte))
        }
    }

    /// Appends the message's bytes, type byte first, to `out`.
    pub fn send(&self, out: &mut Vec<u8>)
        ensures
            final(out)@ == old(out)@ + encode(self@),
    {
        let ghost start = out@;
        match self {
            NetworkedMessage::Ping => {
                out.push(0);
            },
            NetworkedMessage::Pong => {
                out.push(1);
            },
            NetworkedMessage::Block(block) => {
                out.push(2);
                append_bytes(out, block.parent_hash().as_slice());
                append_bytes(out, block.miner_address().as_slice());
                let n = u64_to_le_bytes(block.nonce());
                append_bytes(out, n.as_slice());
                out.push(block.difficulty());
                let t = u64_to_le_bytes(block.time());
                append_bytes(out, t.as_slice());
                assert(out@ =~= start + encode(self@));
            },
            NetworkedMessage::Request(hash) => {
                out.push(3);
                append_bytes(out, hash.as_slice());
                assert(out@ =~= start + encode(self@));
            },
            NetworkedMessage::RequestChild(hash) => {
                out.push(4);
                append_bytes(out, hash.as_slice());
                assert(out@ =~= start + encode(self@));
            },
            NetworkedMessage::Peers(peers) => {
                out.push(5);
                let count = u64_to_le_bytes(peers.len() as u64);
                append_bytes(out, count.as_slice());
                let ghost views = peers_view(peers@);
                let ghost head = out@;
                let mut i: usize = 0;
                assert(views.take(0) =~= Seq::<(PeerAddrView, Seq<u8>)>::empty());
                while i < peers.len()
                    invariant
                        i <= peers@.len(),
                        views == peers_view(peers@),
                        out@ == head + encode_peers(views.take(i as int)),
                    decreases peers@.len() - i,
                {
                    let (addr, key) = peers[i];
                    let ghost before = out@;
                    match addr {
                        PeerAddr::V4(ip, port) => {
                            out.push(0);
                            append_bytes(out, ip.as_slice());
                            let b = u16_to_le_bytes(port);
                            append_bytes(out, b.as_slice());
                        },
                        PeerAddr::V6(ip, port) => {
                            out.push(1);
                            append_bytes(out, ip.as_slice());
                            let b = u16_to_le_bytes(port);
                            append_bytes(out, b.as_slice());
                        },
                    }
                    append_bytes(out, key.as_slice());
                    proof {
                        assert(out@ =~= before + encode_peer(views[i as int]));
                        assert(views.take(i + 1) =~= views.take(i as int).push(views[i as int]));
                        lemma_encode_peers_push(views.take(i as int), views[i as int]);
                    }
                    i = i + 1;
                }
                assert(views.take(peers@.len() as int) =~= views);
                assert(out@ =~= start + encode(self@));
            },
            NetworkedMessage::Challenge(challenge) => {
                out.push(6);
                append_bytes(out, challenge.as_slice());
                assert(out@ =~= start + encode(self@));
            },
            NetworkedMessage::ChallengeResponse { public_key, signature } => {
                out.push(7);
                append_bytes(out, public_key.as_slice());
                append_bytes(out, signature.as_slice());
                assert(out@ =~= start + encode(self@));
            },
        }
    }
}

} // verus!
