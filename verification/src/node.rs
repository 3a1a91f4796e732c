//! The node's decisions: for each event (a peer's message, a mined block, a
//! connection that opened or closed), what changes in the block store and in
//! the peer table, and what is sent to the network and to the miner.

use vstd::prelude::*;

use crate::block::{Block, BlockView, hash_of};
use crate::blockchain::{Blockchain, Error, add_outcome, get_outcome, walk_to_child, block_at};
use crate::crypto::{SigningKey, random_bytes32, verify};
use crate::crypto::{spec_ed25519_public_key, spec_ed25519_sign, spec_ed25519_verify};
use crate::keyed_map::KeyedMap;
use crate::miner::ToMiner;
use crate::networked_message::{NetworkedMessage, PeerAddr, PeerAddrView, peers_view, peer_entry_view};
use crate::byte_util::equal32;

verus! {

/// What the node asks of the networking side.
#[derive(Debug)]
pub enum Outgoing {
    Connect(PeerAddr),
    /// Send to one peer.
    Send(PeerAddr, NetworkedMessage),
    /// Send to every peer but this one.
    Forward(PeerAddr, NetworkedMessage),
    /// Send to every peer.
    Broadcast(NetworkedMessage),
}

/// What happened that the node is told of.
#[derive(Debug)]
pub enum Incoming {
    Message(PeerAddr, NetworkedMessage),
    Mined(Block),
    ConnectionEstablished(PeerAddr),
    ConnectionClosed(PeerAddr),
}

/// Outcomes worth telling the user.
#[derive(Debug)]
pub enum Report {
    BlockAdded(Block, u64),
    BlockRefused(Error, Block),
    DuplicateBlock(Block),
    BlockNotFound([u8; 32]),
    ChildNotFound([u8; 32]),
    /// A listed peer whose address or public key is already stored.
    KnownPeer(PeerAddr, [u8; 32]),
    NewPeer(PeerAddr),
    PeerVerified(PeerAddr),
    InvalidChallengeResponse(PeerAddr),
    UnsolicitedChallengeResponse(PeerAddr),
    MinedBlockAdded(Block, u64),
    MinedBlockRefused(Error),
    ConnectionEstablishedTwice(PeerAddr),
    /// The top block and its height, asked for at the terminal.
    TopBlock(Block, u64),
}

/// What the user asks of the node at the terminal.
#[derive(Debug)]
pub enum UserCommand {
    SendPing,
    StartMining,
    PauseMining,
    ShowTopBlock,
    Connect(PeerAddr),
}

/// One thing the node does in answer to an event.
#[derive(Debug)]
pub enum Action {
    Network(Outgoing),
    Miner(ToMiner),
    Report(Report),
}

/// A peer's entry: the challenge sent to it, and its public key once it has
/// signed that challenge.
pub type PeerInfo = ([u8; 32], Option<[u8; 32]>);

/// A node: its block store, its peers, and its signing key.
pub struct Node {
    pub blockchain: Blockchain,
    pub peers: KeyedMap<PeerAddr, PeerInfo>,
    pub keypair: SigningKey,
}

/// Some stored peer has shown this public key.
pub open spec fn key_known(peers: Map<PeerAddrView, PeerInfo>, key: Seq<u8>) -> bool {
    exists|a: PeerAddrView| #[trigger] peers.contains_key(a) && (peers[a].1 matches Some(pk) && pk@ == key)
}

/// A listed peer is known when a stored peer has its address, or a stored
/// peer has shown its public key.
pub open spec fn is_known(peers: Map<PeerAddrView, PeerInfo>, p: (PeerAddr, [u8; 32])) -> bool {
    peers.contains_key(p.0@) || key_known(peers, p.1@)
}

/// What answering a list of peers does: each known one is reported as
/// known, each other one is reported as new and connected to.
pub open spec fn peer_list_actions(known: Map<PeerAddrView, PeerInfo>, list: Seq<(PeerAddr, [u8; 32])>) -> Seq<Action>
    decreases list.len(),
{
    if list.len() == 0 {
        Seq::empty()
    } else {
        let last = list.last();
        peer_list_actions(known, list.drop_last()) + if is_known(known, last) {
            seq![Action::Report(Report::KnownPeer(last.0, last.1))]
        } else {
            seq![Action::Report(Report::NewPeer(last.0)), Action::Network(Outgoing::Connect(last.0))]
        }
    }
}

/// The peers among `keys` that have shown their public key, each with that
/// key, in order.
pub open spec fn verified_peers_of(keys: Seq<PeerAddrView>, peers: Map<PeerAddrView, PeerInfo>) -> Seq<(PeerAddrView, Seq<u8>)>
    decreases keys.len(),
{
    if keys.len() == 0 {
        Seq::empty()
    } else {
        let rest = verified_peers_of(keys.drop_last(), peers);
        match peers[keys.last()].1 {
            Some(pk) => rest.push((keys.last(), pk@)),
            None => rest,
        }
    }
}

/// `signature` is the signature of `challenge` by the secret key whose public
/// key is `public_key`.
pub open spec fn signed_challenge(public_key: Seq<u8>, signature: Seq<u8>, challenge: Seq<u8>) -> bool {
    exists|secret_key: Seq<u8>|
        secret_key.len() == 32 && public_key == spec_ed25519_public_key(secret_key) && signature
            == #[trigger] spec_ed25519_sign(secret_key, challenge)
}

/// The height recorded for the top block's hash.
pub open spec fn top_height(node: &Node) -> u64 {
    let v = node.blockchain@;
    v.entries[hash_of(block_at(v.storage, v.top.address as int))].height
}

impl Node {
    pub open spec fn wf(&self) -> bool {
        self.blockchain.wf() && self.peers.wf()
    }

    pub open spec fn key(&self) -> Seq<u8> {
        self.keypair@
    }

    /// A node with this block store, no peers, and a fresh random signing key.
    pub fn new(blockchain: Blockchain) -> (res: Node)
        requires
            blockchain.wf(),
        ensures
            res.wf(),
            res.blockchain@ == blockchain@,
            res.peers@ == Map::<PeerAddrView, PeerInfo>::empty(),
            res.key().len() == 32,
    {
        Node { blockchain, peers: KeyedMap::new(), keypair: SigningKey::generate() }
    }

    fn on_block(&mut self, peer: PeerAddr, block: Block) -> (res: Vec<Action>)
        requires
            old(self).wf(),
        ensures
            final(self).wf(),
            final(self).peers@ == old(self).peers@,
            final(self).key() == old(self).key(),
            ({
                let v = old(self).blockchain@;
                let hash = hash_of(block@);
                if v.entries.contains_key(hash) {
                    &&& final(self).blockchain@ == v
                    &&& res@ == seq![Action::Report(Report::DuplicateBlock(block))]
                } else {
                    let outcome = add_outcome(v, block@);
                    &&& final(self).blockchain@ == outcome.1
                    &&& match outcome.0 {
                        Ok(_) => {
                            let h = outcome.1.entries[hash].height;
                            let grew = h > top_height(old(self));
                            &&& res@.len() == (if grew { 4int } else { 3int })
                            &&& res@[0] == Action::Report(Report::BlockAdded(block, h))
                            &&& res@[1] == Action::Network(Outgoing::Forward(peer, NetworkedMessage::Block(block)))
                            &&& grew ==> res@[2] == Action::Miner(ToMiner::Reset(block))
                            &&& res@.last() matches Action::Network(Outgoing::Send(to, NetworkedMessage::RequestChild(child_of)))
                            &&& to == peer && child_of@ == hash
                        },
                        Err(Error::MissingParent) => {
                            &&& res@.len() == 1
                            &&& res@[0] matches Action::Network(Outgoing::Send(to, NetworkedMessage::Request(wanted)))
                            &&& to == peer && wanted@ == block@.parent_hash
                        },
                        Err(e) => res@ == seq![Action::Report(Report::BlockRefused(e, block))],
                    }
                }
            }),
    {
        let mut actions: Vec<Action> = Vec::new();
        if self.blockchain.contains(block.hash()) {
            actions.push(Action::Report(Report::DuplicateBlock(block)));
            return actions;
        }
        proof {
            self.blockchain.lemma_wf();
        }
        let top = match self.blockchain.top() {
            Ok(t) => t,
            Err(_) => {
                assert(false);
                block
            },
        };
        let old_top_height = match self.blockchain.height(top.hash()) {
            Ok(h) => h,
            Err(_) => {
                assert(false);
                0
            },
        };
        match self.blockchain.add(block) {
            Ok(()) => {
                proof {
                    self.blockchain.lemma_wf();
                }
                let height = match self.blockchain.height(block.hash()) {
                    Ok(h) => h,
                    Err(_) => {
                        assert(false);
                        0
                    },
                };
                actions.push(Action::Report(Report::BlockAdded(block, height)));
                actions.push(Action::Network(Outgoing::Forward(peer, NetworkedMessage::Block(block))));
                if height > old_top_height {
                    actions.push(Action::Miner(ToMiner::Reset(block)));
                }
                actions.push(
                    Action::Network(Outgoing::Send(peer, NetworkedMessage::RequestChild(*block.hash()))),
                );
            },
            Err(Error::MissingParent) => {
                actions.push(
                    Action::Network(Outgoing::Send(peer, NetworkedMessage::Request(block.parent_hash()))),
                );
            },
            Err(e) => {
                actions.push(Action::Report(Report::BlockRefused(e, block)));
            },
        }
        actions
    }

    fn on_mined(&mut self, block: Block) -> (res: Vec<Action>)
        requires
            old(self).wf(),
        ensures
            final(self).wf(),
            final(self).peers@ == old(self).peers@,
            final(self).key() == old(self).key(),
            ({
                let outcome = add_outcome(old(self).blockchain@, block@);
                &&& final(self).blockchain@ == outcome.1
                &&& match outcome.0 {
                    Ok(_) => res@ == seq![
                        Action::Report(Report::MinedBlockAdded(block, outcome.1.entries[hash_of(block@)].height)),
                        Action::Network(Outgoing::Broadcast(NetworkedMessage::Block(block))),
                        Action::Miner(ToMiner::Reset(block)),
                    ],
                    Err(e) => res@ == seq![Action::Report(Report::MinedBlockRefused(e))],
                }
            }),
    {
        let mut actions: Vec<Action> = Vec::new();
        match self.blockchain.add(block) {
            Ok(()) => {
                proof {
                    self.blockchain.lemma_wf();
                }
                let height = match self.blockchain.height(block.hash()) {
                    Ok(h) => h,
                    Err(_) => {
                        assert(false);
                        0
                    },
                };
                actions.push(Action::Report(Report::MinedBlockAdded(block, height)));
                actions.push(Action::Network(Outgoing::Broadcast(NetworkedMessage::Block(block))));
                actions.push(Action::Miner(ToMiner::Reset(block)));
            },
            Err(e) => {
                actions.push(Action::Report(Report::MinedBlockRefused(e)));
            },
        }
        actions
    }

    /// Whether some stored peer has shown this public key.
    fn knows_key(&self, key: &[u8; 32]) -> (res: bool)
        requires
            self.wf(),
        ensures
            res == key_known(self.peers@, key@),
    {
        let n = self.peers.len();
        let ghost keys = self.peers.key_seq();
        proof {
            self.peers.lemma_len();
        }
        let mut i: usize = 0;
        while i < n
            invariant
                self.wf(),
                keys == self.peers.key_seq(),
                keys.to_set() == self.peers@.dom(),
                n == keys.len(),
                n == self.peers.spec_len(),
                i <= n,
                forall|j: int| 0 <= j < i ==> !(#[trigger] self.peers@[keys[j]].1 matches Some(pk) && pk@ == key@),
            decreases n - i,
        {
            let (addr, info) = self.peers.entry_at(i);
            match info.1 {
                Some(pk) => {
                    if equal32(&pk, key) {
                        assert(self.peers@.contains_key(addr@));
                        return true;
                    }
                },
                None => {},
            }
            i = i + 1;
        }
        proof {
            assert forall|a: PeerAddrView| #[trigger] self.peers@.contains_key(a) implies !(self.peers@[a].1 matches Some(pk) && pk@ == key@) by {
                assert(keys.to_set().contains(a));
                let j = choose|j: int| 0 <= j < keys.len() && keys[j] == a;
                assert(self.peers@[keys[j]].1 == self.peers@[a].1);
            }
        }
        false
    }

    fn on_peers(&self, list: &Vec<(PeerAddr, [u8; 32])>) -> (res: Vec<Action>)
        requires
            self.wf(),
        ensures
            res@ == peer_list_actions(self.peers@, list@),
    {
        let mut actions: Vec<Action> = Vec::new();
        let mut i: usize = 0;
        assert(list@.take(0) =~= Seq::<(PeerAddr, [u8; 32])>::empty());
        while i < list.len()
            invariant
                self.wf(),
                i <= list@.len(),
                actions@ == peer_list_actions(self.peers@, list@.take(i as int)),
            decreases list@.len() - i,
        {
            let (addr, key) = list[i];
            if self.peers.contains_key(&addr) || self.knows_key(&key) {
                actions.push(Action::Report(Report::KnownPeer(addr, key)));
            } else {
                actions.push(Action::Report(Report::NewPeer(addr)));
                actions.push(Action::Network(Outgoing::Connect(addr)));
            }
            proof {
                assert(list@.take(i + 1).drop_last() =~= list@.take(i as int));
                assert(list@.take(i + 1).last() == (addr, key));
                assert(actions@ =~= peer_list_actions(self.peers@, list@.take(i + 1)));
            }
            i = i + 1;
        }
        assert(list@.take(list@.len() as int) =~= list@);
        actions
    }

    fn on_challenge_response(&mut self, peer: PeerAddr, public_key: [u8; 32], signature: [u8; 64]) -> (res: Vec<Action>)
        requires
            old(self).wf(),
        ensures
            final(self).wf(),
            final(self).blockchain@ == old(self).blockchain@,
            final(self).key() == old(self).key(),
            !old(self).peers@.contains_key(peer@) ==> final(self).peers@ == old(self).peers@ && res@ == seq![
                Action::Report(Report::UnsolicitedChallengeResponse(peer)),
            ],
            old(self).peers@.contains_key(peer@) && signed_challenge(public_key@, signature@, old(self).peers@[peer@].0@)
                ==> final(self).peers@ == old(self).peers@.insert(
                peer@,
                (old(self).peers@[peer@].0, Some(public_key)),
            ),
            old(self).peers@.contains_key(peer@) ==> ({
                let challenge = old(self).peers@[peer@].0;
                if spec_ed25519_verify(public_key@, challenge@, signature@) {
                    &&& final(self).peers@ == old(self).peers@.insert(peer@, (challenge, Some(public_key)))
                    &&& res@ == seq![Action::Report(Report::PeerVerified(peer))]
                } else {
                    &&& final(self).peers@ == old(self).peers@
                    &&& res@ == seq![Action::Report(Report::InvalidChallengeResponse(peer))]
                }
            }),
    {
        let mut actions: Vec<Action> = Vec::new();
        match self.peers.get(&peer) {
            Some(info) => {
                let challenge = info.0;
                if verify(&public_key, challenge.as_slice(), &signature) {
                    self.peers.insert(peer, (challenge, Some(public_key)));
                    actions.push(Action::Report(Report::PeerVerified(peer)));
                } else {
                    actions.push(Action::Report(Report::InvalidChallengeResponse(peer)));
                }
            },
            None => {
                actions.push(Action::Report(Report::UnsolicitedChallengeResponse(peer)));
            },
        }
        actions
    }

    fn verified_peers(&self) -> (res: Vec<(PeerAddr, [u8; 32])>)
        requires
            self.wf(),
        ensures
            peers_view(res@) == verified_peers_of(self.peers.key_seq(), self.peers@),
    {
        let mut out: Vec<(PeerAddr, [u8; 32])> = Vec::new();
        let n = self.peers.len();
        let ghost keys = self.peers.key_seq();
        proof {
            self.peers.lemma_len();
        }
        let mut i: usize = 0;
        assert(keys.take(0) =~= Seq::<PeerAddrView>::empty());
        assert(peers_view(out@) =~= Seq::<(PeerAddrView, Seq<u8>)>::empty());
        while i < n
            invariant
                self.wf(),
                keys == self.peers.key_seq(),
                n == keys.len(),
                n == self.peers.spec_len(),
                i <= n,
                peers_view(out@) == verified_peers_of(keys.take(i as int), self.peers@),
            decreases n - i,
        {
            let (addr, info) = self.peers.entry_at(i);
            let ghost before = peers_view(out@);
            match info.1 {
                Some(pk) => {
                    out.push((addr, pk));
                    assert(peers_view(out@) =~= before.push(peer_entry_view((addr, pk))));
                },
                None => {
                    assert(peers_view(out@) =~= before);
                },
            }
            proof {
                assert(keys.take(i + 1).drop_last() =~= keys.take(i as int));
                assert(keys.take(i + 1).last() == keys[i as int]);
            }
            i = i + 1;
        }
        assert(keys.take(n as int) =~= keys);
        out
    }

    fn on_connection_established(&mut self, peer: PeerAddr) -> (res: Vec<Action>)
        requires
            old(self).wf(),
        ensures
            final(self).wf(),
            final(self).blockchain@ == old(self).blockchain@,
            final(self).key() == old(self).key(),
            ({
                let twice = old(self).peers@.contains_key(peer@);
                let first = if twice { 1int } else { 0int };
                &&& res@.len() == first + 3
                &&& twice ==> res@[0] == Action::Report(Report::ConnectionEstablishedTwice(peer))
                &&& res@[first] matches Action::Network(Outgoing::Send(to, NetworkedMessage::Challenge(challenge)))
                &&& to == peer
                &&& final(self).peers@ == old(self).peers@.insert(peer@, (challenge, None::<[u8; 32]>))
                &&& res@[first + 1] matches Action::Network(Outgoing::Send(to2, NetworkedMessage::Block(top)))
                &&& to2 == peer
                &&& top@ == block_at(old(self).blockchain@.storage, old(self).blockchain@.top.address as int)
                &&& res@[first + 2] matches Action::Network(Outgoing::Send(to3, NetworkedMessage::Peers(list)))
                &&& to3 == peer
                &&& peers_view(list@) == verified_peers_of(final(self).peers.key_seq(), final(self).peers@)
            }),
    {
        let mut actions: Vec<Action> = Vec::new();
        let challenge = random_bytes32();
        if let Some(_) = self.peers.insert(peer, (challenge, None)) {
            actions.push(Action::Report(Report::ConnectionEstablishedTwice(peer)));
        }
        actions.push(Action::Network(Outgoing::Send(peer, NetworkedMessage::Challenge(challenge))));
        let top = match self.blockchain.top() {
            Ok(t) => t,
            Err(_) => {
                assert(false);
                return actions;
            },
        };
        actions.push(Action::Network(Outgoing::Send(peer, NetworkedMessage::Block(top))));
        let list = self.verified_peers();
        actions.push(Action::Network(Outgoing::Send(peer, NetworkedMessage::Peers(list))));
        actions
    }

    /// Answers a command typed at the terminal: a ping goes to every peer,
    /// mining starts on the top block or stops, the top block is shown with
    /// its height, or a connection to an address is asked for.
    pub fn on_command(&self, command: UserCommand) -> (res: Vec<Action>)
        requires
            self.wf(),
        ensures
            match command {
                UserCommand::SendPing => res@ == seq![Action::Network(Outgoing::Broadcast(NetworkedMessage::Ping))],
                UserCommand::PauseMining => res@ == seq![Action::Miner(ToMiner::Stop)],
                UserCommand::Connect(addr) => res@ == seq![Action::Network(Outgoing::Connect(addr))],
                UserCommand::StartMining => res@.len() == 1 && (res@[0] matches Action::Miner(ToMiner::Start(b))
                    && b@ == block_at(self.blockchain@.storage, self.blockchain@.top.address as int)),
                UserCommand::ShowTopBlock => res@.len() == 1 && (res@[0] matches Action::Report(Report::TopBlock(b, h))
                    && b@ == block_at(self.blockchain@.storage, self.blockchain@.top.address as int) && h
                    == top_height(self)),
            },
    {
        let mut actions: Vec<Action> = Vec::new();
        match command {
            UserCommand::SendPing => actions.push(Action::Network(Outgoing::Broadcast(NetworkedMessage::Ping))),
            UserCommand::PauseMining => actions.push(Action::Miner(ToMiner::Stop)),
            UserCommand::Connect(addr) => actions.push(Action::Network(Outgoing::Connect(addr))),
            UserCommand::StartMining | UserCommand::ShowTopBlock => {
                proof {
                    self.blockchain.lemma_wf();
                }
                let top = match self.blockchain.top() {
                    Ok(t) => t,
                    Err(_) => {
                        assert(false);
                        return actions;
                    },
                };
                match command {
                    UserCommand::StartMining => actions.push(Action::Miner(ToMiner::Start(top))),
                    _ => {
                        let height = match self.blockchain.height(top.hash()) {
                            Ok(h) => h,
                            Err(_) => {
                                assert(false);
                                0
                            },
                        };
                        actions.push(Action::Report(Report::TopBlock(top, height)));
                    },
                }
            },
        }
        actions
    }

    /// Answers one event.
    ///
    /// - `Ping` is answered with `Pong`; `Pong` needs no answer.
    /// - A block not yet stored is added; an added block is forwarded to every
    ///   other peer, the miner is reset onto it when it is higher than the
    ///   top was, and its child is asked of the sender; a block whose parent
    ///   is missing makes the node ask the sender for the parent.
    /// - `Request` and `RequestChild` are answered with the block asked for.
    /// - Of a list of peers, those whose address is stored, or whose public
    ///   key a stored peer has shown, are reported as known; the others are
    ///   connected to.
    /// - A challenge is answered with the node's public key and its signature
    ///   of the challenge; a peer whose answer to the node's own challenge
    ///   verifies is recorded with its public key.
    /// - A mined block is added, broadcast, and the miner reset onto it.
    /// - A new connection gets a fresh random challenge, the top block and the
    ///   verified peers, each with its public key; a closed connection's peer
    ///   is forgotten.
    pub fn process(&mut self, event: Incoming) -> (res: Vec<Action>)
        requires
            old(self).wf(),
        ensures
            final(self).wf(),
            final(self).key() == old(self).key(),
            match event {
                Incoming::Message(peer, NetworkedMessage::Ping) => {
                    &&& final(self).blockchain@ == old(self).blockchain@
                    &&& final(self).peers@ == old(self).peers@
                    &&& res@ == seq![Action::Network(Outgoing::Send(peer, NetworkedMessage::Pong))]
                },
                Incoming::Message(_, NetworkedMessage::Pong) => {
                    &&& final(self).blockchain@ == old(self).blockchain@
                    &&& final(self).peers@ == old(self).peers@
                    &&& res@.len() == 0
                },
                Incoming::Message(peer, NetworkedMessage::Block(block)) => {
                    let v = old(self).blockchain@;
                    let hash = hash_of(block@);
                    &&& final(self).peers@ == old(self).peers@
                    &&& v.entries.contains_key(hash) ==> final(self).blockchain@ == v && res@ == seq![
                        Action::Report(Report::DuplicateBlock(block)),
                    ]
                    &&& !v.entries.contains_key(hash) ==> {
                        let outcome = add_outcome(v, block@);
                        &&& final(self).blockchain@ == outcome.1
                        &&& match outcome.0 {
                            Ok(_) => {
                                let h = outcome.1.entries[hash].height;
                                let grew = h > top_height(old(self));
                                &&& res@.len() == (if grew { 4int } else { 3int })
                                &&& res@[0] == Action::Report(Report::BlockAdded(block, h))
                                &&& res@[1] == Action::Network(Outgoing::Forward(peer, NetworkedMessage::Block(block)))
                                &&& grew ==> res@[2] == Action::Miner(ToMiner::Reset(block))
                                &&& res@.last() matches Action::Network(Outgoing::Send(to, NetworkedMessage::RequestChild(child_of)))
                                &&& to == peer && child_of@ == hash
                            },
                            Err(Error::MissingParent) => {
                                &&& res@.len() == 1
                                &&& res@[0] matches Action::Network(Outgoing::Send(to, NetworkedMessage::Request(wanted)))
                                &&& to == peer && wanted@ == block@.parent_hash
                            },
                            Err(e) => res@ == seq![Action::Report(Report::BlockRefused(e, block))],
                        }
                    }
                },
                Incoming::Message(peer, NetworkedMessage::Request(hash)) => {
                    &&& final(self).blockchain@ == old(self).blockchain@
                    &&& final(self).peers@ == old(self).peers@
                    &&& match get_outcome(old(self).blockchain@, hash@) {
                        Ok(found) => res@.len() == 1 && (res@[0] matches Action::Network(Outgoing::Send(to, NetworkedMessage::Block(b)))
                            && to == peer && b@ == found),
                        Err(_) => res@ == seq![Action::Report(Report::BlockNotFound(hash))],
                    }
                },
                Incoming::Message(peer, NetworkedMessage::RequestChild(hash)) => {
                    let v = old(self).blockchain@;
                    &&& final(self).blockchain@ == v
                    &&& final(self).peers@ == old(self).peers@
                    &&& match walk_to_child(v, block_at(v.storage, v.top.address as int), hash@, v.entries.dom().len()) {
                        Ok(found) => res@.len() == 1 && (res@[0] matches Action::Network(Outgoing::Send(to, NetworkedMessage::Block(b)))
                            && to == peer && b@ == found),
                        Err(_) => res@ == seq![Action::Report(Report::ChildNotFound(hash))],
                    }
                },
                Incoming::Message(_, NetworkedMessage::Peers(list)) => {
                    &&& final(self).blockchain@ == old(self).blockchain@
                    &&& final(self).peers@ == old(self).peers@
                    &&& res@ == peer_list_actions(old(self).peers@, list@)
                },
                Incoming::Message(peer, NetworkedMessage::Challenge(challenge)) => {
                    &&& final(self).blockchain@ == old(self).blockchain@
                    &&& final(self).peers@ == old(self).peers@
                    &&& res@.len() == 1
                    &&& res@[0] matches Action::Network(Outgoing::Send(to, NetworkedMessage::ChallengeResponse { public_key, signature }))
                    &&& to == peer
                    &&& public_key@ == spec_ed25519_public_key(old(self).key())
                    &&& signature@ == spec_ed25519_sign(old(self).key(), challenge@)
                },
                Incoming::Message(peer, NetworkedMessage::ChallengeResponse { public_key, signature }) => {
                    &&& final(self).blockchain@ == old(self).blockchain@
                    &&& !old(self).peers@.contains_key(peer@) ==> final(self).peers@ == old(self).peers@ && res@ == seq![
                        Action::Report(Report::UnsolicitedChallengeResponse(peer)),
                    ]
                    &&& old(self).peers@.contains_key(peer@) && signed_challenge(
                        public_key@,
                        signature@,
                        old(self).peers@[peer@].0@,
                    ) ==> final(self).peers@ == old(self).peers@.insert(
                        peer@,
                        (old(self).peers@[peer@].0, Some(public_key)),
                    )
                    &&& old(self).peers@.contains_key(peer@) ==> {
                        let challenge = old(self).peers@[peer@].0;
                        if spec_ed25519_verify(public_key@, challenge@, signature@) {
                            &&& final(self).peers@ == old(self).peers@.insert(peer@, (challenge, Some(public_key)))
                            &&& res@ == seq![Action::Report(Report::PeerVerified(peer))]
                        } else {
                            &&& final(self).peers@ == old(self).peers@
                            &&& res@ == seq![Action::Report(Report::InvalidChallengeResponse(peer))]
                        }
                    }
                },
                Incoming::Mined(block) => {
                    let outcome = add_outcome(old(self).blockchain@, block@);
                    &&& final(self).blockchain@ == outcome.1
                    &&& final(self).peers@ == old(self).peers@
                    &&& match outcome.0 {
                        Ok(_) => res@ == seq![
                            Action::Report(Report::MinedBlockAdded(block, outcome.1.entries[hash_of(block@)].height)),
                            Action::Network(Outgoing::Broadcast(NetworkedMessage::Block(block))),
                            Action::Miner(ToMiner::Reset(block)),
                        ],
                        Err(e) => res@ == seq![Action::Report(Report::MinedBlockRefused(e))],
                    }
                },
                Incoming::ConnectionEstablished(peer) => {
                    let twice = old(self).peers@.contains_key(peer@);
                    let first = if twice { 1int } else { 0int };
                    &&& final(self).blockchain@ == old(self).blockchain@
                    &&& res@.len() == first + 3
                    &&& twice ==> res@[0] == Action::Report(Report::ConnectionEstablishedTwice(peer))
                    &&& res@[first] matches Action::Network(Outgoing::Send(to, NetworkedMessage::Challenge(challenge)))
                    &&& to == peer
                    &&& final(self).peers@ == old(self).peers@.insert(peer@, (challenge, None::<[u8; 32]>))
                    &&& res@[first + 1] matches Action::Network(Outgoing::Send(to2, NetworkedMessage::Block(top)))
                    &&& to2 == peer
                    &&& top@ == block_at(old(self).blockchain@.storage, old(self).blockchain@.top.address as int)
                    &&& res@[first + 2] matches Action::Network(Outgoing::Send(to3, NetworkedMessage::Peers(list)))
                    &&& to3 == peer
                    &&& peers_view(list@) == verified_peers_of(final(self).peers.key_seq(), final(self).peers@)
                },
                Incoming::ConnectionClosed(peer) => {
                    &&& final(self).blockchain@ == old(self).blockchain@
                    &&& final(self).peers@ == old(self).peers@.remove(peer@)
                    &&& res@.len() == 0
                },
            },
    {
        match event {
            Incoming::Message(peer, NetworkedMessage::Ping) => {
                let mut actions: Vec<Action> = Vec::new();
                actions.push(Action::Network(Outgoing::Send(peer, NetworkedMessage::Pong)));
                actions
            },
            Incoming::Message(_, NetworkedMessage::Pong) => Vec::new(),
            Incoming::Message(peer, NetworkedMessage::Block(block)) => self.on_block(peer, block),
            Incoming::Message(peer, NetworkedMessage::Request(hash)) => {
                let mut actions: Vec<Action> = Vec::new();
                match self.blockchain.get(&hash) {
                    Ok(block) => actions.push(Action::Network(Outgoing::Send(peer, NetworkedMessage::Block(block)))),
                    Err(_) => actions.push(Action::Report(Report::BlockNotFound(hash))),
                }
                actions
            },
            Incoming::Message(peer, NetworkedMessage::RequestChild(hash)) => {
                let mut actions: Vec<Action> = Vec::new();
                match self.blockchain.get_child(&hash) {
                    Ok(block) => actions.push(Action::Network(Outgoing::Send(peer, NetworkedMessage::Block(block)))),
                    Err(_) => actions.push(Action::Report(Report::ChildNotFound(hash))),
                }
                actions
            },
            Incoming::Message(_, NetworkedMessage::Peers(list)) => self.on_peers(&list),
            Incoming::Message(peer, NetworkedMessage::Challenge(challenge)) => {
                let mut actions: Vec<Action> = Vec::new();
                let public_key = self.keypair.public_key();
                let signature = self.keypair.sign(challenge.as_slice());
                actions.push(
                    Action::Network(
                        Outgoing::Send(peer, NetworkedMessage::ChallengeResponse { public_key, signature }),
                    ),
                );
                actions
            },
            Incoming::Message(peer, NetworkedMessage::ChallengeResponse { public_key, signature }) => {
                self.on_challenge_response(peer, public_key, signature)
            },
            Incoming::Mined(block) => self.on_mined(block),
            Incoming::ConnectionEstablished(peer) => self.on_connection_established(peer),
            Incoming::ConnectionClosed(peer) => {
                self.peers.remove(&peer);
                Vec::new()
            },
        }
    }
}

/// A node's answer to a challenge is accepted by the node that sent the
/// challenge: the signature it carries is that of the challenge by the key
/// whose public key it carries.
pub proof fn lemma_answer_is_accepted(key: Seq<u8>, challenge: Seq<u8>)
    requires
        key.len() == 32,
    ensures
        signed_challenge(spec_ed25519_public_key(key), spec_ed25519_sign(key, challenge), challenge),
{
}


proof fn lemma_verified_peers_of_contains(
    keys: Seq<PeerAddrView>,
    peers: Map<PeerAddrView, PeerInfo>,
    a: PeerAddrView,
    k: Seq<u8>,
)
    ensures
        verified_peers_of(keys, peers).contains((a, k)) <==> (keys.contains(a) && (peers[a].1 matches Some(pk)
            && pk@ == k)),
    decreases keys.len(),
{
    if keys.len() > 0 {
        let rest = keys.drop_last();
        lemma_verified_peers_of_contains(rest, peers, a, k);
        let r = verified_peers_of(rest, peers);
        assert(keys =~= rest.push(keys.last()));
        assert(keys.contains(a) <==> (rest.contains(a) || keys.last() == a)) by {
            if keys.contains(a) {
                let i = choose|i: int| 0 <= i < keys.len() && keys[i] == a;
                if i < keys.len() - 1 {
                    assert(rest[i] == a);
                }
            }
            if rest.contains(a) {
                let i = choose|i: int| 0 <= i < rest.len() && rest[i] == a;
                assert(keys[i] == a);
            }
        }
        match peers[keys.last()].1 {
            Some(pk) => {
                assert(r.push((keys.last(), pk@)).contains((a, k)) <==> (r.contains((a, k)) || (keys.last(), pk@) == (a, k))) by {
                    let q = r.push((keys.last(), pk@));
                    if q.contains((a, k)) {
                        let i = choose|i: int| 0 <= i < q.len() && q[i] == (a, k);
                        if i < r.len() {
                            assert(r[i] == (a, k));
                        }
                    }
                    if r.contains((a, k)) {
                        let i = choose|i: int| 0 <= i < r.len() && r[i] == (a, k);
                        assert(q[i] == (a, k));
                    }
                    assert(q[r.len() as int] == (keys.last(), pk@));
                }
            },
            None => {},
        }
    }
}

/// The peers a node sends to a new connection are exactly its peers that
/// have shown their public key, each with that key.
pub proof fn lemma_sent_peers_are_verified(node: &Node, a: PeerAddrView, k: Seq<u8>)
    requires
        node.wf(),
    ensures
        verified_peers_of(node.peers.key_seq(), node.peers@).contains((a, k)) <==> (node.peers@.contains_key(a)
            && (node.peers@[a].1 matches Some(pk) && pk@ == k)),
{
    node.peers.lemma_len();
    lemma_verified_peers_of_contains(node.peers.key_seq(), node.peers@, a, k);
    assert(node.peers.key_seq().contains(a) <==> node.peers.key_seq().to_set().contains(a));
}


/// Answering a list of peers goes peer by peer, in the list's order: an
/// empty list is answered with nothing, and a peer added at the end adds, at
/// the end, a `KnownPeer` report when a stored peer has its exact address
/// (IP and port) or a stored peer has shown its public key, and otherwise a
/// `NewPeer` report and a connection to it.
pub proof fn lemma_peer_list_answer(known: Map<PeerAddrView, PeerInfo>, list: Seq<(PeerAddr, [u8; 32])>, p: (PeerAddr, [u8; 32]))
    ensures
        peer_list_actions(known, Seq::empty()) == Seq::<Action>::empty(),
        peer_list_actions(known, list.push(p)) == peer_list_actions(known, list) + if known.contains_key(p.0@) || exists|a: PeerAddrView|
            #[trigger] known.contains_key(a) && (known[a].1 matches Some(pk) && pk@ == p.1@) {
            seq![Action::Report(Report::KnownPeer(p.0, p.1))]
        } else {
            seq![Action::Report(Report::NewPeer(p.0)), Action::Network(Outgoing::Connect(p.0))]
        },
{
    assert(list.push(p).drop_last() =~= list);
    assert(list.push(p).last() == p);
}

proof fn lemma_concat_contains(x: Seq<Action>, y: Seq<Action>, e: Action)
    ensures
        (x + y).contains(e) <==> (x.contains(e) || y.contains(e)),
{
    if (x + y).contains(e) {
        let i = choose|i: int| 0 <= i < (x + y).len() && (x + y)[i] == e;
        if i < x.len() {
            assert(x[i] == e);
        } else {
            assert(y[i - x.len()] == e);
        }
    }
    if x.contains(e) {
        let i = choose|i: int| 0 <= i < x.len() && x[i] == e;
        assert((x + y)[i] == e);
    }
    if y.contains(e) {
        let i = choose|i: int| 0 <= i < y.len() && y[i] == e;
        assert((x + y)[x.len() + i] == e);
    }
}

/// Answering a list of peers connects to exactly the listed addresses of the
/// peers that are not known: a listed peer is known when a stored peer has
/// its exact address (IP and port), or a stored peer has shown its public
/// key.
pub proof fn lemma_peer_list_connects(known: Map<PeerAddrView, PeerInfo>, list: Seq<(PeerAddr, [u8; 32])>, addr: PeerAddr)
    ensures
        peer_list_actions(known, list).contains(Action::Network(Outgoing::Connect(addr))) <==> exists|i: int|
            0 <= i < list.len() && (#[trigger] list[i]).0 == addr && !(known.contains_key(list[i].0@) || exists|a: PeerAddrView|
                #[trigger] known.contains_key(a) && (known[a].1 matches Some(pk) && pk@ == list[i].1@)),
    decreases list.len(),
{
    let e = Action::Network(Outgoing::Connect(addr));
    if list.len() == 0 {
        assert(!peer_list_actions(known, list).contains(e));
    } else {
        let rest = list.drop_last();
        let p = list.last();
        lemma_peer_list_connects(known, rest, addr);
        assert(rest.push(p) =~= list);
        lemma_peer_list_answer(known, rest, p);
        let tail = if is_known(known, p) {
            seq![Action::Report(Report::KnownPeer(p.0, p.1))]
        } else {
            seq![Action::Report(Report::NewPeer(p.0)), Action::Network(Outgoing::Connect(p.0))]
        };
        lemma_concat_contains(peer_list_actions(known, rest), tail, e);
        assert(tail.contains(e) <==> (!is_known(known, p) && p.0 == addr)) by {
            if tail.contains(e) {
                let i = choose|i: int| 0 <= i < tail.len() && tail[i] == e;
            }
            if !is_known(known, p) && p.0 == addr {
                assert(tail[1] == e);
            }
        }
        if exists|i: int| 0 <= i < list.len() && (#[trigger] list[i]).0 == addr && !is_known(known, list[i]) {
            let i = choose|i: int| 0 <= i < list.len() && (#[trigger] list[i]).0 == addr && !is_known(known, list[i]);
            if i < rest.len() {
                assert(rest[i] == list[i]);
            }
        }
        if exists|i: int| 0 <= i < rest.len() && (#[trigger] rest[i]).0 == addr && !is_known(known, rest[i]) {
            let i = choose|i: int| 0 <= i < rest.len() && (#[trigger] rest[i]).0 == addr && !is_known(known, rest[i]);
            assert(list[i] == rest[i]);
        }
        if !is_known(known, p) && p.0 == addr {
            assert(list[list.len() - 1] == p);
        }
    }
}

} // verus!
