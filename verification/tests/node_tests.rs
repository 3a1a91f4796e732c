use blockchain_node::block::Block;
use blockchain_node::blockchain::{Blockchain, Error};
use blockchain_node::miner::ToMiner;
use blockchain_node::networked_message::{NetworkedMessage, PeerAddr};
use blockchain_node::node::{Action, Incoming, Node, Outgoing, Report, UserCommand};

fn genesis() -> Block {
    Block::new([0; 32], [0; 32], 0, 1622999578)
}

fn child() -> Block {
    Block::new(*genesis().hash(), [7; 32], 9, 1623000000)
}

fn grandchild() -> Block {
    Block::new(*child().hash(), [7; 32], 94, 1623000100)
}

fn node() -> Node {
    Node::new(Blockchain::new(genesis(), Vec::new()).unwrap())
}

fn peer(n: u8) -> PeerAddr {
    PeerAddr::V4([192, 168, 0, n], 4000)
}

#[test]
fn ping_is_answered_with_pong() {
    let mut n = node();
    let actions = n.process(Incoming::Message(peer(1), NetworkedMessage::Ping));
    assert_eq!(actions.len(), 1);
    assert!(matches!(
        &actions[0],
        Action::Network(Outgoing::Send(PeerAddr::V4([192, 168, 0, 1], 4000), NetworkedMessage::Pong))
    ));
    assert!(n.process(Incoming::Message(peer(1), NetworkedMessage::Pong)).is_empty());
}

#[test]
fn new_block_is_added_forwarded_and_its_child_requested() {
    let mut n = node();
    let actions = n.process(Incoming::Message(peer(1), NetworkedMessage::Block(child())));
    assert_eq!(actions.len(), 4);
    assert!(matches!(&actions[0], Action::Report(Report::BlockAdded(b, 1)) if b.hash() == child().hash()));
    assert!(matches!(&actions[1], Action::Network(Outgoing::Forward(_, NetworkedMessage::Block(_)))));
    assert!(matches!(&actions[2], Action::Miner(ToMiner::Reset(b)) if b.hash() == child().hash()));
    assert!(matches!(&actions[3], Action::Network(Outgoing::Send(_, NetworkedMessage::RequestChild(h))) if h == child().hash()));
    assert!(n.blockchain.contains(child().hash()));

    let again = n.process(Incoming::Message(peer(1), NetworkedMessage::Block(child())));
    assert_eq!(again.len(), 1);
    assert!(matches!(&again[0], Action::Report(Report::DuplicateBlock(_))));
}

#[test]
fn orphan_block_makes_the_node_ask_for_its_parent() {
    let mut n = node();
    let actions = n.process(Incoming::Message(peer(2), NetworkedMessage::Block(grandchild())));
    assert_eq!(actions.len(), 1);
    assert!(matches!(&actions[0], Action::Network(Outgoing::Send(_, NetworkedMessage::Request(h))) if *h == child().hash().clone()));
}

#[test]
fn weak_block_is_refused() {
    let mut n = node();
    let weak = Block::new(*genesis().hash(), [7; 32], 0, 1623000000);
    let actions = n.process(Incoming::Message(peer(2), NetworkedMessage::Block(weak)));
    assert!(matches!(&actions[..], [Action::Report(Report::BlockRefused(Error::InvalidHash, _))]));
}

#[test]
fn requests_are_answered() {
    let mut n = node();
    n.process(Incoming::Mined(child()));
    let actions = n.process(Incoming::Message(peer(1), NetworkedMessage::Request(*child().hash())));
    assert!(matches!(&actions[..], [Action::Network(Outgoing::Send(_, NetworkedMessage::Block(b)))] if b.hash() == child().hash()));
    let actions = n.process(Incoming::Message(peer(1), NetworkedMessage::Request([1; 32])));
    assert!(matches!(&actions[..], [Action::Report(Report::BlockNotFound(_))]));
    let actions = n.process(Incoming::Message(peer(1), NetworkedMessage::RequestChild(*genesis().hash())));
    assert!(matches!(&actions[..], [Action::Network(Outgoing::Send(_, NetworkedMessage::Block(b)))] if b.hash() == child().hash()));
    let actions = n.process(Incoming::Message(peer(1), NetworkedMessage::RequestChild(*child().hash())));
    assert!(matches!(&actions[..], [Action::Report(Report::ChildNotFound(_))]));
}

#[test]
fn mined_block_is_broadcast() {
    let mut n = node();
    let actions = n.process(Incoming::Mined(child()));
    assert_eq!(actions.len(), 3);
    assert!(matches!(&actions[0], Action::Report(Report::MinedBlockAdded(_, 1))));
    assert!(matches!(&actions[1], Action::Network(Outgoing::Broadcast(NetworkedMessage::Block(_)))));
    assert!(matches!(&actions[2], Action::Miner(ToMiner::Reset(_))));
    let actions = n.process(Incoming::Mined(grandchild()));
    assert_eq!(actions.len(), 3);
    let orphan = Block::new([3; 32], [7; 32], 0, 1);
    let actions = n.process(Incoming::Mined(orphan));
    assert!(matches!(&actions[..], [Action::Report(Report::MinedBlockRefused(Error::MissingParent))]));
}

fn challenge_of(actions: &[Action]) -> [u8; 32] {
    for a in actions {
        if let Action::Network(Outgoing::Send(_, NetworkedMessage::Challenge(c))) = a {
            return *c;
        }
    }
    panic!("no challenge sent");
}

#[test]
fn new_connection_gets_a_challenge_the_top_and_the_peers() {
    let mut n = node();
    let actions = n.process(Incoming::ConnectionEstablished(peer(1)));
    assert_eq!(actions.len(), 3);
    assert!(matches!(&actions[0], Action::Network(Outgoing::Send(_, NetworkedMessage::Challenge(_)))));
    assert!(matches!(&actions[1], Action::Network(Outgoing::Send(_, NetworkedMessage::Block(b))) if b.hash() == genesis().hash()));
    assert!(matches!(&actions[2], Action::Network(Outgoing::Send(_, NetworkedMessage::Peers(p))) if p.is_empty()));
    assert!(n.peers.contains_key(&peer(1)));
    let again = n.process(Incoming::ConnectionEstablished(peer(1)));
    assert_eq!(again.len(), 4);
    assert!(matches!(&again[0], Action::Report(Report::ConnectionEstablishedTwice(_))));
}

#[test]
fn handshake_verifies_the_answering_node() {
    let mut a = node();
    let mut b = node();
    // b hears of a connection from a, and challenges it.
    let b_actions = b.process(Incoming::ConnectionEstablished(peer(1)));
    let challenge = challenge_of(&b_actions);
    // a answers the challenge.
    let a_actions = a.process(Incoming::Message(peer(2), NetworkedMessage::Challenge(challenge)));
    let response = match &a_actions[..] {
        [Action::Network(Outgoing::Send(_, m @ NetworkedMessage::ChallengeResponse { .. }))] => m.clone(),
        other => panic!("unexpected {:?}", other),
    };
    let verified = b.process(Incoming::Message(peer(1), response.clone()));
    assert!(matches!(&verified[..], [Action::Report(Report::PeerVerified(_))]));
    let (_, info) = b.peers.entry_at(0);
    assert_eq!(info.0, challenge);
    assert!(info.1.is_some());

    // a's address and verified key now show in the peers b sends to newcomers.
    let later = b.process(Incoming::ConnectionEstablished(peer(3)));
    let a_key = a.keypair.public_key();
    assert!(matches!(
        &later[2],
        Action::Network(Outgoing::Send(_, NetworkedMessage::Peers(p)))
            if p.len() == 1 && matches!(p[0], (PeerAddr::V4([192, 168, 0, 1], 4000), k) if k == a_key)
    ));
}

#[test]
fn bad_or_unsolicited_responses_are_reported() {
    let mut b = node();
    let unsolicited = b.process(Incoming::Message(
        peer(5),
        NetworkedMessage::ChallengeResponse { public_key: [1; 32], signature: [2; 64] },
    ));
    assert!(matches!(&unsolicited[..], [Action::Report(Report::UnsolicitedChallengeResponse(_))]));
    b.process(Incoming::ConnectionEstablished(peer(5)));
    let bad = b.process(Incoming::Message(
        peer(5),
        NetworkedMessage::ChallengeResponse { public_key: [1; 32], signature: [2; 64] },
    ));
    assert!(matches!(&bad[..], [Action::Report(Report::InvalidChallengeResponse(_))]));
}

#[test]
fn peers_list_connects_to_unknown_peers() {
    let mut n = node();
    n.process(Incoming::ConnectionEstablished(peer(1)));
    let list = vec![(peer(1), [1; 32]), (peer(2), [2; 32])];
    let actions = n.process(Incoming::Message(peer(1), NetworkedMessage::Peers(list)));
    assert_eq!(actions.len(), 3);
    assert!(matches!(&actions[0], Action::Report(Report::KnownPeer(_, _))));
    assert!(matches!(&actions[1], Action::Report(Report::NewPeer(_))));
    assert!(matches!(&actions[2], Action::Network(Outgoing::Connect(PeerAddr::V4([192, 168, 0, 2], 4000)))));
}

#[test]
fn listed_peer_with_a_known_key_is_not_connected() {
    let mut a = node();
    let mut b = node();
    let challenge = challenge_of(&b.process(Incoming::ConnectionEstablished(peer(1))));
    let a_actions = a.process(Incoming::Message(peer(2), NetworkedMessage::Challenge(challenge)));
    let response = match &a_actions[..] {
        [Action::Network(Outgoing::Send(_, m))] => m.clone(),
        other => panic!("unexpected {:?}", other),
    };
    b.process(Incoming::Message(peer(1), response));
    let a_key = a.keypair.public_key();
    // a listed again under another address, with its known key.
    let actions = b.process(Incoming::Message(peer(4), NetworkedMessage::Peers(vec![(peer(9), a_key)])));
    assert_eq!(actions.len(), 1);
    assert!(matches!(&actions[0], Action::Report(Report::KnownPeer(PeerAddr::V4([192, 168, 0, 9], 4000), k)) if *k == a_key));
    // An unknown address with an unknown key is connected to.
    let other = b.process(Incoming::Message(peer(4), NetworkedMessage::Peers(vec![(peer(8), [0; 32])])));
    assert_eq!(other.len(), 2);
    assert!(matches!(&other[1], Action::Network(Outgoing::Connect(PeerAddr::V4([192, 168, 0, 8], 4000)))));
}

#[test]
fn closed_connection_forgets_the_peer() {
    let mut n = node();
    n.process(Incoming::ConnectionEstablished(peer(1)));
    n.process(Incoming::ConnectionEstablished(peer(2)));
    assert!(n.process(Incoming::ConnectionClosed(peer(1))).is_empty());
    assert!(!n.peers.contains_key(&peer(1)));
    assert!(n.peers.contains_key(&peer(2)));
}

#[test]
fn terminal_commands_become_actions() {
    let mut n = node();
    n.process(Incoming::Mined(child()));
    let ping = n.on_command(UserCommand::SendPing);
    assert!(matches!(&ping[..], [Action::Network(Outgoing::Broadcast(NetworkedMessage::Ping))]));
    let start = n.on_command(UserCommand::StartMining);
    assert!(matches!(&start[..], [Action::Miner(ToMiner::Start(b))] if b.hash() == child().hash()));
    let stop = n.on_command(UserCommand::PauseMining);
    assert!(matches!(&stop[..], [Action::Miner(ToMiner::Stop)]));
    let top = n.on_command(UserCommand::ShowTopBlock);
    assert!(matches!(&top[..], [Action::Report(Report::TopBlock(b, 1))] if b.hash() == child().hash()));
    let connect = n.on_command(UserCommand::Connect(peer(7)));
    assert!(matches!(&connect[..], [Action::Network(Outgoing::Connect(PeerAddr::V4([192, 168, 0, 7], 4000)))]));
}
