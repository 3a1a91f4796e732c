use blockchain_node::networked_message::PeerAddr;
use blockchain_node::networking::Networking;

fn addr(n: u8) -> PeerAddr {
    PeerAddr::V4([10, 0, 0, n], 1000 + n as u16)
}

fn net() -> Networking<&'static str> {
    let mut n = Networking::new();
    n.add_connection(addr(1), "one");
    n.add_connection(addr(2), "two");
    n.add_connection(addr(3), "three");
    n
}

#[test]
fn is_connected_by_address() {
    let n = net();
    assert!(n.is_connected(addr(2)));
    assert!(!n.is_connected(addr(4)));
    assert!(!n.is_connected(PeerAddr::V4([10, 0, 0, 2], 9)));
}

#[test]
fn send_forward_broadcast_recipients() {
    let n = net();
    assert_eq!(n.send(addr(2)), vec![1]);
    assert_eq!(n.send(addr(9)), Vec::<usize>::new());
    assert_eq!(n.forward(addr(2)), vec![0, 2]);
    assert_eq!(n.broadcast(), vec![0, 1, 2]);
    assert_eq!(*n.connection(2).1, "three");
}

#[test]
fn failed_connections_are_dropped() {
    let mut n = net();
    let closed = n.close_failed(&vec![0, 2]);
    assert_eq!(closed.len(), 2);
    assert!(matches!(closed[0], PeerAddr::V4([10, 0, 0, 1], 1001)));
    assert!(matches!(closed[1], PeerAddr::V4([10, 0, 0, 3], 1003)));
    assert_eq!(n.len(), 1);
    assert!(n.is_connected(addr(2)));
    assert_eq!(*n.connection(0).1, "two");
}
