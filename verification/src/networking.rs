//! The table of open connections, and which of them a message goes to.
//! Each connection is held with its peer's address; what a connection is
//! (a thread and a channel) is left to the caller.

use vstd::prelude::*;

use crate::keyed_map::MapKey;
use crate::networked_message::{PeerAddr, PeerAddrView};

verus! {

/// Which connections a message goes to.
#[derive(Debug, Clone, Copy)]
pub enum Delivery {
    /// The connection to this peer.
    To(PeerAddr),
    /// Every connection but the one to this peer.
    AllBut(PeerAddr),
    /// Every connection.
    All,
}

/// Whether a message delivered this way goes to the peer at `a`.
pub open spec fn delivers(d: Delivery, a: PeerAddrView) -> bool {
    match d {
        Delivery::To(to) => a == to@,
        Delivery::AllBut(except) => a != except@,
        Delivery::All => true,
    }
}

/// The positions among the first `n` addresses that `d` delivers to, in order.
pub open spec fn recipients(addrs: Seq<PeerAddrView>, d: Delivery, n: nat) -> Seq<usize>
    decreases n,
{
    if n == 0 {
        Seq::empty()
    } else {
        let before = recipients(addrs, d, (n - 1) as nat);
        if delivers(d, addrs[n - 1]) {
            before.push((n - 1) as usize)
        } else {
            before
        }
    }
}

/// A message goes to exactly the connections that its delivery names, each
/// once, in order: `send` to the one peer, `forward` to all but the sender,
/// `broadcast` to all.
pub proof fn lemma_recipients(addrs: Seq<PeerAddrView>, d: Delivery, n: nat)
    requires
        n <= addrs.len(),
        n <= usize::MAX + 1,
    ensures
        forall|i: int| 0 <= i < n ==> (recipients(addrs, d, n).contains(i as usize) <==> delivers(d, addrs[i])),
        forall|k: int| 0 <= k < recipients(addrs, d, n).len() ==> recipients(addrs, d, n)[k] < n,
        forall|j: int, k: int|
            0 <= j < k < recipients(addrs, d, n).len() ==> recipients(addrs, d, n)[j] < recipients(addrs, d, n)[k],
    decreases n,
{
    if n > 0 {
        lemma_recipients(addrs, d, (n - 1) as nat);
        let before = recipients(addrs, d, (n - 1) as nat);
        let now = recipients(addrs, d, n);
        assert forall|i: int| 0 <= i < n implies (now.contains(i as usize) <==> delivers(d, addrs[i])) by {
            if i < n - 1 {
                if now.contains(i as usize) {
                    let k = choose|k: int| 0 <= k < now.len() && now[k] == i as usize;
                    if k < before.len() {
                        assert(before[k] == i as usize);
                    }
                }
                if before.contains(i as usize) {
                    let k = choose|k: int| 0 <= k < before.len() && before[k] == i as usize;
                    assert(now[k] == i as usize);
                }
            } else {
                if now.contains(i as usize) {
                    let k = choose|k: int| 0 <= k < now.len() && now[k] == i as usize;
                    if k < before.len() {
                        assert(before[k] < n - 1);
                    }
                }
                if delivers(d, addrs[i]) {
                    assert(now[now.len() - 1] == i as usize);
                }
            }
        }
    }
}

/// Where each kind of delivery goes, by address (IP and port both): `send`
/// to `to` reaches exactly the connections whose address is `to`, `forward`
/// from `except` exactly those whose address differs from `except`, and
/// `broadcast` every connection; each position at most once, in increasing
/// order.
pub proof fn lemma_delivery_by_address(addrs: Seq<PeerAddrView>, to: PeerAddr, except: PeerAddr, n: nat)
    requires
        n <= addrs.len(),
        n <= usize::MAX + 1,
    ensures
        forall|i: int|
            0 <= i < n ==> (#[trigger] recipients(addrs, Delivery::To(to), n).contains(i as usize) <==> addrs[i]
                == to@),
        forall|i: int|
            0 <= i < n ==> (#[trigger] recipients(addrs, Delivery::AllBut(except), n).contains(i as usize)
                <==> addrs[i] != except@),
        forall|i: int| 0 <= i < n ==> #[trigger] recipients(addrs, Delivery::All, n).contains(i as usize),
        forall|d: Delivery, j: int, k: int|
            0 <= j < k < recipients(addrs, d, n).len() ==> #[trigger] recipients(addrs, d, n)[j]
                < #[trigger] recipients(addrs, d, n)[k],
        forall|d: Delivery, k: int|
            0 <= k < recipients(addrs, d, n).len() ==> #[trigger] recipients(addrs, d, n)[k] < n,
{
    lemma_recipients(addrs, Delivery::To(to), n);
    lemma_recipients(addrs, Delivery::AllBut(except), n);
    lemma_recipients(addrs, Delivery::All, n);
    assert forall|i: int| 0 <= i < n implies #[trigger] recipients(addrs, Delivery::All, n).contains(i as usize) by {
        assert(delivers(Delivery::All, addrs[i]));
    }
    assert forall|d: Delivery, j: int, k: int|
        0 <= j < k < recipients(addrs, d, n).len() implies #[trigger] recipients(addrs, d, n)[j]
            < #[trigger] recipients(addrs, d, n)[k] by {
        lemma_recipients(addrs, d, n);
    }
    assert forall|d: Delivery, k: int| 0 <= k < recipients(addrs, d, n).len() implies #[trigger] recipients(
        addrs,
        d,
        n,
    )[k] < n by {
        lemma_recipients(addrs, d, n);
    }
}

/// The first `n` items without those at the positions in `removed`.
pub open spec fn without_positions<T>(items: Seq<T>, removed: Set<int>, n: nat) -> Seq<T>
    decreases n,
{
    if n == 0 {
        Seq::empty()
    } else {
        let before = without_positions(items, removed, (n - 1) as nat);
        if removed.contains(n - 1) {
            before
        } else {
            before.push(items[n - 1])
        }
    }
}

/// The addresses of the connections.
pub open spec fn addresses<C>(connections: Seq<(PeerAddr, C)>) -> Seq<PeerAddrView> {
    connections.map_values(|c: (PeerAddr, C)| c.0@)
}

/// The connections' handles.
pub open spec fn handles_of<C>(connections: Seq<(PeerAddr, C)>) -> Seq<C> {
    connections.map_values(|c: (PeerAddr, C)| c.1)
}

/// The open connections, each with its peer's address, in the order they
/// were opened.
pub struct Networking<C> {
    connections: Vec<(PeerAddr, C)>,
}

impl<C> View for Networking<C> {
    type V = Seq<PeerAddrView>;

    closed spec fn view(&self) -> Seq<PeerAddrView> {
        addresses(self.connections@)
    }
}

impl<C> Networking<C> {
    /// The connections' handles, in the same order as their addresses.
    pub closed spec fn handles(&self) -> Seq<C> {
        handles_of(self.connections@)
    }

    /// No connections.
    pub fn new() -> (res: Networking<C>)
        ensures
            res@ == Seq::<PeerAddrView>::empty(),
            res.handles() == Seq::<C>::empty(),
    {
        let res = Networking { connections: Vec::new() };
        assert(res@ =~= Seq::<PeerAddrView>::empty());
        assert(res.handles() =~= Seq::<C>::empty());
        res
    }

    pub fn len(&self) -> (res: usize)
        ensures
            res == self@.len(),
    {
        self.connections.len()
    }

    /// Records a connection that was just opened.
    pub fn add_connection(&mut self, addr: PeerAddr, connection: C)
        ensures
            final(self)@ == old(self)@.push(addr@),
            final(self).handles() == old(self).handles().push(connection),
    {
        self.connections.push((addr, connection));
        assert(self@ =~= old(self)@.push(addr@));
        assert(self.handles() =~= old(self).handles().push(connection));
    }

    /// The connection at position `i`, with its peer's address.
    pub fn connection(&self, i: usize) -> (res: (&PeerAddr, &C))
        requires
            i < self@.len(),
        ensures
            res.0@ == self@[i as int],
            *res.1 == self.handles()[i as int],
    {
        let c = &self.connections[i];
        (&c.0, &c.1)
    }

    /// Whether a connection to `addr` is open.
    pub fn is_connected(&self, addr: PeerAddr) -> (res: bool)
        ensures
            res == self@.contains(addr@),
    {
        let mut i: usize = 0;
        while i < self.connections.len()
            invariant
                i <= self@.len(),
                self@.len() == self.connections@.len(),
                forall|j: int| 0 <= j < i ==> self@[j] != addr@,
            decreases self@.len() - i,
        {
            if self.connections[i].0.same_key(&addr) {
                assert(self@[i as int] == addr@);
                return true;
            }
            i = i + 1;
        }
        false
    }

    /// The positions of the connections that a message delivered this way
    /// goes to.
    pub fn recipients(&self, delivery: Delivery) -> (res: Vec<usize>)
        ensures
            res@ == recipients(self@, delivery, self@.len()),
    {
        let mut out: Vec<usize> = Vec::new();
        let n = self.connections.len();
        let mut i: usize = 0;
        while i < n
            invariant
                n == self@.len(),
                self@.len() == self.connections@.len(),
                i <= n,
                out@ == recipients(self@, delivery, i as nat),
            decreases n - i,
        {
            let addr = self.connections[i].0;
            let goes = match delivery {
                Delivery::To(to) => addr.same_key(&to),
                Delivery::AllBut(except) => !addr.same_key(&except),
                Delivery::All => true,
            };
            if goes {
                out.push(i);
            }
            i = i + 1;
        }
        out
    }

    /// The positions of the connection to `to`.
    pub fn send(&self, to: PeerAddr) -> (res: Vec<usize>)
        ensures
            res@ == recipients(self@, Delivery::To(to), self@.len()),
    {
        self.recipients(Delivery::To(to))
    }

    /// The positions of every connection but the one to `except`.
    pub fn forward(&self, except: PeerAddr) -> (res: Vec<usize>)
        ensures
            res@ == recipients(self@, Delivery::AllBut(except), self@.len()),
    {
        self.recipients(Delivery::AllBut(except))
    }

    /// The positions of every connection.
    pub fn broadcast(&self) -> (res: Vec<usize>)
        ensures
            res@ == recipients(self@, Delivery::All, self@.len()),
    {
        self.recipients(Delivery::All)
    }

    /// Drops the connections at the positions in `failed` (where sending
    /// failed) and gives back their addresses, in order.
    pub fn close_failed(&mut self, failed: &Vec<usize>) -> (res: Vec<PeerAddr>)
        requires
            forall|i: int, j: int| 0 <= i < j < failed@.len() ==> failed@[i] < failed@[j],
            forall|i: int| 0 <= i < failed@.len() ==> failed@[i] < old(self)@.len(),
        ensures
            final(self)@ == without_positions(
                old(self)@,
                failed@.map_values(|i: usize| i as int).to_set(),
                old(self)@.len(),
            ),
            final(self).handles() == without_positions(
                old(self).handles(),
                failed@.map_values(|i: usize| i as int).to_set(),
                old(self)@.len(),
            ),
            res@.len() == failed@.len(),
            forall|k: int| 0 <= k < failed@.len() ==> #[trigger] res@[k]@ == old(self)@[failed@[k] as int],
    {
        let ghost v0 = self@;
        let ghost h0 = self.handles();
        let ghost fs = failed@.map_values(|i: usize| i as int);
        let ghost removed = fs.to_set();
        let total = self.connections.len();
        let mut rest: Vec<(PeerAddr, C)> = Vec::new();
        std::mem::swap(&mut rest, &mut self.connections);
        assert(self@ =~= Seq::<PeerAddrView>::empty());
        let mut closed: Vec<PeerAddr> = Vec::new();
        let mut k: usize = 0;
        let mut idx: usize = 0;
        assert(addresses(rest@) =~= v0.skip(0));
        while rest.len() > 0
            invariant
                idx <= v0.len(),
                v0.len() == total,
                k <= failed@.len(),
                addresses(rest@) == v0.skip(idx as int),
                rest@.len() == v0.len() - idx,
                handles_of(rest@) == h0.skip(idx as int),
                h0.len() == v0.len(),
                self.handles() == without_positions(h0, removed, idx as nat),
                self@ == without_positions(v0, removed, idx as nat),
                fs == failed@.map_values(|i: usize| i as int),
                removed == fs.to_set(),
                forall|i: int, j: int| 0 <= i < j < failed@.len() ==> failed@[i] < failed@[j],
                forall|i: int| 0 <= i < failed@.len() ==> failed@[i] < v0.len(),
                forall|i: int| 0 <= i < k ==> failed@[i] < idx,
                forall|i: int| k <= i < failed@.len() ==> failed@[i] >= idx,
                closed@.len() == k,
                forall|i: int| 0 <= i < k ==> #[trigger] closed@[i]@ == v0[failed@[i] as int],
            decreases rest@.len(),
        {
            let ghost before = self@;
            let ghost before_handles = self.handles();
            let ghost old_rest = rest@;
            assert(addresses(old_rest)[0] == v0[idx as int]);
            let c = rest.remove(0);
            assert(c.0@ == v0[idx as int]);
            assert(rest@ =~= old_rest.subrange(1, old_rest.len() as int));
            assert(handles_of(old_rest)[0] == h0[idx as int]);
            assert forall|j: int| 0 <= j < rest@.len() implies #[trigger] handles_of(rest@)[j] == h0.skip(idx + 1)[j] by {
                assert(rest@[j] == old_rest[j + 1]);
                assert(handles_of(old_rest)[j + 1] == h0.skip(idx as int)[j + 1]);
            }
            assert(handles_of(rest@) =~= h0.skip(idx + 1));
            assert forall|j: int| 0 <= j < rest@.len() implies #[trigger] addresses(rest@)[j] == v0.skip(idx + 1)[j] by {
                assert(rest@[j] == old_rest[j + 1]);
                assert(addresses(old_rest)[j + 1] == v0.skip(idx as int)[j + 1]);
            }
            assert(addresses(rest@) =~= v0.skip(idx + 1));
            let is_failed = k < failed.len() && failed[k] == idx;
            if is_failed {
                closed.push(c.0);
                proof {
                    assert(removed.contains(idx as int)) by {
                        assert(fs[k as int] == idx as int);
                    }
                }
                k = k + 1;
            } else {
                proof {
                    assert(!removed.contains(idx as int)) by {
                        if removed.contains(idx as int) {
                            let m = choose|m: int| 0 <= m < fs.len() && #[trigger] fs[m] == idx as int;
                            assert(failed@[m] == idx);
                        }
                    }
                }
                self.connections.push(c);
                assert(self@ =~= before.push(v0[idx as int]));
                assert(self.handles() =~= before_handles.push(h0[idx as int]));
            }
            idx = idx + 1;
        }
        assert(idx == v0.len());
        assert(k == failed@.len()) by {
            if k < failed@.len() {
                assert(failed@[k as int] >= idx);
            }
        }
        closed
    }
}

} // verus!
