//! Node addresses, the configuration of a testnet node, and which peers a
//! node syncs with and when.

use vstd::prelude::*;

verus! {

/// The number of nodes in a testnet.
pub const TESTNET_SIZE: usize = 4;

/// The port of node 0 when no other base port is given.
pub const DEFAULT_BASE_PORT: u16 = 8081;

/// The least time between two syncs of a node with its peers.
pub const SYNC_INTERVAL_MS: u128 = 5000;

/// An IP address: an IPv4 address as its 32 bits, or an IPv6 address as its
/// 128 bits.
#[derive(Clone, Copy, Debug, PartialEq, Eq, Structural, Hash)]
pub enum IpAddress {
    V4(u32),
    V6(u128),
}

/// A socket address: an IP address and a port.
#[derive(Clone, Copy, Debug, PartialEq, Eq, Structural, Hash)]
pub struct NodeAddr {
    pub ip: IpAddress,
    pub port: u16,
}

/// The configuration of a node: its index in the testnet, the address it
/// listens on, and the addresses of all nodes of the testnet.
#[derive(Clone, Debug)]
pub struct NodeConfig {
    pub id: usize,
    pub bind_addr: NodeAddr,
    pub peers: Vec<NodeAddr>,
}

/// The peers of `peers` other than `me`, in order.
pub open spec fn peers_except(peers: Seq<NodeAddr>, me: NodeAddr) -> Seq<NodeAddr>
    decreases peers.len(),
{
    if peers.len() == 0 {
        Seq::empty()
    } else if peers.last() == me {
        peers_except(peers.drop_last(), me)
    } else {
        peers_except(peers.drop_last(), me).push(peers.last())
    }
}

/// The addresses of the nodes of a testnet on `ip`: node `i` on port
/// `base_port + i`.
pub open spec fn testnet_peers(ip: IpAddress, base_port: u16) -> Seq<NodeAddr> {
    Seq::new(TESTNET_SIZE as nat, |i: int| NodeAddr { ip, port: (base_port + i) as u16 })
}

/// In a testnet, each node syncs with the other nodes, all of them, in order:
/// its own address stands in the peer list once, at its index.
pub proof fn lemma_testnet_syncs_with_the_others(node_id: usize, ip: IpAddress, base_port: u16)
    requires
        node_id < TESTNET_SIZE,
        base_port + TESTNET_SIZE - 1 <= u16::MAX,
    ensures
        testnet_peers(ip, base_port)[node_id as int] == (NodeAddr {
            ip,
            port: (base_port + node_id) as u16,
        }),
        peers_except(
            testnet_peers(ip, base_port),
            NodeAddr { ip, port: (base_port + node_id) as u16 },
        ) == testnet_peers(ip, base_port).remove(node_id as int),
{
    let ps = testnet_peers(ip, base_port);
    let me = NodeAddr { ip, port: (base_port + node_id) as u16 };
    assert forall|j: int| 0 <= j < ps.len() implies (#[trigger] ps[j] == me <==> j == node_id) by {
        assert(ps[j].port == base_port + j);
    }
    lemma_peers_except_unique(ps, me, node_id as int, ps.len() as int);
    assert(ps.take(ps.len() as int) =~= ps);
}

/// Leaving out an address that stands in the list exactly once, at `idx`,
/// removes that entry and keeps the rest in order.
proof fn lemma_peers_except_unique(ps: Seq<NodeAddr>, me: NodeAddr, idx: int, k: int)
    requires
        0 <= idx < ps.len(),
        forall|j: int| 0 <= j < ps.len() ==> (#[trigger] ps[j] == me <==> j == idx),
        0 <= k <= ps.len(),
    ensures
        peers_except(ps.take(k), me) == if k <= idx {
            ps.take(k)
        } else {
            ps.take(k).remove(idx)
        },
    decreases k,
{
    if k == 0 {
        assert(ps.take(0) =~= Seq::<NodeAddr>::empty());
    } else {
        lemma_peers_except_unique(ps, me, idx, k - 1);
        let t = ps.take(k);
        assert(t.drop_last() =~= ps.take(k - 1));
        assert(t.last() == ps[k - 1]);
        if k - 1 == idx {
            assert(t.remove(idx) =~= ps.take(k - 1));
        } else if k <= idx {
            assert(ps.take(k - 1).push(ps[k - 1]) =~= t);
        } else {
            assert(ps.take(k - 1).remove(idx).push(ps[k - 1]) =~= t.remove(idx));
        }
    }
}

/// Whether an address is other than `me`.
pub open spec fn other_than(me: NodeAddr) -> spec_fn(NodeAddr) -> bool {
    |a: NodeAddr| a != me
}

/// The peers a node syncs with are its peer list with its own address left
/// out, in the order of the list.
pub proof fn lemma_peers_except_is_filter(peers: Seq<NodeAddr>, me: NodeAddr)
    ensures
        peers_except(peers, me) == peers.filter(other_than(me)),
    decreases peers.len(),
{
    reveal(Seq::filter);
    if peers.len() > 0 {
        lemma_peers_except_is_filter(peers.drop_last(), me);
    }
}

/// A node syncs with exactly the peers that are not itself.
pub proof fn lemma_peers_except_members(peers: Seq<NodeAddr>, me: NodeAddr, a: NodeAddr)
    ensures
        peers_except(peers, me).contains(a) <==> (peers.contains(a) && a != me),
    decreases peers.len(),
{
    if peers.len() > 0 {
        let d = peers.drop_last();
        lemma_peers_except_members(d, me, a);
        assert(peers =~= d.push(peers.last()));
        if d.contains(a) {
            let i = choose|i: int| 0 <= i < d.len() && d[i] == a;
            assert(peers[i] == a);
        }
        if peers.contains(a) && !d.contains(a) {
            let i = choose|i: int| 0 <= i < peers.len() && peers[i] == a;
            if i < d.len() {
                assert(d[i] == a);
            }
        }
        let r = peers_except(d, me);
        if peers.last() != me {
            assert(r.push(peers.last())[r.len() as int] == peers.last());
            if r.contains(a) {
                let i = choose|i: int| 0 <= i < r.len() && r[i] == a;
                assert(r.push(peers.last())[i] == a);
            }
            if r.push(peers.last()).contains(a) && a != peers.last() {
                let i = choose|i: int| 0 <= i < r.len() + 1 && r.push(peers.last())[i] == a;
                assert(r[i] == a);
            }
        }
    }
}

impl NodeConfig {
    /// The configuration of node `node_id` of a testnet on `ip`: node `i`
    /// listens on port `base_port + i`, and every node lists all of them, in
    /// order, as its peers.
    pub fn testnet(node_id: usize, ip: IpAddress, base_port: u16) -> (c: NodeConfig)
        requires
            node_id < TESTNET_SIZE,
            base_port + TESTNET_SIZE - 1 <= u16::MAX,
        ensures
            c.id == node_id,
            c.bind_addr == (NodeAddr { ip, port: (base_port + node_id) as u16 }),
            c.peers@ == testnet_peers(ip, base_port),
    {
        let bind_addr = NodeAddr { ip, port: base_port + node_id as u16 };
        let mut peers: Vec<NodeAddr> = Vec::new();
        let mut i: usize = 0;
        while i < TESTNET_SIZE
            invariant
                i <= TESTNET_SIZE,
                base_port + TESTNET_SIZE - 1 <= u16::MAX,
                peers@.len() == i,
                forall|j: int|
                    0 <= j < i ==> #[trigger] peers@[j] == (NodeAddr {
                        ip,
                        port: (base_port + j) as u16,
                    }),
            decreases TESTNET_SIZE - i,
        {
            peers.push(NodeAddr { ip, port: base_port + i as u16 });
            i = i + 1;
        }
        assert(peers@ =~= testnet_peers(ip, base_port));
        NodeConfig { id: node_id, bind_addr, peers }
    }

    /// The peers that the node propagates its mempool to and fetches
    /// committed messages from, in a sync on request and in the background
    /// sync alike: all but its own address.
    pub fn peers_to_sync(&self) -> (others: Vec<NodeAddr>)
        ensures
            others@ == peers_except(self.peers@, self.bind_addr),
            others@ == self.peers@.filter(other_than(self.bind_addr)),
            forall|a: NodeAddr| others@.contains(a) <==> (self.peers@.contains(a) && a != self.bind_addr),
    {
        proof {
            lemma_peers_except_is_filter(self.peers@, self.bind_addr);
            assert forall|a: NodeAddr| peers_except(self.peers@, self.bind_addr).contains(a) <==> (
            self.peers@.contains(a) && a != self.bind_addr) by {
                lemma_peers_except_members(self.peers@, self.bind_addr, a);
            }
        }
        let n: usize = self.peers.len();
        let mut others: Vec<NodeAddr> = Vec::new();
        let mut i: usize = 0;
        assert(self.peers@.take(0) =~= Seq::<NodeAddr>::empty());
        while i < n
            invariant
                n == self.peers@.len(),
                i <= n,
                others@ == peers_except(self.peers@.take(i as int), self.bind_addr),
            decreases n - i,
        {
            let p = self.peers[i];
            assert(self.peers@.take(i + 1).drop_last() =~= self.peers@.take(i as int));
            if p != self.bind_addr {
                others.push(p);
            }
            i = i + 1;
        }
        assert(self.peers@.take(n as int) =~= self.peers@);
        others
    }
}

/// Whether a node syncs now, `elapsed_ms` milliseconds after its last sync:
/// only once the sync interval has passed.
pub fn sync_due(elapsed_ms: u128) -> (due: bool)
    ensures
        due == (elapsed_ms >= SYNC_INTERVAL_MS),
{
    elapsed_ms >= SYNC_INTERVAL_MS
}

} // verus!
