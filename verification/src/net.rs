//! The network stack's routing data: addresses bound to interfaces, the
//! routing table, and the buffer lists that packets are built from.

use vstd::prelude::*;

verus! {

/// Type representing a Media Access Control (MAC) address.
pub type MAC = [u8; 6];

/// An enumeration of network address types.
#[derive(Debug, Clone, Copy)]
pub enum Address {
    /// Internet Protocol version 4.
    IPv4([u8; 4]),
    /// Internet Protocol version 6.
    IPv6([u8; 16]),
}

/// Whether the two addresses are of the same family and byte-for-byte
/// equal.
pub open spec fn spec_addr_eq(a: Address, b: Address) -> bool {
    match (a, b) {
        (Address::IPv4(x), Address::IPv4(y)) => x@ == y@,
        (Address::IPv6(x), Address::IPv6(y)) => x@ == y@,
        _ => false,
    }
}

/// Compares two byte strings of the same length.
fn eq_bytes(a: &[u8], b: &[u8]) -> (r: bool)
    requires
        a@.len() == b@.len(),
    ensures
        r == (a@ == b@),
{
    let n = a.len();
    let mut i: usize = 0;
    while i < n
        invariant
            n == a@.len(),
            a@.len() == b@.len(),
            i <= n,
            forall|j: int| 0 <= j < i as int ==> a@[j] == b@[j],
        decreases n - i,
    {
        if a[i] != b[i] {
            return false;
        }
        i = i + 1;
    }
    proof {
        assert(a@ =~= b@);
    }
    true
}

/// Tells whether the two addresses are equal.
pub fn addr_eq(a: &Address, b: &Address) -> (r: bool)
    ensures
        r == spec_addr_eq(*a, *b),
{
    match (a, b) {
        (Address::IPv4(x), Address::IPv4(y)) => eq_bytes(x.as_slice(), y.as_slice()),
        (Address::IPv6(x), Address::IPv6(y)) => eq_bytes(x.as_slice(), y.as_slice()),
        _ => false,
    }
}

/// Whether the two byte strings agree on their first `bits` bits, the
/// bytes taken in address order and, inside a byte, the most significant
/// bit first: the meaning of a network prefix of length `bits`. Bits past
/// the end of the strings are not compared.
pub open spec fn prefix_match_from(a: Seq<u8>, b: Seq<u8>, i: int, bits: int) -> bool
    decreases bits,
{
    if bits <= 0 || i >= a.len() {
        true
    } else if bits >= 8 {
        a[i] == b[i] && prefix_match_from(a, b, i + 1, bits - 8)
    } else {
        a[i] >> ((8 - bits) as u8) == b[i] >> ((8 - bits) as u8)
    }
}

/// An address/subnet mask pair to be bound to an interface.
#[derive(Debug, Clone, Copy)]
pub struct BindAddress {
    /// The bound address.
    pub addr: Address,
    /// Subnet mask/prefix length.
    pub subnet_mask: u8,
}

impl BindAddress {
    /// Whether the bound address matches the destination `addr`: the two
    /// are of the same family and share the network prefix, that is, they
    /// agree on their first `subnet_mask` bits in address byte order.
    pub open spec fn spec_is_matching(self, addr: Address) -> bool {
        match (self.addr, addr) {
            (Address::IPv4(a), Address::IPv4(b)) => prefix_match_from(
                a@,
                b@,
                0,
                self.subnet_mask as int,
            ),
            (Address::IPv6(a), Address::IPv6(b)) => prefix_match_from(
                a@,
                b@,
                0,
                self.subnet_mask as int,
            ),
            _ => false,
        }
    }

    /// Tells whether the bind address is suitable for transmission to the
    /// given destination address.
    pub fn is_matching(&self, addr: &Address) -> (r: bool)
        ensures
            r == self.spec_is_matching(*addr),
    {
        match (&self.addr, addr) {
            (Address::IPv4(a), Address::IPv4(b)) => check_prefix(
                a.as_slice(),
                b.as_slice(),
                self.subnet_mask as usize,
            ),
            (Address::IPv6(a), Address::IPv6(b)) => check_prefix(
                a.as_slice(),
                b.as_slice(),
                self.subnet_mask as usize,
            ),
            _ => false,
        }
    }
}

/// Compares the two byte strings on their leading `mask` bits.
fn check_prefix(a: &[u8], b: &[u8], mask: usize) -> (r: bool)
    requires
        a@.len() == b@.len(),
    ensures
        r == prefix_match_from(a@, b@, 0, mask as int),
{
    let n = a.len();
    let mut i: usize = 0;
    let mut bits = mask;
    while bits >= 8 && i < n
        invariant
            n == a@.len(),
            a@.len() == b@.len(),
            i <= n,
            8 * i + bits == mask,
            prefix_match_from(a@, b@, 0, mask as int) == prefix_match_from(
                a@,
                b@,
                i as int,
                bits as int,
            ),
        decreases bits,
    {
        if a[i] != b[i] {
            return false;
        }
        i = i + 1;
        bits = bits - 8;
    }
    if bits == 0 || i >= n {
        return true;
    }
    let shift = (8 - bits) as u8;
    (a[i] >> shift) == (b[i] >> shift)
}

/// An entry in the routing table.
#[derive(Debug, Clone)]
pub struct Route {
    /// The destination address. If `None`, this is the default
    /// destination.
    dst: Option<BindAddress>,
    /// The name of the network interface.
    iface: Vec<u8>,
    /// The gateway's address.
    gateway: Address,
    /// The route's metric, deciding priority among equally specific
    /// routes: the route with the lowest metric has priority.
    metric: u32,
}

impl Route {
    /// Creates a new instance.
    pub fn new(dst: Option<BindAddress>, iface: Vec<u8>, gateway: Address, metric: u32) -> (r:
        Route)
        ensures
            r.spec_dst() == dst,
            r.spec_iface() == iface@,
            r.spec_gateway() == gateway,
            r.spec_metric() == metric,
    {
        Route { dst, iface, gateway, metric }
    }

    /// The route's destination, as seen by contracts.
    pub closed spec fn spec_dst(self) -> Option<BindAddress> {
        self.dst
    }

    /// The route's interface name, as seen by contracts.
    pub closed spec fn spec_iface(self) -> Seq<u8> {
        self.iface@
    }

    /// The route's gateway, as seen by contracts.
    pub closed spec fn spec_gateway(self) -> Address {
        self.gateway
    }

    /// The route's metric, as seen by contracts.
    pub closed spec fn spec_metric(self) -> u32 {
        self.metric
    }

    /// Returns the name of the route's interface.
    pub fn get_iface(&self) -> (r: &Vec<u8>)
        ensures
            r@ == self.spec_iface(),
    {
        &self.iface
    }

    /// Whether the route can carry traffic to `addr`: its gateway is the
    /// address itself, or it is the default route, or its destination
    /// matches under the subnet mask.
    pub open spec fn spec_is_matching(self, addr: Address) -> bool {
        ||| spec_addr_eq(self.spec_gateway(), addr)
        ||| self.spec_dst() is None
        ||| self.spec_dst().unwrap().spec_is_matching(addr)
    }

    /// Tells whether the route matches the given address.
    pub fn is_matching(&self, addr: &Address) -> (r: bool)
        ensures
            r == self.spec_is_matching(*addr),
    {
        if addr_eq(&self.gateway, addr) {
            return true;
        }
        match &self.dst {
            Option::None => true,
            Option::Some(dst) => dst.is_matching(addr),
        }
    }

    /// The route's priority for the given address: a route whose gateway
    /// is the address beats one whose destination merely matches, which
    /// beats the rest; the metric breaks the remaining ties, the lowest
    /// metric having priority. The best route has the greatest rank.
    pub open spec fn spec_rank(self, addr: Address) -> int {
        let gw: int = if spec_addr_eq(self.spec_gateway(), addr) {
            1
        } else {
            0
        };
        let dst: int = if self.spec_dst() is None
            || self.spec_dst().unwrap().spec_is_matching(addr) {
            1
        } else {
            0
        };
        gw * 0x2_0000_0000 + dst * 0x1_0000_0000 + (u32::MAX - self.spec_metric())
    }

    /// Compares the current route with the given route `other` for the
    /// destination `addr`. Ordering is done so that the best route is the
    /// greatest.
    pub fn cmp_for(&self, other: &Route, addr: &Address) -> (r: core::cmp::Ordering)
        ensures
            r == core::cmp::Ordering::Less <==> self.spec_rank(*addr) < other.spec_rank(*addr),
            r == core::cmp::Ordering::Equal <==> self.spec_rank(*addr) == other.spec_rank(
                *addr,
            ),
            r == core::cmp::Ordering::Greater <==> self.spec_rank(*addr) > other.spec_rank(
                *addr,
            ),
    {
        let self_gw: u64 = if addr_eq(&self.gateway, addr) {
            1
        } else {
            0
        };
        let other_gw: u64 = if addr_eq(&other.gateway, addr) {
            1
        } else {
            0
        };
        let self_dst: u64 = match &self.dst {
            Option::None => 1,
            Option::Some(dst) => if dst.is_matching(addr) {
                1
            } else {
                0
            },
        };
        let other_dst: u64 = match &other.dst {
            Option::None => 1,
            Option::Some(dst) => if dst.is_matching(addr) {
                1
            } else {
                0
            },
        };
        let self_rank: u64 = self_gw * 0x2_0000_0000 + self_dst * 0x1_0000_0000
            + (u32::MAX - self.metric) as u64;
        let other_rank: u64 = other_gw * 0x2_0000_0000 + other_dst * 0x1_0000_0000
            + (u32::MAX - other.metric) as u64;
        if self_rank < other_rank {
            core::cmp::Ordering::Less
        } else if self_rank == other_rank {
            core::cmp::Ordering::Equal
        } else {
            core::cmp::Ordering::Greater
        }
    }
}

/// Returns the index of the route to be used to transmit a packet to the
/// given destination address: a matching route of maximal rank -- gateway
/// routes first, then destination matches, the lowest metric breaking
/// ties -- or `None` when no route matches.
pub fn get_iface_for(routes: &Vec<Route>, addr: &Address) -> (r: Option<usize>)
    ensures
        match r {
            Option::None => forall|j: int|
                0 <= j < routes@.len() ==> !(#[trigger] routes@[j]).spec_is_matching(*addr),
            Option::Some(i) => {
                &&& i < routes@.len()
                &&& routes@[i as int].spec_is_matching(*addr)
                &&& forall|j: int|
                    0 <= j < routes@.len() && (#[trigger] routes@[j]).spec_is_matching(*addr)
                        ==> routes@[j].spec_rank(*addr) <= routes@[i as int].spec_rank(*addr)
            },
        },
{
    let mut best: Option<usize> = Option::None;
    let mut i: usize = 0;
    while i < routes.len()
        invariant
            i <= routes@.len(),
            match best {
                Option::None => forall|j: int|
                    0 <= j < i as int ==> !(#[trigger] routes@[j]).spec_is_matching(*addr),
                Option::Some(bi) => {
                    &&& bi < i
                    &&& routes@[bi as int].spec_is_matching(*addr)
                    &&& forall|j: int|
                        0 <= j < i as int && (#[trigger] routes@[j]).spec_is_matching(*addr)
                            ==> routes@[j].spec_rank(*addr) <= routes@[bi as int].spec_rank(
                            *addr,
                        )
                },
            },
        decreases routes@.len() - i,
    {
        let route = &routes[i];
        if route.is_matching(addr) {
            match best {
                Option::None => {
                    best = Option::Some(i);
                },
                Option::Some(bi) => {
                    let ord = routes[bi].cmp_for(route, addr);
                    if !(matches!(ord, core::cmp::Ordering::Greater)) {
                        best = Option::Some(i);
                    }
                },
            }
        }
        i = i + 1;
    }
    best
}

/// A list of buffers out of which a packet is built, the front buffer
/// first.
#[derive(Debug)]
pub struct BuffList {
    /// The buffers, in packet order.
    buffers: Vec<Vec<u8>>,
}

/// The bytes of the buffers of `s`, laid end to end.
pub open spec fn flat_bytes(s: Seq<Seq<u8>>) -> Seq<u8>
    decreases s.len(),
{
    if s.len() == 0 {
        Seq::empty()
    } else {
        flat_bytes(s.drop_last()) + s.last()
    }
}

impl View for BuffList {
    type V = Seq<u8>;

    /// The content of the whole packet.
    closed spec fn view(&self) -> Seq<u8> {
        flat_bytes(self.buffers@.map_values(|b: Vec<u8>| b@))
    }
}

impl BuffList {
    /// Creates a list holding the one buffer `b`.
    pub fn from(b: Vec<u8>) -> (r: BuffList)
        ensures
            r@ == b@,
    {
        let ghost bv = b@;
        let mut buffers: Vec<Vec<u8>> = Vec::new();
        buffers.push(b);
        let r = BuffList { buffers };
        proof {
            let m = r.buffers@.map_values(|x: Vec<u8>| x@);
            assert(m.drop_last() =~= Seq::<Seq<u8>>::empty());
            assert(m.last() == bv);
            assert(flat_bytes(Seq::<Seq<u8>>::empty()) =~= Seq::<u8>::empty());
            assert(flat_bytes(m) =~= bv);
        }
        r
    }

    /// Returns the length of the whole packet: the buffer's length plus
    /// the following buffers'.
    pub fn len(&self) -> (r: usize)
        requires
            self@.len() <= usize::MAX,
        ensures
            r == self@.len(),
    {
        let mut total: usize = 0;
        let mut i: usize = 0;
        let n = self.buffers.len();
        proof {
            lemma_flat_bytes_len_prefix(self.buffers@.map_values(|b: Vec<u8>| b@), 0);
        }
        while i < n
            invariant
                n == self.buffers@.len(),
                i <= n,
                self@.len() <= usize::MAX,
                total == flat_bytes(
                    self.buffers@.map_values(|b: Vec<u8>| b@).subrange(0, i as int),
                ).len(),
            decreases n - i,
        {
            let ghost m = self.buffers@.map_values(|b: Vec<u8>| b@);
            proof {
                assert(m.subrange(0, i as int + 1).drop_last() =~= m.subrange(0, i as int));
                assert(m.subrange(0, i as int + 1).last() == self.buffers@[i as int]@);
                lemma_flat_bytes_prefix_le(m, i as int + 1);
                assert(flat_bytes(m.subrange(0, m.len() as int)) == flat_bytes(m)) by {
                    assert(m.subrange(0, m.len() as int) =~= m);
                }
            }
            total = total + self.buffers[i].len();
            i = i + 1;
        }
        proof {
            let m = self.buffers@.map_values(|b: Vec<u8>| b@);
            assert(m.subrange(0, n as int) =~= m);
        }
        total
    }

    /// Pushes another buffer at the front of the list.
    pub fn push_front(&mut self, other: Vec<u8>)
        ensures
            final(self)@ == other@ + old(self)@,
    {
        let ghost ov = other@;
        self.buffers.insert(0, other);
        proof {
            let m0 = old(self).buffers@.map_values(|b: Vec<u8>| b@);
            let m1 = self.buffers@.map_values(|b: Vec<u8>| b@);
            assert(m1 =~= seq![ov] + m0);
            lemma_flat_bytes_cons(ov, m0);
        }
    }

    /// Collects all buffers into one.
    pub fn collect(&self) -> (r: Vec<u8>)
        requires
            self@.len() <= usize::MAX,
        ensures
            r@ == self@,
    {
        let mut out: Vec<u8> = Vec::new();
        let mut i: usize = 0;
        let n = self.buffers.len();
        while i < n
            invariant
                n == self.buffers@.len(),
                i <= n,
                self@.len() <= usize::MAX,
                out@ == flat_bytes(
                    self.buffers@.map_values(|b: Vec<u8>| b@).subrange(0, i as int),
                ),
            decreases n - i,
        {
            let ghost m = self.buffers@.map_values(|b: Vec<u8>| b@);
            proof {
                assert(m.subrange(0, i as int + 1).drop_last() =~= m.subrange(0, i as int));
                assert(m.subrange(0, i as int + 1).last() == self.buffers@[i as int]@);
                lemma_flat_bytes_prefix_le(m, i as int + 1);
                assert(flat_bytes(m.subrange(0, m.len() as int)) == flat_bytes(m)) by {
                    assert(m.subrange(0, m.len() as int) =~= m);
                }
            }
            let mut j: usize = 0;
            let buf_len = self.buffers[i].len();
            while j < buf_len
                invariant
                    n == self.buffers@.len(),
                    i < n,
                    buf_len == self.buffers@[i as int]@.len(),
                    j <= buf_len,
                    self@.len() <= usize::MAX,
                    out@ == flat_bytes(
                        self.buffers@.map_values(|b: Vec<u8>| b@).subrange(0, i as int),
                    ) + self.buffers@[i as int]@.subrange(0, j as int),
                decreases buf_len - j,
            {
                let b = self.buffers[i][j];
                out.push(b);
                proof {
                    assert(self.buffers@[i as int]@.subrange(0, j as int + 1)
                        =~= self.buffers@[i as int]@.subrange(0, j as int).push(b));
                }
                j = j + 1;
            }
            proof {
                assert(self.buffers@[i as int]@.subrange(0, buf_len as int)
                    =~= self.buffers@[i as int]@);
                assert(flat_bytes(m.subrange(0, i as int + 1)) == flat_bytes(
                    m.subrange(0, i as int),
                ) + m[i as int]);
            }
            i = i + 1;
        }
        proof {
            let m = self.buffers@.map_values(|b: Vec<u8>| b@);
            assert(m.subrange(0, n as int) =~= m);
        }
        out
    }
}

/// The flattening of a prefix is no longer than the whole: used to keep
/// running totals within bounds.
proof fn lemma_flat_bytes_prefix_le(s: Seq<Seq<u8>>, i: int)
    requires
        0 <= i <= s.len(),
    ensures
        flat_bytes(s.subrange(0, i)).len() <= flat_bytes(s).len(),
    decreases s.len() - i,
{
    if i < s.len() {
        lemma_flat_bytes_prefix_le(s, i + 1);
        assert(s.subrange(0, i + 1).drop_last() =~= s.subrange(0, i));
    } else {
        assert(s.subrange(0, i) =~= s);
    }
}

/// Helper for establishing the starting total of a length scan.
proof fn lemma_flat_bytes_len_prefix(s: Seq<Seq<u8>>, i: int)
    ensures
        flat_bytes(s.subrange(0, 0)).len() == 0,
{
    assert(s.subrange(0, 0) =~= Seq::<Seq<u8>>::empty());
}

/// Prepending one buffer prepends its bytes.
proof fn lemma_flat_bytes_cons(b: Seq<u8>, s: Seq<Seq<u8>>)
    ensures
        flat_bytes(seq![b] + s) == b + flat_bytes(s),
    decreases s.len(),
{
    let w = seq![b] + s;
    if s.len() == 0 {
        assert(w.drop_last() =~= Seq::<Seq<u8>>::empty());
        assert(w.last() == b);
        assert(flat_bytes(Seq::<Seq<u8>>::empty()) =~= Seq::<u8>::empty());
        assert(s =~= Seq::<Seq<u8>>::empty());
        assert(flat_bytes(w) =~= b + flat_bytes(s));
    } else {
        assert(w.drop_last() =~= seq![b] + s.drop_last());
        lemma_flat_bytes_cons(b, s.drop_last());
        assert(w.last() == s.last());
        assert(flat_bytes(w) =~= b + flat_bytes(s));
    }
}

} // verus!
