//! Gossip packet layer: advertise / request / payload exchange.
//!
//! Every payload gets a per-source sequence-numbered id. A node that has a
//! payload advertises it; a node missing the advertised payload asks the
//! advertiser for it; a received payload is cached for retransmission, so
//! that any peer still holding it can serve later requests. The bounded
//! FIFO cache also deduplicates: a payload seen before is not delivered to
//! the application again. The decisions live here as pure functions over
//! the cache; moving the datagrams is the caller's business.

use vstd::prelude::*;

verus! {

/// Capacity of the retransmission cache: the oldest entry is evicted when
/// a new one would exceed it.
pub const MAX_PACKETS_STORED: usize = 200;

/// Identity of one payload: the sender's node address plus its 8-bit
/// wrapping sequence number. Equality is exact; collisions beyond a
/// 256-packet window per source are accepted.
#[derive(Clone, Copy, PartialEq, Eq, Structural, Debug)]
pub struct PacketId {
    pub source_ip_addr: i64,
    pub sequence_number: u8,
}

impl PacketId {
    pub fn new(source_ip_addr: i64, sequence_number: u8) -> (r: PacketId)
        ensures
            r == (PacketId { source_ip_addr, sequence_number }),
    {
        PacketId { source_ip_addr, sequence_number }
    }
}

/// "I hold this payload; whoever wants it, ask me."
#[derive(Clone, Copy, PartialEq, Eq, Structural, Debug)]
pub struct AdvertisementPacket {
    pub packet: PacketId,
    pub advertiser: i64,
}

impl AdvertisementPacket {
    pub fn new(packet: &PayloadPacket, advertiser: i64) -> (r: AdvertisementPacket)
        ensures
            r == (AdvertisementPacket { packet: packet.packet, advertiser }),
    {
        AdvertisementPacket { packet: packet.packet, advertiser }
    }
}

/// "Send me the payload with this id."
#[derive(Clone, Copy, PartialEq, Eq, Structural, Debug)]
pub struct SendRequestPacket {
    pub packet: PacketId,
}

impl SendRequestPacket {
    pub fn new(packet: &AdvertisementPacket) -> (r: SendRequestPacket)
        ensures
            r == (SendRequestPacket { packet: packet.packet }),
    {
        SendRequestPacket { packet: packet.packet }
    }
}

/// The payload itself: an opaque byte string under its id.
pub struct PayloadPacket {
    pub packet: PacketId,
    pub payload: Vec<u8>,
}

impl PayloadPacket {
    pub fn new(payload: Vec<u8>, source_ip_addr: i64, sequence_number: u8) -> (r: PayloadPacket)
        ensures
            r.packet == (PacketId { source_ip_addr, sequence_number }),
            r.payload@ == payload@,
    {
        PayloadPacket { packet: PacketId { source_ip_addr, sequence_number }, payload }
    }
}

/// The tagged union that travels in one datagram.
pub enum SendablePackets {
    AdvertisementPacket(AdvertisementPacket),
    SendRequestPacket(SendRequestPacket),
    PayloadPacket(PayloadPacket),
}

/// An exact copy of a byte string.
fn clone_bytes(v: &Vec<u8>) -> (r: Vec<u8>)
    ensures
        r@ == v@,
{
    let mut r: Vec<u8> = Vec::new();
    let mut i: usize = 0;
    while i < v.len()
        invariant
            i <= v.len(),
            r@ == v@.take(i as int),
        decreases v.len() - i,
    {
        r.push(v[i]);
        proof {
            assert(r@ =~= v@.take(i as int + 1));
        }
        i += 1;
    }
    proof {
        assert(v@.take(v@.len() as int) =~= v@);
    }
    r
}

/// First index of `id` among the cache entries, oldest first, or -1 when
/// the id is not cached.
pub open spec fn cache_index_of(entries: Seq<(PacketId, Seq<u8>)>, id: PacketId) -> int
    decreases entries.len(),
{
    if entries.len() == 0 {
        -1
    } else if entries[0].0 == id {
        0
    } else {
        let rest = cache_index_of(entries.drop_first(), id);
        if rest < 0 {
            -1
        } else {
            rest + 1
        }
    }
}

/// The id holds a cached body.
pub open spec fn cache_has(entries: Seq<(PacketId, Seq<u8>)>, id: PacketId) -> bool {
    cache_index_of(entries, id) >= 0
}

/// Cache state after an insert: nothing for an id already present, else
/// the entry joins at the young end and, past capacity, the oldest entry
/// leaves.
pub open spec fn cache_insert_model(
    entries: Seq<(PacketId, Seq<u8>)>,
    id: PacketId,
    body: Seq<u8>,
) -> Seq<(PacketId, Seq<u8>)> {
    if cache_has(entries, id) {
        entries
    } else {
        let grown = entries.push((id, body));
        if grown.len() > MAX_PACKETS_STORED {
            grown.drop_first()
        } else {
            grown
        }
    }
}

/// Bounded FIFO retransmission cache: at most one body per id, entries in
/// insertion order, never more than `MAX_PACKETS_STORED` of them.
pub struct PacketCache {
    entries: Vec<PayloadPacket>,
}

impl View for PacketCache {
    type V = Seq<(PacketId, Seq<u8>)>;

    closed spec fn view(&self) -> Seq<(PacketId, Seq<u8>)> {
        Seq::new(self.entries@.len(), |i: int| (self.entries@[i].packet, self.entries@[i].payload@))
    }
}

impl PacketCache {
    /// At most one body per id, never more entries than the capacity, and
    /// every body small enough for a datagram header to precede it.
    pub open spec fn wf(self) -> bool {
        &&& self@.len() <= MAX_PACKETS_STORED
        &&& forall|i: int, j: int|
            0 <= i < j < self@.len() ==> (#[trigger] self@[i]).0 != (#[trigger] self@[j]).0
        &&& forall|i: int| 0 <= i < self@.len() ==> (#[trigger] self@[i]).1.len() <= usize::MAX - 18
    }

    /// An empty cache.
    pub fn new() -> (r: PacketCache)
        ensures
            r.wf(),
            r@.len() == 0,
    {
        let r = PacketCache { entries: Vec::new() };
        proof {
            assert(r@ =~= Seq::<(PacketId, Seq<u8>)>::empty());
        }
        r
    }

    /// Whether `id` is cached.
    pub fn contains(&self, id: PacketId) -> (r: bool)
        ensures
            r == cache_has(self@, id),
    {
        let n = self.entries.len();
        let mut idx: usize = 0;
        while idx < n && !(self.entries[idx].packet == id)
            invariant
                n == self.entries.len(),
                idx <= n,
                forall|i: int| 0 <= i < idx ==> (#[trigger] self@[i]).0 != id,
            decreases n - idx,
        {
            idx += 1;
        }
        proof {
            lemma_cache_index_of_matches(self@, id, idx as int);
        }
        idx < n
    }

    /// The cached body under `id`, if any, as a fresh payload packet.
    pub fn lookup(&self, id: PacketId) -> (r: Option<PayloadPacket>)
        ensures
            r is Some <==> cache_has(self@, id),
            r matches Some(p) ==> {
                &&& p.packet == id
                &&& p.payload@ == self@[cache_index_of(self@, id)].1
            },
    {
        let n = self.entries.len();
        let mut idx: usize = 0;
        while idx < n && !(self.entries[idx].packet == id)
            invariant
                n == self.entries.len(),
                idx <= n,
                forall|i: int| 0 <= i < idx ==> (#[trigger] self@[i]).0 != id,
            decreases n - idx,
        {
            idx += 1;
        }
        proof {
            lemma_cache_index_of_matches(self@, id, idx as int);
        }
        if idx < n {
            Some(
                PayloadPacket {
                    packet: self.entries[idx].packet,
                    payload: clone_bytes(&self.entries[idx].payload),
                },
            )
        } else {
            None
        }
    }

    /// Cache `packet` unless its id is already present; past capacity the
    /// oldest entry is evicted.
    pub fn insert(&mut self, packet: PayloadPacket)
        requires
            old(self).wf(),
            packet.payload@.len() <= usize::MAX - 18,
        ensures
            final(self).wf(),
            final(self)@ == cache_insert_model(old(self)@, packet.packet, packet.payload@),
    {
        let ghost pre = self@;
        if self.contains(packet.packet) {
            return;
        }
        proof {
            lemma_cache_absent_all_differ(pre, packet.packet);
        }
        self.entries.push(packet);
        proof {
            assert(self@ =~= pre.push((packet.packet, packet.payload@)));
        }
        if self.entries.len() > MAX_PACKETS_STORED {
            let ghost grown = self@;
            let _evicted = self.entries.remove(0);
            proof {
                assert(self@ =~= grown.drop_first());
            }
        }
    }

    /// Decision on an incoming advertisement: ask the advertiser for the
    /// payload unless it is already cached, in which case the datagram is
    /// ignored.
    pub fn handle_advertisement(&self, adv: &AdvertisementPacket) -> (r: Option<SendRequestPacket>)
        ensures
            r == if cache_has(self@, adv.packet) {
                Option::<SendRequestPacket>::None
            } else {
                Option::<SendRequestPacket>::Some(SendRequestPacket { packet: adv.packet })
            },
    {
        if self.contains(adv.packet) {
            None
        } else {
            Some(SendRequestPacket::new(adv))
        }
    }

    /// Decision on an incoming send request: serve the cached payload back
    /// to the requester, or ignore a request for an id not held.
    pub fn handle_send_request(&self, req: &SendRequestPacket) -> (r: Option<PayloadPacket>)
        ensures
            r is Some <==> cache_has(self@, req.packet),
            r matches Some(p) ==> {
                &&& p.packet == req.packet
                &&& p.payload@ == self@[cache_index_of(self@, req.packet)].1
            },
    {
        self.lookup(req.packet)
    }

    /// Decision on an incoming payload: a duplicate is dropped without a
    /// trace — the cache keeps its state and the application is not
    /// notified. A new payload is cached (evicting the oldest entry past
    /// capacity) and comes back with the advertisement this node should
    /// broadcast for it; the caller then also delivers the payload to the
    /// application.
    pub fn handle_payload(&mut self, pp: &PayloadPacket, own_addr: i64) -> (r: Option<
        AdvertisementPacket,
    >)
        requires
            old(self).wf(),
            pp.payload@.len() <= usize::MAX - 18,
        ensures
            final(self).wf(),
            cache_has(old(self)@, pp.packet) ==> {
                &&& r is None
                &&& final(self)@ == old(self)@
            },
            !cache_has(old(self)@, pp.packet) ==> {
                &&& r == Some(AdvertisementPacket { packet: pp.packet, advertiser: own_addr })
                &&& final(self)@ == cache_insert_model(old(self)@, pp.packet, pp.payload@)
            },
    {
        if self.contains(pp.packet) {
            return None;
        }
        let copy = PayloadPacket { packet: pp.packet, payload: clone_bytes(&pp.payload) };
        self.insert(copy);
        Some(AdvertisementPacket { packet: pp.packet, advertiser: own_addr })
    }
}

/// The pure half of sending a payload: stamp it with this node's address
/// and the current sequence number, build the advertisement to broadcast,
/// and advance the sequence number with 8-bit wraparound. The caller
/// registers the payload packet in the worker's cache and broadcasts the
/// advertisement.
pub fn prepare_send(payload: Vec<u8>, own_addr: i64, sequence_number: u8) -> (r: (
    PayloadPacket,
    AdvertisementPacket,
    u8,
))
    ensures
        r.0.packet == (PacketId { source_ip_addr: own_addr, sequence_number }),
        r.0.payload@ == payload@,
        r.1 == (AdvertisementPacket { packet: r.0.packet, advertiser: own_addr }),
        r.2 == (sequence_number + 1) % 256,
{
    let packet = PayloadPacket::new(payload, own_addr, sequence_number);
    let advertisement = AdvertisementPacket::new(&packet, own_addr);
    let next_seq = sequence_number.wrapping_add(1);
    (packet, advertisement, next_seq)
}

/// A cached id's index lies within the entries.
pub proof fn lemma_cache_index_in_range(entries: Seq<(PacketId, Seq<u8>)>, id: PacketId)
    requires
        cache_has(entries, id),
    ensures
        0 <= cache_index_of(entries, id) < entries.len(),
        entries[cache_index_of(entries, id)].0 == id,
    decreases entries.len(),
{
    if entries.len() > 0 && entries[0].0 != id {
        lemma_cache_index_in_range(entries.drop_first(), id);
    }
}

/// A linear scan that stops at the first match computes `cache_index_of`.
proof fn lemma_cache_index_of_matches(entries: Seq<(PacketId, Seq<u8>)>, id: PacketId, idx: int)
    requires
        0 <= idx <= entries.len(),
        forall|i: int| 0 <= i < idx ==> (#[trigger] entries[i]).0 != id,
        idx < entries.len() ==> entries[idx].0 == id,
    ensures
        idx < entries.len() ==> cache_index_of(entries, id) == idx,
        idx == entries.len() ==> cache_index_of(entries, id) == -1,
    decreases idx,
{
    if entries.len() == 0 {
    } else if entries[0].0 == id {
        assert(idx == 0);
    } else {
        assert(idx >= 1);
        lemma_cache_index_of_matches(entries.drop_first(), id, idx - 1);
    }
}

/// Law: the cache never exceeds its capacity and holds at most one body
/// per id — an insert into a well-formed cache preserves both, and evicts
/// exactly the oldest entry when, and only when, the insert would push it
/// past capacity.
pub proof fn lemma_cache_fifo_bounded(entries: Seq<(PacketId, Seq<u8>)>, id: PacketId, body: Seq<u8>)
    requires
        entries.len() <= MAX_PACKETS_STORED,
        forall|i: int, j: int|
            0 <= i < j < entries.len() ==> (#[trigger] entries[i]).0 != (#[trigger] entries[j]).0,
    ensures
        cache_insert_model(entries, id, body).len() <= MAX_PACKETS_STORED,
        forall|i: int, j: int|
            0 <= i < j < cache_insert_model(entries, id, body).len() ==> (#[trigger] cache_insert_model(
                entries,
                id,
                body,
            )[i]).0 != (#[trigger] cache_insert_model(entries, id, body)[j]).0,
        !cache_has(entries, id) && entries.len() == MAX_PACKETS_STORED ==> cache_insert_model(
            entries,
            id,
            body,
        ) == entries.drop_first().push((id, body)),
        !cache_has(entries, id) && entries.len() < MAX_PACKETS_STORED ==> cache_insert_model(
            entries,
            id,
            body,
        ) == entries.push((id, body)),
{
    if !cache_has(entries, id) {
        lemma_cache_absent_all_differ(entries, id);
        let grown = entries.push((id, body));
        if grown.len() > MAX_PACKETS_STORED {
            assert(cache_insert_model(entries, id, body) =~= entries.drop_first().push((id, body)));
        }
    }
}

/// An id the cache does not hold differs from every cached id.
proof fn lemma_cache_absent_all_differ(entries: Seq<(PacketId, Seq<u8>)>, id: PacketId)
    requires
        !cache_has(entries, id),
    ensures
        forall|i: int| 0 <= i < entries.len() ==> (#[trigger] entries[i]).0 != id,
    decreases entries.len(),
{
    if entries.len() > 0 {
        lemma_cache_absent_all_differ(entries.drop_first(), id);
        assert forall|i: int| 0 <= i < entries.len() implies (#[trigger] entries[i]).0 != id by {
            if i > 0 {
                assert(entries.drop_first()[i - 1] == entries[i]);
            }
        }
    }
}

} // verus!
