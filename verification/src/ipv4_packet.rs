use vstd::prelude::*;

use crate::ethernet_frame::{EthernetFrameCollection, EthernetFrameView};
use crate::wire::{be16, be32};

verus! {

/// A decoded IPv4 packet: the two host addresses the filters inspect, as
/// 32-bit values in network order, and the payload the header delimits.
/// All bytes are fully owned copies.
pub struct Ipv4Packet {
    pub source: u32,
    pub destination: u32,
    pub payload: Vec<u8>,
}

/// The mathematical value of an [`Ipv4Packet`].
pub ghost struct Ipv4PacketView {
    pub source: u32,
    pub destination: u32,
    pub payload: Seq<u8>,
}

impl View for Ipv4Packet {
    type V = Ipv4PacketView;

    open spec fn view(&self) -> Ipv4PacketView {
        Ipv4PacketView {
            source: self.source@,
            destination: self.destination@,
            payload: self.payload@,
        }
    }
}

impl DeepView for Ipv4Packet {
    type V = Ipv4PacketView;

    open spec fn deep_view(&self) -> Ipv4PacketView {
        self@
    }
}

/// Where the IPv4 payload starts: after the header, whose length the low
/// nibble of the first byte gives in 4-byte words, but never inside the
/// 20 fixed header bytes.
pub open spec fn spec_ipv4_payload_start(b: Seq<u8>) -> int {
    let hl4 = (b[0] & 0x0f) * 4;
    if hl4 > 20 {
        hl4
    } else {
        20
    }
}

/// How many payload bytes the headers announce: the total length field minus
/// the header length, saturating at zero.
pub open spec fn spec_ipv4_payload_len(b: Seq<u8>) -> int {
    let hl4 = (b[0] & 0x0f) * 4;
    let total = be16(b, 2);
    if total >= hl4 {
        total - hl4
    } else {
        0
    }
}

/// The payload bytes of an IPv4 packet held in `b`: the announced payload
/// window, clipped to the buffer; empty when the buffer ends before the
/// payload starts.
pub open spec fn spec_ipv4_payload(b: Seq<u8>) -> Seq<u8> {
    let start = spec_ipv4_payload_start(b);
    let end0 = start + spec_ipv4_payload_len(b);
    let end = if end0 < b.len() {
        end0
    } else {
        b.len() as int
    };
    if b.len() <= start {
        Seq::empty()
    } else {
        b.subrange(start, end)
    }
}

/// What decoding a buffer as IPv4 yields: the parse succeeds exactly when the
/// buffer holds at least the 20 fixed header bytes; the addresses are the
/// big-endian words at offsets 12 and 16, and the payload is the window the
/// headers delimit.
pub open spec fn spec_parse_ipv4(b: Seq<u8>) -> Option<Ipv4PacketView> {
    if b.len() >= 20 {
        Some(
            Ipv4PacketView {
                source: be32(b, 12) as u32,
                destination: be32(b, 16) as u32,
                payload: spec_ipv4_payload(b),
            },
        )
    } else {
        None
    }
}

impl Ipv4Packet {
    /// Attempt to decode a buffer as an IPv4 packet.
    ///
    /// Relies on pnet's `Ipv4Packet::new`, `get_source`, `get_destination`
    /// and `Packet::payload`: `new` returns `Some` exactly when the buffer
    /// reaches the minimum packet size of 20 bytes; the address getters read
    /// the big-endian words at offsets 12 and 16; the payload starts after
    /// `header_length * 4` bytes (at least 20) and runs for
    /// `total_length - header_length * 4` bytes (at least 0), clipped to the
    /// buffer, empty when the buffer ends before it starts.
    #[verifier::external_body]
    pub fn new(packet: &[u8]) -> (r: Option<Ipv4Packet>)
        ensures
            (match r {
                Some(p) => Some(p@),
                None => None,
            }) == spec_parse_ipv4(packet@),
    {
        match pnet::packet::ipv4::Ipv4Packet::new(packet) {
            Some(p) => Some(Ipv4Packet {
                source: u32::from_be_bytes(p.get_source().octets()),
                destination: u32::from_be_bytes(p.get_destination().octets()),
                payload: pnet::packet::Packet::payload(&p).to_vec(),
            }),
            None => None,
        }
    }

    /// An independently owned copy of this packet.
    pub fn create_clone(&self) -> (r: Ipv4Packet)
        ensures
            r@ == self@,
    {
        Ipv4Packet {
            source: self.source,
            destination: self.destination,
            payload: crate::wire::clone_bytes(&self.payload),
        }
    }
}

/// Decoding a sequence of Ethernet frames as IPv4: each frame's payload is
/// parsed, frames that do not parse are silently dropped, and the order of
/// the survivors is kept.
pub open spec fn spec_decode_ipv4(frames: Seq<EthernetFrameView>) -> Seq<Ipv4PacketView>
    decreases frames.len(),
{
    if frames.len() == 0 {
        Seq::empty()
    } else {
        let rest = spec_decode_ipv4(frames.drop_last());
        match spec_parse_ipv4(frames.last().payload) {
            Some(p) => rest.push(p),
            None => rest,
        }
    }
}

/// The IPv4 decode stage never increases cardinality.
pub proof fn lemma_decode_ipv4_len(frames: Seq<EthernetFrameView>)
    ensures
        spec_decode_ipv4(frames).len() <= frames.len(),
    decreases frames.len(),
{
    if frames.len() > 0 {
        lemma_decode_ipv4_len(frames.drop_last());
    }
}

/// The packets of `s` whose source or destination address is `host`, in order.
pub open spec fn spec_filter_host(s: Seq<Ipv4PacketView>, host: u32) -> Seq<Ipv4PacketView>
    decreases s.len(),
{
    if s.len() == 0 {
        Seq::empty()
    } else {
        let rest = spec_filter_host(s.drop_last(), host);
        if s.last().source == host || s.last().destination == host {
            rest.push(s.last())
        } else {
            rest
        }
    }
}

/// An insertion-ordered sequence of decoded IPv4 packets.
pub struct Ipv4PacketCollection {
    packets: Vec<Ipv4Packet>,
}

impl View for Ipv4PacketCollection {
    type V = Seq<Ipv4PacketView>;

    closed spec fn view(&self) -> Seq<Ipv4PacketView> {
        self.packets.deep_view()
    }
}

impl Ipv4PacketCollection {
    /// The empty collection.
    pub fn empty() -> (r: Ipv4PacketCollection)
        ensures
            r@ == Seq::<Ipv4PacketView>::empty(),
    {
        let r = Ipv4PacketCollection { packets: Vec::new() };
        proof {
            assert(r@ =~= Seq::<Ipv4PacketView>::empty());
        }
        r
    }

    /// Wrap an ordered sequence of packets.
    pub fn from_vec(packets: Vec<Ipv4Packet>) -> (r: Ipv4PacketCollection)
        ensures
            r@ == packets.deep_view(),
    {
        Ipv4PacketCollection { packets }
    }

    pub fn len(&self) -> (n: usize)
        ensures
            n == self@.len(),
    {
        self.packets.len()
    }

    pub fn get(&self, i: usize) -> (p: &Ipv4Packet)
        requires
            i < self@.len(),
        ensures
            p@ == self@[i as int],
    {
        &self.packets[i]
    }

    /// Append one packet, keeping arrival order.
    pub fn push(&mut self, packet: Ipv4Packet)
        ensures
            final(self)@ == old(self)@.push(packet@),
    {
        self.packets.push(packet);
        proof {
            assert(self@ =~= old(self)@.push(packet@));
        }
    }

    /// Decode every frame of an Ethernet collection as IPv4, silently
    /// dropping frames whose payload does not parse, in order.
    pub fn from_ethernet(frames: &EthernetFrameCollection) -> (r: Ipv4PacketCollection)
        ensures
            r@ == spec_decode_ipv4(frames@),
    {
        let mut out = Ipv4PacketCollection::empty();
        let mut i: usize = 0;
        while i < frames.len()
            invariant
                i <= frames@.len(),
                out@ == spec_decode_ipv4(frames@.take(i as int)),
            decreases frames@.len() - i,
        {
            let frame = frames.get(i);
            match Ipv4Packet::new(frame.payload.as_slice()) {
                Some(p) => out.push(p),
                None => (),
            }
            i = i + 1;
            proof {
                assert(frames@.take(i as int).drop_last() =~= frames@.take(i as int - 1));
                assert(frames@.take(i as int).last() == frames@[i as int - 1]);
            }
        }
        proof {
            assert(frames@.take(frames@.len() as int) =~= frames@);
        }
        out
    }

    /// Keep only the packets whose source or destination address equals
    /// `host`, in order, as independently owned copies.
    pub fn filter_only_host(&self, host: u32) -> (r: Ipv4PacketCollection)
        ensures
            r@ == spec_filter_host(self@, host),
    {
        let mut out = Ipv4PacketCollection::empty();
        let mut i: usize = 0;
        while i < self.len()
            invariant
                i <= self@.len(),
                out@ == spec_filter_host(self@.take(i as int), host),
            decreases self@.len() - i,
        {
            let p = self.get(i);
            if p.source == host || p.destination == host {
                out.push(p.create_clone());
            }
            i = i + 1;
            proof {
                assert(self@.take(i as int).drop_last() =~= self@.take(i as int - 1));
                assert(self@.take(i as int).last() == self@[i as int - 1]);
            }
        }
        proof {
            assert(self@.take(self@.len() as int) =~= self@);
        }
        out
    }
}

/// Every packet that the host filter keeps names `host` as its source or its
/// destination, and the filter never grows its input.
pub proof fn lemma_filter_host_sound(s: Seq<Ipv4PacketView>, host: u32)
    ensures
        forall|k: int|
            0 <= k < spec_filter_host(s, host).len() ==> {
                let p = #[trigger] spec_filter_host(s, host)[k];
                p.source == host || p.destination == host
            },
        spec_filter_host(s, host).len() <= s.len(),
    decreases s.len(),
{
    if s.len() > 0 {
        lemma_filter_host_sound(s.drop_last(), host);
    }
}

/// On a sequence whose every packet already names `host`, the host filter
/// changes nothing.
pub proof fn lemma_filter_host_fixed(s: Seq<Ipv4PacketView>, host: u32)
    requires
        forall|k: int|
            0 <= k < s.len() ==> {
                let p = #[trigger] s[k];
                p.source == host || p.destination == host
            },
    ensures
        spec_filter_host(s, host) == s,
    decreases s.len(),
{
    if s.len() > 0 {
        assert(forall|k: int| 0 <= k < s.drop_last().len() ==> s.drop_last()[k] == s[k]);
        lemma_filter_host_fixed(s.drop_last(), host);
        assert(spec_filter_host(s, host) =~= s);
    } else {
        assert(spec_filter_host(s, host) =~= s);
    }
}

/// Applying the host filter twice with the same host equals applying it once.
pub proof fn lemma_filter_host_idempotent(s: Seq<Ipv4PacketView>, host: u32)
    ensures
        spec_filter_host(spec_filter_host(s, host), host) == spec_filter_host(s, host),
{
    lemma_filter_host_sound(s, host);
    lemma_filter_host_fixed(spec_filter_host(s, host), host);
}

} // verus!
