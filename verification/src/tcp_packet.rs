use vstd::prelude::*;
use vstd::multiset::Multiset;

use crate::ipv4_packet::{Ipv4PacketCollection, Ipv4PacketView};
use crate::wire::{be16, be32};

verus! {

/// Flag byte of a segment that carries exactly SYN.
pub const TCP_FLAGS_SYN: u8 = 0x02;

/// Flag byte of a segment that carries exactly RST and ACK.
pub const TCP_FLAGS_RST_ACK: u8 = 0x14;

/// A decoded TCP segment: the header fields the correlator inspects, as
/// plain values, and the payload bytes, fully owned.
pub struct TcpSegment {
    pub source_port: u16,
    pub destination_port: u16,
    pub sequence: u32,
    pub acknowledgement: u32,
    pub flags: u8,
    pub payload: Vec<u8>,
}

/// The mathematical value of a [`TcpSegment`].
pub ghost struct TcpSegmentView {
    pub source_port: u16,
    pub destination_port: u16,
    pub sequence: u32,
    pub acknowledgement: u32,
    pub flags: u8,
    pub payload: Seq<u8>,
}

impl View for TcpSegment {
    type V = TcpSegmentView;

    open spec fn view(&self) -> TcpSegmentView {
        TcpSegmentView {
            source_port: self.source_port,
            destination_port: self.destination_port,
            sequence: self.sequence,
            acknowledgement: self.acknowledgement,
            flags: self.flags,
            payload: self.payload@,
        }
    }
}

impl DeepView for TcpSegment {
    type V = TcpSegmentView;

    open spec fn deep_view(&self) -> TcpSegmentView {
        self@
    }
}

/// Segment `a` is answered by segment `b`: `b` flows in the reverse port
/// direction and acknowledges exactly the end of `a`'s payload. The
/// sequence-space sum is taken over the unbounded integers, without
/// wraparound correction near the 32-bit boundary.
pub open spec fn spec_is_answered_by(a: TcpSegmentView, b: TcpSegmentView) -> bool {
    &&& a.source_port == b.destination_port
    &&& a.destination_port == b.source_port
    &&& a.sequence + a.payload.len() == b.acknowledgement
}

/// Where the TCP payload starts: after the header, whose length the data
/// offset nibble gives in 4-byte words, but never inside the 20 fixed
/// header bytes.
pub open spec fn spec_tcp_payload_start(b: Seq<u8>) -> int {
    let doff = b[12] >> 4;
    if doff > 5 {
        doff * 4
    } else {
        20
    }
}

/// The payload bytes of a TCP segment held in `b`: everything after the
/// header; empty when the buffer ends before the payload starts.
pub open spec fn spec_tcp_payload(b: Seq<u8>) -> Seq<u8> {
    let start = spec_tcp_payload_start(b);
    if b.len() <= start {
        Seq::empty()
    } else {
        b.subrange(start, b.len() as int)
    }
}

/// What decoding a buffer as TCP yields: the parse succeeds exactly when the
/// buffer holds at least the 20 fixed header bytes; ports, sequence and
/// acknowledgement numbers are the big-endian fields at their fixed offsets,
/// the flag byte is byte 13, and the payload is the window the data offset
/// delimits.
pub open spec fn spec_parse_tcp(b: Seq<u8>) -> Option<TcpSegmentView> {
    if b.len() >= 20 {
        Some(
            TcpSegmentView {
                source_port: be16(b, 0) as u16,
                destination_port: be16(b, 2) as u16,
                sequence: be32(b, 4) as u32,
                acknowledgement: be32(b, 8) as u32,
                flags: b[13],
                payload: spec_tcp_payload(b),
            },
        )
    } else {
        None
    }
}

/// Attempt to decode a buffer as a TCP segment.
///
/// Relies on pnet's `TcpPacket::new` and its getters: `new` returns `Some`
/// exactly when the buffer reaches the minimum packet size of 20 bytes;
/// `get_source`, `get_destination`, `get_sequence` and `get_acknowledgement`
/// read the big-endian fields at offsets 0, 2, 4 and 8; `get_flags` reads
/// byte 13; and `Packet::payload` yields the bytes after `data_offset * 4`
/// header bytes (at least 20), empty when the buffer ends before that.
#[verifier::external_body]
pub(crate) fn parse_tcp(packet: &[u8]) -> (r: Option<TcpSegment>)
    ensures
        (match r {
            Some(s) => Some(s@),
            None => None,
        }) == spec_parse_tcp(packet@),
{
    match pnet::packet::tcp::TcpPacket::new(packet) {
        Some(p) => Some(TcpSegment {
            source_port: p.get_source(),
            destination_port: p.get_destination(),
            sequence: p.get_sequence(),
            acknowledgement: p.get_acknowledgement(),
            flags: p.get_flags(),
            payload: pnet::packet::Packet::payload(&p).to_vec(),
        }),
        None => None,
    }
}

impl TcpSegment {
    /// True when the segment carries application data.
    pub fn has_payload(&self) -> (r: bool)
        ensures
            r == (self@.payload.len() > 0),
    {
        !self.payload.is_empty()
    }

    /// True when the flag byte holds exactly SYN and no other flag.
    pub fn is_syn(&self) -> (r: bool)
        ensures
            r == (self@.flags == TCP_FLAGS_SYN),
    {
        self.flags == TCP_FLAGS_SYN
    }

    /// True when the flag byte holds exactly RST and ACK and no other flag.
    pub fn is_rst_ack(&self) -> (r: bool)
        ensures
            r == (self@.flags == TCP_FLAGS_RST_ACK),
    {
        self.flags == TCP_FLAGS_RST_ACK
    }

    /// An independently owned copy of this segment.
    pub fn create_clone(&self) -> (r: TcpSegment)
        ensures
            r@ == self@,
    {
        TcpSegment {
            source_port: self.source_port,
            destination_port: self.destination_port,
            sequence: self.sequence,
            acknowledgement: self.acknowledgement,
            flags: self.flags,
            payload: crate::wire::clone_bytes(&self.payload),
        }
    }

    /// True when `other` answers this segment: reverse port flow, and an
    /// acknowledgement of exactly the end of this segment's payload.
    pub fn is_answered_by(&self, other: &TcpSegment) -> (r: bool)
        ensures
            r == spec_is_answered_by(self@, other@),
    {
        self.source_port == other.destination_port && self.destination_port == other.source_port
            && (self.sequence as u128) + (self.payload.len() as u128) == (
        other.acknowledgement as u128)
    }
}

/// Decoding a sequence of IPv4 packets as TCP: each packet's payload is
/// parsed, packets that do not parse are silently dropped, and the order of
/// the survivors is kept.
pub open spec fn spec_decode_tcp(packets: Seq<Ipv4PacketView>) -> Seq<TcpSegmentView>
    decreases packets.len(),
{
    if packets.len() == 0 {
        Seq::empty()
    } else {
        let rest = spec_decode_tcp(packets.drop_last());
        match spec_parse_tcp(packets.last().payload) {
            Some(s) => rest.push(s),
            None => rest,
        }
    }
}

/// The TCP decode stage never increases cardinality.
pub proof fn lemma_decode_tcp_len(packets: Seq<Ipv4PacketView>)
    ensures
        spec_decode_tcp(packets).len() <= packets.len(),
    decreases packets.len(),
{
    if packets.len() > 0 {
        lemma_decode_tcp_len(packets.drop_last());
    }
}

/// The segments of `s` that carry application data, in order.
pub open spec fn spec_filter_payload(s: Seq<TcpSegmentView>) -> Seq<TcpSegmentView>
    decreases s.len(),
{
    if s.len() == 0 {
        Seq::empty()
    } else {
        let rest = spec_filter_payload(s.drop_last());
        if s.last().payload.len() > 0 {
            rest.push(s.last())
        } else {
            rest
        }
    }
}

/// An insertion-ordered sequence of decoded TCP segments.
pub struct TcpSegmentCollection {
    segments: Vec<TcpSegment>,
}

impl View for TcpSegmentCollection {
    type V = Seq<TcpSegmentView>;

    closed spec fn view(&self) -> Seq<TcpSegmentView> {
        self.segments.deep_view()
    }
}

impl TcpSegmentCollection {
    /// The empty collection.
    pub fn empty() -> (r: TcpSegmentCollection)
        ensures
            r@ == Seq::<TcpSegmentView>::empty(),
    {
        let r = TcpSegmentCollection { segments: Vec::new() };
        proof {
            assert(r@ =~= Seq::<TcpSegmentView>::empty());
        }
        r
    }

    /// Wrap an ordered sequence of segments.
    pub fn from_vec(segments: Vec<TcpSegment>) -> (r: TcpSegmentCollection)
        ensures
            r@ == segments.deep_view(),
    {
        TcpSegmentCollection { segments }
    }

    pub fn len(&self) -> (n: usize)
        ensures
            n == self@.len(),
    {
        self.segments.len()
    }

    pub fn get(&self, i: usize) -> (s: &TcpSegment)
        requires
            i < self@.len(),
        ensures
            s@ == self@[i as int],
    {
        &self.segments[i]
    }

    /// Append one segment, keeping arrival order.
    pub fn push(&mut self, segment: TcpSegment)
        ensures
            final(self)@ == old(self)@.push(segment@),
    {
        self.segments.push(segment);
        proof {
            assert(self@ =~= old(self)@.push(segment@));
        }
    }

    /// Decode every packet of an IPv4 collection as TCP, silently dropping
    /// packets whose payload does not parse, in order.
    pub fn from(ipv4_packet_collection: &Ipv4PacketCollection) -> (r: TcpSegmentCollection)
        ensures
            r@ == spec_decode_tcp(ipv4_packet_collection@),
    {
        let mut out = TcpSegmentCollection::empty();
        let mut i: usize = 0;
        while i < ipv4_packet_collection.len()
            invariant
                i <= ipv4_packet_collection@.len(),
                out@ == spec_decode_tcp(ipv4_packet_collection@.take(i as int)),
            decreases ipv4_packet_collection@.len() - i,
        {
            let packet = ipv4_packet_collection.get(i);
            match parse_tcp(packet.payload.as_slice()) {
                Some(s) => out.push(s),
                None => (),
            }
            i = i + 1;
            proof {
                assert(ipv4_packet_collection@.take(i as int).drop_last() =~= ipv4_packet_collection@.take(
                    i as int - 1,
                ));
                assert(ipv4_packet_collection@.take(i as int).last() == ipv4_packet_collection@[i as int
                    - 1]);
            }
        }
        proof {
            assert(ipv4_packet_collection@.take(ipv4_packet_collection@.len() as int)
                =~= ipv4_packet_collection@);
        }
        out
    }

    /// Keep only the segments that carry application data, in order, as
    /// independently owned copies. Pure control segments — a bare SYN, an
    /// ACK without data — are dropped.
    pub fn filter_no_payload(&self) -> (r: TcpSegmentCollection)
        ensures
            r@ == spec_filter_payload(self@),
    {
        let mut out = TcpSegmentCollection::empty();
        let mut i: usize = 0;
        while i < self.len()
            invariant
                i <= self@.len(),
                out@ == spec_filter_payload(self@.take(i as int)),
            decreases self@.len() - i,
        {
            let s = self.get(i);
            if s.has_payload() {
                out.push(s.create_clone());
            }
            i = i + 1;
            proof {
                assert(self@.take(i as int).drop_last() =~= self@.take(i as int - 1));
                assert(self@.take(i as int).last() == self@[i as int - 1]);
            }
        }
        proof {
            assert(self@.take(self@.len() as int) =~= self@);
        }
        out
    }
}

/// Container for one matched exchange: the `challenge` segment and the
/// `response` segment that answered it.
pub struct TcpChallengeResponse {
    pub challenge: TcpSegment,
    pub response: TcpSegment,
}

/// The mathematical value of a [`TcpChallengeResponse`].
pub ghost struct TcpChallengeResponseView {
    pub challenge: TcpSegmentView,
    pub response: TcpSegmentView,
}

impl View for TcpChallengeResponse {
    type V = TcpChallengeResponseView;

    open spec fn view(&self) -> TcpChallengeResponseView {
        TcpChallengeResponseView { challenge: self.challenge@, response: self.response@ }
    }
}

impl DeepView for TcpChallengeResponse {
    type V = TcpChallengeResponseView;

    open spec fn deep_view(&self) -> TcpChallengeResponseView {
        self@
    }
}

impl TcpChallengeResponse {
    pub fn new(challenge: TcpSegment, response: TcpSegment) -> (r: TcpChallengeResponse)
        ensures
            r@.challenge == challenge@,
            r@.response == response@,
    {
        TcpChallengeResponse { challenge, response }
    }
}

/// An ordered sequence of matched challenge/response pairs, in discovery
/// order.
pub struct TcpChallengeResponseCollection {
    pairs: Vec<TcpChallengeResponse>,
}

impl View for TcpChallengeResponseCollection {
    type V = Seq<TcpChallengeResponseView>;

    closed spec fn view(&self) -> Seq<TcpChallengeResponseView> {
        self.pairs.deep_view()
    }
}

impl TcpChallengeResponseCollection {
    /// The empty collection.
    pub fn empty() -> (r: TcpChallengeResponseCollection)
        ensures
            r@ == Seq::<TcpChallengeResponseView>::empty(),
    {
        let r = TcpChallengeResponseCollection { pairs: Vec::new() };
        proof {
            assert(r@ =~= Seq::<TcpChallengeResponseView>::empty());
        }
        r
    }

    pub fn len(&self) -> (n: usize)
        ensures
            n == self@.len(),
    {
        self.pairs.len()
    }

    pub fn get(&self, i: usize) -> (p: &TcpChallengeResponse)
        requires
            i < self@.len(),
        ensures
            p@ == self@[i as int],
    {
        &self.pairs[i]
    }

    /// Append one pair, keeping discovery order.
    pub fn push(&mut self, pair: TcpChallengeResponse)
        ensures
            final(self)@ == old(self)@.push(pair@),
    {
        self.pairs.push(pair);
        proof {
            assert(self@ =~= old(self)@.push(pair@));
        }
    }
}

/// The views of a sequence of owned segments.
pub open spec fn seq_views(s: Seq<TcpSegment>) -> Seq<TcpSegmentView> {
    Seq::new(s.len(), |k: int| s[k]@)
}

/// The index of the first segment at position `j` or later, other than
/// position `i`, that answers `pool[i]`; `pool.len()` when there is none.
pub open spec fn spec_find_response(pool: Seq<TcpSegmentView>, i: int, j: int) -> int
    decreases pool.len() - j,
{
    if j < 0 || j >= pool.len() {
        pool.len() as int
    } else if j != i && spec_is_answered_by(pool[i], pool[j]) {
        j
    } else {
        spec_find_response(pool, i, j + 1)
    }
}

/// The pool after one matched exchange leaves it: the higher index is
/// removed first, so that the lower one still points at its segment.
pub open spec fn spec_remove_pair(pool: Seq<TcpSegmentView>, i: int, j: int) -> Seq<
    TcpSegmentView,
> {
    if j > i {
        pool.remove(j).remove(i)
    } else {
        pool.remove(i).remove(j)
    }
}

/// How much of a pool of length `len` a challenge position `i` still has in
/// front of it.
pub open spec fn spec_remaining(len: int, i: int) -> int {
    if len >= i {
        len - i
    } else {
        0
    }
}

/// The greedy correlation of `pool` with the challenge position at `i`: the
/// challenge is paired with the first other segment that answers it, both
/// leave the pool and the position stays; a challenge that nothing answers
/// keeps its place in the pool and the position moves on. Pairs are listed
/// in discovery order; what is never paired stays, in pool order.
pub open spec fn spec_correlate(pool: Seq<TcpSegmentView>, i: int) -> (Seq<
    TcpChallengeResponseView,
>, Seq<TcpSegmentView>)
    decreases pool.len(), spec_remaining(pool.len() as int, i),
    via spec_correlate_decreases
{
    if i < 0 || i >= pool.len() {
        (Seq::empty(), pool)
    } else {
        let j = spec_find_response(pool, i, 0);
        if j == pool.len() {
            spec_correlate(pool, i + 1)
        } else {
            let next = spec_correlate(spec_remove_pair(pool, i, j), i);
            (
                seq![TcpChallengeResponseView { challenge: pool[i], response: pool[j] }]
                    + next.0,
                next.1,
            )
        }
    }
}

#[via_fn]
proof fn spec_correlate_decreases(pool: Seq<TcpSegmentView>, i: int) {
    if 0 <= i < pool.len() {
        let j = spec_find_response(pool, i, 0);
        if j != pool.len() {
            lemma_find_response_props(pool, i, 0);
        }
    }
}

/// The first position other than `i` whose segment answers `pool[i]`;
/// the pool's length when none does.
fn find_response_from(pool: &Vec<TcpSegment>, i: usize) -> (r: usize)
    requires
        i < pool.deep_view().len(),
    ensures
        r == spec_find_response(pool.deep_view(), i as int, 0),
        r <= pool.deep_view().len(),
{
    let ghost pv = pool.deep_view();
    let mut j: usize = 0;
    while j < pool.len()
        invariant
            j <= pv.len(),
            pv == pool.deep_view(),
            i < pv.len(),
            spec_find_response(pv, i as int, 0) == spec_find_response(pv, i as int, j as int),
        decreases pv.len() - j,
    {
        if j != i && pool[i].is_answered_by(&pool[j]) {
            proof {
                assert(spec_find_response(pv, i as int, j as int) == j);
            }
            return j;
        }
        j = j + 1;
        proof {
            assert(spec_find_response(pv, i as int, j as int - 1) == spec_find_response(
                pv,
                i as int,
                j as int,
            ));
        }
    }
    proof {
        assert(spec_find_response(pv, i as int, j as int) == pv.len());
    }
    pool.len()
}

/// A found answering position is a real position, is never the challenge's
/// own, and answers the challenge.
pub proof fn lemma_find_response_props(pool: Seq<TcpSegmentView>, i: int, j: int)
    requires
        0 <= j <= pool.len(),
    ensures
        j <= spec_find_response(pool, i, j) <= pool.len(),
        spec_find_response(pool, i, j) < pool.len() ==> spec_find_response(pool, i, j) != i
            && spec_is_answered_by(pool[i], pool[spec_find_response(pool, i, j)]),
    decreases pool.len() - j,
{
    if j < pool.len() {
        if !(j != i && spec_is_answered_by(pool[i], pool[j])) {
            lemma_find_response_props(pool, i, j + 1);
        }
    }
}

/// Removing one position keeps the views of what stays.
proof fn lemma_seq_views_remove(s: Seq<TcpSegment>, i: int)
    requires
        0 <= i < s.len(),
    ensures
        seq_views(s.remove(i)) == seq_views(s).remove(i),
{
    assert(seq_views(s.remove(i)) =~= seq_views(s).remove(i));
}

impl TcpSegmentCollection {
    /// Couple the challenge/response pairs in this collection of segments.
    ///
    /// A single working pool of owned copies is scanned quadratically: each
    /// challenge in turn is paired with the first other segment of the pool
    /// that answers it, and a formed pair removes both members from the
    /// pool. The matched pairs come back in discovery order, the leftover
    /// segments in their original relative order.
    pub fn find_challenge_response_pairs(&self) -> (r: (
        TcpChallengeResponseCollection,
        TcpSegmentCollection,
    ))
        ensures
            r.0@ == spec_correlate(self@, 0).0,
            r.1@ == spec_correlate(self@, 0).1,
    {
        let mut matched = TcpChallengeResponseCollection::empty();
        let mut pool: Vec<TcpSegment> = Vec::new();
        let mut k: usize = 0;
        while k < self.len()
            invariant
                k <= self@.len(),
                pool.deep_view() == self@.take(k as int),
            decreases self@.len() - k,
        {
            let ghost pool0 = pool.deep_view();
            let ghost ps0 = pool@;
            let item = self.get(k).create_clone();
            let ghost itemv = item@;
            proof {
                assert(itemv == self@[k as int]);
            }
            pool.push(item);
            k = k + 1;
            proof {
                assert(pool0 == self@.take(k as int - 1));
                assert(k as int - 1 <= self@.len());
                assert(self@.take(k as int - 1).len() == k as int - 1);
                assert(pool0.len() == k as int - 1);
                assert(ps0.len() == k as int - 1);
                assert(pool@ == ps0.push(item));
                assert(pool@.len() == ps0.len() + 1);
                assert(pool@[ps0.len() as int] == item);
                assert(pool.deep_view()[ps0.len() as int] == itemv);
                assert(forall|m: int| 0 <= m < ps0.len() ==> pool@[m] == ps0[m]);
                assert(forall|m: int| 0 <= m < ps0.len() ==> pool.deep_view()[m] == pool0[m]);
                assert forall|m: int| 0 <= m < k implies pool.deep_view()[m] == self@.take(
                    k as int,
                )[m] by {
                    assert(self@.take(k as int)[m] == self@[m]);
                    if m < ps0.len() {
                        assert(pool.deep_view()[m] == pool0[m]);
                        assert(pool0[m] == self@.take(k as int - 1)[m]);
                        assert(self@.take(k as int - 1)[m] == self@[m]);
                    } else {
                        assert(m == ps0.len());
                        assert(pool.deep_view()[m] == itemv);
                    }
                }
                assert(pool.deep_view() =~= self@.take(k as int));
            }
        }
        proof {
            assert(self@.take(self@.len() as int) =~= self@);
        }
        let mut i: usize = 0;
        while i < pool.len()
            invariant
                spec_correlate(self@, 0).0 == matched@ + spec_correlate(
                    pool.deep_view(),
                    i as int,
                ).0,
                spec_correlate(self@, 0).1 == spec_correlate(pool.deep_view(), i as int).1,
            decreases pool.deep_view().len() + spec_remaining(
                pool.deep_view().len() as int,
                i as int,
            ),
        {
            let ghost pv = pool.deep_view();
            let ghost ps = pool@;
            let j = find_response_from(&pool, i);
            proof {
                lemma_find_response_props(pv, i as int, 0);
            }
            if j < pool.len() {
                let challenge: TcpSegment;
                let response: TcpSegment;
                if j > i {
                    response = pool.remove(j);
                    challenge = pool.remove(i);
                    proof {
                        lemma_seq_views_remove(ps, j as int);
                        lemma_seq_views_remove(ps.remove(j as int), i as int);
                    }
                } else {
                    challenge = pool.remove(i);
                    response = pool.remove(j);
                    proof {
                        lemma_seq_views_remove(ps, i as int);
                        lemma_seq_views_remove(ps.remove(i as int), j as int);
                    }
                }
                proof {
                    assert(seq_views(ps) =~= pv);
                    assert(pool.deep_view() =~= seq_views(pool@));
                    assert(pool.deep_view() == spec_remove_pair(pv, i as int, j as int));
                }
                let ghost m0 = matched@;
                matched.push(TcpChallengeResponse::new(challenge, response));
                proof {
                    let pair = TcpChallengeResponseView {
                        challenge: pv[i as int],
                        response: pv[j as int],
                    };
                    let next0 = spec_correlate(pool.deep_view(), i as int).0;
                    assert(spec_correlate(pv, i as int).0 == seq![pair] + next0);
                    assert(m0 + (seq![pair] + next0) =~= matched@ + next0);
                }
            } else {
                proof {
                    assert(spec_correlate(pv, i as int) == spec_correlate(pv, i as int + 1));
                }
                i = i + 1;
            }
        }
        proof {
            assert(matched@ + spec_correlate(pool.deep_view(), i as int).0 =~= matched@);
        }
        (matched, TcpSegmentCollection::from_vec(pool))
    }
}

/// Every segment that the payload filter keeps carries application data,
/// and the filter never grows its input.
pub proof fn lemma_filter_payload_sound(s: Seq<TcpSegmentView>)
    ensures
        forall|k: int|
            0 <= k < spec_filter_payload(s).len() ==> (#[trigger] spec_filter_payload(s)[k]).payload.len()
                > 0,
        spec_filter_payload(s).len() <= s.len(),
    decreases s.len(),
{
    if s.len() > 0 {
        lemma_filter_payload_sound(s.drop_last());
    }
}

/// On a sequence whose every segment already carries application data, the
/// payload filter changes nothing.
pub proof fn lemma_filter_payload_fixed(s: Seq<TcpSegmentView>)
    requires
        forall|k: int| 0 <= k < s.len() ==> (#[trigger] s[k]).payload.len() > 0,
    ensures
        spec_filter_payload(s) == s,
    decreases s.len(),
{
    if s.len() > 0 {
        assert(forall|k: int| 0 <= k < s.drop_last().len() ==> s.drop_last()[k] == s[k]);
        lemma_filter_payload_fixed(s.drop_last());
        assert(spec_filter_payload(s) =~= s);
    } else {
        assert(spec_filter_payload(s) =~= s);
    }
}

/// Applying the payload filter twice equals applying it once.
pub proof fn lemma_filter_payload_idempotent(s: Seq<TcpSegmentView>)
    ensures
        spec_filter_payload(spec_filter_payload(s)) == spec_filter_payload(s),
{
    lemma_filter_payload_sound(s);
    lemma_filter_payload_fixed(spec_filter_payload(s));
}

/// All segments that the matched pairs of `m` hold, with multiplicity.
pub open spec fn spec_pairs_segments(m: Seq<TcpChallengeResponseView>) -> Multiset<TcpSegmentView>
    decreases m.len(),
{
    if m.len() == 0 {
        Multiset::empty()
    } else {
        spec_pairs_segments(m.drop_first()).insert(m.first().challenge).insert(m.first().response)
    }
}

/// Partition law of the correlator: counting each matched pair as two
/// segments, the two outputs hold together exactly as many segments as the
/// pool, and, taken with multiplicity, exactly the pool's segments.
pub proof fn lemma_correlate_partition(pool: Seq<TcpSegmentView>, i: int)
    ensures
        2 * spec_correlate(pool, i).0.len() + spec_correlate(pool, i).1.len() == pool.len(),
        spec_pairs_segments(spec_correlate(pool, i).0).add(
            spec_correlate(pool, i).1.to_multiset(),
        ) == pool.to_multiset(),
    decreases pool.len(), spec_remaining(pool.len() as int, i),
{
    broadcast use vstd::seq_lib::group_to_multiset_ensures;
    broadcast use vstd::multiset::group_multiset_axioms;

    if i < 0 || i >= pool.len() {
        assert(spec_pairs_segments(spec_correlate(pool, i).0).add(pool.to_multiset())
            =~= pool.to_multiset());
    } else {
        let j = spec_find_response(pool, i, 0);
        if j == pool.len() {
            lemma_correlate_partition(pool, i + 1);
        } else {
            lemma_find_response_props(pool, i, 0);
            let pool2 = spec_remove_pair(pool, i, j);
            lemma_correlate_partition(pool2, i);
            let pair = TcpChallengeResponseView { challenge: pool[i], response: pool[j] };
            let next = spec_correlate(pool2, i);
            let m = spec_correlate(pool, i).0;
            assert(m == seq![pair] + next.0);
            assert(m.drop_first() =~= next.0);
            assert(m.len() == 1 + next.0.len());
            assert(spec_pairs_segments(m) == spec_pairs_segments(next.0).insert(
                pool[i],
            ).insert(pool[j]));
            if j > i {
                assert(pool2 == pool.remove(j).remove(i));
                assert(pool.remove(j)[i] == pool[i]);
                assert(pool.remove(j).to_multiset() == pool.to_multiset().remove(pool[j]));
                assert(pool2.to_multiset() == pool.remove(j).to_multiset().remove(
                    pool.remove(j)[i],
                ));
                assert(pool.contains(pool[j]));
                assert(pool.remove(j).contains(pool.remove(j)[i]));
                assert(pool.to_multiset().count(pool[j]) >= 1);
                assert(pool.to_multiset().remove(pool[j]).count(pool[i]) >= 1);
                assert(pool2.to_multiset().insert(pool[i]).insert(pool[j]) =~= pool.to_multiset());
            } else {
                assert(pool2 == pool.remove(i).remove(j));
                assert(pool.remove(i)[j] == pool[j]);
                assert(pool.remove(i).to_multiset() == pool.to_multiset().remove(pool[i]));
                assert(pool2.to_multiset() == pool.remove(i).to_multiset().remove(
                    pool.remove(i)[j],
                ));
                assert(pool.contains(pool[i]));
                assert(pool.remove(i).contains(pool.remove(i)[j]));
                assert(pool.to_multiset().count(pool[i]) >= 1);
                assert(pool.to_multiset().remove(pool[i]).count(pool[j]) >= 1);
                assert(pool2.to_multiset().insert(pool[i]).insert(pool[j]) =~= pool.to_multiset());
            }
            assert(spec_pairs_segments(m).add(next.1.to_multiset())
                =~= spec_pairs_segments(next.0).add(next.1.to_multiset()).insert(
                pool[i],
            ).insert(pool[j]));
            assert(spec_pairs_segments(m).add(next.1.to_multiset()) =~= pool.to_multiset());
        }
    }
}

/// `a` is a subsequence of `b`: `a`'s segments appear in `b`, in `a`'s order.
pub open spec fn spec_is_subsequence(a: Seq<TcpSegmentView>, b: Seq<TcpSegmentView>) -> bool
    decreases b.len(),
{
    if a.len() == 0 {
        true
    } else if b.len() == 0 {
        false
    } else if a.first() == b.first() {
        spec_is_subsequence(a.drop_first(), b.drop_first())
    } else {
        spec_is_subsequence(a, b.drop_first())
    }
}

proof fn lemma_subseq_refl(a: Seq<TcpSegmentView>)
    ensures
        spec_is_subsequence(a, a),
    decreases a.len(),
{
    if a.len() > 0 {
        lemma_subseq_refl(a.drop_first());
    }
}

/// Being a subsequence of `b`'s tail is being one of `b`.
proof fn lemma_subseq_widen(a: Seq<TcpSegmentView>, b: Seq<TcpSegmentView>)
    requires
        b.len() > 0,
        spec_is_subsequence(a, b.drop_first()),
    ensures
        spec_is_subsequence(a, b),
    decreases b.len(), 0int,
{
    if a.len() > 0 && a.first() == b.first() {
        lemma_subseq_tail(a, b.drop_first());
    }
}

/// A subsequence stays one when its own first segment is dropped.
proof fn lemma_subseq_tail(a: Seq<TcpSegmentView>, c: Seq<TcpSegmentView>)
    requires
        a.len() > 0,
        spec_is_subsequence(a, c),
    ensures
        spec_is_subsequence(a.drop_first(), c),
    decreases c.len(), 1int,
{
    if a.first() == c.first() {
        lemma_subseq_widen(a.drop_first(), c);
    } else {
        lemma_subseq_tail(a, c.drop_first());
        lemma_subseq_widen(a.drop_first(), c);
    }
}

/// Removing one position of `s` leaves a subsequence of `s`.
proof fn lemma_subseq_remove(s: Seq<TcpSegmentView>, i: int)
    requires
        0 <= i < s.len(),
    ensures
        spec_is_subsequence(s.remove(i), s),
    decreases i,
{
    if i == 0 {
        assert(s.remove(0) =~= s.drop_first());
        lemma_subseq_refl(s.drop_first());
        lemma_subseq_widen(s.drop_first(), s);
    } else {
        assert(s.remove(i).first() == s.first());
        assert(s.remove(i).drop_first() =~= s.drop_first().remove(i - 1));
        lemma_subseq_remove(s.drop_first(), i - 1);
    }
}

/// A subsequence of a subsequence of `c` is a subsequence of `c`.
proof fn lemma_subseq_trans(a: Seq<TcpSegmentView>, b: Seq<TcpSegmentView>, c: Seq<TcpSegmentView>)
    requires
        spec_is_subsequence(a, b),
        spec_is_subsequence(b, c),
    ensures
        spec_is_subsequence(a, c),
    decreases b.len() + c.len(),
{
    if a.len() > 0 {
        if b.first() == c.first() {
            if a.first() == b.first() {
                lemma_subseq_trans(a.drop_first(), b.drop_first(), c.drop_first());
            } else {
                lemma_subseq_trans(a, b.drop_first(), c.drop_first());
                lemma_subseq_widen(a, c);
            }
        } else {
            lemma_subseq_trans(a, b, c.drop_first());
            lemma_subseq_widen(a, c);
        }
    }
}

/// The unmatched output keeps the pool's order: it is the pool minus the
/// removed exchanges, a subsequence of the input.
pub proof fn lemma_correlate_unmatched_order(pool: Seq<TcpSegmentView>, i: int)
    ensures
        spec_is_subsequence(spec_correlate(pool, i).1, pool),
    decreases pool.len(), spec_remaining(pool.len() as int, i),
{
    if i < 0 || i >= pool.len() {
        lemma_subseq_refl(pool);
    } else {
        let j = spec_find_response(pool, i, 0);
        if j == pool.len() {
            lemma_correlate_unmatched_order(pool, i + 1);
        } else {
            lemma_find_response_props(pool, i, 0);
            let pool2 = spec_remove_pair(pool, i, j);
            lemma_correlate_unmatched_order(pool2, i);
            let hi = if j > i { j } else { i };
            let lo = if j > i { i } else { j };
            lemma_subseq_remove(pool, hi);
            lemma_subseq_remove(pool.remove(hi), lo);
            lemma_subseq_trans(pool2, pool.remove(hi), pool);
            lemma_subseq_trans(spec_correlate(pool, i).1, pool2, pool);
        }
    }
}

/// On a pool where no segment answers any other, the correlator forms no
/// pair and leaves every segment unmatched, in its place.
pub proof fn lemma_correlate_nothing_answers(pool: Seq<TcpSegmentView>, i: int)
    requires
        0 <= i,
        forall|a: int, b: int|
            0 <= a < pool.len() && 0 <= b < pool.len() && a != b ==> !spec_is_answered_by(
                #[trigger] pool[a],
                #[trigger] pool[b],
            ),
    ensures
        spec_correlate(pool, i).0 == Seq::<TcpChallengeResponseView>::empty(),
        spec_correlate(pool, i).1 == pool,
    decreases pool.len() - i,
{
    if i < pool.len() {
        let j = spec_find_response(pool, i, 0);
        lemma_find_response_props(pool, i, 0);
        assert(j == pool.len());
        lemma_correlate_nothing_answers(pool, i + 1);
    }
}

/// Every matched pair that the correlator forms really is an exchange: the
/// response answers the challenge.
pub proof fn lemma_correlate_pairs_answered(pool: Seq<TcpSegmentView>, i: int)
    ensures
        forall|k: int|
            0 <= k < spec_correlate(pool, i).0.len() ==> spec_is_answered_by(
                (#[trigger] spec_correlate(pool, i).0[k]).challenge,
                spec_correlate(pool, i).0[k].response,
            ),
    decreases pool.len(), spec_remaining(pool.len() as int, i),
{
    if 0 <= i < pool.len() {
        let j = spec_find_response(pool, i, 0);
        if j == pool.len() {
            lemma_correlate_pairs_answered(pool, i + 1);
            assert(spec_correlate(pool, i) == spec_correlate(pool, i + 1));
        } else {
            lemma_find_response_props(pool, i, 0);
            let pool2 = spec_remove_pair(pool, i, j);
            lemma_correlate_pairs_answered(pool2, i);
            let pair = TcpChallengeResponseView { challenge: pool[i], response: pool[j] };
            let m = spec_correlate(pool, i).0;
            assert(m == seq![pair] + spec_correlate(pool2, i).0);
            assert(m[0] == pair);
            assert(forall|k: int|
                1 <= k < m.len() ==> m[k] == spec_correlate(pool2, i).0[k - 1]);
            assert forall|k: int| 0 <= k < spec_correlate(pool, i).0.len() implies spec_is_answered_by(
                (#[trigger] spec_correlate(pool, i).0[k]).challenge,
                spec_correlate(pool, i).0[k].response,
            ) by {
                if k == 0 {
                    assert(m[k] == pair);
                } else {
                    assert(m[k] == spec_correlate(pool2, i).0[k - 1]);
                    assert(spec_is_answered_by(
                        spec_correlate(pool2, i).0[k - 1].challenge,
                        spec_correlate(pool2, i).0[k - 1].response,
                    ));
                }
            }
        }
    }
}

} // verus!
