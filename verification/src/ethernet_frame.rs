use vstd::prelude::*;

verus! {

/// A captured link-layer frame together with the payload that its header
/// delimits. `packet` holds the complete frame bytes and `payload` the bytes
/// after the 14-byte header; both are fully owned copies, independent of the
/// capture buffer they were decoded from.
pub struct EthernetFrame {
    pub packet: Vec<u8>,
    pub payload: Vec<u8>,
}

/// The mathematical value of an [`EthernetFrame`].
pub ghost struct EthernetFrameView {
    pub packet: Seq<u8>,
    pub payload: Seq<u8>,
}

impl View for EthernetFrame {
    type V = EthernetFrameView;

    open spec fn view(&self) -> EthernetFrameView {
        EthernetFrameView { packet: self.packet@, payload: self.payload@ }
    }
}

/// What decoding a raw frame as Ethernet yields: the header parse succeeds
/// exactly when the buffer holds at least the 14-byte header, and the payload
/// is everything after it.
pub open spec fn spec_parse_ethernet(b: Seq<u8>) -> Option<EthernetFrameView> {
    if b.len() >= 14 {
        Some(EthernetFrameView { packet: b, payload: b.skip(14) })
    } else {
        None
    }
}

impl EthernetFrame {
    /// Attempt to decode a raw frame as an Ethernet frame.
    ///
    /// Relies on pnet's `EthernetPacket::new` and `Packet::payload`: `new`
    /// returns `Some` exactly when the buffer reaches the minimum packet size
    /// of 14 bytes, and the payload of such a packet is the bytes after the
    /// fixed 14-byte header.
    #[verifier::external_body]
    pub fn new(packet: &[u8]) -> (r: Option<EthernetFrame>)
        ensures
            (match r {
                Some(f) => Some(f@),
                None => None,
            }) == spec_parse_ethernet(packet@),
    {
        match pnet::packet::ethernet::EthernetPacket::new(packet) {
            Some(p) => Some(EthernetFrame {
                packet: packet.to_vec(),
                payload: pnet::packet::Packet::payload(&p).to_vec(),
            }),
            None => None,
        }
    }

    /// An independently owned copy of this frame.
    pub fn create_clone(&self) -> (r: EthernetFrame)
        ensures
            r@ == self@,
    {
        EthernetFrame {
            packet: crate::wire::clone_bytes(&self.packet),
            payload: crate::wire::clone_bytes(&self.payload),
        }
    }
}

/// Decoding a sequence of raw captured frames as Ethernet: each buffer is
/// parsed, buffers that do not parse are silently dropped, and the order of
/// the survivors is kept.
pub open spec fn spec_decode_ethernet(raws: Seq<Seq<u8>>) -> Seq<EthernetFrameView>
    decreases raws.len(),
{
    if raws.len() == 0 {
        Seq::empty()
    } else {
        let rest = spec_decode_ethernet(raws.drop_last());
        match spec_parse_ethernet(raws.last()) {
            Some(f) => rest.push(f),
            None => rest,
        }
    }
}

/// The Ethernet decode stage never increases cardinality.
pub proof fn lemma_decode_ethernet_len(raws: Seq<Seq<u8>>)
    ensures
        spec_decode_ethernet(raws).len() <= raws.len(),
    decreases raws.len(),
{
    if raws.len() > 0 {
        lemma_decode_ethernet_len(raws.drop_last());
    }
}

/// An insertion-ordered sequence of decoded Ethernet frames.
pub struct EthernetFrameCollection {
    frames: Vec<EthernetFrame>,
}

impl View for EthernetFrameCollection {
    type V = Seq<EthernetFrameView>;

    closed spec fn view(&self) -> Seq<EthernetFrameView> {
        Seq::new(self.frames@.len(), |i: int| self.frames@[i]@)
    }
}

impl EthernetFrameCollection {
    /// The empty collection.
    pub fn empty() -> (r: EthernetFrameCollection)
        ensures
            r@ == Seq::<EthernetFrameView>::empty(),
    {
        let r = EthernetFrameCollection { frames: Vec::new() };
        proof {
            assert(r@ =~= Seq::<EthernetFrameView>::empty());
        }
        r
    }

    /// Wrap an ordered sequence of frames.
    pub fn from_vec(frames: Vec<EthernetFrame>) -> (r: EthernetFrameCollection)
        ensures
            r@ == Seq::new(frames@.len(), |i: int| frames@[i]@),
    {
        EthernetFrameCollection { frames }
    }

    pub fn len(&self) -> (n: usize)
        ensures
            n == self@.len(),
    {
        self.frames.len()
    }

    pub fn get(&self, i: usize) -> (f: &EthernetFrame)
        requires
            i < self@.len(),
        ensures
            f@ == self@[i as int],
    {
        &self.frames[i]
    }

    /// Append one frame, keeping arrival order.
    pub fn push(&mut self, frame: EthernetFrame)
        ensures
            final(self)@ == old(self)@.push(frame@),
    {
        self.frames.push(frame);
        proof {
            assert(self@ =~= old(self)@.push(frame@));
        }
    }

    /// Decode every raw captured frame as Ethernet, silently dropping
    /// buffers that do not parse, in order.
    pub fn from_raw(raws: &Vec<Vec<u8>>) -> (r: EthernetFrameCollection)
        ensures
            r@ == spec_decode_ethernet(raws.deep_view()),
    {
        let mut out = EthernetFrameCollection::empty();
        let mut i: usize = 0;
        while i < raws.len()
            invariant
                i <= raws.deep_view().len(),
                out@ == spec_decode_ethernet(raws.deep_view().take(i as int)),
            decreases raws.deep_view().len() - i,
        {
            let buf = &raws[i];
            proof {
                assert(buf@ == raws.deep_view()[i as int]);
            }
            match EthernetFrame::new(buf.as_slice()) {
                Some(f) => out.push(f),
                None => (),
            }
            i = i + 1;
            proof {
                assert(raws.deep_view().take(i as int).drop_last() =~= raws.deep_view().take(
                    i as int - 1,
                ));
                assert(raws.deep_view().take(i as int).last() == raws.deep_view()[i as int - 1]);
            }
        }
        proof {
            assert(raws.deep_view().take(raws.deep_view().len() as int) =~= raws.deep_view());
        }
        out
    }
}

} // verus!
