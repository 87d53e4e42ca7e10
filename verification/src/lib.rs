//! A packet-capture session manager: a typestate lifecycle around a raw-frame
//! buffer, a lossy layered decode pipeline (link layer, then IPv4, then TCP),
//! and a greedy correlator that couples TCP challenge/response exchanges.
//!
//! The session lifecycle is strictly linear: `Uninitialized`, `Initialized`,
//! `Started`, `Completed` — and each state is a distinct type, so an operation
//! invoked on the wrong state fails to compile. The capture channel itself is
//! an outside capability: the caller owns the receive loop and hands every
//! arriving frame to [`PacketCapture::deliver_frame`].

pub mod ethernet_frame;
pub mod ipv4_packet;
pub mod tcp_packet;
pub mod wire;

pub use ethernet_frame::{EthernetFrame, EthernetFrameCollection};
pub use ipv4_packet::{Ipv4Packet, Ipv4PacketCollection};
pub use tcp_packet::{TcpChallengeResponse, TcpChallengeResponseCollection, TcpSegment,
    TcpSegmentCollection};

use core::marker::PhantomData;
use vstd::prelude::*;

use ethernet_frame::spec_decode_ethernet;
use ipv4_packet::spec_decode_ipv4;
use tcp_packet::spec_decode_tcp;

verus! {

/// What can go wrong around a capture session.
#[derive(Clone, Copy, Debug, PartialEq, Eq, Structural)]
pub enum CaptureError {
    /// The named interface is absent.
    InterfaceNotFound,
    /// No interface satisfies the default-selection predicate.
    NoDefaultInterface,
    /// The capture channel could not be opened.
    CaptureChannelUnavailable,
    /// A receive call failed after capture started.
    CaptureReadFailure,
}

/// A network interface as the session logic reads it: its name, its up and
/// loopback flags, and how many addresses are assigned to it. The caller
/// enumerates the machine's interfaces and hands them over in this form.
pub struct InterfaceInfo {
    pub name: String,
    pub is_up: bool,
    pub is_loopback: bool,
    pub address_count: usize,
}

/// The mathematical value of an [`InterfaceInfo`].
pub ghost struct InterfaceInfoView {
    pub name: Seq<char>,
    pub is_up: bool,
    pub is_loopback: bool,
    pub address_count: usize,
}

impl View for InterfaceInfo {
    type V = InterfaceInfoView;

    open spec fn view(&self) -> InterfaceInfoView {
        InterfaceInfoView {
            name: self.name@,
            is_up: self.is_up,
            is_loopback: self.is_loopback,
            address_count: self.address_count,
        }
    }
}

impl DeepView for InterfaceInfo {
    type V = InterfaceInfoView;

    open spec fn deep_view(&self) -> InterfaceInfoView {
        self@
    }
}

/// An interface is a default candidate when it is up, not loopback, and has
/// at least one assigned address.
pub open spec fn spec_is_default_candidate(i: InterfaceInfoView) -> bool {
    i.is_up && !i.is_loopback && i.address_count > 0
}

/// The position of the first interface bearing `name`; the sequence's length
/// when none does.
pub open spec fn spec_first_named(ifaces: Seq<InterfaceInfoView>, name: Seq<char>) -> int
    decreases ifaces.len(),
{
    if ifaces.len() == 0 {
        0
    } else if ifaces.first().name == name {
        0
    } else {
        1 + spec_first_named(ifaces.drop_first(), name)
    }
}

/// The position of the first default candidate; the sequence's length when
/// none is one.
pub open spec fn spec_first_default(ifaces: Seq<InterfaceInfoView>) -> int
    decreases ifaces.len(),
{
    if ifaces.len() == 0 {
        0
    } else if spec_is_default_candidate(ifaces.first()) {
        0
    } else {
        1 + spec_first_default(ifaces.drop_first())
    }
}

/// `spec_first_named` really is the first position that bears the name.
pub proof fn lemma_first_named_is_first(ifaces: Seq<InterfaceInfoView>, name: Seq<char>, k: int)
    requires
        0 <= k <= ifaces.len(),
        forall|m: int| 0 <= m < k ==> (#[trigger] ifaces[m]).name != name,
        k < ifaces.len() ==> ifaces[k].name == name,
    ensures
        spec_first_named(ifaces, name) == k,
    decreases ifaces.len(),
{
    if ifaces.len() > 0 {
        if k == 0 {
        } else {
            assert(ifaces[0].name != name);
            assert(forall|m: int|
                0 <= m < k - 1 ==> (#[trigger] ifaces.drop_first()[m]).name != name);
            if k - 1 < ifaces.drop_first().len() {
                assert(ifaces.drop_first()[k - 1] == ifaces[k]);
            }
            lemma_first_named_is_first(ifaces.drop_first(), name, k - 1);
        }
    }
}

/// `spec_first_default` really is the first default candidate's position.
pub proof fn lemma_first_default_is_first(ifaces: Seq<InterfaceInfoView>, k: int)
    requires
        0 <= k <= ifaces.len(),
        forall|m: int| 0 <= m < k ==> !spec_is_default_candidate(#[trigger] ifaces[m]),
        k < ifaces.len() ==> spec_is_default_candidate(ifaces[k]),
    ensures
        spec_first_default(ifaces) == k,
    decreases ifaces.len(),
{
    if ifaces.len() > 0 {
        if k == 0 {
        } else {
            assert(!spec_is_default_candidate(ifaces[0]));
            assert(forall|m: int|
                0 <= m < k - 1 ==> !spec_is_default_candidate(#[trigger] ifaces.drop_first()[m]));
            if k - 1 < ifaces.drop_first().len() {
                assert(ifaces.drop_first()[k - 1] == ifaces[k]);
            }
            lemma_first_default_is_first(ifaces.drop_first(), k - 1);
        }
    }
}

/// An owned copy of an interface description.
pub fn clone_interface(i: &InterfaceInfo) -> (r: InterfaceInfo)
    ensures
        r@ == i@,
{
    InterfaceInfo {
        name: i.name.clone(),
        is_up: i.is_up,
        is_loopback: i.is_loopback,
        address_count: i.address_count,
    }
}

/// Marker for PacketCapture: no interface bound yet.
pub struct Uninitialized;

/// Marker for PacketCapture: an interface is bound, capture not started.
pub struct Initialized;

/// Marker for PacketCapture: the capture loop is running.
pub struct Started;

/// Marker for PacketCapture: the capture is over and the results are frozen.
pub struct Completed;

/// A capture session. The `State` marker makes the lifecycle a typestate:
/// each operation exists only on the state it belongs to, so calling it on
/// any other state fails to compile, and the lifecycle admits no cycle.
///
/// The session owns the raw-frame buffer. The capture loop itself — opening
/// a channel on the bound interface, blocking on the next frame — is outside
/// work that the caller drives, handing each arriving frame to
/// [`PacketCapture::deliver_frame`] until it observes
/// [`stop_signal`](PacketCapture::stop_signal) set.
pub struct PacketCapture<State> {
    /// The interface this session is bound to.
    pub interface: InterfaceInfo,
    /// The raw-frame buffer, in arrival order.
    pub packets: Vec<Vec<u8>>,
    /// The snapshot taken when the capture was stopped; empty before that.
    pub results: Vec<Vec<u8>>,
    /// True when frames are handed back to the caller instead of buffered.
    pub live: bool,
    /// True once the caller has asked the capture loop to stop. A frame
    /// already in flight when the flag goes up may still be delivered, and
    /// is then not part of the results snapshot: a documented, benign race
    /// of a best-effort capture tool.
    pub stop_signal: bool,
    /// The first failure the capture loop reported, surfaced to the caller
    /// once the session completes.
    pub failure: Option<CaptureError>,
    pub state: PhantomData<State>,
}

impl PacketCapture<Uninitialized> {
    /// Bind the first interface bearing `interface_name`, out of the
    /// enumerated `interfaces`; `InterfaceNotFound` when none bears it.
    pub fn new_from_interface(interfaces: &Vec<InterfaceInfo>, interface_name: &str) -> (r: Result<
        PacketCapture<Initialized>,
        CaptureError,
    >)
        ensures
            r is Ok <==> spec_first_named(interfaces.deep_view(), interface_name@)
                < interfaces.deep_view().len(),
            r matches Ok(pc) ==> pc.interface@ == interfaces.deep_view()[spec_first_named(
                interfaces.deep_view(),
                interface_name@,
            )],
            r matches Ok(pc) ==> pc.packets.deep_view() == Seq::<Seq<u8>>::empty()
                && pc.results.deep_view() == Seq::<Seq<u8>>::empty() && !pc.live && !pc.stop_signal
                && pc.failure is None,
            r matches Err(e) ==> e == CaptureError::InterfaceNotFound,
    {
        let ghost ifv = interfaces.deep_view();
        let target: String = interface_name.to_owned();
        let n = interfaces.len();
        let mut k: usize = 0;
        while k < n
            invariant
                k <= n,
                n == ifv.len(),
                ifv == interfaces.deep_view(),
                target@ == interface_name@,
                forall|m: int| 0 <= m < k ==> (#[trigger] ifv[m]).name != interface_name@,
            decreases n - k,
        {
            let matches_name = interfaces[k].name == target;
            if matches_name {
                proof {
                    lemma_first_named_is_first(ifv, interface_name@, k as int);
                }
                let iface = clone_interface(&interfaces[k]);
                let pc = PacketCapture {
                    interface: iface,
                    packets: Vec::new(),
                    results: Vec::new(),
                    live: false,
                    stop_signal: false,
                    failure: None,
                    state: PhantomData,
                };
                proof {
                    assert(pc.packets.deep_view() =~= Seq::<Seq<u8>>::empty());
                    assert(pc.results.deep_view() =~= Seq::<Seq<u8>>::empty());
                }
                return Ok(pc);
            }
            k = k + 1;
        }
        proof {
            lemma_first_named_is_first(ifv, interface_name@, n as int);
        }
        Err(CaptureError::InterfaceNotFound)
    }

    /// Bind the default interface: the first of the enumerated `interfaces`
    /// that is up, not loopback, and has at least one assigned address;
    /// `NoDefaultInterface` when none qualifies.
    pub fn new_with_default(interfaces: &Vec<InterfaceInfo>) -> (r: Result<
        PacketCapture<Initialized>,
        CaptureError,
    >)
        ensures
            r is Ok <==> spec_first_default(interfaces.deep_view()) < interfaces.deep_view().len(),
            r matches Ok(pc) ==> pc.interface@ == interfaces.deep_view()[spec_first_default(
                interfaces.deep_view(),
            )],
            r matches Ok(pc) ==> pc.packets.deep_view() == Seq::<Seq<u8>>::empty()
                && pc.results.deep_view() == Seq::<Seq<u8>>::empty() && !pc.live && !pc.stop_signal
                && pc.failure is None,
            r matches Err(e) ==> e == CaptureError::NoDefaultInterface,
    {
        let ghost ifv = interfaces.deep_view();
        let n = interfaces.len();
        let mut k: usize = 0;
        while k < n
            invariant
                k <= n,
                n == ifv.len(),
                ifv == interfaces.deep_view(),
                forall|m: int| 0 <= m < k ==> !spec_is_default_candidate(#[trigger] ifv[m]),
            decreases n - k,
        {
            let is_candidate = interfaces[k].is_up && !interfaces[k].is_loopback
                && interfaces[k].address_count > 0;
            if is_candidate {
                proof {
                    lemma_first_default_is_first(ifv, k as int);
                }
                let iface = clone_interface(&interfaces[k]);
                let pc = PacketCapture {
                    interface: iface,
                    packets: Vec::new(),
                    results: Vec::new(),
                    live: false,
                    stop_signal: false,
                    failure: None,
                    state: PhantomData,
                };
                proof {
                    assert(pc.packets.deep_view() =~= Seq::<Seq<u8>>::empty());
                    assert(pc.results.deep_view() =~= Seq::<Seq<u8>>::empty());
                }
                return Ok(pc);
            }
            k = k + 1;
        }
        proof {
            lemma_first_default_is_first(ifv, n as int);
        }
        Err(CaptureError::NoDefaultInterface)
    }
}

impl PacketCapture<Initialized> {
    /// Enter the started state, buffering every delivered frame.
    ///
    /// The caller then runs the capture loop: open a channel on the bound
    /// interface (reporting a failure through
    /// [`PacketCapture::note_channel_unavailable`]), and until
    /// [`stop_signal`](PacketCapture::stop_signal) is observed, receive the
    /// next frame and hand it to [`PacketCapture::deliver_frame`], reporting
    /// a failed receive through [`PacketCapture::note_read_failure`] and
    /// stopping on it.
    pub fn start_capture(self) -> (r: PacketCapture<Started>)
        ensures
            r.interface@ == self.interface@,
            r.packets.deep_view() == self.packets.deep_view(),
            r.results.deep_view() == self.results.deep_view(),
            !r.live,
            r.stop_signal == self.stop_signal,
            r.failure == self.failure,
    {
        PacketCapture {
            interface: self.interface,
            packets: self.packets,
            results: self.results,
            live: false,
            stop_signal: self.stop_signal,
            failure: self.failure,
            state: PhantomData,
        }
    }

    /// Enter the started state in live mode: every delivered frame is handed
    /// straight back, for the caller's callback, and nothing is buffered.
    ///
    /// The caller runs the same capture loop as for
    /// [`PacketCapture::start_capture`], passing what
    /// [`PacketCapture::deliver_frame`] returns to its callback. A slow
    /// callback directly throttles the capture.
    pub fn start_live_process(self) -> (r: PacketCapture<Started>)
        ensures
            r.interface@ == self.interface@,
            r.packets.deep_view() == self.packets.deep_view(),
            r.results.deep_view() == self.results.deep_view(),
            r.live,
            r.stop_signal == self.stop_signal,
            r.failure == self.failure,
    {
        PacketCapture {
            interface: self.interface,
            packets: self.packets,
            results: self.results,
            live: true,
            stop_signal: self.stop_signal,
            failure: self.failure,
            state: PhantomData,
        }
    }
}

impl PacketCapture<Started> {
    /// One step of the capture loop: a raw frame has arrived. In buffered
    /// mode it is appended to the buffer and nothing comes back; in live
    /// mode the buffer stays as it is and the frame comes back, for the
    /// caller's callback.
    pub fn deliver_frame(&mut self, frame: Vec<u8>) -> (out: Option<Vec<u8>>)
        ensures
            !old(self).live ==> final(self).packets.deep_view() == old(
                self,
            ).packets.deep_view().push(frame@) && out is None,
            old(self).live ==> final(self).packets.deep_view() == old(self).packets.deep_view()
                && out == Some(frame),
            final(self).interface@ == old(self).interface@,
            final(self).results.deep_view() == old(self).results.deep_view(),
            final(self).live == old(self).live,
            final(self).stop_signal == old(self).stop_signal,
            final(self).failure == old(self).failure,
    {
        if self.live {
            Some(frame)
        } else {
            let ghost p0 = self.packets.deep_view();
            let ghost ps0 = self.packets@;
            let ghost framev = frame@;
            self.packets.push(frame);
            proof {
                assert(self.packets.deep_view()[ps0.len() as int] == framev);
                assert(forall|m: int| 0 <= m < ps0.len() ==> self.packets.deep_view()[m] == p0[m]);
                assert(self.packets.deep_view() =~= p0.push(framev));
            }
            None
        }
    }

    /// The capture channel could not be opened: record the failure, to be
    /// surfaced once the session completes. The first recorded failure is
    /// kept.
    pub fn note_channel_unavailable(&mut self)
        ensures
            final(self).failure == (if old(self).failure is Some {
                old(self).failure
            } else {
                Some(CaptureError::CaptureChannelUnavailable)
            }),
            final(self).interface@ == old(self).interface@,
            final(self).packets.deep_view() == old(self).packets.deep_view(),
            final(self).results.deep_view() == old(self).results.deep_view(),
            final(self).live == old(self).live,
            final(self).stop_signal == old(self).stop_signal,
    {
        if self.failure.is_none() {
            self.failure = Some(CaptureError::CaptureChannelUnavailable);
        }
    }

    /// A receive call failed after capture started: record the failure, to
    /// be surfaced once the session completes. The first recorded failure is
    /// kept.
    pub fn note_read_failure(&mut self)
        ensures
            final(self).failure == (if old(self).failure is Some {
                old(self).failure
            } else {
                Some(CaptureError::CaptureReadFailure)
            }),
            final(self).interface@ == old(self).interface@,
            final(self).packets.deep_view() == old(self).packets.deep_view(),
            final(self).results.deep_view() == old(self).results.deep_view(),
            final(self).live == old(self).live,
            final(self).stop_signal == old(self).stop_signal,
    {
        if self.failure.is_none() {
            self.failure = Some(CaptureError::CaptureReadFailure);
        }
    }

    /// Stop capturing: raise the stop signal and freeze a snapshot of the
    /// buffer as the session's results. The capture loop is not interrupted;
    /// it terminates after its current receive returns, and a frame it
    /// delivers after this snapshot is not part of the results.
    pub fn stop_capture(self) -> (r: PacketCapture<Completed>)
        ensures
            r.interface@ == self.interface@,
            r.packets.deep_view() == self.packets.deep_view(),
            r.results.deep_view() == self.packets.deep_view(),
            r.live == self.live,
            r.stop_signal,
            r.failure == self.failure,
    {
        let snapshot = crate::wire::clone_frames(&self.packets);
        PacketCapture {
            interface: self.interface,
            packets: self.packets,
            results: snapshot,
            live: self.live,
            stop_signal: true,
            failure: self.failure,
            state: PhantomData,
        }
    }
}

impl PacketCapture<Completed> {
    /// The captured raw frames, in arrival order, as owned copies.
    pub fn results_raw(&self) -> (r: Vec<Vec<u8>>)
        ensures
            r.deep_view() == self.results.deep_view(),
    {
        crate::wire::clone_frames(&self.results)
    }

    /// The failure the capture loop reported, if any.
    pub fn capture_error(&self) -> (e: Option<CaptureError>)
        ensures
            e == self.failure,
    {
        self.failure
    }

    /// The results decoded as Ethernet frames: frames that do not parse are
    /// silently dropped, the order of the survivors is kept.
    pub fn results_as_ethernet(&self) -> (r: EthernetFrameCollection)
        ensures
            r@ == spec_decode_ethernet(self.results.deep_view()),
    {
        EthernetFrameCollection::from_raw(&self.results)
    }

    /// The results decoded as IPv4 packets: each Ethernet survivor's payload
    /// is parsed in turn, and a payload of another protocol silently
    /// vanishes from the collection.
    pub fn results_as_ipv4(&self) -> (r: Ipv4PacketCollection)
        ensures
            r@ == spec_decode_ipv4(spec_decode_ethernet(self.results.deep_view())),
    {
        Ipv4PacketCollection::from_ethernet(&self.results_as_ethernet())
    }

    /// The results decoded as TCP segments: the same layered, silently lossy
    /// pipeline, one layer further.
    pub fn results_as_tcp(&self) -> (r: TcpSegmentCollection)
        ensures
            r@ == spec_decode_tcp(spec_decode_ipv4(spec_decode_ethernet(self.results.deep_view()))),
    {
        TcpSegmentCollection::from(&self.results_as_ipv4())
    }
}

/// Each decode stage never increases cardinality: however a capture's raw
/// frames decode, there are no more TCP segments than IPv4 packets, no more
/// IPv4 packets than Ethernet frames, and no more Ethernet frames than raw
/// frames.
pub proof fn lemma_decode_cardinality(raws: Seq<Seq<u8>>)
    ensures
        spec_decode_tcp(spec_decode_ipv4(spec_decode_ethernet(raws))).len() <= spec_decode_ipv4(
            spec_decode_ethernet(raws),
        ).len(),
        spec_decode_ipv4(spec_decode_ethernet(raws)).len() <= spec_decode_ethernet(raws).len(),
        spec_decode_ethernet(raws).len() <= raws.len(),
{
    ethernet_frame::lemma_decode_ethernet_len(raws);
    ipv4_packet::lemma_decode_ipv4_len(spec_decode_ethernet(raws));
    tcp_packet::lemma_decode_tcp_len(spec_decode_ipv4(spec_decode_ethernet(raws)));
}

} // verus!
