use wiretap::{CaptureError, InterfaceInfo, PacketCapture, Uninitialized};

fn iface(name: &str, is_up: bool, is_loopback: bool, address_count: usize) -> InterfaceInfo {
    InterfaceInfo { name: String::from(name), is_up, is_loopback, address_count }
}

fn ethernet_frame_bytes(payload: &[u8]) -> Vec<u8> {
    let mut b = vec![0u8; 14];
    b.extend_from_slice(payload);
    b
}

#[test]
fn bind_finds_named_interface() {
    let interfaces = vec![iface("lo", true, true, 1), iface("eth0", true, false, 2)];
    let pc = PacketCapture::<Uninitialized>::new_from_interface(&interfaces, "eth0").unwrap();
    assert_eq!(pc.interface.name, "eth0");
    assert!(pc.packets.is_empty());
}

#[test]
fn bind_unknown_name_is_rejected() {
    let interfaces = vec![iface("lo", true, true, 1)];
    match PacketCapture::<Uninitialized>::new_from_interface(&interfaces, "wlan0") {
        Ok(_) => panic!("an absent interface must be rejected"),
        Err(err) => assert_eq!(err, CaptureError::InterfaceNotFound),
    }
}

#[test]
fn default_selection_skips_down_loopback_and_addressless() {
    let interfaces = vec![
        iface("down0", false, false, 1),
        iface("lo", true, true, 1),
        iface("bare0", true, false, 0),
        iface("eth1", true, false, 3),
    ];
    let pc = PacketCapture::<Uninitialized>::new_with_default(&interfaces).unwrap();
    assert_eq!(pc.interface.name, "eth1");
}

#[test]
fn no_default_interface_is_rejected() {
    let interfaces = vec![iface("lo", true, true, 1), iface("down0", false, false, 1)];
    match PacketCapture::<Uninitialized>::new_with_default(&interfaces) {
        Ok(_) => panic!("a missing default interface must be rejected"),
        Err(err) => assert_eq!(err, CaptureError::NoDefaultInterface),
    }
}

#[test]
fn stop_before_any_frame_yields_empty_results() {
    let interfaces = vec![iface("eth0", true, false, 1)];
    let pc = PacketCapture::<Uninitialized>::new_from_interface(&interfaces, "eth0").unwrap();
    let started = pc.start_capture();
    let done = started.stop_capture();
    assert!(done.results_raw().is_empty());
    assert_eq!(done.results_as_ethernet().len(), 0);
    assert_eq!(done.results_as_ipv4().len(), 0);
    assert_eq!(done.results_as_tcp().len(), 0);
    assert_eq!(done.capture_error(), None);
}

#[test]
fn buffered_capture_snapshots_delivered_frames() {
    let interfaces = vec![iface("eth0", true, false, 1)];
    let pc = PacketCapture::<Uninitialized>::new_from_interface(&interfaces, "eth0").unwrap();
    let mut started = pc.start_capture();
    let first = ethernet_frame_bytes(&[1, 2]);
    let second = ethernet_frame_bytes(&[3]);
    assert!(started.deliver_frame(first.clone()).is_none());
    assert!(started.deliver_frame(second.clone()).is_none());
    let done = started.stop_capture();
    let raw = done.results_raw();
    assert_eq!(raw, vec![first, second]);
    assert_eq!(done.results_as_ethernet().len(), 2);
}

#[test]
fn live_mode_hands_frames_back_and_buffers_nothing() {
    let interfaces = vec![iface("eth0", true, false, 1)];
    let pc = PacketCapture::<Uninitialized>::new_from_interface(&interfaces, "eth0").unwrap();
    let mut started = pc.start_live_process();
    let frame = ethernet_frame_bytes(&[7, 7]);
    let out = started.deliver_frame(frame.clone());
    assert_eq!(out, Some(frame));
    let done = started.stop_capture();
    assert!(done.results_raw().is_empty());
}

#[test]
fn read_failure_is_surfaced_on_completion() {
    let interfaces = vec![iface("eth0", true, false, 1)];
    let pc = PacketCapture::<Uninitialized>::new_from_interface(&interfaces, "eth0").unwrap();
    let mut started = pc.start_capture();
    started.note_read_failure();
    let done = started.stop_capture();
    assert_eq!(done.capture_error(), Some(CaptureError::CaptureReadFailure));
}

#[test]
fn first_recorded_failure_wins() {
    let interfaces = vec![iface("eth0", true, false, 1)];
    let pc = PacketCapture::<Uninitialized>::new_from_interface(&interfaces, "eth0").unwrap();
    let mut started = pc.start_capture();
    started.note_channel_unavailable();
    started.note_read_failure();
    let done = started.stop_capture();
    assert_eq!(done.capture_error(), Some(CaptureError::CaptureChannelUnavailable));
}

#[test]
fn frames_delivered_after_stop_are_not_in_the_snapshot() {
    // The snapshot is taken at stop time; the session that was stopped is
    // consumed, so nothing can land in its results afterwards.
    let interfaces = vec![iface("eth0", true, false, 1)];
    let pc = PacketCapture::<Uninitialized>::new_from_interface(&interfaces, "eth0").unwrap();
    let mut started = pc.start_capture();
    started.deliver_frame(ethernet_frame_bytes(&[1])).map(|_| ());
    let done = started.stop_capture();
    assert!(done.stop_signal);
    assert_eq!(done.results_raw().len(), 1);
}

#[test]
fn full_session_pipeline_decodes_tcp() {
    let mut tcp = vec![0u8; 20];
    tcp[0..2].copy_from_slice(&443u16.to_be_bytes());
    tcp[2..4].copy_from_slice(&51000u16.to_be_bytes());
    tcp[4..8].copy_from_slice(&1000u32.to_be_bytes());
    tcp[8..12].copy_from_slice(&2000u32.to_be_bytes());
    tcp[12] = 5 << 4;
    tcp[13] = 0x18;
    tcp.extend_from_slice(b"ok");

    let mut ipv4 = vec![0u8; 20];
    ipv4[0] = 0x45;
    let total = (20 + tcp.len()) as u16;
    ipv4[2..4].copy_from_slice(&total.to_be_bytes());
    ipv4[12..16].copy_from_slice(&[10, 0, 0, 1]);
    ipv4[16..20].copy_from_slice(&[10, 0, 0, 2]);
    ipv4.extend_from_slice(&tcp);

    let mut frame = vec![0u8; 14];
    frame.extend_from_slice(&ipv4);

    let interfaces = vec![iface("eth0", true, false, 1)];
    let pc = PacketCapture::<Uninitialized>::new_from_interface(&interfaces, "eth0").unwrap();
    let mut started = pc.start_capture();
    started.deliver_frame(frame);
    let done = started.stop_capture();

    assert_eq!(done.results_as_ethernet().len(), 1);
    assert_eq!(done.results_as_ipv4().len(), 1);
    let segments = done.results_as_tcp();
    assert_eq!(segments.len(), 1);
    let seg = segments.get(0);
    assert_eq!(seg.source_port, 443);
    assert_eq!(seg.destination_port, 51000);
    assert_eq!(seg.sequence, 1000);
    assert_eq!(seg.acknowledgement, 2000);
    assert_eq!(seg.flags, 0x18);
    assert_eq!(seg.payload, b"ok".to_vec());
}
