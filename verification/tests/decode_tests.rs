use wiretap::{EthernetFrame, EthernetFrameCollection, Ipv4Packet, Ipv4PacketCollection,
    TcpSegmentCollection};

fn tcp_bytes(
    source_port: u16,
    destination_port: u16,
    sequence: u32,
    acknowledgement: u32,
    flags: u8,
    payload: &[u8],
) -> Vec<u8> {
    let mut b = vec![0u8; 20];
    b[0..2].copy_from_slice(&source_port.to_be_bytes());
    b[2..4].copy_from_slice(&destination_port.to_be_bytes());
    b[4..8].copy_from_slice(&sequence.to_be_bytes());
    b[8..12].copy_from_slice(&acknowledgement.to_be_bytes());
    b[12] = 5 << 4;
    b[13] = flags;
    b.extend_from_slice(payload);
    b
}

fn ipv4_bytes(source: u32, destination: u32, payload: &[u8]) -> Vec<u8> {
    let mut b = vec![0u8; 20];
    b[0] = 0x45;
    let total = (20 + payload.len()) as u16;
    b[2..4].copy_from_slice(&total.to_be_bytes());
    b[12..16].copy_from_slice(&source.to_be_bytes());
    b[16..20].copy_from_slice(&destination.to_be_bytes());
    b.extend_from_slice(payload);
    b
}

fn ethernet_bytes(payload: &[u8]) -> Vec<u8> {
    let mut b = vec![0u8; 14];
    b[12] = 0x08;
    b.extend_from_slice(payload);
    b
}

const HOST_A: u32 = 0xC0A80417; // 192.168.4.23
const HOST_B: u32 = 0x0A000001; // 10.0.0.1
const HOST_C: u32 = 0x7F000001; // 127.0.0.1

#[test]
fn ethernet_parse_splits_header_from_payload() {
    let raw = ethernet_bytes(&[9, 8, 7, 6, 5, 4]);
    let frame = EthernetFrame::new(&raw).unwrap();
    assert_eq!(frame.packet, raw);
    assert_eq!(frame.payload, vec![9, 8, 7, 6, 5, 4]);
}

#[test]
fn ethernet_parse_rejects_short_buffer() {
    let raw = vec![0u8; 13];
    assert!(EthernetFrame::new(&raw).is_none());
    let raw = vec![0u8; 14];
    let frame = EthernetFrame::new(&raw).unwrap();
    assert!(frame.payload.is_empty());
}

#[test]
fn ipv4_parse_reads_addresses_and_payload_window() {
    let raw = ipv4_bytes(HOST_A, HOST_B, &[1, 2, 3, 4]);
    let packet = Ipv4Packet::new(&raw).unwrap();
    assert_eq!(packet.source, HOST_A);
    assert_eq!(packet.destination, HOST_B);
    assert_eq!(packet.payload, vec![1, 2, 3, 4]);
}

#[test]
fn ipv4_parse_rejects_short_buffer() {
    assert!(Ipv4Packet::new(&[0u8; 19]).is_none());
}

#[test]
fn ipv4_payload_is_clipped_by_total_length() {
    // The headers announce two payload bytes; the buffer carries four. The
    // announced window wins.
    let mut raw = ipv4_bytes(HOST_A, HOST_B, &[1, 2, 3, 4]);
    let total: u16 = 22;
    raw[2..4].copy_from_slice(&total.to_be_bytes());
    let packet = Ipv4Packet::new(&raw).unwrap();
    assert_eq!(packet.payload, vec![1, 2]);
}

#[test]
fn decode_pipeline_drops_what_does_not_parse() {
    let tcp = tcp_bytes(80, 9000, 100, 0, 0x18, b"hi");
    let good = ethernet_bytes(&ipv4_bytes(HOST_A, HOST_B, &tcp));
    let short_frame = vec![1u8, 2, 3];
    let eth_without_ipv4 = ethernet_bytes(&[1, 2, 3]);
    let raws = vec![good.clone(), short_frame, eth_without_ipv4];

    let frames = EthernetFrameCollection::from_raw(&raws);
    assert_eq!(frames.len(), 2);

    let packets = Ipv4PacketCollection::from_ethernet(&frames);
    assert_eq!(packets.len(), 1);

    let segments = TcpSegmentCollection::from(&packets);
    assert_eq!(segments.len(), 1);
    let seg = segments.get(0);
    assert_eq!(seg.source_port, 80);
    assert_eq!(seg.destination_port, 9000);
    assert_eq!(seg.sequence, 100);
    assert_eq!(seg.flags, 0x18);
    assert_eq!(seg.payload, b"hi".to_vec());
}

#[test]
fn cardinality_never_grows_across_stages() {
    let tcp = tcp_bytes(80, 9000, 1, 0, 0, &[1]);
    let raws = vec![
        ethernet_bytes(&ipv4_bytes(HOST_A, HOST_B, &tcp)),
        ethernet_bytes(&[0, 1]),
        vec![5u8; 3],
        ethernet_bytes(&ipv4_bytes(HOST_B, HOST_C, &[7u8; 10])),
    ];
    let frames = EthernetFrameCollection::from_raw(&raws);
    let packets = Ipv4PacketCollection::from_ethernet(&frames);
    let segments = TcpSegmentCollection::from(&packets);
    assert!(frames.len() <= raws.len());
    assert!(packets.len() <= frames.len());
    assert!(segments.len() <= packets.len());
    assert_eq!(frames.len(), 3);
    assert_eq!(packets.len(), 2);
    assert_eq!(segments.len(), 1);
}

#[test]
fn filter_only_host_keeps_either_direction() {
    let packets = vec![
        Ipv4Packet { source: HOST_A, destination: HOST_B, payload: vec![1] },
        Ipv4Packet { source: HOST_B, destination: HOST_C, payload: vec![2] },
        Ipv4Packet { source: HOST_C, destination: HOST_A, payload: vec![3] },
    ];
    let coll = Ipv4PacketCollection::from_vec(packets);
    let kept = coll.filter_only_host(HOST_A);
    assert_eq!(kept.len(), 2);
    assert_eq!(kept.get(0).payload, vec![1]);
    assert_eq!(kept.get(1).payload, vec![3]);
    for i in 0..kept.len() {
        let p = kept.get(i);
        assert!(p.source == HOST_A || p.destination == HOST_A);
    }
}

#[test]
fn filter_only_host_is_idempotent() {
    let packets = vec![
        Ipv4Packet { source: HOST_A, destination: HOST_B, payload: vec![1] },
        Ipv4Packet { source: HOST_B, destination: HOST_C, payload: vec![2] },
    ];
    let coll = Ipv4PacketCollection::from_vec(packets);
    let once = coll.filter_only_host(HOST_A);
    let twice = once.filter_only_host(HOST_A);
    assert_eq!(once.len(), twice.len());
    for i in 0..once.len() {
        assert_eq!(once.get(i).source, twice.get(i).source);
        assert_eq!(once.get(i).destination, twice.get(i).destination);
        assert_eq!(once.get(i).payload, twice.get(i).payload);
    }
}

#[test]
fn frame_and_packet_clones_are_owned_copies() {
    let raw = ethernet_bytes(&[1, 2, 3]);
    let frame = EthernetFrame::new(&raw).unwrap();
    let frame_copy = frame.create_clone();
    assert_eq!(frame_copy.packet, frame.packet);
    assert_eq!(frame_copy.payload, frame.payload);

    let packet = Ipv4Packet { source: HOST_A, destination: HOST_B, payload: vec![4, 5] };
    let packet_copy = packet.create_clone();
    assert_eq!(packet_copy.source, HOST_A);
    assert_eq!(packet_copy.destination, HOST_B);
    assert_eq!(packet_copy.payload, vec![4, 5]);
}

#[test]
fn tcp_data_offset_moves_payload_start() {
    // A data offset of six words puts the payload four bytes later.
    let mut raw = tcp_bytes(80, 9000, 1, 0, 0, &[0, 0, 0, 0, 42, 43]);
    raw[12] = 6 << 4;
    let packets = Ipv4PacketCollection::from_vec(vec![Ipv4Packet {
        source: HOST_A,
        destination: HOST_B,
        payload: raw,
    }]);
    let segments = TcpSegmentCollection::from(&packets);
    assert_eq!(segments.len(), 1);
    assert_eq!(segments.get(0).payload, vec![42, 43]);
}
