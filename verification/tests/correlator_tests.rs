use wiretap::{TcpSegment, TcpSegmentCollection};

fn segment(
    source_port: u16,
    destination_port: u16,
    sequence: u32,
    acknowledgement: u32,
    payload: Vec<u8>,
) -> TcpSegment {
    TcpSegment {
        source_port,
        destination_port,
        sequence,
        acknowledgement,
        flags: 0,
        payload,
    }
}

#[test]
fn one_challenge_one_response() {
    // A carries 10 payload bytes from port 80 to port 9000 at sequence 100;
    // B acknowledges 110 on the reverse flow: exactly one pair, nothing left.
    let a = segment(80, 9000, 100, 0, vec![0u8; 10]);
    let b = segment(9000, 80, 500, 110, vec![]);
    let coll = TcpSegmentCollection::from_vec(vec![a, b]);
    let (matched, unmatched) = coll.find_challenge_response_pairs();
    assert_eq!(matched.len(), 1);
    assert_eq!(unmatched.len(), 0);
    let pair = matched.get(0);
    assert_eq!(pair.challenge.sequence, 100);
    assert_eq!(pair.challenge.source_port, 80);
    assert_eq!(pair.response.acknowledgement, 110);
    assert_eq!(pair.response.source_port, 9000);
}

#[test]
fn no_matches_leaves_everything_unmatched_in_order() {
    // None of the three answers any other: zero pairs, all three kept in
    // their original order.
    let a = segment(80, 9000, 100, 0, vec![1]);
    let b = segment(81, 9001, 200, 0, vec![2]);
    let c = segment(82, 9002, 300, 0, vec![3]);
    let coll = TcpSegmentCollection::from_vec(vec![a, b, c]);
    let (matched, unmatched) = coll.find_challenge_response_pairs();
    assert_eq!(matched.len(), 0);
    assert_eq!(unmatched.len(), 3);
    assert_eq!(unmatched.get(0).source_port, 80);
    assert_eq!(unmatched.get(1).source_port, 81);
    assert_eq!(unmatched.get(2).source_port, 82);
}

#[test]
fn partition_counts_add_up() {
    // Two pairs plus one leftover: 2 * 2 + 1 == 5.
    let a = segment(80, 9000, 100, 0, vec![0u8; 10]);
    let b = segment(9000, 80, 500, 110, vec![]);
    let c = segment(81, 9001, 1000, 0, vec![0u8; 4]);
    let d = segment(9001, 81, 700, 1004, vec![]);
    let e = segment(99, 9999, 1, 0, vec![9]);
    let coll = TcpSegmentCollection::from_vec(vec![a, b, c, d, e]);
    let (matched, unmatched) = coll.find_challenge_response_pairs();
    assert_eq!(matched.len() * 2 + unmatched.len(), 5);
    assert_eq!(matched.len(), 2);
    assert_eq!(unmatched.len(), 1);
    assert_eq!(unmatched.get(0).source_port, 99);
}

#[test]
fn first_answering_candidate_wins() {
    // Both b and c acknowledge a's payload end on the reverse flow; the
    // greedy scan takes the earlier one and leaves the later unmatched.
    let a = segment(80, 9000, 100, 0, vec![0u8; 10]);
    let b = segment(9000, 80, 500, 110, vec![4]);
    let c = segment(9000, 80, 600, 110, vec![5]);
    let coll = TcpSegmentCollection::from_vec(vec![a, b, c]);
    let (matched, unmatched) = coll.find_challenge_response_pairs();
    assert_eq!(matched.len(), 1);
    assert_eq!(matched.get(0).response.sequence, 500);
    assert_eq!(unmatched.len(), 1);
    assert_eq!(unmatched.get(0).sequence, 600);
}

#[test]
fn response_before_challenge_in_pool_still_pairs() {
    // The answering segment stands before the challenge in the input; the
    // pair is still formed.
    let b = segment(9000, 80, 500, 110, vec![6]);
    let a = segment(80, 9000, 100, 0, vec![0u8; 10]);
    let coll = TcpSegmentCollection::from_vec(vec![b, a]);
    let (matched, unmatched) = coll.find_challenge_response_pairs();
    assert_eq!(matched.len(), 1);
    assert_eq!(unmatched.len(), 0);
    assert_eq!(matched.get(0).challenge.sequence, 100);
    assert_eq!(matched.get(0).response.sequence, 500);
}

#[test]
fn is_answered_by_needs_reverse_flow_and_exact_ack() {
    let a = segment(80, 9000, 100, 0, vec![0u8; 10]);
    let good = segment(9000, 80, 500, 110, vec![]);
    let wrong_ack = segment(9000, 80, 500, 111, vec![]);
    let wrong_ports = segment(9001, 80, 500, 110, vec![]);
    assert!(a.is_answered_by(&good));
    assert!(!a.is_answered_by(&wrong_ack));
    assert!(!a.is_answered_by(&wrong_ports));
    assert!(!good.is_answered_by(&a));
}

#[test]
fn empty_payload_challenge_matches_ack_of_its_sequence() {
    // A zero-length payload is acknowledged at the sequence number itself.
    let a = segment(80, 9000, 42, 0, vec![]);
    let b = segment(9000, 80, 7, 42, vec![]);
    assert!(a.is_answered_by(&b));
}

#[test]
fn filter_no_payload_keeps_only_data_segments() {
    let a = segment(80, 9000, 1, 0, vec![1, 2]);
    let b = segment(81, 9001, 2, 0, vec![]);
    let c = segment(82, 9002, 3, 0, vec![3]);
    let coll = TcpSegmentCollection::from_vec(vec![a, b, c]);
    let kept = coll.filter_no_payload();
    assert_eq!(kept.len(), 2);
    assert_eq!(kept.get(0).source_port, 80);
    assert_eq!(kept.get(1).source_port, 82);
}

#[test]
fn filter_no_payload_is_idempotent() {
    let a = segment(80, 9000, 1, 0, vec![1, 2]);
    let b = segment(81, 9001, 2, 0, vec![]);
    let coll = TcpSegmentCollection::from_vec(vec![a, b]);
    let once = coll.filter_no_payload();
    let twice = once.filter_no_payload();
    assert_eq!(once.len(), twice.len());
    for i in 0..once.len() {
        assert_eq!(once.get(i).source_port, twice.get(i).source_port);
        assert_eq!(once.get(i).payload, twice.get(i).payload);
        assert!(!twice.get(i).payload.is_empty());
    }
}

#[test]
fn flag_predicates_are_exact() {
    let mut s = segment(1, 2, 3, 4, vec![]);
    s.flags = 0x02;
    assert!(s.is_syn());
    assert!(!s.is_rst_ack());
    s.flags = 0x12; // SYN|ACK carries more than SYN alone
    assert!(!s.is_syn());
    s.flags = 0x14; // RST|ACK
    assert!(s.is_rst_ack());
    s.flags = 0x04; // RST alone
    assert!(!s.is_rst_ack());
}

#[test]
fn segment_clone_is_independent_copy() {
    let s = segment(80, 9000, 100, 7, vec![1, 2, 3]);
    let c = s.create_clone();
    assert_eq!(c.source_port, 80);
    assert_eq!(c.destination_port, 9000);
    assert_eq!(c.sequence, 100);
    assert_eq!(c.acknowledgement, 7);
    assert_eq!(c.payload, vec![1, 2, 3]);
}
