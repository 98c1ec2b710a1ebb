use neuron_wire::adversary::{
    bad_frame, bad_packet_burst, blip_targets, build_corrupt_crc, build_corrupt_magic,
    build_corrupt_version, build_garbage_payload, build_invalid_frame_len, build_oversized_body,
    build_truncated_body, pick_target_index, AdversaryMode, MAX_BURST_PER_TICK,
};
use neuron_wire::adversary::replay::{capture_decision, CaptureDecision, ReplayQueue};
use neuron_wire::dht::NodeAddr;
use neuron_wire::header::{parse_frame_checked, HeaderError, MessageHeader};
use neuron_wire::HEADER_SIZE;

#[test]
fn test_adversary_mode_from_str() {
    assert_eq!(AdversaryMode::from_str("none"), AdversaryMode::NoAttack);
    assert_eq!(AdversaryMode::from_str("bad-packets"), AdversaryMode::BadPackets);
    assert_eq!(AdversaryMode::from_str("badpackets"), AdversaryMode::BadPackets);
    assert_eq!(AdversaryMode::from_str("corrupted-state"), AdversaryMode::CorruptedState);
    assert_eq!(AdversaryMode::from_str("spoofed-identity"), AdversaryMode::SpoofedIdentity);
    assert_eq!(AdversaryMode::from_str("spoof"), AdversaryMode::SpoofedIdentity);
    assert_eq!(AdversaryMode::from_str("replay-attack"), AdversaryMode::ReplayAttack);
    assert_eq!(AdversaryMode::from_str("replay"), AdversaryMode::ReplayAttack);
    assert_eq!(AdversaryMode::from_str("all"), AdversaryMode::All);
    assert_eq!(AdversaryMode::from_str("unknown"), AdversaryMode::NoAttack);
}

#[test]
fn test_bad_magic_packet_is_corrupt() {
    let frame = build_corrupt_magic();
    assert!(frame.len() >= 4 + 16);
    let nwp_payload = &frame[4..];
    assert!(nwp_payload.len() >= HEADER_SIZE);
    let result = parse_frame_checked(nwp_payload);
    assert!(matches!(result, Err(HeaderError::BadMagic(_))), "bad magic packet should fail to parse");
}

#[test]
fn test_bad_version_packet_is_corrupt() {
    let frame = build_corrupt_version();
    let nwp_payload = &frame[4..];
    let result = parse_frame_checked(nwp_payload);
    assert!(matches!(result, Err(HeaderError::BadVersion(_))), "bad version packet should fail to parse");
}

#[test]
fn test_bad_crc_packet_fails_validation() {
    let frame = build_corrupt_crc();
    let nwp_payload = &frame[4..];
    let result = MessageHeader::from_bytes(nwp_payload);
    assert!(matches!(result, Err(HeaderError::BadCrc)), "corrupt CRC should fail validation");
}

#[test]
fn test_garbage_payload_has_no_structure() {
    let datagram = build_garbage_payload();
    assert_eq!(datagram.len(), 64);
}

#[test]
fn garbage_bytes_follow_their_pattern() {
    let d = build_garbage_payload();
    assert_eq!(d[0], 0);
    assert_eq!(d[1], 37);
    assert_eq!(d[7], (7 * 37 % 256) as u8);
}

#[test]
fn corrupt_frames_have_the_announced_shape() {
    let magic = build_corrupt_magic();
    assert_eq!(&magic[4..8], &[0xFF, 0x00, 0x00, 0xFF]);
    assert_eq!(magic.len(), 28);
    assert_eq!(build_corrupt_version()[8], 0xFF);
    let len0 = build_invalid_frame_len();
    assert_eq!(&len0[0..4], &[0, 0, 0, 0]);
    assert_eq!(len0.len(), 52);
    assert!(MessageHeader::from_bytes(&len0[4..]).is_ok());
}

#[test]
fn length_lies_are_caught() {
    let t = build_truncated_body();
    assert_eq!(t.len(), 70);
    assert!(MessageHeader::from_bytes(&t[4..]).is_ok());
    assert!(matches!(parse_frame_checked(&t[4..]), Err(HeaderError::ShortBuffer(66))));
    let o = build_oversized_body();
    assert_eq!(o.len(), 28);
    assert!(matches!(
        MessageHeader::from_bytes(&o[4..]),
        Err(HeaderError::BodyTooLarge(1_000_000_001))
    ));
}

#[test]
fn target_choice() {
    assert_eq!(pick_target_index(Some(2), 5, 99), 2);
    assert_eq!(pick_target_index(Some(9), 5, 7), 2);
    assert_eq!(pick_target_index(None, 5, 12), 2);
    assert_eq!(AdversaryMode::ReplayAttack.name(), "replay-attack");
}

#[test]
fn capture_decision_follows_mode_window_and_sampling() {
    assert_eq!(capture_decision(false, true, false, false, 9005, 30), CaptureDecision::Skip);
    assert_eq!(capture_decision(true, false, false, false, 9005, 30), CaptureDecision::Skip);
    assert_eq!(capture_decision(true, true, true, false, 9005, 30), CaptureDecision::Skip);
    assert_eq!(capture_decision(true, true, false, true, 9005, 30), CaptureDecision::CloseWindow);
    assert_eq!(capture_decision(true, true, false, false, 9005, 30), CaptureDecision::Capture);
    assert_eq!(capture_decision(true, true, false, false, 9050, 30), CaptureDecision::Skip);
}

#[test]
fn replay_queue_replays_after_each_delay_and_drops_exhausted() {
    let a1 = NodeAddr::V4([127, 0, 0, 1], 9005);
    let a2 = NodeAddr::V4([127, 0, 0, 1], 9050);
    let a3 = NodeAddr::V4([127, 0, 0, 1], 9010);
    let mut q = ReplayQueue::new();
    assert_eq!(q.observe(&[1], a1, 0, true, true, false, 30, 2, 100), CaptureDecision::Capture);
    assert_eq!(q.observe(&[2], a2, 0, true, true, false, 30, 2, 100), CaptureDecision::Skip);
    assert_eq!(q.observe(&[3], a3, 20, true, true, false, 30, 2, 100), CaptureDecision::Capture);
    assert_eq!(q.len(), 2);
    assert!(q.due_replays(50).is_empty());
    assert_eq!(q.due_replays(100), vec![(vec![1u8], a1)]);
    assert_eq!(q.due_replays(200), vec![(vec![1u8], a1), (vec![3u8], a3)]);
    assert_eq!(q.due_replays(300), vec![(vec![3u8], a3)]);
    assert_eq!(q.len(), 1);
    assert!(q.due_replays(400).is_empty());
    assert_eq!(q.len(), 0);
}

#[test]
fn replay_capture_stops_after_the_window() {
    let a = NodeAddr::V4([10, 0, 0, 1], 9001);
    let mut q = ReplayQueue::new();
    assert!(!q.capture_done());
    assert_eq!(q.observe(&[9], a, 5000, true, true, true, 100, 2, 100), CaptureDecision::CloseWindow);
    assert!(q.capture_done());
    assert_eq!(q.observe(&[9], a, 5001, true, true, false, 100, 2, 100), CaptureDecision::Skip);
    assert_eq!(q.len(), 0);
}

#[test]
fn bad_packet_burst_cycles_variants_and_targets() {
    let (burst, next) = bad_packet_burst(None, 3, 5);
    assert_eq!(burst.len(), MAX_BURST_PER_TICK);
    assert_eq!(next, 15);
    for (k, (target, frame)) in burst.iter().enumerate() {
        let s = 5 + k as u64;
        assert_eq!(*target, (s as usize) % 3);
        assert_eq!(frame, &bad_frame(s % 7));
    }
    assert_eq!(burst[0].1, build_oversized_body());
    assert_eq!(burst[1].1, build_garbage_payload());
    assert_eq!(burst[2].1, build_corrupt_magic());

    let (fixed, _) = bad_packet_burst(Some(1), 3, u64::MAX);
    assert!(fixed.iter().all(|(t, _)| *t == 1));
    let (wrapped, next) = bad_packet_burst(Some(9), 4, u64::MAX);
    assert_eq!(next, 9);
    assert_eq!(wrapped[1].0, 0);
}

#[test]
fn corrupted_state_blips_a_fifth_of_the_nodes_but_the_attacker() {
    assert_eq!(blip_targets(10, 0, 3), vec![3, 4]);
    assert_eq!(blip_targets(10, 4, 3), vec![3]);
    assert_eq!(blip_targets(10, 0, 4), Vec::<usize>::new());
    assert_eq!(blip_targets(40, 99, 0), vec![0, 1, 2, 3, 4]);
    assert_eq!(blip_targets(2, 7, 6), vec![0, 1]);
    assert_eq!(blip_targets(15, 7, 9), vec![9, 10, 11]);
}
