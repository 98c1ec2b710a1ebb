use neuron_wire::command::CommandBody;
use neuron_wire::consensus::ConsensusBody;
use neuron_wire::data::DataHeader;

#[test]
fn data_header_checks_payload() {
    let payload = b"hello";
    let h = DataHeader::new(7, 1, 0, payload);
    assert_eq!(h.payload_len, 5);
    assert_eq!(h.original_len, 5);
    assert_eq!(h.data_hash, 0x3610A686);
    assert!(h.validate_payload(payload));
    assert!(!h.validate_payload(b"hellp"));
    let mut raw = Vec::new();
    raw.extend_from_slice(&7u64.to_le_bytes());
    raw.extend_from_slice(&h.data_hash.to_le_bytes());
    raw.extend_from_slice(&1u16.to_le_bytes());
    raw.extend_from_slice(&0u16.to_le_bytes());
    raw.extend_from_slice(&5u32.to_le_bytes());
    raw.extend_from_slice(&5u32.to_le_bytes());
    let back = DataHeader::from_bytes(&raw);
    assert_eq!(back.sender_id, 7);
    assert_eq!(back.data_hash, h.data_hash);
    assert_eq!(back.content_type, 1);
    assert_eq!(back.payload_len, 5);
    assert_eq!(DataHeader::SIZE, 24);
}

#[test]
fn consensus_body_fields() {
    let mut raw = Vec::new();
    raw.extend_from_slice(&99u64.to_le_bytes());
    raw.extend_from_slice(&3u64.to_le_bytes());
    raw.extend_from_slice(&500u32.to_le_bytes());
    raw.extend_from_slice(&(0x10u32 | ConsensusBody::VOTE_ABSTAIN).to_le_bytes());
    let c = ConsensusBody::from_bytes(&raw);
    assert_eq!(c.proposal_id, 99);
    assert_eq!(c.voter_id, 3);
    assert_eq!(c.confidence_raw, 500);
    assert_eq!(c.vote(), ConsensusBody::VOTE_ABSTAIN);
    assert_eq!(ConsensusBody::SIZE, 24);
}

#[test]
fn command_body_fields() {
    let mut raw = Vec::new();
    for v in [1u32, 2, 3, 4, 5] {
        raw.extend_from_slice(&v.to_le_bytes());
    }
    raw.extend_from_slice(&6u64.to_le_bytes());
    raw.extend_from_slice(&7u32.to_le_bytes());
    let c = CommandBody::from_bytes(&raw);
    assert_eq!(c.command_id, 1);
    assert_eq!(c.prediction_code, 2);
    assert_eq!(c.confidence_raw, 3);
    assert_eq!(c.context_hash, 4);
    assert_eq!(c.deadline_us, 5);
    assert_eq!(c.source_id, 6);
    assert_eq!(c.target_mask, 7);
    assert_eq!(CommandBody::SIZE, 32);
}
