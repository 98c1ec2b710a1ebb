use neuron_wire::dict::compact_names::{code_to_name, name_to_code};
use neuron_wire::dict::regions;
use neuron_wire::dict::PredictionCode;

#[test]
fn prediction_codes_roundtrip() {
    for c in 1u32..=24 {
        assert_eq!(PredictionCode::from_u32(c).code(), c);
    }
    assert_eq!(PredictionCode::from_u32(0), PredictionCode::Unknown);
    assert_eq!(PredictionCode::from_u32(25), PredictionCode::Unknown);
    assert_eq!(PredictionCode::MathReasoning.code(), 2);
    assert!(!PredictionCode::CodeGeneration.name().is_empty());
}

#[test]
fn compact_names() {
    assert_eq!(name_to_code("language"), Some(2));
    assert_eq!(name_to_code("command_brain"), Some(9));
    assert_eq!(name_to_code("nope"), None);
    assert_eq!(code_to_name(1), "sensory");
    assert_eq!(code_to_name(99), "unknown");
    for c in 1u16..=9 {
        assert_eq!(name_to_code(code_to_name(c)), Some(c));
    }
}

#[test]
fn region_masks() {
    assert_eq!(regions::SENSORY, 1);
    assert_eq!(regions::EXECUTIVE, 128);
    assert_eq!(regions::ALL, u32::MAX);
}
