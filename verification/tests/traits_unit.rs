#![allow(unused_imports, dead_code)]
use thermokarst::{BinaryDeserialize, BinaryEncoder, BinarySerialize, DecodeError, EntityState, ProtocolCodec, ENTITY_SIZE, HEADER_SIZE};


fn entity(id: u32, x: f32, y: f32, rotation: f32, costume_id: u32) -> EntityState {
    EntityState::new(id, x.to_bits(), y.to_bits(), rotation.to_bits(), costume_id)
}

fn fx(e: &EntityState) -> f32 {
    f32::from_bits(e.x)
}

fn fy(e: &EntityState) -> f32 {
    f32::from_bits(e.y)
}

fn frot(e: &EntityState) -> f32 {
    f32::from_bits(e.rotation)
}

#[test]
fn test_decode_error_display() {
    let error = DecodeError::BufferTooShort {
        expected: 10,
        actual: 5,
    };

    assert_eq!(
        error.to_string(),
        "Buffer too short: expected at least 10 bytes, got 5"
    );

    let error = DecodeError::InvalidData("test error".to_string());
    assert_eq!(error.to_string(), "Invalid data: test error");
}
