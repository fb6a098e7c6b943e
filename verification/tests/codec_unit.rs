#![allow(unused_imports, dead_code)]
use thermokarst::{BinaryDeserialize, BinaryEncoder, BinarySerialize, DecodeError, EntityState, ProtocolCodec, ENTITY_SIZE, HEADER_SIZE};


fn entity(id: u32, x: f32, y: f32, rotation: f32, costume_id: u32) -> EntityState {
    EntityState::new(id, x.to_bits(), y.to_bits(), rotation.to_bits(), costume_id)
}

fn fx(e: &EntityState) -> f32 {
    f32::from_bits(e.x)
}

fn fy(e: &EntityState) -> f32 {
    f32::from_bits(e.y)
}

fn frot(e: &EntityState) -> f32 {
    f32::from_bits(e.rotation)
}

#[test]
fn test_codec_new() {
    let codec = ProtocolCodec::<EntityState>::new(1);
    assert_eq!(codec.version(), 1);
}

#[test]
fn codec_test_encode_empty() {
    let codec = ProtocolCodec::<EntityState>::new(1);
    let entities = vec![];
    let buffer = codec.encode(&entities);

    assert_eq!(buffer.len(), 9); // 1 (version) + 4 (count) + 4 (timestamp)
    assert_eq!(buffer[0], 1); // Version
    assert_eq!(
        u32::from_le_bytes([buffer[1], buffer[2], buffer[3], buffer[4]]),
        0
    ); // Count
}

#[test]
fn codec_test_encode_single_entity() {
    let codec = ProtocolCodec::<EntityState>::new(1);
    let entities = vec![entity(1, 100.0, 200.0, 1.5, 0)];
    let buffer = codec.encode(&entities);

    assert_eq!(buffer.len(), 9 + 20); // header + 1 entity

    // Check version
    assert_eq!(buffer[0], 1);

    // Check count
    let count = u32::from_le_bytes([buffer[1], buffer[2], buffer[3], buffer[4]]);
    assert_eq!(count, 1);

    // Check entity id
    let id = u32::from_le_bytes([buffer[9], buffer[10], buffer[11], buffer[12]]);
    assert_eq!(id, 1);
}

#[test]
fn test_encode_multiple_entities() {
    let codec = ProtocolCodec::<EntityState>::new(1);
    let entities = vec![
        entity(1, 10.0, 20.0, 0.5, 0),
        entity(2, 30.0, 40.0, 1.0, 1),
        entity(3, 50.0, 60.0, 1.5, 2),
    ];
    let buffer = codec.encode(&entities);

    assert_eq!(buffer.len(), 9 + 60); // header + 3 entities

    // Check version
    assert_eq!(buffer[0], 1);

    // Check count
    let count = u32::from_le_bytes([buffer[1], buffer[2], buffer[3], buffer[4]]);
    assert_eq!(count, 3);
}

#[test]
fn test_encode_legacy_empty() {
    let codec = ProtocolCodec::<EntityState>::new(1);
    let entities = vec![];
    let buffer = codec.encode_legacy(&entities);

    assert_eq!(buffer.len(), 8); // 4 (count) + 4 (timestamp), no version
    assert_eq!(
        u32::from_le_bytes([buffer[0], buffer[1], buffer[2], buffer[3]]),
        0
    ); // Count
}

#[test]
fn test_encode_legacy_single_entity() {
    let codec = ProtocolCodec::<EntityState>::new(1);
    let entities = vec![entity(1, 100.0, 200.0, 1.5, 0)];
    let buffer = codec.encode_legacy(&entities);

    assert_eq!(buffer.len(), 8 + 20); // header + 1 entity

    // Check count
    let count = u32::from_le_bytes([buffer[0], buffer[1], buffer[2], buffer[3]]);
    assert_eq!(count, 1);

    // Check entity id
    let id = u32::from_le_bytes([buffer[8], buffer[9], buffer[10], buffer[11]]);
    assert_eq!(id, 1);
}

#[test]
fn test_decode_empty() {
    let codec = ProtocolCodec::<EntityState>::new(1);
    let entities = vec![];
    let buffer = codec.encode(&entities);

    let decoded = codec.decode(&buffer).unwrap();

    assert_eq!(decoded.version, 1);
    assert_eq!(decoded.items.len(), 0);
}

#[test]
fn test_decode_single_entity() {
    let codec = ProtocolCodec::<EntityState>::new(1);
    let entities = vec![entity(42, 100.5, 200.75, 1.57, 3)];
    let buffer = codec.encode(&entities);

    let decoded = codec.decode(&buffer).unwrap();

    assert_eq!(decoded.version, 1);
    assert_eq!(decoded.items.len(), 1);
    assert_eq!(decoded.items[0].id, 42);
    assert!((fx(&decoded.items[0]) - 100.5).abs() < 0.001);
    assert!((fy(&decoded.items[0]) - 200.75).abs() < 0.001);
    assert!((frot(&decoded.items[0]) - 1.57).abs() < 0.001);
    assert_eq!(decoded.items[0].costume_id, 3);
}

#[test]
fn test_decode_multiple_entities() {
    let codec = ProtocolCodec::<EntityState>::new(1);
    let entities = vec![
        entity(1, 10.0, 20.0, 0.5, 0),
        entity(2, 30.0, 40.0, 1.0, 1),
        entity(3, 50.0, 60.0, 1.5, 2),
    ];
    let buffer = codec.encode(&entities);

    let decoded = codec.decode(&buffer).unwrap();

    assert_eq!(decoded.version, 1);
    assert_eq!(decoded.items.len(), 3);
    assert_eq!(decoded.items[0].id, 1);
    assert_eq!(decoded.items[1].id, 2);
    assert_eq!(decoded.items[2].id, 3);
}

#[test]
fn test_decode_buffer_too_short() {
    let codec = ProtocolCodec::<EntityState>::new(1);
    let buffer = vec![1, 2, 3]; // Only 3 bytes

    let result = codec.decode(&buffer);

    assert!(result.is_err());
    match result {
        Err(DecodeError::BufferTooShort { expected, actual }) => {
            assert_eq!(expected, 9);
            assert_eq!(actual, 3);
        }
        _ => panic!("Expected BufferTooShort error"),
    }
}

#[test]
fn test_decode_version_mismatch() {
    let codec_v1 = ProtocolCodec::<EntityState>::new(1);
    let codec_v2 = ProtocolCodec::<EntityState>::new(2);

    let entities = vec![entity(1, 10.0, 20.0, 0.5, 0)];
    let buffer = codec_v1.encode(&entities);

    let result = codec_v2.decode(&buffer);

    assert!(result.is_err());
    match result {
        Err(DecodeError::InvalidData(msg)) => {
            assert!(msg.contains("Version mismatch"));
            assert!(msg.contains("expected 2"));
            assert!(msg.contains("got 1"));
        }
        _ => panic!("Expected InvalidData error"),
    }
}

#[test]
fn test_roundtrip() {
    let codec = ProtocolCodec::<EntityState>::new(1);
    let original = vec![
        entity(1, 10.0, 20.0, 0.5, 0),
        entity(2, 30.0, 40.0, 1.0, 1),
        entity(3, 50.0, 60.0, 1.5, 2),
    ];

    let buffer = codec.encode(&original);
    let decoded = codec.decode(&buffer).unwrap();

    assert_eq!(decoded.items.len(), original.len());
    for (orig, dec) in original.iter().zip(decoded.items.iter()) {
        assert_eq!(orig.id, dec.id);
        assert!((fx(&orig) - fx(&dec)).abs() < 0.001);
        assert!((fy(&orig) - fy(&dec)).abs() < 0.001);
        assert!((frot(&orig) - frot(&dec)).abs() < 0.001);
        assert_eq!(orig.costume_id, dec.costume_id);
    }
}

#[test]
fn test_timestamp_is_set() {
    let codec = ProtocolCodec::<EntityState>::new(1);
    let entities = vec![entity(1, 10.0, 20.0, 0.5, 0)];
    let buffer = codec.encode(&entities);

    let decoded = codec.decode(&buffer).unwrap();

    // Timestamp should be non-zero (current time)
    assert!(decoded.timestamp > 0);
}

#[test]
fn test_different_versions() {
    let codec_v1 = ProtocolCodec::<EntityState>::new(1);
    let codec_v5 = ProtocolCodec::<EntityState>::new(5);

    let entities = vec![entity(1, 10.0, 20.0, 0.5, 0)];

    let buffer_v1 = codec_v1.encode(&entities);
    let buffer_v5 = codec_v5.encode(&entities);

    assert_eq!(buffer_v1[0], 1);
    assert_eq!(buffer_v5[0], 5);

    // Each codec can decode its own version
    assert!(codec_v1.decode(&buffer_v1).is_ok());
    assert!(codec_v5.decode(&buffer_v5).is_ok());

    // But not the other version
    assert!(codec_v1.decode(&buffer_v5).is_err());
    assert!(codec_v5.decode(&buffer_v1).is_err());
}
