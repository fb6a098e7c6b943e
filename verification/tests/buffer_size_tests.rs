#![allow(unused_imports, dead_code)]
use thermokarst::{BinaryDeserialize, BinaryEncoder, BinarySerialize, DecodeError, EntityState, ProtocolCodec, ENTITY_SIZE, HEADER_SIZE};


fn entity(id: u32, x: f32, y: f32, rotation: f32, costume_id: u32) -> EntityState {
    EntityState::new(id, x.to_bits(), y.to_bits(), rotation.to_bits(), costume_id)
}

fn fx(e: &EntityState) -> f32 {
    f32::from_bits(e.x)
}

fn fy(e: &EntityState) -> f32 {
    f32::from_bits(e.y)
}

fn frot(e: &EntityState) -> f32 {
    f32::from_bits(e.rotation)
}

#[test]
fn test_buffer_size_empty_collection() {
    let entities = vec![];
    let buffer = BinaryEncoder::encode(&entities);
    
    // Empty collection: only header (8 bytes)
    assert_eq!(buffer.len(), 8);
    assert_eq!(buffer.len(), HEADER_SIZE);
}

#[test]
fn test_buffer_size_single_entity() {
    let entities = vec![entity(1, 10.0, 20.0, 1.5, 0)];
    let buffer = BinaryEncoder::encode(&entities);
    
    // 1 entity: header (8 bytes) + 1 entity (20 bytes) = 28 bytes
    assert_eq!(buffer.len(), 28);
    assert_eq!(buffer.len(), HEADER_SIZE + ENTITY_SIZE);
    assert_eq!(buffer.len(), 8 + (1 * 20));
}

#[test]
fn test_buffer_size_ten_entities() {
    let entities: Vec<EntityState> = (0..10)
        .map(|i| entity(i, i as f32, i as f32, 0.0, 0))
        .collect();
    let buffer = BinaryEncoder::encode(&entities);
    
    // 10 entities: header (8 bytes) + 10 entities (200 bytes) = 208 bytes
    assert_eq!(buffer.len(), 208);
    assert_eq!(buffer.len(), HEADER_SIZE + 10 * ENTITY_SIZE);
    assert_eq!(buffer.len(), 8 + (10 * 20));
}

#[test]
fn test_buffer_size_hundred_entities() {
    let entities: Vec<EntityState> = (0..100)
        .map(|i| entity(i, i as f32, i as f32, 0.0, 0))
        .collect();
    let buffer = BinaryEncoder::encode(&entities);
    
    // 100 entities: header (8 bytes) + 100 entities (2000 bytes) = 2008 bytes
    assert_eq!(buffer.len(), 2008);
    assert_eq!(buffer.len(), HEADER_SIZE + 100 * ENTITY_SIZE);
    assert_eq!(buffer.len(), 8 + (100 * 20));
}

#[test]
fn test_buffer_size_thousand_entities() {
    let entities: Vec<EntityState> = (0..1000)
        .map(|i| entity(i, i as f32, i as f32, 0.0, 0))
        .collect();
    let buffer = BinaryEncoder::encode(&entities);
    
    // 1000 entities: header (8 bytes) + 1000 entities (20000 bytes) = 20008 bytes
    assert_eq!(buffer.len(), 20008);
    assert_eq!(buffer.len(), HEADER_SIZE + 1000 * ENTITY_SIZE);
    assert_eq!(buffer.len(), 8 + (1000 * 20));
}

#[test]
fn test_buffer_size_formula_consistency() {
    // Test various sizes to ensure formula holds
    for n in [0, 1, 5, 10, 50, 100, 500, 1000] {
        let entities: Vec<EntityState> = (0..n)
            .map(|i| entity(i as u32, i as f32, i as f32, 0.0, 0))
            .collect();
        let buffer = BinaryEncoder::encode(&entities);
        
        let expected_size = 8 + (n * 20);
        assert_eq!(
            buffer.len(),
            expected_size,
            "Buffer size mismatch for {} entities",
            n
        );
    }
}

#[test]
fn test_buffer_size_with_varying_data() {
    // Test that buffer size is independent of entity data values
    let test_cases = vec![
        vec![entity(0, 0.0, 0.0, 0.0, 0)],
        vec![entity(u32::MAX, f32::MAX, f32::MIN, std::f32::consts::PI, u32::MAX)],
        vec![entity(12345, -999.99, 888.88, -3.14159, 42)],
    ];
    
    for entities in test_cases {
        let buffer = BinaryEncoder::encode(&entities);
        assert_eq!(
            buffer.len(),
            8 + (entities.len() * 20),
            "Buffer size should be independent of entity data values"
        );
    }
}
