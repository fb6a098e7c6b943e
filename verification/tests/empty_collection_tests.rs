#![allow(unused_imports, dead_code)]
use thermokarst::{BinaryDeserialize, BinaryEncoder, BinarySerialize, DecodeError, EntityState, ProtocolCodec, ENTITY_SIZE, HEADER_SIZE};


fn entity(id: u32, x: f32, y: f32, rotation: f32, costume_id: u32) -> EntityState {
    EntityState::new(id, x.to_bits(), y.to_bits(), rotation.to_bits(), costume_id)
}

fn fx(e: &EntityState) -> f32 {
    f32::from_bits(e.x)
}

fn fy(e: &EntityState) -> f32 {
    f32::from_bits(e.y)
}

fn frot(e: &EntityState) -> f32 {
    f32::from_bits(e.rotation)
}

#[test]
fn test_empty_collection_buffer_size() {
    let entities: Vec<EntityState> = vec![];
    let buffer = BinaryEncoder::encode(&entities);
    
    // Empty collection should produce exactly 8 bytes (header only)
    assert_eq!(buffer.len(), 8);
    assert_eq!(buffer.len(), HEADER_SIZE);
}

#[test]
fn test_empty_collection_header_content() {
    let entities: Vec<EntityState> = vec![];
    let buffer = BinaryEncoder::encode(&entities);
    
    // Verify header contains entity_count = 0
    let entity_count = u32::from_le_bytes([buffer[0], buffer[1], buffer[2], buffer[3]]);
    assert_eq!(entity_count, 0);
    
    // Verify timestamp field exists (4 bytes at offset 4)
    let timestamp = u32::from_le_bytes([buffer[4], buffer[5], buffer[6], buffer[7]]);
    // Timestamp should be 0 (current implementation)
    assert_eq!(timestamp, 0);
}

#[test]
fn test_empty_collection_no_entity_data() {
    let entities: Vec<EntityState> = vec![];
    let buffer = BinaryEncoder::encode(&entities);
    
    // Buffer should contain only header, no entity data
    assert_eq!(buffer.len(), 8);
    
    // Verify no bytes beyond the header
    assert!(buffer.len() <= HEADER_SIZE);
}

#[test]
fn test_empty_collection_multiple_times() {
    // Verify encoding empty collection multiple times produces consistent results
    for _ in 0..10 {
        let entities: Vec<EntityState> = vec![];
        let buffer = BinaryEncoder::encode(&entities);
        
        assert_eq!(buffer.len(), 8);
        
        let entity_count = u32::from_le_bytes([buffer[0], buffer[1], buffer[2], buffer[3]]);
        assert_eq!(entity_count, 0);
    }
}

#[test]
fn test_empty_vs_single_entity_size_difference() {
    // Verify the size difference between empty and single entity
    let empty_entities: Vec<EntityState> = vec![];
    let empty_buffer = BinaryEncoder::encode(&empty_entities);
    
    let single_entity = vec![entity(1, 0.0, 0.0, 0.0, 0)];
    let single_buffer = BinaryEncoder::encode(&single_entity);
    
    // Single entity buffer should be exactly 20 bytes larger
    assert_eq!(single_buffer.len(), empty_buffer.len() + 20);
    assert_eq!(empty_buffer.len(), 8);
    assert_eq!(single_buffer.len(), 28);
}
