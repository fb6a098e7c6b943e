#![allow(unused_imports, dead_code)]
use thermokarst::{BinaryDeserialize, BinaryEncoder, BinarySerialize, DecodeError, EntityState, ProtocolCodec, ENTITY_SIZE, HEADER_SIZE};


fn entity(id: u32, x: f32, y: f32, rotation: f32, costume_id: u32) -> EntityState {
    EntityState::new(id, x.to_bits(), y.to_bits(), rotation.to_bits(), costume_id)
}

fn fx(e: &EntityState) -> f32 {
    f32::from_bits(e.x)
}

fn fy(e: &EntityState) -> f32 {
    f32::from_bits(e.y)
}

fn frot(e: &EntityState) -> f32 {
    f32::from_bits(e.rotation)
}

#[test]
fn test_encode_preserves_format() {
    // Property: encode always produces buffer with correct size
    let test_cases = vec![
        vec![],
        vec![entity(1, 0.0, 0.0, 0.0, 0)],
        vec![
            entity(1, 10.0, 20.0, 0.5, 0),
            entity(2, 30.0, 40.0, 1.0, 1),
        ],
        vec![
            entity(1, 100.0, 200.0, 1.5, 0),
            entity(2, 150.0, 250.0, 2.0, 1),
            entity(3, 200.0, 300.0, 3.14, 2),
        ],
    ];

    for entities in test_cases {
        let buffer = BinaryEncoder::encode(&entities);
        let expected_size = HEADER_SIZE + entities.len() * ENTITY_SIZE;
        assert_eq!(
            buffer.len(),
            expected_size,
            "Buffer size mismatch for {} entities",
            entities.len()
        );

        // Verify header contains correct entity count
        let count = u32::from_le_bytes([buffer[0], buffer[1], buffer[2], buffer[3]]);
        assert_eq!(
            count,
            entities.len() as u32,
            "Entity count mismatch in header"
        );
    }
}

#[test]
fn test_encode_preserves_byte_order() {
    // Property: encode uses little-endian byte order consistently
    let entity = entity(0x12345678, 1.0, 2.0, 3.0, 0xABCDEF01);
    let buffer = BinaryEncoder::encode(&[entity]);

    // Check entity count (should be 1)
    let count = u32::from_le_bytes([buffer[0], buffer[1], buffer[2], buffer[3]]);
    assert_eq!(count, 1);

    // Check entity ID is encoded in little-endian
    let id = u32::from_le_bytes([buffer[8], buffer[9], buffer[10], buffer[11]]);
    assert_eq!(id, 0x12345678);

    // Check costume_id is encoded in little-endian
    let costume_offset = 8 + 4 + 4 + 4 + 4; // header + id + x + y + rotation
    let costume_id = u32::from_le_bytes([
        buffer[costume_offset],
        buffer[costume_offset + 1],
        buffer[costume_offset + 2],
        buffer[costume_offset + 3],
    ]);
    assert_eq!(costume_id, 0xABCDEF01);
}

#[test]
fn test_encode_preserves_float_precision() {
    // Property: encode preserves float values when round-tripped
    let test_floats = vec![
        0.0,
        1.0,
        -1.0,
        3.14159,
        -3.14159,
        100.5,
        0.000001,
        1000000.0,
    ];

    for &x in &test_floats {
        for &y in &test_floats {
            for &rotation in &test_floats {
                let entity = entity(1, x, y, rotation, 0);
                let buffer = BinaryEncoder::encode(&[entity]);

                // Extract floats from buffer
                let x_offset = 8 + 4;
                let y_offset = x_offset + 4;
                let rot_offset = y_offset + 4;

                let x_decoded = f32::from_le_bytes([
                    buffer[x_offset],
                    buffer[x_offset + 1],
                    buffer[x_offset + 2],
                    buffer[x_offset + 3],
                ]);
                let y_decoded = f32::from_le_bytes([
                    buffer[y_offset],
                    buffer[y_offset + 1],
                    buffer[y_offset + 2],
                    buffer[y_offset + 3],
                ]);
                let rot_decoded = f32::from_le_bytes([
                    buffer[rot_offset],
                    buffer[rot_offset + 1],
                    buffer[rot_offset + 2],
                    buffer[rot_offset + 3],
                ]);

                assert_eq!(x_decoded, x, "X value not preserved");
                assert_eq!(y_decoded, y, "Y value not preserved");
                assert_eq!(rot_decoded, rotation, "Rotation value not preserved");
            }
        }
    }
}
