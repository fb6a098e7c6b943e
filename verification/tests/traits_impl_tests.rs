use thermokarst::{BinaryDeserialize, BinarySerialize, DecodeError};

/// A small message type implementing the protocol traits from outside the library.
#[derive(Debug, Clone, PartialEq)]
struct TestMessage {
    id: u32,
    value: f32,
}

impl BinarySerialize for TestMessage {
    fn write_to(&self, buffer: &mut Vec<u8>) {
        buffer.extend_from_slice(&self.id.to_le_bytes());
        buffer.extend_from_slice(&self.value.to_le_bytes());
    }

    fn byte_size(&self) -> usize {
        8
    }
}

impl BinaryDeserialize for TestMessage {
    fn read_from(buffer: &[u8], offset: usize) -> Result<Self, DecodeError> {
        if buffer.len() < offset + 8 {
            return Err(DecodeError::BufferTooShort { expected: offset + 8, actual: buffer.len() });
        }
        let id = u32::from_le_bytes([buffer[offset], buffer[offset + 1], buffer[offset + 2], buffer[offset + 3]]);
        let value =
            f32::from_le_bytes([buffer[offset + 4], buffer[offset + 5], buffer[offset + 6], buffer[offset + 7]]);
        Ok(Self { id, value })
    }

    fn byte_size() -> usize {
        8
    }
}

#[test]
fn test_binary_serialize_write_to() {
    let msg = TestMessage { id: 42, value: 3.14 };
    let mut buffer = Vec::new();
    msg.write_to(&mut buffer);
    assert_eq!(buffer.len(), 8);
    assert_eq!(u32::from_le_bytes([buffer[0], buffer[1], buffer[2], buffer[3]]), 42);
}

#[test]
fn test_binary_serialize_byte_size() {
    let msg = TestMessage { id: 42, value: 3.14 };
    assert_eq!(msg.byte_size(), 8);
}

#[test]
fn test_binary_deserialize_read_from() {
    let mut buffer = Vec::new();
    buffer.extend_from_slice(&42u32.to_le_bytes());
    buffer.extend_from_slice(&3.14f32.to_le_bytes());
    let msg = TestMessage::read_from(&buffer, 0).unwrap();
    assert_eq!(msg.id, 42);
    assert!((msg.value - 3.14).abs() < 0.001);
}

#[test]
fn test_binary_deserialize_buffer_too_short() {
    let buffer = vec![1, 2, 3];
    let result = TestMessage::read_from(&buffer, 0);
    assert!(result.is_err());
    match result {
        Err(DecodeError::BufferTooShort { expected, actual }) => {
            assert_eq!(expected, 8);
            assert_eq!(actual, 3);
        }
        _ => panic!("Expected BufferTooShort error"),
    }
}
