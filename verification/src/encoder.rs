//! The entity record of the state protocol and the header-first encoder.
//!
//! An encoded message is an 8-byte header (entity count, timestamp) followed by
//! one 20-byte record per entity: id, x, y, rotation, costume id, each four
//! bytes, least significant byte first.

use vstd::prelude::*;
use crate::bytes::{le_bytes, le_value, lemma_le_roundtrip, push_le_u32, read_le_u32};
use crate::traits::{
    encodings, lemma_encodings_push, reads_back_writes, BinaryDeserialize, BinarySerialize,
    DecodeError, DecodeErrorView, read_at, lemma_encodings_len,
};
use crate::codec::{decode_frame, lemma_decode_reads_back_encode, lemma_frame_sizes, legacy_frame, versioned_frame};

verus! {

/// Size of the message header: entity count and timestamp.
pub const HEADER_SIZE: usize = 8;

/// Size of one encoded entity.
pub const ENTITY_SIZE: usize = 20;

/// The state of one entity on screen.
///
/// The coordinates and the rotation are 32-bit IEEE-754 floats, held here by
/// their bit patterns (`f32::to_bits`); the protocol moves those bits unchanged.
#[derive(Debug, Clone)]
pub struct EntityState {
    pub id: u32,
    /// Bit pattern of the x coordinate.
    pub x: u32,
    /// Bit pattern of the y coordinate.
    pub y: u32,
    /// Bit pattern of the rotation.
    pub rotation: u32,
    pub costume_id: u32,
}

impl EntityState {
    pub fn new(id: u32, x: u32, y: u32, rotation: u32, costume_id: u32) -> (e: Self)
        ensures
            e == (EntityState { id, x, y, rotation, costume_id }),
    {
        EntityState { id, x, y, rotation, costume_id }
    }
}

/// The 20 bytes of an entity: its five fields in order, little-endian.
pub open spec fn entity_bytes(e: EntityState) -> Seq<u8> {
    le_bytes(e.id) + le_bytes(e.x) + le_bytes(e.y) + le_bytes(e.rotation) + le_bytes(e.costume_id)
}

/// The entity whose record is the 20 bytes `b`.
pub open spec fn entity_from_bytes(b: Seq<u8>) -> EntityState {
    EntityState {
        id: le_value(b.subrange(0, 4)),
        x: le_value(b.subrange(4, 8)),
        y: le_value(b.subrange(8, 12)),
        rotation: le_value(b.subrange(12, 16)),
        costume_id: le_value(b.subrange(16, 20)),
    }
}

impl BinarySerialize for EntityState {
    open spec fn encoding(&self) -> Seq<u8> {
        entity_bytes(*self)
    }

    fn write_to(&self, buffer: &mut Vec<u8>) {
        push_le_u32(buffer, self.id);
        push_le_u32(buffer, self.x);
        push_le_u32(buffer, self.y);
        push_le_u32(buffer, self.rotation);
        push_le_u32(buffer, self.costume_id);
        assert(buffer@ =~= old(buffer)@ + entity_bytes(*self));
    }

    fn byte_size(&self) -> (n: usize) {
        ENTITY_SIZE
    }
}

impl BinaryDeserialize for EntityState {
    open spec fn encoded_size() -> nat {
        20
    }

    open spec fn parse(bytes: Seq<u8>) -> Result<Self, DecodeErrorView> {
        Ok(entity_from_bytes(bytes))
    }

    fn read_from(buffer: &[u8], offset: usize) -> (r: Result<Self, DecodeError>) {
        if buffer.len() < offset + ENTITY_SIZE {
            return Err(DecodeError::BufferTooShort { expected: offset + ENTITY_SIZE, actual: buffer.len() });
        }
        let id = read_le_u32(buffer, offset);
        let x = read_le_u32(buffer, offset + 4);
        let y = read_le_u32(buffer, offset + 8);
        let rotation = read_le_u32(buffer, offset + 12);
        let costume_id = read_le_u32(buffer, offset + 16);
        let ghost b = buffer@.subrange(offset as int, offset + 20);
        assert(b.subrange(0, 4) =~= buffer@.subrange(offset as int, offset + 4));
        assert(b.subrange(4, 8) =~= buffer@.subrange(offset + 4, offset + 8));
        assert(b.subrange(8, 12) =~= buffer@.subrange(offset + 8, offset + 12));
        assert(b.subrange(12, 16) =~= buffer@.subrange(offset + 12, offset + 16));
        assert(b.subrange(16, 20) =~= buffer@.subrange(offset + 16, offset + 20));
        Ok(EntityState { id, x, y, rotation, costume_id })
    }

    fn byte_size() -> (n: usize) {
        ENTITY_SIZE
    }
}

/// Every entity is written with 20 bytes, and reading them gives the entity back.
pub proof fn lemma_entity_reads_back(e: EntityState)
    ensures
        entity_bytes(e).len() == ENTITY_SIZE,
        entity_from_bytes(entity_bytes(e)) == e,
{
    let b = entity_bytes(e);
    lemma_le_roundtrip(e.id);
    lemma_le_roundtrip(e.x);
    lemma_le_roundtrip(e.y);
    lemma_le_roundtrip(e.rotation);
    lemma_le_roundtrip(e.costume_id);
    assert(b.subrange(0, 4) =~= le_bytes(e.id));
    assert(b.subrange(4, 8) =~= le_bytes(e.x));
    assert(b.subrange(8, 12) =~= le_bytes(e.y));
    assert(b.subrange(12, 16) =~= le_bytes(e.rotation));
    assert(b.subrange(16, 20) =~= le_bytes(e.costume_id));
}

/// `EntityState` reads back every entity that it writes.
pub proof fn lemma_entity_state_reads_back_writes()
    ensures
        reads_back_writes::<EntityState>(),
{
    assert forall|v: EntityState|
        #![trigger v.encoding()]
        v.encoding().len() == EntityState::encoded_size() && EntityState::parse(v.encoding())
            == Ok::<EntityState, DecodeErrorView>(v) by {
        lemma_entity_reads_back(v);
    }
}

/// The message that `BinaryEncoder::encode` writes for `entities`: the count
/// (cut to 32 bits), a zero timestamp, then every entity's record.
pub open spec fn header_first_message(entities: Seq<EntityState>) -> Seq<u8> {
    le_bytes(entities.len() as u32) + le_bytes(0) + encodings(entities)
}

/// Writes entity states into the binary state format.
pub struct BinaryEncoder;

impl BinaryEncoder {
    /// Encodes `entities` as a header (count, zero timestamp) and their records.
    pub fn encode(entities: &[EntityState]) -> (buffer: Vec<u8>)
        requires
            HEADER_SIZE + entities@.len() * ENTITY_SIZE <= usize::MAX,
        ensures
            buffer@ == header_first_message(entities@),
    {
        let mut buffer = Vec::with_capacity(HEADER_SIZE + entities.len() * ENTITY_SIZE);
        push_le_u32(&mut buffer, entities.len() as u32);
        push_le_u32(&mut buffer, 0);
        let ghost header = buffer@;
        let mut i: usize = 0;
        while i < entities.len()
            invariant
                i <= entities@.len(),
                header == le_bytes(entities@.len() as u32) + le_bytes(0),
                buffer@ == header + encodings(entities@.take(i as int)),
            decreases entities@.len() - i,
        {
            let ghost before = buffer@;
            entities[i].write_to(&mut buffer);
            proof {
                lemma_encodings_push(entities@.take(i as int), entities@[i as int]);
                assert(entities@.take(i as int).push(entities@[i as int]) =~= entities@.take(i + 1));
                assert(buffer@ =~= header + encodings(entities@.take(i + 1)));
            }
            i += 1;
        }
        assert(entities@.take(entities@.len() as int) =~= entities@);
        buffer
    }
}

/// A message of `n` entities takes `HEADER_SIZE + n * ENTITY_SIZE` bytes.
pub proof fn lemma_header_first_message_len(entities: Seq<EntityState>)
    ensures
        header_first_message(entities).len() == HEADER_SIZE + entities.len() * ENTITY_SIZE,
{
    assert forall|i: int| 0 <= i < entities.len() implies (#[trigger] entities[i]).encoding().len() == ENTITY_SIZE by {
        lemma_entity_reads_back(entities[i]);
    }
    lemma_encodings_len(entities, ENTITY_SIZE as nat);
}

/// An entity written after any prefix, whatever follows it, lies wholly in the
/// buffer at the prefix's length, and reading there gives it back.
pub proof fn lemma_entity_read_after_prefix(prefix: Seq<u8>, e: EntityState, rest: Seq<u8>)
    ensures
        prefix.len() + ENTITY_SIZE <= (prefix + e.encoding() + rest).len(),
        EntityState::parse((prefix + e.encoding() + rest).subrange(prefix.len() as int, prefix.len() + ENTITY_SIZE))
            == Ok::<EntityState, DecodeErrorView>(e),
        read_at::<EntityState>(prefix + e.encoding() + rest, prefix.len()) == Ok::<EntityState, DecodeErrorView>(e),
{
    lemma_entity_reads_back(e);
    let buf = prefix + e.encoding() + rest;
    assert(buf.subrange(prefix.len() as int, prefix.len() + 20int) =~= e.encoding());
}

/// An entity written at the end of a buffer is read back at the buffer's old
/// length.
pub proof fn lemma_entity_read_after_written(prefix: Seq<u8>, e: EntityState)
    ensures
        prefix.len() + ENTITY_SIZE == (prefix + e.encoding()).len(),
        EntityState::parse((prefix + e.encoding()).subrange(prefix.len() as int, prefix.len() + ENTITY_SIZE))
            == Ok::<EntityState, DecodeErrorView>(e),
        read_at::<EntityState>(prefix + e.encoding(), prefix.len()) == Ok::<EntityState, DecodeErrorView>(e),
{
    lemma_entity_reads_back(e);
    let buf = prefix + e.encoding();
    assert(buf.subrange(prefix.len() as int, prefix.len() + 20int) =~= e.encoding());
}

/// Decoding a versioned frame of entities with the version it was written
/// with gives back that version, the timestamp and every entity, field for field.
pub proof fn lemma_entity_codec_roundtrip(version: u8, entities: Seq<EntityState>, timestamp: u32)
    requires
        entities.len() <= u32::MAX,
    ensures
        decode_frame::<EntityState>(version, versioned_frame(version, entities, timestamp)) == Ok::<
            (u8, u32, Seq<EntityState>),
            DecodeErrorView,
        >((version, timestamp, entities)),
{
    lemma_entity_state_reads_back_writes();
    lemma_decode_reads_back_encode(version, entities, timestamp);
}

/// A versioned frame of entities starts with its version byte and takes nine
/// bytes plus twenty per entity, whatever its timestamp; one more entity adds
/// twenty bytes.
pub proof fn lemma_entity_frame_sizes(version: u8, entities: Seq<EntityState>, e: EntityState, timestamp: u32)
    ensures
        versioned_frame(version, entities, timestamp)[0] == version,
        versioned_frame(version, entities, timestamp).len() == 9 + ENTITY_SIZE * entities.len(),
        versioned_frame(version, entities.push(e), timestamp).len() == versioned_frame(
            version,
            entities,
            timestamp,
        ).len() + ENTITY_SIZE,
{
    lemma_entity_state_reads_back_writes();
    lemma_frame_sizes(version, entities, timestamp);
    lemma_frame_sizes(version, entities.push(e), timestamp);
    assert(entities.len() * 20 == 20 * entities.len()) by (nonlinear_arith);
    assert(entities.push(e).len() * 20 == entities.len() * 20 + 20) by (nonlinear_arith)
        requires
            entities.push(e).len() == entities.len() + 1,
    ;
}

/// The legacy frame of entities, which is also the header-first message, is
/// the versioned frame of any timestamp with its count bytes kept, its
/// timestamp bytes set to zero, and its version byte dropped.
pub proof fn lemma_entity_legacy_from_versioned(version: u8, entities: Seq<EntityState>, timestamp: u32)
    ensures
        header_first_message(entities) == legacy_frame(entities),
        legacy_frame(entities) == versioned_frame(version, entities, timestamp).subrange(1, 5) + le_bytes(0)
            + versioned_frame(version, entities, timestamp).subrange(
            9,
            versioned_frame(version, entities, timestamp).len() as int,
        ),
{
    let v = versioned_frame(version, entities, timestamp);
    let a = le_bytes(entities.len() as u32);
    let t = le_bytes(timestamp);
    let body = encodings(entities);
    assert(v == seq![version] + a + t + body);
    assert(v.subrange(1, 5) =~= a);
    assert(v.subrange(9, v.len() as int) =~= body);
}

} // verus!
