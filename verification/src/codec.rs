//! A versioned codec for collections of protocol items.
//!
//! Versioned frame: `[VERSION:u8][COUNT:u32][TIMESTAMP:u32][ITEMS...]`.
//! Legacy frame:    `[COUNT:u32][TIMESTAMP:u32][ITEMS...]`, with a zero timestamp.

use vstd::prelude::*;
use std::marker::PhantomData;
use std::time::{Duration, SystemTime};
use crate::bytes::{le_bytes, le_value, lemma_le_roundtrip, push_le_u32, read_le_u32};
use crate::text::{decimal, decimal_string};
use crate::traits::{
    encodings, lemma_encodings_len, lemma_encodings_push, read_at, reads_back_writes, BinaryDeserialize, BinarySerialize, DecodeError,
    DecodeErrorView,
};

verus! {

#[verifier::external_type_specification]
#[verifier::external_body]
pub struct ExSystemTime(std::time::SystemTime);

/// The clock's current time (`std::time::SystemTime::now`); nothing is claimed of it.
#[verifier::external_body]
fn system_time_now() -> SystemTime {
    SystemTime::now()
}

/// The time elapsed from the Unix epoch to `t` (`SystemTime::duration_since`),
/// or `None` when `t` lies before the epoch; nothing more is claimed of it.
#[verifier::external_body]
fn since_unix_epoch(t: &SystemTime) -> Option<Duration> {
    t.duration_since(std::time::UNIX_EPOCH).ok()
}

/// The whole milliseconds in `d` (`Duration::as_millis`); nothing is claimed of it.
#[verifier::external_body]
fn duration_millis(d: &Duration) -> u128 {
    d.as_millis()
}

/// The timestamp for `millis` milliseconds since the Unix epoch: the count
/// cut to its low 32 bits, or 0 for a time before the epoch (`None`).
pub fn timestamp_from_millis(millis: Option<u128>) -> (ts: u32)
    ensures
        ts == match millis {
            Some(m) => m as u32,
            None => 0u32,
        },
{
    match millis {
        Some(m) => m as u32,
        None => 0,
    }
}

/// The current time in milliseconds since the Unix epoch, cut to 32 bits.
/// A clock set before the epoch gives 0. The clock decides the value, so no
/// particular timestamp is promised.
fn current_timestamp() -> u32 {
    let now = system_time_now();
    let millis = match since_unix_epoch(&now) {
        Some(d) => Some(duration_millis(&d)),
        None => None,
    };
    timestamp_from_millis(millis)
}

/// The versioned frame of `items` stamped with `timestamp`.
pub open spec fn versioned_frame<T: BinarySerialize>(version: u8, items: Seq<T>, timestamp: u32) -> Seq<u8> {
    seq![version] + le_bytes(items.len() as u32) + le_bytes(timestamp) + encodings(items)
}

/// The legacy frame of `items`: no version byte, a zero timestamp.
pub open spec fn legacy_frame<T: BinarySerialize>(items: Seq<T>) -> Seq<u8> {
    le_bytes(items.len() as u32) + le_bytes(0) + encodings(items)
}

/// The text of the error for a frame of version `got` given to a codec of version `expected`.
pub open spec fn version_mismatch(expected: u8, got: u8) -> Seq<char> {
    "Version mismatch: expected "@ + decimal(expected as nat) + ", got "@ + decimal(got as nat)
}

/// Offset of the first item in a versioned frame.
pub open spec fn item_offset<T: BinaryDeserialize>(k: nat) -> nat {
    9 + k * T::encoded_size()
}

/// The first `count` items of the versioned frame `buf`, read one after another,
/// or the first error met.
pub open spec fn decode_items<T: BinaryDeserialize>(buf: Seq<u8>, count: nat) -> Result<Seq<T>, DecodeErrorView>
    decreases count,
{
    if count == 0 {
        Ok(Seq::empty())
    } else {
        match decode_items::<T>(buf, (count - 1) as nat) {
            Err(e) => Err(e),
            Ok(prev) => match read_at::<T>(buf, item_offset::<T>((count - 1) as nat)) {
                Err(e) => Err(e),
                Ok(v) => Ok(prev.push(v)),
            },
        }
    }
}

/// What a codec of version `version` decodes from `buf`: the version,
/// the timestamp and the items, or the first error met.
pub open spec fn decode_frame<T: BinaryDeserialize>(version: u8, buf: Seq<u8>) -> Result<(u8, u32, Seq<T>), DecodeErrorView> {
    if buf.len() < 9 {
        Err(DecodeErrorView::BufferTooShort { expected: 9, actual: buf.len() })
    } else if buf[0] != version {
        Err(DecodeErrorView::InvalidData(version_mismatch(version, buf[0])))
    } else {
        match decode_items::<T>(buf, le_value(buf.subrange(1, 5)) as nat) {
            Err(e) => Err(e),
            Ok(items) => Ok((buf[0], le_value(buf.subrange(5, 9)), items)),
        }
    }
}

/// A decoded message: version, timestamp and the items.
pub struct DecodedMessage<T> {
    pub version: u8,
    pub timestamp: u32,
    pub items: Vec<T>,
}

/// A decoding result taken as plain values.
pub open spec fn decoded_view<T>(r: Result<DecodedMessage<T>, DecodeError>) -> Result<(u8, u32, Seq<T>), DecodeErrorView> {
    match r {
        Ok(m) => Ok((m.version, m.timestamp, m.items@)),
        Err(e) => Err(e@),
    }
}

/// Once reading an item fails, reading more items fails with the same error.
proof fn lemma_decode_items_err_persists<T: BinaryDeserialize>(buf: Seq<u8>, k: nat, m: nat)
    requires
        k <= m,
        decode_items::<T>(buf, k) is Err,
    ensures
        decode_items::<T>(buf, m) == decode_items::<T>(buf, k),
    decreases m - k,
{
    if k < m {
        lemma_decode_items_err_persists::<T>(buf, k, (m - 1) as nat);
    }
}

/// Encoder and decoder for collections of `T`, tagged with a protocol version.
pub struct ProtocolCodec<T> {
    version: u8,
    _phantom: PhantomData<T>,
}

impl<T> ProtocolCodec<T> {
    /// The protocol version of this codec.
    pub closed spec fn spec_version(&self) -> u8 {
        self.version
    }

    /// The protocol version of this codec.
    pub fn version(&self) -> (v: u8)
        ensures
            v == self.spec_version(),
    {
        self.version
    }
}

impl<T: BinarySerialize> ProtocolCodec<T> {
    /// A codec for protocol version `version`.
    pub fn new(version: u8) -> (c: Self)
        ensures
            c.spec_version() == version,
    {
        ProtocolCodec { version, _phantom: PhantomData }
    }

    /// Appends the encodings of all `items` to `buffer`.
    fn write_items(items: &[T], buffer: &mut Vec<u8>)
        ensures
            final(buffer)@ == old(buffer)@ + encodings(items@),
    {
        let ghost start = buffer@;
        let mut i: usize = 0;
        while i < items.len()
            invariant
                i <= items@.len(),
                buffer@ == start + encodings(items@.take(i as int)),
            decreases items@.len() - i,
        {
            items[i].write_to(buffer);
            proof {
                lemma_encodings_push(items@.take(i as int), items@[i as int]);
                assert(items@.take(i as int).push(items@[i as int]) =~= items@.take(i + 1));
                assert(buffer@ =~= start + encodings(items@.take(i + 1)));
            }
            i += 1;
        }
        assert(items@.take(items@.len() as int) =~= items@);
    }

    /// The number of bytes all `items` take.
    fn items_size(items: &[T]) -> (n: usize)
        requires
            encodings(items@).len() <= usize::MAX,
        ensures
            n == encodings(items@).len(),
    {
        let mut total: usize = 0;
        let mut i: usize = 0;
        while i < items.len()
            invariant
                i <= items@.len(),
                encodings(items@).len() <= usize::MAX,
                total == encodings(items@.take(i as int)).len(),
            decreases items@.len() - i,
        {
            proof {
                lemma_encodings_push(items@.take(i as int), items@[i as int]);
                assert(items@.take(i as int).push(items@[i as int]) =~= items@.take(i + 1));
                lemma_encodings_prefix_len(items@, i + 1);
            }
            total = total + items[i].byte_size();
            i += 1;
        }
        assert(items@.take(items@.len() as int) =~= items@);
        total
    }

    /// Encodes `items` in a versioned frame stamped with `timestamp`.
    pub fn encode_with_timestamp(&self, items: &[T], timestamp: u32) -> (buffer: Vec<u8>)
        requires
            9 + encodings(items@).len() <= usize::MAX,
        ensures
            buffer@ == versioned_frame(self.spec_version(), items@, timestamp),
    {
        let total_size = 1 + 4 + 4 + Self::items_size(items);
        let mut buffer = Vec::with_capacity(total_size);
        buffer.push(self.version);
        push_le_u32(&mut buffer, items.len() as u32);
        push_le_u32(&mut buffer, timestamp);
        Self::write_items(items, &mut buffer);
        buffer
    }

    /// Encodes `items` in a versioned frame stamped with the current time:
    /// the milliseconds since the Unix epoch, cut to their low 32 bits
    /// (`timestamp_from_millis`). A clock that reads before the epoch stamps
    /// the frame with 0 rather than failing. The clock is read here, so the
    /// contract fixes every byte but the four of the timestamp.
    pub fn encode(&self, items: &[T]) -> (buffer: Vec<u8>)
        requires
            9 + encodings(items@).len() <= usize::MAX,
        ensures
            exists|timestamp: u32| buffer@ == versioned_frame(self.spec_version(), items@, timestamp),
    {
        let timestamp = current_timestamp();
        self.encode_with_timestamp(items, timestamp)
    }

    /// Encodes `items` in the legacy frame, without a version byte.
    pub fn encode_legacy(&self, items: &[T]) -> (buffer: Vec<u8>)
        requires
            8 + encodings(items@).len() <= usize::MAX,
        ensures
            buffer@ == legacy_frame(items@),
    {
        let total_size = 4 + 4 + Self::items_size(items);
        let mut buffer = Vec::with_capacity(total_size);
        push_le_u32(&mut buffer, items.len() as u32);
        push_le_u32(&mut buffer, 0);
        Self::write_items(items, &mut buffer);
        buffer
    }
}

/// The bytes of a prefix of `items` are no more than the bytes of all of them.
proof fn lemma_encodings_prefix_len<T: BinarySerialize>(items: Seq<T>, k: int)
    requires
        0 <= k <= items.len(),
    ensures
        encodings(items.take(k)).len() <= encodings(items).len(),
    decreases items.len() - k,
{
    if k < items.len() {
        lemma_encodings_prefix_len(items, k + 1);
        lemma_encodings_push(items.take(k), items[k]);
        assert(items.take(k).push(items[k]) =~= items.take(k + 1));
    } else {
        assert(items.take(k) =~= items);
    }
}

impl<T: BinaryDeserialize> ProtocolCodec<T> {
    /// Decodes a versioned frame.
    pub fn decode(&self, buffer: &[u8]) -> (r: Result<DecodedMessage<T>, DecodeError>)
        requires
            buffer@.len() + T::encoded_size() <= usize::MAX,
        ensures
            decoded_view(r) == decode_frame::<T>(self.spec_version(), buffer@),
    {
        if buffer.len() < 9 {
            return Err(DecodeError::BufferTooShort { expected: 9, actual: buffer.len() });
        }
        let version = buffer[0];
        if version != self.version {
            let mut msg = String::from_str("Version mismatch: expected ");
            msg.append(decimal_string(self.version as usize).as_str());
            msg.append(", got ");
            msg.append(decimal_string(version as usize).as_str());
            proof {
                reveal_strlit("Version mismatch: expected ");
                reveal_strlit(", got ");
            }
            return Err(DecodeError::InvalidData(msg));
        }
        let count = read_le_u32(buffer, 1) as usize;
        let timestamp = read_le_u32(buffer, 5);
        let mut items: Vec<T> = Vec::new();
        let mut offset: usize = 9;
        let mut i: usize = 0;
        while i < count
            invariant
                i <= count,
                count == le_value(buffer@.subrange(1, 5)),
                buffer@.len() >= 9,
                buffer@[0] == self.spec_version(),
                version == buffer@[0],
                timestamp == le_value(buffer@.subrange(5, 9)),
                buffer@.len() + T::encoded_size() <= usize::MAX,
                offset == item_offset::<T>(i as nat),
                offset <= buffer@.len(),
                decode_items::<T>(buffer@, i as nat) == Ok::<Seq<T>, DecodeErrorView>(items@),
            decreases count - i,
        {
            let size = T::byte_size();
            match T::read_from(buffer, offset) {
                Ok(item) => {
                    items.push(item);
                    proof {
                        assert(decode_items::<T>(buffer@, (i + 1) as nat) == Ok::<Seq<T>, DecodeErrorView>(items@));
                        assert((i + 1) * size == i * size + size) by (nonlinear_arith);
                    }
                    offset = offset + size;
                    i += 1;
                },
                Err(e) => {
                    proof {
                        assert(decode_items::<T>(buffer@, (i + 1) as nat) == Err::<Seq<T>, DecodeErrorView>(e@));
                        lemma_decode_items_err_persists::<T>(buffer@, (i + 1) as nat, count as nat);
                    }
                    return Err(e);
                },
            }
        }
        Ok(DecodedMessage { version, timestamp, items })
    }
}

/// Among items that are all written with `size` bytes, bytes `k * size` up to
/// `(k + 1) * size` of their encodings are those of item `k`.
proof fn lemma_encodings_slot<T: BinarySerialize>(items: Seq<T>, size: nat, k: int)
    requires
        forall|i: int| 0 <= i < items.len() ==> (#[trigger] items[i]).encoding().len() == size,
        0 <= k < items.len(),
    ensures
        encodings(items).subrange(k * size, (k + 1) * size) == items[k].encoding(),
    decreases items.len(),
{
    let n = items.len() as int;
    let pre = items.drop_last();
    assert forall|i: int| 0 <= i < pre.len() implies (#[trigger] pre[i]).encoding().len() == size by {
        assert(pre[i] == items[i]);
    }
    lemma_encodings_len(pre, size);
    assert(items.last() == items[n - 1]);
    assert(encodings(items) == encodings(pre) + items.last().encoding());
    assert(pre.len() == n - 1);
    assert(encodings(pre).len() == (n - 1) * size);
    assert((k + 1) * size == k * size + size) by (nonlinear_arith);
    if k < n - 1 {
        lemma_encodings_slot(pre, size, k);
        assert((k + 1) * size <= (n - 1) * size) by (nonlinear_arith)
            requires
                k + 1 <= n - 1,
        ;
        assert(0 <= k * size) by (nonlinear_arith)
            requires
                0 <= k,
        ;
        assert(encodings(items).subrange(k * size, (k + 1) * size) =~= encodings(pre).subrange(
            k * size,
            (k + 1) * size,
        ));
    } else {
        assert((k + 1) * size == k * size + size) by (nonlinear_arith);
        assert(encodings(items).subrange(k * size, (k + 1) * size) =~= items.last().encoding());
    }
}

/// Reading `k` items out of a versioned frame gives its first `k` items.
proof fn lemma_decode_items_of_frame<T: BinarySerialize + BinaryDeserialize>(
    version: u8,
    items: Seq<T>,
    timestamp: u32,
    k: nat,
)
    requires
        reads_back_writes::<T>(),
        k <= items.len(),
    ensures
        decode_items::<T>(versioned_frame(version, items, timestamp), k) == Ok::<Seq<T>, DecodeErrorView>(
            items.take(k as int),
        ),
    decreases k,
{
    if k > 0 {
        lemma_decode_items_of_frame(version, items, timestamp, (k - 1) as nat);
        let buf = versioned_frame(version, items, timestamp);
        let size = T::encoded_size();
        let j = k - 1;
        assert forall|i: int| 0 <= i < items.len() implies (#[trigger] items[i]).encoding().len() == size by {
            assert(items[i].encoding().len() == size);
        }
        lemma_encodings_len(items, size);
        lemma_le_roundtrip(items.len() as u32);
        lemma_le_roundtrip(timestamp);
        lemma_encodings_slot(items, size, j);
        let header = seq![version] + le_bytes(items.len() as u32) + le_bytes(timestamp);
        assert(header.len() == 9);
        assert(buf == header + encodings(items));
        assert(k * size <= items.len() * size) by (nonlinear_arith)
            requires
                k <= items.len(),
        ;
        assert(j * size + size == k * size) by (nonlinear_arith)
            requires
                j == k - 1,
        ;
        assert(0 <= j * size) by (nonlinear_arith)
            requires
                0 <= j,
        ;
        assert(buf.subrange(item_offset::<T>(j as nat) as int, (item_offset::<T>(j as nat) + size) as int)
            =~= encodings(items).subrange(j * size, (j + 1) * size));
        assert(items[j].encoding() == items[j].encoding());
        assert(items.take(j).push(items[j]) =~= items.take(k as int));
    } else {
        assert(items.take(0) =~= Seq::<T>::empty());
    }
}

/// Decoding a versioned frame with the codec version it was written with gives
/// back that version, the timestamp and all the items.
pub proof fn lemma_decode_reads_back_encode<T: BinarySerialize + BinaryDeserialize>(
    version: u8,
    items: Seq<T>,
    timestamp: u32,
)
    requires
        reads_back_writes::<T>(),
        items.len() <= u32::MAX,
    ensures
        decode_frame::<T>(version, versioned_frame(version, items, timestamp)) == Ok::<
            (u8, u32, Seq<T>),
            DecodeErrorView,
        >((version, timestamp, items)),
{
    let buf = versioned_frame(version, items, timestamp);
    lemma_le_roundtrip(items.len() as u32);
    lemma_le_roundtrip(timestamp);
    assert(buf.subrange(1, 5) =~= le_bytes(items.len() as u32));
    assert(buf.subrange(5, 9) =~= le_bytes(timestamp));
    lemma_decode_items_of_frame(version, items, timestamp, items.len());
    assert(items.take(items.len() as int) =~= items);
}

/// A versioned frame is nine header bytes plus `size` bytes per item, and the
/// legacy frame of the same items is eight header bytes plus the same items.
pub proof fn lemma_frame_sizes<T: BinarySerialize + BinaryDeserialize>(version: u8, items: Seq<T>, timestamp: u32)
    requires
        reads_back_writes::<T>(),
    ensures
        versioned_frame(version, items, timestamp).len() == 9 + items.len() * T::encoded_size(),
        legacy_frame(items).len() == 8 + items.len() * T::encoded_size(),
{
    assert forall|i: int| 0 <= i < items.len() implies (#[trigger] items[i]).encoding().len() == T::encoded_size() by {
        assert(items[i].encoding().len() == T::encoded_size());
    }
    lemma_encodings_len(items, T::encoded_size());
}

/// A codec rejects a frame written with another version, and names both versions.
pub proof fn lemma_other_version_rejected<T: BinarySerialize + BinaryDeserialize>(
    written: u8,
    expected: u8,
    items: Seq<T>,
    timestamp: u32,
)
    requires
        written != expected,
    ensures
        decode_frame::<T>(expected, versioned_frame(written, items, timestamp)) == Err::<
            (u8, u32, Seq<T>),
            DecodeErrorView,
        >(DecodeErrorView::InvalidData(version_mismatch(expected, written))),
{
    let buf = versioned_frame(written, items, timestamp);
    assert(buf[0] == written);
}

/// The legacy frame is the versioned frame with a zero timestamp and without
/// its version byte.
pub proof fn lemma_legacy_drops_version_byte<T: BinarySerialize>(version: u8, items: Seq<T>)
    ensures
        legacy_frame(items) == versioned_frame(version, items, 0).subrange(
            1,
            versioned_frame(version, items, 0).len() as int,
        ),
{
    let v = versioned_frame(version, items, 0);
    assert(legacy_frame(items) =~= v.subrange(1, v.len() as int));
}

} // verus!
