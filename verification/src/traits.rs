//! The two traits through which a type joins the binary protocol, and the
//! error that decoding reports.

use vstd::prelude::*;
use crate::text::{decimal, decimal_string};

verus! {

/// Why a buffer could not be decoded.
#[derive(Debug, Clone, PartialEq)]
pub enum DecodeError {
    /// The buffer holds fewer bytes than the data needs.
    BufferTooShort {
        /// The number of bytes the data needs.
        expected: usize,
        /// The number of bytes the buffer holds.
        actual: usize,
    },
    /// The bytes do not describe a valid value.
    InvalidData(String),
}

/// What a `DecodeError` says: its variant and the numbers or text it carries.
pub enum DecodeErrorView {
    BufferTooShort { expected: nat, actual: nat },
    InvalidData(Seq<char>),
}

impl View for DecodeError {
    type V = DecodeErrorView;

    open spec fn view(&self) -> DecodeErrorView {
        match self {
            DecodeError::BufferTooShort { expected, actual } => DecodeErrorView::BufferTooShort {
                expected: *expected as nat,
                actual: *actual as nat,
            },
            DecodeError::InvalidData(msg) => DecodeErrorView::InvalidData(msg@),
        }
    }
}

/// A decoding result with its error taken by its view.
pub open spec fn result_view<T>(r: Result<T, DecodeError>) -> Result<T, DecodeErrorView> {
    match r {
        Ok(v) => Ok(v),
        Err(e) => Err(e@),
    }
}

/// The text of a `DecodeError`, as it is shown to users.
pub open spec fn error_message(e: DecodeErrorView) -> Seq<char> {
    match e {
        DecodeErrorView::BufferTooShort { expected, actual } => "Buffer too short: expected at least "@
            + decimal(expected) + " bytes, got "@ + decimal(actual),
        DecodeErrorView::InvalidData(msg) => "Invalid data: "@ + msg,
    }
}

impl DecodeError {
    /// The text of this error, as it is shown to users.
    pub fn to_string(&self) -> (s: String)
        ensures
            s@ == error_message(self@),
    {
        match self {
            DecodeError::BufferTooShort { expected, actual } => {
                let mut s = String::from_str("Buffer too short: expected at least ");
                s.append(decimal_string(*expected).as_str());
                s.append(" bytes, got ");
                s.append(decimal_string(*actual).as_str());
                s
            },
            DecodeError::InvalidData(msg) => {
                let mut s = String::from_str("Invalid data: ");
                s.append(msg.as_str());
                s
            },
        }
    }
}

/// A type whose values can be written into a byte buffer.
///
/// Multi-byte numbers are written least significant byte first, and
/// `byte_size` is the number of bytes that `write_to` appends.
///
/// The spec functions of this trait and of `BinaryDeserialize` have closed
/// default bodies so that types implemented in ordinary Rust, outside
/// verification, need not give them; generic code never sees those defaults,
/// and every verified implementation defines its own.
pub trait BinarySerialize {
    /// The bytes that `write_to` appends for this value.
    closed spec fn encoding(&self) -> Seq<u8> {
        Seq::empty()
    }

    /// Appends the encoding of this value to `buffer`.
    fn write_to(&self, buffer: &mut Vec<u8>)
        ensures
            final(buffer)@ == old(buffer)@ + self.encoding(),
    ;

    /// The number of bytes that `write_to` appends.
    fn byte_size(&self) -> (n: usize)
        ensures
            n == self.encoding().len(),
    ;
}

/// A type whose values can be read back from a byte buffer.
///
/// Every value occupies the same number of bytes, `byte_size()`, and
/// `read_from` checks that the buffer holds them before it reads.
pub trait BinaryDeserialize: Sized {
    /// The number of bytes one value occupies.
    closed spec fn encoded_size() -> nat {
        0
    }

    /// The value held by exactly `encoded_size()` bytes, or why they hold none.
    closed spec fn parse(bytes: Seq<u8>) -> Result<Self, DecodeErrorView> {
        Err(DecodeErrorView::InvalidData(Seq::empty()))
    }

    /// Reads the value that starts at `offset` in `buffer`.
    fn read_from(buffer: &[u8], offset: usize) -> (r: Result<Self, DecodeError>)
        requires
            offset + Self::encoded_size() <= usize::MAX,
        ensures
            buffer@.len() < offset + Self::encoded_size() ==> result_view(r) == Err::<Self, DecodeErrorView>(
                DecodeErrorView::BufferTooShort {
                    expected: (offset + Self::encoded_size()) as nat,
                    actual: buffer@.len(),
                },
            ),
            buffer@.len() >= offset + Self::encoded_size() ==> result_view(r) == Self::parse(
                buffer@.subrange(offset as int, offset + Self::encoded_size()),
            ),
    ;

    /// The number of bytes one value occupies.
    fn byte_size() -> (n: usize)
        ensures
            n == Self::encoded_size(),
    ;
}

/// What reading a `T` at `offset` of `buf` gives: an error when the buffer
/// ends too early, else the value held by the bytes from `offset` on.
pub open spec fn read_at<T: BinaryDeserialize>(buf: Seq<u8>, offset: nat) -> Result<T, DecodeErrorView> {
    if buf.len() < offset + T::encoded_size() {
        Err(DecodeErrorView::BufferTooShort { expected: offset + T::encoded_size(), actual: buf.len() })
    } else {
        T::parse(buf.subrange(offset as int, (offset + T::encoded_size()) as int))
    }
}

/// `T` reads back every value that it writes.
pub open spec fn reads_back_writes<T: BinarySerialize + BinaryDeserialize>() -> bool {
    forall|v: T|
        #![trigger v.encoding()]
        v.encoding().len() == T::encoded_size() && T::parse(v.encoding()) == Ok::<T, DecodeErrorView>(v)
}

/// The bytes of `items` written one after another.
pub open spec fn encodings<T: BinarySerialize>(items: Seq<T>) -> Seq<u8>
    decreases items.len(),
{
    if items.len() == 0 {
        Seq::empty()
    } else {
        encodings(items.drop_last()) + items.last().encoding()
    }
}

/// Appending one item appends its encoding.
pub proof fn lemma_encodings_push<T: BinarySerialize>(items: Seq<T>, v: T)
    ensures
        encodings(items.push(v)) == encodings(items) + v.encoding(),
{
    assert(items.push(v).drop_last() =~= items);
}

/// When every item is written with `size` bytes, `n` items take `n * size` bytes.
pub proof fn lemma_encodings_len<T: BinarySerialize>(items: Seq<T>, size: nat)
    requires
        forall|i: int| 0 <= i < items.len() ==> (#[trigger] items[i]).encoding().len() == size,
    ensures
        encodings(items).len() == items.len() * size,
    decreases items.len(),
{
    if items.len() > 0 {
        lemma_encodings_len(items.drop_last(), size);
        assert(items.last() == items[items.len() - 1]);
        assert((items.len() - 1) * size + size == items.len() * size) by (nonlinear_arith);
    }
}

} // verus!
