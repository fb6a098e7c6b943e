//! Verified core of the thermokarst toolkit: the binary state protocol, the
//! fold splitting used for cross-validation, and the integer parts of the image
//! analysis (connected regions of a mask, their centres and bounding boxes).

pub mod bytes;
pub mod text;
pub mod traits;
pub mod encoder;
pub mod codec;
pub mod validation;
pub mod regions;
pub mod detection;
pub mod satellite;

pub use codec::{DecodedMessage, ProtocolCodec};
pub use encoder::{BinaryEncoder, EntityState, ENTITY_SIZE, HEADER_SIZE};
pub use traits::{BinaryDeserialize, BinarySerialize, DecodeError};
