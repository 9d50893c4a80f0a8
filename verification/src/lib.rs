//! Loom Canonical CBOR, the deterministic, content-addressed codec, with its profile stated as
//! mathematics and both directions proved against it; the columnar facet's dataset layout,
//! schema and records; and the in-process client's pure helpers for settings patches, ticket
//! change lists, lane placement and transfer chunking.

pub mod value;
pub mod spec;
pub mod encode;
pub mod decode;
pub mod lemmas;
pub mod canonical;
pub mod roundtrip;
pub mod identity;
pub mod normalize;
pub mod truncation;
pub mod laws;
pub mod error;
pub mod columnar;
pub mod cbor;
pub mod segments;
pub mod columnar_set;
pub mod columnar_records;
pub mod client;
pub mod settings;
pub mod tickets;

pub use crate::decode::{decode, decode_object, Reader};
pub use crate::encode::{encode, encode_object, put_head};
pub use crate::value::{CodecError, Value, EPOCH, MAX_DEPTH};
