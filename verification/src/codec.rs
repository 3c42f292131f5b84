//! The codec boundary: converts a caller-typed value to an opaque byte
//! sequence and back, through a self-describing binary format.
//!
//! Encoding is infallible by contract (a failure aborts: it would mean the
//! format library itself is defective); decoding is the expected,
//! caller-triggerable failure mode, since the caller picks the target type.

use crate::error::{Error, ErrorKind};
use vstd::prelude::*;

verus! {

/// Serializes a value into the store's internal byte representation.
///
/// Relies on `rmp_serde::to_vec`: encodes any `Serialize` value into the
/// self-describing MessagePack binary format. The result depends on the
/// caller-supplied `Serialize` implementation, so nothing more is claimed of
/// it here; a failure of the format library aborts rather than returning.
#[verifier::external_body]
pub fn convert_into_data_type<T: serde::Serialize>(data: &T) -> Vec<u8> {
    rmp_serde::to_vec(data).unwrap()
}

/// Relies on `rmp_serde::from_slice`: decodes MessagePack bytes into any
/// deserializable type, reporting `None` when the bytes do not describe a
/// value of that type. The outcome depends on the caller-supplied
/// `Deserialize` implementation, so nothing more is claimed of it here.
#[verifier::external_body]
fn decode_data_type<T: serde::de::DeserializeOwned>(bytes: &[u8]) -> Option<T> {
    rmp_serde::from_slice(bytes).ok()
}

/// Attempts to interpret stored bytes as a concrete type; surfaces
/// `TypeMismatch` when the bytes cannot be read back as that type.
pub fn rebuild_from_data_type<T: serde::de::DeserializeOwned>(bytes: &[u8]) -> (r: Result<
    T,
    Error,
>)
    ensures
        r is Err ==> r->Err_0.kind == ErrorKind::TypeMismatch,
{
    match decode_data_type::<T>(bytes) {
        Some(v) => Ok(v),
        None => Err(
            Error::new(ErrorKind::TypeMismatch, "could not convert data to requested type"),
        ),
    }
}

} // verus!
