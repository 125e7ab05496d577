//! Components built from raw bytes and a runtime type identifier.
use vstd::prelude::*;

use crate::byte_holder::{ByteHolder, PlainData};

verus! {

/// One component held as raw bytes, for a type known only by its identifier.
pub struct RawComponentHolder {
    pub val: ByteHolder,
    pub type_id: u64,
}

impl RawComponentHolder {
    /// A holder of `val` as the component of type `type_id`.
    pub fn new(val: ByteHolder, type_id: u64) -> (r: RawComponentHolder)
        ensures
            r.val == val,
            r.type_id == type_id,
    {
        RawComponentHolder { val, type_id }
    }

    /// The held bytes read as a `T`, the type whose identifier is `type_id`:
    /// nothing when the held component is of another type or its bytes do not
    /// encode a `T`.
    pub fn get<T: PlainData>(&self, type_id: u64) -> (r: Option<T>)
        ensures
            r.is_some() == (self.type_id == type_id && T::spec_decodable(self.val.bytes@)),
            r.is_some() ==> r.unwrap().spec_encode() == self.val.bytes@,
    {
        if self.type_id == type_id && T::decodable(self.val.bytes.as_slice()) {
            Some(self.val.downcast_ref())
        } else {
            None
        }
    }
}

} // verus!
