//! Components built from a value of a statically known type.
use vstd::prelude::*;

use crate::byte_holder::{ByteHolder, PlainData};

verus! {

/// One component captured from a typed value, under the type identifier that
/// the caller gives that type.
pub struct TypedComponentHolder {
    pub type_id: u64,
    pub val: ByteHolder,
}

impl TypedComponentHolder {
    /// A holder of the bytes of `val` as the component of type `type_id`.
    pub fn new<T: PlainData>(type_id: u64, val: T) -> (r: TypedComponentHolder)
        ensures
            r.type_id == type_id,
            r.val.wf(),
            r.val.bytes@ == val.spec_encode(),
    {
        TypedComponentHolder { type_id, val: ByteHolder::from_ref(&val) }
    }
}

} // verus!
