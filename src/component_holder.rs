//! One component of a tree node, whichever way it was built.
use vstd::prelude::*;

use crate::byte_holder::{ByteHolder, PlainData};
use crate::raw_component_holder::RawComponentHolder;
use crate::typed_component_holder::TypedComponentHolder;

verus! {

/// A component built from a typed value or from raw bytes.
pub enum ComponentHolder {
    Raw(RawComponentHolder),
    Typed(TypedComponentHolder),
}

impl ComponentHolder {
    pub open spec fn spec_type_id(&self) -> u64 {
        match self {
            ComponentHolder::Raw(h) => h.type_id,
            ComponentHolder::Typed(h) => h.type_id,
        }
    }

    pub open spec fn spec_val(&self) -> ByteHolder {
        match self {
            ComponentHolder::Raw(h) => h.val,
            ComponentHolder::Typed(h) => h.val,
        }
    }

    pub fn type_id(&self) -> (r: u64)
        ensures
            r == self.spec_type_id(),
    {
        match self {
            ComponentHolder::Raw(h) => h.type_id,
            ComponentHolder::Typed(h) => h.type_id,
        }
    }

    /// Gives up the held value.
    pub fn into_val(self) -> (r: ByteHolder)
        ensures
            r == self.spec_val(),
    {
        match self {
            ComponentHolder::Raw(h) => h.val,
            ComponentHolder::Typed(h) => h.val,
        }
    }

    /// The held value read as a `T`, the type whose identifier is `type_id`:
    /// nothing when the component is of another type or its bytes do not
    /// encode a `T`.
    pub fn downcast_ref<T: PlainData>(&self, type_id: u64) -> (r: Option<T>)
        ensures
            r.is_some() == (self.spec_type_id() == type_id && T::spec_decodable(self.spec_val().bytes@)),
            r.is_some() ==> r.unwrap().spec_encode() == self.spec_val().bytes@,
    {
        match self {
            ComponentHolder::Raw(h) => h.get(type_id),
            ComponentHolder::Typed(h) => {
                if h.type_id == type_id && T::decodable(h.val.bytes.as_slice()) {
                    Some(h.val.downcast_ref())
                } else {
                    None
                }
            },
        }
    }
}

} // verus!
