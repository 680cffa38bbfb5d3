//! Dynamic, type-erased key-value objects.
//!
//! An [`Object`] maps string keys to values of any type. The type of a value is
//! forgotten when it is stored and checked again when it is read: a typed read
//! succeeds exactly when the stored value has the requested type.
//!
//! The crate is verified with Verus. Contracts speak of an object through its
//! view, a map from keys to [`Erased`] values.
pub mod any_type;
pub mod erased;
pub mod key_order;
pub mod laws;
pub mod object;

pub use any_type::{
    raw_mut_target, raw_mut_target_at_end, raw_ref_target, AnyRef, AnyType, Castable, RawMut, RawRef,
    Relation,
};
pub use object::Object;
pub use erased::{distinct_types, downcast, erase, holds_type, is_value, Erasable, Erased};
