//! The mathematical model of a value whose static type has been forgotten.
use vstd::prelude::*;

verus! {

/// Marker for what can be erased: every type without borrowed data.
pub trait Erasable {
}

impl<T: 'static> Erasable for T {
}

/// A value together with its concrete type, seen as one object of a single
/// type. Two erased values are equal when they were made from equal values of
/// the same type.
pub struct Erased {
    pub content: Box<dyn Erasable>,
}

/// The erased form of `v`.
pub open spec fn erase<T: 'static>(v: T) -> Erased {
    Erased { content: Box::new(v) }
}

/// `e` was made from a value of type `T`.
pub open spec fn holds_type<T: 'static>(e: Erased) -> bool {
    exists|w: T| #[trigger] erase(w) == e
}

/// `e` is the erased form of `v`, and of no other value of type `T`.
pub open spec fn is_value<T: 'static>(e: Erased, v: T) -> bool {
    forall|w: T| #[trigger] erase(w) == e <==> w == v
}

/// The value that `e` was made from, if that value has type `T`.
pub open spec fn downcast<T: 'static>(e: Erased) -> Option<T> {
    if holds_type::<T>(e) {
        Some(choose|w: T| #[trigger] erase(w) == e)
    } else {
        None
    }
}

/// No erased value is the form of a `T` and of a `U` at once: the two are
/// different types.
pub open spec fn distinct_types<T: 'static, U: 'static>() -> bool {
    forall|t: T, u: U| #[trigger] erase(t) != #[trigger] erase(u)
}

/// An erased value that is the form of exactly `v` holds type `T`, and its
/// downcast to `T` is `v`.
pub proof fn lemma_is_value_downcast<T: 'static>(e: Erased, v: T)
    requires
        is_value(e, v),
    ensures
        e == erase(v),
        holds_type::<T>(e),
        downcast::<T>(e) == Some(v),
{
    assert(erase(v) == e);
}

} // verus!
