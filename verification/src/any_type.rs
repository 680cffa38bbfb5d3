//! The type-erased value cell: a trait object that can be cast back to its
//! concrete type, compared with another cell and debug-printed.
use crate::erased::{downcast, erase, holds_type, is_value, lemma_is_value_downcast, Erased};
use core::any::Any;
use core::cmp::Ordering;
use core::fmt::{Debug, Formatter};
use vstd::prelude::*;
use vstd::std_specs::cmp::{PartialEqSpecImpl, PartialOrdSpec, PartialOrdSpecImpl};

verus! {

/// `core::fmt::Formatter`, the sink of the standard library's formatting
/// traits. It is carried through and never looked into.
#[verifier::external_type_specification]
#[verifier::external_body]
pub struct ExFormatter<'a>(Formatter<'a>);

/// `core::fmt::Error`, the error of the standard library's formatting traits.
#[verifier::external_type_specification]
#[verifier::external_body]
pub struct ExFmtError(core::fmt::Error);

/// A shared borrow of a value as `dyn core::any::Any`. What is known of it is
/// which value it borrows: see `raw_ref_target`.
#[verifier::external_body]
pub struct RawRef<'a> {
    inner: &'a dyn Any,
}

/// A mutable borrow of a value as `dyn core::any::Any`. What is known of it is
/// which value it borrows and what that value is when the borrow ends: see
/// `raw_mut_target` and `raw_mut_target_at_end`.
#[verifier::external_body]
pub struct RawMut<'a> {
    inner: &'a mut dyn Any,
}

/// The value that the handle borrows, with its type forgotten.
pub uninterp spec fn raw_ref_target(h: RawRef) -> Erased;

/// The value that the handle borrows, as it is when the handle is made, with
/// its type forgotten.
pub uninterp spec fn raw_mut_target(h: RawMut) -> Erased;

/// The value that the handle borrows, as it is when the borrow ends, with its
/// type forgotten.
pub uninterp spec fn raw_mut_target_at_end(h: RawMut) -> Erased;

/// Borrows `v` as `dyn Any`, by the unsizing coercion of the language: the
/// handle borrows `v` itself.
#[verifier::external_body]
fn raw_ref<T: 'static>(v: &T) -> (r: RawRef<'_>)
    ensures
        raw_ref_target(r) == erase(*v),
{
    RawRef { inner: v }
}

/// Borrows `v` mutably as `dyn Any`, by the unsizing coercion of the language:
/// the handle borrows `v` itself, and `v` ends as what the handle's value ends
/// as.
#[verifier::external_body]
fn raw_mut<T: 'static>(v: &mut T) -> (r: RawMut<'_>)
    ensures
        raw_mut_target(r) == erase(*old(v)),
        raw_mut_target_at_end(r) == erase(*final(v)),
{
    RawMut { inner: v }
}

/// Calls `<dyn Any>::downcast_ref::<T>`. The standard library returns the
/// reference if the value is of type `T` and `None` if it is not. Over the
/// model: `Some(v)` means that the borrowed value is the erased form of `v` and
/// of no other `T`, `None` that it is the erased form of no `T`.
#[verifier::external_body]
fn cast_ref<'a, T: 'static>(h: RawRef<'a>) -> (r: Option<&'a T>)
    ensures
        match r {
            Some(v) => is_value(raw_ref_target(h), *v),
            None => !holds_type::<T>(raw_ref_target(h)),
        },
{
    h.inner.downcast_ref::<T>()
}

/// Calls `<dyn Any>::downcast_mut::<T>`. As `cast_ref`; in addition the
/// borrowed value ends as what the returned reference ends as, and it ends as
/// it was where `None` is returned.
#[verifier::external_body]
fn cast_mut<'a, T: 'static>(h: RawMut<'a>) -> (r: Option<&'a mut T>)
    ensures
        match r {
            Some(v) => is_value(raw_mut_target(h), *v) && raw_mut_target_at_end(h) == erase(
                *final(v),
            ),
            None => !holds_type::<T>(raw_mut_target(h)) && raw_mut_target_at_end(h)
                == raw_mut_target(h),
        },
{
    h.inner.downcast_mut::<T>()
}

/// A value that can be cast back to its concrete type.
///
/// Every type that owns its data is one: the implementation below covers them
/// all, and no other can be written.
pub trait Castable: 'static {
    /// The value with its type forgotten.
    spec fn erased(&self) -> Erased;

    /// Borrows the value for a cast by its run-time type: the handle borrows
    /// this value.
    fn raw(&self) -> (r: RawRef<'_>)
        ensures
            raw_ref_target(r) == self.erased(),
    ;
}

impl<T: 'static> Castable for T {
    open spec fn erased(&self) -> Erased {
        erase(*self)
    }

    fn raw(&self) -> (r: RawRef<'_>) {
        raw_ref(self)
    }
}

/// Calls `<T as Debug>::fmt`: writes the debug text of `v` to `f`.
#[verifier::external_body]
fn debug_fmt<T: Debug>(v: &T, f: &mut Formatter<'_>) -> Result<(), core::fmt::Error> {
    Debug::fmt(v, f)
}

/// A shared borrow of a value whose type is known only at run time.
#[derive(Clone, Copy)]
pub struct AnyRef<'a> {
    target: &'a dyn Castable,
}

impl<'a> AnyRef<'a> {
    /// The borrowed value with its type forgotten.
    pub closed spec fn erased(&self) -> Erased {
        self.target.erased()
    }

    /// The borrowed value, if it is of type `T`.
    pub fn downcast_ref<T: 'static>(self) -> (r: Option<&'a T>)
        ensures
            match r {
                Some(v) => is_value(self.erased(), *v),
                None => !holds_type::<T>(self.erased()),
            },
    {
        cast_ref::<T>(self.target.raw())
    }
}

/// How one value stands to another of the same type.
#[derive(Clone, Copy, Debug, PartialEq, Eq, Structural)]
pub enum Relation {
    Less,
    Equal,
    Greater,
}

/// The relation that an ordering of the standard library stands for.
pub open spec fn relation_of(o: Option<Ordering>) -> Option<Relation> {
    match o {
        Some(Ordering::Less) => Some(Relation::Less),
        Some(Ordering::Equal) => Some(Relation::Equal),
        Some(Ordering::Greater) => Some(Relation::Greater),
        None => None,
    }
}

/// The ordering of the standard library that a relation stands for.
pub open spec fn ordering_of(r: Option<Relation>) -> Option<Ordering> {
    match r {
        Some(Relation::Less) => Some(Ordering::Less),
        Some(Relation::Equal) => Some(Ordering::Equal),
        Some(Relation::Greater) => Some(Ordering::Greater),
        None => None,
    }
}

/// Turns an ordering of the standard library into a relation.
fn relation_from(o: Option<Ordering>) -> (r: Option<Relation>)
    ensures
        r == relation_of(o),
{
    match o {
        Some(Ordering::Less) => Some(Relation::Less),
        Some(Ordering::Equal) => Some(Relation::Equal),
        Some(Ordering::Greater) => Some(Relation::Greater),
        None => None,
    }
}

/// Turns a relation into an ordering of the standard library.
fn ordering_from(r: Option<Relation>) -> (o: Option<Ordering>)
    ensures
        o == ordering_of(r),
{
    match r {
        Some(Relation::Less) => Some(Ordering::Less),
        Some(Relation::Equal) => Some(Ordering::Equal),
        Some(Relation::Greater) => Some(Ordering::Greater),
        None => None,
    }
}

/// A value that can be stored with its type erased.
///
/// Every type that owns its data, can be compared with itself and can be
/// debug-printed is one: the implementation below covers them all, and no other
/// can be written.
pub trait AnyType: 'static {
    /// The value with its type forgotten.
    spec fn erased(&self) -> Erased;

    /// `other` was made from a value of the type of `self`.
    spec fn same_type_as(&self, other: Erased) -> bool;

    /// The comparison of the type of `self` follows its specification.
    spec fn ordering_specified(&self) -> bool;

    /// How `self` stands to `other` by the specification of its type's
    /// comparison; `None` where `other` is of another type.
    spec fn relation_to(&self, other: Erased) -> Option<Relation>;

    /// `r` is what the comparison of the type of `self` may return for `self`
    /// and the value that `other` was made from; `None` where `other` is of
    /// another type.
    spec fn compares_to(&self, other: Erased, r: Option<Relation>) -> bool;

    /// The erased form of a value is `erase` of it.
    proof fn erased_is_erase(&self) where Self: Sized
        ensures
            self.erased() == erase(*self),
    ;

    /// Borrows the value with its type known only at run time.
    fn as_any(&self) -> (r: AnyRef<'_>)
        ensures
            r.erased() == self.erased(),
    ;

    /// Borrows the value mutably for a cast by its run-time type: the handle
    /// borrows this value, which ends as what the handle's value ends as.
    fn as_any_mut(&mut self) -> (r: RawMut<'_>)
        ensures
            raw_mut_target(r) == (*old(self)).erased(),
            raw_mut_target_at_end(r) == (*final(self)).erased(),
    ;

    /// Compares `self` with another erased value: by the comparison of their
    /// type where both are of one type, and as unrelated where they are not.
    fn dyn_cmp(&self, other: AnyRef<'_>) -> (r: Option<Relation>)
        ensures
            self.compares_to(other.erased(), r),
            !self.same_type_as(other.erased()) ==> r is None,
            self.ordering_specified() ==> r == self.relation_to(other.erased()),
    ;

    /// Writes the debug text of the value to `f`.
    fn dyn_debug(&self, f: &mut Formatter<'_>) -> Result<(), core::fmt::Error>;
}

impl<T: 'static + Debug + PartialOrd> AnyType for T {
    open spec fn erased(&self) -> Erased {
        erase(*self)
    }

    open spec fn same_type_as(&self, other: Erased) -> bool {
        holds_type::<T>(other)
    }

    open spec fn ordering_specified(&self) -> bool {
        T::obeys_partial_cmp_spec()
    }

    open spec fn relation_to(&self, other: Erased) -> Option<Relation> {
        match downcast::<T>(other) {
            Some(o) => relation_of(self.partial_cmp_spec(&o)),
            None => None,
        }
    }

    open spec fn compares_to(&self, other: Erased, r: Option<Relation>) -> bool {
        match downcast::<T>(other) {
            Some(o) => exists|native: Option<Ordering>| #[trigger]
                call_ensures(T::partial_cmp, (self, &o), native) && r == relation_of(native),
            None => r is None,
        }
    }

    proof fn erased_is_erase(&self) {
    }

    fn as_any(&self) -> (r: AnyRef<'_>) {
        AnyRef { target: self }
    }

    fn as_any_mut(&mut self) -> (r: RawMut<'_>) {
        raw_mut(self)
    }

    fn dyn_cmp(&self, other: AnyRef<'_>) -> (r: Option<Relation>) {
        match other.downcast_ref::<T>() {
            Some(o) => {
                proof {
                    lemma_is_value_downcast(other.erased(), *o);
                }
                relation_from(self.partial_cmp(o))
            },
            None => None,
        }
    }

    fn dyn_debug(&self, f: &mut Formatter<'_>) -> Result<(), core::fmt::Error> {
        debug_fmt(self, f)
    }
}

impl dyn AnyType {
    /// The stored value, if it is of type `T`.
    pub fn downcast_ref<T: 'static>(&self) -> (r: Option<&T>)
        ensures
            match r {
                Some(v) => is_value(self.erased(), *v),
                None => !holds_type::<T>(self.erased()),
            },
    {
        self.as_any().downcast_ref::<T>()
    }

    /// The stored value, mutably, if it is of type `T`. What the caller writes
    /// through the reference is what the cell then holds.
    pub fn downcast_mut<T: 'static>(&mut self) -> (r: Option<&mut T>)
        ensures
            match r {
                Some(v) => is_value((*old(self)).erased(), *v) && (*final(self)).erased() == erase(
                    *final(v),
                ),
                None => !holds_type::<T>((*old(self)).erased()) && (*final(self)).erased() == (*old(
                    self,
                )).erased(),
            },
    {
        cast_mut::<T>(self.as_any_mut())
    }
}

impl PartialEq for dyn AnyType + '_ {
    /// Two cells are equal when they are comparable and compare as equal.
    fn eq(&self, other: &Self) -> (r: bool)
        ensures
            exists|found: Option<Relation>| #[trigger]
                self.compares_to(other.erased(), found) && r == (found == Some(Relation::Equal)),
            r ==> self.same_type_as(other.erased()),
            self.ordering_specified() ==> r == (self.relation_to(other.erased()) == Some(
                Relation::Equal,
            )),
    {
        match self.dyn_cmp(other.as_any()) {
            Some(Relation::Equal) => true,
            _ => false,
        }
    }
}

impl PartialEqSpecImpl for dyn AnyType + '_ {
    /// Whether `==` follows `eq_spec` depends on the type of the stored value:
    /// what `==` returns is stated at `eq`.
    open spec fn obeys_eq_spec() -> bool {
        false
    }

    /// The cells compare as equal by the specification of their type.
    open spec fn eq_spec(&self, other: &Self) -> bool {
        self.relation_to(other.erased()) == Some(Relation::Equal)
    }
}

impl PartialOrd for dyn AnyType + '_ {
    /// The comparison of two cells: that of their type where both hold one
    /// type, none where they do not.
    fn partial_cmp(&self, other: &Self) -> (r: Option<Ordering>)
        ensures
            self.compares_to(other.erased(), relation_of(r)),
            !self.same_type_as(other.erased()) ==> r is None,
            self.ordering_specified() ==> r == ordering_of(self.relation_to(other.erased())),
    {
        ordering_from(self.dyn_cmp(other.as_any()))
    }
}

impl PartialOrdSpecImpl for dyn AnyType + '_ {
    /// Whether the comparison follows `partial_cmp_spec` depends on the type of
    /// the stored value: what it returns is stated at `partial_cmp`.
    open spec fn obeys_partial_cmp_spec() -> bool {
        false
    }

    /// How the cells stand by the specification of their type.
    open spec fn partial_cmp_spec(&self, other: &Self) -> Option<Ordering> {
        ordering_of(self.relation_to(other.erased()))
    }
}

impl Debug for dyn AnyType + '_ {
    /// The debug text of a cell is that of its value.
    fn fmt(&self, f: &mut Formatter<'_>) -> Result<(), core::fmt::Error> {
        self.dyn_debug(f)
    }
}

} // verus!
