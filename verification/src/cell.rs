//! Component values with their type erased.
use vstd::prelude::*;
use downcast_rs::{Downcast, DowncastSync};
use crate::type_info::TypeInfo;

verus! {

/// A value that can be attached to an entity: any type that can be sent to and
/// shared with other threads and that borrows nothing.
pub trait Component: Send + Sync + 'static {

}

impl<T: Send + Sync + 'static> Component for T {

}

/// A component value behind `Box<dyn DowncastSync>` of `downcast_rs`.
///
/// A boxed trait object has no name that could be declared, so the box is held
/// here and nothing is known of what is inside. Contracts speak of such a
/// box only to say which box a downcast was made of.
#[verifier::external_body]
pub struct Erased {
    value: Box<dyn DowncastSync>,
}

/// Boxes `value` as a `dyn DowncastSync`. Nothing is claimed of the box.
#[verifier::external_body]
fn erase<T: Component>(value: T) -> (erased: Erased) {
    Erased { value: Box::new(value) }
}

/// Calls `Downcast::as_any` on the boxed value and `downcast_ref::<T>` on what
/// it returns. Where the box is one that `erase` made of a value of this same
/// `T`, the downcast succeeds and gives that value. Of other boxes nothing is
/// claimed.
#[verifier::external_body]
fn erased_ref<T: Component>(erased: &Erased) -> (value: Option<&T>)
    ensures
        forall|v: T| call_ensures(erase::<T>, (v,), *erased) ==> value == Some(&v),
{
    Downcast::as_any(&*erased.value).downcast_ref::<T>()
}

/// Calls `Downcast::as_any_mut` on the boxed value and `downcast_mut::<T>` on
/// what it returns. Where the value is not a `T`, nothing is borrowed and the
/// box stays as it was. Where the box is one that `erase` made of a value of
/// this same `T`, the downcast succeeds and lends that value, and the box
/// is left as `erase` makes it of the value that the loan leaves.
#[verifier::external_body]
fn erased_mut<T: Component>(erased: &mut Erased) -> (value: Option<&mut T>)
    ensures
        value is None ==> *final(erased) == *old(erased),
        forall|v: T|
            call_ensures(erase::<T>, (v,), *old(erased)) ==> (value matches Some(lent) && *lent == v
                && call_ensures(erase::<T>, (*final(lent),), *final(erased))),
{
    Downcast::as_any_mut(&mut *erased.value).downcast_mut::<T>()
}

/// One component value together with the descriptor of its type.
pub struct Cell {
    info: TypeInfo,
    value: Erased,
}

impl Cell {
    /// The descriptor that the cell was made with.
    pub closed spec fn spec_info(&self) -> TypeInfo {
        self.info
    }

    /// The key of the cell's type.
    pub open spec fn key(&self) -> int {
        self.spec_info().key()
    }

    /// Whether the cell's box is one that was made of `value`, a `T`.
    pub closed spec fn holds<T: Component>(&self, value: T) -> bool {
        call_ensures(erase::<T>, (value,), self.value)
    }

    /// Erases `value` and keeps the descriptor of `T` beside it.
    pub fn new<T: Component>(value: T) -> (cell: Cell)
        ensures
            cell.holds(value),
            cell.spec_info().is_of::<T>(),
            cell.spec_info().spec_size() as nat == vstd::layout::size_of::<T>(),
            cell.spec_info().spec_align() as nat == vstd::layout::align_of::<T>(),
    {
        Cell { info: TypeInfo::of::<T>(), value: erase(value) }
    }

    pub fn info(&self) -> (info: TypeInfo)
        ensures
            info == self.spec_info(),
    {
        self.info
    }

    /// Whether `value` is what looking at the cell's value as a `T` gave:
    /// an outcome of the downcast of the box that the cell holds.
    pub closed spec fn seen_as<T: Component>(&self, value: Option<&T>) -> bool {
        call_ensures(erased_ref::<T>, (&self.value,), value)
    }

    /// The box that the cell holds.
    pub closed spec fn spec_value(&self) -> Erased {
        self.value
    }

    /// Whether `value` is what lending the box `erased` as a `T` gave: an
    /// outcome of the downcast of that borrow.
    pub closed spec fn lent_as<T: Component>(erased: &mut Erased, value: Option<&mut T>) -> bool {
        call_ensures(erased_mut::<T>, (erased,), value)
    }

    /// The value, if it is a `T`: what the downcast of the cell's box
    /// gives. A cell that holds a `T` gives it.
    pub fn downcast_ref<T: Component>(&self) -> (value: Option<&T>)
        ensures
            self.seen_as::<T>(value),
            forall|v: T| self.holds(v) ==> value == Some(&v),
    {
        erased_ref::<T>(&self.value)
    }

    /// The value for writing, if it is a `T`: what the downcast of a borrow
    /// of the cell's box gives. The descriptor is kept; where the value is
    /// not a `T`, so is the whole cell. A cell that holds a `T` lends it,
    /// and then holds what the loan leaves.
    pub fn downcast_mut<T: Component>(&mut self) -> (value: Option<&mut T>)
        ensures
            forall|v: T|
                old(self).holds(v) ==> (value matches Some(lent) && *lent == v && final(self).holds(
                    *final(lent),
                )),
            exists|erased: &mut Erased| #[trigger]
                Cell::lent_as::<T>(erased, value) && *erased == old(self).spec_value() && *final(erased)
                    == final(self).spec_value(),
            final(self).spec_info() == old(self).spec_info(),
            value is None ==> *final(self) == *old(self),
    {
        proof {
            assert forall|erased: &mut Erased, lent: Option<&mut T>| #[trigger]
                call_ensures(erased_mut::<T>, (erased,), lent) implies
                Cell::lent_as::<T>(erased, lent) by {}
        }
        erased_mut::<T>(&mut self.value)
    }
}

} // verus!
