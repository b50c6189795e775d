//! Shared handles to values.
use vstd::prelude::*;

verus! {

/// A cheaply cloned handle through which a value is shared.
pub trait SharedRef<Inner>: Sized + Clone + core::ops::Deref<Target = Inner> {
    /// A handle to `value`.
    fn new(value: Inner) -> Self;
}

impl<T> SharedRef<T> for std::rc::Rc<T> {
    /// A new reference-counted handle holding `value`.
    fn new(value: T) -> (r: Self)
        ensures
            *r == value,
    {
        std::rc::Rc::new(value)
    }
}

} // verus!
