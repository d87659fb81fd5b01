//! Values that are made when they are first asked for.

use vstd::prelude::*;

verus! {

/// What makes the value of a `Lazy`. Users of the library implement it.
pub trait LazySupplier<T> {
    /// `value` is something that `supply` may return. Unless a supplier
    /// says more, it may return anything.
    open spec fn supplies(&self, value: T) -> bool {
        true
    }

    /// Makes the value.
    fn supply(&self) -> (value: T)
        ensures
            self.supplies(value),
    ;
}

/// A value that its supplier makes when it is first asked for; whoever
/// asks later finds it in place.
pub struct Lazy<T, S> {
    pub t: Option<T>,
    pub supplier: S,
}

impl<T, S: LazySupplier<T>> Lazy<T, S> {
    /// A value that is not made yet.
    pub fn new(supplier: S) -> (lazy: Lazy<T, S>)
        ensures
            lazy.t is None,
            lazy.supplier == supplier,
    {
        Lazy { t: None, supplier }
    }

    /// `after` is this value once it has been asked for: the value that
    /// was there, or else one that the supplier may return.
    pub open spec fn made_into(self, after: Lazy<T, S>) -> bool {
        &&& after.supplier == self.supplier
        &&& after.t is Some
        &&& self.t is Some ==> after.t == self.t
        &&& self.t is None ==> self.supplier.supplies(after.t->0)
    }

    /// Makes the value unless it is there.
    pub fn force(&mut self)
        ensures
            old(self).made_into(*final(self)),
    {
        if self.t.is_none() {
            let value = self.supplier.supply();
            self.t = Some(value);
        }
    }

    /// The value, which has been made.
    pub fn get(&self) -> (value: &T)
        requires
            self.t is Some,
        ensures
            *value == self.t->0,
    {
        self.t.as_ref().unwrap()
    }

    /// The value, for writing; it is made first unless it is there.
    pub fn as_mut(&mut self) -> (value: &mut T)
        ensures
            old(self).made_into(
                Lazy { t: Some(*value), supplier: old(self).supplier },
            ),
            final(self).supplier == old(self).supplier,
            final(self).t == Some(*final(value)),
    {
        self.force();
        self.t.as_mut().unwrap()
    }
}

/// A value that is computed from an input when it is first asked for.
pub struct DerivedLazy<V, T, F> {
    pub input: V,
    pub function: F,
    pub value: Option<T>,
}

impl<V, T, F: Fn(&V) -> T> DerivedLazy<V, T, F> {
    /// A value that is not computed yet.
    pub fn new(input: V, supplier: F) -> (lazy: DerivedLazy<V, T, F>)
        ensures
            lazy.input == input,
            lazy.function == supplier,
            lazy.value is None,
    {
        DerivedLazy { input, function: supplier, value: None }
    }

    /// The value, for reading; it is computed from the input unless it is
    /// there.
    pub fn get(&mut self) -> (value: &T)
        requires
            old(self).value is None ==> call_requires(old(self).function, (&old(self).input,)),
        ensures
            old(self).value is Some ==> *value == old(self).value->0,
            old(self).value is None ==> call_ensures(
                old(self).function,
                (&old(self).input,),
                *value,
            ),
            final(self).input == old(self).input,
            final(self).function == old(self).function,
            final(self).value == Some(*value),
    {
        if self.value.is_none() {
            let computed = (self.function)(&self.input);
            self.value = Some(computed);
        }
        self.value.as_ref().unwrap()
    }

    /// The value, for writing; it is computed from the input unless it is
    /// there.
    pub fn get_mut(&mut self) -> (value: &mut T)
        requires
            old(self).value is None ==> call_requires(old(self).function, (&old(self).input,)),
        ensures
            old(self).value is Some ==> *value == old(self).value->0,
            old(self).value is None ==> call_ensures(
                old(self).function,
                (&old(self).input,),
                *value,
            ),
            final(self).input == old(self).input,
            final(self).function == old(self).function,
            final(self).value == Some(*final(value)),
    {
        if self.value.is_none() {
            let computed = (self.function)(&self.input);
            self.value = Some(computed);
        }
        self.value.as_mut().unwrap()
    }
}

} // verus!
