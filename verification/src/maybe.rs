//! The distinction between a value that exists and one that can never be
//! constructed. A type or enum variant with no possible runtime value is
//! `Uninhabited`; every offset or discriminant derived from it is
//! `Uninhabited` as well, and callers must check the tag before using the
//! carried value.

use vstd::prelude::*;

verus! {

/// Either a value of `T`, or the statement that no such value can exist.
#[derive(Clone, Copy, Debug)]
pub enum MaybeUninhabited<T> {
    /// A value exists and is carried here.
    Inhabited(T),
    /// No runtime value of the described type or variant can ever exist.
    Uninhabited,
}

impl<T> MaybeUninhabited<T> {
    /// Whether a value is carried.
    pub open spec fn spec_is_inhabited(&self) -> bool {
        self matches MaybeUninhabited::Inhabited(_)
    }

    /// The carried value; meaningful only when inhabited.
    pub open spec fn spec_value(&self) -> T
        recommends
            self.spec_is_inhabited(),
    {
        self->Inhabited_0
    }

    /// Whether a value is carried.
    #[verifier::when_used_as_spec(spec_is_inhabited)]
    pub fn is_inhabited(&self) -> (r: bool)
        ensures
            r == self.spec_is_inhabited(),
    {
        match self {
            MaybeUninhabited::Inhabited(_) => true,
            MaybeUninhabited::Uninhabited => false,
        }
    }
}

} // verus!
