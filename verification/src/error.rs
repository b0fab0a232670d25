//! Failures surfaced while resolving a type's configuration or deriving its
//! layout. All of them are reported before any layout for the offending
//! definition is produced; none is retried. The absence of a constructible
//! value is *not* an error: it is the `Uninhabited` case of
//! [`crate::maybe::MaybeUninhabited`].

use vstd::prelude::*;

verus! {

/// A fatal fault in a type definition or its configuration.
#[derive(Clone, Copy, Debug, PartialEq, Eq, Structural)]
pub enum ConfigError {
    /// A union with several fields, or an enum with several variants none of
    /// which is unit-like, carries no explicit ground designation.
    MissingGround,
    /// More than one explicit ground designation was given for one type.
    DuplicateGround,
    /// The designated ground names no field or variant of the type.
    UnknownGround,
    /// A type parameter was freed that either does not exist or was already
    /// freed by an earlier designation.
    UnknownFreeParameter,
    /// An extra validity bound could not be parsed by the front end.
    MalformedBound,
    /// A discriminant tag width other than 0, 1, 2, 4, 8 or 16 bytes.
    UnsupportedTagWidth,
    /// A variant's discriminant does not fit the enum's tag width, or implicit
    /// discriminant assignment ran past the largest representable tag.
    DiscriminantOverflow,
    /// The type's layout does not fit the address space.
    OversizedType,
}

} // verus!
