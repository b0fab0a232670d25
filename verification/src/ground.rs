//! Ground selection.
//!
//! A union or a multi-variant enum can only be described by way of one
//! chosen member — the ground — that serves as the construction witness. A
//! union with exactly one field grounds on it; an enum grounds on its only
//! variant, or on its first unit-like variant, since a unit variant needs no
//! recursive construction. Anything else needs an explicit designation, at
//! most one, and the designation must name an existing member. An enum with
//! no variants has no ground: the type is uninhabited, and every query on it
//! short-circuits without constructing anything.

use vstd::prelude::*;
use crate::config::{spec_find_text, lemma_first_match_unique, lemma_no_match};
use crate::defs::{FieldDef, VariantDef};
use crate::error::ConfigError;
use crate::maybe::MaybeUninhabited;
use crate::text::view_seq;

verus! {

/// The names of a list of fields.
pub open spec fn field_names(fields: Seq<FieldDef>) -> Seq<Seq<char>> {
    fields.map_values(|f: FieldDef| f.name@)
}

/// The names of a list of variants.
pub open spec fn variant_names(variants: Seq<VariantDef>) -> Seq<Seq<char>> {
    variants.map_values(|v: VariantDef| v.name@)
}

/// The ground policy for a union, as a function of the declaration.
pub open spec fn spec_union_ground(fields: Seq<FieldDef>, grounds: Seq<Seq<char>>) -> Result<
    int,
    ConfigError,
> {
    if grounds.len() > 1 {
        Err(ConfigError::DuplicateGround)
    } else if grounds.len() == 1 {
        match spec_find_text(field_names(fields), grounds[0]) {
            Some(i) => Ok(i),
            None => Err(ConfigError::UnknownGround),
        }
    } else if fields.len() == 1 {
        Ok(0int)
    } else {
        Err(ConfigError::MissingGround)
    }
}

/// The first unit-like variant, if any.
pub open spec fn spec_first_unit(variants: Seq<VariantDef>) -> Option<int>
    decreases variants.len(),
{
    if variants.len() == 0 {
        None
    } else if is_unit_variant(variants[0]) {
        Some(0int)
    } else {
        match spec_first_unit(variants.drop_first()) {
            Some(i) => Some(i + 1),
            None => None,
        }
    }
}

/// What the first unit-like variant is.
pub proof fn lemma_first_unit(variants: Seq<VariantDef>)
    ensures
        match spec_first_unit(variants) {
            Some(i) => 0 <= i < variants.len() && is_unit_variant(variants[i]) && (forall|j: int|
                0 <= j < i ==> !is_unit_variant(variants[j])),
            None => forall|j: int| 0 <= j < variants.len() ==> !is_unit_variant(variants[j]),
        },
    decreases variants.len(),
{
    if variants.len() > 0 && !is_unit_variant(variants[0]) {
        lemma_first_unit(variants.drop_first());
        assert forall|j: int| 1 <= j < variants.len() implies variants[j]
            == variants.drop_first()[j - 1] by {}
    }
}

/// The ground policy for an enum, as a function of the declaration.
pub open spec fn spec_enum_ground(variants: Seq<VariantDef>, grounds: Seq<Seq<char>>) -> Result<
    MaybeUninhabited<int>,
    ConfigError,
> {
    if grounds.len() > 1 {
        Err(ConfigError::DuplicateGround)
    } else if grounds.len() == 1 {
        match spec_find_text(variant_names(variants), grounds[0]) {
            Some(i) => Ok(MaybeUninhabited::Inhabited(i)),
            None => Err(ConfigError::UnknownGround),
        }
    } else if variants.len() == 0 {
        Ok(MaybeUninhabited::Uninhabited)
    } else if variants.len() == 1 {
        Ok(MaybeUninhabited::Inhabited(0int))
    } else {
        match spec_first_unit(variants) {
            Some(i) => Ok(MaybeUninhabited::Inhabited(i)),
            None => Err(ConfigError::MissingGround),
        }
    }
}

/// Finds the first field of the given name.
fn find_field(fields: &Vec<FieldDef>, name: &String) -> (r: Option<usize>)
    ensures
        match r {
            Some(i) => 0 <= i < fields@.len() && fields@[i as int].name@ == name@ && (forall|j: int|
                0 <= j < i ==> (#[trigger] fields@[j]).name@ != name@),
            None => forall|j: int| 0 <= j < fields@.len() ==> (#[trigger] fields@[j]).name@ != name@,
        },
{
    let mut i: usize = 0;
    while i < fields.len()
        invariant
            i <= fields@.len(),
            forall|j: int| 0 <= j < i ==> (#[trigger] fields@[j]).name@ != name@,
        decreases fields@.len() - i,
    {
        if fields[i].name == *name {
            return Some(i);
        }
        i = i + 1;
    }
    None
}

/// Finds the first variant of the given name.
fn find_variant(variants: &Vec<VariantDef>, name: &String) -> (r: Option<usize>)
    ensures
        match r {
            Some(i) => 0 <= i < variants@.len() && variants@[i as int].name@ == name@ && (forall|
                j: int,
            |
                0 <= j < i ==> (#[trigger] variants@[j]).name@ != name@),
            None => forall|j: int|
                0 <= j < variants@.len() ==> (#[trigger] variants@[j]).name@ != name@,
        },
{
    let mut i: usize = 0;
    while i < variants.len()
        invariant
            i <= variants@.len(),
            forall|j: int| 0 <= j < i ==> (#[trigger] variants@[j]).name@ != name@,
        decreases variants@.len() - i,
    {
        if variants[i].name == *name {
            return Some(i);
        }
        i = i + 1;
    }
    None
}

/// Whether the variant needs no recursive construction.
pub open spec fn is_unit_variant(v: VariantDef) -> bool {
    v.fields@.len() == 0
}

/// Chooses the ground field of a union.
///
/// Exactly one explicit designation is honoured and must name a field; a
/// union of exactly one field grounds on it without designation; any other
/// union is rejected.
pub fn select_union_ground(fields: &Vec<FieldDef>, grounds: &Vec<String>) -> (r: Result<
    usize,
    ConfigError,
>)
    ensures
        match r {
            Ok(i) => 0 <= i < fields@.len() && if grounds@.len() == 1 {
                fields@[i as int].name@ == grounds@[0]@ && (forall|j: int|
                    0 <= j < i ==> (#[trigger] fields@[j]).name@ != grounds@[0]@)
            } else {
                grounds@.len() == 0 && fields@.len() == 1 && i == 0
            },
            Err(e) => {
                ||| (e == ConfigError::DuplicateGround && grounds@.len() > 1)
                ||| (e == ConfigError::UnknownGround && grounds@.len() == 1 && (forall|j: int|
                    0 <= j < fields@.len() ==> (#[trigger] fields@[j]).name@ != grounds@[0]@))
                ||| (e == ConfigError::MissingGround && grounds@.len() == 0 && fields@.len() != 1)
            },
        },
        match r {
            Ok(i) => spec_union_ground(fields@, view_seq(grounds@)) == Ok::<int, ConfigError>(
                i as int,
            ),
            Err(e) => spec_union_ground(fields@, view_seq(grounds@)) == Err::<int, ConfigError>(e),
        },
{
    proof {
        assert(view_seq(grounds@).len() == grounds@.len());
        if grounds@.len() >= 1 {
            assert(view_seq(grounds@)[0] == grounds@[0]@);
        }
        assert(field_names(fields@).len() == fields@.len());
    }
    if grounds.len() > 1 {
        Err(ConfigError::DuplicateGround)
    } else if grounds.len() == 1 {
        let hit = find_field(fields, &grounds[0]);
        proof {
            let names = field_names(fields@);
            assert forall|j: int| 0 <= j < fields@.len() implies names[j] == (
            #[trigger] fields@[j]).name@ by {}
            match hit {
                Some(i) => {
                    lemma_first_match_unique(names, grounds@[0]@, i as int);
                },
                None => {
                    lemma_no_match(names, grounds@[0]@);
                },
            }
        }
        match hit {
            Some(i) => Ok(i),
            None => Err(ConfigError::UnknownGround),
        }
    } else if fields.len() == 1 {
        Ok(0)
    } else {
        Err(ConfigError::MissingGround)
    }
}

/// Chooses the ground variant of an enum, or finds the enum uninhabited.
///
/// Exactly one explicit designation is honoured and must name a variant. An
/// enum of no variants has no ground and is uninhabited. Without
/// designation, a single variant grounds on itself, and otherwise the first
/// unit-like variant is chosen; an enum of several variants none of which is
/// unit-like is rejected.
#[verifier::loop_isolation(false)]
pub fn select_enum_ground(variants: &Vec<VariantDef>, grounds: &Vec<String>) -> (r: Result<
    MaybeUninhabited<usize>,
    ConfigError,
>)
    ensures
        match r {
            Ok(MaybeUninhabited::Inhabited(i)) => 0 <= i < variants@.len() && if grounds@.len()
                == 1 {
                variants@[i as int].name@ == grounds@[0]@ && (forall|j: int|
                    0 <= j < i ==> (#[trigger] variants@[j]).name@ != grounds@[0]@)
            } else {
                grounds@.len() == 0 && if variants@.len() == 1 {
                    i == 0
                } else {
                    is_unit_variant(variants@[i as int]) && (forall|j: int|
                        0 <= j < i ==> !is_unit_variant(#[trigger] variants@[j]))
                }
            },
            Ok(MaybeUninhabited::Uninhabited) => grounds@.len() == 0 && variants@.len() == 0,
            Err(e) => {
                ||| (e == ConfigError::DuplicateGround && grounds@.len() > 1)
                ||| (e == ConfigError::UnknownGround && grounds@.len() == 1 && (forall|j: int|
                    0 <= j < variants@.len() ==> (#[trigger] variants@[j]).name@ != grounds@[0]@))
                ||| (e == ConfigError::MissingGround && grounds@.len() == 0 && variants@.len() > 1
                    && (forall|j: int|
                    0 <= j < variants@.len() ==> !is_unit_variant(#[trigger] variants@[j])))
            },
        },
        match r {
            Ok(g) => spec_enum_ground(variants@, view_seq(grounds@)) == Ok::<
                MaybeUninhabited<int>,
                ConfigError,
            >(
                match g {
                    MaybeUninhabited::Inhabited(i) => MaybeUninhabited::Inhabited(i as int),
                    MaybeUninhabited::Uninhabited => MaybeUninhabited::Uninhabited,
                },
            ),
            Err(e) => spec_enum_ground(variants@, view_seq(grounds@)) == Err::<
                MaybeUninhabited<int>,
                ConfigError,
            >(e),
        },
{
    proof {
        assert(view_seq(grounds@).len() == grounds@.len());
        if grounds@.len() >= 1 {
            assert(view_seq(grounds@)[0] == grounds@[0]@);
        }
        assert(variant_names(variants@).len() == variants@.len());
    }
    if grounds.len() > 1 {
        Err(ConfigError::DuplicateGround)
    } else if grounds.len() == 1 {
        let hit = find_variant(variants, &grounds[0]);
        proof {
            let names = variant_names(variants@);
            assert forall|j: int| 0 <= j < variants@.len() implies names[j] == (
            #[trigger] variants@[j]).name@ by {}
            match hit {
                Some(i) => {
                    lemma_first_match_unique(names, grounds@[0]@, i as int);
                },
                None => {
                    lemma_no_match(names, grounds@[0]@);
                },
            }
        }
        match hit {
            Some(i) => Ok(MaybeUninhabited::Inhabited(i)),
            None => Err(ConfigError::UnknownGround),
        }
    } else if variants.len() == 0 {
        Ok(MaybeUninhabited::Uninhabited)
    } else if variants.len() == 1 {
        Ok(MaybeUninhabited::Inhabited(0))
    } else {
        let mut i: usize = 0;
        while i < variants.len()
            invariant
                i <= variants@.len(),
                forall|j: int| 0 <= j < i ==> !is_unit_variant(#[trigger] variants@[j]),
            decreases variants@.len() - i,
        {
            if variants[i].fields.len() == 0 {
                proof {
                    lemma_first_unit(variants@);
                    match spec_first_unit(variants@) {
                        Some(w) => {
                            if w < i {
                                assert(!is_unit_variant(variants@[w]));
                            } else if w > i {
                                assert(!is_unit_variant(variants@[i as int]));
                            }
                        },
                        None => {
                            assert(!is_unit_variant(variants@[i as int]));
                        },
                    }
                }
                return Ok(MaybeUninhabited::Inhabited(i));
            }
            i = i + 1;
        }
        proof {
            lemma_first_unit(variants@);
            if spec_first_unit(variants@) is Some {
                let w = spec_first_unit(variants@)->Some_0;
                assert(!is_unit_variant(variants@[w]));
            }
        }
        Err(ConfigError::MissingGround)
    }
}

} // verus!
