//! The describable shape of a type, as the front end hands it over.
//!
//! A definition table holds one entry per distinct type; members refer to
//! their type by its index in the table. A member reached through
//! indirection (a reference or pointer) contributes a pointer-sized,
//! pointer-aligned slot to the layout while still naming its target type for
//! reachability; that is what lets self-referential definitions stand in a
//! finite table. A member held directly must refer to an earlier entry — a
//! type that held itself directly would have no finite layout at all.

use vstd::prelude::*;
use crate::reprs::ReprHint;

verus! {

/// The index of a type's definition in its table.
pub type TypeId = usize;

/// The number of bytes a member reached through indirection occupies.
pub const POINTER_SIZE: usize = 8;

/// The alignment of a member reached through indirection.
pub const POINTER_ALIGN: usize = 8;

/// One declared member of a struct, union or enum variant.
#[derive(Debug)]
pub struct FieldDef {
    /// The member's declared name; a positional member carries its index as
    /// its name.
    pub name: String,
    /// The member's type, as an index into the definition table.
    pub ty: TypeId,
    /// Whether the member is reached through indirection.
    pub indirect: bool,
}

/// One declared variant of an enum.
#[derive(Debug)]
pub struct VariantDef {
    /// The variant's declared name.
    pub name: String,
    /// The variant's declared discriminant, if it declares one.
    pub discriminant: Option<u128>,
    /// The variant's members, in declaration order.
    pub fields: Vec<FieldDef>,
}

/// The kind and members of one type definition.
#[derive(Debug)]
pub enum ShapeDef {
    /// An opaque leaf with a known size and alignment.
    Primitive { size: usize, align: usize },
    /// A struct: members laid out in declaration order.
    Struct { fields: Vec<FieldDef> },
    /// A union: members overlaid at the base address.
    Union { fields: Vec<FieldDef> },
    /// A tagged union: a native tag of `tag_width` bytes, then the active
    /// variant's members.
    Enum { tag_width: usize, variants: Vec<VariantDef> },
}

/// One type definition: its name, its representation hints, its type
/// parameters and its shape.
#[derive(Debug)]
pub struct TypeDef {
    /// The type's name.
    pub name: String,
    /// The representation hints attached to the definition.
    pub hints: Vec<ReprHint>,
    /// The names of the definition's type parameters.
    pub params: Vec<String>,
    /// The definition's kind and members.
    pub shape: ShapeDef,
}

/// The member types of a list of fields, by table index, in order.
pub open spec fn spec_field_members(fields: Seq<FieldDef>) -> Seq<TypeId> {
    fields.map_values(|f: FieldDef| f.ty)
}

/// The member types of a shape, in declaration order: every field's type
/// for a struct or union, every variant's every field's type for an enum.
pub open spec fn spec_shape_members(shape: ShapeDef) -> Seq<TypeId>
    decreases shape,
{
    match shape {
        ShapeDef::Primitive { .. } => Seq::empty(),
        ShapeDef::Struct { fields } => spec_field_members(fields@),
        ShapeDef::Union { fields } => spec_field_members(fields@),
        ShapeDef::Enum { variants, .. } => spec_variant_members(variants@),
    }
}

/// The member types of a list of variants, in declaration order.
pub open spec fn spec_variant_members(variants: Seq<VariantDef>) -> Seq<TypeId>
    decreases variants.len(),
{
    if variants.len() == 0 {
        Seq::empty()
    } else {
        spec_variant_members(variants.drop_last()) + spec_field_members(variants.last().fields@)
    }
}

/// Whether every member of the shape names an entry of a table of `n`
/// definitions, and a directly held member names an earlier entry than `i`.
pub open spec fn wf_shape(shape: ShapeDef, i: int, n: int) -> bool {
    match shape {
        ShapeDef::Primitive { align, .. } => align >= 1,
        ShapeDef::Struct { fields } => wf_fields(fields@, i, n),
        ShapeDef::Union { fields } => wf_fields(fields@, i, n),
        ShapeDef::Enum { variants, .. } => forall|v: int|
            0 <= v < variants@.len() ==> wf_fields(#[trigger] variants@[v].fields@, i, n),
    }
}

/// Whether every field names an entry below `n`, directly held ones below
/// `i`.
pub open spec fn wf_fields(fields: Seq<FieldDef>, i: int, n: int) -> bool {
    forall|k: int|
        0 <= k < fields.len() ==> (#[trigger] fields[k]).ty < n && (!fields[k].indirect
            ==> fields[k].ty < i)
}

/// Whether the table is well-formed: every member of every definition names
/// an entry of the table, every directly held member an earlier one, and
/// every primitive a positive alignment.
pub open spec fn wf_defs(defs: Seq<TypeDef>) -> bool {
    forall|i: int| 0 <= i < defs.len() ==> wf_shape((#[trigger] defs[i]).shape, i, defs.len() as int)
}

/// Collects the member types of a list of fields.
fn push_field_members(out: &mut Vec<TypeId>, fields: &Vec<FieldDef>)
    ensures
        final(out)@ == old(out)@ + spec_field_members(fields@),
{
    let mut k: usize = 0;
    while k < fields.len()
        invariant
            k <= fields@.len(),
            out@ == old(out)@ + spec_field_members(fields@.take(k as int)),
        decreases fields@.len() - k,
    {
        out.push(fields[k].ty);
        proof {
            assert(spec_field_members(fields@.take(k as int + 1)) =~= spec_field_members(
                fields@.take(k as int),
            ).push(fields@[k as int].ty));
            assert(out@ =~= old(out)@ + spec_field_members(fields@.take(k as int + 1)));
        }
        k = k + 1;
    }
    proof {
        assert(fields@.take(fields@.len() as int) =~= fields@);
        assert(spec_field_members(fields@.take(fields@.len() as int)) =~= spec_field_members(
            fields@,
        ));
    }
}

/// The member types of one definition, in declaration order: what a
/// traversal of the type graph must visit from it.
pub fn member_types(shape: &ShapeDef) -> (r: Vec<TypeId>)
    ensures
        r@ == spec_shape_members(*shape),
{
    let mut out: Vec<TypeId> = Vec::new();
    match shape {
        ShapeDef::Primitive { .. } => {
            proof {
                assert(out@ =~= spec_shape_members(*shape));
            }
        },
        ShapeDef::Struct { fields } => {
            push_field_members(&mut out, fields);
            proof {
                assert(out@ =~= spec_shape_members(*shape));
            }
        },
        ShapeDef::Union { fields } => {
            push_field_members(&mut out, fields);
            proof {
                assert(out@ =~= spec_shape_members(*shape));
            }
        },
        ShapeDef::Enum { variants, .. } => {
            let mut v: usize = 0;
            while v < variants.len()
                invariant
                    v <= variants@.len(),
                    out@ == spec_variant_members(variants@.take(v as int)),
                decreases variants@.len() - v,
            {
                push_field_members(&mut out, &variants[v].fields);
                proof {
                    let post = variants@.take(v as int + 1);
                    assert(post.drop_last() =~= variants@.take(v as int));
                    assert(post.last() == variants@[v as int]);
                }
                v = v + 1;
            }
            proof {
                assert(variants@.take(variants@.len() as int) =~= variants@);
                assert(out@ =~= spec_shape_members(*shape));
            }
        },
    }
    out
}

} // verus!
