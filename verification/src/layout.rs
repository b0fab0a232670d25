//! The structural description of one type's layout, and structural identity.
//!
//! A `TypeLayoutInfo` is immutable once produced: the type's name, total
//! size, alignment, and per-kind structure — fields with byte offsets,
//! variants with normalized discriminants. Two descriptions denote the same
//! type exactly when they are structurally equal in every part, not by name
//! alone; [`eq_info`] decides that identity.

use vstd::prelude::*;
use crate::maybe::MaybeUninhabited;

verus! {

/// One described member: its name, its byte offset from the base address —
/// `Uninhabited` when no instance of the declaring composite can exist —
/// and the name of its type.
#[derive(Debug)]
pub struct Field {
    /// The member's name.
    pub name: String,
    /// The member's byte offset, when the declaring composite is
    /// constructible.
    pub offset: MaybeUninhabited<usize>,
    /// The name of the member's type, as a lazily resolved reference.
    pub ty: String,
}

/// One described enum variant: its name, its normalized big-endian
/// discriminant — `Uninhabited` when the variant cannot be constructed —
/// and its members.
#[derive(Debug)]
pub struct Variant {
    /// The variant's name.
    pub name: String,
    /// The variant's discriminant as big-endian bytes of the enum's native
    /// tag width, when the variant is constructible.
    pub discriminant: MaybeUninhabited<Vec<u8>>,
    /// The variant's members, in declaration order.
    pub fields: Vec<Field>,
}

/// The per-kind structure of a described type.
#[derive(Debug)]
pub enum TypeStructure {
    /// An opaque leaf.
    Primitive,
    /// A struct, with its canonical representation string and members.
    Struct { repr: String, fields: Vec<Field> },
    /// A union, with its canonical representation string and members.
    Union { repr: String, fields: Vec<Field> },
    /// A tagged union, with its canonical representation string and
    /// variants.
    Enum { repr: String, variants: Vec<Variant> },
}

/// The structural description of one type: produced once, read forever.
#[derive(Debug)]
pub struct TypeLayoutInfo {
    /// The described type's name.
    pub name: String,
    /// The type's total size in bytes.
    pub size: usize,
    /// The type's alignment in bytes.
    pub alignment: usize,
    /// The type's kind and members.
    pub structure: TypeStructure,
}

/// The mathematical value of a [`Field`].
#[verifier::ext_equal]
pub struct FieldV {
    pub name: Seq<char>,
    pub offset: MaybeUninhabited<int>,
    pub ty: Seq<char>,
}

/// The mathematical value of a [`Variant`].
#[verifier::ext_equal]
pub struct VariantV {
    pub name: Seq<char>,
    pub discriminant: MaybeUninhabited<Seq<u8>>,
    pub fields: Seq<FieldV>,
}

/// The mathematical value of a [`TypeStructure`].
#[verifier::ext_equal]
pub enum TypeStructureV {
    Primitive,
    Struct { repr: Seq<char>, fields: Seq<FieldV> },
    Union { repr: Seq<char>, fields: Seq<FieldV> },
    Enum { repr: Seq<char>, variants: Seq<VariantV> },
}

/// The mathematical value of a [`TypeLayoutInfo`].
#[verifier::ext_equal]
pub struct TypeLayoutInfoV {
    pub name: Seq<char>,
    pub size: int,
    pub alignment: int,
    pub structure: TypeStructureV,
}

impl View for Field {
    type V = FieldV;

    open spec fn view(&self) -> FieldV {
        FieldV {
            name: self.name@,
            offset: match self.offset {
                MaybeUninhabited::Inhabited(o) => MaybeUninhabited::Inhabited(o as int),
                MaybeUninhabited::Uninhabited => MaybeUninhabited::Uninhabited,
            },
            ty: self.ty@,
        }
    }
}

/// The mathematical values of a list of fields.
pub open spec fn fields_view(s: Seq<Field>) -> Seq<FieldV> {
    s.map_values(|f: Field| f@)
}

impl View for Variant {
    type V = VariantV;

    open spec fn view(&self) -> VariantV {
        VariantV {
            name: self.name@,
            discriminant: match self.discriminant {
                MaybeUninhabited::Inhabited(b) => MaybeUninhabited::Inhabited(b@),
                MaybeUninhabited::Uninhabited => MaybeUninhabited::Uninhabited,
            },
            fields: fields_view(self.fields@),
        }
    }
}

/// The mathematical values of a list of variants.
pub open spec fn variants_view(s: Seq<Variant>) -> Seq<VariantV> {
    s.map_values(|v: Variant| v@)
}

impl View for TypeStructure {
    type V = TypeStructureV;

    open spec fn view(&self) -> TypeStructureV {
        match self {
            TypeStructure::Primitive => TypeStructureV::Primitive,
            TypeStructure::Struct { repr, fields } => TypeStructureV::Struct {
                repr: repr@,
                fields: fields_view(fields@),
            },
            TypeStructure::Union { repr, fields } => TypeStructureV::Union {
                repr: repr@,
                fields: fields_view(fields@),
            },
            TypeStructure::Enum { repr, variants } => TypeStructureV::Enum {
                repr: repr@,
                variants: variants_view(variants@),
            },
        }
    }
}

impl View for TypeLayoutInfo {
    type V = TypeLayoutInfoV;

    open spec fn view(&self) -> TypeLayoutInfoV {
        TypeLayoutInfoV {
            name: self.name@,
            size: self.size as int,
            alignment: self.alignment as int,
            structure: self.structure@,
        }
    }
}

/// Copies a byte sequence.
fn clone_bytes(b: &Vec<u8>) -> (r: Vec<u8>)
    ensures
        r@ == b@,
{
    let mut out: Vec<u8> = Vec::new();
    let mut i: usize = 0;
    while i < b.len()
        invariant
            i <= b@.len(),
            out@ == b@.take(i as int),
        decreases b@.len() - i,
    {
        out.push(b[i]);
        proof {
            assert(out@ =~= b@.take(i as int + 1));
        }
        i = i + 1;
    }
    proof {
        assert(b@.take(b@.len() as int) =~= b@);
    }
    out
}

/// Copies a field description.
fn clone_field(f: &Field) -> (r: Field)
    ensures
        r@ == f@,
{
    Field {
        name: f.name.clone(),
        offset: match &f.offset {
            MaybeUninhabited::Inhabited(o) => MaybeUninhabited::Inhabited(*o),
            MaybeUninhabited::Uninhabited => MaybeUninhabited::Uninhabited,
        },
        ty: f.ty.clone(),
    }
}

/// Copies a list of field descriptions.
fn clone_fields(fs: &Vec<Field>) -> (r: Vec<Field>)
    ensures
        fields_view(r@) == fields_view(fs@),
        r@.len() == fs@.len(),
{
    let mut out: Vec<Field> = Vec::new();
    let mut i: usize = 0;
    while i < fs.len()
        invariant
            i <= fs@.len(),
            out@.len() == i,
            forall|j: int| 0 <= j < i ==> (#[trigger] out@[j])@ == fs@[j]@,
        decreases fs@.len() - i,
    {
        let c = clone_field(&fs[i]);
        out.push(c);
        i = i + 1;
    }
    proof {
        assert(fields_view(out@) =~= fields_view(fs@));
    }
    out
}

/// Copies a variant description.
fn clone_variant(v: &Variant) -> (r: Variant)
    ensures
        r@ == v@,
{
    let r = Variant {
        name: v.name.clone(),
        discriminant: match &v.discriminant {
            MaybeUninhabited::Inhabited(b) => MaybeUninhabited::Inhabited(clone_bytes(b)),
            MaybeUninhabited::Uninhabited => MaybeUninhabited::Uninhabited,
        },
        fields: clone_fields(&v.fields),
    };
    proof {
        assert(r@ =~= v@);
    }
    r
}

/// Copies a structure description.
fn clone_structure(s: &TypeStructure) -> (r: TypeStructure)
    ensures
        r@ == s@,
{
    match s {
        TypeStructure::Primitive => TypeStructure::Primitive,
        TypeStructure::Struct { repr, fields } => {
            let r = TypeStructure::Struct { repr: repr.clone(), fields: clone_fields(fields) };
            proof {
                assert(r@ =~= s@);
            }
            r
        },
        TypeStructure::Union { repr, fields } => {
            let r = TypeStructure::Union { repr: repr.clone(), fields: clone_fields(fields) };
            proof {
                assert(r@ =~= s@);
            }
            r
        },
        TypeStructure::Enum { repr, variants } => {
            let mut vs: Vec<Variant> = Vec::new();
            let mut i: usize = 0;
            while i < variants.len()
                invariant
                    i <= variants@.len(),
                    vs@.len() == i,
                    forall|j: int| 0 <= j < i ==> (#[trigger] vs@[j])@ == variants@[j]@,
                decreases variants@.len() - i,
            {
                let c = clone_variant(&variants[i]);
                vs.push(c);
                i = i + 1;
            }
            let r = TypeStructure::Enum { repr: repr.clone(), variants: vs };
            proof {
                assert(variants_view(vs@) =~= variants_view(variants@));
                assert(r@ =~= s@);
            }
            r
        },
    }
}

/// Copies a whole description; the copy is structurally identical.
pub fn clone_info(info: &TypeLayoutInfo) -> (r: TypeLayoutInfo)
    ensures
        r@ == info@,
{
    let r = TypeLayoutInfo {
        name: info.name.clone(),
        size: info.size,
        alignment: info.alignment,
        structure: clone_structure(&info.structure),
    };
    proof {
        assert(r@ =~= info@);
    }
    r
}

/// Decides whether two byte sequences are equal.
fn eq_bytes(a: &Vec<u8>, b: &Vec<u8>) -> (r: bool)
    ensures
        r == (a@ == b@),
{
    if a.len() != b.len() {
        return false;
    }
    let mut i: usize = 0;
    while i < a.len()
        invariant
            a@.len() == b@.len(),
            i <= a@.len(),
            forall|j: int| 0 <= j < i ==> a@[j] == b@[j],
        decreases a@.len() - i,
    {
        if a[i] != b[i] {
            return false;
        }
        i = i + 1;
    }
    proof {
        assert(a@ =~= b@);
    }
    true
}

/// Decides whether two fields are structurally equal.
fn eq_field(a: &Field, b: &Field) -> (r: bool)
    ensures
        r == (a@ == b@),
{
    if !(a.name == b.name) {
        return false;
    }
    if !(a.ty == b.ty) {
        return false;
    }
    let offsets_equal = match (&a.offset, &b.offset) {
        (MaybeUninhabited::Inhabited(x), MaybeUninhabited::Inhabited(y)) => *x == *y,
        (MaybeUninhabited::Uninhabited, MaybeUninhabited::Uninhabited) => true,
        _ => false,
    };
    if offsets_equal {
        proof {
            assert(a@ =~= b@);
        }
        true
    } else {
        false
    }
}

/// Decides whether two field lists are structurally equal.
fn eq_fields(a: &Vec<Field>, b: &Vec<Field>) -> (r: bool)
    ensures
        r == (fields_view(a@) == fields_view(b@)),
{
    if a.len() != b.len() {
        proof {
            assert(fields_view(a@).len() == a@.len());
            assert(fields_view(b@).len() == b@.len());
        }
        return false;
    }
    let mut i: usize = 0;
    while i < a.len()
        invariant
            a@.len() == b@.len(),
            i <= a@.len(),
            forall|j: int| 0 <= j < i ==> #[trigger] fields_view(a@)[j] == fields_view(b@)[j],
        decreases a@.len() - i,
    {
        if !eq_field(&a[i], &b[i]) {
            proof {
                assert(fields_view(a@)[i as int] == a@[i as int]@);
                assert(fields_view(b@)[i as int] == b@[i as int]@);
            }
            return false;
        }
        i = i + 1;
    }
    proof {
        assert(fields_view(a@) =~= fields_view(b@));
    }
    true
}

/// Decides whether two variants are structurally equal.
fn eq_variant(a: &Variant, b: &Variant) -> (r: bool)
    ensures
        r == (a@ == b@),
{
    if !(a.name == b.name) {
        return false;
    }
    let discriminants_equal = match (&a.discriminant, &b.discriminant) {
        (MaybeUninhabited::Inhabited(x), MaybeUninhabited::Inhabited(y)) => eq_bytes(x, y),
        (MaybeUninhabited::Uninhabited, MaybeUninhabited::Uninhabited) => true,
        _ => false,
    };
    if !discriminants_equal {
        return false;
    }
    if eq_fields(&a.fields, &b.fields) {
        proof {
            assert(a@ =~= b@);
        }
        true
    } else {
        false
    }
}

/// Decides whether two variant lists are structurally equal.
fn eq_variants(a: &Vec<Variant>, b: &Vec<Variant>) -> (r: bool)
    ensures
        r == (variants_view(a@) == variants_view(b@)),
{
    if a.len() != b.len() {
        proof {
            assert(variants_view(a@).len() == a@.len());
            assert(variants_view(b@).len() == b@.len());
        }
        return false;
    }
    let mut i: usize = 0;
    while i < a.len()
        invariant
            a@.len() == b@.len(),
            i <= a@.len(),
            forall|j: int| 0 <= j < i ==> #[trigger] variants_view(a@)[j] == variants_view(b@)[j],
        decreases a@.len() - i,
    {
        if !eq_variant(&a[i], &b[i]) {
            proof {
                assert(variants_view(a@)[i as int] == a@[i as int]@);
                assert(variants_view(b@)[i as int] == b@[i as int]@);
            }
            return false;
        }
        i = i + 1;
    }
    proof {
        assert(variants_view(a@) =~= variants_view(b@));
    }
    true
}

/// Decides whether two structures are structurally equal.
fn eq_structure(a: &TypeStructure, b: &TypeStructure) -> (r: bool)
    ensures
        r == (a@ == b@),
{
    match (a, b) {
        (TypeStructure::Primitive, TypeStructure::Primitive) => true,
        (
            TypeStructure::Struct { repr: ra, fields: fa },
            TypeStructure::Struct { repr: rb, fields: fb },
        ) => {
            let r = *ra == *rb && eq_fields(fa, fb);
            proof {
                if r {
                    assert(a@ =~= b@);
                }
            }
            r
        },
        (
            TypeStructure::Union { repr: ra, fields: fa },
            TypeStructure::Union { repr: rb, fields: fb },
        ) => {
            let r = *ra == *rb && eq_fields(fa, fb);
            proof {
                if r {
                    assert(a@ =~= b@);
                }
            }
            r
        },
        (
            TypeStructure::Enum { repr: ra, variants: va },
            TypeStructure::Enum { repr: rb, variants: vb },
        ) => {
            let r = *ra == *rb && eq_variants(va, vb);
            proof {
                if r {
                    assert(a@ =~= b@);
                }
            }
            r
        },
        _ => false,
    }
}

/// Decides structural identity of two descriptions: equality of name, size,
/// alignment and the whole structure. This identity keys the type graph.
pub fn eq_info(a: &TypeLayoutInfo, b: &TypeLayoutInfo) -> (r: bool)
    ensures
        r == (a@ == b@),
{
    if !(a.name == b.name) {
        return false;
    }
    if a.size != b.size {
        return false;
    }
    if a.alignment != b.alignment {
        return false;
    }
    if eq_structure(&a.structure, &b.structure) {
        proof {
            assert(a@ =~= b@);
        }
        true
    } else {
        false
    }
}

} // verus!
