//! The Layout Assembler.
//!
//! One `TypeLayoutInfo` per type definition, derived structurally: members
//! are laid out in declaration order at the smallest offsets their
//! alignments admit, a union overlays its members at the base address, and
//! an enum lays each variant out behind its native tag. Member sizes and
//! alignments come from the members' own, already assembled descriptions;
//! a member reached through indirection occupies one pointer-sized slot.
//! Alongside each description the assembler records whether an instance of
//! the type could be constructed at all; where it could not, every offset
//! and discriminant of the description is `Uninhabited`.

use vstd::prelude::*;
use crate::align::{align_up, spec_align_up, lemma_align_up};
use crate::config::TypeConfig;
use crate::defs::{FieldDef, ShapeDef, TypeDef, VariantDef, POINTER_SIZE, POINTER_ALIGN};
use crate::error::ConfigError;
use crate::layout::{
    Field,
    FieldV,
    TypeLayoutInfo,
    TypeLayoutInfoV,
    TypeStructure,
    TypeStructureV,
    Variant,
    VariantV,
    fields_view,
    variants_view,
};
use crate::discriminant::{
    assigned_tag,
    assign_discriminants,
    be_bytes,
    discriminant_bytes,
    spec_supported_tag_width,
    spec_tag_fits,
    supported_tag_width,
};
use crate::ground::{
    select_enum_ground,
    select_union_ground,
    spec_enum_ground,
    spec_union_ground,
};
use crate::maybe::MaybeUninhabited;
use crate::reprs::{canonical_reprs, spec_render_list};
use crate::text::{canonical_join, view_seq};

verus! {

/// One assembled description, together with whether an instance of the
/// described type could be constructed at all.
#[derive(Debug)]
pub struct AssembledLayout {
    /// The structural description.
    pub info: TypeLayoutInfo,
    /// Whether a validity-respecting instance of the type can be built.
    pub constructible: bool,
}

/// The mathematical value of an [`AssembledLayout`].
#[verifier::ext_equal]
pub struct Assembled {
    pub info: TypeLayoutInfoV,
    pub constructible: bool,
}

impl View for AssembledLayout {
    type V = Assembled;

    open spec fn view(&self) -> Assembled {
        Assembled { info: self.info@, constructible: self.constructible }
    }
}

/// The size and alignment one member occupies: a pointer-sized slot for an
/// indirect member, the member type's own size and alignment otherwise.
pub open spec fn spec_field_slot(prior: Seq<Assembled>, f: FieldDef) -> (int, int) {
    if f.indirect {
        (POINTER_SIZE as int, POINTER_ALIGN as int)
    } else {
        (prior[f.ty as int].info.size, prior[f.ty as int].info.alignment)
    }
}

/// Whether a value for the member can be built: an indirect member always
/// can (the reference itself is a plain value), a direct one exactly when
/// its type is constructible.
pub open spec fn spec_field_inhabited(prior: Seq<Assembled>, f: FieldDef) -> bool {
    f.indirect || prior[f.ty as int].constructible
}

/// Whether every member of the list can be built.
pub open spec fn spec_all_inhabited(prior: Seq<Assembled>, fields: Seq<FieldDef>) -> bool {
    forall|k: int| 0 <= k < fields.len() ==> spec_field_inhabited(prior, #[trigger] fields[k])
}

/// Whether every already assembled description is sound to build on.
pub open spec fn prior_ok(prior: Seq<Assembled>) -> bool {
    forall|k: int|
        0 <= k < prior.len() ==> (#[trigger] prior[k]).info.alignment >= 1 && prior[k].info.size
            >= 0
}

/// Whether every direct member's type is already assembled.
pub open spec fn fields_resolved(prior: Seq<Assembled>, fields: Seq<FieldDef>) -> bool {
    forall|k: int|
        0 <= k < fields.len() ==> ((#[trigger] fields[k]).indirect || fields[k].ty
            < prior.len())
}

/// The first free byte after laying the members out in order from `start`.
pub open spec fn spec_end(prior: Seq<Assembled>, fields: Seq<FieldDef>, start: int) -> int
    decreases fields.len(),
{
    if fields.len() == 0 {
        start
    } else {
        let (s, a) = spec_field_slot(prior, fields.last());
        spec_align_up(spec_end(prior, fields.drop_last(), start), a) + s
    }
}

/// The byte offset of each member, laid out in order from `start`.
pub open spec fn spec_offsets(prior: Seq<Assembled>, fields: Seq<FieldDef>, start: int) -> Seq<
    int,
>
    decreases fields.len(),
{
    if fields.len() == 0 {
        Seq::empty()
    } else {
        let (s, a) = spec_field_slot(prior, fields.last());
        spec_offsets(prior, fields.drop_last(), start).push(
            spec_align_up(spec_end(prior, fields.drop_last(), start), a),
        )
    }
}

/// The largest member alignment, at least `base`.
pub open spec fn spec_max_align(prior: Seq<Assembled>, fields: Seq<FieldDef>, base: int) -> int
    decreases fields.len(),
{
    if fields.len() == 0 {
        base
    } else {
        let m = spec_max_align(prior, fields.drop_last(), base);
        let a = spec_field_slot(prior, fields.last()).1;
        if a > m {
            a
        } else {
            m
        }
    }
}

/// The largest member size, at least `base`.
pub open spec fn spec_max_size(prior: Seq<Assembled>, fields: Seq<FieldDef>, base: int) -> int
    decreases fields.len(),
{
    if fields.len() == 0 {
        base
    } else {
        let m = spec_max_size(prior, fields.drop_last(), base);
        let s = spec_field_slot(prior, fields.last()).0;
        if s > m {
            s
        } else {
            m
        }
    }
}

/// Every slot of a resolved member list has a nonnegative size and a
/// positive alignment.
pub proof fn lemma_slot_ok(prior: Seq<Assembled>, fields: Seq<FieldDef>, k: int)
    requires
        prior_ok(prior),
        fields_resolved(prior, fields),
        0 <= k < fields.len(),
    ensures
        spec_field_slot(prior, fields[k]).0 >= 0,
        spec_field_slot(prior, fields[k]).1 >= 1,
{
}

/// Laying members out never moves backwards: the run's end is at or after
/// its start, every member sits at or after the start, and no member
/// extends past the end.
pub proof fn lemma_layout_bounds(prior: Seq<Assembled>, fields: Seq<FieldDef>, start: int)
    requires
        prior_ok(prior),
        fields_resolved(prior, fields),
        start >= 0,
    ensures
        spec_end(prior, fields, start) >= start,
        spec_offsets(prior, fields, start).len() == fields.len(),
        forall|k: int|
            0 <= k < fields.len() ==> start <= #[trigger] spec_offsets(prior, fields, start)[k],
        forall|k: int|
            0 <= k < fields.len() ==> #[trigger] spec_offsets(prior, fields, start)[k]
                + spec_field_slot(prior, fields[k]).0 <= spec_end(prior, fields, start),
    decreases fields.len(),
{
    if fields.len() > 0 {
        let front = fields.drop_last();
        assert(fields_resolved(prior, front)) by {
            assert(forall|k: int| 0 <= k < front.len() ==> front[k] == fields[k]);
        }
        lemma_layout_bounds(prior, front, start);
        let e = spec_end(prior, front, start);
        let (s, a) = spec_field_slot(prior, fields.last());
        lemma_slot_ok(prior, fields, fields.len() - 1);
        lemma_align_up(e, a);
        assert forall|k: int| 0 <= k < fields.len() implies start <= #[trigger] spec_offsets(
            prior,
            fields,
            start,
        )[k] && spec_offsets(prior, fields, start)[k] + spec_field_slot(prior, fields[k]).0
            <= spec_end(prior, fields, start) by {
            if k < fields.len() - 1 {
                assert(spec_offsets(prior, fields, start)[k] == spec_offsets(prior, front, start)[k]);
                assert(fields[k] == front[k]);
                assert(spec_offsets(prior, front, start)[k] + spec_field_slot(prior, front[k]).0
                    <= e);
            } else {
                assert(spec_offsets(prior, fields, start)[k] == spec_align_up(e, a));
            }
        }
    }
}

/// The largest member alignment bounds every member's alignment and the
/// base.
pub proof fn lemma_max_align_bounds(prior: Seq<Assembled>, fields: Seq<FieldDef>, base: int)
    ensures
        spec_max_align(prior, fields, base) >= base,
        forall|k: int|
            0 <= k < fields.len() ==> spec_field_slot(prior, #[trigger] fields[k]).1
                <= spec_max_align(prior, fields, base),
    decreases fields.len(),
{
    if fields.len() > 0 {
        lemma_max_align_bounds(prior, fields.drop_last(), base);
        assert(forall|k: int| 0 <= k < fields.len() - 1 ==> fields.drop_last()[k] == fields[k]);
    }
}

/// The largest member size bounds every member's size and the base.
pub proof fn lemma_max_size_bounds(prior: Seq<Assembled>, fields: Seq<FieldDef>, base: int)
    ensures
        spec_max_size(prior, fields, base) >= base,
        forall|k: int|
            0 <= k < fields.len() ==> spec_field_slot(prior, #[trigger] fields[k]).0
                <= spec_max_size(prior, fields, base),
    decreases fields.len(),
{
    if fields.len() > 0 {
        lemma_max_size_bounds(prior, fields.drop_last(), base);
        assert(forall|k: int| 0 <= k < fields.len() - 1 ==> fields.drop_last()[k] == fields[k]);
    }
}

/// What one pass over a member list yields: each member's offset, the first
/// free byte after them, the largest alignment among them, and whether all
/// of them can be built.
pub struct FieldsRun {
    /// Each member's byte offset, in declaration order.
    pub offsets: Vec<usize>,
    /// The first free byte after the members.
    pub end: usize,
    /// The largest member alignment, at least 1.
    pub align: usize,
    /// Whether every member can be built.
    pub inhabited: bool,
}

/// Lays the members out in order from `start`, or reports that the run
/// leaves the address space.
#[verifier::loop_isolation(false)]
fn run_fields(prior: &Vec<AssembledLayout>, fields: &Vec<FieldDef>, start: usize) -> (r: Option<
    FieldsRun,
>)
    requires
        prior_ok(prior@.map_values(|p: AssembledLayout| p@)),
        fields_resolved(prior@.map_values(|p: AssembledLayout| p@), fields@),
    ensures
        ({
            let pv = prior@.map_values(|p: AssembledLayout| p@);
            match r {
                Some(run) => {
                    &&& run.offsets@.len() == fields@.len()
                    &&& forall|k: int|
                        0 <= k < fields@.len() ==> #[trigger] run.offsets@[k] == spec_offsets(
                            pv,
                            fields@,
                            start as int,
                        )[k]
                    &&& run.end == spec_end(pv, fields@, start as int)
                    &&& run.align == spec_max_align(pv, fields@, 1)
                    &&& run.inhabited == spec_all_inhabited(pv, fields@)
                },
                None => spec_end(pv, fields@, start as int) > usize::MAX,
            }
        }),
{
    let ghost pv = prior@.map_values(|p: AssembledLayout| p@);
    let mut offsets: Vec<usize> = Vec::new();
    let mut end: usize = start;
    let mut align: usize = 1;
    let mut inhabited: bool = true;
    let mut k: usize = 0;
    proof {
        assert(fields@.take(0) =~= Seq::<FieldDef>::empty());
    }
    while k < fields.len()
        invariant
            k <= fields@.len(),
            offsets@.len() == k,
            forall|j: int|
                0 <= j < k ==> #[trigger] offsets@[j] == spec_offsets(pv, fields@, start as int)[j],
            end == spec_end(pv, fields@.take(k as int), start as int),
            align == spec_max_align(pv, fields@.take(k as int), 1),
            inhabited == spec_all_inhabited(pv, fields@.take(k as int)),
        decreases fields@.len() - k,
    {
        let ghost pre = fields@.take(k as int);
        let ghost post = fields@.take(k as int + 1);
        proof {
            assert(post.drop_last() =~= pre);
            assert(post.last() == fields@[k as int]);
            assert(fields_resolved(pv, pre)) by {
                assert(forall|j: int| 0 <= j < pre.len() ==> pre[j] == fields@[j]);
            }
            lemma_layout_bounds(pv, pre, start as int);
            lemma_slot_ok(pv, fields@, k as int);
        }
        let f = &fields[k];
        let (fsize, falign, finh): (usize, usize, bool) = if f.indirect {
            (POINTER_SIZE, POINTER_ALIGN, true)
        } else {
            let p = &prior[f.ty];
            (p.info.size, p.info.alignment, p.constructible)
        };
        proof {
            assert((fsize as int, falign as int) == spec_field_slot(pv, fields@[k as int]));
            assert(finh == spec_field_inhabited(pv, fields@[k as int]));
        }
        let off = match align_up(end, falign) {
            Some(o) => o,
            None => {
                proof {
                    lemma_offsets_oversized(pv, fields@, start as int, k as int);
                }
                return None;
            },
        };
        let new_end = match off.checked_add(fsize) {
            Some(e) => e,
            None => {
                proof {
                    lemma_end_step_oversized(pv, fields@, start as int, k as int);
                }
                return None;
            },
        };
        proof {
            assert(spec_offsets(pv, post, start as int) == spec_offsets(pv, pre, start as int).push(
                off as int,
            ));
            assert forall|j: int| 0 <= j < k + 1 implies #[trigger] spec_offsets(
                pv,
                fields@,
                start as int,
            )[j] == spec_offsets(pv, post, start as int)[j] by {
                lemma_offsets_prefix(pv, fields@, start as int, k as int + 1, j);
            }
        }
        offsets.push(off);
        end = new_end;
        align = if falign > align {
            falign
        } else {
            align
        };
        inhabited = inhabited && finh;
        proof {
            assert(spec_all_inhabited(pv, post) == (spec_all_inhabited(pv, pre)
                && spec_field_inhabited(pv, fields@[k as int]))) by {
                assert(forall|j: int| 0 <= j < pre.len() ==> post[j] == pre[j]);
                if spec_all_inhabited(pv, pre) && spec_field_inhabited(pv, fields@[k as int]) {
                    assert forall|j: int| 0 <= j < post.len() implies spec_field_inhabited(
                        pv,
                        #[trigger] post[j],
                    ) by {
                        if j < k {
                            assert(post[j] == pre[j]);
                            assert(spec_field_inhabited(pv, pre[j]));
                        }
                    }
                }
            }
        }
        k = k + 1;
    }
    proof {
        assert(fields@.take(fields@.len() as int) =~= fields@);
    }
    Some(FieldsRun { offsets, end, align, inhabited })
}

/// There is one offset per member.
proof fn lemma_offsets_len(prior: Seq<Assembled>, fields: Seq<FieldDef>, start: int)
    ensures
        spec_offsets(prior, fields, start).len() == fields.len(),
    decreases fields.len(),
{
    if fields.len() > 0 {
        lemma_offsets_len(prior, fields.drop_last(), start);
    }
}

/// Offsets of a front of the list are offsets of the whole list.
proof fn lemma_offsets_prefix(
    prior: Seq<Assembled>,
    fields: Seq<FieldDef>,
    start: int,
    k: int,
    j: int,
)
    requires
        0 <= j < k <= fields.len(),
    ensures
        spec_offsets(prior, fields, start)[j] == spec_offsets(prior, fields.take(k), start)[j],
    decreases fields.len() - k,
{
    if k == fields.len() {
        assert(fields.take(k) =~= fields);
    } else {
        lemma_offsets_prefix(prior, fields, start, k + 1, j);
        let next = fields.take(k + 1);
        assert(next.drop_last() =~= fields.take(k));
        lemma_offsets_len(prior, fields.take(k), start);
        assert(spec_offsets(prior, next, start)[j] == spec_offsets(prior, fields.take(k), start)[j]);
    }
}

/// When a member's aligned offset leaves the address space, so does the end
/// of the whole run.
proof fn lemma_offsets_oversized(prior: Seq<Assembled>, fields: Seq<FieldDef>, start: int, k: int)
    requires
        prior_ok(prior),
        fields_resolved(prior, fields),
        start >= 0,
        0 <= k < fields.len(),
        spec_align_up(spec_end(prior, fields.take(k), start), spec_field_slot(prior, fields[k]).1)
            > usize::MAX,
    ensures
        spec_end(prior, fields, start) > usize::MAX,
{
    let next = fields.take(k + 1);
    assert(next.drop_last() =~= fields.take(k));
    assert(next.last() == fields[k]);
    lemma_slot_ok(prior, fields, k);
    assert(spec_end(prior, next, start) == spec_align_up(
        spec_end(prior, fields.take(k), start),
        spec_field_slot(prior, fields[k]).1,
    ) + spec_field_slot(prior, fields[k]).0);
    lemma_end_prefix(prior, fields, start, k + 1);
}

/// When a member's end leaves the address space, so does the end of the
/// whole run.
proof fn lemma_end_step_oversized(prior: Seq<Assembled>, fields: Seq<FieldDef>, start: int, k: int)
    requires
        prior_ok(prior),
        fields_resolved(prior, fields),
        start >= 0,
        0 <= k < fields.len(),
        spec_align_up(spec_end(prior, fields.take(k), start), spec_field_slot(prior, fields[k]).1)
            + spec_field_slot(prior, fields[k]).0 > usize::MAX,
    ensures
        spec_end(prior, fields, start) > usize::MAX,
{
    let next = fields.take(k + 1);
    assert(next.drop_last() =~= fields.take(k));
    assert(next.last() == fields[k]);
    assert(spec_end(prior, next, start) == spec_align_up(
        spec_end(prior, fields.take(k), start),
        spec_field_slot(prior, fields[k]).1,
    ) + spec_field_slot(prior, fields[k]).0);
    lemma_end_prefix(prior, fields, start, k + 1);
}

/// The description of one member: its name, its offset — carried only when
/// the declaring composite is constructible — and its type's name.
pub open spec fn spec_field_value(defs: Seq<TypeDef>, f: FieldDef, off: int, inhabited: bool) -> FieldV {
    FieldV {
        name: f.name@,
        offset: if inhabited {
            MaybeUninhabited::Inhabited(off)
        } else {
            MaybeUninhabited::Uninhabited
        },
        ty: defs[f.ty as int].name@,
    }
}

/// The descriptions of a run of members laid out in order from `start`.
pub open spec fn spec_fields_values(
    defs: Seq<TypeDef>,
    prior: Seq<Assembled>,
    fields: Seq<FieldDef>,
    start: int,
    inhabited: bool,
) -> Seq<FieldV> {
    Seq::new(
        fields.len(),
        |k: int| spec_field_value(defs, fields[k], spec_offsets(prior, fields, start)[k], inhabited),
    )
}

/// The descriptions of a union's members, all overlaid at the base address.
pub open spec fn spec_union_fields_values(
    defs: Seq<TypeDef>,
    fields: Seq<FieldDef>,
    inhabited: bool,
) -> Seq<FieldV> {
    Seq::new(fields.len(), |k: int| spec_field_value(defs, fields[k], 0, inhabited))
}

/// Builds the member descriptions from their computed offsets.
#[verifier::loop_isolation(false)]
fn build_fields(
    defs: &Vec<TypeDef>,
    fields: &Vec<FieldDef>,
    offsets: &Vec<usize>,
    inhabited: bool,
) -> (r: Vec<Field>)
    requires
        offsets@.len() == fields@.len(),
        forall|k: int| 0 <= k < fields@.len() ==> (#[trigger] fields@[k]).ty < defs@.len(),
    ensures
        r@.len() == fields@.len(),
        forall|k: int|
            0 <= k < fields@.len() ==> (#[trigger] r@[k])@ == spec_field_value(
                defs@,
                fields@[k],
                offsets@[k] as int,
                inhabited,
            ),
{
    let mut out: Vec<Field> = Vec::new();
    let mut k: usize = 0;
    while k < fields.len()
        invariant
            k <= fields@.len(),
            out@.len() == k,
            forall|j: int|
                0 <= j < k ==> (#[trigger] out@[j])@ == spec_field_value(
                    defs@,
                    fields@[j],
                    offsets@[j] as int,
                    inhabited,
                ),
        decreases fields@.len() - k,
    {
        let f = &fields[k];
        let offset = if inhabited {
            MaybeUninhabited::Inhabited(offsets[k])
        } else {
            MaybeUninhabited::Uninhabited
        };
        out.push(Field { name: f.name.clone(), offset, ty: defs[f.ty].name.clone() });
        proof {
            assert(out@[k as int]@ =~= spec_field_value(
                defs@,
                fields@[k as int],
                offsets@[k as int] as int,
                inhabited,
            ));
        }
        k = k + 1;
    }
    out
}

/// The assembled description of a struct: members in declaration order,
/// each at the smallest offset its alignment admits, the whole padded to
/// the largest member alignment.
pub open spec fn spec_assemble_struct(
    defs: Seq<TypeDef>,
    name: Seq<char>,
    repr: Seq<char>,
    fields: Seq<FieldDef>,
    prior: Seq<Assembled>,
) -> Result<Assembled, ConfigError> {
    let align = spec_max_align(prior, fields, 1);
    let size = spec_align_up(spec_end(prior, fields, 0), align);
    if size > usize::MAX {
        Err(ConfigError::OversizedType)
    } else {
        let con = spec_all_inhabited(prior, fields);
        Ok(
            Assembled {
                info: TypeLayoutInfoV {
                    name,
                    size,
                    alignment: align,
                    structure: TypeStructureV::Struct {
                        repr,
                        fields: spec_fields_values(defs, prior, fields, 0, con),
                    },
                },
                constructible: con,
            },
        )
    }
}

/// The assembled description of a union: a ground is resolved, every member
/// is overlaid at the base address, and the whole spans the largest member
/// padded to the largest member alignment.
pub open spec fn spec_assemble_union(
    defs: Seq<TypeDef>,
    name: Seq<char>,
    repr: Seq<char>,
    fields: Seq<FieldDef>,
    grounds: Seq<Seq<char>>,
    prior: Seq<Assembled>,
) -> Result<Assembled, ConfigError> {
    match spec_union_ground(fields, grounds) {
        Err(e) => Err(e),
        Ok(g) => {
            let align = spec_max_align(prior, fields, 1);
            let size = spec_align_up(spec_max_size(prior, fields, 0), align);
            if size > usize::MAX {
                Err(ConfigError::OversizedType)
            } else {
                let con = spec_field_inhabited(prior, fields[g]);
                Ok(
                    Assembled {
                        info: TypeLayoutInfoV {
                            name,
                            size,
                            alignment: align,
                            structure: TypeStructureV::Union {
                                repr,
                                fields: spec_union_fields_values(defs, fields, con),
                            },
                        },
                        constructible: con,
                    },
                )
            }
        },
    }
}

/// The declared discriminants of the variants, in order.
pub open spec fn spec_declared(variants: Seq<VariantDef>) -> Seq<Option<u128>> {
    variants.map_values(|v: VariantDef| v.discriminant)
}

/// Whether every variant's assigned tag is representable at width `w`.
pub open spec fn spec_tags_ok(variants: Seq<VariantDef>, w: usize) -> bool {
    forall|k: int|
        0 <= k < variants.len() ==> {
            let t = #[trigger] assigned_tag(spec_declared(variants), k);
            0 <= t <= u128::MAX && spec_tag_fits(t as u128, w)
        }
}

/// The alignment of the native tag: its width, or one byte when it has
/// none.
pub open spec fn spec_tag_align(w: int) -> int {
    if w == 0 {
        1
    } else {
        w
    }
}

/// The description of one variant: its normalized discriminant and its
/// members laid out behind the tag, both carried only when the variant is
/// constructible.
pub open spec fn spec_variant_value(
    defs: Seq<TypeDef>,
    prior: Seq<Assembled>,
    v: VariantDef,
    w: usize,
    tag: int,
) -> VariantV {
    let con = spec_all_inhabited(prior, v.fields@);
    VariantV {
        name: v.name@,
        discriminant: if con {
            MaybeUninhabited::Inhabited(be_bytes(tag, w as nat))
        } else {
            MaybeUninhabited::Uninhabited
        },
        fields: spec_fields_values(defs, prior, v.fields@, w as int, con),
    }
}

/// The descriptions of all variants.
pub open spec fn spec_variants_values(
    defs: Seq<TypeDef>,
    prior: Seq<Assembled>,
    variants: Seq<VariantDef>,
    w: usize,
) -> Seq<VariantV> {
    Seq::new(
        variants.len(),
        |k: int|
            spec_variant_value(
                defs,
                prior,
                variants[k],
                w,
                assigned_tag(spec_declared(variants), k),
            ),
    )
}

/// The largest end over the variants' member runs, each laid out behind the
/// tag.
pub open spec fn spec_variants_max_end(
    prior: Seq<Assembled>,
    variants: Seq<VariantDef>,
    w: int,
) -> int
    decreases variants.len(),
{
    if variants.len() == 0 {
        0
    } else {
        let m = spec_variants_max_end(prior, variants.drop_last(), w);
        let e = spec_end(prior, variants.last().fields@, w);
        if e > m {
            e
        } else {
            m
        }
    }
}

/// The largest member alignment over all variants, at least `base`.
pub open spec fn spec_variants_max_align(
    prior: Seq<Assembled>,
    variants: Seq<VariantDef>,
    base: int,
) -> int
    decreases variants.len(),
{
    if variants.len() == 0 {
        base
    } else {
        spec_max_align(
            prior,
            variants.last().fields@,
            spec_variants_max_align(prior, variants.drop_last(), base),
        )
    }
}

/// Folding the largest alignment from any base is taking the larger of the
/// base and the fold from one.
pub proof fn lemma_max_align_base(prior: Seq<Assembled>, fields: Seq<FieldDef>, base: int)
    requires
        base >= 1,
    ensures
        spec_max_align(prior, fields, base) == if base > spec_max_align(prior, fields, 1) {
            base
        } else {
            spec_max_align(prior, fields, 1)
        },
    decreases fields.len(),
{
    if fields.len() > 0 {
        lemma_max_align_base(prior, fields.drop_last(), base);
    }
}

/// The assembled description of an enum: a ground is resolved, the tag
/// width is checked, every variant gets its assigned tag and its members
/// laid out behind the tag, and the whole spans the largest variant padded
/// to the largest alignment among tag and members.
pub open spec fn spec_assemble_enum(
    defs: Seq<TypeDef>,
    name: Seq<char>,
    repr: Seq<char>,
    tag_width: usize,
    variants: Seq<VariantDef>,
    grounds: Seq<Seq<char>>,
    prior: Seq<Assembled>,
) -> Result<Assembled, ConfigError> {
    match spec_enum_ground(variants, grounds) {
        Err(e) => Err(e),
        Ok(ground) => {
            if !spec_supported_tag_width(tag_width) {
                Err(ConfigError::UnsupportedTagWidth)
            } else if !spec_tags_ok(variants, tag_width) {
                Err(ConfigError::DiscriminantOverflow)
            } else {
                let align = if variants.len() == 0 {
                    1
                } else {
                    let va = spec_variants_max_align(prior, variants, 1);
                    let ta = spec_tag_align(tag_width as int);
                    if ta > va {
                        ta
                    } else {
                        va
                    }
                };
                let size = if variants.len() == 0 {
                    0
                } else {
                    spec_align_up(spec_variants_max_end(prior, variants, tag_width as int), align)
                };
                if size > usize::MAX {
                    Err(ConfigError::OversizedType)
                } else {
                    let con = match ground {
                        MaybeUninhabited::Inhabited(g) => spec_all_inhabited(
                            prior,
                            variants[g].fields@,
                        ),
                        MaybeUninhabited::Uninhabited => false,
                    };
                    Ok(
                        Assembled {
                            info: TypeLayoutInfoV {
                                name,
                                size,
                                alignment: align,
                                structure: TypeStructureV::Enum {
                                    repr,
                                    variants: spec_variants_values(defs, prior, variants, tag_width),
                                },
                            },
                            constructible: con,
                        },
                    )
                }
            }
        },
    }
}

/// The assembled description of one definition, given the descriptions of
/// everything its members hold directly.
pub open spec fn spec_assemble(
    defs: Seq<TypeDef>,
    i: int,
    config: TypeConfig,
    prior: Seq<Assembled>,
) -> Result<Assembled, ConfigError> {
    let d = defs[i];
    let repr = canonical_join(spec_render_list(config.hints@));
    match d.shape {
        ShapeDef::Primitive { size, align } => Ok(
            Assembled {
                info: TypeLayoutInfoV {
                    name: d.name@,
                    size: size as int,
                    alignment: align as int,
                    structure: TypeStructureV::Primitive,
                },
                constructible: true,
            },
        ),
        ShapeDef::Struct { fields } => spec_assemble_struct(defs, d.name@, repr, fields@, prior),
        ShapeDef::Union { fields } => spec_assemble_union(
            defs,
            d.name@,
            repr,
            fields@,
            view_seq(config.grounds@),
            prior,
        ),
        ShapeDef::Enum { tag_width, variants } => spec_assemble_enum(
            defs,
            d.name@,
            repr,
            tag_width,
            variants@,
            view_seq(config.grounds@),
            prior,
        ),
    }
}

/// Every variant's member run ends at or before the largest end.
pub proof fn lemma_variants_end_bounds(prior: Seq<Assembled>, variants: Seq<VariantDef>, w: int)
    ensures
        spec_variants_max_end(prior, variants, w) >= 0,
        forall|v: int|
            0 <= v < variants.len() ==> spec_end(prior, (#[trigger] variants[v]).fields@, w)
                <= spec_variants_max_end(prior, variants, w),
    decreases variants.len(),
{
    if variants.len() > 0 {
        lemma_variants_end_bounds(prior, variants.drop_last(), w);
        assert(forall|v: int|
            0 <= v < variants.len() - 1 ==> variants.drop_last()[v] == variants[v]);
    }
}

/// Every variant's largest member alignment is at most the fold over all
/// variants, which is at least `base`.
pub proof fn lemma_variants_align_bounds(
    prior: Seq<Assembled>,
    variants: Seq<VariantDef>,
    base: int,
)
    requires
        base >= 1,
    ensures
        spec_variants_max_align(prior, variants, base) >= base,
        forall|v: int|
            0 <= v < variants.len() ==> spec_max_align(prior, (#[trigger] variants[v]).fields@, 1)
                <= spec_variants_max_align(prior, variants, base),
    decreases variants.len(),
{
    if variants.len() > 0 {
        lemma_variants_align_bounds(prior, variants.drop_last(), base);
        let m = spec_variants_max_align(prior, variants.drop_last(), base);
        lemma_max_align_base(prior, variants.last().fields@, m);
        lemma_max_align_bounds(prior, variants.last().fields@, m);
        assert(forall|v: int|
            0 <= v < variants.len() - 1 ==> variants.drop_last()[v] == variants[v]);
    }
}

/// Decides whether a value for every member of the list can be built.
fn all_inhabited(prior: &Vec<AssembledLayout>, fields: &Vec<FieldDef>) -> (r: bool)
    requires
        fields_resolved(prior@.map_values(|p: AssembledLayout| p@), fields@),
    ensures
        r == spec_all_inhabited(prior@.map_values(|p: AssembledLayout| p@), fields@),
{
    let ghost pv = prior@.map_values(|p: AssembledLayout| p@);
    let mut k: usize = 0;
    while k < fields.len()
        invariant
            k <= fields@.len(),
            fields_resolved(pv, fields@),
            pv == prior@.map_values(|p: AssembledLayout| p@),
            forall|j: int| 0 <= j < k ==> spec_field_inhabited(pv, #[trigger] fields@[j]),
        decreases fields@.len() - k,
    {
        let f = &fields[k];
        let ok = if f.indirect {
            true
        } else {
            prior[f.ty].constructible
        };
        proof {
            assert(ok == spec_field_inhabited(pv, fields@[k as int]));
        }
        if !ok {
            return false;
        }
        k = k + 1;
    }
    true
}

/// Measures a union's extent: the largest member size and alignment.
#[verifier::loop_isolation(false)]
fn union_extent(prior: &Vec<AssembledLayout>, fields: &Vec<FieldDef>) -> (r: (usize, usize))
    requires
        prior_ok(prior@.map_values(|p: AssembledLayout| p@)),
        fields_resolved(prior@.map_values(|p: AssembledLayout| p@), fields@),
    ensures
        r.0 == spec_max_size(prior@.map_values(|p: AssembledLayout| p@), fields@, 0),
        r.1 == spec_max_align(prior@.map_values(|p: AssembledLayout| p@), fields@, 1),
{
    let ghost pv = prior@.map_values(|p: AssembledLayout| p@);
    let mut msize: usize = 0;
    let mut malign: usize = 1;
    let mut k: usize = 0;
    proof {
        assert(fields@.take(0) =~= Seq::<FieldDef>::empty());
    }
    while k < fields.len()
        invariant
            k <= fields@.len(),
            msize == spec_max_size(pv, fields@.take(k as int), 0),
            malign == spec_max_align(pv, fields@.take(k as int), 1),
        decreases fields@.len() - k,
    {
        let ghost pre = fields@.take(k as int);
        let ghost post = fields@.take(k as int + 1);
        proof {
            assert(post.drop_last() =~= pre);
            assert(post.last() == fields@[k as int]);
        }
        let f = &fields[k];
        let (fsize, falign): (usize, usize) = if f.indirect {
            (POINTER_SIZE, POINTER_ALIGN)
        } else {
            (prior[f.ty].info.size, prior[f.ty].info.alignment)
        };
        proof {
            assert((fsize as int, falign as int) == spec_field_slot(pv, fields@[k as int]));
        }
        if fsize > msize {
            msize = fsize;
        }
        if falign > malign {
            malign = falign;
        }
        k = k + 1;
    }
    proof {
        assert(fields@.take(fields@.len() as int) =~= fields@);
    }
    (msize, malign)
}

/// A front of the member list ends no later than the whole list.
pub proof fn lemma_end_prefix(prior: Seq<Assembled>, fields: Seq<FieldDef>, start: int, k: int)
    requires
        prior_ok(prior),
        fields_resolved(prior, fields),
        start >= 0,
        0 <= k <= fields.len(),
    ensures
        spec_end(prior, fields.take(k), start) <= spec_end(prior, fields, start),
    decreases fields.len() - k,
{
    if k == fields.len() {
        assert(fields.take(k) =~= fields);
    } else {
        let next = fields.take(k + 1);
        assert(next.drop_last() =~= fields.take(k));
        assert(next.last() == fields[k]);
        assert(fields_resolved(prior, next)) by {
            assert(forall|j: int| 0 <= j < next.len() ==> next[j] == fields[j]);
        }
        assert(fields_resolved(prior, fields.take(k))) by {
            assert(forall|j: int| 0 <= j < k ==> fields.take(k)[j] == fields[j]);
        }
        lemma_layout_bounds(prior, fields.take(k), start);
        let e = spec_end(prior, fields.take(k), start);
        let (s, a) = spec_field_slot(prior, fields[k]);
        lemma_slot_ok(prior, fields, k);
        lemma_align_up(e, a);
        assert(spec_end(prior, next, start) == spec_align_up(e, a) + s);
        lemma_end_prefix(prior, fields, start, k + 1);
    }
}

/// Assembles the description of definition `i`, building on the
/// descriptions of every earlier definition.
///
/// The result is exactly what [`spec_assemble`] states: the structural
/// description with its constructible flag, or the first configuration
/// error of the definition — a ground fault, an unsupported tag width, an
/// unrepresentable discriminant, or a layout past the address space.
#[verifier::loop_isolation(false)]
pub fn assemble_type(
    defs: &Vec<TypeDef>,
    i: usize,
    config: &TypeConfig,
    prior: &Vec<AssembledLayout>,
) -> (r: Result<AssembledLayout, ConfigError>)
    requires
        i < defs@.len(),
        prior@.len() == i,
        crate::defs::wf_shape(defs@[i as int].shape, i as int, defs@.len() as int),
        prior_ok(prior@.map_values(|p: AssembledLayout| p@)),
    ensures
        match r {
            Ok(a) => spec_assemble(
                defs@,
                i as int,
                *config,
                prior@.map_values(|p: AssembledLayout| p@),
            ) == Ok::<Assembled, ConfigError>(a@),
            Err(e) => spec_assemble(
                defs@,
                i as int,
                *config,
                prior@.map_values(|p: AssembledLayout| p@),
            ) == Err::<Assembled, ConfigError>(e),
        },
{
    let ghost pv = prior@.map_values(|p: AssembledLayout| p@);
    let d = &defs[i];
    let repr = canonical_reprs(&config.hints);
    match &d.shape {
        ShapeDef::Primitive { size, align } => {
            let a = AssembledLayout {
                info: TypeLayoutInfo {
                    name: d.name.clone(),
                    size: *size,
                    alignment: *align,
                    structure: TypeStructure::Primitive,
                },
                constructible: true,
            };
            proof {
                assert(spec_assemble(defs@, i as int, *config, pv)->Ok_0 =~= a@);
            }
            Ok(a)
        },
        ShapeDef::Struct { fields } => {
            proof {
                assert(fields_resolved(pv, fields@));
            }
            let run = match run_fields(prior, fields, 0) {
                Some(run) => run,
                None => {
                    proof {
                        lemma_struct_size_oversized(pv, fields@);
                    }
                    return Err(ConfigError::OversizedType);
                },
            };
            let size = match align_up(run.end, run.align) {
                Some(s) => s,
                None => {
                    return Err(ConfigError::OversizedType);
                },
            };
            let fvals = build_fields(defs, fields, &run.offsets, run.inhabited);
            let a = AssembledLayout {
                info: TypeLayoutInfo {
                    name: d.name.clone(),
                    size,
                    alignment: run.align,
                    structure: TypeStructure::Struct { repr, fields: fvals },
                },
                constructible: run.inhabited,
            };
            proof {
                lemma_offsets_len(pv, fields@, 0);
                assert(fields_view(fvals@) =~= spec_fields_values(
                    defs@,
                    pv,
                    fields@,
                    0,
                    run.inhabited,
                ));
                assert(spec_assemble(defs@, i as int, *config, pv)->Ok_0 =~= a@);
            }
            Ok(a)
        },
        ShapeDef::Union { fields } => {
            proof {
                assert(fields_resolved(pv, fields@));
            }
            let ground = match select_union_ground(fields, &config.grounds) {
                Ok(g) => g,
                Err(e) => {
                    return Err(e);
                },
            };
            let (msize, malign) = union_extent(prior, fields);
            let size = match align_up(msize, malign) {
                Some(s) => s,
                None => {
                    return Err(ConfigError::OversizedType);
                },
            };
            let gf = &fields[ground];
            let con = if gf.indirect {
                true
            } else {
                prior[gf.ty].constructible
            };
            proof {
                assert(con == spec_field_inhabited(pv, fields@[ground as int]));
            }
            let mut zeros: Vec<usize> = Vec::new();
            let mut z: usize = 0;
            while z < fields.len()
                invariant
                    zeros@.len() == z,
                    z <= fields@.len(),
                    forall|j: int| 0 <= j < z ==> #[trigger] zeros@[j] == 0,
                decreases fields@.len() - z,
            {
                zeros.push(0);
                z = z + 1;
            }
            let fvals = build_fields(defs, fields, &zeros, con);
            let a = AssembledLayout {
                info: TypeLayoutInfo {
                    name: d.name.clone(),
                    size,
                    alignment: malign,
                    structure: TypeStructure::Union { repr, fields: fvals },
                },
                constructible: con,
            };
            proof {
                assert(fields_view(fvals@) =~= spec_union_fields_values(defs@, fields@, con));
                assert(spec_assemble(defs@, i as int, *config, pv)->Ok_0 =~= a@);
            }
            Ok(a)
        },
        ShapeDef::Enum { tag_width, variants } => {
            let w = *tag_width;
            let ground = match select_enum_ground(variants, &config.grounds) {
                Ok(g) => g,
                Err(e) => {
                    return Err(e);
                },
            };
            if !supported_tag_width(w) {
                return Err(ConfigError::UnsupportedTagWidth);
            }
            let mut declared: Vec<Option<u128>> = Vec::new();
            let mut dk: usize = 0;
            while dk < variants.len()
                invariant
                    declared@.len() == dk,
                    dk <= variants@.len(),
                    forall|j: int| 0 <= j < dk ==> declared@[j] == variants@[j].discriminant,
                decreases variants@.len() - dk,
            {
                declared.push(variants[dk].discriminant);
                dk = dk + 1;
            }
            proof {
                assert(declared@ =~= spec_declared(variants@));
            }
            let tags = match assign_discriminants(&declared, w) {
                Ok(t) => t,
                Err(e) => {
                    return Err(ConfigError::DiscriminantOverflow);
                },
            };
            let mut vvals: Vec<Variant> = Vec::new();
            let mut max_end: usize = 0;
            let mut max_align: usize = 1;
            let mut v: usize = 0;
            proof {
                assert(variants@.take(0) =~= Seq::<VariantDef>::empty());
            }
            while v < variants.len()
                invariant
                    v <= variants@.len(),
                    vvals@.len() == v,
                    forall|j: int|
                        0 <= j < v ==> (#[trigger] vvals@[j])@ == spec_variants_values(
                            defs@,
                            pv,
                            variants@,
                            w,
                        )[j],
                    max_end == spec_variants_max_end(pv, variants@.take(v as int), w as int),
                    max_align == spec_variants_max_align(pv, variants@.take(v as int), 1),
                    max_align >= 1,
                decreases variants@.len() - v,
            {
                let ghost pre = variants@.take(v as int);
                let ghost post = variants@.take(v as int + 1);
                proof {
                    assert(post.drop_last() =~= pre);
                    assert(post.last() == variants@[v as int]);
                    assert(fields_resolved(pv, variants@[v as int].fields@));
                }
                let vd = &variants[v];
                let run = match run_fields(prior, &vd.fields, w) {
                    Some(run) => run,
                    None => {
                        proof {
                            lemma_variants_end_bounds(pv, variants@, w as int);
                            lemma_variants_align_bounds(pv, variants@, 1);
                            lemma_enum_size_oversized(pv, variants@, w, v as int);
                        }
                        return Err(ConfigError::OversizedType);
                    },
                };
                let discriminant = if run.inhabited {
                    MaybeUninhabited::Inhabited(discriminant_bytes(tags[v], w))
                } else {
                    MaybeUninhabited::Uninhabited
                };
                let fvals = build_fields(defs, &vd.fields, &run.offsets, run.inhabited);
                let one = Variant { name: vd.name.clone(), discriminant, fields: fvals };
                proof {
                    lemma_offsets_len(pv, variants@[v as int].fields@, w as int);
                    assert(fields_view(fvals@) =~= spec_fields_values(
                        defs@,
                        pv,
                        variants@[v as int].fields@,
                        w as int,
                        run.inhabited,
                    ));
                    assert(one@ =~= spec_variants_values(defs@, pv, variants@, w)[v as int]);
                }
                vvals.push(one);
                max_end = if run.end > max_end {
                    run.end
                } else {
                    max_end
                };
                proof {
                    lemma_max_align_base(pv, variants@[v as int].fields@, max_align as int);
                }
                max_align = if run.align > max_align {
                    run.align
                } else {
                    max_align
                };
                v = v + 1;
            }
            proof {
                assert(variants@.take(variants@.len() as int) =~= variants@);
            }
            if variants.len() == 0 {
                let a = AssembledLayout {
                    info: TypeLayoutInfo {
                        name: d.name.clone(),
                        size: 0,
                        alignment: 1,
                        structure: TypeStructure::Enum { repr, variants: vvals },
                    },
                    constructible: false,
                };
                proof {
                    assert(variants_view(vvals@) =~= spec_variants_values(defs@, pv, variants@, w));
                    assert(spec_assemble(defs@, i as int, *config, pv)->Ok_0 =~= a@);
                }
                return Ok(a);
            }
            let tag_align: usize = if w == 0 {
                1
            } else {
                w
            };
            let align = if tag_align > max_align {
                tag_align
            } else {
                max_align
            };
            let size = match align_up(max_end, align) {
                Some(s) => s,
                None => {
                    return Err(ConfigError::OversizedType);
                },
            };
            let con = match ground {
                MaybeUninhabited::Inhabited(g) => {
                    proof {
                        assert(fields_resolved(pv, variants@[g as int].fields@));
                    }
                    all_inhabited(prior, &variants[g].fields)
                },
                MaybeUninhabited::Uninhabited => false,
            };
            let a = AssembledLayout {
                info: TypeLayoutInfo {
                    name: d.name.clone(),
                    size,
                    alignment: align,
                    structure: TypeStructure::Enum { repr, variants: vvals },
                },
                constructible: con,
            };
            proof {
                assert(variants_view(vvals@) =~= spec_variants_values(defs@, pv, variants@, w));
                assert(spec_assemble(defs@, i as int, *config, pv)->Ok_0 =~= a@);
            }
            Ok(a)
        },
    }
}

/// An assembled description is sound to build on: positive alignment,
/// nonnegative size.
pub proof fn lemma_assembled_ok(
    defs: Seq<TypeDef>,
    i: int,
    config: TypeConfig,
    prior: Seq<Assembled>,
)
    requires
        prior_ok(prior),
        0 <= i < defs.len(),
        prior.len() == i,
        crate::defs::wf_shape(defs[i].shape, i, defs.len() as int),
        spec_assemble(defs, i, config, prior) is Ok,
    ensures
        spec_assemble(defs, i, config, prior)->Ok_0.info.alignment >= 1,
        spec_assemble(defs, i, config, prior)->Ok_0.info.size >= 0,
{
    match defs[i].shape {
        ShapeDef::Primitive { .. } => {},
        ShapeDef::Struct { fields } => {
            lemma_max_align_bounds(prior, fields@, 1);
            lemma_layout_bounds(prior, fields@, 0);
            lemma_align_up(spec_end(prior, fields@, 0), spec_max_align(prior, fields@, 1));
        },
        ShapeDef::Union { fields } => {
            lemma_max_align_bounds(prior, fields@, 1);
            lemma_max_size_bounds(prior, fields@, 0);
            lemma_align_up(spec_max_size(prior, fields@, 0), spec_max_align(prior, fields@, 1));
        },
        ShapeDef::Enum { tag_width, variants } => {
            if variants@.len() > 0 {
                lemma_variants_end_bounds(prior, variants@, tag_width as int);
                lemma_variants_align_bounds(prior, variants@, 1);
                let a = if spec_tag_align(tag_width as int) > spec_variants_max_align(
                    prior,
                    variants@,
                    1,
                ) {
                    spec_tag_align(tag_width as int)
                } else {
                    spec_variants_max_align(prior, variants@, 1)
                };
                lemma_align_up(spec_variants_max_end(prior, variants@, tag_width as int), a);
            }
        },
    }
}

/// The descriptions of the first `n` definitions, each assembled on its
/// predecessors, or the first configuration error among them.
pub open spec fn spec_assemble_prefix(
    defs: Seq<TypeDef>,
    configs: Seq<TypeConfig>,
    n: int,
) -> Result<Seq<Assembled>, ConfigError>
    decreases n,
{
    if n <= 0 {
        Ok(Seq::empty())
    } else {
        match spec_assemble_prefix(defs, configs, n - 1) {
            Err(e) => Err(e),
            Ok(prior) => match spec_assemble(defs, n - 1, configs[n - 1], prior) {
                Ok(a) => Ok(prior.push(a)),
                Err(e) => Err(e),
            },
        }
    }
}

/// A definition that fails to assemble fails the whole table.
proof fn lemma_prefix_stuck(
    defs: Seq<TypeDef>,
    configs: Seq<TypeConfig>,
    i: int,
    n: int,
    e: ConfigError,
)
    requires
        0 <= i < n,
        spec_assemble_prefix(defs, configs, i) matches Ok(p) && spec_assemble(
            defs,
            i,
            configs[i],
            p,
        ) == Err::<Assembled, ConfigError>(e),
    ensures
        spec_assemble_prefix(defs, configs, n) == Err::<Seq<Assembled>, ConfigError>(e),
    decreases n - i,
{
    if n == i + 1 {
    } else {
        lemma_prefix_stuck(defs, configs, i, n - 1, e);
    }
}

/// Assembles the whole definition table in order, each definition on its
/// predecessors' descriptions; the first configuration error aborts the
/// table, since later definitions could not resolve their members against
/// the failed one.
///
/// The result is exactly what [`spec_assemble_prefix`] states of the whole
/// table — in particular, two runs over equal tables yield equal
/// descriptions in equal order.
#[verifier::loop_isolation(false)]
pub fn assemble_all(defs: &Vec<TypeDef>, configs: &Vec<TypeConfig>) -> (r: Result<
    Vec<AssembledLayout>,
    ConfigError,
>)
    requires
        crate::defs::wf_defs(defs@),
        configs@.len() == defs@.len(),
    ensures
        match r {
            Ok(v) => {
                &&& spec_assemble_prefix(defs@, configs@, defs@.len() as int) == Ok::<
                    Seq<Assembled>,
                    ConfigError,
                >(v@.map_values(|p: AssembledLayout| p@))
                &&& v@.len() == defs@.len()
                &&& prior_ok(v@.map_values(|p: AssembledLayout| p@))
            },
            Err(e) => spec_assemble_prefix(defs@, configs@, defs@.len() as int) == Err::<
                Seq<Assembled>,
                ConfigError,
            >(e),
        },
{
    let mut out: Vec<AssembledLayout> = Vec::new();
    let mut i: usize = 0;
    proof {
        assert(out@.map_values(|p: AssembledLayout| p@) =~= Seq::<Assembled>::empty());
    }
    while i < defs.len()
        invariant
            i <= defs@.len(),
            out@.len() == i,
            spec_assemble_prefix(defs@, configs@, i as int) == Ok::<Seq<Assembled>, ConfigError>(
                out@.map_values(|p: AssembledLayout| p@),
            ),
            prior_ok(out@.map_values(|p: AssembledLayout| p@)),
        decreases defs@.len() - i,
    {
        let ghost pv = out@.map_values(|p: AssembledLayout| p@);
        match assemble_type(defs, i, &configs[i], &out) {
            Ok(a) => {
                proof {
                    lemma_assembled_ok(defs@, i as int, configs@[i as int], pv);
                }
                out.push(a);
                proof {
                    assert(out@.map_values(|p: AssembledLayout| p@) =~= pv.push(a@));
                }
            },
            Err(e) => {
                proof {
                    lemma_prefix_stuck(defs@, configs@, i as int, defs@.len() as int, e);
                }
                return Err(e);
            },
        }
        i = i + 1;
    }
    Ok(out)
}

/// No member extends past its type's reported size: in every assembled
/// description, a member whose offset is carried ends — offset plus the
/// size its own type occupies — at or before the description's total size.
/// For an enum this holds of every variant's members against the whole
/// enum's size.
pub proof fn lemma_members_within_size(
    defs: Seq<TypeDef>,
    i: int,
    config: TypeConfig,
    prior: Seq<Assembled>,
)
    requires
        prior_ok(prior),
        0 <= i < defs.len(),
        prior.len() == i,
        crate::defs::wf_shape(defs[i].shape, i, defs.len() as int),
        spec_assemble(defs, i, config, prior) is Ok,
    ensures
        ({
            let a = spec_assemble(defs, i, config, prior)->Ok_0;
            match defs[i].shape {
                ShapeDef::Primitive { .. } => true,
                ShapeDef::Struct { fields } => forall|k: int|
                    0 <= k < fields@.len()
                        ==> (match (#[trigger] (a.info.structure->Struct_fields)[k]).offset {
                        MaybeUninhabited::Inhabited(o) => o + spec_field_slot(prior, fields@[k]).0
                            <= a.info.size,
                        MaybeUninhabited::Uninhabited => true,
                    }),
                ShapeDef::Union { fields } => forall|k: int|
                    0 <= k < fields@.len()
                        ==> (match (#[trigger] (a.info.structure->Union_fields)[k]).offset {
                        MaybeUninhabited::Inhabited(o) => o == 0 && spec_field_slot(
                            prior,
                            fields@[k],
                        ).0 <= a.info.size,
                        MaybeUninhabited::Uninhabited => true,
                    }),
                ShapeDef::Enum { tag_width, variants } => forall|v: int, k: int|
                    0 <= v < variants@.len() && 0 <= k
                        < variants@[v].fields@.len()
                        ==> (match (#[trigger] (a.info.structure->Enum_variants)[v].fields[k]).offset {
                        MaybeUninhabited::Inhabited(o) => o + spec_field_slot(
                            prior,
                            variants@[v].fields@[k],
                        ).0 <= a.info.size,
                        MaybeUninhabited::Uninhabited => true,
                    }),
            }
        }),
{
    let a = spec_assemble(defs, i, config, prior)->Ok_0;
    match defs[i].shape {
        ShapeDef::Primitive { .. } => {},
        ShapeDef::Struct { fields } => {
            let align = spec_max_align(prior, fields@, 1);
            let end = spec_end(prior, fields@, 0);
            lemma_max_align_bounds(prior, fields@, 1);
            lemma_layout_bounds(prior, fields@, 0);
            lemma_align_up(end, align);
            assert(a.info.size == spec_align_up(end, align));
        },
        ShapeDef::Union { fields } => {
            let align = spec_max_align(prior, fields@, 1);
            let m = spec_max_size(prior, fields@, 0);
            lemma_max_align_bounds(prior, fields@, 1);
            lemma_max_size_bounds(prior, fields@, 0);
            lemma_align_up(m, align);
            assert(a.info.size == spec_align_up(m, align));
        },
        ShapeDef::Enum { tag_width, variants } => {
            assert forall|v: int, k: int|
                0 <= v < variants@.len() && 0 <= k < variants@[v].fields@.len() implies (match (
            #[trigger] (a.info.structure->Enum_variants)[v].fields[k]).offset {
                MaybeUninhabited::Inhabited(o) => o + spec_field_slot(
                    prior,
                    variants@[v].fields@[k],
                ).0 <= a.info.size,
                MaybeUninhabited::Uninhabited => true,
            }) by {
                let w = tag_width as int;
                lemma_variants_end_bounds(prior, variants@, w);
                lemma_variants_align_bounds(prior, variants@, 1);
                assert(fields_resolved(prior, variants@[v].fields@));
                lemma_layout_bounds(prior, variants@[v].fields@, w);
                let align = if spec_tag_align(w) > spec_variants_max_align(prior, variants@, 1) {
                    spec_tag_align(w)
                } else {
                    spec_variants_max_align(prior, variants@, 1)
                };
                let maxe = spec_variants_max_end(prior, variants@, w);
                lemma_align_up(maxe, align);
                assert(a.info.size == spec_align_up(maxe, align));
            }
        },
    }
}

/// When a struct's member run leaves the address space, so does its size.
proof fn lemma_struct_size_oversized(prior: Seq<Assembled>, fields: Seq<FieldDef>)
    requires
        prior_ok(prior),
        fields_resolved(prior, fields),
        spec_end(prior, fields, 0) > usize::MAX,
    ensures
        spec_align_up(spec_end(prior, fields, 0), spec_max_align(prior, fields, 1)) > usize::MAX,
{
    lemma_max_align_bounds(prior, fields, 1);
    lemma_align_up(spec_end(prior, fields, 0), spec_max_align(prior, fields, 1));
}

/// When one variant's member run leaves the address space, so does the
/// enum's size.
proof fn lemma_enum_size_oversized(
    prior: Seq<Assembled>,
    variants: Seq<VariantDef>,
    w: usize,
    v: int,
)
    requires
        prior_ok(prior),
        0 <= v < variants.len(),
        fields_resolved(prior, variants[v].fields@),
        spec_end(prior, variants[v].fields@, w as int) > usize::MAX,
    ensures
        spec_align_up(
            spec_variants_max_end(prior, variants, w as int),
            if spec_tag_align(w as int) > spec_variants_max_align(prior, variants, 1) {
                spec_tag_align(w as int)
            } else {
                spec_variants_max_align(prior, variants, 1)
            },
        ) > usize::MAX,
{
    lemma_variants_end_bounds(prior, variants, w as int);
    lemma_variants_align_bounds(prior, variants, 1);
    let e = spec_variants_max_end(prior, variants, w as int);
    let a = if spec_tag_align(w as int) > spec_variants_max_align(prior, variants, 1) {
        spec_tag_align(w as int)
    } else {
        spec_variants_max_align(prior, variants, 1)
    };
    lemma_align_up(e, a);
}

} // verus!
