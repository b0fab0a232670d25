use type_layout::assemble::{assemble_all, assemble_type, AssembledLayout};
use type_layout::config::TypeConfig;
use type_layout::defs::{FieldDef, ShapeDef, TypeDef, VariantDef};
use type_layout::error::ConfigError;
use type_layout::layout::eq_info;
use type_layout::maybe::MaybeUninhabited;
use type_layout::{TypeLayoutInfo, TypeStructure};

fn prim(name: &str, size: usize, align: usize) -> TypeDef {
    TypeDef {
        name: name.to_string(),
        hints: Vec::new(),
        params: Vec::new(),
        shape: ShapeDef::Primitive { size, align },
    }
}

fn field(name: &str, ty: usize) -> FieldDef {
    FieldDef {
        name: name.to_string(),
        ty,
        indirect: false,
    }
}

fn struct_def(name: &str, fields: Vec<FieldDef>) -> TypeDef {
    TypeDef {
        name: name.to_string(),
        hints: Vec::new(),
        params: Vec::new(),
        shape: ShapeDef::Struct { fields },
    }
}

fn union_def(name: &str, fields: Vec<FieldDef>) -> TypeDef {
    TypeDef {
        name: name.to_string(),
        hints: Vec::new(),
        params: Vec::new(),
        shape: ShapeDef::Union { fields },
    }
}

fn enum_def(name: &str, tag_width: usize, variants: Vec<VariantDef>) -> TypeDef {
    TypeDef {
        name: name.to_string(),
        hints: Vec::new(),
        params: Vec::new(),
        shape: ShapeDef::Enum { tag_width, variants },
    }
}

fn variant(name: &str, discriminant: Option<u128>, fields: Vec<FieldDef>) -> VariantDef {
    VariantDef {
        name: name.to_string(),
        discriminant,
        fields,
    }
}

fn config() -> TypeConfig {
    TypeConfig::new()
}

fn config_ground(name: &str) -> TypeConfig {
    let mut c = TypeConfig::new();
    c.grounds.push(name.to_string());
    c
}

fn base_prims() -> Vec<TypeDef> {
    vec![prim("u8", 1, 1), prim("u32", 4, 4), prim("u64", 8, 8)]
}

fn configs_for(defs: &Vec<TypeDef>) -> Vec<TypeConfig> {
    (0..defs.len()).map(|_| config()).collect()
}

fn assemble_one(defs: &Vec<TypeDef>, cfg: TypeConfig) -> Result<AssembledLayout, ConfigError> {
    let mut configs = configs_for(defs);
    let last = defs.len() - 1;
    configs[last] = cfg;
    let mut prior = Vec::new();
    for i in 0..last {
        prior.push(assemble_type(defs, i, &configs[i], &prior).unwrap());
    }
    assemble_type(defs, last, &configs[last], &prior)
}

fn fields_of(info: &TypeLayoutInfo) -> &Vec<type_layout::Field> {
    match &info.structure {
        TypeStructure::Struct { fields, .. } => fields,
        TypeStructure::Union { fields, .. } => fields,
        _ => panic!("not a struct-like layout"),
    }
}

fn offset_of(info: &TypeLayoutInfo, name: &str) -> usize {
    for f in fields_of(info) {
        if f.name == name {
            match f.offset {
                MaybeUninhabited::Inhabited(o) => return o,
                MaybeUninhabited::Uninhabited => panic!("offset uninhabited"),
            }
        }
    }
    panic!("no such field");
}

#[test]
fn struct_offsets_and_size() {
    let mut defs = base_prims();
    defs.push(struct_def("S", vec![field("a", 0), field("b", 1)]));
    let a = assemble_one(&defs, config()).unwrap();
    assert!(a.constructible);
    assert_eq!(a.info.size, 8);
    assert_eq!(a.info.alignment, 4);
    assert_eq!(offset_of(&a.info, "a"), 0);
    assert_eq!(offset_of(&a.info, "b"), 4);
}

#[test]
fn struct_fields_stay_within_size() {
    let mut defs = base_prims();
    defs.push(struct_def(
        "S",
        vec![field("a", 0), field("b", 2), field("c", 1)],
    ));
    let sizes = [1usize, 4, 8];
    let a = assemble_one(&defs, config()).unwrap();
    for f in fields_of(&a.info) {
        let o = match f.offset {
            MaybeUninhabited::Inhabited(o) => o,
            MaybeUninhabited::Uninhabited => panic!("offset uninhabited"),
        };
        let ty_size = match f.ty.as_str() {
            "u8" => sizes[0],
            "u32" => sizes[1],
            "u64" => sizes[2],
            _ => panic!("unexpected member type"),
        };
        assert!(o + ty_size <= a.info.size);
    }
}

#[test]
fn empty_struct_is_zero_sized() {
    let mut defs = base_prims();
    defs.push(struct_def("Z", Vec::new()));
    let a = assemble_one(&defs, config()).unwrap();
    assert!(a.constructible);
    assert_eq!(a.info.size, 0);
    assert_eq!(a.info.alignment, 1);
}

#[test]
fn union_without_ground_is_rejected() {
    let mut defs = base_prims();
    defs.push(union_def("U", vec![field("a", 1), field("b", 2)]));
    let r = assemble_one(&defs, config());
    assert_eq!(r.err().unwrap(), ConfigError::MissingGround);
}

#[test]
fn union_with_ground_reports_offset_zero() {
    let mut defs = base_prims();
    defs.push(union_def("U", vec![field("a", 1), field("b", 2)]));
    let a = assemble_one(&defs, config_ground("b")).unwrap();
    assert!(a.constructible);
    assert_eq!(offset_of(&a.info, "b"), 0);
    assert_eq!(offset_of(&a.info, "a"), 0);
    assert_eq!(a.info.size, 8);
    assert_eq!(a.info.alignment, 8);
}

#[test]
fn union_with_single_field_grounds_itself() {
    let mut defs = base_prims();
    defs.push(union_def("U", vec![field("only", 1)]));
    let a = assemble_one(&defs, config()).unwrap();
    assert!(a.constructible);
    assert_eq!(offset_of(&a.info, "only"), 0);
    assert_eq!(a.info.size, 4);
}

#[test]
fn union_unknown_ground_is_rejected() {
    let mut defs = base_prims();
    defs.push(union_def("U", vec![field("a", 1), field("b", 2)]));
    let r = assemble_one(&defs, config_ground("c"));
    assert_eq!(r.err().unwrap(), ConfigError::UnknownGround);
}

#[test]
fn duplicate_ground_is_rejected() {
    let mut defs = base_prims();
    defs.push(union_def("U", vec![field("a", 1), field("b", 2)]));
    let mut c = config_ground("a");
    c.grounds.push("b".to_string());
    let r = assemble_one(&defs, c);
    assert_eq!(r.err().unwrap(), ConfigError::DuplicateGround);
}

#[test]
fn option_like_enum_selects_unit_ground() {
    let mut defs = base_prims();
    defs.push(enum_def(
        "Opt",
        1,
        vec![
            variant("None", None, Vec::new()),
            variant("Some", None, vec![field("x", 1)]),
        ],
    ));
    let a = assemble_one(&defs, config()).unwrap();
    assert!(a.constructible);
    let variants = match &a.info.structure {
        TypeStructure::Enum { variants, .. } => variants,
        _ => panic!("not an enum layout"),
    };
    assert_eq!(variants.len(), 2);
    assert_eq!(variants[0].name, "None");
    assert_eq!(variants[1].name, "Some");
    // the field of `Some` sits behind the one-byte tag, padded to u32
    match variants[1].fields[0].offset {
        MaybeUninhabited::Inhabited(o) => assert_eq!(o, 4),
        MaybeUninhabited::Uninhabited => panic!("offset uninhabited"),
    }
    assert_eq!(a.info.size, 8);
    assert_eq!(a.info.alignment, 4);
}

#[test]
fn discriminants_are_distinct_fixed_width_big_endian() {
    let mut defs = base_prims();
    defs.push(enum_def(
        "E",
        2,
        vec![
            variant("A", None, Vec::new()),
            variant("B", None, vec![field("x", 0)]),
        ],
    ));
    let a = assemble_one(&defs, config()).unwrap();
    let variants = match &a.info.structure {
        TypeStructure::Enum { variants, .. } => variants,
        _ => panic!("not an enum layout"),
    };
    let da = match &variants[0].discriminant {
        MaybeUninhabited::Inhabited(b) => b.clone(),
        MaybeUninhabited::Uninhabited => panic!("discriminant uninhabited"),
    };
    let db = match &variants[1].discriminant {
        MaybeUninhabited::Inhabited(b) => b.clone(),
        MaybeUninhabited::Uninhabited => panic!("discriminant uninhabited"),
    };
    assert_eq!(da.len(), 2);
    assert_eq!(db.len(), 2);
    assert_ne!(da, db);
    assert_eq!(da, vec![0u8, 0]);
    assert_eq!(db, vec![0u8, 1]);
}

#[test]
fn explicit_discriminants_resume_counting() {
    let mut defs = base_prims();
    defs.push(enum_def(
        "E",
        1,
        vec![
            variant("A", None, Vec::new()),
            variant("B", Some(5), Vec::new()),
            variant("C", None, Vec::new()),
        ],
    ));
    let a = assemble_one(&defs, config()).unwrap();
    let variants = match &a.info.structure {
        TypeStructure::Enum { variants, .. } => variants,
        _ => panic!("not an enum layout"),
    };
    let discs: Vec<Vec<u8>> = variants
        .iter()
        .map(|v| match &v.discriminant {
            MaybeUninhabited::Inhabited(b) => b.clone(),
            MaybeUninhabited::Uninhabited => panic!("discriminant uninhabited"),
        })
        .collect();
    assert_eq!(discs, vec![vec![0u8], vec![5u8], vec![6u8]]);
}

#[test]
fn empty_enum_is_uninhabited() {
    let mut defs = base_prims();
    defs.push(enum_def("Never", 1, Vec::new()));
    let a = assemble_one(&defs, config()).unwrap();
    assert!(!a.constructible);
    assert_eq!(a.info.size, 0);
    assert_eq!(a.info.alignment, 1);
    match &a.info.structure {
        TypeStructure::Enum { variants, .. } => assert!(variants.is_empty()),
        _ => panic!("not an enum layout"),
    }
}

#[test]
fn uninhabited_member_propagates_outward() {
    let mut defs = base_prims();
    defs.push(enum_def("Never", 1, Vec::new()));
    defs.push(struct_def("S", vec![field("a", 0), field("n", 3)]));
    let a = assemble_one(&defs, config()).unwrap();
    assert!(!a.constructible);
    for f in fields_of(&a.info) {
        assert!(matches!(f.offset, MaybeUninhabited::Uninhabited));
    }
}

#[test]
fn uninhabited_variant_keeps_other_variants() {
    let mut defs = base_prims();
    defs.push(enum_def("Never", 1, Vec::new()));
    defs.push(enum_def(
        "E",
        1,
        vec![
            variant("Ok", None, Vec::new()),
            variant("Bad", None, vec![field("n", 3)]),
        ],
    ));
    let a = assemble_one(&defs, config()).unwrap();
    assert!(a.constructible);
    let variants = match &a.info.structure {
        TypeStructure::Enum { variants, .. } => variants,
        _ => panic!("not an enum layout"),
    };
    assert!(matches!(
        variants[0].discriminant,
        MaybeUninhabited::Inhabited(_)
    ));
    assert!(matches!(
        variants[1].discriminant,
        MaybeUninhabited::Uninhabited
    ));
    assert!(matches!(
        variants[1].fields[0].offset,
        MaybeUninhabited::Uninhabited
    ));
}

#[test]
fn multi_variant_enum_without_unit_needs_ground() {
    let mut defs = base_prims();
    defs.push(enum_def(
        "E",
        1,
        vec![
            variant("A", None, vec![field("x", 0)]),
            variant("B", None, vec![field("y", 1)]),
        ],
    ));
    let r = assemble_one(&defs, config());
    assert_eq!(r.err().unwrap(), ConfigError::MissingGround);
    let a = assemble_one(&defs, config_ground("B")).unwrap();
    assert!(a.constructible);
}

#[test]
fn unsupported_tag_width_is_rejected() {
    let mut defs = base_prims();
    defs.push(enum_def("E", 3, vec![variant("A", None, Vec::new())]));
    let r = assemble_one(&defs, config());
    assert_eq!(r.err().unwrap(), ConfigError::UnsupportedTagWidth);
}

#[test]
fn discriminant_overflowing_width_is_rejected() {
    let mut defs = base_prims();
    defs.push(enum_def(
        "E",
        1,
        vec![
            variant("A", Some(255), Vec::new()),
            variant("B", None, Vec::new()),
        ],
    ));
    let r = assemble_one(&defs, config());
    assert_eq!(r.err().unwrap(), ConfigError::DiscriminantOverflow);
}

#[test]
fn oversized_struct_is_rejected() {
    let mut defs = vec![prim("huge", usize::MAX, 1), prim("u8", 1, 1)];
    defs.push(struct_def("S", vec![field("a", 0), field("b", 1)]));
    let r = assemble_one(&defs, config());
    assert_eq!(r.err().unwrap(), ConfigError::OversizedType);
}

#[test]
fn assemble_all_is_deterministic() {
    let mut defs = base_prims();
    defs.push(struct_def("S", vec![field("a", 0), field("b", 2)]));
    let configs = configs_for(&defs);
    let r1 = assemble_all(&defs, &configs).unwrap();
    let r2 = assemble_all(&defs, &configs).unwrap();
    assert_eq!(r1.len(), r2.len());
    for i in 0..r1.len() {
        assert!(eq_info(&r1[i].info, &r2[i].info));
        assert_eq!(r1[i].constructible, r2[i].constructible);
    }
}

#[test]
fn assemble_all_reports_first_error() {
    let mut defs = base_prims();
    defs.push(union_def("U", vec![field("a", 0), field("b", 1)]));
    defs.push(struct_def("S", vec![field("u", 3)]));
    let configs = configs_for(&defs);
    let r = assemble_all(&defs, &configs);
    assert_eq!(r.err().unwrap(), ConfigError::MissingGround);
}

#[test]
fn indirect_member_occupies_pointer_slot() {
    let mut defs = base_prims();
    defs.push(struct_def(
        "Node",
        vec![
            FieldDef {
                name: "next".to_string(),
                ty: 3,
                indirect: true,
            },
            field("value", 2),
        ],
    ));
    let a = assemble_one(&defs, config()).unwrap();
    assert!(a.constructible);
    assert_eq!(offset_of(&a.info, "next"), 0);
    assert_eq!(offset_of(&a.info, "value"), 8);
    assert_eq!(a.info.size, 16);
    assert_eq!(a.info.alignment, 8);
}
