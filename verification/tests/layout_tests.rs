use type_layout::ground::{select_enum_ground, select_union_ground};
use type_layout::defs::{member_types, FieldDef, ShapeDef, VariantDef};
use type_layout::error::ConfigError;
use type_layout::layout::{clone_info, eq_info};
use type_layout::maybe::MaybeUninhabited;
use type_layout::{Field, TypeLayoutInfo, TypeStructure, Variant};

fn field(name: &str, ty: usize) -> FieldDef {
    FieldDef {
        name: name.to_string(),
        ty,
        indirect: false,
    }
}

fn variant(name: &str, fields: Vec<FieldDef>) -> VariantDef {
    VariantDef {
        name: name.to_string(),
        discriminant: None,
        fields,
    }
}

fn sample_info() -> TypeLayoutInfo {
    TypeLayoutInfo {
        name: "S".to_string(),
        size: 8,
        alignment: 4,
        structure: TypeStructure::Struct {
            repr: "C".to_string(),
            fields: vec![Field {
                name: "a".to_string(),
                offset: MaybeUninhabited::Inhabited(0),
                ty: "u32".to_string(),
            }],
        },
    }
}

#[test]
fn structural_equality_sees_every_part() {
    let a = sample_info();
    assert!(eq_info(&a, &sample_info()));
    let mut b = sample_info();
    b.size = 12;
    assert!(!eq_info(&a, &b));
    let mut c = sample_info();
    c.structure = TypeStructure::Struct {
        repr: "C".to_string(),
        fields: vec![Field {
            name: "a".to_string(),
            offset: MaybeUninhabited::Inhabited(4),
            ty: "u32".to_string(),
        }],
    };
    assert!(!eq_info(&a, &c));
    let mut d = sample_info();
    d.structure = TypeStructure::Union {
        repr: "C".to_string(),
        fields: Vec::new(),
    };
    assert!(!eq_info(&a, &d));
}

#[test]
fn cloned_descriptions_are_identical() {
    let a = TypeLayoutInfo {
        name: "E".to_string(),
        size: 2,
        alignment: 1,
        structure: TypeStructure::Enum {
            repr: "u8".to_string(),
            variants: vec![Variant {
                name: "A".to_string(),
                discriminant: MaybeUninhabited::Inhabited(vec![0, 1]),
                fields: Vec::new(),
            }],
        },
    };
    let b = clone_info(&a);
    assert!(eq_info(&a, &b));
}

#[test]
fn maybe_uninhabited_reports_its_tag() {
    let a: MaybeUninhabited<usize> = MaybeUninhabited::Inhabited(3);
    let b: MaybeUninhabited<usize> = MaybeUninhabited::Uninhabited;
    assert!(a.is_inhabited());
    assert!(!b.is_inhabited());
}

#[test]
fn member_types_walk_declaration_order() {
    let shape = ShapeDef::Enum {
        tag_width: 1,
        variants: vec![
            variant("A", vec![field("x", 2), field("y", 0)]),
            variant("B", vec![field("z", 1)]),
        ],
    };
    assert_eq!(member_types(&shape), vec![2, 0, 1]);
    let s = ShapeDef::Struct {
        fields: vec![field("a", 4), field("b", 3)],
    };
    assert_eq!(member_types(&s), vec![4, 3]);
    let p = ShapeDef::Primitive { size: 1, align: 1 };
    assert_eq!(member_types(&p), Vec::<usize>::new());
}

#[test]
fn union_ground_policy() {
    let fields = vec![field("a", 0), field("b", 1)];
    let none: Vec<String> = Vec::new();
    assert_eq!(
        select_union_ground(&fields, &none).err().unwrap(),
        ConfigError::MissingGround
    );
    let b = vec!["b".to_string()];
    assert_eq!(select_union_ground(&fields, &b).unwrap(), 1);
    let single = vec![field("only", 0)];
    assert_eq!(select_union_ground(&single, &none).unwrap(), 0);
}

#[test]
fn enum_ground_policy() {
    let none: Vec<String> = Vec::new();
    let empty: Vec<VariantDef> = Vec::new();
    assert!(matches!(
        select_enum_ground(&empty, &none).unwrap(),
        MaybeUninhabited::Uninhabited
    ));
    let opt = vec![variant("None", Vec::new()), variant("Some", vec![field("x", 0)])];
    assert!(matches!(
        select_enum_ground(&opt, &none).unwrap(),
        MaybeUninhabited::Inhabited(0)
    ));
    let data_first = vec![variant("Some", vec![field("x", 0)]), variant("None", Vec::new())];
    assert!(matches!(
        select_enum_ground(&data_first, &none).unwrap(),
        MaybeUninhabited::Inhabited(1)
    ));
    let sole = vec![variant("Only", vec![field("x", 0)])];
    assert!(matches!(
        select_enum_ground(&sole, &none).unwrap(),
        MaybeUninhabited::Inhabited(0)
    ));
    let designated = vec!["Some".to_string()];
    assert!(matches!(
        select_enum_ground(&opt, &designated).unwrap(),
        MaybeUninhabited::Inhabited(1)
    ));
    let unknown = vec!["Nope".to_string()];
    assert_eq!(
        select_enum_ground(&opt, &unknown).err().unwrap(),
        ConfigError::UnknownGround
    );
}
