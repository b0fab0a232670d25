use type_layout::assemble::assemble_all;
use type_layout::config::TypeConfig;
use type_layout::defs::{FieldDef, ShapeDef, TypeDef};
use type_layout::graph::populate_graph;
use type_layout::layout::eq_info;
use type_layout::typeset::expand_type_set;
use type_layout::{TypeLayoutGraph, TypeLayoutInfo, TypeStructure};

fn prim(name: &str, size: usize, align: usize) -> TypeDef {
    TypeDef {
        name: name.to_string(),
        hints: Vec::new(),
        params: Vec::new(),
        shape: ShapeDef::Primitive { size, align },
    }
}

fn field(name: &str, ty: usize, indirect: bool) -> FieldDef {
    FieldDef {
        name: name.to_string(),
        ty,
        indirect,
    }
}

fn struct_def(name: &str, fields: Vec<FieldDef>) -> TypeDef {
    TypeDef {
        name: name.to_string(),
        hints: Vec::new(),
        params: Vec::new(),
        shape: ShapeDef::Struct { fields },
    }
}

fn layouts_of(defs: &Vec<TypeDef>) -> Vec<TypeLayoutInfo> {
    let configs: Vec<TypeConfig> = (0..defs.len()).map(|_| TypeConfig::new()).collect();
    assemble_all(defs, &configs)
        .unwrap()
        .into_iter()
        .map(|a| a.info)
        .collect()
}

fn simple_info(name: &str, size: usize) -> TypeLayoutInfo {
    TypeLayoutInfo {
        name: name.to_string(),
        size,
        alignment: 1,
        structure: TypeStructure::Primitive,
    }
}

#[test]
fn insert_is_idempotent() {
    let mut g = TypeLayoutGraph::new();
    assert!(g.insert(simple_info("a", 1)));
    assert!(g.insert(simple_info("b", 2)));
    assert!(!g.insert(simple_info("a", 1)));
    assert_eq!(g.len(), 2);
    assert_eq!(g.get(0).name, "a");
    assert_eq!(g.get(1).name, "b");
}

#[test]
fn identity_is_structural_not_by_name() {
    let mut g = TypeLayoutGraph::new();
    assert!(g.insert(simple_info("a", 1)));
    // the same name with a different size is a different type
    assert!(g.insert(simple_info("a", 2)));
    assert_eq!(g.len(), 2);
}

#[test]
fn populate_terminates_on_self_referential_type() {
    // Node { next: &Node, value: u64 } closes a cycle through indirection
    let defs = vec![
        prim("u64", 8, 8),
        struct_def(
            "Node",
            vec![field("next", 1, true), field("value", 0, false)],
        ),
    ];
    let layouts = layouts_of(&defs);
    let mut g = TypeLayoutGraph::new();
    populate_graph(&defs, &layouts, 1, &mut g);
    assert_eq!(g.len(), 2);
    assert_eq!(g.get(0).name, "Node");
    assert_eq!(g.get(1).name, "u64");
    // the self-referential type stands in the graph exactly once
    let mut node_count = 0;
    for i in 0..g.len() {
        if eq_info(g.get(i), &layouts[1]) {
            node_count += 1;
        }
    }
    assert_eq!(node_count, 1);
}

#[test]
fn populate_discovers_depth_first() {
    // A { b: B, c: C }, B { d: D } discovers A, B, D, C
    let defs = vec![
        prim("D", 1, 1),
        prim("C", 2, 2),
        struct_def("B", vec![field("d", 0, false)]),
        struct_def("A", vec![field("b", 2, false), field("c", 1, false)]),
    ];
    let layouts = layouts_of(&defs);
    let mut g = TypeLayoutGraph::new();
    populate_graph(&defs, &layouts, 3, &mut g);
    let names: Vec<&str> = (0..g.len()).map(|i| g.get(i).name.as_str()).collect();
    assert_eq!(names, vec!["A", "B", "D", "C"]);
}

#[test]
fn populate_twice_is_deterministic() {
    let defs = vec![
        prim("u64", 8, 8),
        struct_def(
            "Node",
            vec![field("next", 1, true), field("value", 0, false)],
        ),
    ];
    let layouts = layouts_of(&defs);
    let mut g1 = TypeLayoutGraph::new();
    populate_graph(&defs, &layouts, 1, &mut g1);
    let mut g2 = TypeLayoutGraph::new();
    populate_graph(&defs, &layouts, 1, &mut g2);
    assert_eq!(g1.len(), g2.len());
    for i in 0..g1.len() {
        assert!(eq_info(g1.get(i), g2.get(i)));
    }
}

#[test]
fn populate_again_changes_nothing() {
    let defs = vec![
        prim("u64", 8, 8),
        struct_def(
            "Node",
            vec![field("next", 1, true), field("value", 0, false)],
        ),
    ];
    let layouts = layouts_of(&defs);
    let mut g = TypeLayoutGraph::new();
    populate_graph(&defs, &layouts, 1, &mut g);
    let before = g.len();
    populate_graph(&defs, &layouts, 1, &mut g);
    assert_eq!(g.len(), before);
}

#[test]
fn structurally_equal_definitions_deduplicate() {
    // two separately declared but identical primitives collapse in the graph
    let defs = vec![
        prim("word", 4, 4),
        prim("word", 4, 4),
        struct_def("P", vec![field("x", 0, false), field("y", 1, false)]),
    ];
    let layouts = layouts_of(&defs);
    let mut g = TypeLayoutGraph::new();
    populate_graph(&defs, &layouts, 2, &mut g);
    assert_eq!(g.len(), 2);
}

#[test]
fn expand_terminates_on_self_referential_type() {
    let defs = vec![
        prim("u64", 8, 8),
        struct_def(
            "Node",
            vec![field("next", 1, true), field("value", 0, false)],
        ),
    ];
    let ids = expand_type_set(&defs, 1);
    assert_eq!(ids, vec![1, 0]);
}

#[test]
fn expand_lists_declaration_order_depth_first() {
    let defs = vec![
        prim("D", 1, 1),
        prim("C", 2, 2),
        struct_def("B", vec![field("d", 0, false)]),
        struct_def("A", vec![field("b", 2, false), field("c", 1, false)]),
    ];
    let ids = expand_type_set(&defs, 3);
    assert_eq!(ids, vec![3, 2, 0, 1]);
}

#[test]
fn expand_suppresses_duplicates() {
    let defs = vec![
        prim("u8", 1, 1),
        struct_def("P", vec![field("x", 0, false), field("y", 0, false)]),
    ];
    let ids = expand_type_set(&defs, 1);
    assert_eq!(ids, vec![1, 0]);
}

#[test]
fn shared_member_appears_once() {
    // A { b: B, c: C }, B { d: D }, C { d: D }: the shared D is discovered
    // once, from B
    let defs = vec![
        prim("D", 1, 1),
        struct_def("B", vec![field("d", 0, false)]),
        struct_def("C", vec![field("d", 0, false)]),
        struct_def("A", vec![field("b", 1, false), field("c", 2, false)]),
    ];
    let layouts = layouts_of(&defs);
    let mut g = TypeLayoutGraph::new();
    populate_graph(&defs, &layouts, 3, &mut g);
    let names: Vec<&str> = (0..g.len()).map(|i| g.get(i).name.as_str()).collect();
    assert_eq!(names, vec!["A", "B", "D", "C"]);
    let ids = expand_type_set(&defs, 3);
    assert_eq!(ids, vec![3, 1, 0, 2]);
}

#[test]
fn graph_contains_by_structure() {
    let mut g = TypeLayoutGraph::new();
    g.insert(simple_info("a", 1));
    assert!(g.contains(&simple_info("a", 1)));
    assert!(!g.contains(&simple_info("a", 2)));
}
