use type_layout::config::apply_free_params;
use type_layout::discriminant::{assign_discriminants, discriminant_bytes};
use type_layout::error::ConfigError;
use type_layout::reprs::{canonical_reprs, render_hint, ReprHint};
use type_layout::text::{canonical_join_strings, dedup_strings, join_comma, sort_strings, str_leq};

fn word(w: &str) -> ReprHint {
    ReprHint::Word(w.to_string())
}

fn strings(items: &[&str]) -> Vec<String> {
    items.iter().map(|s| s.to_string()).collect()
}

#[test]
fn reprs_are_sorted_and_deduplicated() {
    let hints = vec![
        word("C"),
        ReprHint::Group("align".to_string(), vec![word("8")]),
        word("C"),
    ];
    let r = canonical_reprs(&hints);
    assert_eq!(r, "C,align(8)");
}

#[test]
fn repr_order_does_not_matter() {
    let a = vec![
        word("C"),
        ReprHint::Group("align".to_string(), vec![word("8")]),
    ];
    let b = vec![
        ReprHint::Group("align".to_string(), vec![word("8")]),
        word("C"),
        word("C"),
    ];
    assert_eq!(canonical_reprs(&a), canonical_reprs(&b));
}

#[test]
fn nested_groups_are_canonical_too() {
    let h = ReprHint::Group("x".to_string(), vec![word("b"), word("a"), word("a")]);
    assert_eq!(render_hint(&h), "x(a,b)");
}

#[test]
fn value_hint_renders_as_name_value() {
    let h = ReprHint::Value("packed".to_string(), "2".to_string());
    assert_eq!(render_hint(&h), "packed=2");
}

#[test]
fn no_hints_render_empty() {
    let r = canonical_reprs(&Vec::new());
    assert_eq!(r, "");
}

#[test]
fn lexicographic_order_on_strings() {
    assert!(str_leq("", "a"));
    assert!(str_leq("a", "a"));
    assert!(str_leq("a", "b"));
    assert!(!str_leq("b", "a"));
    assert!(str_leq("ab", "b"));
    assert!(str_leq("a", "ab"));
    assert!(!str_leq("ab", "a"));
    assert!(str_leq("C", "align"));
}

#[test]
fn sort_orders_and_keeps_everything() {
    let mut v = strings(&["b", "a", "c", "a"]);
    sort_strings(&mut v);
    assert_eq!(v, strings(&["a", "a", "b", "c"]));
}

#[test]
fn dedup_drops_adjacent_repeats() {
    let v = strings(&["a", "a", "b", "b", "c"]);
    let d = dedup_strings(&v);
    assert_eq!(d, strings(&["a", "b", "c"]));
}

#[test]
fn join_separates_with_commas() {
    assert_eq!(join_comma(&strings(&["a", "b", "c"])), "a,b,c");
    assert_eq!(join_comma(&strings(&["a"])), "a");
    assert_eq!(join_comma(&Vec::new()), "");
}

#[test]
fn canonical_join_hears_only_the_set() {
    let a = canonical_join_strings(strings(&["b", "a", "b"]));
    let b = canonical_join_strings(strings(&["a", "b", "a", "a"]));
    assert_eq!(a, "a,b");
    assert_eq!(a, b);
}

#[test]
fn freeing_swaps_the_last_parameter_in() {
    let params = strings(&["T", "U", "V"]);
    let freed = strings(&["T"]);
    let r = apply_free_params(params, &freed).unwrap();
    assert_eq!(r, strings(&["V", "U"]));
}

#[test]
fn freeing_twice_is_rejected() {
    let params = strings(&["T", "U"]);
    let freed = strings(&["T", "T"]);
    let r = apply_free_params(params, &freed);
    assert_eq!(r.err().unwrap(), ConfigError::UnknownFreeParameter);
}

#[test]
fn freeing_a_missing_parameter_is_rejected() {
    let params = strings(&["T"]);
    let freed = strings(&["W"]);
    let r = apply_free_params(params, &freed);
    assert_eq!(r.err().unwrap(), ConfigError::UnknownFreeParameter);
}

#[test]
fn discriminant_bytes_are_big_endian() {
    assert_eq!(discriminant_bytes(0x0102, 2), vec![1u8, 2]);
    assert_eq!(discriminant_bytes(7, 4), vec![0u8, 0, 0, 7]);
    assert_eq!(discriminant_bytes(0, 0), Vec::<u8>::new());
    assert_eq!(
        discriminant_bytes(1, 16),
        vec![0u8, 0, 0, 0, 0, 0, 0, 0, 0, 0, 0, 0, 0, 0, 0, 1]
    );
}

#[test]
fn implicit_tags_follow_their_predecessor() {
    let declared = vec![None, None, Some(10u128), None];
    let tags = assign_discriminants(&declared, 1).unwrap();
    assert_eq!(tags, vec![0u128, 1, 10, 11]);
}

#[test]
fn implicit_tag_past_the_largest_is_rejected() {
    let declared = vec![Some(u128::MAX), None];
    let r = assign_discriminants(&declared, 16);
    assert_eq!(r.err().unwrap(), ConfigError::DiscriminantOverflow);
}

#[test]
fn tag_wider_than_the_width_is_rejected() {
    let declared = vec![Some(256u128)];
    let r = assign_discriminants(&declared, 1);
    assert_eq!(r.err().unwrap(), ConfigError::DiscriminantOverflow);
}
