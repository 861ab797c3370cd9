use syntax_survey::generators::{
    all_visible_locations, scope_start, search_for_trait_items, Scope, TraitSource, Visible,
};

#[test]
fn locations_row_by_row() {
    let rows = Visible { start: 2, end: 4 };
    let cols = Visible { start: 5, end: 8 };
    assert_eq!(
        all_visible_locations(rows, cols),
        vec![(2, 5), (2, 6), (2, 7), (3, 5), (3, 6), (3, 7)]
    );
}

#[test]
fn no_location_without_rows_or_columns() {
    let some = Visible { start: 0, end: 3 };
    let none = Visible { start: 3, end: 3 };
    let backwards = Visible { start: 4, end: 1 };
    assert_eq!(all_visible_locations(none, some), vec![]);
    assert_eq!(all_visible_locations(some, none), vec![]);
    assert_eq!(all_visible_locations(backwards, some), vec![]);
    assert_eq!(all_visible_locations(some, backwards), vec![]);
}

#[test]
fn scope_starts_behind_the_brace() {
    let src = b"trait A: B { fn f(); }".to_vec();
    assert_eq!(scope_start(&src, 0), Some(12));
    assert_eq!(scope_start(&src, 11), Some(12));
    assert_eq!(scope_start(&src, 12), None);
    assert_eq!(scope_start(&src, 100), None);
    assert_eq!(scope_start(&Vec::new(), 0), None);
}

#[test]
fn traits_without_a_body_are_passed_over() {
    let traits = vec![
        TraitSource { src: b"trait A { }\ntrait B { }".to_vec(), point: 12 },
        TraitSource { src: b"trait C;".to_vec(), point: 0 },
        TraitSource { src: b"{}".to_vec(), point: 0 },
        TraitSource { src: b"{}".to_vec(), point: 1 },
    ];
    assert_eq!(
        search_for_trait_items(&traits),
        vec![Scope { tr: 0, start: 21 }, Scope { tr: 2, start: 1 }]
    );
    assert_eq!(search_for_trait_items(&Vec::new()), vec![]);
}
