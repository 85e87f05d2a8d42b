use esp_generate::options::{
    all_options, find_option, remove_incompatible_chip_options, CatalogItem, Category,
    OptionEntry,
};
use esp_generate::resolver::{collect_relationships, is_option_active, validate, Violation};

fn entry(
    name: &str,
    platforms: &[&str],
    needs: &[&str],
    disabled_by: &[&str],
    group: &str,
) -> OptionEntry {
    OptionEntry {
        name: name.as_bytes().to_vec(),
        applicable_platforms: platforms.iter().map(|s| s.as_bytes().to_vec()).collect(),
        requires_list: needs.iter().map(|s| s.as_bytes().to_vec()).collect(),
        disabled_by: disabled_by.iter().map(|s| s.as_bytes().to_vec()).collect(),
        selection_group: group.as_bytes().to_vec(),
    }
}

fn selection(names: &[&str]) -> Vec<Vec<u8>> {
    names.iter().map(|s| s.as_bytes().to_vec()).collect()
}

#[test]
fn empty_selection_validates() {
    let catalog = vec![CatalogItem::Entry(entry("a", &[], &[], &[], ""))];
    assert!(validate(&selection(&[]), b"p1", &catalog).is_ok());
}

#[test]
fn unknown_option_is_reported() {
    let catalog = vec![CatalogItem::Entry(entry("a", &[], &[], &[], ""))];
    let errs = validate(&selection(&["nope"]), b"p1", &catalog).unwrap_err();
    assert_eq!(1, errs.len());
    assert!(matches!(&errs[0], Violation::UnknownOption { name } if name == b"nope"));
}

#[test]
fn unsupported_platform_is_reported() {
    // Option `x` exists only for platform `p2`; selecting it on `p1` fails.
    let catalog = vec![CatalogItem::Entry(entry("x", &["p2"], &[], &[], ""))];
    let errs = validate(&selection(&["x"]), b"p1", &catalog).unwrap_err();
    assert_eq!(1, errs.len());
    assert!(matches!(&errs[0], Violation::UnsupportedForPlatform { name } if name == b"x"));
}

#[test]
fn unmet_requirement_is_reported_and_satisfying_it_passes() {
    let catalog = vec![
        CatalogItem::Entry(entry("a", &[], &["b"], &[], "")),
        CatalogItem::Entry(entry("b", &[], &[], &[], "")),
    ];
    let errs = validate(&selection(&["a"]), b"p1", &catalog).unwrap_err();
    assert_eq!(1, errs.len());
    assert!(matches!(
        &errs[0],
        Violation::UnmetRequirement { name, missing } if name == b"a" && missing == b"b"
    ));
    assert!(validate(&selection(&["a", "b"]), b"p1", &catalog).is_ok());
}

#[test]
fn disabled_by_conflict_is_reported() {
    let catalog = vec![
        CatalogItem::Entry(entry("a", &[], &[], &["b"], "")),
        CatalogItem::Entry(entry("b", &[], &[], &[], "")),
    ];
    let errs = validate(&selection(&["a", "b"]), b"p1", &catalog).unwrap_err();
    assert_eq!(1, errs.len());
    assert!(matches!(
        &errs[0],
        Violation::DisabledByConflict { name, disabled_by } if name == b"a" && disabled_by == b"b"
    ));
}

#[test]
fn selection_group_conflict_is_reported_in_both_orders() {
    let catalog = vec![
        CatalogItem::Entry(entry("a", &[], &[], &[], "g")),
        CatalogItem::Entry(entry("b", &[], &[], &[], "g")),
    ];
    for sel in [selection(&["a", "b"]), selection(&["b", "a"])] {
        let errs = validate(&sel, b"p1", &catalog).unwrap_err();
        assert_eq!(1, errs.len());
        match &errs[0] {
            Violation::MutuallyExclusiveConflict { group, names } => {
                assert_eq!(b"g".to_vec(), group.clone());
                assert!(names.contains(&b"a".to_vec()));
                assert!(names.contains(&b"b".to_vec()));
            }
            other => panic!("unexpected violation: {:?}", other_kind(other)),
        }
    }
}

fn other_kind(v: &Violation) -> &'static str {
    match v {
        Violation::UnknownOption { .. } => "unknown option",
        Violation::UnsupportedForPlatform { .. } => "unsupported for platform",
        Violation::UnmetRequirement { .. } => "unmet requirement",
        Violation::DisabledByConflict { .. } => "disabled-by conflict",
        Violation::MutuallyExclusiveConflict { .. } => "mutual exclusion",
    }
}

#[test]
fn duplicate_selection_entries_do_not_conflict_with_themselves() {
    let catalog = vec![CatalogItem::Entry(entry("a", &[], &[], &[], "g"))];
    assert!(validate(&selection(&["a", "a"]), b"p1", &catalog).is_ok());
}

#[test]
fn platform_variants_share_a_name() {
    // Two entries with one name: the p1 variant requires `extra`, the p2
    // variant does not. On p2 the selection passes without `extra`.
    let catalog = vec![
        CatalogItem::Entry(entry("x", &["p1"], &["extra"], &[], "")),
        CatalogItem::Entry(entry("x", &["p2"], &[], &[], "")),
    ];
    assert!(validate(&selection(&["x"]), b"p2", &catalog).is_ok());
    assert!(validate(&selection(&["x"]), b"p1", &catalog).is_err());
}

#[test]
fn is_option_active_checks_both_edge_kinds() {
    let e = entry("a", &[], &["b"], &["c"], "");
    assert!(is_option_active(&e, &selection(&["a", "b"])));
    assert!(!is_option_active(&e, &selection(&["a"])));
    assert!(!is_option_active(&e, &selection(&["a", "b", "c"])));
}

#[test]
fn relationships_name_unmet_and_disabling_options() {
    let e = entry("a", &[], &["b", "d"], &["c"], "");
    let r = collect_relationships(&e, &selection(&["a", "b", "c"]));
    assert_eq!(vec![b"d".to_vec()], r.unmet_requires);
    assert_eq!(vec![b"c".to_vec()], r.disabling);
}

#[test]
fn flatten_is_depth_first() {
    let catalog = vec![
        CatalogItem::Entry(entry("a", &[], &[], &[], "")),
        CatalogItem::Category(Category {
            options: vec![
                CatalogItem::Entry(entry("b", &[], &[], &[], "")),
                CatalogItem::Category(Category {
                    options: vec![CatalogItem::Entry(entry("c", &[], &[], &[], ""))],
                }),
            ],
        }),
        CatalogItem::Entry(entry("d", &[], &[], &[], "")),
    ];
    let names: Vec<Vec<u8>> = all_options(&catalog).into_iter().map(|e| e.name).collect();
    assert_eq!(
        vec![b"a".to_vec(), b"b".to_vec(), b"c".to_vec(), b"d".to_vec()],
        names
    );
}

#[test]
fn find_option_returns_first_match() {
    let catalog = vec![
        CatalogItem::Entry(entry("x", &["p1"], &[], &[], "first")),
        CatalogItem::Entry(entry("x", &["p2"], &[], &[], "second")),
    ];
    let found = find_option(b"x", &catalog).unwrap();
    assert_eq!(b"first".to_vec(), found.selection_group);
    assert!(find_option(b"y", &catalog).is_none());
}

#[test]
fn pruning_removes_foreign_entries_and_empty_categories() {
    let mut catalog = vec![
        CatalogItem::Entry(entry("a", &["p1"], &[], &[], "")),
        CatalogItem::Category(Category {
            options: vec![CatalogItem::Entry(entry("b", &["p2"], &[], &[], ""))],
        }),
        CatalogItem::Entry(entry("c", &[], &[], &[], "")),
    ];
    remove_incompatible_chip_options(b"p1", &mut catalog);
    let names: Vec<Vec<u8>> = all_options(&catalog).into_iter().map(|e| e.name).collect();
    assert_eq!(vec![b"a".to_vec(), b"c".to_vec()], names);
}
