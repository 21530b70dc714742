use catalogs::inner::CatalogBuilder;

type Item = String;
type Family = String;

fn item(id: &str) -> Item {
    Item::from(id)
}

fn family(id: &str) -> Family {
    Family::from(id)
}

#[test]
fn mod_one_family_with_two_items() {
    let blue = item("shirts:blue");
    let red = item("shirts:red");
    let black = item("shirts:black");

    let shirts = family("shirts");

    let catalog_builder = CatalogBuilder::new()
        .add_items(&shirts, &[red.clone(), blue.clone(), black.clone()]);

    let catalog = catalog_builder.build().expect("expected build to return Catalog");

    let expected = vec![vec![black], vec![blue], vec![red]];
    assert_eq!(expected, catalog.outfits(&vec![], &vec![]).unwrap());
}

#[test]
fn mod_two_families_with_two_item_each() {
    let blue = item("shirts:blue");
    let red = item("shirts:red");

    let jeans = item("pants:jeans");
    let slacks = item("pants:slacks");

    let shirts = family("shirts");
    let pants = family("pants");

    let catalog_builder = CatalogBuilder::new()
        .add_items(&shirts, &[red.clone(), blue.clone()])
        .add_items(&pants, &[jeans.clone(), slacks.clone()]);

    let catalog = catalog_builder.build().expect("expected build to return Catalog");

    let expected = vec![
        vec![jeans.clone(), blue.clone()],
        vec![jeans.clone(), red.clone()],
        vec![slacks.clone(), blue.clone()],
        vec![slacks.clone(), red.clone()],
    ];
    assert_eq!(expected, catalog.outfits(&vec![], &vec![]).unwrap());
}

#[test]
fn mod_exclusion_rule_removes_single_outfit() {
    let blue = item("shirts:blue");
    let red = item("shirts:red");

    let jeans = item("pants:jeans");
    let slacks = item("pants:slacks");

    let shirts = family("shirts");
    let pants = family("pants");

    let catalog_builder = CatalogBuilder::new()
        .add_item(&shirts, &red)
        .add_item(&shirts, &blue)
        .add_item(&pants, &slacks)
        .add_item(&pants, &jeans)
        .add_exclusion_rule(&red, &jeans);

    let catalog = catalog_builder.build().expect("expected build to return Catalog");

    let expected = vec![
        vec![jeans.clone(), blue.clone()],
        vec![slacks.clone(), blue.clone()],
        vec![slacks.clone(), red.clone()],
    ];
    assert_eq!(expected, catalog.outfits(&vec![], &vec![]).unwrap());
}

#[test]
fn exclusion_rule_removes_multiple_outfit() {
    let blue = item("shirts:blue");
    let red = item("shirts:red");

    let jeans = item("pants:jeans");
    let slacks = item("pants:slacks");

    let shirts = family("shirts");
    let pants = family("pants");

    let catalog_builder = CatalogBuilder::new()
        .add_item(&shirts, &red)
        .add_item(&shirts, &blue)
        .add_item(&pants, &slacks)
        .add_item(&pants, &jeans)
        .add_exclusion_rule(&red, &jeans)
        .add_exclusion_rule(&blue, &slacks);

    let catalog = catalog_builder.build().expect("expected build to return Catalog");

    let expected = vec![
        vec![jeans.clone(), blue.clone()],
        vec![slacks.clone(), red.clone()],
    ];
    assert_eq!(expected, catalog.outfits(&vec![], &vec![]).unwrap());
}

#[test]
fn mod_exclusion_rules_can_remove_all_outfits() {
    let blue = item("shirts:blue");
    let red = item("shirts:red");

    let jeans = item("pants:jeans");
    let slacks = item("pants:slacks");

    let shirts = family("shirts");
    let pants = family("pants");

    let catalog_builder = CatalogBuilder::new()
        .add_item(&shirts, &red)
        .add_item(&shirts, &blue)
        .add_item(&pants, &slacks)
        .add_item(&pants, &jeans)
        .add_exclusion_rules(&red, &[jeans.clone(), slacks.clone()])
        .add_exclusion_rules(&blue, &[jeans.clone(), slacks.clone()]);

    let catalog = catalog_builder.build().expect("expected build to return Catalog");

    let expected: Vec<Vec<Item>> = vec![];
    assert_eq!(expected, catalog.outfits(&vec![], &vec![]).unwrap());
}

#[test]
fn mod_exclusion_rules_can_remove_all_outfits_for_a_selection() {
    let blue = item("shirts:blue");
    let red = item("shirts:red");

    let jeans = item("pants:jeans");
    let slacks = item("pants:slacks");

    let shirts = family("shirts");
    let pants = family("pants");

    let catalog_builder = CatalogBuilder::new()
        .add_item(&shirts, &red)
        .add_item(&shirts, &blue)
        .add_item(&pants, &slacks)
        .add_item(&pants, &jeans)
        .add_exclusion_rules(&blue, &[jeans.clone(), slacks.clone()]);

    let catalog = catalog_builder.build().expect("expected build to return Catalog");

    let expected = vec![
        vec![jeans.clone(), red.clone()],
        vec![slacks.clone(), red.clone()],
    ];
    assert_eq!(expected, catalog.outfits(&vec![], &vec![]).unwrap());
}

#[test]
fn mod_inclusion_rule_removes_single_outfit() {
    let blue = item("shirts:blue");
    let red = item("shirts:red");

    let jeans = item("pants:jeans");
    let slacks = item("pants:slacks");

    let shirts = family("shirts");
    let pants = family("pants");

    let catalog_builder = CatalogBuilder::new()
        .add_item(&shirts, &red)
        .add_item(&shirts, &blue)
        .add_item(&pants, &slacks)
        .add_item(&pants, &jeans)
        .add_inclusion_rule(&red, &jeans);

    let catalog = catalog_builder.build().expect("expected build to return Catalog");

    let expected = vec![
        vec![jeans.clone(), blue.clone()],
        vec![jeans.clone(), red.clone()],
        vec![slacks.clone(), blue.clone()],
    ];
    assert_eq!(expected, catalog.outfits(&vec![], &vec![]).unwrap());
}

#[test]
fn inclusion_rule_removes_multiple_outfit() {
    let blue = item("shirts:blue");
    let red = item("shirts:red");

    let jeans = item("pants:jeans");
    let slacks = item("pants:slacks");

    let shirts = family("shirts");
    let pants = family("pants");

    let catalog_builder = CatalogBuilder::new()
        .add_item(&shirts, &red)
        .add_item(&shirts, &blue)
        .add_item(&pants, &slacks)
        .add_item(&pants, &jeans)
        .add_inclusion_rule(&red, &jeans)
        .add_inclusion_rule(&blue, &slacks);

    let catalog = catalog_builder.build().expect("expected build to return Catalog");

    let expected = vec![
        vec![jeans.clone(), red.clone()],
        vec![slacks.clone(), blue.clone()],
    ];
    assert_eq!(expected, catalog.outfits(&vec![], &vec![]).unwrap());
}

#[test]
fn mod_inclusion_rules_cannot_include_two_from_same_family() {
    let blue = item("shirts:blue");
    let red = item("shirts:red");

    let jeans = item("pants:jeans");
    let slacks = item("pants:slacks");

    let shirts = family("shirts");
    let pants = family("pants");

    let catalog_builder = CatalogBuilder::new()
        .add_item(&shirts, &red)
        .add_item(&shirts, &blue)
        .add_item(&pants, &slacks)
        .add_item(&pants, &jeans)
        .add_inclusion_rules(&red, &[jeans.clone(), slacks.clone()]);

    let catalog = catalog_builder.build().expect("expected build to return Catalog");

    let expected = vec![
        vec![jeans.clone(), blue.clone()],
        vec![slacks.clone(), blue.clone()],
    ];
    assert_eq!(expected, catalog.outfits(&vec![], &vec![]).unwrap());
}

#[test]
fn empty_builder_has_single_empty_outfit() {
    let catalog = CatalogBuilder::new().build().expect("expected build to return Catalog");
    let expected: Vec<Vec<Item>> = vec![vec![]];
    assert_eq!(expected, catalog.outfits(&vec![], &vec![]).unwrap());
}

#[test]
fn rule_predicates_follow_membership() {
    let outfit = vec![item("shirts:red"), item("pants:jeans")];
    let red = item("shirts:red");
    let jeans = item("pants:jeans");
    let slacks = item("pants:slacks");
    assert!(catalogs::inner::violates_exclusion_rule(&outfit, (&red, &jeans)));
    assert!(!catalogs::inner::violates_exclusion_rule(&outfit, (&red, &slacks)));
    assert!(catalogs::inner::violates_inclusion_rule(&outfit, (&red, &slacks)));
    assert!(!catalogs::inner::violates_inclusion_rule(&outfit, (&red, &jeans)));
    assert!(!catalogs::inner::violates_inclusion_rule(&outfit, (&slacks, &jeans)));
}
