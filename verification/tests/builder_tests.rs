use catalogs::catalog_builder::build_catalog;
use catalogs::catalog_builder::CatalogAssembly;
use catalogs::catalog_builder::CatalogExclusionRule;
use catalogs::catalog_builder::CatalogInclusionRule;
use catalogs::validation::CatalogBuilderError;

type Item = String;
type Family = String;

fn item(id: &str) -> Item {
    Item::from(id)
}

fn family(id: &str) -> Family {
    Family::from(id)
}

#[test]
fn empty_catalog_returns_error() {
    let error = build_catalog(CatalogAssembly {
        families: vec![],
        exclusions: vec![],
        inclusions: vec![],
    })
    .unwrap_err();

    assert_eq!(CatalogBuilderError::EmptyCatalog, error);
}

#[test]
fn two_families_cannot_share_items() {
    let blue = item("blue");

    let shirts = family("shirts");
    let pants = family("pants");

    let error = build_catalog(CatalogAssembly {
        families: vec![
            (pants.clone(), vec![blue.clone()]),
            (shirts.clone(), vec![blue.clone()]),
        ],
        exclusions: vec![],
        inclusions: vec![],
    })
    .unwrap_err();

    assert_eq!(
        CatalogBuilderError::MultipleFamiliesRegistered { item: blue, families: vec![shirts, pants] },
        error
    );
}

#[test]
fn one_family_with_two_items() {
    let blue = item("shirts:blue");
    let red = item("shirts:red");
    let black = item("shirts:black");

    let shirts = family("shirts");

    let catalog = build_catalog(CatalogAssembly {
        families: vec![(shirts, vec![red.clone(), blue.clone(), black.clone()])],
        exclusions: vec![],
        inclusions: vec![],
    })
    .expect("expected build to return Catalog");

    let expected = vec![vec![black], vec![blue], vec![red]];
    assert_eq!(expected, catalog.combinations());
}

#[test]
fn two_families_with_two_item_each() {
    let blue = item("shirts:blue");
    let red = item("shirts:red");

    let jeans = item("pants:jeans");
    let slacks = item("pants:slacks");

    let shirts = family("shirts");
    let pants = family("pants");

    let catalog = build_catalog(CatalogAssembly {
        families: vec![
            (pants, vec![jeans.clone(), slacks.clone()]),
            (shirts, vec![red.clone(), blue.clone()]),
        ],
        exclusions: vec![],
        inclusions: vec![],
    })
    .expect("expected build to return Catalog");

    let expected = vec![
        vec![jeans.clone(), blue.clone()],
        vec![jeans.clone(), red.clone()],
        vec![slacks.clone(), blue.clone()],
        vec![slacks.clone(), red.clone()],
    ];
    assert_eq!(expected, catalog.combinations());
}

#[test]
fn exclusion_rule_removes_single_outfit() {
    let blue = item("shirts:blue");
    let red = item("shirts:red");

    let jeans = item("pants:jeans");
    let slacks = item("pants:slacks");

    let shirts = family("shirts");
    let pants = family("pants");

    let catalog = build_catalog(CatalogAssembly {
        families: vec![
            (pants, vec![jeans.clone(), slacks.clone()]),
            (shirts, vec![red.clone(), blue.clone()]),
        ],
        exclusions: vec![CatalogExclusionRule {
            conditions: vec![red.clone()],
            exclusions: vec![jeans.clone()],
        }],
        inclusions: vec![],
    })
    .expect("expected build to return Catalog");

    let expected = vec![
        vec![jeans.clone(), blue.clone()],
        vec![slacks.clone(), blue.clone()],
        vec![slacks.clone(), red.clone()],
    ];
    assert_eq!(expected, catalog.combinations());
}

#[test]
fn exclusion_rules_removes_multiple_outfit() {
    let blue = item("shirts:blue");
    let red = item("shirts:red");

    let jeans = item("pants:jeans");
    let slacks = item("pants:slacks");

    let shirts = family("shirts");
    let pants = family("pants");

    let catalog = build_catalog(CatalogAssembly {
        families: vec![
            (pants, vec![jeans.clone(), slacks.clone()]),
            (shirts, vec![red.clone(), blue.clone()]),
        ],
        exclusions: vec![
            CatalogExclusionRule { conditions: vec![red.clone()], exclusions: vec![jeans.clone()] },
            CatalogExclusionRule { conditions: vec![blue.clone()], exclusions: vec![slacks.clone()] },
        ],
        inclusions: vec![],
    })
    .expect("expected build to return Catalog");

    let expected = vec![
        vec![jeans.clone(), blue.clone()],
        vec![slacks.clone(), red.clone()],
    ];
    assert_eq!(expected, catalog.combinations());
}

#[test]
fn exclusion_rules_can_remove_all_outfits() {
    let blue = item("shirts:blue");
    let red = item("shirts:red");

    let jeans = item("pants:jeans");
    let slacks = item("pants:slacks");

    let shirts = family("shirts");
    let pants = family("pants");

    let catalog = build_catalog(CatalogAssembly {
        families: vec![
            (pants, vec![jeans.clone(), slacks.clone()]),
            (shirts, vec![red.clone(), blue.clone()]),
        ],
        exclusions: vec![
            CatalogExclusionRule {
                conditions: vec![red.clone()],
                exclusions: vec![jeans.clone(), slacks.clone()],
            },
            CatalogExclusionRule {
                conditions: vec![blue.clone()],
                exclusions: vec![jeans.clone(), slacks.clone()],
            },
        ],
        inclusions: vec![],
    })
    .expect("expected build to return Catalog");

    let expected: Vec<Vec<Item>> = vec![];
    assert_eq!(expected, catalog.combinations());
}

#[test]
fn exclusion_rules_can_remove_all_outfits_for_a_selection() {
    let blue = item("shirts:blue");
    let red = item("shirts:red");

    let jeans = item("pants:jeans");
    let slacks = item("pants:slacks");

    let shirts = family("shirts");
    let pants = family("pants");

    let catalog = build_catalog(CatalogAssembly {
        families: vec![
            (pants, vec![jeans.clone(), slacks.clone()]),
            (shirts, vec![red.clone(), blue.clone()]),
        ],
        exclusions: vec![CatalogExclusionRule {
            conditions: vec![blue.clone()],
            exclusions: vec![jeans.clone(), slacks.clone()],
        }],
        inclusions: vec![],
    })
    .expect("expected build to return Catalog");

    let expected = vec![
        vec![jeans.clone(), red.clone()],
        vec![slacks.clone(), red.clone()],
    ];
    assert_eq!(expected, catalog.combinations());
}

#[test]
fn exclusion_rules_must_have_a_condition() {
    let blue = item("shirts:blue");
    let red = item("shirts:red");

    let jeans = item("pants:jeans");
    let slacks = item("pants:slacks");

    let shirts = family("shirts");
    let pants = family("pants");

    let error = build_catalog(CatalogAssembly {
        families: vec![
            (pants, vec![jeans.clone(), slacks.clone()]),
            (shirts, vec![red.clone(), blue.clone()]),
        ],
        exclusions: vec![CatalogExclusionRule { conditions: vec![], exclusions: vec![jeans.clone()] }],
        inclusions: vec![],
    })
    .expect_err("expected build to return Error");

    assert_eq!(CatalogBuilderError::ExclusionMissingCondition, error);
}

#[test]
fn exclusion_rule_condition_must_have_family() {
    let blue = item("shirts:blue");
    let red = item("shirts:red");
    let black = item("shirts:black");

    let jeans = item("pants:jeans");
    let slacks = item("pants:slacks");

    let shirts = family("shirts");
    let pants = family("pants");

    let error = build_catalog(CatalogAssembly {
        families: vec![
            (pants, vec![jeans.clone(), slacks.clone()]),
            (shirts, vec![red.clone(), blue.clone()]),
        ],
        exclusions: vec![
            CatalogExclusionRule { conditions: vec![black.clone()], exclusions: vec![jeans.clone()] },
            CatalogExclusionRule { conditions: vec![jeans.clone()], exclusions: vec![black.clone()] },
        ],
        inclusions: vec![],
    })
    .expect_err("expected build to return Error");

    assert_eq!(CatalogBuilderError::ExclusionMissingFamily { item: black }, error);
}

#[test]
fn exclusion_rule_must_have_different_families_for_conditions_and_exclusions() {
    let blue = item("shirts:blue");
    let red = item("shirts:red");

    let jeans = item("pants:jeans");
    let slacks = item("pants:slacks");

    let shirts = family("shirts");
    let pants = family("pants");

    let error = build_catalog(CatalogAssembly {
        families: vec![
            (pants.clone(), vec![jeans.clone(), slacks.clone()]),
            (shirts.clone(), vec![red.clone(), blue.clone()]),
        ],
        exclusions: vec![
            CatalogExclusionRule { conditions: vec![jeans.clone()], exclusions: vec![slacks.clone()] },
            CatalogExclusionRule { conditions: vec![slacks.clone()], exclusions: vec![jeans.clone()] },
        ],
        inclusions: vec![],
    })
    .expect_err("expected build to return Error");

    assert_eq!(
        CatalogBuilderError::ExclusionFamilyConflict { family: pants, items: vec![jeans, slacks] },
        error
    );
}

#[test]
fn inclusion_rule_removes_single_outfit() {
    let blue = item("shirts:blue");
    let red = item("shirts:red");

    let jeans = item("pants:jeans");
    let slacks = item("pants:slacks");

    let shirts = family("shirts");
    let pants = family("pants");

    let catalog = build_catalog(CatalogAssembly {
        families: vec![
            (pants, vec![jeans.clone(), slacks.clone()]),
            (shirts, vec![red.clone(), blue.clone()]),
        ],
        exclusions: vec![],
        inclusions: vec![CatalogInclusionRule {
            conditions: vec![red.clone()],
            inclusions: vec![jeans.clone()],
        }],
    })
    .expect("expected build to return Catalog");

    let expected = vec![
        vec![jeans.clone(), blue.clone()],
        vec![jeans.clone(), red.clone()],
        vec![slacks.clone(), blue.clone()],
    ];
    assert_eq!(expected, catalog.combinations());
}

#[test]
fn inclusion_rules_removes_multiple_outfit() {
    let blue = item("shirts:blue");
    let red = item("shirts:red");

    let jeans = item("pants:jeans");
    let slacks = item("pants:slacks");

    let shirts = family("shirts");
    let pants = family("pants");

    let catalog = build_catalog(CatalogAssembly {
        families: vec![
            (pants, vec![jeans.clone(), slacks.clone()]),
            (shirts, vec![red.clone(), blue.clone()]),
        ],
        exclusions: vec![],
        inclusions: vec![
            CatalogInclusionRule { conditions: vec![red.clone()], inclusions: vec![jeans.clone()] },
            CatalogInclusionRule { conditions: vec![blue.clone()], inclusions: vec![slacks.clone()] },
        ],
    })
    .expect("expected build to return Catalog");

    let expected = vec![
        vec![jeans.clone(), red.clone()],
        vec![slacks.clone(), blue.clone()],
    ];
    assert_eq!(expected, catalog.combinations());
}

#[test]
fn inclusion_rules_can_remove_all_outfits() {
    let blue = item("shirts:blue");
    let red = item("shirts:red");

    let jeans = item("pants:jeans");
    let slacks = item("pants:slacks");

    let shirts = family("shirts");
    let pants = family("pants");

    let catalog = build_catalog(CatalogAssembly {
        families: vec![
            (pants, vec![jeans.clone(), slacks.clone()]),
            (shirts, vec![red.clone(), blue.clone()]),
        ],
        exclusions: vec![],
        inclusions: vec![
            CatalogInclusionRule {
                conditions: vec![red.clone()],
                inclusions: vec![jeans.clone(), slacks.clone()],
            },
            CatalogInclusionRule {
                conditions: vec![blue.clone()],
                inclusions: vec![jeans.clone(), slacks.clone()],
            },
        ],
    })
    .expect("expected build to return Catalog");

    let expected: Vec<Vec<Item>> = vec![];
    assert_eq!(expected, catalog.combinations());
}

#[test]
fn inclusion_rules_cannot_include_two_from_same_family() {
    let blue = item("shirts:blue");
    let red = item("shirts:red");

    let jeans = item("pants:jeans");
    let slacks = item("pants:slacks");

    let shirts = family("shirts");
    let pants = family("pants");

    let catalog = build_catalog(CatalogAssembly {
        families: vec![
            (pants, vec![jeans.clone(), slacks.clone()]),
            (shirts, vec![red.clone(), blue.clone()]),
        ],
        exclusions: vec![],
        inclusions: vec![CatalogInclusionRule {
            conditions: vec![red.clone()],
            inclusions: vec![jeans.clone(), slacks.clone()],
        }],
    })
    .expect("expected build to return Catalog");

    let expected = vec![
        vec![jeans.clone(), blue.clone()],
        vec![slacks.clone(), blue.clone()],
    ];
    assert_eq!(expected, catalog.combinations());
}

#[test]
fn inclusion_rules_must_have_a_condition() {
    let blue = item("shirts:blue");
    let red = item("shirts:red");

    let jeans = item("pants:jeans");
    let slacks = item("pants:slacks");

    let shirts = family("shirts");
    let pants = family("pants");

    let error = build_catalog(CatalogAssembly {
        families: vec![
            (pants, vec![jeans.clone(), slacks.clone()]),
            (shirts, vec![red.clone(), blue.clone()]),
        ],
        exclusions: vec![],
        inclusions: vec![CatalogInclusionRule { conditions: vec![], inclusions: vec![jeans.clone()] }],
    })
    .expect_err("expected build to return Error");

    assert_eq!(CatalogBuilderError::InclusionMissingCondition, error);
}

#[test]
fn inclusion_rule_condition_must_have_family() {
    let blue = item("shirts:blue");
    let red = item("shirts:red");
    let black = item("shirts:black");

    let jeans = item("pants:jeans");
    let slacks = item("pants:slacks");

    let shirts = family("shirts");
    let pants = family("pants");

    let error = build_catalog(CatalogAssembly {
        families: vec![
            (pants, vec![jeans.clone(), slacks.clone()]),
            (shirts, vec![red.clone(), blue.clone()]),
        ],
        exclusions: vec![],
        inclusions: vec![
            CatalogInclusionRule { conditions: vec![black.clone()], inclusions: vec![jeans.clone()] },
            CatalogInclusionRule { conditions: vec![jeans.clone()], inclusions: vec![black.clone()] },
        ],
    })
    .expect_err("expected build to return Error");

    assert_eq!(CatalogBuilderError::InclusionMissingFamily { item: black }, error);
}

#[test]
fn inclusion_rule_must_have_different_families_for_conditions_and_exclusions() {
    let blue = item("shirts:blue");
    let red = item("shirts:red");

    let jeans = item("pants:jeans");
    let slacks = item("pants:slacks");

    let shirts = family("shirts");
    let pants = family("pants");

    let error = build_catalog(CatalogAssembly {
        families: vec![
            (pants.clone(), vec![jeans.clone(), slacks.clone()]),
            (shirts.clone(), vec![red.clone(), blue.clone()]),
        ],
        exclusions: vec![],
        inclusions: vec![
            CatalogInclusionRule { conditions: vec![jeans.clone()], inclusions: vec![slacks.clone()] },
            CatalogInclusionRule { conditions: vec![slacks.clone()], inclusions: vec![jeans.clone()] },
        ],
    })
    .expect_err("expected build to return Error");

    assert_eq!(
        CatalogBuilderError::InclusionFamilyConflict { family: pants, items: vec![jeans, slacks] },
        error
    );
}
