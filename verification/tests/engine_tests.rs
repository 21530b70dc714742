use catalogs::catalog::CatalogError;
use catalogs::catalog::CatalogState;
use catalogs::catalog_builder::build_catalog;
use catalogs::catalog_builder::CatalogAssembly;
use catalogs::catalog_builder::CatalogExclusionRule;
use catalogs::catalog_builder::CatalogInclusionRule;
use catalogs::forest::Forest;
use catalogs::types::ItemStatus;
use catalogs::validation::CatalogBuilderError;

type Item = String;

fn item(id: &str) -> Item {
    Item::from(id)
}

fn items(ids: &[&str]) -> Vec<Item> {
    ids.iter().map(|s| Item::from(*s)).collect()
}

fn standard_assembly() -> CatalogAssembly {
    CatalogAssembly {
        families: vec![
            (item("pants"), items(&["pants:jeans", "pants:slacks"])),
            (item("shirts"), items(&["shirts:blue", "shirts:red"])),
        ],
        exclusions: vec![CatalogExclusionRule {
            conditions: items(&["shirts:red"]),
            exclusions: items(&["pants:jeans"]),
        }],
        inclusions: vec![],
    }
}

#[test]
fn forest_unique_sorts_and_deduplicates() {
    let f = Forest::unique(&items(&["b", "a", "b"]));
    assert_eq!(vec![items(&["a"]), items(&["b"])], f.trees());
    assert_eq!(2, f.len());
}

#[test]
fn forest_small_constructors() {
    assert_eq!(0, Forest::empty().len());
    assert_eq!(vec![items(&[])], Forest::unit().trees());
    assert_eq!(vec![items(&["a"])], Forest::single(&item("a")).trees());
}

#[test]
fn forest_many_is_canonical() {
    let f = Forest::many(&vec![
        items(&["y", "x"]),
        items(&["x", "y"]),
        items(&["x"]),
    ]);
    assert_eq!(vec![items(&["x"]), items(&["x", "y"])], f.trees());
}

#[test]
fn forest_product_unions_member_sets() {
    let a = Forest::unique(&items(&["a", "b"]));
    let b = Forest::unique(&items(&["c"]));
    let p = a.product(&b);
    assert_eq!(vec![items(&["a", "c"]), items(&["b", "c"])], p.trees());
}

#[test]
fn forest_product_commutes() {
    let a = Forest::unique(&items(&["a", "b"]));
    let b = Forest::unique(&items(&["c", "d"]));
    assert_eq!(a.product(&b), b.product(&a));
}

#[test]
fn forest_union_and_intersect() {
    let a = Forest::unique(&items(&["a", "b"]));
    let b = Forest::unique(&items(&["b", "c"]));
    let u = a.union(&b);
    assert_eq!(vec![items(&["a"]), items(&["b"]), items(&["c"])], u.trees());
    assert_eq!(u, b.union(&a));
    let i = a.intersect(&b);
    assert_eq!(vec![items(&["b"])], i.trees());
}

#[test]
fn forest_subset_filters() {
    let f = Forest::many(&vec![
        items(&["a", "c"]),
        items(&["b", "c"]),
        items(&["a", "d"]),
    ]);
    let with_a = f.subset_all(&items(&["a"]));
    assert_eq!(vec![items(&["a", "c"]), items(&["a", "d"])], with_a.trees());
    let without_c = f.subset_none(&items(&["c"]));
    assert_eq!(vec![items(&["a", "d"])], without_c.trees());
    // the two filters commute
    assert_eq!(
        f.subset_all(&items(&["a"])).subset_none(&items(&["c"])),
        f.subset_none(&items(&["c"])).subset_all(&items(&["a"]))
    );
}

#[test]
fn forest_occurrences_counts_member_sets() {
    let f = Forest::many(&vec![
        items(&["a", "c"]),
        items(&["b", "c"]),
        items(&["a", "d"]),
    ]);
    assert_eq!(
        vec![
            (item("a"), 2),
            (item("b"), 1),
            (item("c"), 2),
            (item("d"), 1),
        ],
        f.occurrences()
    );
}

#[test]
fn unit_is_product_identity() {
    let a = Forest::unique(&items(&["a", "b"]));
    assert_eq!(a, a.product(&Forest::unit()));
    assert_eq!(Forest::empty(), a.product(&Forest::empty()));
}

#[test]
fn state_combinations_restrict_and_chain() {
    let catalog = build_catalog(standard_assembly()).unwrap();
    let state = CatalogState::from_catalog(catalog);

    let (combos, state) = state.combinations(&items(&["shirts:blue"]), &vec![]).unwrap();
    assert_eq!(
        vec![
            items(&["pants:jeans", "shirts:blue"]),
            items(&["pants:slacks", "shirts:blue"]),
        ],
        combos
    );

    // the restriction law: the surviving outfits are exactly those holding
    // the selection and avoiding the exclusion
    let (combos, _) = state.combinations(&vec![], &items(&["pants:jeans"])).unwrap();
    assert_eq!(vec![items(&["pants:slacks", "shirts:blue"])], combos);
}

#[test]
fn state_options_classifies_items() {
    let catalog = build_catalog(standard_assembly()).unwrap();
    let state = CatalogState::from_catalog(catalog);

    let (options, _) = state.options(&items(&["shirts:red"]), &vec![]).unwrap();
    assert_eq!(
        vec![
            (
                item("pants"),
                vec![
                    ItemStatus::Excluded(item("pants:jeans")),
                    ItemStatus::Required(item("pants:slacks")),
                ]
            ),
            (
                item("shirts"),
                vec![
                    ItemStatus::Excluded(item("shirts:blue")),
                    ItemStatus::Selected(item("shirts:red")),
                ]
            ),
        ],
        options
    );
}

#[test]
fn selected_item_without_outfits_reports_excluded() {
    // red only pairs with jeans, and red forbids jeans: selecting red
    // leaves no outfit, so red is reported excluded although selected
    let assembly = CatalogAssembly {
        families: vec![
            (item("pants"), items(&["pants:jeans"])),
            (item("shirts"), items(&["shirts:blue", "shirts:red"])),
        ],
        exclusions: vec![CatalogExclusionRule {
            conditions: items(&["shirts:red"]),
            exclusions: items(&["pants:jeans"]),
        }],
        inclusions: vec![],
    };
    let catalog = build_catalog(assembly).unwrap();
    let state = CatalogState::from_catalog(catalog);
    let (options, _) = state.options(&items(&["shirts:red"]), &vec![]).unwrap();
    assert_eq!(
        vec![
            (item("pants"), vec![ItemStatus::Excluded(item("pants:jeans"))]),
            (
                item("shirts"),
                vec![
                    ItemStatus::Excluded(item("shirts:blue")),
                    ItemStatus::Excluded(item("shirts:red")),
                ]
            ),
        ],
        options
    );
}

#[test]
fn occurrence_counts_of_a_family_sum_to_the_total() {
    let catalog = build_catalog(standard_assembly()).unwrap();
    let total = catalog.total();
    let occurrences = catalog.item_occurrences();
    let pants_sum: usize = occurrences
        .iter()
        .filter(|(f, _)| f == "pants")
        .map(|(_, (_, c))| *c)
        .sum();
    let shirts_sum: usize = occurrences
        .iter()
        .filter(|(f, _)| f == "shirts")
        .map(|(_, (_, c))| *c)
        .sum();
    assert_eq!(3, total);
    assert_eq!(total, pants_sum);
    assert_eq!(total, shirts_sum);
}

#[test]
fn unknown_selections_and_exclusions_are_reported_apart() {
    let catalog = build_catalog(standard_assembly()).unwrap();
    let state = CatalogState::from_catalog(catalog.duplicate());

    let err = state.combinations(&items(&["shirts:black"]), &vec![]).unwrap_err();
    assert_eq!(CatalogError::UnknownSelections { items: items(&["shirts:black"]) }, err);

    let state = CatalogState::from_catalog(catalog.duplicate());
    let err = state.combinations(&vec![], &items(&["pants:velvet"])).unwrap_err();
    assert_eq!(CatalogError::UnknownExclusions { items: items(&["pants:velvet"]) }, err);

    let state = CatalogState::from_catalog(catalog);
    let err = state
        .combinations(&items(&["shirts:black"]), &items(&["pants:velvet"]))
        .unwrap_err();
    assert_eq!(
        CatalogError::UnknownItems {
            selections: items(&["shirts:black"]),
            exclusions: items(&["pants:velvet"]),
        },
        err
    );
}

#[test]
fn compound_errors_are_sorted_and_deduplicated() {
    let assembly = CatalogAssembly {
        families: vec![(item("shirts"), items(&["shirts:blue"]))],
        exclusions: vec![
            CatalogExclusionRule {
                conditions: items(&["shirts:zz"]),
                exclusions: items(&["shirts:blue"]),
            },
            CatalogExclusionRule {
                conditions: items(&["shirts:aa"]),
                exclusions: items(&["shirts:blue"]),
            },
            CatalogExclusionRule {
                conditions: items(&["shirts:zz"]),
                exclusions: items(&["shirts:blue"]),
            },
        ],
        inclusions: vec![],
    };
    let error = build_catalog(assembly).unwrap_err();
    assert_eq!(
        CatalogBuilderError::CompoundError {
            errors: vec![
                CatalogBuilderError::ExclusionMissingFamily { item: item("shirts:aa") },
                CatalogBuilderError::ExclusionMissingFamily { item: item("shirts:zz") },
            ]
        },
        error
    );
}

#[test]
fn validation_errors_do_not_depend_on_rule_order() {
    let rules = |flip: bool| {
        let a = CatalogInclusionRule {
            conditions: items(&["shirts:missing"]),
            inclusions: items(&["shirts:blue"]),
        };
        let b = CatalogInclusionRule {
            conditions: items(&["shirts:blue"]),
            inclusions: items(&["shirts:gone"]),
        };
        if flip {
            vec![b, a]
        } else {
            vec![a, b]
        }
    };
    let build = |flip: bool| {
        build_catalog(CatalogAssembly {
            families: vec![(item("shirts"), items(&["shirts:blue"]))],
            exclusions: vec![],
            inclusions: rules(flip),
        })
        .unwrap_err()
    };
    assert_eq!(build(false), build(true));
}

#[test]
fn partition_invariant_holds_in_every_outfit() {
    let assembly = CatalogAssembly {
        families: vec![
            (item("hats"), items(&["hats:cap", "hats:fedora"])),
            (item("pants"), items(&["pants:jeans", "pants:slacks"])),
            (item("shirts"), items(&["shirts:blue", "shirts:red"])),
        ],
        exclusions: vec![CatalogExclusionRule {
            conditions: items(&["hats:cap", "shirts:red"]),
            exclusions: items(&["pants:jeans"]),
        }],
        inclusions: vec![],
    };
    let catalog = build_catalog(assembly).unwrap();
    let combos = catalog.combinations();
    assert_eq!(7, combos.len());
    for outfit in &combos {
        let mut families: Vec<&str> = outfit
            .iter()
            .map(|it| it.split(':').next().unwrap())
            .collect();
        let before = families.len();
        families.dedup();
        assert_eq!(before, families.len());
        assert_eq!(3, outfit.len());
    }
}

#[test]
fn multi_condition_rule_fires_only_when_every_condition_holds() {
    let assembly = CatalogAssembly {
        families: vec![
            (item("hats"), items(&["hats:cap", "hats:fedora"])),
            (item("pants"), items(&["pants:jeans", "pants:slacks"])),
            (item("shirts"), items(&["shirts:blue", "shirts:red"])),
        ],
        exclusions: vec![CatalogExclusionRule {
            conditions: items(&["hats:cap", "shirts:red"]),
            exclusions: items(&["pants:jeans"]),
        }],
        inclusions: vec![],
    };
    let catalog = build_catalog(assembly).unwrap();
    assert_eq!(
        vec![
            items(&["hats:cap", "pants:jeans", "shirts:blue"]),
            items(&["hats:cap", "pants:slacks", "shirts:blue"]),
            items(&["hats:cap", "pants:slacks", "shirts:red"]),
            items(&["hats:fedora", "pants:jeans", "shirts:blue"]),
            items(&["hats:fedora", "pants:jeans", "shirts:red"]),
            items(&["hats:fedora", "pants:slacks", "shirts:blue"]),
            items(&["hats:fedora", "pants:slacks", "shirts:red"]),
        ],
        catalog.combinations()
    );
}

#[test]
fn inclusion_scenario_keeps_required_partner() {
    let assembly = CatalogAssembly {
        families: vec![
            (item("pants"), items(&["pants:jeans", "pants:slacks"])),
            (item("shirts"), items(&["shirts:blue", "shirts:red"])),
        ],
        exclusions: vec![],
        inclusions: vec![CatalogInclusionRule {
            conditions: items(&["shirts:red"]),
            inclusions: items(&["pants:jeans"]),
        }],
    };
    let catalog = build_catalog(assembly).unwrap();
    assert_eq!(
        vec![
            items(&["pants:jeans", "shirts:blue"]),
            items(&["pants:jeans", "shirts:red"]),
            items(&["pants:slacks", "shirts:blue"]),
        ],
        catalog.combinations()
    );
}

#[test]
fn restrict_then_restrict_equals_combined_restriction() {
    let catalog = build_catalog(standard_assembly()).unwrap();
    let twice = catalog
        .duplicate()
        .restrict(&items(&["shirts:blue"]), &vec![])
        .restrict(&vec![], &items(&["pants:jeans"]));
    let once = catalog.restrict(&items(&["shirts:blue"]), &items(&["pants:jeans"]));
    assert_eq!(once, twice);
}
