use catalogs::inner::Catalog;
use catalogs::inner::CatalogBuilder;
use catalogs::inner::CatalogError;
use catalogs::types::ItemStatus;

type Item = String;
type Family = String;

fn item(id: &str) -> Item {
    Item::from(id)
}

fn family(id: &str) -> Family {
    Family::from(id)
}

fn fixture() -> Catalog {
    let blue = item("shirts:blue");
    let red = item("shirts:red");

    let jeans = item("pants:jeans");
    let slacks = item("pants:slacks");

    let shirts = family("shirts");
    let pants = family("pants");

    let catalog_builder = CatalogBuilder::new()
        .add_item(&shirts, &red)
        .add_item(&shirts, &blue)
        .add_item(&pants, &slacks)
        .add_item(&pants, &jeans)
        .add_exclusion_rule(&red, &jeans);

    catalog_builder.build().expect("expected build to return Catalog")
}

#[test]
fn options_with_empty_selections_has_all_options_available() {
    let blue = item("shirts:blue");
    let red = item("shirts:red");
    let jeans = item("pants:jeans");
    let slacks = item("pants:slacks");
    let shirts = family("shirts");
    let pants = family("pants");

    let catalog = fixture();

    let options = catalog.options(&vec![], &vec![]).unwrap();
    assert_eq!(
        vec![
            (pants, vec![ItemStatus::Available(slacks), ItemStatus::Available(jeans)]),
            (shirts, vec![ItemStatus::Available(red), ItemStatus::Available(blue)]),
        ],
        options
    );
}

#[test]
fn options_with_one_selection_has_correct_options() {
    let blue = item("shirts:blue");
    let red = item("shirts:red");
    let jeans = item("pants:jeans");
    let slacks = item("pants:slacks");
    let shirts = family("shirts");
    let pants = family("pants");

    let catalog = fixture();

    let options = catalog.options(&vec![red.clone()], &vec![]).unwrap();
    assert_eq!(
        vec![
            (
                pants.clone(),
                vec![ItemStatus::Required(slacks.clone()), ItemStatus::Excluded(jeans.clone())]
            ),
            (
                shirts.clone(),
                vec![ItemStatus::Selected(red.clone()), ItemStatus::Excluded(blue.clone())]
            ),
        ],
        options
    );

    let options = catalog.options(&vec![blue.clone()], &vec![]).unwrap();
    assert_eq!(
        vec![
            (
                pants.clone(),
                vec![ItemStatus::Available(slacks.clone()), ItemStatus::Available(jeans.clone())]
            ),
            (
                shirts.clone(),
                vec![ItemStatus::Excluded(red.clone()), ItemStatus::Selected(blue.clone())]
            ),
        ],
        options
    );
}

#[test]
fn options_with_red_excluded_has_correct_options() {
    let blue = item("shirts:blue");
    let red = item("shirts:red");
    let jeans = item("pants:jeans");
    let slacks = item("pants:slacks");
    let shirts = family("shirts");
    let pants = family("pants");

    let catalog = fixture();

    let options = catalog.options(&vec![], &vec![red.clone()]).unwrap();
    assert_eq!(
        vec![
            (
                pants.clone(),
                vec![ItemStatus::Available(slacks.clone()), ItemStatus::Available(jeans.clone())]
            ),
            (
                shirts.clone(),
                vec![ItemStatus::Excluded(red.clone()), ItemStatus::Required(blue.clone())]
            ),
        ],
        options
    );

    let options = catalog.options(&vec![], &vec![blue.clone()]).unwrap();
    assert_eq!(
        vec![
            (
                pants.clone(),
                vec![ItemStatus::Required(slacks.clone()), ItemStatus::Excluded(jeans.clone())]
            ),
            (
                shirts.clone(),
                vec![ItemStatus::Required(red.clone()), ItemStatus::Excluded(blue.clone())]
            ),
        ],
        options
    );
}

#[test]
fn options_with_unknown_selection_returns_error() {
    let black = item("shirts:black");

    let catalog = fixture();

    let options = catalog.options(&vec![black.clone()], &vec![]).unwrap_err();
    assert_eq!(CatalogError::UnknownItems(vec![black.clone()]), options);
}

#[test]
fn options_with_unknown_exclusion_returns_error() {
    let black = item("shirts:black");

    let catalog = fixture();

    let options = catalog.options(&vec![], &vec![black.clone()]).unwrap_err();
    assert_eq!(CatalogError::UnknownItems(vec![black.clone()]), options);
}

#[test]
fn outfits_with_empty_selections_has_all_outfits_available() {
    let blue = item("shirts:blue");
    let red = item("shirts:red");
    let jeans = item("pants:jeans");
    let slacks = item("pants:slacks");

    let catalog = fixture();

    let outfits = catalog.outfits(&vec![], &vec![]).unwrap();
    assert_eq!(
        vec![
            vec![jeans.clone(), blue.clone()],
            vec![slacks.clone(), blue.clone()],
            vec![slacks.clone(), red.clone()],
        ],
        outfits
    );
}

#[test]
fn outfits_with_one_selection_has_correct_outfits() {
    let blue = item("shirts:blue");
    let red = item("shirts:red");
    let jeans = item("pants:jeans");
    let slacks = item("pants:slacks");

    let catalog = fixture();

    let outfits = catalog.outfits(&vec![red.clone()], &vec![]).unwrap();
    assert_eq!(vec![vec![slacks.clone(), red.clone()]], outfits);

    let outfits = catalog.outfits(&vec![blue.clone()], &vec![]).unwrap();
    assert_eq!(
        vec![
            vec![jeans.clone(), blue.clone()],
            vec![slacks.clone(), blue.clone()],
        ],
        outfits
    );
}

#[test]
fn outfits_with_red_excluded_has_correct_outfits() {
    let blue = item("shirts:blue");
    let red = item("shirts:red");
    let jeans = item("pants:jeans");
    let slacks = item("pants:slacks");

    let catalog = fixture();

    let outfits = catalog.outfits(&vec![], &vec![red.clone()]).unwrap();
    assert_eq!(
        vec![
            vec![jeans.clone(), blue.clone()],
            vec![slacks.clone(), blue.clone()],
        ],
        outfits
    );

    let outfits = catalog.outfits(&vec![], &vec![blue.clone()]).unwrap();
    assert_eq!(vec![vec![slacks.clone(), red.clone()]], outfits);
}

#[test]
fn outfits_with_unknown_selection_returns_error() {
    let black = item("shirts:black");

    let catalog = fixture();

    let outfits = catalog.outfits(&vec![black.clone()], &vec![]).unwrap_err();
    assert_eq!(CatalogError::UnknownItems(vec![black.clone()]), outfits);
}

#[test]
fn outfits_with_unknown_exclusion_returns_error() {
    let black = item("shirts:black");

    let catalog = fixture();

    let outfits = catalog.outfits(&vec![], &vec![black.clone()]).unwrap_err();
    assert_eq!(CatalogError::UnknownItems(vec![black.clone()]), outfits);
}

#[test]
fn order_doesnt_matter_when_selecting_multiple() {
    let red = item("shirts:red");
    let jeans = item("pants:jeans");
    let catalog = fixture();

    let catalog1 = catalog.select(&vec![red.clone(), jeans.clone()]).unwrap();
    let catalog2 = catalog.select(&vec![jeans.clone(), red.clone()]).unwrap();
    assert_eq!(catalog1, catalog2);
}

#[test]
fn selecting_duplicates_doesnt_matter() {
    let red = item("shirts:red");
    let catalog = fixture();

    let catalog1 = catalog.select(&vec![red.clone(), red.clone()]).unwrap();
    let catalog2 = catalog.select(&vec![red.clone()]).unwrap();
    assert_eq!(catalog1, catalog2);
}

#[test]
fn selecting_red_is_the_same_as_filtering_outfits() {
    let red = item("shirts:red");

    let catalog_pre = fixture();
    let outfits_pre = catalog_pre.outfits(&vec![red.clone()], &vec![]);
    let options_pre = catalog_pre.options(&vec![red.clone()], &vec![]);

    let catalog = catalog_pre.select(&vec![red.clone()]).unwrap();
    let outfits = catalog.outfits(&vec![], &vec![]);
    let options = catalog.options(&vec![], &vec![]);

    assert_eq!(outfits_pre, outfits);
    assert_eq!(options_pre, options);
}

#[test]
fn selecting_multiple_is_the_same_as_filtering_outfits() {
    let red = item("shirts:red");
    let slacks = item("pants:slacks");

    let catalog_pre = fixture();
    let outfits_pre = catalog_pre.outfits(&vec![red.clone(), slacks.clone()], &vec![]);
    let options_pre = catalog_pre.options(&vec![red.clone(), slacks.clone()], &vec![]);

    let catalog = catalog_pre.select(&vec![red.clone(), slacks.clone()]).unwrap();
    let outfits = catalog.outfits(&vec![], &vec![]);
    let options = catalog.options(&vec![], &vec![]);

    assert_eq!(outfits_pre, outfits);
    assert_eq!(options_pre, options);
}

#[test]
fn selecting_black_returns_an_error() {
    let black = item("shirts:black");

    let catalog = fixture();

    let outfits = catalog.select(&vec![black.clone()]).unwrap_err();
    assert_eq!(CatalogError::UnknownItems(vec![black.clone()]), outfits);
}
