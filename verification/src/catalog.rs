//! The compiled catalog: an immutable forest of valid outfits together with
//! the item-to-family index, and the stateful facade that narrows it with
//! accumulated selections and exclusions.

use vstd::prelude::*;

use crate::forest::contains_all;
use crate::forest::contains_none;
use crate::forest::Forest;
use crate::forest::all_filter;
use crate::forest::none_filter;
use crate::forest::clone_string;
use crate::forest::forest_view;
use crate::forest::insert_item;
use crate::forest::item_eq;
use crate::forest::occurrence_count;
use crate::forest::tree_contains;
use crate::forest::tree_sorted;
use crate::forest::tree_view;
use crate::types::Family;
use crate::types::Item;
use crate::types::ItemStatus;
use crate::validation::family_of;
use crate::validation::index_lookup;
use crate::validation::registered;

verus! {

/// Keys of the item index are pairwise distinct.
pub open spec fn index_distinct(index: Seq<(Item, Family)>) -> bool {
    forall|i: int, j: int|
        0 <= i < j < index.len() ==> (#[trigger] index[i]).0@ != (#[trigger] index[j]).0@
}

/// An outfit drawn from the index: every item is registered, and no two
/// items share a family.
pub open spec fn outfit_wf(index: Seq<(Item, Family)>, o: Set<Seq<char>>) -> bool {
    &&& forall|x: Seq<char>| #[trigger] o.contains(x) ==> registered(index, x)
    &&& forall|x: Seq<char>, y: Seq<char>|
        o.contains(x) && o.contains(y) && x != y ==> #[trigger] family_of(index, x)
            != #[trigger] family_of(index, y)
}

/// The outfit holds an item of every family the index knows.
pub open spec fn outfit_covers(index: Seq<(Item, Family)>, o: Set<Seq<char>>) -> bool {
    forall|k: int|
        0 <= k < index.len() ==> exists|x: Seq<char>|
            o.contains(x) && family_of(index, x) == (#[trigger] index[k]).1@
}

/// Keep the outfits holding all of `s` and none of `e`.
pub open spec fn restrict_filter(s: Seq<Seq<char>>, e: Seq<Seq<char>>) -> spec_fn(
    Set<Seq<char>>,
) -> bool {
    |o: Set<Seq<char>>| contains_all(o, s) && contains_none(o, e)
}

/// The sublist of `items` that the index does not know, in input order.
pub open spec fn unknown_items(index: Seq<(Item, Family)>, items: Seq<Seq<char>>) -> Seq<Seq<char>>
    decreases items.len(),
{
    if items.len() == 0 {
        Seq::empty()
    } else {
        unknown_items(index, items.drop_last()) + (if registered(index, items.last()) {
            Seq::empty()
        } else {
            seq![items.last()]
        })
    }
}

/// An immutable compiled catalog: the forest of valid outfits and the item
/// index. Narrowing never changes the index.
#[derive(Debug, PartialEq, Eq)]
pub struct Catalog {
    combinations: Forest,
    items: Vec<(Item, Family)>,
}

impl Catalog {
    /// The canonical enumeration of the outfit family.
    pub closed spec fn enum_view(self) -> Seq<Seq<Seq<char>>> {
        self.combinations@
    }

    /// The set of valid outfits.
    pub open spec fn sets(self) -> Set<Set<Seq<char>>> {
        crate::forest::sets_of(self.enum_view())
    }

    /// The item index.
    pub closed spec fn index(self) -> Seq<(Item, Family)> {
        self.items@
    }

    pub open spec fn wf(self) -> bool {
        &&& crate::forest::forest_sorted(self.enum_view())
        &&& index_distinct(self.index())
        &&& forall|o: Set<Seq<char>>| #[trigger] self.sets().contains(o) ==> outfit_wf(self.index(), o)
    }

    /// Every outfit picks an item from every family.
    pub open spec fn complete(self) -> bool {
        forall|o: Set<Seq<char>>|
            #[trigger] self.sets().contains(o) ==> outfit_covers(self.index(), o)
    }

    pub fn new(combinations: Forest, items: Vec<(Item, Family)>) -> (r: Catalog)
        ensures
            r.enum_view() == combinations@,
            r.sets() == combinations.sets(),
            r.index() == items@,
    {
        Catalog { combinations, items }
    }

    /// Narrow the catalog: keep the outfits holding every selection and no
    /// exclusion. The item index is unchanged.
    pub fn restrict(self, selections: &Vec<Item>, exclusions: &Vec<Item>) -> (r: Catalog)
        requires
            self.wf(),
        ensures
            r.wf(),
            r.index() == self.index(),
            r.sets() == self.sets().filter(
                restrict_filter(tree_view(*selections), tree_view(*exclusions)),
            ),
            self.complete() ==> r.complete(),
    {
        let kept = self.combinations.subset_all(selections);
        let kept = kept.subset_none(exclusions);
        proof {
            let sf = all_filter(tree_view(*selections));
            let ef = none_filter(tree_view(*exclusions));
            let rf = restrict_filter(tree_view(*selections), tree_view(*exclusions));
            assert(self.sets().filter(sf).filter(ef) =~= self.sets().filter(rf));
            assert forall|o: Set<Seq<char>>|
                self.sets().filter(rf).contains(o) implies outfit_wf(self.index(), o) by {
                assert(self.sets().contains(o));
            }
            if self.complete() {
                assert forall|o: Set<Seq<char>>|
                    self.sets().filter(rf).contains(o) implies outfit_covers(self.index(), o) by {
                    assert(self.sets().contains(o));
                }
            }
        }
        Catalog { combinations: kept, items: self.items }
    }

    /// Every valid outfit, as canonical item vectors in the canonical
    /// order.
    pub fn combinations(&self) -> (r: Vec<Vec<Item>>)
        ensures
            forest_view(r) == self.enum_view(),
    {
        self.combinations.trees()
    }

    /// The number of valid outfits.
    pub fn total(&self) -> (r: usize)
        ensures
            r == self.enum_view().len(),
            self.wf() ==> r == self.sets().len(),
    {
        self.combinations.len()
    }

    /// The family an item is registered under.
    pub fn family(&self, item: &Item) -> (r: Option<Family>)
        ensures
            match r {
                Some(f) => registered(self.index(), item@) && f@ == family_of(self.index(), item@),
                None => !registered(self.index(), item@),
            },
    {
        index_lookup(&self.items, item)
    }

    /// The sublist of `items` the catalog does not know, in input order.
    pub fn not_recognized(&self, items: &Vec<Item>) -> (r: Vec<Item>)
        ensures
            tree_view(r) == unknown_items(self.index(), tree_view(*items)),
    {
        let n = items.len();
        let mut r: Vec<Item> = Vec::new();
        let mut i: usize = 0;
        proof {
            assert(tree_view(*items).take(0) =~= Seq::<Seq<char>>::empty());
            assert(tree_view(r) =~= unknown_items(self.index(), tree_view(*items).take(0)));
        }
        while i < n
            invariant
                n == items@.len(),
                i <= n,
                tree_view(r) == unknown_items(self.index(), tree_view(*items).take(i as int)),
            decreases n - i,
        {
            let known = index_lookup(&self.items, &items[i]);
            let ghost itv = tree_view(*items)[i as int];
            proof {
                assert(itv == items@[i as int]@);
                assert(tree_view(*items).take(i + 1).drop_last() =~= tree_view(*items).take(
                    i as int,
                ));
                assert(tree_view(*items).take(i + 1).last() == itv);
            }
            match known {
                Some(_) => {
                    proof {
                        assert(tree_view(r) =~= unknown_items(
                            self.index(),
                            tree_view(*items).take(i + 1),
                        ));
                    }
                },
                None => {
                    r.push(clone_string(&items[i]));
                    proof {
                        assert(tree_view(r) =~= unknown_items(
                            self.index(),
                            tree_view(*items).take(i + 1),
                        ));
                    }
                },
            }
            i = i + 1;
        }
        proof {
            assert(tree_view(*items).take(n as int) =~= tree_view(*items));
        }
        r
    }

    /// For every indexed item, in index order: its family and the number
    /// of valid outfits holding it. An item in no outfit counts zero.
    pub fn item_occurrences(&self) -> (r: Vec<(Family, (Item, usize))>)
        ensures
            r@.len() == self.index().len(),
            forall|k: int|
                0 <= k < r@.len() ==> {
                    &&& (#[trigger] r@[k]).0@ == self.index()[k].1@
                    &&& r@[k].1.0@ == self.index()[k].0@
                    &&& r@[k].1.1 == occurrence_count(self.enum_view(), self.index()[k].0@)
                },
    {
        let n = self.items.len();
        let mut r: Vec<(Family, (Item, usize))> = Vec::new();
        let mut i: usize = 0;
        while i < n
            invariant
                n == self.items@.len(),
                i <= n,
                r@.len() == i,
                forall|k: int|
                    0 <= k < i ==> {
                        &&& (#[trigger] r@[k]).0@ == self.index()[k].1@
                        &&& r@[k].1.0@ == self.index()[k].0@
                        &&& r@[k].1.1 == occurrence_count(self.enum_view(), self.index()[k].0@)
                    },
            decreases n - i,
        {
            let count = self.combinations.count_item(&self.items[i].0);
            let fam = clone_string(&self.items[i].1);
            let it = clone_string(&self.items[i].0);
            r.push((fam, (it, count)));
            i = i + 1;
        }
        r
    }
}

/// An error answering a query against a catalog state.
#[derive(Debug, PartialEq, Eq)]
pub enum CatalogError {
    UnknownSelections { items: Vec<Item> },
    UnknownExclusions { items: Vec<Item> },
    BadState,
    UnknownItems { selections: Vec<Item>, exclusions: Vec<Item> },
}

/// The mathematical shape of a catalog query error.
pub enum CatalogErrorView {
    UnknownSelections { items: Seq<Seq<char>> },
    UnknownExclusions { items: Seq<Seq<char>> },
    BadState,
    UnknownItems { selections: Seq<Seq<char>>, exclusions: Seq<Seq<char>> },
}

impl View for CatalogError {
    type V = CatalogErrorView;

    open spec fn view(&self) -> CatalogErrorView {
        match self {
            CatalogError::UnknownSelections { items } => {
                CatalogErrorView::UnknownSelections { items: tree_view(*items) }
            },
            CatalogError::UnknownExclusions { items } => {
                CatalogErrorView::UnknownExclusions { items: tree_view(*items) }
            },
            CatalogError::BadState => CatalogErrorView::BadState,
            CatalogError::UnknownItems { selections, exclusions } => {
                CatalogErrorView::UnknownItems {
                    selections: tree_view(*selections),
                    exclusions: tree_view(*exclusions),
                }
            },
        }
    }
}

/// The error a query with the given unknown selections and exclusions is
/// answered with; meaningful when one of the two lists is non-empty.
pub open spec fn unknown_error_view(s: Seq<Seq<char>>, e: Seq<Seq<char>>) -> CatalogErrorView {
    if s.len() > 0 && e.len() > 0 {
        CatalogErrorView::UnknownItems { selections: s, exclusions: e }
    } else if s.len() > 0 {
        CatalogErrorView::UnknownSelections { items: s }
    } else {
        CatalogErrorView::UnknownExclusions { items: e }
    }
}

/// The sorted, duplicate-free union of two item lists: how selection and
/// exclusion histories accumulate.
pub fn chain(v1: &Vec<Item>, v2: &Vec<Item>) -> (r: Vec<Item>)
    ensures
        tree_sorted(tree_view(r)),
        tree_view(r).to_set() == tree_view(*v1).to_set().union(tree_view(*v2).to_set()),
{
    let a = crate::forest::canonical_tree(v1);
    let b = crate::forest::canonical_tree(v2);
    crate::forest::merge_trees(&a, &b)
}

/// How an item with `count` occurrences stands, out of `total` remaining
/// outfits, against the effective selections. An impossible item is
/// excluded even when selected; a selected item is never called required.
pub open spec fn classify(
    item: Seq<char>,
    count: nat,
    total: nat,
    selected: Set<Seq<char>>,
) -> ItemStatus<Seq<char>> {
    if count == 0 {
        ItemStatus::Excluded(item)
    } else if selected.contains(item) {
        ItemStatus::Selected(item)
    } else if count == total {
        ItemStatus::Required(item)
    } else {
        ItemStatus::Available(item)
    }
}

/// The classified items of family `f`, in index order.
pub open spec fn family_statuses(
    index: Seq<(Item, Family)>,
    fv: Seq<Seq<Seq<char>>>,
    f: Seq<char>,
    total: nat,
    selected: Set<Seq<char>>,
) -> Seq<ItemStatus<Seq<char>>>
    decreases index.len(),
{
    if index.len() == 0 {
        Seq::empty()
    } else {
        family_statuses(index.drop_last(), fv, f, total, selected) + (
        if index.last().1@ == f {
            seq![
                classify(
                    index.last().0@,
                    occurrence_count(fv, index.last().0@),
                    total,
                    selected,
                ),
            ]
        } else {
            Seq::empty()
        })
    }
}

/// The family names the index knows.
/// The family name one index entry contributes.
pub open spec fn family_name_set(p: (Item, Family)) -> Set<Seq<char>> {
    Set::empty().insert(p.1@)
}

pub open spec fn family_name_set_fn() -> spec_fn((Item, Family)) -> Set<Seq<char>> {
    |p: (Item, Family)| family_name_set(p)
}

/// Every family name the index mentions.
pub open spec fn families_of(index: Seq<(Item, Family)>) -> Set<Seq<char>> {
    crate::validation::union_of(index, family_name_set_fn())
}

/// The abstract shape of a status listing.
pub open spec fn statuses_view(s: Seq<ItemStatus<Item>>) -> Seq<ItemStatus<Seq<char>>> {
    s.map_values(|st: ItemStatus<Item>| st@)
}

/// The classification of every item, grouped by family.
pub type OptionsByFamily = Vec<(Family, Vec<ItemStatus<Item>>)>;

/// The family names of an options listing, in listing order.
pub open spec fn options_keys(r: Seq<(Family, Vec<ItemStatus<Item>>)>) -> Seq<Seq<char>> {
    r.map_values(|p: (Family, Vec<ItemStatus<Item>>)| p.0@)
}

/// A catalog plus the selections and exclusions already committed:
/// incremental narrowing returns a new state and never mutates.
#[derive(Debug, PartialEq, Eq)]
pub struct CatalogState {
    catalog: Catalog,
    selections: Vec<Item>,
    exclusions: Vec<Item>,
}

impl CatalogState {
    pub closed spec fn catalog_spec(self) -> Catalog {
        self.catalog
    }

    pub closed spec fn selections_view(self) -> Seq<Seq<char>> {
        tree_view(self.selections)
    }

    pub closed spec fn exclusions_view(self) -> Seq<Seq<char>> {
        tree_view(self.exclusions)
    }

    pub open spec fn wf(self) -> bool {
        &&& self.catalog_spec().wf()
        &&& tree_sorted(self.selections_view())
        &&& tree_sorted(self.exclusions_view())
    }

    /// A fresh state over a compiled catalog, with empty histories.
    pub fn from_catalog(catalog: Catalog) -> (r: CatalogState)
        ensures
            r.catalog_spec() == catalog,
            r.selections_view() == Seq::<Seq<char>>::empty(),
            r.exclusions_view() == Seq::<Seq<char>>::empty(),
    {
        let r = CatalogState { catalog, selections: Vec::new(), exclusions: Vec::new() };
        proof {
            assert(r.selections_view() =~= Seq::<Seq<char>>::empty());
            assert(r.exclusions_view() =~= Seq::<Seq<char>>::empty());
        }
        r
    }

    /// Every valid outfit compatible with the given selections and
    /// exclusions, together with the narrowed state. Fails exactly when an
    /// input item is unknown, naming the offending items.
    pub fn combinations(self, selections: &Vec<Item>, exclusions: &Vec<Item>) -> (r: Result<
        (Vec<Vec<Item>>, CatalogState),
        CatalogError,
    >)
        requires
            self.wf(),
        ensures
            ({
                let unk_s = unknown_items(self.catalog_spec().index(), tree_view(*selections));
                let unk_e = unknown_items(self.catalog_spec().index(), tree_view(*exclusions));
                match r {
                    Err(e) => (unk_s.len() > 0 || unk_e.len() > 0) && e@ == unknown_error_view(
                        unk_s,
                        unk_e,
                    ),
                    Ok((combos, st)) => {
                        &&& unk_s.len() == 0
                        &&& unk_e.len() == 0
                        &&& st.wf()
                        &&& forest_view(combos) == st.catalog_spec().enum_view()
                        &&& st.catalog_spec().index() == self.catalog_spec().index()
                        &&& st.catalog_spec().sets() == self.catalog_spec().sets().filter(
                            restrict_filter(tree_view(*selections), tree_view(*exclusions)),
                        )
                        &&& st.selections_view().to_set() == self.selections_view().to_set().union(
                            tree_view(*selections).to_set(),
                        )
                        &&& st.exclusions_view().to_set() == self.exclusions_view().to_set().union(
                            tree_view(*exclusions).to_set(),
                        )
                        &&& (self.catalog_spec().complete() ==> st.catalog_spec().complete())
                    },
                }
            }),
    {
        let r = validate_selections_and_exclusions(&self.catalog, selections, exclusions);
        match r {
            Err(e) => Err(e),
            Ok(()) => {
                let new_selections = chain(&self.selections, selections);
                let new_exclusions = chain(&self.exclusions, exclusions);
                let catalog = self.catalog.restrict(selections, exclusions);
                let combos = catalog.combinations();
                let st = CatalogState { catalog, selections: new_selections, exclusions: new_exclusions };
                Ok((combos, st))
            },
        }
    }
}

/// Reject a query that names items outside the catalog's index.
fn validate_selections_and_exclusions(
    catalog: &Catalog,
    selections: &Vec<Item>,
    exclusions: &Vec<Item>,
) -> (r: Result<(), CatalogError>)
    ensures
        ({
            let unk_s = unknown_items(catalog.index(), tree_view(*selections));
            let unk_e = unknown_items(catalog.index(), tree_view(*exclusions));
            match r {
                Err(e) => (unk_s.len() > 0 || unk_e.len() > 0) && e@ == unknown_error_view(
                    unk_s,
                    unk_e,
                ),
                Ok(()) => unk_s.len() == 0 && unk_e.len() == 0,
            }
        }),
{
    let unknown_selections = catalog.not_recognized(selections);
    let unknown_exclusions = catalog.not_recognized(exclusions);
    let ns = unknown_selections.len();
    let ne = unknown_exclusions.len();
    proof {
        assert(tree_view(unknown_selections).len() == unknown_selections@.len());
        assert(tree_view(unknown_exclusions).len() == unknown_exclusions@.len());
    }
    if ns == 0 && ne == 0 {
        Ok(())
    } else if ne == 0 {
        Err(CatalogError::UnknownSelections { items: unknown_selections })
    } else if ns == 0 {
        Err(CatalogError::UnknownExclusions { items: unknown_exclusions })
    } else {
        Err(
            CatalogError::UnknownItems {
                selections: unknown_selections,
                exclusions: unknown_exclusions,
            },
        )
    }
}

impl CatalogState {
    /// Classify every indexed item against the narrowed catalog, grouped
    /// by family in ascending family order, items in index order; return
    /// the classification and the narrowed state. Fails exactly when an
    /// input item is unknown, naming the offending items.
    pub fn options(self, selections: &Vec<Item>, exclusions: &Vec<Item>) -> (r: Result<
        (OptionsByFamily, CatalogState),
        CatalogError,
    >)
        requires
            self.wf(),
        ensures
            ({
                let unk_s = unknown_items(self.catalog_spec().index(), tree_view(*selections));
                let unk_e = unknown_items(self.catalog_spec().index(), tree_view(*exclusions));
                match r {
                    Err(e) => (unk_s.len() > 0 || unk_e.len() > 0) && e@ == unknown_error_view(
                        unk_s,
                        unk_e,
                    ),
                    Ok((ops, st)) => {
                        &&& unk_s.len() == 0
                        &&& unk_e.len() == 0
                        &&& st.wf()
                        &&& st.catalog_spec().index() == self.catalog_spec().index()
                        &&& st.catalog_spec().sets() == self.catalog_spec().sets().filter(
                            restrict_filter(tree_view(*selections), tree_view(*exclusions)),
                        )
                        &&& st.selections_view().to_set() == self.selections_view().to_set().union(
                            tree_view(*selections).to_set(),
                        )
                        &&& st.exclusions_view().to_set() == self.exclusions_view().to_set().union(
                            tree_view(*exclusions).to_set(),
                        )
                        &&& (self.catalog_spec().complete() ==> st.catalog_spec().complete())
                        &&& tree_sorted(options_keys(ops@))
                        &&& options_keys(ops@).to_set() == families_of(self.catalog_spec().index())
                        &&& forall|g: int|
                            0 <= g < ops@.len() ==> statuses_view((#[trigger] ops@[g]).1@)
                                == family_statuses(
                                self.catalog_spec().index(),
                                st.catalog_spec().enum_view(),
                                options_keys(ops@)[g],
                                st.catalog_spec().sets().len(),
                                self.selections_view().to_set().union(
                                    tree_view(*selections).to_set(),
                                ),
                            )
                    },
                }
            }),
    {
        let v = validate_selections_and_exclusions(&self.catalog, selections, exclusions);
        match v {
            Err(e) => Err(e),
            Ok(()) => {
                let effective_selections = chain(&self.selections, selections);
                let effective_exclusions = chain(&self.exclusions, exclusions);
                let catalog = self.catalog.restrict(selections, exclusions);
                let total = catalog.total();
                let occ = catalog.item_occurrences();
                let ghost idx = catalog.index();
                let ghost fv = catalog.enum_view();
                let ghost selset = tree_view(effective_selections).to_set();

                let n = occ.len();
                let mut fams: Vec<Family> = Vec::new();
                let mut k: usize = 0;
                proof {
                    crate::validation::lemma_union_of_take_zero(idx, family_name_set_fn());
                    assert(tree_view(fams) =~= Seq::<Seq<char>>::empty());
                    assert(tree_view(fams).to_set() =~= crate::validation::union_of(
                        idx.take(0),
                        family_name_set_fn(),
                    ));
                }
                while k < n
                    invariant
                        n == occ@.len(),
                        n == idx.len(),
                        k <= n,
                        tree_sorted(tree_view(fams)),
                        tree_view(fams).to_set() == crate::validation::union_of(
                            idx.take(k as int),
                            family_name_set_fn(),
                        ),
                        forall|p: int|
                            0 <= p < occ@.len() ==> (#[trigger] occ@[p]).0@ == idx[p].1@,
                    decreases n - k,
                {
                    insert_item(&mut fams, clone_string(&occ[k].0));
                    proof {
                        crate::validation::lemma_union_of_take_succ(
                            idx,
                            family_name_set_fn(),
                            k as int,
                        );
                        assert(family_name_set_fn()(idx[k as int]) == family_name_set(
                            idx[k as int],
                        ));
                        assert(tree_view(fams).to_set() =~= crate::validation::union_of(
                            idx.take(k + 1),
                            family_name_set_fn(),
                        ));
                    }
                    k = k + 1;
                }
                proof {
                    assert(idx.take(n as int) =~= idx);
                }

                let gn = fams.len();
                let mut ops: OptionsByFamily = Vec::new();
                let mut g: usize = 0;
                while g < gn
                    invariant
                        gn == fams@.len(),
                        g <= gn,
                        n == occ@.len(),
                        n == idx.len(),
                        total == fv.len(),
                        fv == catalog.enum_view(),
                        idx == catalog.index(),
                        selset == tree_view(effective_selections).to_set(),
                        forall|p: int|
                            0 <= p < occ@.len() ==> {
                                &&& (#[trigger] occ@[p]).0@ == idx[p].1@
                                &&& occ@[p].1.0@ == idx[p].0@
                                &&& occ@[p].1.1 == occurrence_count(fv, idx[p].0@)
                            },
                        ops@.len() == g,
                        forall|p: int|
                            0 <= p < g ==> (#[trigger] ops@[p]).0@ == tree_view(fams)[p],
                        forall|p: int|
                            0 <= p < g ==> statuses_view((#[trigger] ops@[p]).1@)
                                == family_statuses(
                                idx,
                                fv,
                                tree_view(fams)[p],
                                total as nat,
                                selset,
                            ),
                    decreases gn - g,
                {
                    let ghost f = tree_view(fams)[g as int];
                    let mut group: Vec<ItemStatus<Item>> = Vec::new();
                    let mut k: usize = 0;
                    proof {
                        assert(idx.take(0) =~= Seq::<(Item, Family)>::empty());
                        assert(statuses_view(group@) =~= family_statuses(
                            idx.take(0),
                            fv,
                            f,
                            total as nat,
                            selset,
                        ));
                    }
                    while k < n
                        invariant
                            gn == fams@.len(),
                            0 <= g < gn,
                            n == occ@.len(),
                            n == idx.len(),
                            k <= n,
                            total == fv.len(),
                            f == tree_view(fams)[g as int],
                            selset == tree_view(effective_selections).to_set(),
                            forall|p: int|
                                0 <= p < occ@.len() ==> {
                                    &&& (#[trigger] occ@[p]).0@ == idx[p].1@
                                    &&& occ@[p].1.0@ == idx[p].0@
                                    &&& occ@[p].1.1 == occurrence_count(fv, idx[p].0@)
                                },
                            statuses_view(group@) == family_statuses(
                                idx.take(k as int),
                                fv,
                                f,
                                total as nat,
                                selset,
                            ),
                        decreases n - k,
                    {
                        let ghost pregroup = statuses_view(group@);
                        proof {
                            assert(pregroup == group@.map_values(|st: ItemStatus<Item>| st@));
                            assert(pregroup.len() == group@.len());
                            assert(idx.take(k + 1).drop_last() =~= idx.take(k as int));
                            assert(idx.take(k + 1).last() == idx[k as int]);
                        }
                        let in_family = item_eq(&occ[k].0, &fams[g]);
                        if in_family {
                            let item = clone_string(&occ[k].1.0);
                            let count = occ[k].1.1;
                            let status = if count == 0 {
                                ItemStatus::Excluded(item)
                            } else {
                                let sel = tree_contains(&effective_selections, &occ[k].1.0);
                                if sel {
                                    ItemStatus::Selected(item)
                                } else if count == total {
                                    ItemStatus::Required(item)
                                } else {
                                    ItemStatus::Available(item)
                                }
                            };
                            proof {
                                assert(status@ == classify(
                                    idx[k as int].0@,
                                    occurrence_count(fv, idx[k as int].0@),
                                    total as nat,
                                    selset,
                                ));
                            }
                            let ghost pre = group@;
                            group.push(status);
                            proof {
                                assert(group@ == pre.push(status));
                                assert forall|p: int|
                                    0 <= p < group@.len() implies statuses_view(group@)[p]
                                    == family_statuses(
                                    idx.take(k + 1),
                                    fv,
                                    f,
                                    total as nat,
                                    selset,
                                )[p] by {
                                    assert(statuses_view(group@)[p] == group@[p]@);
                                    if p < pre.len() {
                                        assert(group@[p] == pre[p]);
                                        assert(pregroup[p] == pre[p]@);
                                    }
                                }
                                assert(statuses_view(group@) =~= family_statuses(
                                    idx.take(k + 1),
                                    fv,
                                    f,
                                    total as nat,
                                    selset,
                                ));
                            }
                        } else {
                            proof {
                                assert(statuses_view(group@) =~= family_statuses(
                                    idx.take(k + 1),
                                    fv,
                                    f,
                                    total as nat,
                                    selset,
                                ));
                            }
                        }
                        k = k + 1;
                    }
                    proof {
                        assert(idx.take(n as int) =~= idx);
                    }
                    let ghost preops = ops@;
                    ops.push((clone_string(&fams[g]), group));
                    proof {
                        assert(ops@ == preops.push(ops@[g as int]));
                        assert(ops@[g as int].0@ == tree_view(fams)[g as int]);
                    }
                    g = g + 1;
                }
                proof {
                    assert(options_keys(ops@).len() == ops@.len());
                    assert forall|p: int| 0 <= p < ops@.len() implies options_keys(ops@)[p]
                        == tree_view(fams)[p] by {
                        assert(options_keys(ops@)[p] == ops@[p].0@);
                    }
                    assert(options_keys(ops@) =~= tree_view(fams));
                }
                let st = CatalogState {
                    catalog,
                    selections: effective_selections,
                    exclusions: effective_exclusions,
                };
                Ok((ops, st))
            },
        }
    }
}

impl Catalog {
    /// An owned copy with the same outfits and the same index.
    pub fn duplicate(&self) -> (r: Catalog)
        ensures
            r.enum_view() == self.enum_view(),
            r.index() == self.index(),
    {
        let n = self.items.len();
        let mut items: Vec<(Item, Family)> = Vec::new();
        let mut i: usize = 0;
        while i < n
            invariant
                n == self.items@.len(),
                i <= n,
                items@ == self.items@.take(i as int),
            decreases n - i,
        {
            let it = clone_string(&self.items[i].0);
            let fam = clone_string(&self.items[i].1);
            items.push((it, fam));
            proof {
                assert(items@ =~= self.items@.take(i + 1));
            }
            i = i + 1;
        }
        proof {
            assert(self.items@.take(n as int) =~= self.items@);
        }
        Catalog { combinations: self.combinations.duplicate(), items }
    }
}

/// Every item of `items` is known to the index exactly when the unknown
/// sublist is empty.
pub proof fn lemma_unknown_items_empty(index: Seq<(Item, Family)>, items: Seq<Seq<char>>)
    ensures
        (unknown_items(index, items).len() == 0) == (forall|k: int|
            0 <= k < items.len() ==> registered(index, #[trigger] items[k])),
    decreases items.len(),
{
    if items.len() > 0 {
        lemma_unknown_items_empty(index, items.drop_last());
        assert(forall|k: int| 0 <= k < items.len() - 1 ==> items.drop_last()[k] == items[k]);
        if unknown_items(index, items).len() == 0 {
            assert(forall|k: int|
                0 <= k < items.len() - 1 ==> registered(index, #[trigger] items[k]));
            assert(registered(index, items.last()));
        }
    }
}

/// Keep the outfits that include all of `selset` and avoid all of
/// `excset`.
pub open spec fn member_restrict(selset: Set<Seq<char>>, excset: Set<Seq<char>>) -> spec_fn(
    Set<Seq<char>>,
) -> bool {
    |o: Set<Seq<char>>| selset.subset_of(o) && excset.disjoint(o)
}

/// Restriction sees the selection and exclusion lists only as sets.
pub proof fn lemma_restrict_filter_sets(
    a: Set<Set<Seq<char>>>,
    s: Seq<Seq<char>>,
    e: Seq<Seq<char>>,
)
    ensures
        a.filter(restrict_filter(s, e)) == a.filter(member_restrict(s.to_set(), e.to_set())),
{
    assert forall|o: Set<Seq<char>>| #[trigger] restrict_filter(s, e)(o) == member_restrict(
        s.to_set(),
        e.to_set(),
    )(o) by {
        if contains_all(o, s) {
            assert forall|x: Seq<char>| s.to_set().contains(x) implies o.contains(x) by {
                let k = choose|k: int| 0 <= k < s.len() && s[k] == x;
            }
        }
        if s.to_set().subset_of(o) {
            assert forall|k: int| 0 <= k < s.len() implies o.contains(#[trigger] s[k]) by {
                assert(s.to_set().contains(s[k]));
            }
        }
        if contains_none(o, e) {
            assert forall|x: Seq<char>| e.to_set().contains(x) implies !o.contains(x) by {
                let k = choose|k: int| 0 <= k < e.len() && e[k] == x;
            }
            assert(e.to_set().disjoint(o));
        }
        if e.to_set().disjoint(o) {
            assert forall|k: int| 0 <= k < e.len() implies !o.contains(#[trigger] e[k]) by {
                assert(e.to_set().contains(e[k]));
            }
        }
    }
    assert(a.filter(restrict_filter(s, e)) =~= a.filter(member_restrict(s.to_set(), e.to_set())));
}

/// The occurrence counts of the items of family `f`, summed in index
/// order.
pub open spec fn family_occurrence_sum(
    index: Seq<(Item, Family)>,
    fv: Seq<Seq<Seq<char>>>,
    f: Seq<char>,
) -> nat
    decreases index.len(),
{
    if index.len() == 0 {
        0
    } else {
        family_occurrence_sum(index.drop_last(), fv, f) + (if index.last().1@ == f {
            occurrence_count(fv, index.last().0@)
        } else {
            0nat
        })
    }
}

/// In a distinct-keyed index, each entry registers its own item.
proof fn lemma_index_entry_family(index: Seq<(Item, Family)>, p: int)
    requires
        index_distinct(index),
        0 <= p < index.len(),
    ensures
        registered(index, index[p].0@),
        family_of(index, index[p].0@) == index[p].1@,
    decreases index.len(),
{
    assert(registered(index, index[p].0@));
    if p == 0 {
    } else {
        let t = index.drop_first();
        assert(index[0].0@ != index[p].0@);
        assert(index_distinct(t)) by {
            assert(forall|i: int| 0 <= i < t.len() ==> t[i] == index[i + 1]);
            assert forall|i: int, j: int| 0 <= i < j < t.len() implies (#[trigger] t[i]).0@ != (
            #[trigger] t[j]).0@ by {
                assert(index[i + 1].0@ != index[j + 1].0@);
            }
        }
        assert(t[p - 1] == index[p]);
        lemma_index_entry_family(t, p - 1);
    }
}

/// The outfits counted by the prefix of the index up to `i`: those holding
/// an item of family `f` indexed before `i`.
pub open spec fn holds_f_key(idx: Seq<(Item, Family)>, f: Seq<char>, o: Set<Seq<char>>) -> bool {
    exists|p: int| 0 <= p < idx.len() && (#[trigger] idx[p]).1@ == f && o.contains(idx[p].0@)
}

pub open spec fn holds_f_key_fn(idx: Seq<(Item, Family)>, f: Seq<char>) -> spec_fn(
    Set<Seq<char>>,
) -> bool {
    |o: Set<Seq<char>>| holds_f_key(idx, f, o)
}

/// Occurrence conservation: in a catalog where every outfit picks exactly
/// one item per family, the occurrence counts of the items of a non-empty
/// family sum to the number of outfits — each outfit is counted exactly
/// once.
#[verifier::rlimit(100)]
pub proof fn lemma_occurrence_conservation(c: Catalog, f: Seq<char>)
    requires
        c.wf(),
        c.complete(),
        exists|p: int| 0 <= p < c.index().len() && (#[trigger] c.index()[p]).1@ == f,
    ensures
        family_occurrence_sum(c.index(), c.enum_view(), f) == c.sets().len(),
{
    let index = c.index();
    let fv = c.enum_view();
    let o_all = c.sets();
    crate::forest::lemma_sets_of_card(fv);
    let n = index.len() as int;
    assert forall|i: int| 0 <= i <= n implies family_occurrence_sum(index.take(i), fv, f)
        == #[trigger] o_all.filter(holds_f_key_fn(index.take(i), f)).len() && o_all.filter(
        holds_f_key_fn(index.take(i), f),
    ).finite() by {
        lemma_occ_sum_partial(c, f, i);
    }
    assert(family_occurrence_sum(index.take(n), fv, f) == o_all.filter(
        holds_f_key_fn(index.take(n), f),
    ).len());
    assert(index.take(n) =~= index);
    // with a non-empty family, completeness makes the final filter total
    assert forall|o: Set<Seq<char>>| o_all.contains(o) implies holds_f_key(index, f, o) by {
        let p0 = choose|p: int| 0 <= p < index.len() && (#[trigger] index[p]).1@ == f;
        assert(outfit_covers(index, o));
        let x = choose|x: Seq<char>| o.contains(x) && family_of(index, x) == index[p0].1@;
        assert(registered(index, x)) by {
            assert(outfit_wf(index, o));
        }
        let k = choose|k: int| 0 <= k < index.len() && (#[trigger] index[k]).0@ == x;
        lemma_index_entry_family(index, k);
        assert(index[k].1@ == family_of(index, x));
        assert(index[k].1@ == f && o.contains(index[k].0@));
    }
    assert(o_all.filter(holds_f_key_fn(index, f)) =~= o_all);
}

/// The running sum over an index prefix counts exactly the outfits that
/// hold an item of family `f` indexed in that prefix.
#[verifier::rlimit(100)]
proof fn lemma_occ_sum_partial(c: Catalog, f: Seq<char>, i: int)
    requires
        c.wf(),
        0 <= i <= c.index().len(),
    ensures
        family_occurrence_sum(c.index().take(i), c.enum_view(), f) == c.sets().filter(
            holds_f_key_fn(c.index().take(i), f),
        ).len(),
        c.sets().filter(holds_f_key_fn(c.index().take(i), f)).finite(),
    decreases i,
{
    let index = c.index();
    let fv = c.enum_view();
    let o_all = c.sets();
    crate::forest::lemma_sets_of_card(fv);
    if i == 0 {
        assert forall|o: Set<Seq<char>>|
            o_all.filter(holds_f_key_fn(index.take(0), f)).contains(o) implies false by {
            let p = choose|p: int|
                0 <= p < index.take(0).len() && (#[trigger] index.take(0)[p]).1@ == f
                    && o.contains(index.take(0)[p].0@);
        }
        assert(o_all.filter(holds_f_key_fn(index.take(0), f)) =~= Set::<Set<Seq<char>>>::empty());
    } else {
        lemma_occ_sum_partial(c, f, i - 1);
        assert(index.take(i).drop_last() =~= index.take(i - 1));
        assert(index.take(i).last() == index[i - 1]);
        let prev = o_all.filter(holds_f_key_fn(index.take(i - 1), f));
        let cur = o_all.filter(holds_f_key_fn(index.take(i), f));
        if index[i - 1].1@ == f {
            let own = o_all.filter(crate::forest::member_filter(index[i - 1].0@));
            crate::forest::lemma_occurrence_count_card(fv, index[i - 1].0@);
            o_all.lemma_len_filter(crate::forest::member_filter(index[i - 1].0@));
            o_all.lemma_len_filter(holds_f_key_fn(index.take(i - 1), f));
            // the two parts are disjoint: an outfit cannot hold two distinct
            // items of one family
            assert forall|o: Set<Seq<char>>| prev.contains(o) implies !own.contains(o) by {
                if own.contains(o) {
                    let p = choose|p: int|
                        0 <= p < index.take(i - 1).len() && (#[trigger] index.take(i - 1)[p]).1@
                            == f && o.contains(index.take(i - 1)[p].0@);
                    assert(o.contains(index[p].0@));
                    assert(o.contains(index[i - 1].0@));
                    lemma_index_entry_family(index, p);
                    lemma_index_entry_family(index, i - 1);
                    assert(index[p].0@ != index[i - 1].0@);
                    assert(outfit_wf(index, o));
                    assert(family_of(index, index[p].0@) != family_of(index, index[i - 1].0@));
                    assert(false);
                }
            }
            assert(prev.disjoint(own));
            assert(cur =~= prev + own) by {
                assert forall|o: Set<Seq<char>>| cur.contains(o) implies (prev + own).contains(
                    o,
                ) by {
                    let p = choose|p: int|
                        0 <= p < index.take(i).len() && (#[trigger] index.take(i)[p]).1@ == f
                            && o.contains(index.take(i)[p].0@);
                    if p < i - 1 {
                        assert(index.take(i - 1)[p].1@ == f && o.contains(
                            index.take(i - 1)[p].0@,
                        ));
                        assert(prev.contains(o));
                    } else {
                        assert(own.contains(o));
                    }
                }
                assert forall|o: Set<Seq<char>>| (prev + own).contains(o) implies cur.contains(
                    o,
                ) by {
                    if prev.contains(o) {
                        let p = choose|p: int|
                            0 <= p < index.take(i - 1).len() && (#[trigger] index.take(i - 1)[
                                p
                            ]).1@ == f && o.contains(index.take(i - 1)[p].0@);
                        assert(index.take(i)[p].1@ == f && o.contains(index.take(i)[p].0@));
                    } else {
                        assert(index.take(i)[i - 1].1@ == f && o.contains(
                            index.take(i)[i - 1].0@,
                        ));
                    }
                }
            }
            vstd::set_lib::lemma_set_disjoint_lens(prev, own);
        } else {
            assert(cur =~= prev) by {
                assert forall|o: Set<Seq<char>>| cur.contains(o) implies prev.contains(o) by {
                    let p = choose|p: int|
                        0 <= p < index.take(i).len() && (#[trigger] index.take(i)[p]).1@ == f
                            && o.contains(index.take(i)[p].0@);
                    assert(p < i - 1);
                    assert(index.take(i - 1)[p].1@ == f && o.contains(index.take(i - 1)[p].0@));
                }
                assert forall|o: Set<Seq<char>>| prev.contains(o) implies cur.contains(o) by {
                    let p = choose|p: int|
                        0 <= p < index.take(i - 1).len() && (#[trigger] index.take(i - 1)[p]).1@
                            == f && o.contains(index.take(i - 1)[p].0@);
                    assert(index.take(i)[p].1@ == f && o.contains(index.take(i)[p].0@));
                }
            }
        }
    }
}

impl Catalog {
    /// The item index, as (item, family) pairs in index order.
    pub fn items(&self) -> (r: Vec<(Item, Family)>)
        ensures
            r@ == self.index(),
    {
        let n = self.items.len();
        let mut r: Vec<(Item, Family)> = Vec::new();
        let mut i: usize = 0;
        while i < n
            invariant
                n == self.items@.len(),
                i <= n,
                r@ == self.items@.take(i as int),
            decreases n - i,
        {
            let it = clone_string(&self.items[i].0);
            let fam = clone_string(&self.items[i].1);
            r.push((it, fam));
            proof {
                assert(r@ =~= self.items@.take(i + 1));
            }
            i = i + 1;
        }
        proof {
            assert(self.items@.take(n as int) =~= self.items@);
        }
        r
    }
}

impl CatalogState {
    /// An owned copy of the state's catalog.
    pub fn catalog_copy(&self) -> (r: Catalog)
        ensures
            r.enum_view() == self.catalog_spec().enum_view(),
            r.index() == self.catalog_spec().index(),
    {
        self.catalog.duplicate()
    }

    /// The committed selections.
    pub fn selections(&self) -> (r: Vec<Item>)
        ensures
            tree_view(r) == self.selections_view(),
    {
        crate::forest::clone_tree(&self.selections)
    }

    /// The committed exclusions.
    pub fn exclusions(&self) -> (r: Vec<Item>)
        ensures
            tree_view(r) == self.exclusions_view(),
    {
        crate::forest::clone_tree(&self.exclusions)
    }

    /// A state over a catalog with the given histories, as a persisted
    /// state is brought back.
    pub fn restore(catalog: Catalog, selections: Vec<Item>, exclusions: Vec<Item>) -> (r:
        CatalogState)
        ensures
            r.catalog_spec() == catalog,
            r.selections_view() == tree_view(selections),
            r.exclusions_view() == tree_view(exclusions),
    {
        CatalogState { catalog, selections, exclusions }
    }
}

} // verus!
