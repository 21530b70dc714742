//! A catalog carrying its own selection history: `select` commits items,
//! `outfits` and `options` answer queries against the committed and the
//! newly given selections together.

use vstd::prelude::*;

use crate::catalog::chain;
use crate::catalog::member_restrict;
use crate::catalog::unknown_items;
use crate::catalog::CatalogState;
use crate::catalog::OptionsByFamily;
use crate::forest::clone_string;
use crate::forest::forest_view;
use crate::forest::tree_sorted;
use crate::forest::tree_view;
use crate::forest::Forest;
use crate::types::Family;
use crate::types::Item;
use crate::validation::registered;

verus! {

/// An error answering a query: the named items are not in the catalog.
#[derive(Debug, PartialEq, Eq)]
pub enum CatalogError {
    UnknownItems(Vec<Item>),
}

impl View for CatalogError {
    type V = Seq<Seq<char>>;

    open spec fn view(&self) -> Seq<Seq<char>> {
        match self {
            CatalogError::UnknownItems(items) => tree_view(*items),
        }
    }
}

/// A compiled catalog with the selections committed so far. Queries accept
/// further selections and exclusions; `select` returns a new catalog with
/// a longer history.
#[derive(Debug, PartialEq, Eq)]
pub struct Catalog {
    catalog: crate::catalog::Catalog,
    selections: Vec<Item>,
    exclusions: Vec<Item>,
}

impl Catalog {
    pub closed spec fn catalog_spec(self) -> crate::catalog::Catalog {
        self.catalog
    }

    pub closed spec fn selections_view(self) -> Seq<Seq<char>> {
        tree_view(self.selections)
    }

    pub closed spec fn exclusions_view(self) -> Seq<Seq<char>> {
        tree_view(self.exclusions)
    }

    pub open spec fn wf(self) -> bool {
        &&& self.catalog_spec().wf()
        &&& tree_sorted(self.selections_view())
        &&& forall|k: int|
            0 <= k < self.selections_view().len() ==> registered(
                self.catalog_spec().index(),
                #[trigger] self.selections_view()[k],
            )
    }

    pub fn new(
        tree: Forest,
        item_index: Vec<(Item, Family)>,
        selections: Vec<Item>,
        exclusions: Vec<Item>,
    ) -> (r: Catalog)
        ensures
            r.catalog_spec().enum_view() == tree@,
            r.catalog_spec().index() == item_index@,
            r.selections_view() == tree_view(selections),
            r.exclusions_view() == tree_view(exclusions),
    {
        Catalog {
            catalog: crate::catalog::Catalog::new(tree, item_index),
            selections,
            exclusions,
        }
    }

    /// A catalog over an already compiled value, with the given history.
    pub fn from_compiled(
        catalog: crate::catalog::Catalog,
        selections: Vec<Item>,
        exclusions: Vec<Item>,
    ) -> (r: Catalog)
        ensures
            r.catalog_spec() == catalog,
            r.selections_view() == tree_view(selections),
            r.exclusions_view() == tree_view(exclusions),
    {
        Catalog { catalog, selections, exclusions }
    }

    /// Commit further selections: the returned catalog carries the sorted,
    /// duplicate-free union of the histories and answers queries as if the
    /// items were passed to every later call. Fails exactly when an item
    /// is unknown, naming the offending items in input order.
    pub fn select(&self, selections: &Vec<Item>) -> (r: Result<Catalog, CatalogError>)
        requires
            self.wf(),
        ensures
            ({
                let unk = unknown_items(self.catalog_spec().index(), tree_view(*selections));
                match r {
                    Err(e) => unk.len() > 0 && e@ == unk,
                    Ok(c) => {
                        &&& unk.len() == 0
                        &&& c.wf()
                        &&& c.catalog_spec().enum_view() == self.catalog_spec().enum_view()
                        &&& c.catalog_spec().index() == self.catalog_spec().index()
                        &&& tree_sorted(c.selections_view())
                        &&& c.selections_view().to_set() == self.selections_view().to_set().union(
                            tree_view(*selections).to_set(),
                        )
                        &&& c.exclusions_view() == Seq::<Seq<char>>::empty()
                    },
                }
            }),
    {
        let unknown = self.catalog.not_recognized(selections);
        if !unknown.is_empty() {
            proof {
                assert(tree_view(unknown).len() == unknown@.len());
            }
            return Err(CatalogError::UnknownItems(unknown));
        }
        proof {
            assert(tree_view(unknown).len() == unknown@.len());
        }
        let chained = chain(&self.selections, selections);
        let c = Catalog {
            catalog: self.catalog.duplicate(),
            selections: chained,
            exclusions: Vec::new(),
        };
        proof {
            assert(c.exclusions_view() =~= Seq::<Seq<char>>::empty());
            assert(c.catalog_spec().sets() == self.catalog_spec().sets());
            assert forall|o: Set<Seq<char>>|
                #[trigger] c.catalog_spec().sets().contains(o) implies crate::catalog::outfit_wf(
                c.catalog_spec().index(),
                o,
            ) by {
                assert(self.catalog_spec().sets().contains(o));
            }
            crate::catalog::lemma_unknown_items_empty(
                self.catalog_spec().index(),
                tree_view(*selections),
            );
            assert forall|k: int|
                0 <= k < c.selections_view().len() implies registered(
                c.catalog_spec().index(),
                #[trigger] c.selections_view()[k],
            ) by {
                let x = c.selections_view()[k];
                assert(c.selections_view().contains(x));
                assert(c.selections_view().to_set().contains(x));
                if self.selections_view().to_set().contains(x) {
                    assert(self.selections_view().contains(x));
                    let j = choose|j: int|
                        0 <= j < self.selections_view().len() && self.selections_view()[j] == x;
                } else {
                    assert(tree_view(*selections).to_set().contains(x));
                    assert(tree_view(*selections).contains(x));
                    let j = choose|j: int|
                        0 <= j < tree_view(*selections).len() && tree_view(*selections)[j] == x;
                }
            }
        }
        Ok(c)
    }
}

impl Catalog {
    /// Every outfit compatible with the committed and the given
    /// selections and the given exclusions, in the canonical order. Fails
    /// exactly when an input item is unknown, naming the unknown
    /// selections and then the unknown exclusions.
    pub fn outfits(&self, selections: &Vec<Item>, exclusions: &Vec<Item>) -> (r: Result<
        Vec<Vec<Item>>,
        CatalogError,
    >)
        requires
            self.wf(),
        ensures
            ({
                let unk = unknown_items(self.catalog_spec().index(), tree_view(*selections))
                    + unknown_items(self.catalog_spec().index(), tree_view(*exclusions));
                match r {
                    Err(e) => unk.len() > 0 && e@ == unk,
                    Ok(combos) => {
                        &&& unk.len() == 0
                        &&& forest_view(combos).len() == crate::forest::sets_of(
                            forest_view(combos),
                        ).len()
                        &&& crate::forest::forest_sorted(forest_view(combos))
                        &&& crate::forest::sets_of(forest_view(combos))
                            == self.catalog_spec().sets().filter(
                            member_restrict(
                                self.selections_view().to_set().union(
                                    tree_view(*selections).to_set(),
                                ),
                                tree_view(*exclusions).to_set(),
                            ),
                        )
                    },
                }
            }),
    {
        let v = self.find_unknown_items(selections, exclusions);
        match v {
            Err(e) => Err(e),
            Ok(()) => {
                let chained = chain(&self.selections, selections);
                let st = CatalogState::from_catalog(self.catalog.duplicate());
                proof {
                    assert(st.catalog_spec().sets() == self.catalog_spec().sets());
                    assert forall|o: Set<Seq<char>>|
                        #[trigger] st.catalog_spec().sets().contains(o) implies
                        crate::catalog::outfit_wf(st.catalog_spec().index(), o) by {
                        assert(self.catalog_spec().sets().contains(o));
                    }
                    assert(st.wf()) by {
                        assert(st.selections_view() =~= Seq::<Seq<char>>::empty());
                        assert(st.exclusions_view() =~= Seq::<Seq<char>>::empty());
                    }
                    crate::catalog::lemma_unknown_items_empty(
                        self.catalog_spec().index(),
                        tree_view(*selections),
                    );
                    crate::catalog::lemma_unknown_items_empty(
                        self.catalog_spec().index(),
                        tree_view(chained),
                    );
                    assert forall|k: int|
                        0 <= k < tree_view(chained).len() implies registered(
                        self.catalog_spec().index(),
                        #[trigger] tree_view(chained)[k],
                    ) by {
                        let x = tree_view(chained)[k];
                        assert(tree_view(chained).contains(x));
                        assert(tree_view(chained).to_set().contains(x));
                        if self.selections_view().to_set().contains(x) {
                            assert(self.selections_view().contains(x));
                            let j = choose|j: int|
                                0 <= j < self.selections_view().len() && self.selections_view()[j]
                                    == x;
                        } else {
                            assert(tree_view(*selections).to_set().contains(x));
                            assert(tree_view(*selections).contains(x));
                            let j = choose|j: int|
                                0 <= j < tree_view(*selections).len() && tree_view(*selections)[j]
                                    == x;
                        }
                    }
                }
                let res = st.combinations(&chained, exclusions);
                match res {
                    Ok((combos, nst)) => {
                        proof {
                            crate::forest::lemma_sets_of_card(nst.catalog_spec().enum_view());
                            crate::catalog::lemma_restrict_filter_sets(
                                self.catalog_spec().sets(),
                                tree_view(chained),
                                tree_view(*exclusions),
                            );
                        }
                        Ok(combos)
                    },
                    Err(_) => {
                        proof {
                            assert(false);
                        }
                        Err(CatalogError::UnknownItems(Vec::new()))
                    },
                }
            },
        }
    }

    /// Classify every item against the catalog narrowed by the committed
    /// and the given selections and the given exclusions, grouped by
    /// family. Fails exactly when an input item is unknown.
    pub fn options(&self, selections: &Vec<Item>, exclusions: &Vec<Item>) -> (r: Result<
        OptionsByFamily,
        CatalogError,
    >)
        requires
            self.wf(),
        ensures
            ({
                let unk = unknown_items(self.catalog_spec().index(), tree_view(*selections))
                    + unknown_items(self.catalog_spec().index(), tree_view(*exclusions));
                match r {
                    Err(e) => unk.len() > 0 && e@ == unk,
                    Ok(ops) => {
                        let restricted = self.catalog_spec().sets().filter(
                            member_restrict(
                                self.selections_view().to_set().union(
                                    tree_view(*selections).to_set(),
                                ),
                                tree_view(*exclusions).to_set(),
                            ),
                        );
                        &&& unk.len() == 0
                        &&& tree_sorted(crate::catalog::options_keys(ops@))
                        &&& crate::catalog::options_keys(ops@).to_set()
                            == crate::catalog::families_of(self.catalog_spec().index())
                        &&& forall|g: int|
                            0 <= g < ops@.len() ==> exists|fv: Seq<Seq<Seq<char>>>|
                                #[trigger] crate::forest::sets_of(fv) == restricted
                                    && crate::forest::forest_sorted(fv) && statuses_match(
                                    self.catalog_spec().index(),
                                    fv,
                                    crate::catalog::options_keys(ops@)[g],
                                    restricted.len(),
                                    self.selections_view().to_set().union(
                                        tree_view(*selections).to_set(),
                                    ),
                                    (#[trigger] ops@[g]).1,
                                )
                    },
                }
            }),
    {
        let v = self.find_unknown_items(selections, exclusions);
        match v {
            Err(e) => Err(e),
            Ok(()) => {
                let chained = chain(&self.selections, selections);
                let st = CatalogState::from_catalog(self.catalog.duplicate());
                proof {
                    assert(st.catalog_spec().sets() == self.catalog_spec().sets());
                    assert forall|o: Set<Seq<char>>|
                        #[trigger] st.catalog_spec().sets().contains(o) implies
                        crate::catalog::outfit_wf(st.catalog_spec().index(), o) by {
                        assert(self.catalog_spec().sets().contains(o));
                    }
                    assert(st.wf()) by {
                        assert(st.selections_view() =~= Seq::<Seq<char>>::empty());
                        assert(st.exclusions_view() =~= Seq::<Seq<char>>::empty());
                    }
                    crate::catalog::lemma_unknown_items_empty(
                        self.catalog_spec().index(),
                        tree_view(*selections),
                    );
                    crate::catalog::lemma_unknown_items_empty(
                        self.catalog_spec().index(),
                        tree_view(chained),
                    );
                    assert forall|k: int|
                        0 <= k < tree_view(chained).len() implies registered(
                        self.catalog_spec().index(),
                        #[trigger] tree_view(chained)[k],
                    ) by {
                        let x = tree_view(chained)[k];
                        assert(tree_view(chained).contains(x));
                        assert(tree_view(chained).to_set().contains(x));
                        if self.selections_view().to_set().contains(x) {
                            assert(self.selections_view().contains(x));
                            let j = choose|j: int|
                                0 <= j < self.selections_view().len() && self.selections_view()[j]
                                    == x;
                        } else {
                            assert(tree_view(*selections).to_set().contains(x));
                            assert(tree_view(*selections).contains(x));
                            let j = choose|j: int|
                                0 <= j < tree_view(*selections).len() && tree_view(*selections)[j]
                                    == x;
                        }
                    }
                }
                let res = st.options(&chained, exclusions);
                match res {
                    Ok((ops, nst)) => {
                        proof {
                            crate::forest::lemma_sets_of_card(nst.catalog_spec().enum_view());
                            crate::catalog::lemma_restrict_filter_sets(
                                self.catalog_spec().sets(),
                                tree_view(chained),
                                tree_view(*exclusions),
                            );
                            let restricted = self.catalog_spec().sets().filter(
                                member_restrict(
                                    self.selections_view().to_set().union(
                                        tree_view(*selections).to_set(),
                                    ),
                                    tree_view(*exclusions).to_set(),
                                ),
                            );
                            assert(crate::forest::sets_of(nst.catalog_spec().enum_view())
                                == restricted);
                            assert(st.selections_view().to_set() =~= Set::<Seq<char>>::empty());
                            assert(st.selections_view().to_set().union(tree_view(chained).to_set())
                                =~= tree_view(chained).to_set());
                            assert(tree_view(chained).to_set() == self.selections_view().to_set().union(
                                tree_view(*selections).to_set(),
                            ));
                            assert(nst.catalog_spec().sets().len() == restricted.len());
                            assert forall|g: int| 0 <= g < ops@.len() implies exists|
                                fv: Seq<Seq<Seq<char>>>,
                            |
                                #[trigger] crate::forest::sets_of(fv) == restricted
                                    && crate::forest::forest_sorted(fv) && statuses_match(
                                    self.catalog_spec().index(),
                                    fv,
                                    crate::catalog::options_keys(ops@)[g],
                                    restricted.len(),
                                    self.selections_view().to_set().union(
                                        tree_view(*selections).to_set(),
                                    ),
                                    (#[trigger] ops@[g]).1,
                                ) by {
                                let fv = nst.catalog_spec().enum_view();
                                assert(crate::forest::sets_of(fv) == restricted
                                    && crate::forest::forest_sorted(fv) && statuses_match(
                                    self.catalog_spec().index(),
                                    fv,
                                    crate::catalog::options_keys(ops@)[g],
                                    restricted.len(),
                                    self.selections_view().to_set().union(
                                        tree_view(*selections).to_set(),
                                    ),
                                    ops@[g].1,
                                ));
                            }
                        }
                        Ok(ops)
                    },
                    Err(_) => {
                        proof {
                            assert(false);
                        }
                        Err(CatalogError::UnknownItems(Vec::new()))
                    },
                }
            },
        }
    }

    /// The items of both lists that the catalog does not know, selections
    /// first, in input order.
    fn find_unknown_items(&self, selections: &Vec<Item>, exclusions: &Vec<Item>) -> (r: Result<
        (),
        CatalogError,
    >)
        ensures
            ({
                let unk = unknown_items(self.catalog_spec().index(), tree_view(*selections))
                    + unknown_items(self.catalog_spec().index(), tree_view(*exclusions));
                match r {
                    Err(e) => unk.len() > 0 && e@ == unk,
                    Ok(()) => unk.len() == 0,
                }
            }),
    {
        let mut unknown = self.catalog.not_recognized(selections);
        let more = self.catalog.not_recognized(exclusions);
        let ghost ua = tree_view(unknown);
        let ghost ub = tree_view(more);
        let n = more.len();
        let mut i: usize = 0;
        proof {
            assert(ub.take(0) =~= Seq::<Seq<char>>::empty());
            assert(tree_view(unknown) =~= ua + ub.take(0));
        }
        while i < n
            invariant
                n == more@.len(),
                n == ub.len(),
                ub == tree_view(more),
                i <= n,
                tree_view(unknown) == ua + ub.take(i as int),
            decreases n - i,
        {
            let ghost pre = unknown@;
            let ghost prev = tree_view(unknown);
            proof {
                assert(prev == pre.map_values(|s: Item| s@));
                assert(prev.len() == pre.len());
            }
            unknown.push(clone_string(&more[i]));
            proof {
                assert(unknown@ == pre.push(unknown@[pre.len() as int]));
                assert(unknown@[pre.len() as int]@ == ub[i as int]);
                assert forall|p: int| 0 <= p < tree_view(unknown).len() implies tree_view(
                    unknown,
                )[p] == (ua + ub.take(i + 1))[p] by {
                    assert(tree_view(unknown)[p] == unknown@[p]@);
                    if p < pre.len() {
                        assert(unknown@[p] == pre[p]);
                        assert(prev[p] == pre[p]@);
                        assert(prev[p] == (ua + ub.take(i as int))[p]);
                        if p < ua.len() {
                        } else {
                            assert((ua + ub.take(i as int))[p] == ub.take(i as int)[p - ua.len()]);
                            assert((ua + ub.take(i + 1))[p] == ub.take(i + 1)[p - ua.len()]);
                        }
                    } else {
                        assert(unknown@[p]@ == ub[i as int]);
                        assert((ua + ub.take(i + 1))[p] == ub.take(i + 1)[p - ua.len()]);
                    }
                }
                assert(tree_view(unknown) =~= ua + ub.take(i + 1));
            }
            i = i + 1;
        }
        proof {
            assert(ub.take(n as int) =~= ub);
        }
        if unknown.is_empty() {
            proof {
                assert(tree_view(unknown).len() == unknown@.len());
            }
            Ok(())
        } else {
            proof {
                assert(tree_view(unknown).len() == unknown@.len());
            }
            Err(CatalogError::UnknownItems(unknown))
        }
    }
}

/// The statuses listed for one family group agree with the classification
/// of the index items of that family.
pub open spec fn statuses_match(
    index: Seq<(Item, Family)>,
    fv: Seq<Seq<Seq<char>>>,
    f: Seq<char>,
    total: nat,
    selected: Set<Seq<char>>,
    group: Vec<crate::types::ItemStatus<Item>>,
) -> bool {
    crate::catalog::statuses_view(group@) == crate::catalog::family_statuses(
        index,
        fv,
        f,
        total,
        selected,
    )
}

/// Selecting the same item again changes nothing: a history is a set.
/// `select` commits the sorted, duplicate-free union of the histories and
/// leaves the outfits untouched, so the catalogs reached by selecting `x`
/// once and twice carry equal histories — and every later `outfits` or
/// `options` answer agrees.
pub proof fn lemma_select_idempotent(
    base: Set<Seq<char>>,
    x: Set<Seq<char>>,
    once: Seq<Seq<char>>,
    twice: Seq<Seq<char>>,
)
    requires
        tree_sorted(once),
        tree_sorted(twice),
        once.to_set() == base.union(x),
        twice.to_set() == base.union(x).union(x),
    ensures
        once == twice,
{
    crate::forest::lemma_chars_order();
    crate::forest::lemma_chars_connex_on(once.to_set().union(twice.to_set()));
    assert(base.union(x).union(x) =~= base.union(x));
    crate::order::lemma_sorted_unique(crate::forest::chars_lt_fn(), once, twice);
}

/// Selection order does not matter: for any two valid items, selecting
/// `a` then `b` and selecting `b` then `a` reach catalogs with equal
/// histories and equal outfits, so `combinations` and every other query
/// agree.
pub proof fn lemma_select_commutes(
    base: Set<Seq<char>>,
    x: Set<Seq<char>>,
    y: Set<Seq<char>>,
    xy: Seq<Seq<char>>,
    yx: Seq<Seq<char>>,
)
    requires
        tree_sorted(xy),
        tree_sorted(yx),
        xy.to_set() == base.union(x).union(y),
        yx.to_set() == base.union(y).union(x),
    ensures
        xy == yx,
{
    crate::forest::lemma_chars_order();
    crate::forest::lemma_chars_connex_on(xy.to_set().union(yx.to_set()));
    assert(base.union(x).union(y) =~= base.union(y).union(x));
    crate::order::lemma_sorted_unique(crate::forest::chars_lt_fn(), xy, yx);
}

} // verus!
