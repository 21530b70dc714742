//! The fluent catalog builder: families and single-condition rules are
//! accumulated call by call; `build` validates and compiles them.

use vstd::prelude::*;

use crate::catalog_builder::compile_catalog;
use crate::catalog_builder::families_strictly_sorted;
use crate::catalog_builder::indexed_from;
use crate::catalog_builder::lemma_agrees_of_no_conflicts;
use crate::catalog_builder::listed;
use crate::catalog_builder::passes_filter;
use crate::catalog_builder::families_product;
use crate::catalog_builder::CatalogExclusionRule;
use crate::catalog_builder::CatalogInclusionRule;
use crate::forest::clone_string;
use crate::forest::clone_tree;
use crate::forest::item_eq;
use crate::forest::tree_view;
use crate::order::chars_lt;
use crate::order::lemma_chars_lt_connex;
use crate::order::string_lt;
use crate::types::Family;
use crate::types::Item;
use crate::validation::families_view;
use crate::validation::registered;
use crate::validation::CatalogBuilderError;

verus! {

/// Add `v` under key `k` in an association list: append to the first entry
/// with that key, or add a new entry at the end.
pub open spec fn assoc_add(
    m: Seq<(Seq<char>, Seq<Seq<char>>)>,
    k: Seq<char>,
    v: Seq<char>,
) -> Seq<(Seq<char>, Seq<Seq<char>>)>
    decreases m.len(),
{
    if m.len() == 0 {
        seq![(k, seq![v])]
    } else if m[0].0 == k {
        m.update(0, (k, m[0].1.push(v)))
    } else {
        seq![m[0]] + assoc_add(m.drop_first(), k, v)
    }
}

/// Add `v` under key `k` in an association list kept strictly sorted by
/// key: append to the entry with that key, or insert a new entry at its
/// sorted position.
pub open spec fn sorted_assoc_add(
    m: Seq<(Seq<char>, Seq<Seq<char>>)>,
    k: Seq<char>,
    v: Seq<char>,
) -> Seq<(Seq<char>, Seq<Seq<char>>)>
    decreases m.len(),
{
    if m.len() == 0 {
        seq![(k, seq![v])]
    } else if m[0].0 == k {
        m.update(0, (k, m[0].1.push(v)))
    } else if chars_lt(k, m[0].0) {
        seq![(k, seq![v])] + m
    } else {
        seq![m[0]] + sorted_assoc_add(m.drop_first(), k, v)
    }
}

/// The effect of registering one item in the index: nothing when the item
/// is known, a new entry otherwise.
pub open spec fn index_add(idx: Seq<(Item, Family)>, item: Item, fam: Family) -> Seq<
    (Item, Family),
> {
    if registered(idx, item@) {
        idx
    } else {
        idx.push((item, fam))
    }
}

pub open spec fn contents_add_seq(
    cv: Seq<(Seq<char>, Seq<Seq<char>>)>,
    f: Seq<char>,
    items: Seq<Item>,
) -> Seq<(Seq<char>, Seq<Seq<char>>)>
    decreases items.len(),
{
    if items.len() == 0 {
        cv
    } else {
        sorted_assoc_add(contents_add_seq(cv, f, items.drop_last()), f, items.last()@)
    }
}

pub open spec fn index_add_seq(idx: Seq<(Item, Family)>, fam: Family, items: Seq<Item>) -> Seq<
    (Item, Family),
>
    decreases items.len(),
{
    if items.len() == 0 {
        idx
    } else {
        index_add(index_add_seq(idx, fam, items.drop_last()), items.last(), fam)
    }
}

pub open spec fn assoc_add_seq(
    m: Seq<(Seq<char>, Seq<Seq<char>>)>,
    k: Seq<char>,
    items: Seq<Item>,
) -> Seq<(Seq<char>, Seq<Seq<char>>)>
    decreases items.len(),
{
    if items.len() == 0 {
        m
    } else {
        assoc_add(assoc_add_seq(m, k, items.drop_last()), k, items.last()@)
    }
}

/// Single-condition rules, as an assembly rule list: one rule per keyed
/// entry, conditioned on its key.
pub open spec fn keyed_rules(m: Seq<(Seq<char>, Seq<Seq<char>>)>) -> Seq<
    (Seq<Seq<char>>, Seq<Seq<char>>),
> {
    m.map_values(|p: (Seq<char>, Seq<Seq<char>>)| (seq![p.0], p.1))
}

/// A catalog under construction: families of items, the item index in
/// registration order, and single-condition rules keyed by their
/// conditioning item.
pub struct CatalogBuilder {
    contents: Vec<(Family, Vec<Item>)>,
    item_index: Vec<(Item, Family)>,
    exclusions: Vec<(Item, Vec<Item>)>,
    inclusions: Vec<(Item, Vec<Item>)>,
}

impl CatalogBuilder {
    pub closed spec fn contents_view(self) -> Seq<(Seq<char>, Seq<Seq<char>>)> {
        families_view(self.contents@)
    }

    pub closed spec fn index_view(self) -> Seq<(Item, Family)> {
        self.item_index@
    }

    pub closed spec fn exclusions_view(self) -> Seq<(Seq<char>, Seq<Seq<char>>)> {
        families_view(self.exclusions@)
    }

    pub closed spec fn inclusions_view(self) -> Seq<(Seq<char>, Seq<Seq<char>>)> {
        families_view(self.inclusions@)
    }

    pub open spec fn wf(self) -> bool {
        &&& families_strictly_sorted(self.contents_view())
        &&& crate::catalog::index_distinct(self.index_view())
        &&& forall|x: Seq<char>|
            #[trigger] listed(self.contents_view(), x) == registered(self.index_view(), x)
        &&& forall|p: int|
            0 <= p < self.index_view().len() ==> indexed_from(
                self.contents_view(),
                #[trigger] self.index_view()[p],
            )
    }

    /// A builder with no families and no rules.
    pub fn new() -> (r: CatalogBuilder)
        ensures
            r.wf(),
            r.contents_view() == Seq::<(Seq<char>, Seq<Seq<char>>)>::empty(),
            r.index_view() == Seq::<(Item, Family)>::empty(),
            r.exclusions_view() == Seq::<(Seq<char>, Seq<Seq<char>>)>::empty(),
            r.inclusions_view() == Seq::<(Seq<char>, Seq<Seq<char>>)>::empty(),
    {
        let r = CatalogBuilder {
            contents: Vec::new(),
            item_index: Vec::new(),
            exclusions: Vec::new(),
            inclusions: Vec::new(),
        };
        proof {
            assert(r.contents_view() =~= Seq::<(Seq<char>, Seq<Seq<char>>)>::empty());
            assert(r.exclusions_view() =~= Seq::<(Seq<char>, Seq<Seq<char>>)>::empty());
            assert(r.inclusions_view() =~= Seq::<(Seq<char>, Seq<Seq<char>>)>::empty());
            assert forall|x: Seq<char>|
                #[trigger] listed(r.contents_view(), x) == registered(r.index_view(), x) by {
                if listed(r.contents_view(), x) {
                    let k = choose|k: int|
                        0 <= k < r.contents_view().len() && (#[trigger] r.contents_view()[
                            k
                        ]).1.contains(x);
                }
                if registered(r.index_view(), x) {
                    let k = choose|k: int|
                        0 <= k < r.index_view().len() && (#[trigger] r.index_view()[k]).0@ == x;
                }
            }
        }
        r
    }
}

proof fn lemma_assoc_add_at(m: Seq<(Seq<char>, Seq<Seq<char>>)>, k: Seq<char>, v: Seq<char>, p: int)
    requires
        0 <= p < m.len(),
        m[p].0 == k,
        forall|q: int| 0 <= q < p ==> (#[trigger] m[q]).0 != k,
    ensures
        assoc_add(m, k, v) == m.update(p, (k, m[p].1.push(v))),
    decreases p,
{
    if p == 0 {
        assert(assoc_add(m, k, v) =~= m.update(0, (k, m[0].1.push(v))));
    } else {
        let t = m.drop_first();
        assert(forall|q: int| 0 <= q < p - 1 ==> (#[trigger] t[q]).0 != k);
        assert(t[p - 1] == m[p]);
        lemma_assoc_add_at(t, k, v, p - 1);
        assert(assoc_add(m, k, v) =~= m.update(p, (k, m[p].1.push(v)))) by {
            assert(assoc_add(m, k, v) == seq![m[0]] + assoc_add(t, k, v));
            assert(assoc_add(t, k, v) == t.update(p - 1, (k, t[p - 1].1.push(v))));
        }
    }
}

proof fn lemma_assoc_add_new(m: Seq<(Seq<char>, Seq<Seq<char>>)>, k: Seq<char>, v: Seq<char>)
    requires
        forall|q: int| 0 <= q < m.len() ==> (#[trigger] m[q]).0 != k,
    ensures
        assoc_add(m, k, v) == m.push((k, seq![v])),
    decreases m.len(),
{
    if m.len() == 0 {
        assert(assoc_add(m, k, v) =~= m.push((k, seq![v])));
    } else {
        let t = m.drop_first();
        assert(forall|q: int| 0 <= q < t.len() ==> (#[trigger] t[q]).0 != k);
        lemma_assoc_add_new(t, k, v);
        assert(assoc_add(m, k, v) =~= m.push((k, seq![v]))) by {
            assert(assoc_add(m, k, v) == seq![m[0]] + t.push((k, seq![v])));
        }
    }
}

proof fn lemma_sorted_assoc_add_at(
    m: Seq<(Seq<char>, Seq<Seq<char>>)>,
    k: Seq<char>,
    v: Seq<char>,
    p: int,
)
    requires
        0 <= p < m.len(),
        m[p].0 == k,
        forall|q: int| 0 <= q < p ==> chars_lt((#[trigger] m[q]).0, k),
        forall|q: int| 0 <= q < p ==> (#[trigger] m[q]).0 != k,
    ensures
        sorted_assoc_add(m, k, v) == m.update(p, (k, m[p].1.push(v))),
    decreases p,
{
    if p == 0 {
        assert(sorted_assoc_add(m, k, v) =~= m.update(0, (k, m[0].1.push(v))));
    } else {
        let t = m.drop_first();
        assert(chars_lt(m[0].0, k));
        crate::order::lemma_chars_lt_asym(m[0].0, k);
        assert(forall|q: int| 0 <= q < p - 1 ==> chars_lt((#[trigger] t[q]).0, k));
        assert(forall|q: int| 0 <= q < p - 1 ==> (#[trigger] t[q]).0 != k);
        assert(t[p - 1] == m[p]);
        lemma_sorted_assoc_add_at(t, k, v, p - 1);
        assert(sorted_assoc_add(m, k, v) =~= m.update(p, (k, m[p].1.push(v)))) by {
            assert(sorted_assoc_add(m, k, v) == seq![m[0]] + sorted_assoc_add(t, k, v));
            assert(sorted_assoc_add(t, k, v) == t.update(p - 1, (k, t[p - 1].1.push(v))));
        }
    }
}

proof fn lemma_sorted_assoc_add_new(
    m: Seq<(Seq<char>, Seq<Seq<char>>)>,
    k: Seq<char>,
    v: Seq<char>,
    p: int,
)
    requires
        0 <= p <= m.len(),
        forall|q: int| 0 <= q < p ==> chars_lt((#[trigger] m[q]).0, k),
        forall|q: int| p <= q < m.len() ==> chars_lt(k, (#[trigger] m[q]).0),
    ensures
        sorted_assoc_add(m, k, v) == m.insert(p, (k, seq![v])),
    decreases p,
{
    if p == 0 {
        if m.len() == 0 {
            assert(sorted_assoc_add(m, k, v) =~= m.insert(0, (k, seq![v])));
        } else {
            assert(chars_lt(k, m[0].0));
            crate::order::lemma_chars_lt_asym(k, m[0].0);
            assert(sorted_assoc_add(m, k, v) =~= m.insert(0, (k, seq![v])));
        }
    } else {
        let t = m.drop_first();
        assert(chars_lt(m[0].0, k));
        crate::order::lemma_chars_lt_asym(m[0].0, k);
        assert(forall|q: int| 0 <= q < p - 1 ==> chars_lt((#[trigger] t[q]).0, k));
        assert(forall|q: int| p - 1 <= q < t.len() ==> chars_lt(k, (#[trigger] t[q]).0));
        lemma_sorted_assoc_add_new(t, k, v, p - 1);
        assert(sorted_assoc_add(m, k, v) =~= m.insert(p, (k, seq![v]))) by {
            assert(sorted_assoc_add(m, k, v) == seq![m[0]] + sorted_assoc_add(t, k, v));
            assert(sorted_assoc_add(t, k, v) == t.insert(p - 1, (k, seq![v])));
            m.insert_ensures(p, (k, seq![v]));
            t.insert_ensures(p - 1, (k, seq![v]));
        }
    }
}

impl CatalogBuilder {
    /// Register `item` under `family`: the item joins the family's
    /// listing, and enters the index unless it is already registered.
    #[verifier::rlimit(60)]
    pub fn add_item(self, family: &Family, item: &Item) -> (r: CatalogBuilder)
        ensures
            self.wf() ==> r.contents_view() == sorted_assoc_add(
                self.contents_view(),
                family@,
                item@,
            ),
            r.index_view() == index_add(self.index_view(), *item, *family),
            r.exclusions_view() == self.exclusions_view(),
            r.inclusions_view() == self.inclusions_view(),
            self.wf() ==> r.wf(),
    {
        let ghost cv = self.contents_view();
        let ghost oidx = self.index_view();
        let ghost was_wf = self.wf();
        let CatalogBuilder { mut contents, mut item_index, exclusions, inclusions } = self;
        let n = contents.len();
        let mut p: usize = 0;
        let mut found = false;
        let mut stop = false;
        while p < n && !found && !stop
            invariant
                n == contents@.len(),
                n == cv.len(),
                cv == families_view(contents@),
                p <= n,
                forall|q: int| 0 <= q < p ==> chars_lt((#[trigger] cv[q]).0, family@),
                found ==> p < n && cv[p as int].0 == family@,
                stop ==> p < n && chars_lt(family@, cv[p as int].0),
                !(found && stop),
            decreases n - p + (if found || stop { 0int } else { 1int }),
        {
            let same = item_eq(&contents[p].0, family);
            proof {
                assert(cv[p as int] == (contents@[p as int].0@, tree_view(contents@[p as int].1)));
            }
            if same {
                found = true;
            } else {
                let below = string_lt(&contents[p].0, family);
                if below {
                    p = p + 1;
                } else {
                    proof {
                        crate::order::lemma_chars_lt_connex(cv[p as int].0, family@);
                    }
                    stop = true;
                }
            }
        }
        let ghost orig = contents@;
        if found {
            proof {
                assert forall|q: int| 0 <= q < p implies (#[trigger] cv[q]).0 != family@ by {
                    crate::order::lemma_chars_lt_asym(cv[q].0, family@);
                }
            }
            let (fam, mut items) = contents.remove(p);
            let ghost preitems = tree_view(items);
            proof {
                assert(fam == orig[p as int].0);
                assert(items == orig[p as int].1);
                assert(preitems == cv[p as int].1);
            }
            items.push(crate::forest::clone_string(item));
            proof {
                assert(tree_view(items) =~= preitems.push(item@));
            }
            contents.insert(p, (fam, items));
            proof {
                assert(contents@ =~= orig.update(p as int, (fam, items)));
                lemma_sorted_assoc_add_at(cv, family@, item@, p as int);
                assert forall|q: int| 0 <= q < families_view(contents@).len() implies
                    families_view(contents@)[q] == cv.update(
                    p as int,
                    (family@, cv[p as int].1.push(item@)),
                )[q] by {
                    assert(families_view(contents@)[q] == (
                        contents@[q].0@,
                        tree_view(contents@[q].1),
                    ));
                    if q != p {
                        assert(contents@[q] == orig[q]);
                        assert(cv[q] == (orig[q].0@, tree_view(orig[q].1)));
                    }
                }
                assert(families_view(contents@) =~= cv.update(
                    p as int,
                    (family@, cv[p as int].1.push(item@)),
                ));
            }
        } else {
            proof {
                if was_wf {
                    assert forall|q: int| p <= q < cv.len() implies chars_lt(
                        family@,
                        (#[trigger] cv[q]).0,
                    ) by {
                        if q > p {
                            assert(chars_lt(cv[p as int].0, cv[q].0));
                            crate::order::lemma_chars_lt_trans(family@, cv[p as int].0, cv[q].0);
                        }
                    }
                }
            }
            let mut items: Vec<Item> = Vec::new();
            items.push(crate::forest::clone_string(item));
            proof {
                assert(tree_view(items) =~= seq![item@]);
            }
            contents.insert(p, (crate::forest::clone_string(family), items));
            proof {
                if was_wf {
                    lemma_sorted_assoc_add_new(cv, family@, item@, p as int);
                }
                cv.insert_ensures(p as int, (family@, seq![item@]));
                orig.insert_ensures(p as int, contents@[p as int]);
                assert forall|q: int| 0 <= q < families_view(contents@).len() implies
                    families_view(contents@)[q] == cv.insert(p as int, (family@, seq![item@]))[
                    q
                ] by {
                    assert(families_view(contents@)[q] == (
                        contents@[q].0@,
                        tree_view(contents@[q].1),
                    ));
                    if q < p {
                        assert(contents@[q] == orig[q]);
                        assert(cv[q] == (orig[q].0@, tree_view(orig[q].1)));
                    } else if q > p {
                        assert(contents@[q] == orig[q - 1]);
                        assert(cv[q - 1] == (orig[q - 1].0@, tree_view(orig[q - 1].1)));
                    }
                }
                assert(families_view(contents@) =~= cv.insert(p as int, (family@, seq![item@])));
            }
        }
        let already = crate::validation::index_lookup(&item_index, item);
        match already {
            Some(_) => {},
            None => {
                item_index.push(
                    (crate::forest::clone_string(item), crate::forest::clone_string(family)),
                );
                proof {
                    assert(item_index@ =~= oidx.push((*item, *family)));
                }
            },
        }
        let r = CatalogBuilder { contents, item_index, exclusions, inclusions };
        proof {
            let ncv = r.contents_view();
            let nidx = r.index_view();
            if was_wf {
                assert(ncv == sorted_assoc_add(cv, family@, item@));
                // the keys stay strictly sorted
                assert(families_strictly_sorted(ncv)) by {
                    assert forall|i: int, j: int| 0 <= i < j < ncv.len() implies chars_lt(
                        (#[trigger] ncv[i]).0,
                        (#[trigger] ncv[j]).0,
                    ) by {
                        if found {
                            assert(ncv[i].0 == cv[i].0);
                            assert(ncv[j].0 == cv[j].0);
                        } else {
                            cv.insert_ensures(p as int, (family@, seq![item@]));
                            if i < p && j < p {
                            } else if i < p && j == p {
                            } else if i < p && j > p {
                                assert(ncv[j].0 == cv[j - 1].0);
                            } else if i == p {
                                assert(ncv[j].0 == cv[j - 1].0);
                            } else {
                                assert(ncv[i].0 == cv[i - 1].0);
                                assert(ncv[j].0 == cv[j - 1].0);
                            }
                        }
                    }
                }
                // the new listing holds exactly the old items plus `item`
                assert forall|x: Seq<char>| #[trigger] listed(ncv, x) == (listed(cv, x) || x
                    == item@) by {
                    if listed(ncv, x) {
                        let k = choose|k: int|
                            0 <= k < ncv.len() && (#[trigger] ncv[k]).1.contains(x);
                        let jx = choose|jx: int| 0 <= jx < ncv[k].1.len() && ncv[k].1[jx] == x;
                        if found {
                            if k == p {
                                if jx < cv[p as int].1.len() {
                                    assert(cv[k].1.contains(x));
                                    assert(listed(cv, x));
                                } else {
                                    assert(x == item@);
                                }
                            } else {
                                assert(cv[k].1.contains(x));
                                assert(listed(cv, x));
                            }
                        } else {
                            cv.insert_ensures(p as int, (family@, seq![item@]));
                            if k == p {
                                assert(x == item@);
                            } else if k < p {
                                assert(cv[k].1.contains(x));
                                assert(listed(cv, x));
                            } else {
                                assert(cv[k - 1].1.contains(x));
                                assert(listed(cv, x));
                            }
                        }
                    }
                    if listed(cv, x) {
                        let k = choose|k: int| 0 <= k < cv.len() && (#[trigger] cv[k]).1.contains(x);
                        let jx = choose|jx: int| 0 <= jx < cv[k].1.len() && cv[k].1[jx] == x;
                        if found {
                            if k == p {
                                assert(ncv[k].1[jx] == x);
                            } else {
                                assert(ncv[k].1[jx] == x);
                            }
                            assert(ncv[k].1.contains(x));
                            assert(listed(ncv, x));
                        } else {
                            cv.insert_ensures(p as int, (family@, seq![item@]));
                            if k < p {
                                assert(ncv[k].1.contains(x));
                            } else {
                                assert(ncv[k + 1].1 == cv[k].1);
                                assert(ncv[k + 1].1.contains(x));
                            }
                            assert(listed(ncv, x));
                        }
                    }
                    if x == item@ {
                        if found {
                            assert(ncv[p as int].1.last() == item@);
                            assert(ncv[p as int].1.contains(x));
                        } else {
                            cv.insert_ensures(p as int, (family@, seq![item@]));
                            assert(ncv[p as int].1 == seq![item@]);
                            assert(ncv[p as int].1[0] == item@);
                            assert(ncv[p as int].1.contains(x));
                        }
                        assert(listed(ncv, x));
                    }
                }
                // registration mirrors listing
                assert forall|x: Seq<char>| #[trigger] listed(ncv, x) == crate::validation::registered(
                    nidx,
                    x,
                ) by {
                    match already {
                        Some(_) => {
                            assert(crate::validation::registered(oidx, item@));
                        },
                        None => {
                            crate::catalog_builder::lemma_registered_push(oidx, (*item, *family), x);
                        },
                    }
                }
                // index keys stay distinct
                assert(crate::catalog::index_distinct(nidx)) by {
                    match already {
                        Some(_) => {},
                        None => {
                            assert forall|i: int, j: int| 0 <= i < j < nidx.len() implies (
                            #[trigger] nidx[i]).0@ != (#[trigger] nidx[j]).0@ by {
                                if j == oidx.len() {
                                    if nidx[i].0@ == item@ {
                                        assert(crate::validation::registered(oidx, item@));
                                    }
                                }
                            }
                        },
                    }
                }
                // each index entry still names a family listing its item
                assert forall|q: int| 0 <= q < nidx.len() implies indexed_from(
                    ncv,
                    #[trigger] nidx[q],
                ) by {
                    if q < oidx.len() {
                        assert(indexed_from(cv, oidx[q]));
                        let k = choose|k: int|
                            0 <= k < cv.len() && (#[trigger] cv[k]).0 == oidx[q].1@ && cv[
                                k
                            ].1.contains(oidx[q].0@);
                        let jx = choose|jx: int|
                            0 <= jx < cv[k].1.len() && cv[k].1[jx] == oidx[q].0@;
                        if found {
                            assert(ncv[k].1[jx] == oidx[q].0@);
                            assert(ncv[k].0 == cv[k].0);
                            assert(ncv[k].1.contains(oidx[q].0@));
                        } else {
                            cv.insert_ensures(p as int, (family@, seq![item@]));
                            if k < p {
                                assert(ncv[k].1.contains(oidx[q].0@));
                            } else {
                                assert(ncv[k + 1].1 == cv[k].1);
                                assert(ncv[k + 1].0 == cv[k].0);
                                assert(ncv[k + 1].1.contains(oidx[q].0@));
                            }
                        }
                    } else {
                        // the freshly pushed entry
                        assert(nidx[q] == (*item, *family));
                        if found {
                            assert(ncv[p as int].0 == family@);
                            assert(ncv[p as int].1.last() == item@);
                            assert(ncv[p as int].1.contains(item@));
                        } else {
                            cv.insert_ensures(p as int, (family@, seq![item@]));
                            assert(ncv[p as int].0 == family@);
                            assert(ncv[p as int].1[0] == item@);
                            assert(ncv[p as int].1.contains(item@));
                        }
                    }
                }
            }
        }
        r
    }
}

impl CatalogBuilder {
    /// Register several items under one family, in order.
    pub fn add_items(self, family: &Family, items: &[Item]) -> (r: CatalogBuilder)
        ensures
            self.wf() ==> r.contents_view() == contents_add_seq(
                self.contents_view(),
                family@,
                items@,
            ),
            r.index_view() == index_add_seq(self.index_view(), *family, items@),
            r.exclusions_view() == self.exclusions_view(),
            r.inclusions_view() == self.inclusions_view(),
            self.wf() ==> r.wf(),
    {
        let ghost cv = self.contents_view();
        let ghost oidx = self.index_view();
        let ghost was_wf = self.wf();
        let n = items.len();
        let mut b = self;
        let mut i: usize = 0;
        proof {
            assert(items@.take(0) =~= Seq::<Item>::empty());
        }
        while i < n
            invariant
                n == items@.len(),
                i <= n,
                was_wf ==> b.contents_view() == contents_add_seq(cv, family@, items@.take(i as int)),
                b.index_view() == index_add_seq(oidx, *family, items@.take(i as int)),
                b.exclusions_view() == self.exclusions_view(),
                b.inclusions_view() == self.inclusions_view(),
                was_wf ==> b.wf(),
            decreases n - i,
        {
            b = b.add_item(family, &items[i]);
            proof {
                assert(items@.take(i + 1).drop_last() =~= items@.take(i as int));
                assert(items@.take(i + 1).last() == items@[i as int]);
            }
            i = i + 1;
        }
        proof {
            assert(items@.take(n as int) =~= items@);
        }
        b
    }

    /// Record "choosing `selection` forbids `exclusion`".
    pub fn add_exclusion_rule(self, selection: &Item, exclusion: &Item) -> (r: CatalogBuilder)
        ensures
            r.exclusions_view() == assoc_add(self.exclusions_view(), selection@, exclusion@),
            r.contents_view() == self.contents_view(),
            r.index_view() == self.index_view(),
            r.inclusions_view() == self.inclusions_view(),
            self.wf() ==> r.wf(),
    {
        let ghost was_wf = self.wf();
        let CatalogBuilder { contents, item_index, mut exclusions, inclusions } = self;
        assoc_push(&mut exclusions, selection, exclusion);
        CatalogBuilder { contents, item_index, exclusions, inclusions }
    }

    /// Record each of `exclusions` as forbidden alongside `selection`.
    pub fn add_exclusion_rules(self, selection: &Item, exclusions: &[Item]) -> (r: CatalogBuilder)
        ensures
            r.exclusions_view() == assoc_add_seq(self.exclusions_view(), selection@, exclusions@),
            r.contents_view() == self.contents_view(),
            r.index_view() == self.index_view(),
            r.inclusions_view() == self.inclusions_view(),
            self.wf() ==> r.wf(),
    {
        let ghost om = self.exclusions_view();
        let n = exclusions.len();
        let mut b = self;
        let mut i: usize = 0;
        proof {
            assert(exclusions@.take(0) =~= Seq::<Item>::empty());
        }
        while i < n
            invariant
                n == exclusions@.len(),
                i <= n,
                b.exclusions_view() == assoc_add_seq(om, selection@, exclusions@.take(i as int)),
                b.contents_view() == self.contents_view(),
                b.index_view() == self.index_view(),
                b.inclusions_view() == self.inclusions_view(),
                self.wf() ==> b.wf(),
            decreases n - i,
        {
            b = b.add_exclusion_rule(selection, &exclusions[i]);
            proof {
                assert(exclusions@.take(i + 1).drop_last() =~= exclusions@.take(i as int));
                assert(exclusions@.take(i + 1).last() == exclusions@[i as int]);
            }
            i = i + 1;
        }
        proof {
            assert(exclusions@.take(n as int) =~= exclusions@);
        }
        b
    }

    /// Record "choosing `selection` requires `inclusion`".
    pub fn add_inclusion_rule(self, selection: &Item, inclusion: &Item) -> (r: CatalogBuilder)
        ensures
            r.inclusions_view() == assoc_add(self.inclusions_view(), selection@, inclusion@),
            r.contents_view() == self.contents_view(),
            r.index_view() == self.index_view(),
            r.exclusions_view() == self.exclusions_view(),
            self.wf() ==> r.wf(),
    {
        let CatalogBuilder { contents, item_index, exclusions, mut inclusions } = self;
        assoc_push(&mut inclusions, selection, inclusion);
        CatalogBuilder { contents, item_index, exclusions, inclusions }
    }

    /// Record each of `inclusions` as required alongside `selection`.
    pub fn add_inclusion_rules(self, selection: &Item, inclusions: &[Item]) -> (r: CatalogBuilder)
        ensures
            r.inclusions_view() == assoc_add_seq(self.inclusions_view(), selection@, inclusions@),
            r.contents_view() == self.contents_view(),
            r.index_view() == self.index_view(),
            r.exclusions_view() == self.exclusions_view(),
            self.wf() ==> r.wf(),
    {
        let ghost om = self.inclusions_view();
        let n = inclusions.len();
        let mut b = self;
        let mut i: usize = 0;
        proof {
            assert(inclusions@.take(0) =~= Seq::<Item>::empty());
        }
        while i < n
            invariant
                n == inclusions@.len(),
                i <= n,
                b.inclusions_view() == assoc_add_seq(om, selection@, inclusions@.take(i as int)),
                b.contents_view() == self.contents_view(),
                b.index_view() == self.index_view(),
                b.exclusions_view() == self.exclusions_view(),
                self.wf() ==> b.wf(),
            decreases n - i,
        {
            b = b.add_inclusion_rule(selection, &inclusions[i]);
            proof {
                assert(inclusions@.take(i + 1).drop_last() =~= inclusions@.take(i as int));
                assert(inclusions@.take(i + 1).last() == inclusions@[i as int]);
            }
            i = i + 1;
        }
        proof {
            assert(inclusions@.take(n as int) =~= inclusions@);
        }
        b
    }
}

/// Append `v` under key `k`, adding a new entry at the end for a new key.
fn assoc_push(m: &mut Vec<(Item, Vec<Item>)>, k: &Item, v: &Item)
    ensures
        families_view(final(m)@) == assoc_add(families_view(old(m)@), k@, v@),
{
    let ghost om = families_view(old(m)@);
    let n = m.len();
    let mut p: usize = 0;
    while p < n
        invariant
            n == m@.len(),
            n == om.len(),
            *m == *old(m),
            om == families_view(m@),
            p <= n,
            forall|q: int| 0 <= q < p ==> (#[trigger] om[q]).0 != k@,
        decreases n - p,
    {
        let same = item_eq(&m[p].0, k);
        proof {
            assert(om[p as int] == (m@[p as int].0@, tree_view(m@[p as int].1)));
        }
        if same {
            let ghost orig = m@;
            let (key, mut vals) = m.remove(p);
            let ghost prevals = tree_view(vals);
            vals.push(clone_string(v));
            proof {
                assert(tree_view(vals) =~= prevals.push(v@));
            }
            m.insert(p, (key, vals));
            proof {
                assert(m@ =~= orig.update(p as int, (key, vals)));
                lemma_assoc_add_at(om, k@, v@, p as int);
                assert forall|q: int| 0 <= q < families_view(m@).len() implies families_view(
                    m@,
                )[q] == om.update(p as int, (k@, om[p as int].1.push(v@)))[q] by {
                    assert(families_view(m@)[q] == (m@[q].0@, tree_view(m@[q].1)));
                    if q != p {
                        assert(m@[q] == orig[q]);
                        assert(om[q] == (orig[q].0@, tree_view(orig[q].1)));
                    }
                }
                assert(families_view(m@) =~= om.update(p as int, (k@, om[p as int].1.push(v@))));
            }
            return;
        }
        p = p + 1;
    }
    let ghost orig = m@;
    let mut vals: Vec<Item> = Vec::new();
    vals.push(clone_string(v));
    proof {
        assert(tree_view(vals) =~= seq![v@]);
    }
    m.push((clone_string(k), vals));
    proof {
        lemma_assoc_add_new(om, k@, v@);
        assert forall|q: int| 0 <= q < families_view(m@).len() implies families_view(m@)[q]
            == om.push((k@, seq![v@]))[q] by {
            assert(families_view(m@)[q] == (m@[q].0@, tree_view(m@[q].1)));
            if q < orig.len() {
                assert(m@[q] == orig[q]);
                assert(om[q] == (orig[q].0@, tree_view(orig[q].1)));
            }
        }
        assert(families_view(m@) =~= om.push((k@, seq![v@])));
    }
}

/// The accumulated exclusion rules, one single-condition rule per key.
fn exclusion_rules_of(m: &Vec<(Item, Vec<Item>)>) -> (r: Vec<CatalogExclusionRule>)
    ensures
        crate::validation::exclusion_rules_view(r@) == keyed_rules(families_view(m@)),
{
    let n = m.len();
    let mut r: Vec<CatalogExclusionRule> = Vec::new();
    let mut i: usize = 0;
    proof {
        assert(crate::validation::exclusion_rules_view(r@) =~= keyed_rules(
            families_view(m@),
        ).take(0));
    }
    while i < n
        invariant
            n == m@.len(),
            i <= n,
            crate::validation::exclusion_rules_view(r@) == keyed_rules(families_view(m@)).take(
                i as int,
            ),
        decreases n - i,
    {
        let mut conditions: Vec<Item> = Vec::new();
        conditions.push(clone_string(&m[i].0));
        let exclusions = clone_tree(&m[i].1);
        let ghost pre = r@;
        let ghost prev = crate::validation::exclusion_rules_view(r@);
        proof {
            assert(prev == pre.map_values(|x: CatalogExclusionRule| x@));
            assert(prev.len() == pre.len());
            assert(prev.len() == i as int);
            assert(tree_view(conditions) =~= seq![m@[i as int].0@]);
        }
        r.push(CatalogExclusionRule { conditions, exclusions });
        proof {
            assert(r@ == pre.push(r@[i as int]));
            assert forall|q: int| 0 <= q < i + 1 implies crate::validation::exclusion_rules_view(
                r@,
            )[q] == keyed_rules(families_view(m@)).take(i + 1)[q] by {
                assert(crate::validation::exclusion_rules_view(r@)[q] == r@[q]@);
                assert(keyed_rules(families_view(m@))[q] == (
                    seq![families_view(m@)[q].0],
                    families_view(m@)[q].1,
                ));
                assert(families_view(m@)[q] == (m@[q].0@, tree_view(m@[q].1)));
                if q < i {
                    assert(r@[q] == pre[q]);
                    assert(prev[q] == pre[q]@);
                }
            }
            assert(crate::validation::exclusion_rules_view(r@) =~= keyed_rules(
                families_view(m@),
            ).take(i + 1));
        }
        i = i + 1;
    }
    proof {
        assert(keyed_rules(families_view(m@)).take(n as int) =~= keyed_rules(families_view(m@)));
    }
    r
}

/// The accumulated inclusion rules, one single-condition rule per key.
fn inclusion_rules_of(m: &Vec<(Item, Vec<Item>)>) -> (r: Vec<CatalogInclusionRule>)
    ensures
        crate::validation::inclusion_rules_view(r@) == keyed_rules(families_view(m@)),
{
    let n = m.len();
    let mut r: Vec<CatalogInclusionRule> = Vec::new();
    let mut i: usize = 0;
    proof {
        assert(crate::validation::inclusion_rules_view(r@) =~= keyed_rules(
            families_view(m@),
        ).take(0));
    }
    while i < n
        invariant
            n == m@.len(),
            i <= n,
            crate::validation::inclusion_rules_view(r@) == keyed_rules(families_view(m@)).take(
                i as int,
            ),
        decreases n - i,
    {
        let mut conditions: Vec<Item> = Vec::new();
        conditions.push(clone_string(&m[i].0));
        let inclusions = clone_tree(&m[i].1);
        let ghost pre = r@;
        let ghost prev = crate::validation::inclusion_rules_view(r@);
        proof {
            assert(prev == pre.map_values(|x: CatalogInclusionRule| x@));
            assert(prev.len() == pre.len());
            assert(prev.len() == i as int);
            assert(tree_view(conditions) =~= seq![m@[i as int].0@]);
        }
        r.push(CatalogInclusionRule { conditions, inclusions });
        proof {
            assert(r@ == pre.push(r@[i as int]));
            assert forall|q: int| 0 <= q < i + 1 implies crate::validation::inclusion_rules_view(
                r@,
            )[q] == keyed_rules(families_view(m@)).take(i + 1)[q] by {
                assert(crate::validation::inclusion_rules_view(r@)[q] == r@[q]@);
                assert(keyed_rules(families_view(m@))[q] == (
                    seq![families_view(m@)[q].0],
                    families_view(m@)[q].1,
                ));
                assert(families_view(m@)[q] == (m@[q].0@, tree_view(m@[q].1)));
                if q < i {
                    assert(r@[q] == pre[q]);
                    assert(prev[q] == pre[q]@);
                }
            }
            assert(crate::validation::inclusion_rules_view(r@) =~= keyed_rules(
                families_view(m@),
            ).take(i + 1));
        }
        i = i + 1;
    }
    proof {
        assert(keyed_rules(families_view(m@)).take(n as int) =~= keyed_rules(families_view(m@)));
    }
    r
}

/// An owned copy of an item index, entry for entry.
fn clone_index(v: &Vec<(Item, Family)>) -> (r: Vec<(Item, Family)>)
    ensures
        r@ == v@,
{
    let n = v.len();
    let mut r: Vec<(Item, Family)> = Vec::new();
    let mut i: usize = 0;
    while i < n
        invariant
            n == v@.len(),
            i <= n,
            r@ == v@.take(i as int),
        decreases n - i,
    {
        let it = clone_string(&v[i].0);
        let fam = clone_string(&v[i].1);
        r.push((it, fam));
        proof {
            assert(r@ =~= v@.take(i + 1));
        }
        i = i + 1;
    }
    proof {
        assert(v@.take(n as int) =~= v@);
    }
    r
}

impl CatalogBuilder {
    /// Validate the accumulated specification and compile it into a
    /// catalog of valid outfits; every violation is reported as `build_catalog`
    /// reports it. An empty builder compiles to the catalog whose one
    /// outfit is empty.
    pub fn build(&self) -> (r: Result<crate::inner::catalog::Catalog, CatalogBuilderError>)
        requires
            self.wf(),
        ensures
            ({
                let v = crate::validation::violation_set(
                    self.contents_view(),
                    self.index_view(),
                    keyed_rules(self.exclusions_view()),
                    keyed_rules(self.inclusions_view()),
                );
                match r {
                    Ok(c) => {
                        &&& v == Set::<crate::validation::BuilderErrorView>::empty()
                        &&& c.wf()
                        &&& c.catalog_spec().wf()
                        &&& c.catalog_spec().complete()
                        &&& c.catalog_spec().index() == self.index_view()
                        &&& c.catalog_spec().sets() == families_product(
                            self.contents_view(),
                        ).filter(
                            passes_filter(
                                keyed_rules(self.exclusions_view()),
                                keyed_rules(self.inclusions_view()),
                            ),
                        )
                        &&& c.selections_view() == Seq::<Seq<char>>::empty()
                        &&& c.exclusions_view() == Seq::<Seq<char>>::empty()
                    },
                    Err(e) => !(v == Set::<crate::validation::BuilderErrorView>::empty())
                        && crate::validation::canonical_report(e@, v),
                }
            }),
    {
        let ex_rules = exclusion_rules_of(&self.exclusions);
        let inc_rules = inclusion_rules_of(&self.inclusions);
        proof {
            assert forall|k: int| 0 <= k < self.contents_view().len() implies
                crate::validation::all_registered(
                self.index_view(),
                (#[trigger] self.contents_view()[k]).1,
            ) by {
                assert forall|j: int|
                    0 <= j < self.contents_view()[k].1.len() implies registered(
                    self.index_view(),
                    #[trigger] self.contents_view()[k].1[j],
                ) by {
                    assert(self.contents_view()[k].1.contains(self.contents_view()[k].1[j]));
                    assert(listed(self.contents_view(), self.contents_view()[k].1[j]));
                }
            }
        }
        let valid = crate::validation::validate_catalog(
            &self.contents,
            &self.item_index,
            &ex_rules,
            &inc_rules,
        );
        match valid {
            Err(e) => Err(e),
            Ok(()) => {
                proof {
                    let v = crate::validation::violation_set(
                        self.contents_view(),
                        self.index_view(),
                        keyed_rules(self.exclusions_view()),
                        keyed_rules(self.inclusions_view()),
                    );
                    assert forall|e: crate::validation::BuilderErrorView|
                        crate::validation::family_conflict_errs(
                        self.contents_view(),
                        self.index_view(),
                    ).contains(e) implies false by {
                        assert(v.contains(e));
                    }
                    assert(crate::validation::family_conflict_errs(
                        self.contents_view(),
                        self.index_view(),
                    ) =~= Set::<crate::validation::BuilderErrorView>::empty());
                    lemma_agrees_of_no_conflicts(self.contents_view(), self.index_view());
                }
                let idx = clone_index(&self.item_index);
                let compiled = compile_catalog(&self.contents, idx, &ex_rules, &inc_rules);
                let c = crate::inner::catalog::Catalog::from_compiled(
                    compiled,
                    Vec::new(),
                    Vec::new(),
                );
                proof {
                    assert(c.selections_view() =~= Seq::<Seq<char>>::empty());
                    assert(c.exclusions_view() =~= Seq::<Seq<char>>::empty());
                }
                Ok(c)
            },
        }
    }
}

/// Whether a single-condition exclusion rule fires on an outfit: the
/// conditioning item and the excluded item are both present.
pub fn violates_exclusion_rule(outfit: &Vec<Item>, rule: (&Item, &Item)) -> (r: bool)
    ensures
        r == (tree_view(*outfit).to_set().contains(rule.0@) && tree_view(*outfit).to_set().contains(
            rule.1@,
        )),
{
    let (selection, exclusion) = rule;
    let conditioned = crate::forest::tree_contains(outfit, selection);
    if conditioned {
        return crate::forest::tree_contains(outfit, exclusion);
    }
    false
}

/// Whether a single-condition inclusion rule fires on an outfit: the
/// conditioning item is present and the required item is absent.
pub fn violates_inclusion_rule(outfit: &Vec<Item>, rule: (&Item, &Item)) -> (r: bool)
    ensures
        r == (tree_view(*outfit).to_set().contains(rule.0@)
            && !tree_view(*outfit).to_set().contains(rule.1@)),
{
    let (selection, inclusion) = rule;
    let conditioned = crate::forest::tree_contains(outfit, selection);
    if conditioned {
        let included = crate::forest::tree_contains(outfit, inclusion);
        return !included;
    }
    false
}

} // verus!
