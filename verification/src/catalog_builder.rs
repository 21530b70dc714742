//! Compiling a catalog specification — families of items plus exclusion and
//! inclusion rules — into the catalog of valid outfits.

use vstd::prelude::*;

use crate::forest::clone_string;
use crate::forest::contains_all;
use crate::forest::tree_has_all;
use crate::forest::tree_has_none;
use crate::forest::tree_view;
use crate::types::Family;
use crate::types::Item;
use crate::validation::CatalogBuilderError;

verus! {

/// An assembly: the input specification of a catalog. `families` is an
/// ordered map, spelled as an association list with strictly ascending
/// family names.
pub struct CatalogAssembly {
    pub families: Vec<(Family, Vec<Item>)>,
    pub exclusions: Vec<CatalogExclusionRule>,
    pub inclusions: Vec<CatalogInclusionRule>,
}

/// "If every condition is chosen, no exclusion may be chosen."
pub struct CatalogExclusionRule {
    pub conditions: Vec<Item>,
    pub exclusions: Vec<Item>,
}

/// "If every condition is chosen, every inclusion must be chosen."
pub struct CatalogInclusionRule {
    pub conditions: Vec<Item>,
    pub inclusions: Vec<Item>,
}

impl View for CatalogExclusionRule {
    type V = (Seq<Seq<char>>, Seq<Seq<char>>);

    open spec fn view(&self) -> (Seq<Seq<char>>, Seq<Seq<char>>) {
        (tree_view(self.conditions), tree_view(self.exclusions))
    }
}

impl View for CatalogInclusionRule {
    type V = (Seq<Seq<char>>, Seq<Seq<char>>);

    open spec fn view(&self) -> (Seq<Seq<char>>, Seq<Seq<char>>) {
        (tree_view(self.conditions), tree_view(self.inclusions))
    }
}

/// A constraint rule, as the builder evaluates it against an outfit.
pub trait CatalogRule: Sized {
    /// The rule's conditioning items.
    spec fn conditions_view(&self) -> Seq<Seq<char>>;

    /// Whether the rule fires on — and thus forbids — the given outfit.
    spec fn fires(&self, outfit: Set<Seq<char>>) -> bool;

    fn check(&self, outfit: &Vec<Item>) -> (r: bool)
        ensures
            r == self.fires(tree_view(*outfit).to_set()),
    ;

    fn has_conditions(&self) -> (r: bool)
        ensures
            r == (self.conditions_view().len() > 0),
    ;
}

/// An exclusion rule fires when every condition is present and at least one
/// excluded item is present.
pub open spec fn exclusion_fires(r: (Seq<Seq<char>>, Seq<Seq<char>>), outfit: Set<Seq<char>>) -> bool {
    contains_all(outfit, r.0) && !crate::forest::contains_none(outfit, r.1)
}

/// An inclusion rule fires when every condition is present and at least one
/// included item is absent.
pub open spec fn inclusion_fires(r: (Seq<Seq<char>>, Seq<Seq<char>>), outfit: Set<Seq<char>>) -> bool {
    contains_all(outfit, r.0) && !contains_all(outfit, r.1)
}

impl CatalogRule for CatalogExclusionRule {
    open spec fn conditions_view(&self) -> Seq<Seq<char>> {
        self@.0
    }

    open spec fn fires(&self, outfit: Set<Seq<char>>) -> bool {
        exclusion_fires(self@, outfit)
    }

    fn check(&self, outfit: &Vec<Item>) -> (r: bool)
        ensures
            r == self.fires(tree_view(*outfit).to_set()),
    {
        let all = tree_has_all(outfit, &self.conditions);
        if !all {
            return false;
        }
        let none = tree_has_none(outfit, &self.exclusions);
        !none
    }

    fn has_conditions(&self) -> (r: bool)
        ensures
            r == (self.conditions_view().len() > 0),
    {
        !self.conditions.is_empty()
    }
}

impl CatalogRule for CatalogInclusionRule {
    open spec fn conditions_view(&self) -> Seq<Seq<char>> {
        self@.0
    }

    open spec fn fires(&self, outfit: Set<Seq<char>>) -> bool {
        inclusion_fires(self@, outfit)
    }

    fn check(&self, outfit: &Vec<Item>) -> (r: bool)
        ensures
            r == self.fires(tree_view(*outfit).to_set()),
    {
        let all = tree_has_all(outfit, &self.conditions);
        if !all {
            return false;
        }
        let included = tree_has_all(outfit, &self.inclusions);
        !included
    }

    fn has_conditions(&self) -> (r: bool)
        ensures
            r == (self.conditions_view().len() > 0),
    {
        !self.conditions.is_empty()
    }
}

/// The index entry `p` names a family that lists its item.
pub open spec fn indexed_from(fams: Seq<(Seq<char>, Seq<Seq<char>>)>, p: (Item, Family)) -> bool {
    exists|k: int|
        0 <= k < fams.len() && (#[trigger] fams[k]).0 == p.1@ && fams[k].1.contains(p.0@)
}

/// An item somewhere in a family listing.
pub open spec fn listed(fams: Seq<(Seq<char>, Seq<Seq<char>>)>, x: Seq<char>) -> bool {
    exists|k: int| 0 <= k < fams.len() && (#[trigger] fams[k]).1.contains(x)
}

/// The family an item is indexed under when it is listed several times:
/// the last listing wins.
pub open spec fn last_family(fams: Seq<(Seq<char>, Seq<Seq<char>>)>, x: Seq<char>) -> Seq<char>
    decreases fams.len(),
{
    if fams.len() == 0 {
        Seq::empty()
    } else if listed(fams.drop_first(), x) {
        last_family(fams.drop_first(), x)
    } else if fams[0].1.contains(x) {
        fams[0].0
    } else {
        Seq::empty()
    }
}

/// Registering an item extends the key set of the index by its name.
pub proof fn lemma_registered_push(index: Seq<(Item, Family)>, p: (Item, Family), x: Seq<char>)
    ensures
        crate::validation::registered(index.push(p), x) == (crate::validation::registered(index, x)
            || p.0@ == x),
{
    if crate::validation::registered(index, x) {
        let k = choose|k: int|
            0 <= k < index.len() && (#[trigger] index[k]).0@ == x;
        assert(index.push(p)[k].0@ == x);
    }
    if p.0@ == x {
        assert(index.push(p)[index.len() as int].0@ == x);
    }
    if crate::validation::registered(index.push(p), x) {
        let k = choose|k: int|
            0 <= k < index.push(p).len() && (#[trigger] index.push(p)[k]).0@ == x;
        if k < index.len() {
            assert(index[k].0@ == x);
        }
    }
}

proof fn lemma_family_of_push(index: Seq<(Item, Family)>, p: (Item, Family), x: Seq<char>)
    ensures
        crate::validation::registered(index, x) ==> crate::validation::family_of(
            index.push(p),
            x,
        ) == crate::validation::family_of(index, x),
        !crate::validation::registered(index, x) && p.0@ == x ==> crate::validation::family_of(
            index.push(p),
            x,
        ) == p.1@,
    decreases index.len(),
{
    if index.len() == 0 {
        assert(index.push(p).drop_first() =~= Seq::<(Item, Family)>::empty());
    } else {
        lemma_family_of_push(index.drop_first(), p, x);
        assert(index.push(p).drop_first() =~= index.drop_first().push(p));
        assert(index.push(p)[0] == index[0]);
        if index[0].0@ != x {
            if crate::validation::registered(index, x) {
                let k = choose|k: int|
                    0 <= k < index.len() && (#[trigger] index[k]).0@ == x;
                assert(k > 0);
                assert(index.drop_first()[k - 1].0@ == x);
                assert(crate::validation::registered(index.drop_first(), x));
            } else {
                if crate::validation::registered(index.drop_first(), x) {
                    let k = choose|k: int|
                        0 <= k < index.drop_first().len() && (#[trigger] index.drop_first()[
                            k
                        ]).0@ == x;
                    assert(index[k + 1].0@ == x);
                    assert(false);
                }
            }
        }
    }
}

/// Build the item index for a family listing: one entry per distinct item,
/// indexed under the last family that lists it.
fn build_item_index(families: &Vec<(Family, Vec<Item>)>) -> (r: Vec<(Item, Family)>)
    ensures
        crate::catalog::index_distinct(r@),
        forall|x: Seq<char>|
            #[trigger] crate::validation::registered(r@, x) == listed(
                crate::validation::families_view(families@),
                x,
            ),
        forall|x: Seq<char>|
            #[trigger] crate::validation::registered(r@, x) ==> crate::validation::family_of(r@, x)
                == last_family(crate::validation::families_view(families@), x),
        forall|p: int|
            0 <= p < r@.len() ==> indexed_from(
                crate::validation::families_view(families@),
                #[trigger] r@[p],
            ),
{
    let ghost fams = crate::validation::families_view(families@);
    let n = families.len();
    let mut r: Vec<(Item, Family)> = Vec::new();
    let mut k: usize = n;
    proof {
        assert(fams.skip(n as int) =~= Seq::<(Seq<char>, Seq<Seq<char>>)>::empty());
        assert forall|x: Seq<char>|
            #[trigger] crate::validation::registered(r@, x) == listed(
                fams.skip(n as int),
                x,
            ) by {
            if crate::validation::registered(r@, x) {
                let p = choose|p: int| 0 <= p < r@.len() && (#[trigger] r@[p]).0@ == x;
            }
            if listed(fams.skip(n as int), x) {
                let p = choose|p: int|
                    0 <= p < fams.skip(n as int).len() && (#[trigger] fams.skip(n as int)[
                        p
                    ]).1.contains(x);
            }
        }
    }
    while k > 0
        invariant
            n == families@.len(),
            n == fams.len(),
            fams == crate::validation::families_view(families@),
            k <= n,
            crate::catalog::index_distinct(r@),
            forall|x: Seq<char>|
                #[trigger] crate::validation::registered(r@, x) == listed(fams.skip(k as int), x),
            forall|x: Seq<char>|
                #[trigger] crate::validation::registered(r@, x)
                    ==> crate::validation::family_of(r@, x) == last_family(fams.skip(k as int), x),
            forall|p: int| 0 <= p < r@.len() ==> indexed_from(fams, #[trigger] r@[p]),
        decreases k,
    {
        k = k - 1;
        let m = families[k].1.len();
        let mut j: usize = 0;
        proof {
            assert(fams[k as int] == (families@[k as int].0@, tree_view(families@[k as int].1)));
            assert(fams[k as int].1.take(0) =~= Seq::<Seq<char>>::empty());
        }
        while j < m
            invariant
                n == families@.len(),
                n == fams.len(),
                fams == crate::validation::families_view(families@),
                0 <= k < n,
                m == families@[k as int].1@.len(),
                j <= m,
                fams[k as int] == (families@[k as int].0@, tree_view(families@[k as int].1)),
                crate::catalog::index_distinct(r@),
                forall|x: Seq<char>|
                    #[trigger] crate::validation::registered(r@, x) == (listed(
                        fams.skip(k + 1),
                        x,
                    ) || fams[k as int].1.take(j as int).contains(x)),
                forall|x: Seq<char>|
                    #[trigger] crate::validation::registered(r@, x)
                        ==> crate::validation::family_of(r@, x) == (if listed(fams.skip(k + 1), x) {
                        last_family(fams.skip(k + 1), x)
                    } else {
                        fams[k as int].0
                    }),
                forall|p: int| 0 <= p < r@.len() ==> indexed_from(fams, #[trigger] r@[p]),
            decreases m - j,
        {
            let ghost itv = fams[k as int].1[j as int];
            proof {
                assert(itv == families@[k as int].1@[j as int]@);
            }
            let already = crate::validation::index_lookup(&r, &families[k].1[j]);
            match already {
                Some(_) => {
                    proof {
                        assert(fams[k as int].1.take(j + 1) =~= fams[k as int].1.take(
                            j as int,
                        ).push(itv));
                        assert forall|x: Seq<char>|
                            fams[k as int].1.take(j + 1).contains(x) implies (listed(
                            fams.skip(k + 1),
                            x,
                        ) || fams[k as int].1.take(j as int).contains(x) || x == itv) by {}
                    }
                },
                None => {
                    let it = clone_string(&families[k].1[j]);
                    let fam = clone_string(&families[k].0);
                    let ghost pre = r@;
                    let ghost newp = (it, fam);
                    r.push((it, fam));
                    proof {
                        assert(r@ == pre.push(r@[pre.len() as int]));
                        assert(r@[pre.len() as int].0@ == itv);
                        assert(r@[pre.len() as int].1@ == fams[k as int].0);
                        let pp = r@[pre.len() as int];
                        assert forall|x: Seq<char>|
                            #[trigger] crate::validation::registered(r@, x) == (listed(
                            fams.skip(k + 1),
                            x,
                        ) || fams[k as int].1.take(j + 1).contains(x)) by {
                            lemma_registered_push(pre, pp, x);
                            assert(fams[k as int].1.take(j + 1) =~= fams[k as int].1.take(
                                j as int,
                            ).push(itv));
                            let t = fams[k as int].1.take(j + 1);
                            if t.contains(x) {
                                let idx = choose|idx: int| 0 <= idx < t.len() && t[idx] == x;
                                if idx < j {
                                    assert(fams[k as int].1.take(j as int)[idx] == x);
                                    assert(fams[k as int].1.take(j as int).contains(x));
                                } else {
                                    assert(x == itv);
                                }
                            }
                            if fams[k as int].1.take(j as int).contains(x) {
                                let idx = choose|idx: int|
                                    0 <= idx < fams[k as int].1.take(j as int).len() && fams[
                                        k as int
                                    ].1.take(j as int)[idx] == x;
                                assert(t[idx] == x);
                                assert(t.contains(x));
                            }
                            if x == itv {
                                assert(t[j as int] == x);
                                assert(t.contains(x));
                            }
                        }
                        assert forall|x: Seq<char>|
                            #[trigger] crate::validation::registered(r@, x) implies
                            crate::validation::family_of(r@, x) == (if listed(
                            fams.skip(k + 1),
                            x,
                        ) {
                            last_family(fams.skip(k + 1), x)
                        } else {
                            fams[k as int].0
                        }) by {
                            lemma_registered_push(pre, pp, x);
                            lemma_family_of_push(pre, pp, x);
                        }
                        assert forall|p: int, q: int|
                            0 <= p < q < r@.len() implies (#[trigger] r@[p]).0@ != (#[trigger] r@[
                            q
                        ]).0@ by {
                            if q == pre.len() {
                                assert(crate::validation::registered(pre, pre[p].0@));
                            }
                        }
                        assert(indexed_from(fams, pp)) by {
                            assert(fams[k as int].0 == pp.1@ && fams[k as int].1.contains(
                                pp.0@,
                            )) by {
                                assert(fams[k as int].1[j as int] == itv);
                            }
                        }
                    }
                },
            }
            j = j + 1;
        }
        proof {
            assert(fams[k as int].1.take(m as int) =~= fams[k as int].1);
            assert(fams.skip(k as int).drop_first() =~= fams.skip(k + 1));
            assert(fams.skip(k as int)[0] == fams[k as int]);
            assert forall|x: Seq<char>|
                #[trigger] crate::validation::registered(r@, x) == listed(
                fams.skip(k as int),
                x,
            ) by {
                if listed(fams.skip(k + 1), x) || fams[k as int].1.contains(x) {
                    if listed(fams.skip(k + 1), x) {
                        let p = choose|p: int|
                            0 <= p < fams.skip(k + 1).len() && (#[trigger] fams.skip(k + 1)[
                                p
                            ]).1.contains(x);
                        assert(fams.skip(k as int)[p + 1].1.contains(x));
                    } else {
                        assert(fams.skip(k as int)[0].1.contains(x));
                    }
                }
                if listed(fams.skip(k as int), x) {
                    let p = choose|p: int|
                        0 <= p < fams.skip(k as int).len() && (#[trigger] fams.skip(k as int)[
                            p
                        ]).1.contains(x);
                    if p > 0 {
                        assert(fams.skip(k + 1)[p - 1].1.contains(x));
                    }
                }
            }
        }
    }
    proof {
        assert(fams.skip(0) =~= fams);
    }
    r
}

/// The full Cartesian product of the families: every way to pick exactly
/// one item from each family's listing.
pub open spec fn families_product(fams: Seq<(Seq<char>, Seq<Seq<char>>)>) -> Set<Set<Seq<char>>>
    decreases fams.len(),
{
    if fams.len() == 0 {
        Set::<Set<Seq<char>>>::empty().insert(Set::empty())
    } else {
        crate::forest::product_family(
            families_product(fams.drop_last()),
            crate::forest::singleton_family(fams.last().1),
        )
    }
}

/// No exclusion and no inclusion rule forbids the outfit.
pub open spec fn no_rule_fires(
    ex: Seq<(Seq<Seq<char>>, Seq<Seq<char>>)>,
    inc: Seq<(Seq<Seq<char>>, Seq<Seq<char>>)>,
    o: Set<Seq<char>>,
) -> bool {
    &&& forall|k: int| 0 <= k < ex.len() ==> !exclusion_fires(#[trigger] ex[k], o)
    &&& forall|k: int| 0 <= k < inc.len() ==> !inclusion_fires(#[trigger] inc[k], o)
}

/// Keep the outfits no rule forbids.
pub open spec fn passes_filter(
    ex: Seq<(Seq<Seq<char>>, Seq<Seq<char>>)>,
    inc: Seq<(Seq<Seq<char>>, Seq<Seq<char>>)>,
) -> spec_fn(Set<Seq<char>>) -> bool {
    |o: Set<Seq<char>>| no_rule_fires(ex, inc, o)
}

/// Family names appear at most once in a well-formed assembly listing.
pub open spec fn families_strictly_sorted(fams: Seq<(Seq<char>, Seq<Seq<char>>)>) -> bool {
    forall|i: int, j: int|
        0 <= i < j < fams.len() ==> crate::order::chars_lt(
            (#[trigger] fams[i]).0,
            (#[trigger] fams[j]).0,
        )
}

/// The index agrees with the listing: every listed item is indexed under
/// the family that lists it. This is exactly what holds when validation
/// found no item registered under several families.
pub open spec fn index_agrees(
    fams: Seq<(Seq<char>, Seq<Seq<char>>)>,
    index: Seq<(Item, Family)>,
) -> bool {
    forall|k: int, j: int|
        0 <= k < fams.len() && 0 <= j < (#[trigger] fams[k]).1.len() ==> crate::validation::registered(
            index,
            #[trigger] fams[k].1[j],
        ) && crate::validation::family_of(index, fams[k].1[j]) == fams[k].0
}

/// Members of the full Cartesian product pick one item per family: every
/// member item is listed, every family is represented, and no two distinct
/// member items share a family.
#[verifier::rlimit(60)]
pub proof fn lemma_product_members(
    fams: Seq<(Seq<char>, Seq<Seq<char>>)>,
    index: Seq<(Item, Family)>,
    o: Set<Seq<char>>,
)
    requires
        families_strictly_sorted(fams),
        index_agrees(fams, index),
        families_product(fams).contains(o),
    ensures
        crate::catalog::outfit_wf(index, o),
        forall|k: int|
            0 <= k < fams.len() ==> exists|x: Seq<char>|
                o.contains(x) && (#[trigger] fams[k]).1.contains(x),
    decreases fams.len(),
{
    if fams.len() == 0 {
        assert(o == Set::<Seq<char>>::empty());
        assert(crate::catalog::outfit_wf(index, o));
    } else {
        let front = fams.drop_last();
        let nlast = fams.len() - 1;
        assert(families_strictly_sorted(front)) by {
            assert(forall|i: int| 0 <= i < front.len() ==> front[i] == fams[i]);
        }
        assert(index_agrees(front, index)) by {
            assert(forall|i: int| 0 <= i < front.len() ==> front[i] == fams[i]);
        }
        let (oa, ob) = choose|oa: Set<Seq<char>>, ob: Set<Seq<char>>|
            families_product(front).contains(oa) && crate::forest::singleton_family(
                fams.last().1,
            ).contains(ob) && o == oa.union(ob);
        lemma_product_members(front, index, oa);
        let it = choose|it: Seq<char>|
            fams.last().1.to_set().contains(it) && ob == Set::<Seq<char>>::empty().insert(it);
        assert(fams.last().1.contains(it));
        let itj = choose|itj: int| 0 <= itj < fams.last().1.len() && fams.last().1[itj] == it;
        assert(crate::validation::family_of(index, it) == fams[nlast].0) by {
            assert(fams[nlast].1[itj] == it);
        }
        lemma_product_support(front, oa);
        // every item of the front part belongs to an earlier family
        assert forall|x: Seq<char>| oa.contains(x) implies crate::validation::family_of(index, x)
            != fams[nlast].0 by {
            let (k, jj) = choose|k: int, jj: int|
                0 <= k < front.len() && 0 <= jj < front[k].1.len() && #[trigger] front[k].1[jj]
                    == x;
            assert(fams[k].1[jj] == x);
            assert(crate::validation::family_of(index, x) == fams[k].0);
            crate::order::lemma_chars_lt_asym(fams[k].0, fams[nlast].0);
        }
        assert(crate::catalog::outfit_wf(index, o)) by {
            assert forall|x: Seq<char>| #[trigger] o.contains(x) implies
                crate::validation::registered(index, x) by {
                if oa.contains(x) {
                } else {
                    assert(x == it);
                }
            }
            assert forall|x: Seq<char>, y: Seq<char>|
                o.contains(x) && o.contains(y) && x != y implies
                #[trigger] crate::validation::family_of(index, x)
                != #[trigger] crate::validation::family_of(index, y) by {
                if oa.contains(x) && oa.contains(y) {
                } else if oa.contains(x) && y == it {
                } else if x == it && oa.contains(y) {
                }
            }
        }
        assert forall|k: int| 0 <= k < fams.len() implies exists|x: Seq<char>|
            o.contains(x) && (#[trigger] fams[k]).1.contains(x) by {
            if k < nlast {
                let x = choose|x: Seq<char>| oa.contains(x) && (#[trigger] front[k]).1.contains(x);
                assert(o.contains(x) && fams[k].1.contains(x));
            } else {
                assert(o.contains(it) && fams[k].1.contains(it));
            }
        }
    }
}

/// The membership problem of `lemma_product_members` needs each outfit
/// item traced back to the family listing it: restate membership of the
/// front product for the induction.
proof fn lemma_product_support(fams: Seq<(Seq<char>, Seq<Seq<char>>)>, o: Set<Seq<char>>)
    requires
        families_product(fams).contains(o),
    ensures
        forall|x: Seq<char>|
            #[trigger] o.contains(x) ==> exists|k: int, jj: int|
                0 <= k < fams.len() && 0 <= jj < fams[k].1.len() && #[trigger] fams[k].1[jj] == x,
    decreases fams.len(),
{
    if fams.len() == 0 {
        assert(o == Set::<Seq<char>>::empty());
    } else {
        let front = fams.drop_last();
        let nlast = fams.len() - 1;
        let (oa, ob) = choose|oa: Set<Seq<char>>, ob: Set<Seq<char>>|
            families_product(front).contains(oa) && crate::forest::singleton_family(
                fams.last().1,
            ).contains(ob) && o == oa.union(ob);
        lemma_product_support(front, oa);
        let it = choose|it: Seq<char>|
            fams.last().1.to_set().contains(it) && ob == Set::<Seq<char>>::empty().insert(it);
        let itj = choose|itj: int| 0 <= itj < fams.last().1.len() && fams.last().1[itj] == it;
        assert forall|x: Seq<char>| #[trigger] o.contains(x) implies exists|k: int, jj: int|
            0 <= k < fams.len() && 0 <= jj < fams[k].1.len() && #[trigger] fams[k].1[jj] == x by {
            if oa.contains(x) {
                let (k, jj) = choose|k: int, jj: int|
                    0 <= k < front.len() && 0 <= jj < front[k].1.len() && #[trigger] front[k].1[
                        jj
                    ] == x;
                assert(fams[k].1[jj] == x);
            } else {
                assert(x == it);
                assert(fams[nlast as int].1[itj] == x);
            }
        }
    }
}

/// The index derived from a family listing: distinct keys covering exactly
/// the listed items, each under the last family listing it.
pub open spec fn index_characterizes(
    fams: Seq<(Seq<char>, Seq<Seq<char>>)>,
    index: Seq<(Item, Family)>,
) -> bool {
    &&& crate::catalog::index_distinct(index)
    &&& forall|x: Seq<char>| #[trigger] crate::validation::registered(index, x) == listed(fams, x)
    &&& forall|x: Seq<char>|
        #[trigger] crate::validation::registered(index, x) ==> crate::validation::family_of(
            index,
            x,
        ) == last_family(fams, x)
    &&& forall|p: int| 0 <= p < index.len() ==> indexed_from(fams, #[trigger] index[p])
}

fn any_exclusion_fires(rules: &Vec<CatalogExclusionRule>, outfit: &Vec<Item>) -> (r: bool)
    ensures
        r == exists|k: int|
            0 <= k < rules@.len() && exclusion_fires(
                #[trigger] crate::validation::exclusion_rules_view(rules@)[k],
                tree_view(*outfit).to_set(),
            ),
{
    let ghost rsv = crate::validation::exclusion_rules_view(rules@);
    let n = rules.len();
    let mut k: usize = 0;
    while k < n
        invariant
            n == rules@.len(),
            rsv == crate::validation::exclusion_rules_view(rules@),
            k <= n,
            forall|p: int|
                0 <= p < k ==> !exclusion_fires(#[trigger] rsv[p], tree_view(*outfit).to_set()),
        decreases n - k,
    {
        let fires = rules[k].check(outfit);
        proof {
            assert(rsv[k as int] == rules@[k as int]@);
        }
        if fires {
            return true;
        }
        k = k + 1;
    }
    false
}

fn any_inclusion_fires(rules: &Vec<CatalogInclusionRule>, outfit: &Vec<Item>) -> (r: bool)
    ensures
        r == exists|k: int|
            0 <= k < rules@.len() && inclusion_fires(
                #[trigger] crate::validation::inclusion_rules_view(rules@)[k],
                tree_view(*outfit).to_set(),
            ),
{
    let ghost rsv = crate::validation::inclusion_rules_view(rules@);
    let n = rules.len();
    let mut k: usize = 0;
    while k < n
        invariant
            n == rules@.len(),
            rsv == crate::validation::inclusion_rules_view(rules@),
            k <= n,
            forall|p: int|
                0 <= p < k ==> !inclusion_fires(#[trigger] rsv[p], tree_view(*outfit).to_set()),
        decreases n - k,
    {
        let fires = rules[k].check(outfit);
        proof {
            assert(rsv[k as int] == rules@[k as int]@);
        }
        if fires {
            return true;
        }
        k = k + 1;
    }
    false
}


/// When validation finds no item registered under several families, the
/// index agrees with the listing: every listed item is indexed under the
/// family that lists it.
pub proof fn lemma_agrees_of_no_conflicts(
    fams: Seq<(Seq<char>, Seq<Seq<char>>)>,
    index: Seq<(Item, Family)>,
)
    requires
        crate::validation::family_conflict_errs(fams, index) == Set::<
            crate::validation::BuilderErrorView,
        >::empty(),
        forall|x: Seq<char>| #[trigger] listed(fams, x) ==> crate::validation::registered(index, x),
    ensures
        index_agrees(fams, index),
{
    assert forall|kk: int, j: int|
        0 <= kk < fams.len() && 0 <= j < (#[trigger] fams[kk]).1.len() implies
        crate::validation::registered(index, #[trigger] fams[kk].1[j])
        && crate::validation::family_of(index, fams[kk].1[j]) == fams[kk].0 by {
        let it = fams[kk].1[j];
        assert(fams[kk].1.contains(it));
        assert(listed(fams, it));
        if crate::validation::family_of(index, it) != fams[kk].0 {
            let e = crate::validation::BuilderErrorView::MultipleFamiliesRegistered {
                item: it,
                families: seq![crate::validation::family_of(index, it), fams[kk].0],
            };
            assert(crate::validation::fam_item_errs(index, fams[kk].0, it).contains(e));
            assert(crate::validation::fam_item_errs_fn(index, fams[kk].0)(fams[kk].1[j]).contains(
                e,
            ));
            assert(crate::validation::fam_errs(index, fams[kk]).contains(e));
            assert(crate::validation::fam_errs_fn(index)(fams[kk]).contains(e));
            assert(crate::validation::family_conflict_errs(fams, index).contains(e));
            assert(false);
        }
    }
}

/// Compile a validated assembly over its index: the full Cartesian product
/// of the families, less every outfit on which a rule fires.
#[verifier::rlimit(100)]
pub fn compile_catalog(
    families: &Vec<(Family, Vec<Item>)>,
    item_index: Vec<(Item, Family)>,
    exclusions: &Vec<CatalogExclusionRule>,
    inclusions: &Vec<CatalogInclusionRule>,
) -> (c: crate::catalog::Catalog)
    requires
        families_strictly_sorted(crate::validation::families_view(families@)),
        crate::catalog::index_distinct(item_index@),
        forall|x: Seq<char>|
            #[trigger] listed(crate::validation::families_view(families@), x)
                ==> crate::validation::registered(item_index@, x),
        forall|p: int|
            0 <= p < item_index@.len() ==> indexed_from(
                crate::validation::families_view(families@),
                #[trigger] item_index@[p],
            ),
        index_agrees(crate::validation::families_view(families@), item_index@),
    ensures
        c.index() == item_index@,
        c.wf(),
        c.complete(),
        c.sets() == families_product(crate::validation::families_view(families@)).filter(
            passes_filter(
                crate::validation::exclusion_rules_view(exclusions@),
                crate::validation::inclusion_rules_view(inclusions@),
            ),
        ),
{
    let ghost fams = crate::validation::families_view(families@);
    let ghost exv = crate::validation::exclusion_rules_view(exclusions@);
    let ghost incv = crate::validation::inclusion_rules_view(inclusions@);
    let assembly_families = families;
    let n = assembly_families.len();
    let mut forest = crate::forest::Forest::unit();
    let mut k: usize = 0;
    proof {
        assert(fams.take(0) =~= Seq::<(Seq<char>, Seq<Seq<char>>)>::empty());
        assert(forest.sets() == families_product(fams.take(0)));
    }
    while k < n
        invariant
            n == assembly_families@.len(),
            n == fams.len(),
            fams == crate::validation::families_view(assembly_families@),
            k <= n,
            forest.wf(),
            forest.sets() == families_product(fams.take(k as int)),
        decreases n - k,
    {
        let uq = crate::forest::Forest::unique(&assembly_families[k].1);
        forest = forest.product(&uq);
        proof {
            assert(fams[k as int] == (
                assembly_families@[k as int].0@,
                tree_view(assembly_families@[k as int].1),
            ));
            assert(fams.take(k + 1).drop_last() =~= fams.take(k as int));
            assert(fams.take(k + 1).last() == fams[k as int]);
        }
        k = k + 1;
    }
    proof {
        assert(fams.take(n as int) =~= fams);
    }

    let all = forest.trees();
    let ghost av = forest@;
    let an = all.len();
    let mut survivors: Vec<Vec<String>> = Vec::new();
    let mut i: usize = 0;
    proof {
        assert(crate::forest::forest_view(survivors) =~= Seq::<Seq<Seq<char>>>::empty());
        assert(crate::forest::sets_of(crate::forest::forest_view(survivors)) =~= Set::<
            Set<Seq<char>>,
        >::empty());
        assert(av.take(0) =~= Seq::<Seq<Seq<char>>>::empty());
        assert(crate::forest::sets_of(av.take(0)) =~= Set::<Set<Seq<char>>>::empty());
        assert(crate::forest::sets_of(crate::forest::forest_view(survivors))
            =~= crate::forest::sets_of(av.take(0)).filter(passes_filter(exv, incv)));
    }
    while i < an
        invariant
            an == all@.len(),
            an == av.len(),
            crate::forest::forest_view(*&all) == av,
            exv == crate::validation::exclusion_rules_view(exclusions@),
            incv == crate::validation::inclusion_rules_view(inclusions@),
            i <= an,
            crate::forest::sets_of(crate::forest::forest_view(survivors))
                == crate::forest::sets_of(av.take(i as int)).filter(passes_filter(exv, incv)),
        decreases an - i,
    {
        let vex = any_exclusion_fires(&exclusions, &all[i]);
        let vinc = any_inclusion_fires(&inclusions, &all[i]);
        let ghost o = av[i as int].to_set();
        proof {
            assert(av[i as int] == tree_view(all@[i as int]));
            assert(passes_filter(exv, incv)(o) == no_rule_fires(exv, incv, o));
        }
        if !vex && !vinc {
            let c = crate::forest::clone_tree(&all[i]);
            let ghost pre = survivors@;
            let ghost prefv = crate::forest::forest_view(survivors);
            proof {
                assert(prefv == pre.map_values(|t: Vec<String>| tree_view(t)));
                assert(prefv.len() == pre.len());
            }
            survivors.push(c);
            proof {
                assert(survivors@ == pre.push(c));
                let nfv = crate::forest::forest_view(survivors);
                assert forall|p: int| 0 <= p < nfv.len() implies nfv[p] == prefv.push(
                    av[i as int],
                )[p] by {
                    assert(nfv[p] == tree_view(survivors@[p]));
                    if p < pre.len() {
                        assert(survivors@[p] == pre[p]);
                    } else {
                        assert(survivors@[p] == c);
                        assert(c@ == all@[i as int]@);
                    }
                }
                assert(nfv =~= prefv.push(av[i as int]));
                assert(prefv.push(av[i as int]) =~= prefv.insert(
                    prefv.len() as int,
                    av[i as int],
                ));
                crate::forest::lemma_sets_of_insert(prefv, prefv.len() as int, av[i as int]);
                crate::forest::lemma_sets_of_take_succ(av, i as int);
                assert(crate::forest::sets_of(nfv) =~= crate::forest::sets_of(av.take(i + 1)).filter(
                    passes_filter(exv, incv),
                ));
            }
        } else {
            proof {
                crate::forest::lemma_sets_of_take_succ(av, i as int);
                assert(crate::forest::sets_of(crate::forest::forest_view(survivors))
                    =~= crate::forest::sets_of(av.take(i + 1)).filter(passes_filter(exv, incv)));
            }
        }
        i = i + 1;
    }
    proof {
        assert(av.take(an as int) =~= av);
    }
    let combos = crate::forest::Forest::many(&survivors);
    let catalog = crate::catalog::Catalog::new(combos, item_index);
    proof {
        assert(catalog.sets() == families_product(fams).filter(passes_filter(exv, incv)));
        assert(index_agrees(fams, catalog.index()));
        assert forall|o: Set<Seq<char>>| #[trigger] catalog.sets().contains(o) implies
            crate::catalog::outfit_wf(catalog.index(), o) && crate::catalog::outfit_covers(
            catalog.index(),
            o,
        ) by {
            assert(families_product(fams).contains(o));
            lemma_product_members(fams, catalog.index(), o);
            assert forall|p: int| 0 <= p < catalog.index().len() implies exists|x: Seq<char>|
                o.contains(x) && crate::validation::family_of(catalog.index(), x) == (
                #[trigger] catalog.index()[p]).1@ by {
                let kk = choose|kk: int|
                    0 <= kk < fams.len() && (#[trigger] fams[kk]).0 == catalog.index()[p].1@
                        && fams[kk].1.contains(catalog.index()[p].0@);
                let x = choose|x: Seq<char>|
                    o.contains(x) && (#[trigger] fams[kk]).1.contains(x);
                let jx = choose|jx: int| 0 <= jx < fams[kk].1.len() && fams[kk].1[jx] == x;
                assert(crate::validation::family_of(catalog.index(), fams[kk].1[jx]) == fams[
                    kk
                ].0);
                assert(o.contains(x) && crate::validation::family_of(catalog.index(), x)
                    == catalog.index()[p].1@);
            }
        }
        assert(catalog.wf());
        assert(catalog.complete());
    }
    catalog
}

/// Compile an assembly: validate it, build the full Cartesian product of
/// its families, drop every outfit on which a rule fires, and return the
/// catalog of survivors over the derived item index. An invalid assembly
/// is rejected with its canonical report; by
/// `lemma_violations_index_independent`, `lemma_violations_order_insensitive`
/// and `lemma_report_unique`, that report does not depend on how the index
/// was laid out or how the rules were listed.
pub fn build_catalog(assembly: CatalogAssembly) -> (r: Result<
    crate::catalog::Catalog,
    CatalogBuilderError,
>)
    requires
        families_strictly_sorted(crate::validation::families_view(assembly.families@)),
    ensures
        ({
            let fams = crate::validation::families_view(assembly.families@);
            let exv = crate::validation::exclusion_rules_view(assembly.exclusions@);
            let incv = crate::validation::inclusion_rules_view(assembly.inclusions@);
            match r {
                Ok(c) => {
                    &&& index_characterizes(fams, c.index())
                    &&& crate::validation::violation_set(fams, c.index(), exv, incv) == Set::<
                        crate::validation::BuilderErrorView,
                    >::empty()
                    &&& fams.len() > 0
                    &&& c.wf()
                    &&& c.complete()
                    &&& c.sets() == families_product(fams).filter(passes_filter(exv, incv))
                },
                Err(e) => exists|index: Seq<(Item, Family)>|
                    {
                        &&& #[trigger] index_characterizes(fams, index)
                        &&& ({
                            let v = crate::validation::violation_set(fams, index, exv, incv);
                            ||| (v == Set::<crate::validation::BuilderErrorView>::empty()
                                && fams.len() == 0 && e@
                                == crate::validation::BuilderErrorView::EmptyCatalog)
                            ||| (!(v == Set::<crate::validation::BuilderErrorView>::empty())
                                && crate::validation::canonical_report(e@, v))
                        })
                    },
            }
        }),
{
    let ghost fams = crate::validation::families_view(assembly.families@);
    let ghost exv = crate::validation::exclusion_rules_view(assembly.exclusions@);
    let ghost incv = crate::validation::inclusion_rules_view(assembly.inclusions@);

    let item_index = build_item_index(&assembly.families);
    proof {
        assert(index_characterizes(fams, item_index@));
        assert forall|k: int| 0 <= k < fams.len() implies crate::validation::all_registered(
            item_index@,
            (#[trigger] fams[k]).1,
        ) by {
            assert forall|j: int| 0 <= j < fams[k].1.len() implies crate::validation::registered(
                item_index@,
                #[trigger] fams[k].1[j],
            ) by {
                assert(fams[k].1.contains(fams[k].1[j]));
                assert(listed(fams, fams[k].1[j]));
            }
        }
    }
    let valid = crate::validation::validate_catalog(
        &assembly.families,
        &item_index,
        &assembly.exclusions,
        &assembly.inclusions,
    );
    match valid {
        Err(e) => {
            proof {
                let ghost w = item_index@;
                assert(index_characterizes(fams, w));
            }
            return Err(e);
        },
        Ok(()) => {},
    }
    if assembly.families.is_empty() {
        proof {
            let ghost w = item_index@;
            assert(index_characterizes(fams, w));
        }
        return Err(CatalogBuilderError::EmptyCatalog);
    }
    proof {
        let v = crate::validation::violation_set(fams, item_index@, exv, incv);
        assert forall|e: crate::validation::BuilderErrorView|
            crate::validation::family_conflict_errs(fams, item_index@).contains(e) implies
            false by {
            assert(v.contains(e));
        }
        assert(crate::validation::family_conflict_errs(fams, item_index@) =~= Set::<
            crate::validation::BuilderErrorView,
        >::empty());
        lemma_agrees_of_no_conflicts(fams, item_index@);
    }
    let ghost gidx = item_index@;
    let catalog = compile_catalog(&assembly.families, item_index, &assembly.exclusions, &assembly.inclusions);
    Ok(catalog)
}

} // verus!
