//! Validation of a catalog specification: every rule violation is detected,
//! deduplicated and reported in one canonical order, so that an invalid
//! assembly yields the same error value however its rules were listed.

use vstd::prelude::*;

use crate::forest::tree_lt;
use crate::forest::tree_view;
use crate::order::chars_lt;
use crate::order::items_lt;
use crate::order::lemma_chars_lt_asym;
use crate::order::lemma_chars_lt_connex;
use crate::order::lemma_chars_lt_trans;
use crate::order::lemma_items_lt_asym;
use crate::order::lemma_items_lt_connex;
use crate::order::lemma_items_lt_trans;
use crate::order::order_asymmetric;
use crate::order::order_connex_on;
use crate::order::order_transitive;
use crate::order::pairwise_sorted;
use crate::order::string_lt;
use crate::catalog_builder::CatalogExclusionRule;
use crate::catalog_builder::CatalogInclusionRule;
use crate::types::Family;
use crate::types::Item;

verus! {

/// The item-to-family index, as an association list with distinct keys.
/// Whether the index knows the item.
pub open spec fn registered(index: Seq<(Item, Family)>, it: Seq<char>) -> bool {
    exists|k: int| 0 <= k < index.len() && (#[trigger] index[k]).0@ == it
}

/// The family an item is registered under; meaningful only for registered
/// items.
pub open spec fn family_of(index: Seq<(Item, Family)>, it: Seq<char>) -> Seq<char>
    decreases index.len(),
{
    if index.len() == 0 {
        Seq::empty()
    } else if index[0].0@ == it {
        index[0].1@
    } else {
        family_of(index.drop_first(), it)
    }
}

proof fn lemma_family_of_skip(index: Seq<(Item, Family)>, it: Seq<char>, i: int)
    requires
        0 <= i <= index.len(),
        forall|k: int| 0 <= k < i ==> (#[trigger] index[k]).0@ != it,
    ensures
        family_of(index, it) == family_of(index.skip(i), it),
    decreases i,
{
    if i == 0 {
        assert(index.skip(0) =~= index);
    } else {
        let t = index.drop_first();
        assert(forall|k: int| 0 <= k < i - 1 ==> (#[trigger] t[k]).0@ != it);
        lemma_family_of_skip(t, it, i - 1);
        assert(t.skip(i - 1) =~= index.skip(i));
    }
}

/// Look an item up in the index.
pub fn index_lookup(index: &Vec<(Item, Family)>, it: &Item) -> (r: Option<Family>)
    ensures
        match r {
            Some(f) => registered(index@, it@) && f@ == family_of(index@, it@),
            None => !registered(index@, it@),
        },
{
    let n = index.len();
    let mut i: usize = 0;
    while i < n
        invariant
            n == index@.len(),
            i <= n,
            forall|k: int| 0 <= k < i ==> (#[trigger] index@[k]).0@ != it@,
        decreases n - i,
    {
        let hit = crate::forest::item_eq(&index[i].0, it);
        if hit {
            let f = crate::forest::clone_string(&index[i].1);
            proof {
                lemma_family_of_skip(index@, it@, i as int);
                assert(index@.skip(i as int)[0] == index@[i as int]);
            }
            return Some(f);
        }
        i = i + 1;
    }
    proof {
        if registered(index@, it@) {
            let k = choose|k: int| 0 <= k < index@.len() && (#[trigger] index@[k]).0@ == it@;
            assert(false);
        }
    }
    None
}

/// A reason an assembly is rejected. A compound error gathers two or more
/// distinct violations; the violations inside a compound are never
/// themselves compound.
#[derive(Debug, PartialEq, Eq, Hash)]
pub enum CatalogBuilderError {
    EmptyCatalog,
    InclusionMissingFamily { item: String },
    ExclusionMissingFamily { item: String },
    InclusionMissingCondition,
    ExclusionMissingCondition,
    MultipleFamiliesRegistered { item: String, families: Vec<String> },
    InclusionFamilyConflict { family: String, items: Vec<String> },
    ExclusionFamilyConflict { family: String, items: Vec<String> },
    CompoundError { errors: Vec<CatalogBuilderError> },
}

/// The mathematical shape of a builder error, over character sequences.
pub enum BuilderErrorView {
    EmptyCatalog,
    InclusionMissingFamily { item: Seq<char> },
    ExclusionMissingFamily { item: Seq<char> },
    InclusionMissingCondition,
    ExclusionMissingCondition,
    MultipleFamiliesRegistered { item: Seq<char>, families: Seq<Seq<char>> },
    InclusionFamilyConflict { family: Seq<char>, items: Seq<Seq<char>> },
    ExclusionFamilyConflict { family: Seq<char>, items: Seq<Seq<char>> },
    Compound { errors: Seq<BuilderErrorView> },
}

/// The view of a single, non-compound error. A compound nested inside
/// another compound never arises; such a value is viewed as an empty
/// compound.
pub open spec fn simple_error_view(e: CatalogBuilderError) -> BuilderErrorView {
    match e {
        CatalogBuilderError::EmptyCatalog => BuilderErrorView::EmptyCatalog,
        CatalogBuilderError::InclusionMissingFamily { item } => {
            BuilderErrorView::InclusionMissingFamily { item: item@ }
        },
        CatalogBuilderError::ExclusionMissingFamily { item } => {
            BuilderErrorView::ExclusionMissingFamily { item: item@ }
        },
        CatalogBuilderError::InclusionMissingCondition => {
            BuilderErrorView::InclusionMissingCondition
        },
        CatalogBuilderError::ExclusionMissingCondition => {
            BuilderErrorView::ExclusionMissingCondition
        },
        CatalogBuilderError::MultipleFamiliesRegistered { item, families } => {
            BuilderErrorView::MultipleFamiliesRegistered { item: item@, families: tree_view(families) }
        },
        CatalogBuilderError::InclusionFamilyConflict { family, items } => {
            BuilderErrorView::InclusionFamilyConflict { family: family@, items: tree_view(items) }
        },
        CatalogBuilderError::ExclusionFamilyConflict { family, items } => {
            BuilderErrorView::ExclusionFamilyConflict { family: family@, items: tree_view(items) }
        },
        CatalogBuilderError::CompoundError { .. } => {
            BuilderErrorView::Compound { errors: Seq::empty() }
        },
    }
}

impl View for CatalogBuilderError {
    type V = BuilderErrorView;

    open spec fn view(&self) -> BuilderErrorView {
        match self {
            CatalogBuilderError::CompoundError { errors } => {
                BuilderErrorView::Compound {
                    errors: errors@.map_values(|e: CatalogBuilderError| simple_error_view(e)),
                }
            },
            _ => simple_error_view(*self),
        }
    }
}

/// A single violation, as opposed to a compound report.
pub open spec fn is_simple(e: BuilderErrorView) -> bool {
    !(e is Compound)
}

/// A fixed rank for each error shape, giving the first key of the
/// canonical report order.
pub open spec fn err_rank(e: BuilderErrorView) -> int {
    match e {
        BuilderErrorView::EmptyCatalog => 0,
        BuilderErrorView::InclusionMissingFamily { .. } => 1,
        BuilderErrorView::ExclusionMissingFamily { .. } => 2,
        BuilderErrorView::InclusionMissingCondition => 3,
        BuilderErrorView::ExclusionMissingCondition => 4,
        BuilderErrorView::MultipleFamiliesRegistered { .. } => 5,
        BuilderErrorView::InclusionFamilyConflict { .. } => 6,
        BuilderErrorView::ExclusionFamilyConflict { .. } => 7,
        BuilderErrorView::Compound { .. } => 8,
    }
}

/// The canonical order on reported violations: by shape, then by payload.
pub open spec fn err_lt(a: BuilderErrorView, b: BuilderErrorView) -> bool {
    if err_rank(a) != err_rank(b) {
        err_rank(a) < err_rank(b)
    } else {
        match (a, b) {
            (
                BuilderErrorView::InclusionMissingFamily { item: x },
                BuilderErrorView::InclusionMissingFamily { item: y },
            ) => chars_lt(x, y),
            (
                BuilderErrorView::ExclusionMissingFamily { item: x },
                BuilderErrorView::ExclusionMissingFamily { item: y },
            ) => chars_lt(x, y),
            (
                BuilderErrorView::MultipleFamiliesRegistered { item: x, families: fx },
                BuilderErrorView::MultipleFamiliesRegistered { item: y, families: fy },
            ) => chars_lt(x, y) || (x == y && items_lt(fx, fy)),
            (
                BuilderErrorView::InclusionFamilyConflict { family: x, items: ix },
                BuilderErrorView::InclusionFamilyConflict { family: y, items: iy },
            ) => chars_lt(x, y) || (x == y && items_lt(ix, iy)),
            (
                BuilderErrorView::ExclusionFamilyConflict { family: x, items: ix },
                BuilderErrorView::ExclusionFamilyConflict { family: y, items: iy },
            ) => chars_lt(x, y) || (x == y && items_lt(ix, iy)),
            _ => false,
        }
    }
}

/// The report order, as a value usable with the sorted-sequence lemmas.
pub open spec fn err_lt_fn() -> spec_fn(BuilderErrorView, BuilderErrorView) -> bool {
    |a: BuilderErrorView, b: BuilderErrorView| err_lt(a, b)
}

pub proof fn lemma_err_order()
    ensures
        order_asymmetric(err_lt_fn()),
        order_transitive(err_lt_fn()),
{
    assert forall|x: BuilderErrorView, y: BuilderErrorView| #[trigger] err_lt_fn()(
        x,
        y,
    ) implies !err_lt_fn()(y, x) && x != y by {
        if err_rank(x) == err_rank(y) {
            match (x, y) {
                (
                    BuilderErrorView::InclusionMissingFamily { item: a },
                    BuilderErrorView::InclusionMissingFamily { item: b },
                ) => {
                    lemma_chars_lt_asym(a, b);
                },
                (
                    BuilderErrorView::ExclusionMissingFamily { item: a },
                    BuilderErrorView::ExclusionMissingFamily { item: b },
                ) => {
                    lemma_chars_lt_asym(a, b);
                },
                (
                    BuilderErrorView::MultipleFamiliesRegistered { item: a, families: fa },
                    BuilderErrorView::MultipleFamiliesRegistered { item: b, families: fb },
                ) => {
                    lemma_chars_lt_asym(a, b);
                    lemma_items_lt_asym(fa, fb);
                },
                (
                    BuilderErrorView::InclusionFamilyConflict { family: a, items: ia },
                    BuilderErrorView::InclusionFamilyConflict { family: b, items: ib },
                ) => {
                    lemma_chars_lt_asym(a, b);
                    lemma_items_lt_asym(ia, ib);
                },
                (
                    BuilderErrorView::ExclusionFamilyConflict { family: a, items: ia },
                    BuilderErrorView::ExclusionFamilyConflict { family: b, items: ib },
                ) => {
                    lemma_chars_lt_asym(a, b);
                    lemma_items_lt_asym(ia, ib);
                },
                _ => {},
            }
        }
    }
    assert forall|x: BuilderErrorView, y: BuilderErrorView, z: BuilderErrorView|
        #[trigger] err_lt_fn()(x, y) && #[trigger] err_lt_fn()(y, z) implies err_lt_fn()(x, z) by {
        if err_rank(x) == err_rank(y) && err_rank(y) == err_rank(z) {
            match (x, y, z) {
                (
                    BuilderErrorView::InclusionMissingFamily { item: a },
                    BuilderErrorView::InclusionMissingFamily { item: b },
                    BuilderErrorView::InclusionMissingFamily { item: c },
                ) => {
                    lemma_chars_lt_trans(a, b, c);
                },
                (
                    BuilderErrorView::ExclusionMissingFamily { item: a },
                    BuilderErrorView::ExclusionMissingFamily { item: b },
                    BuilderErrorView::ExclusionMissingFamily { item: c },
                ) => {
                    lemma_chars_lt_trans(a, b, c);
                },
                (
                    BuilderErrorView::MultipleFamiliesRegistered { item: a, families: fa },
                    BuilderErrorView::MultipleFamiliesRegistered { item: b, families: fb },
                    BuilderErrorView::MultipleFamiliesRegistered { item: c, families: fc },
                ) => {
                    lemma_three_way(a, fa, b, fb, c, fc);
                },
                (
                    BuilderErrorView::InclusionFamilyConflict { family: a, items: fa },
                    BuilderErrorView::InclusionFamilyConflict { family: b, items: fb },
                    BuilderErrorView::InclusionFamilyConflict { family: c, items: fc },
                ) => {
                    lemma_three_way(a, fa, b, fb, c, fc);
                },
                (
                    BuilderErrorView::ExclusionFamilyConflict { family: a, items: fa },
                    BuilderErrorView::ExclusionFamilyConflict { family: b, items: fb },
                    BuilderErrorView::ExclusionFamilyConflict { family: c, items: fc },
                ) => {
                    lemma_three_way(a, fa, b, fb, c, fc);
                },
                _ => {},
            }
        }
    }
}

/// Transitivity of the (identifier, identifier list) lexicographic pair
/// order.
proof fn lemma_three_way(
    a: Seq<char>,
    fa: Seq<Seq<char>>,
    b: Seq<char>,
    fb: Seq<Seq<char>>,
    c: Seq<char>,
    fc: Seq<Seq<char>>,
)
    requires
        chars_lt(a, b) || (a == b && items_lt(fa, fb)),
        chars_lt(b, c) || (b == c && items_lt(fb, fc)),
    ensures
        chars_lt(a, c) || (a == c && items_lt(fa, fc)),
{
    if chars_lt(a, b) && chars_lt(b, c) {
        lemma_chars_lt_trans(a, b, c);
    } else if a == b && b == c {
        lemma_items_lt_trans(fa, fb, fc);
    } else if chars_lt(a, c) {
    } else {
        if a == c {
            if chars_lt(a, b) {
                lemma_chars_lt_asym(a, b);
            } else {
                lemma_chars_lt_asym(b, c);
            }
        }
    }
}

/// Distinct simple errors are always comparable.
pub proof fn lemma_err_connex_on(s: Set<BuilderErrorView>)
    requires
        forall|e: BuilderErrorView| #[trigger] s.contains(e) ==> is_simple(e),
    ensures
        order_connex_on(err_lt_fn(), s),
{
    assert forall|x: BuilderErrorView, y: BuilderErrorView|
        #[trigger] s.contains(x) && #[trigger] s.contains(y) && x != y implies err_lt_fn()(x, y)
        || err_lt_fn()(y, x) by {
        if err_rank(x) == err_rank(y) {
            match (x, y) {
                (
                    BuilderErrorView::InclusionMissingFamily { item: a },
                    BuilderErrorView::InclusionMissingFamily { item: b },
                ) => {
                    lemma_chars_lt_connex(a, b);
                },
                (
                    BuilderErrorView::ExclusionMissingFamily { item: a },
                    BuilderErrorView::ExclusionMissingFamily { item: b },
                ) => {
                    lemma_chars_lt_connex(a, b);
                },
                (
                    BuilderErrorView::MultipleFamiliesRegistered { item: a, families: fa },
                    BuilderErrorView::MultipleFamiliesRegistered { item: b, families: fb },
                ) => {
                    lemma_chars_lt_connex(a, b);
                    lemma_items_lt_connex(fa, fb);
                },
                (
                    BuilderErrorView::InclusionFamilyConflict { family: a, items: fa },
                    BuilderErrorView::InclusionFamilyConflict { family: b, items: fb },
                ) => {
                    lemma_chars_lt_connex(a, b);
                    lemma_items_lt_connex(fa, fb);
                },
                (
                    BuilderErrorView::ExclusionFamilyConflict { family: a, items: fa },
                    BuilderErrorView::ExclusionFamilyConflict { family: b, items: fb },
                ) => {
                    lemma_chars_lt_connex(a, b);
                    lemma_items_lt_connex(fa, fb);
                },
                _ => {},
            }
        }
    }
}

/// The views of a collected error list.
pub open spec fn errors_view(v: Seq<CatalogBuilderError>) -> Seq<BuilderErrorView> {
    v.map_values(|e: CatalogBuilderError| e@)
}

/// Every collected error is a single violation.
pub open spec fn all_simple(v: Seq<CatalogBuilderError>) -> bool {
    forall|k: int| 0 <= k < v.len() ==> is_simple((#[trigger] v[k])@) && !(v[k] is CompoundError)
}

/// Exact comparison of two collected errors in the canonical order.
fn err_lt_exec(a: &CatalogBuilderError, b: &CatalogBuilderError) -> (r: bool)
    requires
        !(a is CompoundError),
        !(b is CompoundError),
    ensures
        r == err_lt(a@, b@),
{
    let ra = err_rank_exec(a);
    let rb = err_rank_exec(b);
    if ra != rb {
        return ra < rb;
    }
    match (a, b) {
        (
            CatalogBuilderError::InclusionMissingFamily { item: x },
            CatalogBuilderError::InclusionMissingFamily { item: y },
        ) => string_lt(x, y),
        (
            CatalogBuilderError::ExclusionMissingFamily { item: x },
            CatalogBuilderError::ExclusionMissingFamily { item: y },
        ) => string_lt(x, y),
        (
            CatalogBuilderError::MultipleFamiliesRegistered { item: x, families: fx },
            CatalogBuilderError::MultipleFamiliesRegistered { item: y, families: fy },
        ) => {
            let eq = crate::forest::item_eq(x, y);
            if eq {
                proof {
                    lemma_chars_lt_asym(x@, y@);
                }
                tree_lt(fx, fy)
            } else {
                string_lt(x, y)
            }
        },
        (
            CatalogBuilderError::InclusionFamilyConflict { family: x, items: ix },
            CatalogBuilderError::InclusionFamilyConflict { family: y, items: iy },
        ) => {
            let eq = crate::forest::item_eq(x, y);
            if eq {
                proof {
                    lemma_chars_lt_asym(x@, y@);
                }
                tree_lt(ix, iy)
            } else {
                string_lt(x, y)
            }
        },
        (
            CatalogBuilderError::ExclusionFamilyConflict { family: x, items: ix },
            CatalogBuilderError::ExclusionFamilyConflict { family: y, items: iy },
        ) => {
            let eq = crate::forest::item_eq(x, y);
            if eq {
                proof {
                    lemma_chars_lt_asym(x@, y@);
                }
                tree_lt(ix, iy)
            } else {
                string_lt(x, y)
            }
        },
        _ => false,
    }
}

fn err_rank_exec(e: &CatalogBuilderError) -> (r: u8)
    ensures
        r as int == err_rank(e@),
{
    match e {
        CatalogBuilderError::EmptyCatalog => 0,
        CatalogBuilderError::InclusionMissingFamily { .. } => 1,
        CatalogBuilderError::ExclusionMissingFamily { .. } => 2,
        CatalogBuilderError::InclusionMissingCondition => 3,
        CatalogBuilderError::ExclusionMissingCondition => 4,
        CatalogBuilderError::MultipleFamiliesRegistered { .. } => 5,
        CatalogBuilderError::InclusionFamilyConflict { .. } => 6,
        CatalogBuilderError::ExclusionFamilyConflict { .. } => 7,
        CatalogBuilderError::CompoundError { .. } => 8,
    }
}

/// Position of the first recorded violation not below `e`.
fn err_position(v: &Vec<CatalogBuilderError>, e: &CatalogBuilderError) -> (i: usize)
    requires
        pairwise_sorted(err_lt_fn(), errors_view(v@)),
        all_simple(v@),
        !(*e is CompoundError),
    ensures
        i <= v@.len(),
        forall|k: int| 0 <= k < i ==> err_lt(#[trigger] errors_view(v@)[k], e@),
        i < v@.len() ==> !err_lt(errors_view(v@)[i as int], e@),
{
    let n = v.len();
    let mut i: usize = 0;
    while i < n
        invariant
            n == v@.len(),
            i <= n,
            pairwise_sorted(err_lt_fn(), errors_view(v@)),
            all_simple(v@),
            !(*e is CompoundError),
            forall|k: int| 0 <= k < i ==> err_lt(#[trigger] errors_view(v@)[k], e@),
        decreases n - i,
    {
        let below = err_lt_exec(&v[i], e);
        proof {
            assert(errors_view(v@)[i as int] == v@[i as int]@);
        }
        if !below {
            return i;
        }
        i = i + 1;
    }
    i
}

/// Record a violation, keeping the report sorted and free of duplicates.
pub fn insert_error(v: &mut Vec<CatalogBuilderError>, e: CatalogBuilderError)
    requires
        pairwise_sorted(err_lt_fn(), errors_view(old(v)@)),
        all_simple(old(v)@),
        !(e is CompoundError),
    ensures
        pairwise_sorted(err_lt_fn(), errors_view(final(v)@)),
        all_simple(final(v)@),
        errors_view(final(v)@).to_set() == errors_view(old(v)@).to_set().insert(e@),
{
    let ghost ov = errors_view(old(v)@);
    proof {
        lemma_err_order();
    }
    let n = v.len();
    let i = err_position(v, &e);
    if i < n {
        let above = err_lt_exec(&e, &v[i]);
        if !above {
            proof {
                assert(errors_view(v@)[i as int] == v@[i as int]@);
                let s = ov.to_set().insert(e@).insert(ov[i as int]);
                assert(s.contains(e@));
                assert(s.contains(ov[i as int]));
                assert(is_simple(e@));
                assert(is_simple(ov[i as int]));
                lemma_err_connex_on(s);
                assert(e@ == ov[i as int]);
                assert(ov.contains(e@));
                assert(ov.to_set().contains(e@));
                assert(ov.to_set() =~= ov.to_set().insert(e@));
            }
            return;
        }
    }
    v.insert(i, e);
    proof {
        let nv = errors_view(v@);
        crate::forest::lemma_map_values_insert(
            old(v)@,
            |x: CatalogBuilderError| x@,
            i as int,
            e,
        );
        assert(nv == ov.insert(i as int, e@));
        crate::forest::lemma_to_set_insert_mid(ov, i as int, e@);
        ov.insert_ensures(i as int, e@);
        assert forall|k: int| 0 <= k < v@.len() implies is_simple((#[trigger] v@[k])@) && !(v@[k]
            is CompoundError) by {
            if k < i {
                assert(v@[k] == old(v)@[k]);
            } else if k > i {
                assert(v@[k] == old(v)@[k - 1]);
            }
        }
        assert forall|p: int, q: int| 0 <= p < q < nv.len() implies #[trigger] err_lt_fn()(
            nv[p],
            nv[q],
        ) by {
            if q < i {
                assert(err_lt_fn()(ov[p], ov[q]));
            } else if p > i {
                assert(err_lt_fn()(ov[p - 1], ov[q - 1]));
            } else if p == i && q > i {
                assert(nv[q] == ov[q - 1]);
                assert(err_lt_fn()(e@, ov[i as int]));
                if q - 1 > i {
                    assert(err_lt_fn()(ov[i as int], ov[q - 1]));
                }
            } else if q == i {
                assert(nv[p] == ov[p]);
                assert(err_lt_fn()(ov[p], e@));
            } else {
                assert(nv[p] == ov[p]);
                assert(nv[q] == ov[q - 1]);
                if q - 1 == i {
                    assert(err_lt_fn()(ov[p], e@));
                    assert(err_lt_fn()(e@, ov[q - 1])) by {
                        assert(err_lt_fn()(e@, ov[i as int]));
                    }
                } else {
                    assert(err_lt_fn()(ov[p], ov[q - 1]));
                }
            }
        }
    }
}

/// The union of the contributions of each element of a sequence.
pub open spec fn union_of<A, B>(s: Seq<A>, f: spec_fn(A) -> Set<B>) -> Set<B> {
    Set::new(|b: B| exists|k: int| 0 <= k < s.len() && (#[trigger] f(s[k])).contains(b))
}

pub proof fn lemma_union_of_take_zero<A, B>(s: Seq<A>, f: spec_fn(A) -> Set<B>)
    ensures
        union_of(s.take(0), f) == Set::<B>::empty(),
{
    assert forall|b: B| union_of(s.take(0), f).contains(b) implies false by {
        let k = choose|k: int| 0 <= k < s.take(0).len() && (#[trigger] f(s.take(0)[k])).contains(
            b,
        );
    }
    assert(union_of(s.take(0), f) =~= Set::<B>::empty());
}

pub proof fn lemma_union_of_take_succ<A, B>(s: Seq<A>, f: spec_fn(A) -> Set<B>, i: int)
    requires
        0 <= i < s.len(),
    ensures
        union_of(s.take(i + 1), f) == union_of(s.take(i), f).union(f(s[i])),
{
    let lhs = union_of(s.take(i + 1), f);
    let rhs = union_of(s.take(i), f).union(f(s[i]));
    assert forall|b: B| lhs.contains(b) implies rhs.contains(b) by {
        let k = choose|k: int|
            0 <= k < s.take(i + 1).len() && (#[trigger] f(s.take(i + 1)[k])).contains(b);
        if k < i {
            assert(s.take(i)[k] == s.take(i + 1)[k]);
            assert(f(s.take(i)[k]).contains(b));
        } else {
            assert(s.take(i + 1)[k] == s[i]);
        }
    }
    assert forall|b: B| rhs.contains(b) implies lhs.contains(b) by {
        if union_of(s.take(i), f).contains(b) {
            let k = choose|k: int|
                0 <= k < s.take(i).len() && (#[trigger] f(s.take(i)[k])).contains(b);
            assert(s.take(i + 1)[k] == s.take(i)[k]);
            assert(f(s.take(i + 1)[k]).contains(b));
        } else {
            assert(s.take(i + 1)[i] == s[i]);
            assert(f(s.take(i + 1)[i]).contains(b));
        }
    }
    assert(lhs =~= rhs);
}

/// The union of contributions depends only on the set of elements.
pub proof fn lemma_union_of_members<A, B>(s1: Seq<A>, s2: Seq<A>, f: spec_fn(A) -> Set<B>)
    requires
        s1.to_set() == s2.to_set(),
    ensures
        union_of(s1, f) == union_of(s2, f),
{
    assert forall|b: B| union_of(s1, f).contains(b) implies union_of(s2, f).contains(b) by {
        let k = choose|k: int| 0 <= k < s1.len() && (#[trigger] f(s1[k])).contains(b);
        assert(s1.to_set().contains(s1[k]));
        assert(s2.contains(s1[k]));
        let j = choose|j: int| 0 <= j < s2.len() && s2[j] == s1[k];
        assert(f(s2[j]).contains(b));
    }
    assert forall|b: B| union_of(s2, f).contains(b) implies union_of(s1, f).contains(b) by {
        let k = choose|k: int| 0 <= k < s2.len() && (#[trigger] f(s2[k])).contains(b);
        assert(s2.to_set().contains(s2[k]));
        assert(s1.contains(s2[k]));
        let j = choose|j: int| 0 <= j < s1.len() && s1[j] == s2[k];
        assert(f(s1[j]).contains(b));
    }
    assert(union_of(s1, f) =~= union_of(s2, f));
}

/// A missing-family error of the right rule kind.
pub open spec fn mk_missing(excl: bool, item: Seq<char>) -> BuilderErrorView {
    if excl {
        BuilderErrorView::ExclusionMissingFamily { item }
    } else {
        BuilderErrorView::InclusionMissingFamily { item }
    }
}

/// A family-conflict error of the right rule kind.
pub open spec fn mk_conflict(excl: bool, family: Seq<char>, items: Seq<Seq<char>>) -> BuilderErrorView {
    if excl {
        BuilderErrorView::ExclusionFamilyConflict { family, items }
    } else {
        BuilderErrorView::InclusionFamilyConflict { family, items }
    }
}

pub open spec fn mk_missing_condition(excl: bool) -> BuilderErrorView {
    if excl {
        BuilderErrorView::ExclusionMissingCondition
    } else {
        BuilderErrorView::InclusionMissingCondition
    }
}

/// The two conflicting items, lower first.
pub open spec fn pair_sorted(c: Seq<char>, e: Seq<char>) -> Seq<Seq<char>> {
    if chars_lt(e, c) {
        seq![e, c]
    } else {
        seq![c, e]
    }
}

/// The violation one effect item of a rule causes, given a registered
/// condition item `c`: the effect is unregistered, or it shares a family
/// with the condition.
pub open spec fn effect_errs(
    excl: bool,
    index: Seq<(Item, Family)>,
    c: Seq<char>,
    e: Seq<char>,
) -> Set<BuilderErrorView> {
    if !registered(index, e) {
        Set::empty().insert(mk_missing(excl, e))
    } else if family_of(index, c) == family_of(index, e) {
        Set::empty().insert(mk_conflict(excl, family_of(index, c), pair_sorted(c, e)))
    } else {
        Set::empty()
    }
}

pub open spec fn effect_errs_fn(
    excl: bool,
    index: Seq<(Item, Family)>,
    c: Seq<char>,
) -> spec_fn(Seq<char>) -> Set<BuilderErrorView> {
    |e: Seq<char>| effect_errs(excl, index, c, e)
}

/// The violations one condition item of a rule causes: the condition is
/// unregistered, or one of the rule's effect items is at fault.
pub open spec fn condition_errs(
    excl: bool,
    index: Seq<(Item, Family)>,
    c: Seq<char>,
    effects: Seq<Seq<char>>,
) -> Set<BuilderErrorView> {
    if !registered(index, c) {
        Set::empty().insert(mk_missing(excl, c))
    } else {
        union_of(effects, effect_errs_fn(excl, index, c))
    }
}

pub open spec fn condition_errs_fn(
    excl: bool,
    index: Seq<(Item, Family)>,
    effects: Seq<Seq<char>>,
) -> spec_fn(Seq<char>) -> Set<BuilderErrorView> {
    |c: Seq<char>| condition_errs(excl, index, c, effects)
}

/// The violations one rule causes.
pub open spec fn rule_errs(
    excl: bool,
    index: Seq<(Item, Family)>,
    r: (Seq<Seq<char>>, Seq<Seq<char>>),
) -> Set<BuilderErrorView> {
    union_of(r.0, condition_errs_fn(excl, index, r.1))
}

pub open spec fn rule_errs_fn(excl: bool, index: Seq<(Item, Family)>) -> spec_fn(
    (Seq<Seq<char>>, Seq<Seq<char>>),
) -> Set<BuilderErrorView> {
    |r: (Seq<Seq<char>>, Seq<Seq<char>>)| rule_errs(excl, index, r)
}

/// The violations a rule list causes.
pub open spec fn rules_errs(
    excl: bool,
    index: Seq<(Item, Family)>,
    rs: Seq<(Seq<Seq<char>>, Seq<Seq<char>>)>,
) -> Set<BuilderErrorView> {
    union_of(rs, rule_errs_fn(excl, index))
}

/// Whether some rule conditions nothing.
pub open spec fn has_empty_conditions(rs: Seq<(Seq<Seq<char>>, Seq<Seq<char>>)>) -> bool {
    exists|k: int| 0 <= k < rs.len() && (#[trigger] rs[k]).0.len() == 0
}

pub open spec fn missing_condition_errs(excl: bool, rs: Seq<(Seq<Seq<char>>, Seq<Seq<char>>)>) -> Set<
    BuilderErrorView,
> {
    if has_empty_conditions(rs) {
        Set::empty().insert(mk_missing_condition(excl))
    } else {
        Set::empty()
    }
}

/// The violation one item of a family listing causes: the item is indexed
/// under another family.
pub open spec fn fam_item_errs(
    index: Seq<(Item, Family)>,
    fname: Seq<char>,
    it: Seq<char>,
) -> Set<BuilderErrorView> {
    if family_of(index, it) != fname {
        Set::empty().insert(
            BuilderErrorView::MultipleFamiliesRegistered {
                item: it,
                families: seq![family_of(index, it), fname],
            },
        )
    } else {
        Set::empty()
    }
}

pub open spec fn fam_item_errs_fn(index: Seq<(Item, Family)>, fname: Seq<char>) -> spec_fn(
    Seq<char>,
) -> Set<BuilderErrorView> {
    |it: Seq<char>| fam_item_errs(index, fname, it)
}

pub open spec fn fam_errs(
    index: Seq<(Item, Family)>,
    fam: (Seq<char>, Seq<Seq<char>>),
) -> Set<BuilderErrorView> {
    union_of(fam.1, fam_item_errs_fn(index, fam.0))
}

pub open spec fn fam_errs_fn(index: Seq<(Item, Family)>) -> spec_fn(
    (Seq<char>, Seq<Seq<char>>),
) -> Set<BuilderErrorView> {
    |fam: (Seq<char>, Seq<Seq<char>>)| fam_errs(index, fam)
}

/// The violations of items registered under several families.
pub open spec fn family_conflict_errs(
    fams: Seq<(Seq<char>, Seq<Seq<char>>)>,
    index: Seq<(Item, Family)>,
) -> Set<BuilderErrorView> {
    union_of(fams, fam_errs_fn(index))
}

/// The abstract shape of a family listing.
pub open spec fn families_view(f: Seq<(Family, Vec<Item>)>) -> Seq<(Seq<char>, Seq<Seq<char>>)> {
    f.map_values(|p: (Family, Vec<Item>)| (p.0@, tree_view(p.1)))
}

/// The abstract shape of a rule list, as (conditions, effects) pairs.
pub open spec fn pairs_view(s: Seq<(Vec<String>, Vec<String>)>) -> Seq<
    (Seq<Seq<char>>, Seq<Seq<char>>),
> {
    s.map_values(|p: (Vec<String>, Vec<String>)| (tree_view(p.0), tree_view(p.1)))
}

/// Every violation an assembly carries.
pub open spec fn violation_set(
    fams: Seq<(Seq<char>, Seq<Seq<char>>)>,
    index: Seq<(Item, Family)>,
    ex: Seq<(Seq<Seq<char>>, Seq<Seq<char>>)>,
    inc: Seq<(Seq<Seq<char>>, Seq<Seq<char>>)>,
) -> Set<BuilderErrorView> {
    family_conflict_errs(fams, index).union(missing_condition_errs(true, ex)).union(
        missing_condition_errs(false, inc),
    ).union(rules_errs(true, index, ex)).union(rules_errs(false, index, inc))
}

/// How a non-empty violation set is reported: the one violation bare, or
/// two and more as a compound whose list enumerates the set in the
/// canonical order.
pub open spec fn canonical_report(e: BuilderErrorView, v: Set<BuilderErrorView>) -> bool {
    match e {
        BuilderErrorView::Compound { errors } => {
            &&& errors.len() >= 2
            &&& pairwise_sorted(err_lt_fn(), errors)
            &&& (forall|k: int| 0 <= k < errors.len() ==> is_simple(#[trigger] errors[k]))
            &&& errors.to_set() == v
        },
        _ => v == Set::<BuilderErrorView>::empty().insert(e),
    }
}

/// A violation set has exactly one report: validation is deterministic.
pub proof fn lemma_report_unique(e1: BuilderErrorView, e2: BuilderErrorView, v: Set<BuilderErrorView>)
    requires
        canonical_report(e1, v),
        canonical_report(e2, v),
    ensures
        e1 == e2,
{
    lemma_err_order();
    match (e1, e2) {
        (BuilderErrorView::Compound { errors: x }, BuilderErrorView::Compound { errors: y }) => {
            assert forall|b: BuilderErrorView| x.to_set().union(y.to_set()).contains(
                b,
            ) implies is_simple(b) by {
                if x.to_set().contains(b) {
                    let k = choose|k: int| 0 <= k < x.len() && x[k] == b;
                } else {
                    let k = choose|k: int| 0 <= k < y.len() && y[k] == b;
                }
            }
            lemma_err_connex_on(x.to_set().union(y.to_set()));
            crate::order::lemma_sorted_unique(err_lt_fn(), x, y);
        },
        (BuilderErrorView::Compound { errors: x }, _) => {
            crate::order::lemma_sorted_no_duplicates(err_lt_fn(), x);
            assert(x.to_set().contains(x[0]));
            assert(x.to_set().contains(x[1]));
            assert(x[0] == e2 && x[1] == e2);
            assert(false);
        },
        (_, BuilderErrorView::Compound { errors: y }) => {
            crate::order::lemma_sorted_no_duplicates(err_lt_fn(), y);
            assert(y.to_set().contains(y[0]));
            assert(y.to_set().contains(y[1]));
            assert(y[0] == e1 && y[1] == e1);
            assert(false);
        },
        (_, _) => {
            assert(v.contains(e1));
            assert(v.contains(e2));
        },
    }
}

/// Validation sees rule lists only as sets: listing the rules of an
/// assembly in another order leaves every violation the same.
pub proof fn lemma_violations_order_insensitive(
    fams: Seq<(Seq<char>, Seq<Seq<char>>)>,
    index: Seq<(Item, Family)>,
    ex1: Seq<(Seq<Seq<char>>, Seq<Seq<char>>)>,
    ex2: Seq<(Seq<Seq<char>>, Seq<Seq<char>>)>,
    inc1: Seq<(Seq<Seq<char>>, Seq<Seq<char>>)>,
    inc2: Seq<(Seq<Seq<char>>, Seq<Seq<char>>)>,
)
    requires
        ex1.to_set() == ex2.to_set(),
        inc1.to_set() == inc2.to_set(),
    ensures
        violation_set(fams, index, ex1, inc1) == violation_set(fams, index, ex2, inc2),
{
    lemma_union_of_members(ex1, ex2, rule_errs_fn(true, index));
    lemma_union_of_members(inc1, inc2, rule_errs_fn(false, index));
    assert(has_empty_conditions(ex1) == has_empty_conditions(ex2)) by {
        if has_empty_conditions(ex1) {
            let k = choose|k: int| 0 <= k < ex1.len() && (#[trigger] ex1[k]).0.len() == 0;
            assert(ex1.to_set().contains(ex1[k]));
            assert(ex2.contains(ex1[k]));
            let j = choose|j: int| 0 <= j < ex2.len() && ex2[j] == ex1[k];
            assert((ex2[j]).0.len() == 0);
        }
        if has_empty_conditions(ex2) {
            let k = choose|k: int| 0 <= k < ex2.len() && (#[trigger] ex2[k]).0.len() == 0;
            assert(ex2.to_set().contains(ex2[k]));
            assert(ex1.contains(ex2[k]));
            let j = choose|j: int| 0 <= j < ex1.len() && ex1[j] == ex2[k];
            assert((ex1[j]).0.len() == 0);
        }
    }
    assert(has_empty_conditions(inc1) == has_empty_conditions(inc2)) by {
        if has_empty_conditions(inc1) {
            let k = choose|k: int| 0 <= k < inc1.len() && (#[trigger] inc1[k]).0.len() == 0;
            assert(inc1.to_set().contains(inc1[k]));
            assert(inc2.contains(inc1[k]));
            let j = choose|j: int| 0 <= j < inc2.len() && inc2[j] == inc1[k];
            assert((inc2[j]).0.len() == 0);
        }
        if has_empty_conditions(inc2) {
            let k = choose|k: int| 0 <= k < inc2.len() && (#[trigger] inc2[k]).0.len() == 0;
            assert(inc2.to_set().contains(inc2[k]));
            assert(inc1.contains(inc2[k]));
            let j = choose|j: int| 0 <= j < inc1.len() && inc1[j] == inc2[k];
            assert((inc1[j]).0.len() == 0);
        }
    }
}

/// Whether the index knows every item of the listing.
pub open spec fn all_registered(index: Seq<(Item, Family)>, items: Seq<Seq<char>>) -> bool {
    forall|j: int| 0 <= j < items.len() ==> registered(index, #[trigger] items[j])
}

fn make_missing(excl: bool, item: Item) -> (e: CatalogBuilderError)
    ensures
        e@ == mk_missing(excl, item@),
        !(e is CompoundError),
{
    if excl {
        CatalogBuilderError::ExclusionMissingFamily { item }
    } else {
        CatalogBuilderError::InclusionMissingFamily { item }
    }
}

fn make_missing_condition(excl: bool) -> (e: CatalogBuilderError)
    ensures
        e@ == mk_missing_condition(excl),
        !(e is CompoundError),
{
    if excl {
        CatalogBuilderError::ExclusionMissingCondition
    } else {
        CatalogBuilderError::InclusionMissingCondition
    }
}

fn make_conflict(excl: bool, family: Family, items: Vec<Item>) -> (e: CatalogBuilderError)
    ensures
        e@ == mk_conflict(excl, family@, tree_view(items)),
        !(e is CompoundError),
{
    if excl {
        CatalogBuilderError::ExclusionFamilyConflict { family, items }
    } else {
        CatalogBuilderError::InclusionFamilyConflict { family, items }
    }
}

/// The two conflicting items of a rule, lower first.
fn pair_sorted_exec(c: &Item, e: &Item) -> (r: Vec<Item>)
    ensures
        tree_view(r) == pair_sorted(c@, e@),
{
    let swap = string_lt(e, c);
    let mut r: Vec<Item> = Vec::new();
    if swap {
        r.push(crate::forest::clone_string(e));
        r.push(crate::forest::clone_string(c));
        proof {
            assert(tree_view(r) =~= seq![e@, c@]);
        }
    } else {
        r.push(crate::forest::clone_string(c));
        r.push(crate::forest::clone_string(e));
        proof {
            assert(tree_view(r) =~= seq![c@, e@]);
        }
    }
    r
}

/// Registering an item under several families, detected over every family
/// listing.
fn scan_families(
    families: &Vec<(Family, Vec<Item>)>,
    index: &Vec<(Item, Family)>,
    errs: &mut Vec<CatalogBuilderError>,
)
    requires
        pairwise_sorted(err_lt_fn(), errors_view(old(errs)@)),
        all_simple(old(errs)@),
        forall|k: int|
            0 <= k < families_view(families@).len() ==> all_registered(
                index@,
                (#[trigger] families_view(families@)[k]).1,
            ),
    ensures
        pairwise_sorted(err_lt_fn(), errors_view(final(errs)@)),
        all_simple(final(errs)@),
        errors_view(final(errs)@).to_set() == errors_view(old(errs)@).to_set().union(
            family_conflict_errs(families_view(families@), index@),
        ),
{
    let ghost fams = families_view(families@);
    let ghost base = errors_view(old(errs)@).to_set();
    let n = families.len();
    let mut k: usize = 0;
    proof {
        lemma_union_of_take_zero(fams, fam_errs_fn(index@));
        assert(errors_view(errs@).to_set() =~= base.union(
            union_of(fams.take(0), fam_errs_fn(index@)),
        ));
    }
    while k < n
        invariant
            n == families@.len(),
            n == fams.len(),
            k <= n,
            fams == families_view(families@),
            pairwise_sorted(err_lt_fn(), errors_view(errs@)),
            all_simple(errs@),
            forall|p: int|
                0 <= p < fams.len() ==> all_registered(index@, (#[trigger] fams[p]).1),
            errors_view(errs@).to_set() == base.union(
                union_of(fams.take(k as int), fam_errs_fn(index@)),
            ),
        decreases n - k,
    {
        let m = families[k].1.len();
        let mut j: usize = 0;
        proof {
            assert(fams[k as int] == (families@[k as int].0@, tree_view(families@[k as int].1)));
            lemma_union_of_take_zero(fams[k as int].1, fam_item_errs_fn(index@, fams[k as int].0));
            assert(errors_view(errs@).to_set() =~= base.union(
                union_of(fams.take(k as int), fam_errs_fn(index@)),
            ).union(
                union_of(
                    fams[k as int].1.take(0),
                    fam_item_errs_fn(index@, fams[k as int].0),
                ),
            ));
        }
        while j < m
            invariant
                n == families@.len(),
                n == fams.len(),
                0 <= k < n,
                m == families@[k as int].1@.len(),
                j <= m,
                fams == families_view(families@),
                fams[k as int] == (families@[k as int].0@, tree_view(families@[k as int].1)),
                pairwise_sorted(err_lt_fn(), errors_view(errs@)),
                all_simple(errs@),
                forall|p: int|
                    0 <= p < fams.len() ==> all_registered(index@, (#[trigger] fams[p]).1),
                errors_view(errs@).to_set() == base.union(
                    union_of(fams.take(k as int), fam_errs_fn(index@)),
                ).union(
                    union_of(
                        fams[k as int].1.take(j as int),
                        fam_item_errs_fn(index@, fams[k as int].0),
                    ),
                ),
            decreases m - j,
        {
            let ghost fname = fams[k as int].0;
            let ghost itv = fams[k as int].1[j as int];
            proof {
                assert(itv == families@[k as int].1@[j as int]@);
                assert(registered(index@, itv));
            }
            let found = index_lookup(index, &families[k].1[j]);
            match found {
                Some(f) => {
                    let same = crate::forest::item_eq(&f, &families[k].0);
                    if !same {
                        let mut fv: Vec<Family> = Vec::new();
                        let ghost fview = f@;
                        fv.push(f);
                        fv.push(crate::forest::clone_string(&families[k].0));
                        proof {
                            assert(tree_view(fv) =~= seq![family_of(index@, itv), fname]);
                        }
                        let it = crate::forest::clone_string(&families[k].1[j]);
                        let e = CatalogBuilderError::MultipleFamiliesRegistered {
                            item: it,
                            families: fv,
                        };
                        proof {
                            assert(e@ == BuilderErrorView::MultipleFamiliesRegistered {
                                item: itv,
                                families: seq![family_of(index@, itv), fname],
                            });
                        }
                        insert_error(errs, e);
                        proof {
                            lemma_union_of_take_succ(
                                fams[k as int].1,
                                fam_item_errs_fn(index@, fname),
                                j as int,
                            );
                            assert(fam_item_errs_fn(index@, fname)(itv) == fam_item_errs(
                                index@,
                                fname,
                                itv,
                            ));
                            assert(errors_view(errs@).to_set() =~= base.union(
                                union_of(fams.take(k as int), fam_errs_fn(index@)),
                            ).union(
                                union_of(
                                    fams[k as int].1.take(j + 1),
                                    fam_item_errs_fn(index@, fname),
                                ),
                            ));
                        }
                    } else {
                        proof {
                            lemma_union_of_take_succ(
                                fams[k as int].1,
                                fam_item_errs_fn(index@, fname),
                                j as int,
                            );
                            assert(fam_item_errs(index@, fname, itv) =~= Set::<
                                BuilderErrorView,
                            >::empty());
                            assert(errors_view(errs@).to_set() =~= base.union(
                                union_of(fams.take(k as int), fam_errs_fn(index@)),
                            ).union(
                                union_of(
                                    fams[k as int].1.take(j + 1),
                                    fam_item_errs_fn(index@, fname),
                                ),
                            ));
                        }
                    }
                },
                None => {
                    proof {
                        assert(false);
                    }
                },
            }
            j = j + 1;
        }
        proof {
            assert(fams[k as int].1.take(m as int) =~= fams[k as int].1);
            assert(fam_errs(index@, fams[k as int]) == union_of(
                fams[k as int].1,
                fam_item_errs_fn(index@, fams[k as int].0),
            ));
            lemma_union_of_take_succ(fams, fam_errs_fn(index@), k as int);
            assert(errors_view(errs@).to_set() =~= base.union(
                union_of(fams.take(k + 1), fam_errs_fn(index@)),
            ));
        }
        k = k + 1;
    }
    proof {
        assert(fams.take(n as int) =~= fams);
    }
}

/// The violations of one rule list, over (conditions, effects) pairs.
fn scan_rules(
    excl: bool,
    pairs: &Vec<(Vec<Item>, Vec<Item>)>,
    index: &Vec<(Item, Family)>,
    errs: &mut Vec<CatalogBuilderError>,
)
    requires
        pairwise_sorted(err_lt_fn(), errors_view(old(errs)@)),
        all_simple(old(errs)@),
    ensures
        pairwise_sorted(err_lt_fn(), errors_view(final(errs)@)),
        all_simple(final(errs)@),
        errors_view(final(errs)@).to_set() == errors_view(old(errs)@).to_set().union(
            missing_condition_errs(excl, pairs_view(pairs@)),
        ).union(rules_errs(excl, index@, pairs_view(pairs@))),
{
    let ghost rsv = pairs_view(pairs@);
    let ghost base0 = errors_view(old(errs)@).to_set();
    let n = pairs.len();

    let mut has_empty = false;
    let mut k: usize = 0;
    while k < n
        invariant
            n == pairs@.len(),
            n == rsv.len(),
            k <= n,
            rsv == pairs_view(pairs@),
            has_empty == exists|p: int| 0 <= p < k && (#[trigger] rsv[p]).0.len() == 0,
        decreases n - k,
    {
        let empty_here = pairs[k].0.is_empty();
        proof {
            assert(rsv[k as int] == (tree_view(pairs@[k as int].0), tree_view(pairs@[k as int].1)));
        }
        if empty_here {
            has_empty = true;
        }
        k = k + 1;
    }
    if has_empty {
        insert_error(errs, make_missing_condition(excl));
    }
    proof {
        if has_empty {
            assert(missing_condition_errs(excl, rsv) =~= Set::<BuilderErrorView>::empty().insert(
                mk_missing_condition(excl),
            ));
        } else {
            if has_empty_conditions(rsv) {
                let p = choose|p: int| 0 <= p < rsv.len() && (#[trigger] rsv[p]).0.len() == 0;
                assert(false);
            }
            assert(missing_condition_errs(excl, rsv) =~= Set::<BuilderErrorView>::empty());
        }
        lemma_union_of_take_zero(rsv, rule_errs_fn(excl, index@));
        assert(errors_view(errs@).to_set() =~= base0.union(
            missing_condition_errs(excl, rsv),
        ).union(union_of(rsv.take(0), rule_errs_fn(excl, index@))));
    }
    let ghost base = base0.union(missing_condition_errs(excl, rsv));

    let mut k: usize = 0;
    while k < n
        invariant
            n == pairs@.len(),
            n == rsv.len(),
            k <= n,
            rsv == pairs_view(pairs@),
            pairwise_sorted(err_lt_fn(), errors_view(errs@)),
            all_simple(errs@),
            errors_view(errs@).to_set() == base.union(
                union_of(rsv.take(k as int), rule_errs_fn(excl, index@)),
            ),
        decreases n - k,
    {
        let cn = pairs[k].0.len();
        let mut j: usize = 0;
        proof {
            assert(rsv[k as int] == (tree_view(pairs@[k as int].0), tree_view(pairs@[k as int].1)));
            lemma_union_of_take_zero(
                rsv[k as int].0,
                condition_errs_fn(excl, index@, rsv[k as int].1),
            );
            assert(errors_view(errs@).to_set() =~= base.union(
                union_of(rsv.take(k as int), rule_errs_fn(excl, index@)),
            ).union(
                union_of(
                    rsv[k as int].0.take(0),
                    condition_errs_fn(excl, index@, rsv[k as int].1),
                ),
            ));
        }
        while j < cn
            invariant
                n == pairs@.len(),
                n == rsv.len(),
                0 <= k < n,
                cn == pairs@[k as int].0@.len(),
                j <= cn,
                rsv == pairs_view(pairs@),
                rsv[k as int] == (
                    tree_view(pairs@[k as int].0),
                    tree_view(pairs@[k as int].1),
                ),
                pairwise_sorted(err_lt_fn(), errors_view(errs@)),
                all_simple(errs@),
                errors_view(errs@).to_set() == base.union(
                    union_of(rsv.take(k as int), rule_errs_fn(excl, index@)),
                ).union(
                    union_of(
                        rsv[k as int].0.take(j as int),
                        condition_errs_fn(excl, index@, rsv[k as int].1),
                    ),
                ),
            decreases cn - j,
        {
            let ghost cv = rsv[k as int].0[j as int];
            let ghost effv = rsv[k as int].1;
            proof {
                assert(cv == pairs@[k as int].0@[j as int]@);
            }
            let found = index_lookup(index, &pairs[k].0[j]);
            match found {
                Some(cf) => {
                    let en = pairs[k].1.len();
                    let mut l: usize = 0;
                    proof {
                        lemma_union_of_take_zero(effv, effect_errs_fn(excl, index@, cv));
                        assert(errors_view(errs@).to_set() =~= base.union(
                            union_of(rsv.take(k as int), rule_errs_fn(excl, index@)),
                        ).union(
                            union_of(
                                rsv[k as int].0.take(j as int),
                                condition_errs_fn(excl, index@, rsv[k as int].1),
                            ),
                        ).union(union_of(effv.take(0), effect_errs_fn(excl, index@, cv))));
                    }
                    while l < en
                        invariant
                            n == pairs@.len(),
                            n == rsv.len(),
                            0 <= k < n,
                            cn == pairs@[k as int].0@.len(),
                            0 <= j < cn,
                            en == pairs@[k as int].1@.len(),
                            l <= en,
                            rsv == pairs_view(pairs@),
                            rsv[k as int] == (
                                tree_view(pairs@[k as int].0),
                                tree_view(pairs@[k as int].1),
                            ),
                            cv == rsv[k as int].0[j as int],
                            effv == rsv[k as int].1,
                            registered(index@, cv),
                            cf@ == family_of(index@, cv),
                            pairwise_sorted(err_lt_fn(), errors_view(errs@)),
                            all_simple(errs@),
                            errors_view(errs@).to_set() == base.union(
                                union_of(rsv.take(k as int), rule_errs_fn(excl, index@)),
                            ).union(
                                union_of(
                                    rsv[k as int].0.take(j as int),
                                    condition_errs_fn(excl, index@, rsv[k as int].1),
                                ),
                            ).union(
                                union_of(
                                    effv.take(l as int),
                                    effect_errs_fn(excl, index@, cv),
                                ),
                            ),
                        decreases en - l,
                    {
                        let ghost ev = effv[l as int];
                        proof {
                            assert(ev == pairs@[k as int].1@[l as int]@);
                        }
                        let efound = index_lookup(index, &pairs[k].1[l]);
                        match efound {
                            Some(ef) => {
                                let same = crate::forest::item_eq(&cf, &ef);
                                if same {
                                    let items = pair_sorted_exec(&pairs[k].0[j], &pairs[k].1[l]);
                                    let e = make_conflict(
                                        excl,
                                        crate::forest::clone_string(&cf),
                                        items,
                                    );
                                    proof {
                                        assert(e@ == mk_conflict(
                                            excl,
                                            family_of(index@, cv),
                                            pair_sorted(cv, ev),
                                        ));
                                    }
                                    insert_error(errs, e);
                                } else {
                                }
                            },
                            None => {
                                let e = make_missing(
                                    excl,
                                    crate::forest::clone_string(&pairs[k].1[l]),
                                );
                                insert_error(errs, e);
                            },
                        }
                        proof {
                            lemma_union_of_take_succ(
                                effv,
                                effect_errs_fn(excl, index@, cv),
                                l as int,
                            );
                            assert(effect_errs_fn(excl, index@, cv)(ev) == effect_errs(
                                excl,
                                index@,
                                cv,
                                ev,
                            ));
                            assert(errors_view(errs@).to_set() =~= base.union(
                                union_of(rsv.take(k as int), rule_errs_fn(excl, index@)),
                            ).union(
                                union_of(
                                    rsv[k as int].0.take(j as int),
                                    condition_errs_fn(excl, index@, rsv[k as int].1),
                                ),
                            ).union(
                                union_of(
                                    effv.take(l + 1),
                                    effect_errs_fn(excl, index@, cv),
                                ),
                            ));
                        }
                        l = l + 1;
                    }
                    proof {
                        assert(effv.take(en as int) =~= effv);
                        assert(condition_errs(excl, index@, cv, effv) == union_of(
                            effv,
                            effect_errs_fn(excl, index@, cv),
                        ));
                        lemma_union_of_take_succ(
                            rsv[k as int].0,
                            condition_errs_fn(excl, index@, rsv[k as int].1),
                            j as int,
                        );
                        assert(condition_errs_fn(excl, index@, rsv[k as int].1)(cv)
                            == condition_errs(excl, index@, cv, effv));
                        assert(errors_view(errs@).to_set() =~= base.union(
                            union_of(rsv.take(k as int), rule_errs_fn(excl, index@)),
                        ).union(
                            union_of(
                                rsv[k as int].0.take(j + 1),
                                condition_errs_fn(excl, index@, rsv[k as int].1),
                            ),
                        ));
                    }
                },
                None => {
                    let e = make_missing(excl, crate::forest::clone_string(&pairs[k].0[j]));
                    insert_error(errs, e);
                    proof {
                        lemma_union_of_take_succ(
                            rsv[k as int].0,
                            condition_errs_fn(excl, index@, rsv[k as int].1),
                            j as int,
                        );
                        assert(condition_errs_fn(excl, index@, rsv[k as int].1)(cv)
                            == condition_errs(excl, index@, cv, effv));
                        assert(condition_errs(excl, index@, cv, effv) == Set::<
                            BuilderErrorView,
                        >::empty().insert(mk_missing(excl, cv)));
                        assert(errors_view(errs@).to_set() =~= base.union(
                            union_of(rsv.take(k as int), rule_errs_fn(excl, index@)),
                        ).union(
                            union_of(
                                rsv[k as int].0.take(j + 1),
                                condition_errs_fn(excl, index@, rsv[k as int].1),
                            ),
                        ));
                    }
                },
            }
            j = j + 1;
        }
        proof {
            assert(rsv[k as int].0.take(cn as int) =~= rsv[k as int].0);
            assert(rule_errs(excl, index@, rsv[k as int]) == union_of(
                rsv[k as int].0,
                condition_errs_fn(excl, index@, rsv[k as int].1),
            ));
            lemma_union_of_take_succ(rsv, rule_errs_fn(excl, index@), k as int);
            assert(rule_errs_fn(excl, index@)(rsv[k as int]) == rule_errs(
                excl,
                index@,
                rsv[k as int],
            ));
            assert(errors_view(errs@).to_set() =~= base.union(
                union_of(rsv.take(k + 1), rule_errs_fn(excl, index@)),
            ));
        }
        k = k + 1;
    }
    proof {
        assert(rsv.take(n as int) =~= rsv);
    }
}

/// The abstract shapes of the exclusion rules.
pub open spec fn exclusion_rules_view(rs: Seq<CatalogExclusionRule>) -> Seq<
    (Seq<Seq<char>>, Seq<Seq<char>>),
> {
    rs.map_values(|r: CatalogExclusionRule| r@)
}

/// The abstract shapes of the inclusion rules.
pub open spec fn inclusion_rules_view(rs: Seq<CatalogInclusionRule>) -> Seq<
    (Seq<Seq<char>>, Seq<Seq<char>>),
> {
    rs.map_values(|r: CatalogInclusionRule| r@)
}

fn exclusion_pairs(rs: &Vec<CatalogExclusionRule>) -> (r: Vec<(Vec<Item>, Vec<Item>)>)
    ensures
        pairs_view(r@) == exclusion_rules_view(rs@),
{
    let n = rs.len();
    let mut r: Vec<(Vec<Item>, Vec<Item>)> = Vec::new();
    let mut i: usize = 0;
    proof {
        assert(pairs_view(r@) =~= exclusion_rules_view(rs@).take(0));
    }
    while i < n
        invariant
            n == rs@.len(),
            i <= n,
            pairs_view(r@) == exclusion_rules_view(rs@).take(i as int),
        decreases n - i,
    {
        let c = crate::forest::clone_tree(&rs[i].conditions);
        let e = crate::forest::clone_tree(&rs[i].exclusions);
        let ghost pre = r@;
        let ghost prev = pairs_view(r@);
        proof {
            assert(prev == pre.map_values(
                |p: (Vec<Item>, Vec<Item>)| (tree_view(p.0), tree_view(p.1)),
            ));
            assert(prev.len() == pre.len());
            assert(prev.len() == i as int);
        }
        r.push((c, e));
        proof {
            assert(r@ == pre.push((c, e)));
            assert forall|p: int| 0 <= p < i + 1 implies pairs_view(r@)[p] == exclusion_rules_view(
                rs@,
            ).take(i + 1)[p] by {
                assert(pairs_view(r@)[p] == (tree_view(r@[p].0), tree_view(r@[p].1)));
                if p < i {
                    assert(r@[p] == pre[p]);
                    assert(prev[p] == (tree_view(pre[p].0), tree_view(pre[p].1)));
                    assert(prev[p] == exclusion_rules_view(rs@).take(i as int)[p]);
                } else {
                    assert(r@[p] == (c, e));
                    assert(c@ == rs@[p].conditions@);
                    assert(e@ == rs@[p].exclusions@);
                    assert(exclusion_rules_view(rs@)[p] == rs@[p]@);
                }
            }
            assert(pairs_view(r@) =~= exclusion_rules_view(rs@).take(i + 1));
        }
        i = i + 1;
    }
    proof {
        assert(exclusion_rules_view(rs@).take(n as int) =~= exclusion_rules_view(rs@));
    }
    r
}

fn inclusion_pairs(rs: &Vec<CatalogInclusionRule>) -> (r: Vec<(Vec<Item>, Vec<Item>)>)
    ensures
        pairs_view(r@) == inclusion_rules_view(rs@),
{
    let n = rs.len();
    let mut r: Vec<(Vec<Item>, Vec<Item>)> = Vec::new();
    let mut i: usize = 0;
    proof {
        assert(pairs_view(r@) =~= inclusion_rules_view(rs@).take(0));
    }
    while i < n
        invariant
            n == rs@.len(),
            i <= n,
            pairs_view(r@) == inclusion_rules_view(rs@).take(i as int),
        decreases n - i,
    {
        let c = crate::forest::clone_tree(&rs[i].conditions);
        let e = crate::forest::clone_tree(&rs[i].inclusions);
        let ghost pre = r@;
        let ghost prev = pairs_view(r@);
        proof {
            assert(prev == pre.map_values(
                |p: (Vec<Item>, Vec<Item>)| (tree_view(p.0), tree_view(p.1)),
            ));
            assert(prev.len() == pre.len());
            assert(prev.len() == i as int);
        }
        r.push((c, e));
        proof {
            assert(r@ == pre.push((c, e)));
            assert forall|p: int| 0 <= p < i + 1 implies pairs_view(r@)[p] == inclusion_rules_view(
                rs@,
            ).take(i + 1)[p] by {
                assert(pairs_view(r@)[p] == (tree_view(r@[p].0), tree_view(r@[p].1)));
                if p < i {
                    assert(r@[p] == pre[p]);
                    assert(prev[p] == (tree_view(pre[p].0), tree_view(pre[p].1)));
                    assert(prev[p] == inclusion_rules_view(rs@).take(i as int)[p]);
                } else {
                    assert(r@[p] == (c, e));
                    assert(c@ == rs@[p].conditions@);
                    assert(e@ == rs@[p].inclusions@);
                    assert(inclusion_rules_view(rs@)[p] == rs@[p]@);
                }
            }
            assert(pairs_view(r@) =~= inclusion_rules_view(rs@).take(i + 1));
        }
        i = i + 1;
    }
    proof {
        assert(inclusion_rules_view(rs@).take(n as int) =~= inclusion_rules_view(rs@));
    }
    r
}

/// Check an assembly against every rule of the specification. All distinct
/// violations are gathered; exactly one is returned bare, two or more as a
/// compound, in one canonical order, so that the report is a function of
/// the violation set alone. The index must cover every listed item, as the
/// builder guarantees of the index it derives.
pub fn validate_catalog(
    families: &Vec<(Family, Vec<Item>)>,
    item_index: &Vec<(Item, Family)>,
    exclusions: &Vec<CatalogExclusionRule>,
    inclusions: &Vec<CatalogInclusionRule>,
) -> (r: Result<(), CatalogBuilderError>)
    requires
        forall|k: int|
            0 <= k < families_view(families@).len() ==> all_registered(
                item_index@,
                (#[trigger] families_view(families@)[k]).1,
            ),
    ensures
        ({
            let v = violation_set(
                families_view(families@),
                item_index@,
                exclusion_rules_view(exclusions@),
                inclusion_rules_view(inclusions@),
            );
            match r {
                Ok(()) => v == Set::<BuilderErrorView>::empty(),
                Err(e) => !(v == Set::<BuilderErrorView>::empty()) && canonical_report(e@, v),
            }
        }),
{
    let ghost fams = families_view(families@);
    let ghost exv = exclusion_rules_view(exclusions@);
    let ghost incv = inclusion_rules_view(inclusions@);
    let ghost v = violation_set(fams, item_index@, exv, incv);

    let mut errs: Vec<CatalogBuilderError> = Vec::new();
    proof {
        assert(errors_view(errs@) =~= Seq::<BuilderErrorView>::empty());
    }
    scan_families(families, item_index, &mut errs);
    let ex_pairs = exclusion_pairs(exclusions);
    scan_rules(true, &ex_pairs, item_index, &mut errs);
    let inc_pairs = inclusion_pairs(inclusions);
    scan_rules(false, &inc_pairs, item_index, &mut errs);
    proof {
        assert(Seq::<BuilderErrorView>::empty().to_set() =~= Set::<BuilderErrorView>::empty());
        assert(errors_view(errs@).to_set() =~= v);
    }

    let count = errs.len();
    if count == 0 {
        proof {
            assert(errors_view(errs@) =~= Seq::<BuilderErrorView>::empty());
            assert(v =~= Set::<BuilderErrorView>::empty());
        }
        Ok(())
    } else if count == 1 {
        let ghost evec = errs@;
        let ghost full = errors_view(errs@);
        let e = match errs.pop() {
            Some(e) => e,
            None => {
                proof {
                    assert(false);
                }
                CatalogBuilderError::EmptyCatalog
            },
        };
        proof {
            assert(e == evec[0]);
            assert(full[0] == e@);
            assert forall|b: BuilderErrorView| full.to_set().contains(b) implies b == e@ by {
                let k = choose|k: int| 0 <= k < full.len() && full[k] == b;
            }
            assert(full.to_set().contains(full[0]));
            assert(v =~= Set::<BuilderErrorView>::empty().insert(e@));
            assert(v.contains(e@));
            assert(!(v =~= Set::<BuilderErrorView>::empty()));
            assert(!(e is CompoundError));
            assert(is_simple(e@));
        }
        Err(e)
    } else {
        let ghost evec = errs@;
        let ghost full = errors_view(errs@);
        proof {
            assert(full.to_set().contains(full[0]));
            assert(v.contains(full[0]));
            assert(!(v =~= Set::<BuilderErrorView>::empty()));
        }
        let e = CatalogBuilderError::CompoundError { errors: errs };
        proof {
            let inner = evec.map_values(|x: CatalogBuilderError| simple_error_view(x));
            assert(e@ == BuilderErrorView::Compound { errors: inner });
            assert forall|k: int| 0 <= k < full.len() implies inner[k] == full[k] by {
                assert(!(evec[k] is CompoundError));
                assert(full[k] == evec[k]@);
                assert(inner[k] == simple_error_view(evec[k]));
            }
            assert(inner =~= full);
            assert(canonical_report(e@, v));
        }
        Err(e)
    }
}

/// An unregistered item has no family: the lookup runs off the end.
pub proof fn lemma_family_of_unregistered(index: Seq<(Item, Family)>, x: Seq<char>)
    requires
        !registered(index, x),
    ensures
        family_of(index, x) == Seq::<char>::empty(),
    decreases index.len(),
{
    if index.len() > 0 {
        assert(index[0].0@ != x);
        let t = index.drop_first();
        if registered(t, x) {
            let k = choose|k: int| 0 <= k < t.len() && (#[trigger] t[k]).0@ == x;
            assert(index[k + 1].0@ == x);
            assert(false);
        }
        lemma_family_of_unregistered(t, x);
    }
}

/// Contributions that agree on the elements of `s` have the same union.
pub proof fn lemma_union_of_congruence<A, B>(
    s: Seq<A>,
    f: spec_fn(A) -> Set<B>,
    g: spec_fn(A) -> Set<B>,
)
    requires
        forall|k: int| 0 <= k < s.len() ==> #[trigger] f(s[k]) == g(s[k]),
    ensures
        union_of(s, f) == union_of(s, g),
{
    assert forall|b: B| union_of(s, f).contains(b) implies union_of(s, g).contains(b) by {
        let k = choose|k: int| 0 <= k < s.len() && (#[trigger] f(s[k])).contains(b);
        assert(g(s[k]).contains(b));
    }
    assert forall|b: B| union_of(s, g).contains(b) implies union_of(s, f).contains(b) by {
        let k = choose|k: int| 0 <= k < s.len() && (#[trigger] g(s[k])).contains(b);
        assert(f(s[k]).contains(b));
    }
    assert(union_of(s, f) =~= union_of(s, g));
}

/// Validation sees the index only through registration and family lookup:
/// two indices that register the same items under the same families yield
/// the same violations. Together with `lemma_violations_order_insensitive`
/// and `lemma_report_unique`, an invalid assembly is reported by one error
/// value, however its rules were listed and however its index was laid
/// out.
pub proof fn lemma_violations_index_independent(
    fams: Seq<(Seq<char>, Seq<Seq<char>>)>,
    idx1: Seq<(Item, Family)>,
    idx2: Seq<(Item, Family)>,
    ex: Seq<(Seq<Seq<char>>, Seq<Seq<char>>)>,
    inc: Seq<(Seq<Seq<char>>, Seq<Seq<char>>)>,
)
    requires
        forall|x: Seq<char>| #[trigger] registered(idx1, x) == registered(idx2, x),
        forall|x: Seq<char>|
            #[trigger] registered(idx1, x) ==> family_of(idx1, x) == family_of(idx2, x),
    ensures
        violation_set(fams, idx1, ex, inc) == violation_set(fams, idx2, ex, inc),
{
    assert forall|x: Seq<char>| #[trigger] family_of(idx1, x) == family_of(idx2, x) by {
        if !registered(idx1, x) {
            lemma_family_of_unregistered(idx1, x);
            lemma_family_of_unregistered(idx2, x);
        }
    }
    assert forall|excl: bool, c: Seq<char>, e: Seq<char>| #[trigger] effect_errs(excl, idx1, c, e)
        == effect_errs(excl, idx2, c, e) by {}
    assert forall|excl: bool, c: Seq<char>, effects: Seq<Seq<char>>|
        #[trigger] condition_errs(excl, idx1, c, effects) == condition_errs(
        excl,
        idx2,
        c,
        effects,
    ) by {
        if registered(idx1, c) {
            assert forall|l: int| 0 <= l < effects.len() implies #[trigger] effect_errs_fn(
                excl,
                idx1,
                c,
            )(effects[l]) == effect_errs_fn(excl, idx2, c)(effects[l]) by {}
            lemma_union_of_congruence(
                effects,
                effect_errs_fn(excl, idx1, c),
                effect_errs_fn(excl, idx2, c),
            );
        }
    }
    assert forall|excl: bool, r: (Seq<Seq<char>>, Seq<Seq<char>>)| #[trigger] rule_errs(
        excl,
        idx1,
        r,
    ) == rule_errs(excl, idx2, r) by {
        assert forall|j: int| 0 <= j < r.0.len() implies #[trigger] condition_errs_fn(
            excl,
            idx1,
            r.1,
        )(r.0[j]) == condition_errs_fn(excl, idx2, r.1)(r.0[j]) by {}
        lemma_union_of_congruence(
            r.0,
            condition_errs_fn(excl, idx1, r.1),
            condition_errs_fn(excl, idx2, r.1),
        );
    }
    assert(rules_errs(true, idx1, ex) == rules_errs(true, idx2, ex)) by {
        assert forall|k: int| 0 <= k < ex.len() implies #[trigger] rule_errs_fn(true, idx1)(
            ex[k],
        ) == rule_errs_fn(true, idx2)(ex[k]) by {}
        lemma_union_of_congruence(ex, rule_errs_fn(true, idx1), rule_errs_fn(true, idx2));
    }
    assert(rules_errs(false, idx1, inc) == rules_errs(false, idx2, inc)) by {
        assert forall|k: int| 0 <= k < inc.len() implies #[trigger] rule_errs_fn(false, idx1)(
            inc[k],
        ) == rule_errs_fn(false, idx2)(inc[k]) by {}
        lemma_union_of_congruence(inc, rule_errs_fn(false, idx1), rule_errs_fn(false, idx2));
    }
    assert(family_conflict_errs(fams, idx1) == family_conflict_errs(fams, idx2)) by {
        assert forall|k: int| 0 <= k < fams.len() implies #[trigger] fam_errs_fn(idx1)(fams[k])
            == fam_errs_fn(idx2)(fams[k]) by {
            let fam = fams[k];
            assert forall|j: int| 0 <= j < fam.1.len() implies #[trigger] fam_item_errs_fn(
                idx1,
                fam.0,
            )(fam.1[j]) == fam_item_errs_fn(idx2, fam.0)(fam.1[j]) by {}
            lemma_union_of_congruence(
                fam.1,
                fam_item_errs_fn(idx1, fam.0),
                fam_item_errs_fn(idx2, fam.0),
            );
        }
        lemma_union_of_congruence(fams, fam_errs_fn(idx1), fam_errs_fn(idx2));
    }
}

} // verus!
