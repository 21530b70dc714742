//! The forest kernel: a canonical, value-typed representation of a family of
//! finite item sets over a totally ordered universe of item identifiers.
//!
//! A member set (a "tree") is spelled as a strictly sorted vector of items;
//! the family is spelled as a strictly sorted vector of trees. Strict sorting
//! makes the spelling canonical: two forests represent the same family of
//! sets exactly when their views are equal, and `trees` enumerates member
//! sets in one deterministic order. Any canonical representation satisfying
//! the same algebraic laws would do; this explicit one keeps every operation
//! a plain loop over vectors, at home in catalogs of moderate size.

use vstd::prelude::*;

use crate::order::chars_lt;
use crate::order::items_lt;
use crate::order::lemma_chars_lt_asym;
use crate::order::lemma_chars_lt_connex;
use crate::order::lemma_chars_lt_trans;
use crate::order::lemma_items_lt_asym;
use crate::order::lemma_items_lt_connex;
use crate::order::lemma_items_lt_trans;
use crate::order::lemma_sorted_unique;
use crate::order::order_asymmetric;
use crate::order::order_connex_on;
use crate::order::order_transitive;
use crate::order::pairwise_sorted;
use crate::order::string_lt;

verus! {

/// The sequence of item identifiers an item vector stands for.
pub open spec fn tree_view(t: Vec<String>) -> Seq<Seq<char>> {
    t@.map_values(|s: String| s@)
}

/// The sequence of trees a forest vector stands for.
pub open spec fn forest_view(ts: Vec<Vec<String>>) -> Seq<Seq<Seq<char>>> {
    ts@.map_values(|t: Vec<String>| tree_view(t))
}

/// The item order, as a value usable with the sorted-sequence lemmas.
pub open spec fn chars_lt_fn() -> spec_fn(Seq<char>, Seq<char>) -> bool {
    |a: Seq<char>, b: Seq<char>| chars_lt(a, b)
}

/// The tree order, as a value usable with the sorted-sequence lemmas.
pub open spec fn items_lt_fn() -> spec_fn(Seq<Seq<char>>, Seq<Seq<char>>) -> bool {
    |a: Seq<Seq<char>>, b: Seq<Seq<char>>| items_lt(a, b)
}

/// A strictly sorted item sequence: the canonical spelling of a finite set.
pub open spec fn tree_sorted(t: Seq<Seq<char>>) -> bool {
    pairwise_sorted(chars_lt_fn(), t)
}

/// Every tree canonical, and the trees themselves strictly sorted.
pub open spec fn forest_sorted(ts: Seq<Seq<Seq<char>>>) -> bool {
    &&& forall|k: int| 0 <= k < ts.len() ==> tree_sorted(#[trigger] ts[k])
    &&& pairwise_sorted(items_lt_fn(), ts)
}

/// The family of sets that a sequence of trees enumerates.
pub open spec fn sets_of(ts: Seq<Seq<Seq<char>>>) -> Set<Set<Seq<char>>> {
    Set::new(
        |s: Set<Seq<char>>| exists|k: int| 0 <= k < ts.len() && s == (#[trigger] ts[k]).to_set(),
    )
}

pub proof fn lemma_chars_order()
    ensures
        order_asymmetric(chars_lt_fn()),
        order_transitive(chars_lt_fn()),
{
    assert forall|x: Seq<char>, y: Seq<char>| #[trigger] chars_lt_fn()(x, y) implies !chars_lt_fn()(
        y,
        x,
    ) && x != y by {
        lemma_chars_lt_asym(x, y);
    }
    assert forall|x: Seq<char>, y: Seq<char>, z: Seq<char>|
        #[trigger] chars_lt_fn()(x, y) && #[trigger] chars_lt_fn()(y, z) implies chars_lt_fn()(
        x,
        z,
    ) by {
        lemma_chars_lt_trans(x, y, z);
    }
}

pub proof fn lemma_chars_connex_on(s: Set<Seq<char>>)
    ensures
        order_connex_on(chars_lt_fn(), s),
{
    assert forall|x: Seq<char>, y: Seq<char>|
        #[trigger] s.contains(x) && #[trigger] s.contains(y) && x != y implies chars_lt_fn()(x, y)
        || chars_lt_fn()(y, x) by {
        lemma_chars_lt_connex(x, y);
    }
}

pub proof fn lemma_items_order()
    ensures
        order_asymmetric(items_lt_fn()),
        order_transitive(items_lt_fn()),
{
    assert forall|x: Seq<Seq<char>>, y: Seq<Seq<char>>| #[trigger] items_lt_fn()(
        x,
        y,
    ) implies !items_lt_fn()(y, x) && x != y by {
        lemma_items_lt_asym(x, y);
    }
    assert forall|x: Seq<Seq<char>>, y: Seq<Seq<char>>, z: Seq<Seq<char>>|
        #[trigger] items_lt_fn()(x, y) && #[trigger] items_lt_fn()(y, z) implies items_lt_fn()(
        x,
        z,
    ) by {
        lemma_items_lt_trans(x, y, z);
    }
}

pub proof fn lemma_items_connex_on(s: Set<Seq<Seq<char>>>)
    ensures
        order_connex_on(items_lt_fn(), s),
{
    assert forall|x: Seq<Seq<char>>, y: Seq<Seq<char>>|
        #[trigger] s.contains(x) && #[trigger] s.contains(y) && x != y implies items_lt_fn()(x, y)
        || items_lt_fn()(y, x) by {
        lemma_items_lt_connex(x, y);
    }
}

/// Inserting anywhere in a sequence inserts into the set of its members.
pub proof fn lemma_to_set_insert_mid<A>(s: Seq<A>, i: int, x: A)
    requires
        0 <= i <= s.len(),
    ensures
        s.insert(i, x).to_set() == s.to_set().insert(x),
{
    let t = s.insert(i, x);
    s.insert_ensures(i, x);
    assert forall|y: A| t.to_set().contains(y) implies s.to_set().insert(x).contains(y) by {
        let k = choose|k: int| 0 <= k < t.len() && t[k] == y;
        if k < i {
            assert(s[k] == y);
            assert(s.contains(y));
        } else if k == i {
        } else {
            assert(s[k - 1] == y);
            assert(s.contains(y));
        }
    }
    assert forall|y: A| s.to_set().insert(x).contains(y) implies t.to_set().contains(y) by {
        if y == x {
            assert(t[i] == y);
            assert(t.contains(y));
        } else {
            let k = choose|k: int| 0 <= k < s.len() && s[k] == y;
            if k < i {
                assert(t[k] == y);
            } else {
                assert(t[k + 1] == y);
            }
            assert(t.contains(y));
        }
    }
    assert(t.to_set() =~= s.to_set().insert(x));
}

/// `map_values` distributes over `insert`.
pub proof fn lemma_map_values_insert<A, B>(s: Seq<A>, f: spec_fn(A) -> B, i: int, x: A)
    requires
        0 <= i <= s.len(),
    ensures
        s.insert(i, x).map_values(f) == s.map_values(f).insert(i, f(x)),
{
    s.insert_ensures(i, x);
    s.map_values(f).insert_ensures(i, f(x));
    assert(s.insert(i, x).map_values(f) =~= s.map_values(f).insert(i, f(x)));
}

/// Inserting a tree into the enumeration inserts its member set.
pub proof fn lemma_sets_of_insert(ts: Seq<Seq<Seq<char>>>, i: int, t: Seq<Seq<char>>)
    requires
        0 <= i <= ts.len(),
    ensures
        sets_of(ts.insert(i, t)) == sets_of(ts).insert(t.to_set()),
{
    let u = ts.insert(i, t);
    ts.insert_ensures(i, t);
    assert forall|s: Set<Seq<char>>| sets_of(u).contains(s) implies sets_of(ts).insert(
        t.to_set(),
    ).contains(s) by {
        let k = choose|k: int| 0 <= k < u.len() && s == u[k].to_set();
        if k < i {
            assert(s == ts[k].to_set());
        } else if k > i {
            assert(s == ts[k - 1].to_set());
        }
    }
    assert forall|s: Set<Seq<char>>| sets_of(ts).insert(t.to_set()).contains(s) implies sets_of(
        u,
    ).contains(s) by {
        if s == t.to_set() {
            assert(s == u[i].to_set());
        } else {
            let k = choose|k: int| 0 <= k < ts.len() && s == ts[k].to_set();
            if k < i {
                assert(s == u[k].to_set());
            } else {
                assert(s == u[k + 1].to_set());
            }
        }
    }
    assert(sets_of(u) =~= sets_of(ts).insert(t.to_set()));
}

/// Position of the first element not below `x` in a sorted item vector.
fn item_position(v: &Vec<String>, x: &String) -> (i: usize)
    requires
        tree_sorted(tree_view(*v)),
    ensures
        i <= v@.len(),
        forall|k: int| 0 <= k < i ==> chars_lt(#[trigger] tree_view(*v)[k], x@),
        i < v@.len() ==> !chars_lt(tree_view(*v)[i as int], x@),
{
    let n = v.len();
    let mut i: usize = 0;
    while i < n
        invariant
            n == v@.len(),
            i <= n,
            tree_sorted(tree_view(*v)),
            forall|k: int| 0 <= k < i ==> chars_lt(#[trigger] tree_view(*v)[k], x@),
        decreases n - i,
    {
        let below = string_lt(&v[i], x);
        proof {
            assert(tree_view(*v)[i as int] == v@[i as int]@);
        }
        if !below {
            return i;
        }
        i = i + 1;
    }
    i
}

/// Insert an item into a strictly sorted item vector, keeping it strictly
/// sorted; an item already present is not inserted again.
pub fn insert_item(v: &mut Vec<String>, x: String)
    requires
        tree_sorted(tree_view(*old(v))),
    ensures
        tree_sorted(tree_view(*final(v))),
        tree_view(*final(v)).to_set() == tree_view(*old(v)).to_set().insert(x@),
{
    let ghost ov = tree_view(*old(v));
    let i = item_position(v, &x);
    if i < v.len() {
        let strictly_below = string_lt(&x, &v[i]);
        if !strictly_below {
            proof {
                assert(ov[i as int] == v@[i as int]@);
                lemma_chars_lt_connex(x@, ov[i as int]);
                assert(x@ == ov[i as int]);
                assert(ov.contains(x@));
                assert(ov.to_set().contains(x@));
                assert(ov.to_set() =~= ov.to_set().insert(x@));
            }
            return;
        }
    }
    v.insert(i, x);
    proof {
        let nv = tree_view(*v);
        lemma_map_values_insert(old(v)@, |s: String| s@, i as int, x);
        assert(nv == ov.insert(i as int, x@));
        lemma_to_set_insert_mid(ov, i as int, x@);
        ov.insert_ensures(i as int, x@);
        assert forall|p: int, q: int| 0 <= p < q < nv.len() implies #[trigger] chars_lt_fn()(
            nv[p],
            nv[q],
        ) by {
            if q < i {
                assert(chars_lt_fn()(ov[p], ov[q]));
            } else if p > i {
                assert(chars_lt_fn()(ov[p - 1], ov[q - 1]));
            } else if p == i && q > i {
                // x goes before everything at or after the found position
                assert(nv[q] == ov[q - 1]);
                if q - 1 > i {
                    assert(chars_lt_fn()(ov[i as int], ov[q - 1]));
                    lemma_chars_lt_trans(x@, ov[i as int], ov[q - 1]);
                }
            } else if q == i {
                assert(nv[p] == ov[p]);
                assert(chars_lt(ov[p], x@));
            } else {
                // p < i < q
                assert(nv[p] == ov[p]);
                assert(nv[q] == ov[q - 1]);
                if q - 1 == i {
                    assert(chars_lt(ov[p], x@));
                    lemma_chars_lt_trans(ov[p], x@, ov[q - 1]);
                } else {
                    assert(chars_lt_fn()(ov[p], ov[q - 1]));
                }
            }
        }
    }
}

/// The canonical spelling of the set of items in `items`: sorted, without
/// duplicates.
pub fn canonical_tree(items: &Vec<String>) -> (t: Vec<String>)
    ensures
        tree_sorted(tree_view(t)),
        tree_view(t).to_set() == tree_view(*items).to_set(),
{
    broadcast use vstd::seq_lib::group_seq_lib_default;

    let n = items.len();
    let mut t: Vec<String> = Vec::new();
    let mut i: usize = 0;
    while i < n
        invariant
            n == items@.len(),
            i <= n,
            tree_sorted(tree_view(t)),
            tree_view(t).to_set() == tree_view(*items).take(i as int).to_set(),
        decreases n - i,
    {
        let ghost before = tree_view(t).to_set();
        let x = clone_string(&items[i]);
        insert_item(&mut t, x);
        proof {
            let iv = tree_view(*items);
            lemma_to_set_insert_mid(iv.take(i as int), i as int, iv[i as int]);
            assert(iv.take(i + 1) =~= iv.take(i as int).insert(i as int, iv[i as int]));
            assert(iv[i as int] == items@[i as int]@);
            assert(tree_view(t).to_set() =~= iv.take(i + 1).to_set());
        }
        i = i + 1;
    }
    proof {
        assert(tree_view(*items).take(n as int) =~= tree_view(*items));
    }
    t
}

/// An owned copy of a string, equal to the original.
pub fn clone_string(s: &String) -> (r: String)
    ensures
        r == *s,
{
    s.clone()
}

/// An owned copy of an item vector, with the same view.
pub fn clone_tree(t: &Vec<String>) -> (r: Vec<String>)
    ensures
        r@ == t@,
{
    let n = t.len();
    let mut r: Vec<String> = Vec::new();
    let mut i: usize = 0;
    while i < n
        invariant
            n == t@.len(),
            i <= n,
            r@ == t@.take(i as int),
        decreases n - i,
    {
        r.push(clone_string(&t[i]));
        proof {
            assert(r@ =~= t@.take(i + 1));
        }
        i = i + 1;
    }
    proof {
        assert(t@.take(n as int) =~= t@);
    }
    r
}

/// Whether the sorted item vector `v` holds `x`.
pub fn tree_contains(v: &Vec<String>, x: &String) -> (r: bool)
    ensures
        r == tree_view(*v).to_set().contains(x@),
{
    broadcast use vstd::seq_lib::group_seq_lib_default;

    let n = v.len();
    let mut i: usize = 0;
    while i < n
        invariant
            n == v@.len(),
            i <= n,
            forall|k: int| 0 <= k < i ==> #[trigger] tree_view(*v)[k] != x@,
        decreases n - i,
    {
        let hit = item_eq(&v[i], x);
        proof {
            assert(tree_view(*v)[i as int] == v@[i as int]@);
        }
        if hit {
            proof {
                assert(tree_view(*v).contains(x@));
            }
            return true;
        }
        i = i + 1;
    }
    proof {
        if tree_view(*v).to_set().contains(x@) {
            let k = choose|k: int| 0 <= k < tree_view(*v).len() && tree_view(*v)[k] == x@;
            assert(false);
        }
    }
    false
}

/// Whether two strings hold the same characters.
pub fn item_eq(a: &String, b: &String) -> (r: bool)
    ensures
        r == (a@ == b@),
{
    a.eq(b)
}

/// `items_lt` is unchanged by dropping a common prefix.
proof fn lemma_items_lt_skip(a: Seq<Seq<char>>, b: Seq<Seq<char>>, i: int)
    requires
        0 <= i <= a.len(),
        i <= b.len(),
        forall|k: int| 0 <= k < i ==> a[k] == b[k],
    ensures
        items_lt(a, b) == items_lt(a.skip(i), b.skip(i)),
    decreases i,
{
    if i == 0 {
        assert(a.skip(0) =~= a);
        assert(b.skip(0) =~= b);
    } else {
        let ta = a.drop_first();
        let tb = b.drop_first();
        assert(forall|k: int| 0 <= k < i - 1 ==> ta[k] == tb[k]);
        lemma_items_lt_skip(ta, tb, i - 1);
        assert(ta.skip(i - 1) =~= a.skip(i));
        assert(tb.skip(i - 1) =~= b.skip(i));
    }
}

/// Lexicographic comparison of two canonical item vectors.
pub fn tree_lt(a: &Vec<String>, b: &Vec<String>) -> (r: bool)
    ensures
        r == items_lt(tree_view(*a), tree_view(*b)),
{
    let ghost av = tree_view(*a);
    let ghost bv = tree_view(*b);
    let an = a.len();
    let bn = b.len();
    let mut i: usize = 0;
    while i < an && i < bn
        invariant
            an == av.len(),
            bn == bv.len(),
            i <= an,
            i <= bn,
            av == tree_view(*a),
            bv == tree_view(*b),
            forall|k: int| 0 <= k < i ==> av[k] == bv[k],
        decreases an - i,
    {
        let same = item_eq(&a[i], &b[i]);
        proof {
            assert(av[i as int] == a@[i as int]@);
            assert(bv[i as int] == b@[i as int]@);
        }
        if !same {
            let r = string_lt(&a[i], &b[i]);
            proof {
                lemma_items_lt_skip(av, bv, i as int);
                assert(av.skip(i as int)[0] == av[i as int]);
                assert(bv.skip(i as int)[0] == bv[i as int]);
            }
            return r;
        }
        i = i + 1;
    }
    proof {
        lemma_items_lt_skip(av, bv, i as int);
        if i < bn {
            assert(av.skip(i as int).len() == 0);
            assert(bv.skip(i as int).len() > 0);
        } else if i < an {
            assert(bv.skip(i as int).len() == 0);
        } else {
            assert(av.skip(i as int).len() == 0);
            assert(bv.skip(i as int).len() == 0);
        }
    }
    i < bn
}

/// Position of the first tree not below `t` in a sorted forest vector.
fn tree_position(ts: &Vec<Vec<String>>, t: &Vec<String>) -> (i: usize)
    requires
        pairwise_sorted(items_lt_fn(), forest_view(*ts)),
    ensures
        i <= ts@.len(),
        forall|k: int| 0 <= k < i ==> items_lt(#[trigger] forest_view(*ts)[k], tree_view(*t)),
        i < ts@.len() ==> !items_lt(forest_view(*ts)[i as int], tree_view(*t)),
{
    let n = ts.len();
    let mut i: usize = 0;
    while i < n
        invariant
            n == ts@.len(),
            i <= n,
            pairwise_sorted(items_lt_fn(), forest_view(*ts)),
            forall|k: int| 0 <= k < i ==> items_lt(#[trigger] forest_view(*ts)[k], tree_view(*t)),
        decreases n - i,
    {
        let below = tree_lt(&ts[i], t);
        proof {
            assert(forest_view(*ts)[i as int] == tree_view(ts@[i as int]));
        }
        if !below {
            return i;
        }
        i = i + 1;
    }
    i
}

/// Insert a canonical tree into a canonical forest vector, keeping it
/// canonical; a tree whose member set is already present is not inserted.
pub fn insert_tree(ts: &mut Vec<Vec<String>>, t: Vec<String>)
    requires
        forest_sorted(forest_view(*old(ts))),
        tree_sorted(tree_view(t)),
    ensures
        forest_sorted(forest_view(*final(ts))),
        sets_of(forest_view(*final(ts))) == sets_of(forest_view(*old(ts))).insert(
            tree_view(t).to_set(),
        ),
{
    let ghost ov = forest_view(*old(ts));
    let ghost tv = tree_view(t);
    let i = tree_position(ts, &t);
    if i < ts.len() {
        let strictly_below = tree_lt(&t, &ts[i]);
        if !strictly_below {
            proof {
                assert(ov[i as int] == tree_view(ts@[i as int]));
                lemma_items_lt_connex(tv, ov[i as int]);
                assert(tv == ov[i as int]);
                assert(sets_of(ov).contains(tv.to_set()));
                assert(sets_of(ov) =~= sets_of(ov).insert(tv.to_set()));
            }
            return;
        }
    }
    ts.insert(i, t);
    proof {
        let nv = forest_view(*ts);
        lemma_map_values_insert(old(ts)@, |t: Vec<String>| tree_view(t), i as int, t);
        assert(nv == ov.insert(i as int, tv));
        lemma_sets_of_insert(ov, i as int, tv);
        ov.insert_ensures(i as int, tv);
        assert forall|k: int| 0 <= k < nv.len() implies tree_sorted(#[trigger] nv[k]) by {
            if k < i {
                assert(tree_sorted(ov[k]));
            } else if k > i {
                assert(tree_sorted(ov[k - 1]));
            }
        }
        assert forall|p: int, q: int| 0 <= p < q < nv.len() implies #[trigger] items_lt_fn()(
            nv[p],
            nv[q],
        ) by {
            if q < i {
                assert(items_lt_fn()(ov[p], ov[q]));
            } else if p > i {
                assert(items_lt_fn()(ov[p - 1], ov[q - 1]));
            } else if p == i && q > i {
                assert(nv[q] == ov[q - 1]);
                if q - 1 > i {
                    assert(items_lt_fn()(ov[i as int], ov[q - 1]));
                    lemma_items_lt_trans(tv, ov[i as int], ov[q - 1]);
                }
            } else if q == i {
                assert(nv[p] == ov[p]);
                assert(items_lt(ov[p], tv));
            } else {
                assert(nv[p] == ov[p]);
                assert(nv[q] == ov[q - 1]);
                if q - 1 == i {
                    assert(items_lt(ov[p], tv));
                    lemma_items_lt_trans(ov[p], tv, ov[q - 1]);
                } else {
                    assert(items_lt_fn()(ov[p], ov[q - 1]));
                }
            }
        }
    }
}

/// Member sets of a prefix grown by one tree.
pub proof fn lemma_sets_of_take_succ(ts: Seq<Seq<Seq<char>>>, i: int)
    requires
        0 <= i < ts.len(),
    ensures
        sets_of(ts.take(i + 1)) == sets_of(ts.take(i)).insert(ts[i].to_set()),
{
    lemma_sets_of_insert(ts.take(i), i, ts[i]);
    assert(ts.take(i + 1) =~= ts.take(i).insert(i, ts[i]));
}

/// A canonical enumeration is as long as the family it enumerates: the
/// member sets of distinct canonical trees are distinct.
pub proof fn lemma_sets_of_card(ts: Seq<Seq<Seq<char>>>)
    requires
        forest_sorted(ts),
    ensures
        sets_of(ts).finite(),
        sets_of(ts).len() == ts.len(),
    decreases ts.len(),
{
    lemma_chars_order();
    lemma_items_order();
    if ts.len() == 0 {
        assert(sets_of(ts) =~= Set::<Set<Seq<char>>>::empty());
    } else {
        let n = ts.len() - 1;
        let front = ts.take(n);
        assert(forest_sorted(front)) by {
            assert(forall|k: int| 0 <= k < front.len() ==> front[k] == ts[k]);
            assert forall|p: int, q: int| 0 <= p < q < front.len() implies #[trigger] items_lt_fn()(
                front[p],
                front[q],
            ) by {
                assert(items_lt_fn()(ts[p], ts[q]));
            }
        }
        lemma_sets_of_card(front);
        lemma_sets_of_take_succ(ts, n);
        assert(ts.take(n + 1) =~= ts);
        if sets_of(front).contains(ts[n].to_set()) {
            let k = choose|k: int| 0 <= k < front.len() && ts[n].to_set() == front[k].to_set();
            lemma_chars_connex_on(ts[n].to_set().union(ts[k].to_set()));
            lemma_sorted_unique(chars_lt_fn(), ts[k], ts[n]);
            assert(items_lt_fn()(ts[k], ts[n]));
            assert(false);
        }
    }
}

/// A family of member sets over an ordered item universe, in canonical form:
/// every member set is spelled as a strictly sorted item vector, and the
/// vectors themselves are strictly sorted. Two forests represent the same
/// family of sets exactly when their views are equal.
#[derive(Debug, PartialEq, Eq)]
pub struct Forest {
    trees: Vec<Vec<String>>,
}

impl View for Forest {
    type V = Seq<Seq<Seq<char>>>;

    closed spec fn view(&self) -> Seq<Seq<Seq<char>>> {
        forest_view(self.trees)
    }
}

impl Forest {
    /// The representation is canonical.
    pub open spec fn wf(self) -> bool {
        forest_sorted(self@)
    }

    /// The family of sets this forest represents.
    pub open spec fn sets(self) -> Set<Set<Seq<char>>> {
        sets_of(self@)
    }

    /// The empty family, with no member set.
    pub fn empty() -> (r: Forest)
        ensures
            r.wf(),
            r.sets() == Set::<Set<Seq<char>>>::empty(),
    {
        let r = Forest { trees: Vec::new() };
        proof {
            assert(r@ =~= Seq::<Seq<Seq<char>>>::empty());
            assert(r.sets() =~= Set::<Set<Seq<char>>>::empty());
        }
        r
    }

    /// The family whose only member is the empty set.
    pub fn unit() -> (r: Forest)
        ensures
            r.wf(),
            r.sets() == Set::<Set<Seq<char>>>::empty().insert(Set::empty()),
    {
        let mut trees: Vec<Vec<String>> = Vec::new();
        trees.push(Vec::new());
        let r = Forest { trees };
        proof {
            assert(r@.len() == 1);
            assert(r@[0] =~= Seq::<Seq<char>>::empty());
            assert(r@[0].to_set() =~= Set::<Seq<char>>::empty());
            assert(r.sets() =~= Set::<Set<Seq<char>>>::empty().insert(Set::empty()));
        }
        r
    }

    /// The family whose only member is the singleton set of `item`.
    pub fn single(item: &String) -> (r: Forest)
        ensures
            r.wf(),
            r.sets() == Set::<Set<Seq<char>>>::empty().insert(
                Set::<Seq<char>>::empty().insert(item@),
            ),
    {
        let mut tree: Vec<String> = Vec::new();
        tree.push(clone_string(item));
        let mut trees: Vec<Vec<String>> = Vec::new();
        trees.push(tree);
        let r = Forest { trees };
        proof {
            assert(r@.len() == 1);
            assert(r@[0] =~= seq![item@]);
            assert(r@[0].to_set().contains(item@)) by {
                assert(r@[0][0] == item@);
                assert(r@[0].contains(item@));
            }
            assert forall|y: Seq<char>| r@[0].to_set().contains(y) implies y == item@ by {
                let k = choose|k: int| 0 <= k < r@[0].len() && r@[0][k] == y;
            }
            assert(r@[0].to_set() =~= Set::<Seq<char>>::empty().insert(item@));
            assert(r.sets() =~= Set::<Set<Seq<char>>>::empty().insert(
                Set::<Seq<char>>::empty().insert(item@),
            ));
        }
        r
    }

    /// The member sets enumerated by this forest, as canonical vectors in
    /// the canonical order.
    pub fn trees(&self) -> (r: Vec<Vec<String>>)
        ensures
            forest_view(r) == self@,
    {
        let n = self.trees.len();
        let mut r: Vec<Vec<String>> = Vec::new();
        let mut i: usize = 0;
        while i < n
            invariant
                n == self.trees@.len(),
                i <= n,
                forest_view(r) == self@.take(i as int),
            decreases n - i,
        {
            let c = clone_tree(&self.trees[i]);
            let ghost pre = r@;
            let ghost prefv = forest_view(r);
            proof {
                assert(prefv == pre.map_values(|t: Vec<String>| tree_view(t)));
                assert(prefv.len() == pre.len());
                assert(prefv.len() == i as int);
                assert(forall|k: int| 0 <= k < i ==> #[trigger] prefv[k] == tree_view(pre[k]));
            }
            r.push(c);
            proof {
                assert(r@ == pre.push(c));
                assert forall|k: int| 0 <= k < i + 1 implies forest_view(r)[k] == self@.take(
                    i + 1,
                )[k] by {
                    assert(forest_view(r)[k] == tree_view(r@[k]));
                    if k == i {
                        assert(r@[k] == c);
                        assert(c@ == self.trees@[k]@);
                        assert(tree_view(c) == self@[k]);
                    } else {
                        assert(r@[k] == pre[k]);
                        assert(tree_view(pre[k]) == prefv[k]);
                        assert(prefv[k] == self@.take(i as int)[k]);
                    }
                }
                assert(forest_view(r) =~= self@.take(i + 1));
            }
            i = i + 1;
        }
        proof {
            assert(self@.take(n as int) =~= self@);
        }
        r
    }

    /// The number of member sets.
    pub fn len(&self) -> (r: usize)
        ensures
            r == self@.len(),
            self.wf() ==> r == self.sets().len(),
    {
        proof {
            if self.wf() {
                lemma_sets_of_card(self@);
            }
        }
        self.trees.len()
    }
}

/// A canonical forest is determined by the family it represents: equal
/// families have equal enumerations. Together with the exact contracts of
/// the operations, this gives the algebraic laws of the kernel: both sides
/// of each law represent the same family, so they are the same forest.
pub proof fn lemma_forest_canonical(a: Forest, b: Forest)
    requires
        a.wf(),
        b.wf(),
        a.sets() == b.sets(),
    ensures
        a@ == b@,
{
    lemma_chars_order();
    lemma_items_order();
    assert forall|x: Seq<Seq<char>>| a@.to_set().contains(x) implies b@.to_set().contains(x) by {
        assert(a@.contains(x));
        let k = choose|k: int| 0 <= k < a@.len() && a@[k] == x;
        assert(sets_of(a@).contains(x.to_set()));
        assert(sets_of(b@).contains(x.to_set()));
        let j = choose|j: int| 0 <= j < b@.len() && x.to_set() == b@[j].to_set();
        lemma_chars_connex_on(b@[j].to_set().union(x.to_set()));
        lemma_sorted_unique(chars_lt_fn(), b@[j], x);
        assert(b@.contains(x));
    }
    assert forall|x: Seq<Seq<char>>| b@.to_set().contains(x) implies a@.to_set().contains(x) by {
        assert(b@.contains(x));
        let k = choose|k: int| 0 <= k < b@.len() && b@[k] == x;
        assert(sets_of(b@).contains(x.to_set()));
        assert(sets_of(a@).contains(x.to_set()));
        let j = choose|j: int| 0 <= j < a@.len() && x.to_set() == a@[j].to_set();
        lemma_chars_connex_on(a@[j].to_set().union(x.to_set()));
        lemma_sorted_unique(chars_lt_fn(), a@[j], x);
        assert(a@.contains(x));
    }
    assert(a@.to_set() =~= b@.to_set());
    lemma_items_connex_on(a@.to_set().union(b@.to_set()));
    lemma_sorted_unique(items_lt_fn(), a@, b@);
}

/// The family of all singletons over the members of `items`.
pub open spec fn singleton_family(items: Seq<Seq<char>>) -> Set<Set<Seq<char>>> {
    Set::new(
        |s: Set<Seq<char>>|
            exists|it: Seq<char>|
                #[trigger] items.to_set().contains(it) && s == Set::<Seq<char>>::empty().insert(
                    it,
                ),
    )
}

/// The Cartesian product of two families: the unions of one member from
/// each side.
pub open spec fn product_family(x: Set<Set<Seq<char>>>, y: Set<Set<Seq<char>>>) -> Set<
    Set<Seq<char>>,
> {
    Set::new(
        |s: Set<Seq<char>>|
            exists|sa: Set<Seq<char>>, sb: Set<Seq<char>>|
                #[trigger] x.contains(sa) && #[trigger] y.contains(sb) && s == sa.union(sb),
    )
}

/// `s` holds every member of `items`.
pub open spec fn contains_all(s: Set<Seq<char>>, items: Seq<Seq<char>>) -> bool {
    forall|k: int| 0 <= k < items.len() ==> s.contains(#[trigger] items[k])
}

/// `s` holds no member of `items`.
pub open spec fn contains_none(s: Set<Seq<char>>, items: Seq<Seq<char>>) -> bool {
    forall|k: int| 0 <= k < items.len() ==> !s.contains(#[trigger] items[k])
}

pub open spec fn all_filter(items: Seq<Seq<char>>) -> spec_fn(Set<Seq<char>>) -> bool {
    |s: Set<Seq<char>>| contains_all(s, items)
}

pub open spec fn none_filter(items: Seq<Seq<char>>) -> spec_fn(Set<Seq<char>>) -> bool {
    |s: Set<Seq<char>>| contains_none(s, items)
}

proof fn lemma_singleton_family_take_succ(items: Seq<Seq<char>>, i: int)
    requires
        0 <= i < items.len(),
    ensures
        singleton_family(items.take(i + 1)) == singleton_family(items.take(i)).insert(
            Set::<Seq<char>>::empty().insert(items[i]),
        ),
{
    lemma_to_set_insert_mid(items.take(i), i, items[i]);
    assert(items.take(i + 1) =~= items.take(i).insert(i, items[i]));
    assert(items.take(i + 1).to_set() == items.take(i).to_set().insert(items[i]));
    let lhs = singleton_family(items.take(i + 1));
    let rhs = singleton_family(items.take(i)).insert(Set::<Seq<char>>::empty().insert(items[i]));
    assert forall|s: Set<Seq<char>>| lhs.contains(s) implies rhs.contains(s) by {
        let it = choose|it: Seq<char>|
            items.take(i + 1).to_set().contains(it) && s == Set::<Seq<char>>::empty().insert(it);
        if it != items[i] {
            assert(items.take(i).to_set().contains(it));
        }
    }
    assert forall|s: Set<Seq<char>>| rhs.contains(s) implies lhs.contains(s) by {
        if s == Set::<Seq<char>>::empty().insert(items[i]) {
            assert(items.take(i + 1).to_set().contains(items[i]));
        } else {
            let it = choose|it: Seq<char>|
                items.take(i).to_set().contains(it) && s == Set::<Seq<char>>::empty().insert(it);
            assert(items.take(i + 1).to_set().contains(it));
        }
    }
    assert(lhs =~= rhs);
}

impl Forest {
    /// The family of all singletons over `items`: one member set per
    /// distinct item.
    pub fn unique(items: &Vec<String>) -> (r: Forest)
        ensures
            r.wf(),
            r.sets() == singleton_family(tree_view(*items)),
    {
        let n = items.len();
        let mut trees: Vec<Vec<String>> = Vec::new();
        let mut i: usize = 0;
        proof {
            assert(forest_view(trees) =~= Seq::<Seq<Seq<char>>>::empty());
            assert(sets_of(forest_view(trees)) =~= Set::<Set<Seq<char>>>::empty());
            assert(tree_view(*items).take(0).to_set() =~= Set::<Seq<char>>::empty());
            assert forall|s: Set<Seq<char>>|
                singleton_family(tree_view(*items).take(0)).contains(s) implies false by {
                let it = choose|it: Seq<char>|
                    tree_view(*items).take(0).to_set().contains(it) && s
                        == Set::<Seq<char>>::empty().insert(it);
            }
            assert(singleton_family(tree_view(*items).take(0)) =~= Set::<Set<Seq<char>>>::empty());
        }
        while i < n
            invariant
                n == items@.len(),
                i <= n,
                forest_sorted(forest_view(trees)),
                sets_of(forest_view(trees)) == singleton_family(tree_view(*items).take(i as int)),
            decreases n - i,
        {
            let mut t: Vec<String> = Vec::new();
            t.push(clone_string(&items[i]));
            proof {
                assert(tree_view(t) =~= seq![items@[i as int]@]);
                assert(tree_view(t).to_set().contains(items@[i as int]@)) by {
                    assert(tree_view(t)[0] == items@[i as int]@);
                    assert(tree_view(t).contains(items@[i as int]@));
                }
                assert forall|y: Seq<char>| tree_view(t).to_set().contains(y) implies y == items@[
                    i as int
                ]@ by {
                    let k = choose|k: int| 0 <= k < tree_view(t).len() && tree_view(t)[k] == y;
                }
                assert(tree_view(t).to_set() =~= Set::<Seq<char>>::empty().insert(
                    items@[i as int]@,
                ));
                assert(tree_view(*items)[i as int] == items@[i as int]@);
            }
            insert_tree(&mut trees, t);
            proof {
                lemma_singleton_family_take_succ(tree_view(*items), i as int);
            }
            i = i + 1;
        }
        proof {
            assert(tree_view(*items).take(n as int) =~= tree_view(*items));
        }
        Forest { trees }
    }

    /// The family holding exactly the sets listed in `vs`.
    pub fn many(vs: &Vec<Vec<String>>) -> (r: Forest)
        ensures
            r.wf(),
            r.sets() == sets_of(forest_view(*vs)),
    {
        let n = vs.len();
        let mut trees: Vec<Vec<String>> = Vec::new();
        let mut i: usize = 0;
        proof {
            assert(forest_view(trees) =~= Seq::<Seq<Seq<char>>>::empty());
            assert(sets_of(forest_view(trees)) =~= Set::<Set<Seq<char>>>::empty());
            assert(sets_of(forest_view(*vs).take(0)) =~= Set::<Set<Seq<char>>>::empty());
        }
        while i < n
            invariant
                n == vs@.len(),
                i <= n,
                forest_sorted(forest_view(trees)),
                sets_of(forest_view(trees)) == sets_of(forest_view(*vs).take(i as int)),
            decreases n - i,
        {
            let t = canonical_tree(&vs[i]);
            proof {
                assert(tree_view(vs@[i as int]) == forest_view(*vs)[i as int]);
            }
            insert_tree(&mut trees, t);
            proof {
                lemma_sets_of_take_succ(forest_view(*vs), i as int);
            }
            i = i + 1;
        }
        proof {
            assert(forest_view(*vs).take(n as int) =~= forest_view(*vs));
        }
        Forest { trees }
    }

    /// The union of two families: sets in either.
    pub fn union(&self, other: &Forest) -> (r: Forest)
        requires
            self.wf(),
            other.wf(),
        ensures
            r.wf(),
            r.sets() == self.sets().union(other.sets()),
    {
        let mut trees = self.trees();
        let n = other.trees.len();
        let mut i: usize = 0;
        proof {
            assert(sets_of(other@.take(0)) =~= Set::<Set<Seq<char>>>::empty());
            assert(sets_of(forest_view(trees)) =~= self.sets().union(sets_of(other@.take(0))));
        }
        while i < n
            invariant
                n == other@.len(),
                i <= n,
                other.wf(),
                forest_sorted(forest_view(trees)),
                sets_of(forest_view(trees)) == self.sets().union(sets_of(other@.take(i as int))),
            decreases n - i,
        {
            let c = clone_tree(&other.trees[i]);
            proof {
                assert(c@ == other.trees@[i as int]@);
                assert(tree_view(c) == other@[i as int]);
            }
            insert_tree(&mut trees, c);
            proof {
                lemma_sets_of_take_succ(other@, i as int);
                assert(sets_of(forest_view(trees)) =~= self.sets().union(
                    sets_of(other@.take(i + 1)),
                ));
            }
            i = i + 1;
        }
        proof {
            assert(other@.take(n as int) =~= other@);
        }
        Forest { trees }
    }
}

/// Whether two item vectors spell the same identifier sequence.
pub fn tree_eq(a: &Vec<String>, b: &Vec<String>) -> (r: bool)
    ensures
        r == (tree_view(*a) == tree_view(*b)),
{
    let ghost av = tree_view(*a);
    let ghost bv = tree_view(*b);
    let n = a.len();
    if n != b.len() {
        proof {
            assert(av.len() != bv.len());
        }
        return false;
    }
    let mut i: usize = 0;
    while i < n
        invariant
            n == a@.len(),
            n == b@.len(),
            i <= n,
            av == tree_view(*a),
            bv == tree_view(*b),
            forall|k: int| 0 <= k < i ==> av[k] == bv[k],
        decreases n - i,
    {
        let same = item_eq(&a[i], &b[i]);
        proof {
            assert(av[i as int] == a@[i as int]@);
            assert(bv[i as int] == b@[i as int]@);
        }
        if !same {
            proof {
                assert(av[i as int] != bv[i as int]);
            }
            return false;
        }
        i = i + 1;
    }
    proof {
        assert(av =~= bv);
    }
    true
}

/// Whether the forest vector holds a tree spelling exactly `t`.
fn contains_tree(ts: &Vec<Vec<String>>, t: &Vec<String>) -> (r: bool)
    ensures
        r == forest_view(*ts).contains(tree_view(*t)),
{
    let n = ts.len();
    let mut i: usize = 0;
    while i < n
        invariant
            n == ts@.len(),
            i <= n,
            forall|k: int| 0 <= k < i ==> #[trigger] forest_view(*ts)[k] != tree_view(*t),
        decreases n - i,
    {
        let hit = tree_eq(&ts[i], t);
        proof {
            assert(forest_view(*ts)[i as int] == tree_view(ts@[i as int]));
        }
        if hit {
            return true;
        }
        i = i + 1;
    }
    proof {
        if forest_view(*ts).contains(tree_view(*t)) {
            let k = choose|k: int|
                0 <= k < forest_view(*ts).len() && forest_view(*ts)[k] == tree_view(*t);
            assert(false);
        }
    }
    false
}

/// The canonical union of two canonical item vectors.
pub fn merge_trees(a: &Vec<String>, b: &Vec<String>) -> (t: Vec<String>)
    requires
        tree_sorted(tree_view(*a)),
        tree_sorted(tree_view(*b)),
    ensures
        tree_sorted(tree_view(t)),
        tree_view(t).to_set() == tree_view(*a).to_set().union(tree_view(*b).to_set()),
{
    let mut t = clone_tree(a);
    proof {
        assert(tree_view(t) == tree_view(*a));
        assert(tree_view(*b).take(0).to_set() =~= Set::<Seq<char>>::empty());
        assert(tree_view(t).to_set() =~= tree_view(*a).to_set().union(
            tree_view(*b).take(0).to_set(),
        ));
    }
    let n = b.len();
    let mut i: usize = 0;
    while i < n
        invariant
            n == b@.len(),
            i <= n,
            tree_sorted(tree_view(t)),
            tree_view(t).to_set() == tree_view(*a).to_set().union(
                tree_view(*b).take(i as int).to_set(),
            ),
        decreases n - i,
    {
        let x = clone_string(&b[i]);
        proof {
            assert(x@ == tree_view(*b)[i as int]);
        }
        insert_item(&mut t, x);
        proof {
            let bv = tree_view(*b);
            lemma_to_set_insert_mid(bv.take(i as int), i as int, bv[i as int]);
            assert(bv.take(i + 1) =~= bv.take(i as int).insert(i as int, bv[i as int]));
            assert(tree_view(t).to_set() =~= tree_view(*a).to_set().union(
                bv.take(i + 1).to_set(),
            ));
        }
        i = i + 1;
    }
    proof {
        assert(tree_view(*b).take(n as int) =~= tree_view(*b));
    }
    t
}

proof fn lemma_product_family_insert_left(
    x: Set<Set<Seq<char>>>,
    t: Set<Seq<char>>,
    y: Set<Set<Seq<char>>>,
)
    ensures
        product_family(x.insert(t), y) == product_family(x, y).union(
            product_family(Set::<Set<Seq<char>>>::empty().insert(t), y),
        ),
{
    let lhs = product_family(x.insert(t), y);
    let rhs = product_family(x, y).union(
        product_family(Set::<Set<Seq<char>>>::empty().insert(t), y),
    );
    assert forall|s: Set<Seq<char>>| lhs.contains(s) implies rhs.contains(s) by {
        let (sa, sb) = choose|sa: Set<Seq<char>>, sb: Set<Seq<char>>|
            x.insert(t).contains(sa) && y.contains(sb) && s == sa.union(sb);
        if sa == t {
            assert(Set::<Set<Seq<char>>>::empty().insert(t).contains(sa));
        } else {
            assert(x.contains(sa));
        }
    }
    assert forall|s: Set<Seq<char>>| rhs.contains(s) implies lhs.contains(s) by {
        if product_family(x, y).contains(s) {
            let (sa, sb) = choose|sa: Set<Seq<char>>, sb: Set<Seq<char>>|
                x.contains(sa) && y.contains(sb) && s == sa.union(sb);
            assert(x.insert(t).contains(sa));
        } else {
            let (sa, sb) = choose|sa: Set<Seq<char>>, sb: Set<Seq<char>>|
                Set::<Set<Seq<char>>>::empty().insert(t).contains(sa) && y.contains(sb) && s
                    == sa.union(sb);
            assert(x.insert(t).contains(sa));
        }
    }
    assert(lhs =~= rhs);
}

proof fn lemma_product_family_insert_right(
    t: Set<Seq<char>>,
    y: Set<Set<Seq<char>>>,
    s2: Set<Seq<char>>,
)
    ensures
        product_family(Set::<Set<Seq<char>>>::empty().insert(t), y.insert(s2)) == product_family(
            Set::<Set<Seq<char>>>::empty().insert(t),
            y,
        ).insert(t.union(s2)),
{
    let one = Set::<Set<Seq<char>>>::empty().insert(t);
    let lhs = product_family(one, y.insert(s2));
    let rhs = product_family(one, y).insert(t.union(s2));
    assert forall|s: Set<Seq<char>>| lhs.contains(s) implies rhs.contains(s) by {
        let (sa, sb) = choose|sa: Set<Seq<char>>, sb: Set<Seq<char>>|
            one.contains(sa) && y.insert(s2).contains(sb) && s == sa.union(sb);
        assert(sa == t);
        if sb != s2 {
            assert(y.contains(sb));
        }
    }
    assert forall|s: Set<Seq<char>>| rhs.contains(s) implies lhs.contains(s) by {
        if s == t.union(s2) {
            assert(one.contains(t));
            assert(y.insert(s2).contains(s2));
        } else {
            let (sa, sb) = choose|sa: Set<Seq<char>>, sb: Set<Seq<char>>|
                one.contains(sa) && y.contains(sb) && s == sa.union(sb);
            assert(y.insert(s2).contains(sb));
        }
    }
    assert(lhs =~= rhs);
}

impl Forest {
    /// The intersection of two families: sets in both.
    pub fn intersect(&self, other: &Forest) -> (r: Forest)
        requires
            self.wf(),
            other.wf(),
        ensures
            r.wf(),
            r.sets() == self.sets().intersect(other.sets()),
    {
        proof {
            lemma_chars_order();
            lemma_items_order();
        }
        let n = self.trees.len();
        let mut trees: Vec<Vec<String>> = Vec::new();
        let mut i: usize = 0;
        proof {
            assert(forest_view(trees) =~= Seq::<Seq<Seq<char>>>::empty());
            assert(sets_of(forest_view(trees)) =~= Set::<Set<Seq<char>>>::empty());
            assert(sets_of(self@.take(0)) =~= Set::<Set<Seq<char>>>::empty());
            assert(sets_of(forest_view(trees)) =~= sets_of(self@.take(0)).intersect(
                other.sets(),
            ));
        }
        while i < n
            invariant
                n == self@.len(),
                i <= n,
                self.wf(),
                other.wf(),
                forest_sorted(forest_view(trees)),
                sets_of(forest_view(trees)) == sets_of(self@.take(i as int)).intersect(
                    other.sets(),
                ),
            decreases n - i,
        {
            let keep = contains_tree(&other.trees, &self.trees[i]);
            proof {
                lemma_chars_order();
                lemma_items_order();
                assert(forest_view(self.trees)[i as int] == tree_view(self.trees@[i as int]));
                if keep {
                    let k = choose|k: int|
                        0 <= k < other@.len() && other@[k] == tree_view(self.trees@[i as int]);
                    assert(other.sets().contains(self@[i as int].to_set()));
                } else {
                    if other.sets().contains(self@[i as int].to_set()) {
                        let k = choose|k: int|
                            0 <= k < other@.len() && self@[i as int].to_set() == other@[
                                k
                            ].to_set();
                        lemma_chars_connex_on(other@[k].to_set().union(self@[i as int].to_set()));
                        lemma_sorted_unique(chars_lt_fn(), other@[k], self@[i as int]);
                        assert(other@.contains(tree_view(self.trees@[i as int])));
                        assert(false);
                    }
                }
            }
            if keep {
                let c = clone_tree(&self.trees[i]);
                proof {
                    assert(tree_view(c) == self@[i as int]);
                }
                insert_tree(&mut trees, c);
            }
            proof {
                lemma_sets_of_take_succ(self@, i as int);
                if keep {
                    assert(sets_of(forest_view(trees)) =~= sets_of(self@.take(i + 1)).intersect(
                        other.sets(),
                    ));
                } else {
                    assert(sets_of(forest_view(trees)) =~= sets_of(self@.take(i + 1)).intersect(
                        other.sets(),
                    ));
                }
            }
            i = i + 1;
        }
        proof {
            assert(self@.take(n as int) =~= self@);
        }
        Forest { trees }
    }

    /// The Cartesian product of two families: the union of one member set
    /// from each side, over every pair.
    pub fn product(&self, other: &Forest) -> (r: Forest)
        requires
            self.wf(),
            other.wf(),
        ensures
            r.wf(),
            r.sets() == product_family(self.sets(), other.sets()),
    {
        let an = self.trees.len();
        let bn = other.trees.len();
        let mut trees: Vec<Vec<String>> = Vec::new();
        let mut i: usize = 0;
        proof {
            assert(forest_view(trees) =~= Seq::<Seq<Seq<char>>>::empty());
            assert(sets_of(forest_view(trees)) =~= Set::<Set<Seq<char>>>::empty());
            assert(sets_of(self@.take(0)) =~= Set::<Set<Seq<char>>>::empty());
            assert forall|s: Set<Seq<char>>|
                product_family(sets_of(self@.take(0)), other.sets()).contains(s) implies false by {
                let (sa, sb) = choose|sa: Set<Seq<char>>, sb: Set<Seq<char>>|
                    sets_of(self@.take(0)).contains(sa) && other.sets().contains(sb) && s
                        == sa.union(sb);
            }
            assert(sets_of(forest_view(trees)) =~= product_family(
                sets_of(self@.take(0)),
                other.sets(),
            ));
        }
        while i < an
            invariant
                an == self@.len(),
                bn == other@.len(),
                i <= an,
                self.wf(),
                other.wf(),
                forest_sorted(forest_view(trees)),
                sets_of(forest_view(trees)) == product_family(
                    sets_of(self@.take(i as int)),
                    other.sets(),
                ),
            decreases an - i,
        {
            let ghost row = Set::<Set<Seq<char>>>::empty().insert(self@[i as int].to_set());
            let mut j: usize = 0;
            proof {
                assert(sets_of(other@.take(0)) =~= Set::<Set<Seq<char>>>::empty());
                assert forall|s: Set<Seq<char>>|
                    product_family(row, sets_of(other@.take(0))).contains(s) implies false by {
                    let (sa, sb) = choose|sa: Set<Seq<char>>, sb: Set<Seq<char>>|
                        row.contains(sa) && sets_of(other@.take(0)).contains(sb) && s == sa.union(
                            sb,
                        );
                }
                assert(sets_of(forest_view(trees)) =~= product_family(
                    sets_of(self@.take(i as int)),
                    other.sets(),
                ).union(product_family(row, sets_of(other@.take(0)))));
            }
            while j < bn
                invariant
                    an == self@.len(),
                    bn == other@.len(),
                    0 <= i < an,
                    j <= bn,
                    self.wf(),
                    other.wf(),
                    row == Set::<Set<Seq<char>>>::empty().insert(self@[i as int].to_set()),
                    forest_sorted(forest_view(trees)),
                    sets_of(forest_view(trees)) == product_family(
                        sets_of(self@.take(i as int)),
                        other.sets(),
                    ).union(product_family(row, sets_of(other@.take(j as int)))),
                decreases bn - j,
            {
                proof {
                    assert(tree_view(self.trees@[i as int]) == self@[i as int]);
                    assert(tree_view(other.trees@[j as int]) == other@[j as int]);
                }
                let merged = merge_trees(&self.trees[i], &other.trees[j]);
                insert_tree(&mut trees, merged);
                proof {
                    lemma_sets_of_take_succ(other@, j as int);
                    lemma_product_family_insert_right(
                        self@[i as int].to_set(),
                        sets_of(other@.take(j as int)),
                        other@[j as int].to_set(),
                    );
                    assert(sets_of(forest_view(trees)) =~= product_family(
                        sets_of(self@.take(i as int)),
                        other.sets(),
                    ).union(product_family(row, sets_of(other@.take(j + 1)))));
                }
                j = j + 1;
            }
            proof {
                assert(other@.take(bn as int) =~= other@);
                lemma_sets_of_take_succ(self@, i as int);
                lemma_product_family_insert_left(
                    sets_of(self@.take(i as int)),
                    self@[i as int].to_set(),
                    other.sets(),
                );
                assert(sets_of(forest_view(trees)) =~= product_family(
                    sets_of(self@.take(i + 1)),
                    other.sets(),
                ));
            }
            i = i + 1;
        }
        proof {
            assert(self@.take(an as int) =~= self@);
        }
        Forest { trees }
    }
}

/// Whether the canonical item vector `t` holds every member of `items`.
pub fn tree_has_all(t: &Vec<String>, items: &Vec<String>) -> (r: bool)
    ensures
        r == contains_all(tree_view(*t).to_set(), tree_view(*items)),
{
    let n = items.len();
    let mut i: usize = 0;
    while i < n
        invariant
            n == items@.len(),
            i <= n,
            forall|k: int|
                0 <= k < i ==> tree_view(*t).to_set().contains(#[trigger] tree_view(*items)[k]),
        decreases n - i,
    {
        let hit = tree_contains(t, &items[i]);
        proof {
            assert(tree_view(*items)[i as int] == items@[i as int]@);
        }
        if !hit {
            return false;
        }
        i = i + 1;
    }
    true
}

/// Whether the canonical item vector `t` holds no member of `items`.
pub fn tree_has_none(t: &Vec<String>, items: &Vec<String>) -> (r: bool)
    ensures
        r == contains_none(tree_view(*t).to_set(), tree_view(*items)),
{
    let n = items.len();
    let mut i: usize = 0;
    while i < n
        invariant
            n == items@.len(),
            i <= n,
            forall|k: int|
                0 <= k < i ==> !tree_view(*t).to_set().contains(#[trigger] tree_view(*items)[k]),
        decreases n - i,
    {
        let hit = tree_contains(t, &items[i]);
        proof {
            assert(tree_view(*items)[i as int] == items@[i as int]@);
        }
        if hit {
            return false;
        }
        i = i + 1;
    }
    true
}

impl Forest {
    /// Keep only the member sets holding every item in `items`.
    pub fn subset_all(&self, items: &Vec<String>) -> (r: Forest)
        requires
            self.wf(),
        ensures
            r.wf(),
            r.sets() == self.sets().filter(all_filter(tree_view(*items))),
    {
        let n = self.trees.len();
        let mut trees: Vec<Vec<String>> = Vec::new();
        let mut i: usize = 0;
        proof {
            assert(forest_view(trees) =~= Seq::<Seq<Seq<char>>>::empty());
            assert(sets_of(forest_view(trees)) =~= Set::<Set<Seq<char>>>::empty());
            assert(sets_of(self@.take(0)) =~= Set::<Set<Seq<char>>>::empty());
            assert(sets_of(forest_view(trees)) =~= sets_of(self@.take(0)).filter(
                all_filter(tree_view(*items)),
            ));
        }
        while i < n
            invariant
                n == self@.len(),
                i <= n,
                self.wf(),
                forest_sorted(forest_view(trees)),
                sets_of(forest_view(trees)) == sets_of(self@.take(i as int)).filter(
                    all_filter(tree_view(*items)),
                ),
            decreases n - i,
        {
            let keep = tree_has_all(&self.trees[i], items);
            proof {
                assert(tree_view(self.trees@[i as int]) == self@[i as int]);
            }
            if keep {
                let c = clone_tree(&self.trees[i]);
                proof {
                    assert(tree_view(c) == self@[i as int]);
                }
                insert_tree(&mut trees, c);
            }
            proof {
                lemma_sets_of_take_succ(self@, i as int);
                assert(all_filter(tree_view(*items))(self@[i as int].to_set()) == contains_all(
                    self@[i as int].to_set(),
                    tree_view(*items),
                ));
                assert(sets_of(forest_view(trees)) =~= sets_of(self@.take(i + 1)).filter(
                    all_filter(tree_view(*items)),
                ));
            }
            i = i + 1;
        }
        proof {
            assert(self@.take(n as int) =~= self@);
        }
        Forest { trees }
    }

    /// Keep only the member sets holding no item in `items`.
    pub fn subset_none(&self, items: &Vec<String>) -> (r: Forest)
        requires
            self.wf(),
        ensures
            r.wf(),
            r.sets() == self.sets().filter(none_filter(tree_view(*items))),
    {
        let n = self.trees.len();
        let mut trees: Vec<Vec<String>> = Vec::new();
        let mut i: usize = 0;
        proof {
            assert(forest_view(trees) =~= Seq::<Seq<Seq<char>>>::empty());
            assert(sets_of(forest_view(trees)) =~= Set::<Set<Seq<char>>>::empty());
            assert(sets_of(self@.take(0)) =~= Set::<Set<Seq<char>>>::empty());
            assert(sets_of(forest_view(trees)) =~= sets_of(self@.take(0)).filter(
                none_filter(tree_view(*items)),
            ));
        }
        while i < n
            invariant
                n == self@.len(),
                i <= n,
                self.wf(),
                forest_sorted(forest_view(trees)),
                sets_of(forest_view(trees)) == sets_of(self@.take(i as int)).filter(
                    none_filter(tree_view(*items)),
                ),
            decreases n - i,
        {
            let keep = tree_has_none(&self.trees[i], items);
            proof {
                assert(tree_view(self.trees@[i as int]) == self@[i as int]);
            }
            if keep {
                let c = clone_tree(&self.trees[i]);
                proof {
                    assert(tree_view(c) == self@[i as int]);
                }
                insert_tree(&mut trees, c);
            }
            proof {
                lemma_sets_of_take_succ(self@, i as int);
                assert(none_filter(tree_view(*items))(self@[i as int].to_set()) == contains_none(
                    self@[i as int].to_set(),
                    tree_view(*items),
                ));
                assert(sets_of(forest_view(trees)) =~= sets_of(self@.take(i + 1)).filter(
                    none_filter(tree_view(*items)),
                ));
            }
            i = i + 1;
        }
        proof {
            assert(self@.take(n as int) =~= self@);
        }
        Forest { trees }
    }
}

/// How many member sets of the enumeration hold `it`.
pub open spec fn occurrence_count(ts: Seq<Seq<Seq<char>>>, it: Seq<char>) -> nat
    decreases ts.len(),
{
    if ts.len() == 0 {
        0
    } else {
        occurrence_count(ts.drop_last(), it) + (if ts.last().to_set().contains(it) {
            1nat
        } else {
            0nat
        })
    }
}

/// The items that appear in at least one member set.
pub open spec fn support(ts: Seq<Seq<Seq<char>>>) -> Set<Seq<char>> {
    Set::new(
        |it: Seq<char>|
            exists|k: int| 0 <= k < ts.len() && #[trigger] ts[k].to_set().contains(it),
    )
}

pub open spec fn member_filter(it: Seq<char>) -> spec_fn(Set<Seq<char>>) -> bool {
    |s: Set<Seq<char>>| s.contains(it)
}

/// In a canonical forest the occurrence count of an item is the number of
/// member sets holding it.
pub proof fn lemma_occurrence_count_card(ts: Seq<Seq<Seq<char>>>, it: Seq<char>)
    requires
        forest_sorted(ts),
    ensures
        occurrence_count(ts, it) == sets_of(ts).filter(member_filter(it)).len(),
    decreases ts.len(),
{
    lemma_chars_order();
    lemma_items_order();
    if ts.len() == 0 {
        assert(sets_of(ts) =~= Set::<Set<Seq<char>>>::empty());
        assert(sets_of(ts).filter(member_filter(it)) =~= Set::<Set<Seq<char>>>::empty());
    } else {
        let n = ts.len() - 1;
        let front = ts.take(n);
        assert(front =~= ts.drop_last());
        assert(forest_sorted(front)) by {
            assert(forall|k: int| 0 <= k < front.len() ==> front[k] == ts[k]);
            assert forall|p: int, q: int| 0 <= p < q < front.len() implies #[trigger] items_lt_fn()(
                front[p],
                front[q],
            ) by {
                assert(items_lt_fn()(ts[p], ts[q]));
            }
        }
        lemma_occurrence_count_card(front, it);
        lemma_sets_of_card(front);
        lemma_sets_of_take_succ(ts, n);
        assert(ts.take(n + 1) =~= ts);
        let last = ts[n as int].to_set();
        if sets_of(front).contains(last) {
            let k = choose|k: int| 0 <= k < front.len() && last == front[k].to_set();
            lemma_chars_connex_on(ts[n as int].to_set().union(ts[k].to_set()));
            lemma_sorted_unique(chars_lt_fn(), ts[k], ts[n as int]);
            assert(items_lt_fn()(ts[k], ts[n as int]));
            assert(false);
        }
        sets_of(front).lemma_len_filter(member_filter(it));
        if member_filter(it)(last) {
            assert(sets_of(ts).filter(member_filter(it)) =~= sets_of(front).filter(
                member_filter(it),
            ).insert(last));
            assert(!sets_of(front).filter(member_filter(it)).contains(last));
        } else {
            assert(sets_of(ts).filter(member_filter(it)) =~= sets_of(front).filter(
                member_filter(it),
            ));
        }
    }
}

proof fn lemma_support_take_succ(ts: Seq<Seq<Seq<char>>>, i: int)
    requires
        0 <= i < ts.len(),
    ensures
        support(ts.take(i + 1)) == support(ts.take(i)).union(ts[i].to_set()),
{
    let lhs = support(ts.take(i + 1));
    let rhs = support(ts.take(i)).union(ts[i].to_set());
    assert forall|it: Seq<char>| lhs.contains(it) implies rhs.contains(it) by {
        let k = choose|k: int|
            0 <= k < ts.take(i + 1).len() && #[trigger] ts.take(i + 1)[k].to_set().contains(it);
        if k < i {
            assert(ts.take(i)[k].to_set().contains(it));
        } else {
            assert(ts[i].to_set().contains(it));
        }
    }
    assert forall|it: Seq<char>| rhs.contains(it) implies lhs.contains(it) by {
        if support(ts.take(i)).contains(it) {
            let k = choose|k: int|
                0 <= k < ts.take(i).len() && #[trigger] ts.take(i)[k].to_set().contains(it);
            assert(ts.take(i + 1)[k].to_set().contains(it));
        } else {
            assert(ts.take(i + 1)[i].to_set().contains(it));
        }
    }
    assert(lhs =~= rhs);
}

/// The item identifiers named by an occurrence listing.
pub open spec fn occurrence_keys(r: Seq<(String, usize)>) -> Seq<Seq<char>> {
    r.map_values(|p: (String, usize)| p.0@)
}

impl Forest {
    /// For each item appearing in some member set, in ascending item order,
    /// the number of member sets that hold it.
    pub fn occurrences(&self) -> (r: Vec<(String, usize)>)
        requires
            self.wf(),
        ensures
            tree_sorted(occurrence_keys(r@)),
            occurrence_keys(r@).to_set() == support(self@),
            forall|k: int|
                0 <= k < r@.len() ==> (#[trigger] r@[k]).1 == occurrence_count(self@, r@[k].0@),
    {
        let n = self.trees.len();
        let mut keys: Vec<String> = Vec::new();
        let mut i: usize = 0;
        proof {
            assert(tree_view(keys) =~= Seq::<Seq<char>>::empty());
            assert(tree_view(keys).to_set() =~= Set::<Seq<char>>::empty());
            assert forall|it: Seq<char>| support(self@.take(0)).contains(it) implies false by {
                let k = choose|k: int|
                    0 <= k < self@.take(0).len() && #[trigger] self@.take(0)[k].to_set().contains(
                        it,
                    );
            }
            assert(tree_view(keys).to_set() =~= support(self@.take(0)));
        }
        while i < n
            invariant
                n == self@.len(),
                i <= n,
                self.wf(),
                tree_sorted(tree_view(keys)),
                tree_view(keys).to_set() == support(self@.take(i as int)),
            decreases n - i,
        {
            let m = self.trees[i].len();
            let mut j: usize = 0;
            proof {
                assert(self@[i as int] == tree_view(self.trees@[i as int]));
                assert(self@[i as int].take(0).to_set() =~= Set::<Seq<char>>::empty());
                assert(tree_view(keys).to_set() =~= support(self@.take(i as int)).union(
                    self@[i as int].take(0).to_set(),
                ));
            }
            while j < m
                invariant
                    n == self@.len(),
                    0 <= i < n,
                    m == self.trees@[i as int]@.len(),
                    j <= m,
                    self.wf(),
                    tree_sorted(tree_view(keys)),
                    tree_view(keys).to_set() == support(self@.take(i as int)).union(
                        self@[i as int].take(j as int).to_set(),
                    ),
                decreases m - j,
            {
                let x = clone_string(&self.trees[i][j]);
                proof {
                    assert(self@[i as int] == tree_view(self.trees@[i as int]));
                    assert(x@ == self@[i as int][j as int]);
                }
                insert_item(&mut keys, x);
                proof {
                    let t = self@[i as int];
                    lemma_to_set_insert_mid(t.take(j as int), j as int, t[j as int]);
                    assert(t.take(j + 1) =~= t.take(j as int).insert(j as int, t[j as int]));
                    assert(tree_view(keys).to_set() =~= support(self@.take(i as int)).union(
                        t.take(j + 1).to_set(),
                    ));
                }
                j = j + 1;
            }
            proof {
                let t = self@[i as int];
                assert(t.take(m as int) =~= t);
                lemma_support_take_succ(self@, i as int);
                assert(tree_view(keys).to_set() =~= support(self@.take(i + 1)));
            }
            i = i + 1;
        }
        proof {
            assert(self@.take(n as int) =~= self@);
        }
        let kn = keys.len();
        let mut r: Vec<(String, usize)> = Vec::new();
        let mut k: usize = 0;
        proof {
            assert(occurrence_keys(r@) =~= tree_view(keys).take(0));
        }
        while k < kn
            invariant
                kn == keys@.len(),
                k <= kn,
                n == self@.len(),
                self.wf(),
                tree_sorted(tree_view(keys)),
                tree_view(keys).to_set() == support(self@),
                occurrence_keys(r@) == tree_view(keys).take(k as int),
                forall|p: int|
                    0 <= p < r@.len() ==> (#[trigger] r@[p]).1 == occurrence_count(self@, r@[p].0@),
            decreases kn - k,
        {
            let mut count: usize = 0;
            let mut t: usize = 0;
            proof {
                assert(self@.take(0) =~= Seq::<Seq<Seq<char>>>::empty());
            }
            while t < n
                invariant
                    n == self@.len(),
                    n == self.trees@.len(),
                    t <= n,
                    0 <= k < kn,
                    kn == keys@.len(),
                    count <= t,
                    count == occurrence_count(self@.take(t as int), keys@[k as int]@),
                decreases n - t,
            {
                let hit = tree_contains(&self.trees[t], &keys[k]);
                proof {
                    assert(self@[t as int] == tree_view(self.trees@[t as int]));
                    assert(self@.take(t + 1).drop_last() =~= self@.take(t as int));
                    assert(self@.take(t + 1).last() == self@[t as int]);
                }
                if hit {
                    count = count + 1;
                }
                t = t + 1;
            }
            proof {
                assert(self@.take(n as int) =~= self@);
            }
            let key = clone_string(&keys[k]);
            let ghost pre = r@;
            let ghost prekeys = occurrence_keys(r@);
            proof {
                assert(prekeys == pre.map_values(|p: (String, usize)| p.0@));
                assert(prekeys.len() == pre.len());
                assert(prekeys.len() == k as int);
                assert(forall|p: int| 0 <= p < k ==> #[trigger] prekeys[p] == pre[p].0@);
            }
            r.push((key, count));
            proof {
                assert(r@ == pre.push((key, count)));
                assert forall|p: int| 0 <= p < k + 1 implies occurrence_keys(r@)[p] == tree_view(
                    keys,
                ).take(k + 1)[p] by {
                    assert(occurrence_keys(r@)[p] == r@[p].0@);
                    if p < k {
                        assert(r@[p] == pre[p]);
                        assert(prekeys[p] == pre[p].0@);
                        assert(prekeys[p] == tree_view(keys).take(k as int)[p]);
                    } else {
                        assert(r@[p] == (key, count));
                        assert(key@ == keys@[k as int]@);
                    }
                }
                assert(occurrence_keys(r@) =~= tree_view(keys).take(k + 1));
            }
            k = k + 1;
        }
        proof {
            assert(tree_view(keys).take(kn as int) =~= tree_view(keys));
        }
        r
    }
}

impl Forest {
    /// The number of member sets holding `it`.
    pub fn count_item(&self, it: &String) -> (r: usize)
        ensures
            r == occurrence_count(self@, it@),
            r <= self@.len(),
    {
        let n = self.trees.len();
        let mut count: usize = 0;
        let mut t: usize = 0;
        proof {
            assert(self@.take(0) =~= Seq::<Seq<Seq<char>>>::empty());
        }
        while t < n
            invariant
                n == self@.len(),
                n == self.trees@.len(),
                t <= n,
                count <= t,
                count == occurrence_count(self@.take(t as int), it@),
            decreases n - t,
        {
            let hit = tree_contains(&self.trees[t], it);
            proof {
                assert(self@[t as int] == tree_view(self.trees@[t as int]));
                assert(self@.take(t + 1).drop_last() =~= self@.take(t as int));
                assert(self@.take(t + 1).last() == self@[t as int]);
            }
            if hit {
                count = count + 1;
            }
            t = t + 1;
        }
        proof {
            assert(self@.take(n as int) =~= self@);
        }
        count
    }
}

impl Forest {
    /// An owned copy representing the same family, with the same
    /// enumeration.
    pub fn duplicate(&self) -> (r: Forest)
        ensures
            r@ == self@,
    {
        Forest { trees: self.trees() }
    }
}

/// The product of two families does not depend on the order of its
/// arguments: each member is a union of one member set from each side.
/// Together with `lemma_forest_canonical` and the exact contracts of the
/// operations, this gives the algebraic laws of the kernel at the level of
/// forest values: both sides of a law represent the same family of sets,
/// so their canonical enumerations are equal.
pub proof fn lemma_product_family_commutes(x: Set<Set<Seq<char>>>, y: Set<Set<Seq<char>>>)
    ensures
        product_family(x, y) == product_family(y, x),
{
    assert forall|s: Set<Seq<char>>| product_family(x, y).contains(s) implies product_family(
        y,
        x,
    ).contains(s) by {
        let (sa, sb) = choose|sa: Set<Seq<char>>, sb: Set<Seq<char>>|
            x.contains(sa) && y.contains(sb) && s == sa.union(sb);
        assert(sa.union(sb) =~= sb.union(sa));
        assert(y.contains(sb) && x.contains(sa) && s == sb.union(sa));
    }
    assert forall|s: Set<Seq<char>>| product_family(y, x).contains(s) implies product_family(
        x,
        y,
    ).contains(s) by {
        let (sa, sb) = choose|sa: Set<Seq<char>>, sb: Set<Seq<char>>|
            y.contains(sa) && x.contains(sb) && s == sa.union(sb);
        assert(sa.union(sb) =~= sb.union(sa));
        assert(x.contains(sb) && y.contains(sa) && s == sb.union(sa));
    }
    assert(product_family(x, y) =~= product_family(y, x));
}

/// The product with the family `{{}}` changes nothing, and the product
/// with the empty family is empty.
pub proof fn lemma_product_family_identity(x: Set<Set<Seq<char>>>)
    ensures
        product_family(x, Set::<Set<Seq<char>>>::empty().insert(Set::empty())) == x,
        product_family(x, Set::<Set<Seq<char>>>::empty()) == Set::<Set<Seq<char>>>::empty(),
{
    let unit_family = Set::<Set<Seq<char>>>::empty().insert(Set::<Seq<char>>::empty());
    assert forall|s: Set<Seq<char>>| product_family(x, unit_family).contains(s) implies
        x.contains(s) by {
        let (sa, sb) = choose|sa: Set<Seq<char>>, sb: Set<Seq<char>>|
            x.contains(sa) && unit_family.contains(sb) && s == sa.union(sb);
        assert(sb == Set::<Seq<char>>::empty());
        assert(sa.union(sb) =~= sa);
    }
    assert forall|s: Set<Seq<char>>| x.contains(s) implies product_family(
        x,
        unit_family,
    ).contains(s) by {
        assert(unit_family.contains(Set::<Seq<char>>::empty()));
        assert(s.union(Set::<Seq<char>>::empty()) =~= s);
    }
    assert(product_family(x, unit_family) =~= x);
    assert forall|s: Set<Seq<char>>|
        product_family(x, Set::<Set<Seq<char>>>::empty()).contains(s) implies false by {
        let (sa, sb) = choose|sa: Set<Seq<char>>, sb: Set<Seq<char>>|
            x.contains(sa) && Set::<Set<Seq<char>>>::empty().contains(sb) && s == sa.union(sb);
    }
    assert(product_family(x, Set::<Set<Seq<char>>>::empty()) =~= Set::<Set<Seq<char>>>::empty());
}

/// Keeping supersets of `s` and then of `t` keeps exactly the supersets
/// of both: the subset filters are idempotent and commute.
pub proof fn lemma_subset_filters(a: Set<Set<Seq<char>>>, s: Seq<Seq<char>>, t: Seq<Seq<char>>)
    ensures
        a.filter(all_filter(s)).filter(all_filter(t)) == a.filter(all_filter(s + t)),
        a.filter(all_filter(s)).filter(all_filter(t)) == a.filter(all_filter(t)).filter(
            all_filter(s),
        ),
        a.filter(none_filter(s)).filter(none_filter(t)) == a.filter(none_filter(s + t)),
        a.filter(all_filter(s)).filter(none_filter(t)) == a.filter(none_filter(t)).filter(
            all_filter(s),
        ),
{
    assert forall|o: Set<Seq<char>>| #[trigger] contains_all(o, s + t) == (contains_all(o, s)
        && contains_all(o, t)) by {
        if contains_all(o, s + t) {
            assert forall|k: int| 0 <= k < s.len() implies o.contains(#[trigger] s[k]) by {
                assert((s + t)[k] == s[k]);
            }
            assert forall|k: int| 0 <= k < t.len() implies o.contains(#[trigger] t[k]) by {
                assert((s + t)[k + s.len()] == t[k]);
            }
        }
        if contains_all(o, s) && contains_all(o, t) {
            assert forall|k: int| 0 <= k < (s + t).len() implies o.contains(
                #[trigger] (s + t)[k],
            ) by {
                if k < s.len() {
                    assert((s + t)[k] == s[k]);
                } else {
                    assert((s + t)[k] == t[k - s.len()]);
                }
            }
        }
    }
    assert forall|o: Set<Seq<char>>| #[trigger] contains_none(o, s + t) == (contains_none(o, s)
        && contains_none(o, t)) by {
        if contains_none(o, s + t) {
            assert forall|k: int| 0 <= k < s.len() implies !o.contains(#[trigger] s[k]) by {
                assert((s + t)[k] == s[k]);
            }
            assert forall|k: int| 0 <= k < t.len() implies !o.contains(#[trigger] t[k]) by {
                assert((s + t)[k + s.len()] == t[k]);
            }
        }
        if contains_none(o, s) && contains_none(o, t) {
            assert forall|k: int| 0 <= k < (s + t).len() implies !o.contains(
                #[trigger] (s + t)[k],
            ) by {
                if k < s.len() {
                    assert((s + t)[k] == s[k]);
                } else {
                    assert((s + t)[k] == t[k - s.len()]);
                }
            }
        }
    }
    assert(a.filter(all_filter(s)).filter(all_filter(t)) =~= a.filter(all_filter(s + t)));
    assert(a.filter(all_filter(s)).filter(all_filter(t)) =~= a.filter(all_filter(t)).filter(
        all_filter(s),
    ));
    assert(a.filter(none_filter(s)).filter(none_filter(t)) =~= a.filter(none_filter(s + t)));
    assert(a.filter(all_filter(s)).filter(none_filter(t)) =~= a.filter(none_filter(t)).filter(
        all_filter(s),
    ));
}

} // verus!
