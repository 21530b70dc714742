//! Total orders used throughout the crate: lexicographic order on item
//! identifiers (character sequences) and on sorted sequences of identifiers,
//! together with the generic facts about strictly sorted sequences that make
//! sorted vectors a canonical set representation.

use vstd::prelude::*;

verus! {

/// Lexicographic order on character sequences, by Unicode code point.
/// The empty sequence comes first.
pub open spec fn chars_lt(a: Seq<char>, b: Seq<char>) -> bool
    decreases a.len(),
{
    if b.len() == 0 {
        false
    } else if a.len() == 0 {
        true
    } else if a[0] != b[0] {
        (a[0] as u32) < (b[0] as u32)
    } else {
        chars_lt(a.drop_first(), b.drop_first())
    }
}

/// A sequence is determined by its head and its tail.
proof fn lemma_head_tail_eq<T>(a: Seq<T>, b: Seq<T>)
    requires
        a.len() > 0,
        b.len() > 0,
        a[0] == b[0],
        a.drop_first() == b.drop_first(),
    ensures
        a == b,
{
    assert(a.drop_first().len() == a.len() - 1);
    assert(b.drop_first().len() == b.len() - 1);
    assert(a.len() == b.len());
    assert forall|i: int| 0 < i < a.len() implies a[i] == b[i] by {
        assert(a.drop_first()[i - 1] == a[i]);
        assert(b.drop_first()[i - 1] == b[i]);
    }
    assert(a =~= b);
}

/// Distinct characters have distinct code points.
proof fn lemma_char_ne(x: char, y: char)
    requires
        x != y,
    ensures
        (x as u32) != (y as u32),
{
}

pub proof fn lemma_chars_lt_connex(a: Seq<char>, b: Seq<char>)
    ensures
        a == b || chars_lt(a, b) || chars_lt(b, a),
    decreases a.len(),
{
    if a.len() == 0 && b.len() == 0 {
        assert(a =~= b);
    } else if a.len() > 0 && b.len() > 0 && a[0] == b[0] {
        lemma_chars_lt_connex(a.drop_first(), b.drop_first());
        if a.drop_first() == b.drop_first() {
            lemma_head_tail_eq(a, b);
        }
    } else if a.len() > 0 && b.len() > 0 {
        lemma_char_ne(a[0], b[0]);
    }
}

pub proof fn lemma_chars_lt_asym(a: Seq<char>, b: Seq<char>)
    ensures
        chars_lt(a, b) ==> !chars_lt(b, a) && a != b,
    decreases a.len(),
{
    if a.len() > 0 && b.len() > 0 && a[0] == b[0] {
        lemma_chars_lt_asym(a.drop_first(), b.drop_first());
        if chars_lt(a, b) && a == b {
            assert(a.drop_first() == b.drop_first());
        }
    }
}

pub proof fn lemma_chars_lt_trans(a: Seq<char>, b: Seq<char>, c: Seq<char>)
    requires
        chars_lt(a, b),
        chars_lt(b, c),
    ensures
        chars_lt(a, c),
    decreases a.len(),
{
    if a.len() > 0 && b.len() > 0 && c.len() > 0 {
        if a[0] == b[0] && b[0] == c[0] {
            lemma_chars_lt_trans(a.drop_first(), b.drop_first(), c.drop_first());
        }
    }
}

/// Relies on `Ord` for `str`: `<` on strings is lexicographic over the
/// underlying UTF-8 bytes, which coincides with lexicographic order by code
/// point over the character sequences the two strings hold.
#[verifier::external_body]
pub fn string_lt(a: &String, b: &String) -> (r: bool)
    ensures
        r == chars_lt(a@, b@),
{
    a < b
}

/// Lexicographic order on sequences of item identifiers: identifiers are
/// compared by `chars_lt`, and a strict prefix comes first.
pub open spec fn items_lt(a: Seq<Seq<char>>, b: Seq<Seq<char>>) -> bool
    decreases a.len(),
{
    if b.len() == 0 {
        false
    } else if a.len() == 0 {
        true
    } else if a[0] != b[0] {
        chars_lt(a[0], b[0])
    } else {
        items_lt(a.drop_first(), b.drop_first())
    }
}

pub proof fn lemma_items_lt_connex(a: Seq<Seq<char>>, b: Seq<Seq<char>>)
    ensures
        a == b || items_lt(a, b) || items_lt(b, a),
    decreases a.len(),
{
    if a.len() == 0 && b.len() == 0 {
        assert(a =~= b);
    } else if a.len() > 0 && b.len() > 0 {
        if a[0] == b[0] {
            lemma_items_lt_connex(a.drop_first(), b.drop_first());
            if a.drop_first() == b.drop_first() {
                lemma_head_tail_eq(a, b);
            }
        } else {
            lemma_chars_lt_connex(a[0], b[0]);
        }

    }
}

pub proof fn lemma_items_lt_asym(a: Seq<Seq<char>>, b: Seq<Seq<char>>)
    ensures
        items_lt(a, b) ==> !items_lt(b, a) && a != b,
    decreases a.len(),
{
    if a.len() > 0 && b.len() > 0 {
        if a[0] == b[0] {
            lemma_items_lt_asym(a.drop_first(), b.drop_first());
            if items_lt(a, b) && a == b {
                assert(a.drop_first() == b.drop_first());
            }
        } else {
            lemma_chars_lt_asym(a[0], b[0]);
            lemma_chars_lt_asym(b[0], a[0]);
        }
    }
}

pub proof fn lemma_items_lt_trans(a: Seq<Seq<char>>, b: Seq<Seq<char>>, c: Seq<Seq<char>>)
    requires
        items_lt(a, b),
        items_lt(b, c),
    ensures
        items_lt(a, c),
    decreases a.len(),
{
    if a.len() > 0 && b.len() > 0 && c.len() > 0 {
        if a[0] == b[0] && b[0] == c[0] {
            lemma_items_lt_trans(a.drop_first(), b.drop_first(), c.drop_first());
        } else if a[0] == b[0] {
            // a[0] == b[0], chars_lt(b[0], c[0])
        } else if b[0] == c[0] {
            // chars_lt(a[0], b[0]), b[0] == c[0]
        } else {
            lemma_chars_lt_trans(a[0], b[0], c[0]);
            lemma_chars_lt_asym(a[0], b[0]);
            lemma_chars_lt_asym(b[0], c[0]);
            lemma_chars_lt_asym(a[0], c[0]);
            if a[0] == c[0] {
                lemma_chars_lt_trans(b[0], c[0], b[0]);
            }
        }
    }
}

/// A sequence is strictly ascending under the order `lt`.
pub open spec fn pairwise_sorted<T>(lt: spec_fn(T, T) -> bool, s: Seq<T>) -> bool {
    forall|i: int, j: int| 0 <= i < j < s.len() ==> #[trigger] lt(s[i], s[j])
}

pub open spec fn order_asymmetric<T>(lt: spec_fn(T, T) -> bool) -> bool {
    forall|x: T, y: T| #[trigger] lt(x, y) ==> !lt(y, x) && x != y
}

pub open spec fn order_transitive<T>(lt: spec_fn(T, T) -> bool) -> bool {
    forall|x: T, y: T, z: T| #[trigger] lt(x, y) && #[trigger] lt(y, z) ==> lt(x, z)
}

/// Any two distinct members of `s` are comparable under `lt`.
pub open spec fn order_connex_on<T>(lt: spec_fn(T, T) -> bool, s: Set<T>) -> bool {
    forall|x: T, y: T|
        #[trigger] s.contains(x) && #[trigger] s.contains(y) && x != y ==> lt(x, y) || lt(y, x)
}

pub proof fn lemma_sorted_no_duplicates<T>(lt: spec_fn(T, T) -> bool, s: Seq<T>)
    requires
        order_asymmetric(lt),
        pairwise_sorted(lt, s),
    ensures
        s.no_duplicates(),
{
    assert forall|i: int, j: int| 0 <= i < s.len() && 0 <= j < s.len() && i != j implies s[i]
        != s[j] by {
        if i < j {
            assert(lt(s[i], s[j]));
        } else {
            assert(lt(s[j], s[i]));
        }
    }
}

/// A strictly sorted sequence is determined by the set of its members: two
/// strictly sorted enumerations of the same set are equal.
pub proof fn lemma_sorted_unique<T>(lt: spec_fn(T, T) -> bool, a: Seq<T>, b: Seq<T>)
    requires
        order_asymmetric(lt),
        order_transitive(lt),
        order_connex_on(lt, a.to_set().union(b.to_set())),
        pairwise_sorted(lt, a),
        pairwise_sorted(lt, b),
        a.to_set() == b.to_set(),
    ensures
        a == b,
    decreases a.len(),
{
    if a.len() == 0 {
        if b.len() > 0 {
            assert(b.to_set().contains(b[0]));
            assert(a.to_set().contains(b[0]));
            assert(false);
        }
        assert(a =~= b);
    } else if b.len() == 0 {
        assert(a.to_set().contains(a[0]));
        assert(false);
    } else {
        // The heads are both the unique minimum of the common member set.
        assert(a.to_set().contains(a[0]));
        assert(b.to_set().contains(b[0]));
        if a[0] != b[0] {
            assert(a.to_set().union(b.to_set()).contains(a[0]));
            assert(a.to_set().union(b.to_set()).contains(b[0]));
            if lt(a[0], b[0]) {
                let i = choose|i: int| 0 <= i < b.len() && b[i] == a[0];
                assert(b.to_set().contains(a[0]));
                assert(b.contains(a[0]));
                assert(i > 0);
                assert(lt(b[0], b[i]));
            } else {
                assert(lt(b[0], a[0]));
                let i = choose|i: int| 0 <= i < a.len() && a[i] == b[0];
                assert(a.to_set().contains(b[0]));
                assert(a.contains(b[0]));
                assert(i > 0);
                assert(lt(a[0], a[i]));
            }
            assert(false);
        }
        let ta = a.drop_first();
        let tb = b.drop_first();
        assert forall|x: T| ta.to_set().contains(x) implies tb.to_set().contains(x) by {
            assert(ta.contains(x));
            let i = choose|i: int| 0 <= i < ta.len() && ta[i] == x;
            assert(a[i + 1] == x);
            assert(lt(a[0], x));
            assert(a.to_set().contains(x));
            assert(b.contains(x));
            let j = choose|j: int| 0 <= j < b.len() && b[j] == x;
            assert(j > 0);
            assert(tb[j - 1] == x);
            assert(tb.contains(x));
        }
        assert forall|x: T| tb.to_set().contains(x) implies ta.to_set().contains(x) by {
            assert(tb.contains(x));
            let i = choose|i: int| 0 <= i < tb.len() && tb[i] == x;
            assert(b[i + 1] == x);
            assert(lt(b[0], x));
            assert(b.to_set().contains(x));
            assert(a.contains(x));
            let j = choose|j: int| 0 <= j < a.len() && a[j] == x;
            assert(j > 0);
            assert(ta[j - 1] == x);
            assert(ta.contains(x));
        }
        assert(ta.to_set() =~= tb.to_set());
        assert forall|x: T| ta.to_set().union(tb.to_set()).contains(x) implies a.to_set().union(
            b.to_set(),
        ).contains(x) by {
            if ta.to_set().contains(x) {
                assert(ta.contains(x));
                let i = choose|i: int| 0 <= i < ta.len() && ta[i] == x;
                assert(a[i + 1] == x);
                assert(a.contains(x));
                assert(a.to_set().contains(x));
            } else {
                assert(tb.contains(x));
                let i = choose|i: int| 0 <= i < tb.len() && tb[i] == x;
                assert(b[i + 1] == x);
                assert(b.contains(x));
                assert(b.to_set().contains(x));
            }
        }
        assert(pairwise_sorted(lt, ta)) by {
            assert forall|i: int, j: int| 0 <= i < j < ta.len() implies #[trigger] lt(
                ta[i],
                ta[j],
            ) by {
                assert(lt(a[i + 1], a[j + 1]));
            }
        }
        assert(pairwise_sorted(lt, tb)) by {
            assert forall|i: int, j: int| 0 <= i < j < tb.len() implies #[trigger] lt(
                tb[i],
                tb[j],
            ) by {
                assert(lt(b[i + 1], b[j + 1]));
            }
        }
        lemma_sorted_unique(lt, ta, tb);
        lemma_head_tail_eq(a, b);
    }
}

} // verus!

