//! Laws of the order in which declarations and attributes are written.

use crate::c14n::{arranged, at_most, key_at_most, placed};
use crate::xml::Pair;
use vstd::prelude::*;

verus! {

/// Whether one string stands before another by the codes of their characters, or
/// is what the other begins with.
pub open spec fn precedes(a: Seq<char>, b: Seq<char>) -> bool {
    ||| exists|i: int|
        0 <= i < a.len() && i < b.len() && #[trigger] a.take(i) == b.take(i) && (a[i] as int) < (
        b[i] as int)
    ||| a.len() <= b.len() && b.take(a.len() as int) == a
}

/// Strings are ordered by code point: where two agree before some place and
/// differ there, the one whose character has the smaller code stands before the
/// other; and what a string begins with stands before it.
pub proof fn strings_are_ordered_by_code_point(a: Seq<char>, b: Seq<char>)
    ensures
        at_most(a, b) <==> precedes(a, b),
        forall|i: int|
            0 <= i < a.len() && i < b.len() && #[trigger] a.take(i) == b.take(i) && a[i] != b[i]
                ==> (at_most(a, b) <==> (a[i] as int) < (b[i] as int)),
    decreases a.len(),
{
    if a.len() == 0 {
        assert(b.take(0) =~= a);
    } else if b.len() == 0 {
    } else {
        let c = a.drop_first();
        let d = b.drop_first();
        strings_are_ordered_by_code_point(c, d);
        if a[0] != b[0] {
            assert(a.take(0) =~= b.take(0));
            assert forall|i: int|
                0 <= i < a.len() && i < b.len() && #[trigger] a.take(i) == b.take(i) implies i
                == 0 by {
                if i > 0 {
                    assert(a.take(i)[0] == b.take(i)[0]);
                }
            }
            if a.len() <= b.len() && b.take(a.len() as int) == a {
                assert(b.take(a.len() as int)[0] == b[0]);
            }
        } else {
            assert forall|i: int|
                0 < i <= a.len() && i <= b.len() implies (#[trigger] a.take(i) == b.take(i) <==> c.take(
                i - 1,
            ) == d.take(i - 1)) by {
                if a.take(i) == b.take(i) {
                    assert forall|k: int| 0 <= k < i - 1 implies #[trigger] c[k] == d[k] by {
                        assert(a.take(i)[k + 1] == b.take(i)[k + 1]);
                    }
                    assert(c.take(i - 1) =~= d.take(i - 1));
                }
                if c.take(i - 1) == d.take(i - 1) {
                    assert forall|k: int| 0 <= k < i implies #[trigger] a[k] == b[k] by {
                        if k > 0 {
                            assert(c.take(i - 1)[k - 1] == d.take(i - 1)[k - 1]);
                        }
                    }
                    assert(a.take(i) =~= b.take(i));
                }
            }
            if precedes(c, d) {
                if c.len() <= d.len() && d.take(c.len() as int) == c {
                    assert(c.take(c.len() as int) =~= c);
                    assert(a.take(a.len() as int) =~= a);
                    assert(a.take(a.len() as int) == b.take(a.len() as int));
                } else {
                    let k = choose|k: int|
                        0 <= k < c.len() && k < d.len() && #[trigger] c.take(k) == d.take(k) && (
                        c[k] as int) < (d[k] as int);
                    assert(a.take(k + 1) == b.take(k + 1));
                    assert(a[k + 1] == c[k] && b[k + 1] == d[k]);
                }
            }
            if precedes(a, b) {
                if a.len() <= b.len() && b.take(a.len() as int) == a {
                    assert(c.take(c.len() as int) =~= c);
                    assert(a.take(a.len() as int) =~= a);
                    assert(c.take(c.len() as int) == d.take(c.len() as int));
                } else {
                    let k = choose|k: int|
                        0 <= k < a.len() && k < b.len() && #[trigger] a.take(k) == b.take(k) && (
                        a[k] as int) < (b[k] as int);
                    assert(k > 0);
                    assert(c.take(k - 1) == d.take(k - 1));
                    assert(a[k] == c[k - 1] && b[k] == d[k - 1]);
                }
            }
            assert forall|i: int|
                0 <= i < a.len() && i < b.len() && #[trigger] a.take(i) == b.take(i) && a[i]
                    != b[i] implies (at_most(a, b) <==> (a[i] as int) < (b[i] as int)) by {
                assert(i > 0);
                assert(c.take(i - 1) == d.take(i - 1));
                assert(a[i] == c[i - 1] && b[i] == d[i - 1]);
            }
        }
    }
}

/// Of two strings, one stands at or before the other.
pub proof fn at_most_is_total(a: Seq<char>, b: Seq<char>)
    ensures
        at_most(a, b) || at_most(b, a),
    decreases a.len(),
{
    if a.len() > 0 && b.len() > 0 && a[0] == b[0] {
        at_most_is_total(a.drop_first(), b.drop_first());
    }
}

/// Strings that stand at or before each other are one string.
pub proof fn at_most_is_antisymmetric(a: Seq<char>, b: Seq<char>)
    requires
        at_most(a, b),
        at_most(b, a),
    ensures
        a == b,
    decreases a.len(),
{
    if a.len() > 0 && b.len() > 0 {
        at_most_is_antisymmetric(a.drop_first(), b.drop_first());
        assert(a =~= seq![a[0]] + a.drop_first());
        assert(b =~= seq![b[0]] + b.drop_first());
    } else {
        assert(a =~= b);
    }
}

/// What stands at or before a string stands at or before all that it does.
pub proof fn at_most_is_transitive(a: Seq<char>, b: Seq<char>, c: Seq<char>)
    requires
        at_most(a, b),
        at_most(b, c),
    ensures
        at_most(a, c),
    decreases a.len(),
{
    if a.len() > 0 && a[0] == b[0] && b[0] == c[0] {
        at_most_is_transitive(a.drop_first(), b.drop_first(), c.drop_first());
    }
}

/// Of two keys, one stands at or before the other.
pub proof fn key_at_most_is_total(a: Pair, b: Pair)
    ensures
        key_at_most(a, b) || key_at_most(b, a),
{
    at_most_is_total(a.0, b.0);
    at_most_is_total(a.1, b.1);
}

/// Keys that stand at or before each other are one key.
pub proof fn key_at_most_is_antisymmetric(a: Pair, b: Pair)
    requires
        key_at_most(a, b),
        key_at_most(b, a),
    ensures
        a == b,
{
    if a.0 != b.0 {
        at_most_is_antisymmetric(a.0, b.0);
    } else {
        at_most_is_antisymmetric(a.1, b.1);
    }
}

/// What stands at or before a key stands at or before all that it does.
pub proof fn key_at_most_is_transitive(a: Pair, b: Pair, c: Pair)
    requires
        key_at_most(a, b),
        key_at_most(b, c),
    ensures
        key_at_most(a, c),
{
    if a.0 == b.0 {
        if b.0 == c.0 {
            at_most_is_transitive(a.1, b.1, c.1);
        }
    } else if b.0 != c.0 {
        at_most_is_transitive(a.0, b.0, c.0);
        if a.0 == c.0 {
            at_most_is_antisymmetric(a.0, b.0);
        }
    }
}

/// Whether pairs stand in the order of their keys.
pub open spec fn in_order(pairs: Seq<Pair>, key: spec_fn(Pair) -> Pair) -> bool {
    forall|i: int, j: int|
        0 <= i <= j < pairs.len() ==> key_at_most(key(#[trigger] pairs[i]), key(#[trigger] pairs[j]))
}

/// Whether no two pairs have the same key.
pub open spec fn keys_distinct(pairs: Seq<Pair>, key: spec_fn(Pair) -> Pair) -> bool {
    forall|i: int, j: int|
        0 <= i < j < pairs.len() ==> key(#[trigger] pairs[i]) != key(#[trigger] pairs[j])
}

/// Where a pair is put among pairs in order.
proof fn lemma_place(sorted: Seq<Pair>, pair: Pair, key: spec_fn(Pair) -> Pair) -> (at: int)
    ensures
        0 <= at <= sorted.len(),
        placed(sorted, pair, key) == sorted.insert(at, pair),
        at > 0 ==> key_at_most(key(sorted[at - 1]), key(pair)),
        forall|i: int| at <= i < sorted.len() ==> !key_at_most(key(#[trigger] sorted[i]), key(pair)),
    decreases sorted.len(),
{
    if sorted.len() == 0 || key_at_most(key(sorted.last()), key(pair)) {
        assert(sorted.push(pair) =~= sorted.insert(sorted.len() as int, pair));
        sorted.len() as int
    } else {
        let at = lemma_place(sorted.drop_last(), pair, key);
        assert(sorted.drop_last().insert(at, pair).push(sorted.last()) =~= sorted.insert(at, pair));
        assert forall|i: int| at <= i < sorted.len() implies !key_at_most(
            key(#[trigger] sorted[i]),
            key(pair),
        ) by {
            if i < sorted.len() - 1 {
                assert(sorted.drop_last()[i] == sorted[i]);
            }
        }
        at
    }
}

/// Arranging puts pairs in the order of their keys.
pub proof fn arranged_is_in_order(pairs: Seq<Pair>, key: spec_fn(Pair) -> Pair)
    ensures
        in_order(arranged(pairs, key), key),
    decreases pairs.len(),
{
    if pairs.len() > 0 {
        let sorted = arranged(pairs.drop_last(), key);
        let pair = pairs.last();
        arranged_is_in_order(pairs.drop_last(), key);
        let at = lemma_place(sorted, pair, key);
        let all = sorted.insert(at, pair);
        assert forall|i: int, j: int| 0 <= i <= j < all.len() implies key_at_most(
            key(#[trigger] all[i]),
            key(#[trigger] all[j]),
        ) by {
            key_at_most_is_total(key(all[i]), key(all[j]));
            if i < at && j == at {
                assert(key_at_most(key(sorted[i]), key(sorted[at - 1])));
                key_at_most_is_transitive(key(sorted[i]), key(sorted[at - 1]), key(pair));
            } else if i < at && j < at {
                assert(key_at_most(key(sorted[i]), key(sorted[j])));
            } else if i < at && j > at {
                assert(key_at_most(key(sorted[i]), key(sorted[j - 1])));
            } else if i == at && j > at {
                assert(!key_at_most(key(sorted[j - 1]), key(pair)));
            } else if i > at {
                assert(key_at_most(key(sorted[i - 1]), key(sorted[j - 1])));
            }
        }
    }
}

/// Arranging keeps every pair, as often as it stood there, and adds none.
pub proof fn arranged_keeps_every_pair(pairs: Seq<Pair>, key: spec_fn(Pair) -> Pair)
    ensures
        arranged(pairs, key).to_multiset() == pairs.to_multiset(),
        arranged(pairs, key).len() == pairs.len(),
    decreases pairs.len(),
{
    broadcast use vstd::seq_lib::group_to_multiset_ensures;

    if pairs.len() > 0 {
        arranged_keeps_every_pair(pairs.drop_last(), key);
        let at = lemma_place(arranged(pairs.drop_last(), key), pairs.last(), key);
        assert(pairs =~= pairs.drop_last().push(pairs.last()));
        vstd::seq_lib::to_multiset_insert(arranged(pairs.drop_last(), key), at, pairs.last());
    }
}

/// Arranging keeps pairs of one key as they stood.
pub proof fn arranged_is_stable(pairs: Seq<Pair>, key: spec_fn(Pair) -> Pair, wanted: Pair)
    ensures
        arranged(pairs, key).filter(|pair: Pair| key(pair) == wanted) == pairs.filter(
            |pair: Pair| key(pair) == wanted,
        ),
    decreases pairs.len(),
{
    let p = |pair: Pair| key(pair) == wanted;
    reveal(Seq::filter);
    if pairs.len() > 0 {
        let sorted = arranged(pairs.drop_last(), key);
        let pair = pairs.last();
        arranged_is_stable(pairs.drop_last(), key, wanted);
        arranged_is_in_order(pairs.drop_last(), key);
        let at = lemma_place(sorted, pair, key);
        let front = sorted.take(at);
        let back = sorted.skip(at);
        assert(sorted =~= front + back);
        assert(sorted.insert(at, pair) =~= front + (seq![pair] + back));
        Seq::filter_distributes_over_add(front, back, p);
        Seq::filter_distributes_over_add(front, seq![pair] + back, p);
        Seq::filter_distributes_over_add(seq![pair], back, p);
        assert(seq![pair].drop_last() =~= Seq::empty());
        if p(pair) {
            assert forall|i: int| 0 <= i < back.len() implies !p(#[trigger] back[i]) by {
                assert(back[i] == sorted[at + i]);
                key_at_most_is_total(key(pair), key(pair));
            }
            lemma_none_kept(back, p);
            assert(sorted.insert(at, pair).filter(p) =~= sorted.filter(p).push(pair));
        } else {
            lemma_none_kept(seq![pair], p);
            assert(sorted.insert(at, pair).filter(p) =~= sorted.filter(p));
        }
    }
}

/// Of pairs none of which is wanted, none is kept.
proof fn lemma_none_kept(pairs: Seq<Pair>, p: spec_fn(Pair) -> bool)
    requires
        forall|i: int| 0 <= i < pairs.len() ==> !p(#[trigger] pairs[i]),
    ensures
        pairs.filter(p) == Seq::<Pair>::empty(),
    decreases pairs.len(),
{
    reveal(Seq::filter);
    if pairs.len() > 0 {
        lemma_none_kept(pairs.drop_last(), p);
    }
}

/// Pairs in order, of which no two have the same key, stand in the only order
/// they can.
proof fn lemma_order_is_unique(a: Seq<Pair>, b: Seq<Pair>, key: spec_fn(Pair) -> Pair)
    requires
        in_order(a, key),
        in_order(b, key),
        keys_distinct(a, key),
        a.to_multiset() == b.to_multiset(),
    ensures
        a == b,
    decreases a.len(),
{
    broadcast use vstd::seq_lib::group_to_multiset_ensures;

    vstd::seq_lib::to_multiset_len(a);
    vstd::seq_lib::to_multiset_len(b);
    if a.len() == 0 {
        assert(a =~= b);
    } else {
        let n = a.len() - 1;
        assert(a.to_multiset().count(b[n]) > 0) by {
            assert(b.contains(b[n]));
        }
        assert(b.to_multiset().count(a[n]) > 0) by {
            assert(a.contains(a[n]));
        }
        let i = choose|i: int| 0 <= i < a.len() && a[i] == b[n];
        let j = choose|j: int| 0 <= j < b.len() && b[j] == a[n];
        assert(key_at_most(key(a[i]), key(a[n])));
        assert(key_at_most(key(b[j]), key(b[n])));
        key_at_most_is_antisymmetric(key(a[n]), key(b[n]));
        assert(i == n);
        assert(a.drop_last() =~= a.remove(n));
        assert(b.drop_last() =~= b.remove(n));
        assert(a.remove(n).to_multiset() == a.to_multiset().remove(a[n]));
        assert(b.remove(n).to_multiset() == b.to_multiset().remove(b[n]));
        lemma_order_is_unique(a.drop_last(), b.drop_last(), key);
        assert(a =~= a.drop_last().push(a[n]));
        assert(b =~= b.drop_last().push(b[n]));
    }
}

/// Where no two pairs have the same key, the order they stood in makes no
/// difference to how they are arranged.
pub proof fn arranging_forgets_the_order(a: Seq<Pair>, b: Seq<Pair>, key: spec_fn(Pair) -> Pair)
    requires
        a.to_multiset() == b.to_multiset(),
        keys_distinct(a, key),
    ensures
        arranged(a, key) == arranged(b, key),
{
    arranged_is_in_order(a, key);
    arranged_is_in_order(b, key);
    arranged_keeps_every_pair(a, key);
    arranged_keeps_every_pair(b, key);
    lemma_distinct_arranged(a, key);
    lemma_order_is_unique(arranged(a, key), arranged(b, key), key);
}

/// Pairs of which no two have the same key are arranged to such pairs.
pub proof fn lemma_distinct_arranged(pairs: Seq<Pair>, key: spec_fn(Pair) -> Pair)
    requires
        keys_distinct(pairs, key),
    ensures
        keys_distinct(arranged(pairs, key), key),
    decreases pairs.len(),
{
    broadcast use vstd::seq_lib::group_to_multiset_ensures;

    if pairs.len() > 0 {
        let before = pairs.drop_last();
        let pair = pairs.last();
        let sorted = arranged(before, key);
        assert forall|i: int, j: int| 0 <= i < j < before.len() implies key(#[trigger] before[i])
            != key(#[trigger] before[j]) by {
            assert(key(pairs[i]) != key(pairs[j]));
        }
        lemma_distinct_arranged(before, key);
        arranged_keeps_every_pair(before, key);
        let at = lemma_place(sorted, pair, key);
        assert forall|i: int| 0 <= i < sorted.len() implies key(#[trigger] sorted[i]) != key(
            pair,
        ) by {
            assert(sorted.contains(sorted[i]));
            assert(before.to_multiset().count(sorted[i]) > 0);
            let k = choose|k: int| 0 <= k < before.len() && before[k] == sorted[i];
            assert(key(pairs[k]) != key(pairs[pairs.len() - 1]));
        }
        let all = sorted.insert(at, pair);
        assert forall|i: int, j: int| 0 <= i < j < all.len() implies key(#[trigger] all[i]) != key(
            #[trigger] all[j],
        ) by {
            let a = if i < at { i } else { i - 1 };
            let b = if j < at { j } else { j - 1 };
            if i != at && j != at {
                assert(key(sorted[a]) != key(sorted[b]));
            } else if i == at {
                assert(key(sorted[b]) != key(pair));
            } else {
                assert(key(sorted[a]) != key(pair));
            }
        }
    }
}

/// Pairs in order, of which no two have the same key, are told by which pairs
/// they are.
pub proof fn lemma_order_by_members(a: Seq<Pair>, b: Seq<Pair>, key: spec_fn(Pair) -> Pair)
    requires
        in_order(a, key),
        in_order(b, key),
        keys_distinct(a, key),
        keys_distinct(b, key),
        forall|pair: Pair| a.contains(pair) <==> b.contains(pair),
    ensures
        a == b,
    decreases a.len(),
{
    if a.len() == 0 || b.len() == 0 {
        if b.len() > 0 {
            assert(b.contains(b[0]));
        }
        if a.len() > 0 {
            assert(a.contains(a[0]));
        }
        assert(a =~= b);
    } else {
        let m = a.len() - 1;
        let n = b.len() - 1;
        assert(b.contains(b[n]) && a.contains(a[m]));
        let i = choose|i: int| 0 <= i < a.len() && a[i] == b[n];
        let j = choose|j: int| 0 <= j < b.len() && b[j] == a[m];
        assert(key_at_most(key(a[i]), key(a[m])));
        assert(key_at_most(key(b[j]), key(b[n])));
        key_at_most_is_antisymmetric(key(a[m]), key(b[n]));
        assert(i == m);
        let x = a.drop_last();
        let y = b.drop_last();
        assert forall|pair: Pair| x.contains(pair) implies y.contains(pair) by {
            let k = choose|k: int| 0 <= k < x.len() && x[k] == pair;
            assert(a[k] == pair);
            assert(key(a[k]) != key(a[m]));
            assert(a.contains(pair));
            let l = choose|l: int| 0 <= l < b.len() && b[l] == pair;
            assert(y[l] == pair);
        }
        assert forall|pair: Pair| y.contains(pair) implies x.contains(pair) by {
            let k = choose|k: int| 0 <= k < y.len() && y[k] == pair;
            assert(b[k] == pair);
            assert(key(b[k]) != key(b[n]));
            assert(b.contains(pair));
            let l = choose|l: int| 0 <= l < a.len() && a[l] == pair;
            assert(x[l] == pair);
        }
        lemma_order_by_members(x, y, key);
        assert(a =~= x.push(a[m]));
        assert(b =~= y.push(b[n]));
    }
}

/// What is in order is arranged as it stands.
pub proof fn what_is_in_order_stays(pairs: Seq<Pair>, key: spec_fn(Pair) -> Pair)
    requires
        in_order(pairs, key),
    ensures
        arranged(pairs, key) == pairs,
    decreases pairs.len(),
{
    if pairs.len() > 0 {
        let before = pairs.drop_last();
        assert forall|i: int, j: int| 0 <= i <= j < before.len() implies key_at_most(
            key(#[trigger] before[i]),
            key(#[trigger] before[j]),
        ) by {
            assert(key_at_most(key(pairs[i]), key(pairs[j])));
        }
        what_is_in_order_stays(before, key);
        if before.len() > 0 {
            assert(key_at_most(key(pairs[pairs.len() - 2]), key(pairs[pairs.len() - 1])));
        }
        assert(before.push(pairs.last()) =~= pairs);
    } else {
        assert(pairs =~= Seq::empty());
    }
}

} // verus!
