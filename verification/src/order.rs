//! The order of names: byte by byte, as strings compare.

use vstd::prelude::*;
use vstd::string::*;

verus! {

/// Whether text `a` comes before text `b`, from byte `from` on, where the
/// two are the same before it: at the first byte in which they differ `a`
/// has the smaller one, or `a` ends there and `b` goes on.
pub open spec fn precedes_from(a: Seq<u8>, b: Seq<u8>, from: int) -> bool
    decreases b.len() - from,
{
    if from < 0 || from >= b.len() {
        false
    } else if from >= a.len() {
        true
    } else if a[from] != b[from] {
        a[from] < b[from]
    } else {
        precedes_from(a, b, from + 1)
    }
}

/// Whether text `a` comes before text `b`.
pub open spec fn precedes(a: Seq<u8>, b: Seq<u8>) -> bool {
    precedes_from(a, b, 0)
}

/// Tells whether `a` comes before `b`.
pub fn less(a: &str, b: &str) -> (before: bool)
    ensures
        before == precedes(a.spec_bytes(), b.spec_bytes()),
{
    let x = a.as_bytes();
    let y = b.as_bytes();
    let mut at: usize = 0;
    loop
        invariant
            x@ == a.spec_bytes(),
            y@ == b.spec_bytes(),
            at <= x@.len(),
            at <= y@.len(),
            precedes_from(x@, y@, at as int) == precedes(x@, y@),
        decreases y@.len() - at,
    {
        if at >= y.len() {
            return false;
        }
        if at >= x.len() {
            return true;
        }
        if x[at] != y[at] {
            return x[at] < y[at];
        }
        at = at + 1;
    }
}

/// Whether two texts are the same from byte `from` on.
spec fn same_from(a: Seq<u8>, b: Seq<u8>, from: int) -> bool {
    a.len() == b.len() && forall|i: int| from <= i < a.len() ==> a[i] == b[i]
}

/// Of two texts that are the same up to a byte, one comes before the other
/// from there on unless they are the same; never both.
proof fn lemma_one_precedes_from(a: Seq<u8>, b: Seq<u8>, from: int)
    requires
        0 <= from <= a.len(),
        from <= b.len(),
    ensures
        precedes_from(a, b, from) || precedes_from(b, a, from) || same_from(a, b, from),
        !(precedes_from(a, b, from) && precedes_from(b, a, from)),
        !(precedes_from(a, b, from) && same_from(a, b, from)),
    decreases a.len() - from,
{
    if from < a.len() && from < b.len() && a[from] == b[from] {
        lemma_one_precedes_from(a, b, from + 1);
    }
}

/// The order is strict and total: of two texts exactly one of three holds,
/// the first comes before the second, the second before the first, or they
/// are the same.
pub proof fn lemma_order_total(a: Seq<u8>, b: Seq<u8>)
    ensures
        precedes(a, b) || precedes(b, a) || a == b,
        !(precedes(a, b) && precedes(b, a)),
        !precedes(a, a),
{
    lemma_one_precedes_from(a, b, 0);
    lemma_one_precedes_from(a, a, 0);
    if same_from(a, b, 0) {
        assert(a =~= b);
    }
}

/// The order from a byte on is transitive for texts that are the same
/// before that byte.
proof fn lemma_precedes_from_transitive(a: Seq<u8>, b: Seq<u8>, c: Seq<u8>, from: int)
    requires
        0 <= from,
        precedes_from(a, b, from),
        precedes_from(b, c, from),
    ensures
        precedes_from(a, c, from),
    decreases c.len() - from,
{
    if from < a.len() && from < b.len() && from < c.len() && a[from] == b[from] && b[from]
        == c[from] {
        lemma_precedes_from_transitive(a, b, c, from + 1);
    }
}

/// The order is transitive.
pub proof fn lemma_order_transitive(a: Seq<u8>, b: Seq<u8>, c: Seq<u8>)
    requires
        precedes(a, b),
        precedes(b, c),
    ensures
        precedes(a, c),
{
    lemma_precedes_from_transitive(a, b, c, 0);
}

/// Of three texts, where neither the first comes before the second nor the
/// second before the third, the first does not come before the third.
pub proof fn lemma_order_keeps_ties(a: Seq<u8>, b: Seq<u8>, c: Seq<u8>)
    requires
        !precedes(a, b),
        !precedes(b, c),
    ensures
        !precedes(a, c),
{
    lemma_order_total(a, b);
    lemma_order_total(b, c);
    lemma_order_total(a, c);
    if precedes(a, c) {
        if a == b {
        } else if b == c {
        } else {
            lemma_order_transitive(c, b, a);
        }
    }
}

/// Values with a rank, by which they can be put in order.
pub trait Ranked: Sized {
    /// Whether `self` is to stand before `other`.
    spec fn ranks_before(&self, other: &Self) -> bool;

    /// Tells whether `self` is to stand before `other`.
    fn stands_before(&self, other: &Self) -> (before: bool)
        ensures
            before == self.ranks_before(other),
    ;

    /// No two values stand before one another.
    proof fn lemma_rank_one_way(a: &Self, b: &Self)
        ensures
            !(a.ranks_before(b) && b.ranks_before(a)),
    ;

    /// Where neither the first of three values stands before the second nor
    /// the second before the third, the first does not stand before the third.
    proof fn lemma_rank_keeps_ties(a: &Self, b: &Self, c: &Self)
        requires
            !a.ranks_before(b),
            !b.ranks_before(c),
        ensures
            !a.ranks_before(c),
    ;
}

/// Where `item` goes among `sorted` from index `from` on: before the first
/// value that does not stand before it.
pub open spec fn place_from<T: Ranked>(sorted: Seq<T>, item: T, from: int) -> int
    decreases sorted.len() - from,
{
    if from < 0 || from >= sorted.len() || !sorted[from].ranks_before(&item) {
        from
    } else {
        place_from(sorted, item, from + 1)
    }
}

/// The values in order: each before the first of the values behind it that
/// does not stand before it, so that values of one rank keep their order.
pub open spec fn in_order<T: Ranked>(items: Seq<T>) -> Seq<T>
    decreases items.len(),
{
    if items.len() == 0 {
        items
    } else {
        let behind = in_order(items.drop_first());
        behind.insert(place_from(behind, items[0], 0), items[0])
    }
}

/// Whether no value stands before an earlier one.
pub open spec fn is_ordered<T: Ranked>(items: Seq<T>) -> bool {
    forall|i: int, j: int| 0 <= i < j < items.len() ==> !(#[trigger] items[j]).ranks_before(
        #[trigger] &items[i],
    )
}

/// The place of a value lies among the values; those before it stand
/// before the value, and the one at it, if any, does not.
pub proof fn lemma_place_from<T: Ranked>(sorted: Seq<T>, item: T, from: int)
    requires
        0 <= from <= sorted.len(),
    ensures
        from <= place_from(sorted, item, from) <= sorted.len(),
        forall|k: int|
            from <= k < place_from(sorted, item, from) ==>
                (#[trigger] sorted[k]).ranks_before(&item),
        place_from(sorted, item, from) < sorted.len() ==> !sorted[place_from(
            sorted,
            item,
            from,
        )].ranks_before(&item),
    decreases sorted.len() - from,
{
    if from < sorted.len() && sorted[from].ranks_before(&item) {
        lemma_place_from(sorted, item, from + 1);
    }
}

/// Putting values in order keeps each of them, as often as it was there.
pub proof fn lemma_in_order_keeps_all<T: Ranked>(items: Seq<T>)
    ensures
        in_order(items).len() == items.len(),
        in_order(items).to_multiset() == items.to_multiset(),
    decreases items.len(),
{
    broadcast use vstd::multiset::group_multiset_axioms;

    if items.len() == 0 {
    } else {
        let rest = items.drop_first();
        let behind = in_order(rest);
        lemma_in_order_keeps_all(rest);
        lemma_place_from(behind, items[0], 0);
        vstd::seq_lib::to_multiset_insert(behind, place_from(behind, items[0], 0), items[0]);
        vstd::seq_lib::to_multiset_insert(rest, 0, items[0]);
        assert(rest.insert(0, items[0]) =~= items);
    }
}

/// The values in order are ordered.
pub proof fn lemma_in_order_is_ordered<T: Ranked>(items: Seq<T>)
    ensures
        is_ordered(in_order(items)),
    decreases items.len(),
{
    if items.len() > 0 {
        let item = items[0];
        let behind = in_order(items.drop_first());
        let place = place_from(behind, item, 0);
        let all = in_order(items);
        lemma_in_order_is_ordered(items.drop_first());
        lemma_place_from(behind, item, 0);
        assert forall|i: int, j: int| 0 <= i < j < all.len() implies
        !(#[trigger] all[j]).ranks_before(
            #[trigger] &all[i],
        ) by {
            if j < place {
                assert(all[i] == behind[i] && all[j] == behind[j]);
            } else if j == place {
                assert(all[i] == behind[i]);
                T::lemma_rank_one_way(&item, &behind[i]);
            } else if i < place {
                assert(all[i] == behind[i] && all[j] == behind[j - 1]);
            } else if i == place {
                assert(all[j] == behind[j - 1]);
                if place < j - 1 {
                    assert(!behind[j - 1].ranks_before(&behind[place]));
                    T::lemma_rank_keeps_ties(&behind[j - 1], &behind[place], &item);
                }
            } else {
                assert(all[i] == behind[i - 1] && all[j] == behind[j - 1]);
            }
        }
    }
}

/// Puts the values in order. Values of one rank keep their order.
pub fn sort_ranked<T: Ranked>(items: &mut Vec<T>)
    ensures
        final(items)@ == in_order(old(items)@),
{
    let ghost given = items@;
    let mut sorted: Vec<T> = Vec::new();
    assert(given.skip(given.len() as int) =~= Seq::<T>::empty());
    while items.len() > 0
        invariant
            items@.len() <= given.len(),
            items@ == given.take(items@.len() as int),
            sorted@ == in_order(given.skip(items@.len() as int)),
        decreases items@.len(),
    {
        let ghost left = items@.len();
        let item = items.pop().unwrap();
        let mut at: usize = 0;
        while at < sorted.len() && sorted[at].stands_before(&item)
            invariant
                at <= sorted@.len(),
                place_from(sorted@, item, at as int) == place_from(sorted@, item, 0),
            decreases sorted@.len() - at,
        {
            at = at + 1;
        }
        proof {
            let tail = given.skip(left - 1);
            assert(tail[0] == item);
            assert(tail.drop_first() =~= given.skip(left as int));
            assert(items@ =~= given.take(left - 1));
        }
        sorted.insert(at, item);
    }
    proof {
        assert(given.skip(0) =~= given);
    }
    *items = sorted;
}

} // verus!
