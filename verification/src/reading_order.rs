//! Reading order: page objects arranged top to bottom and, within a line,
//! left to right.
//!
//! The pairwise rule that ranks two objects is no order on every page:
//! where lines overlap untidily it can rank two objects both ways, or
//! neither way. The objects are sorted only where the rule orders them
//! strictly; on any other page they stay as they were given.

use crate::page_object::PdfPageObject;
use crate::points::PdfPoints;
use iter_tools::Itertools;
use std::cmp::Ordering;
use vstd::prelude::*;

verus! {

/// A page object together with the edges it is ordered by. An object
/// without bounds is placed at the zero rectangle.
#[derive(Clone, Copy, Debug)]
pub struct PositionedObject<'a> {
    pub top: PdfPoints,
    pub bottom: PdfPoints,
    pub left: PdfPoints,
    pub right: PdfPoints,
    pub object: &'a PdfPageObject,
}

/// Whether `a` comes before `b` in reading order: `a` lies wholly above
/// `b`, or the two share a line and `a` lies wholly to the left of `b`.
pub open spec fn precedes(a: PositionedObject<'_>, b: PositionedObject<'_>) -> bool {
    if b.top.value < a.bottom.value {
        true
    } else if a.top.value < b.bottom.value {
        false
    } else {
        a.right.value < b.left.value
    }
}

/// Whether `precedes` is a strict total order on the places of `items`:
/// nothing precedes itself, of two items at different places exactly one
/// precedes the other, and what precedes an item precedes all that the
/// item precedes.
pub open spec fn strictly_ordered(items: Seq<PositionedObject<'_>>) -> bool {
    &&& forall|i: int| 0 <= i < items.len() ==> !precedes(#[trigger] items[i], items[i])
    &&& forall|i: int, j: int|
        0 <= i < j < items.len() ==> precedes(#[trigger] items[i], #[trigger] items[j])
            != precedes(items[j], items[i])
    &&& forall|i: int, j: int, k: int|
        0 <= i < items.len() && 0 <= j < items.len() && 0 <= k < items.len() && #[trigger] precedes(
            items[i],
            items[j],
        ) && #[trigger] precedes(items[j], items[k]) ==> precedes(items[i], items[k])
}

/// Whether every item of `items` precedes every item behind it.
pub open spec fn in_reading_order(items: Seq<PositionedObject<'_>>) -> bool {
    forall|i: int, j: int|
        0 <= i < j < items.len() ==> precedes(#[trigger] items[i], #[trigger] items[j])
}

/// How many of the first `n` items of `items` precede the item at `i`.
pub open spec fn earlier_count(items: Seq<PositionedObject<'_>>, i: int, n: int) -> nat
    decreases n,
{
    if n <= 0 {
        0
    } else {
        earlier_count(items, i, n - 1) + if precedes(items[n - 1], items[i]) {
            1nat
        } else {
            0nat
        }
    }
}

/// Whether `a` comes before `b` in reading order.
pub fn comes_before(a: &PositionedObject, b: &PositionedObject) -> (before: bool)
    ensures
        before == precedes(*a, *b),
{
    if b.top.value < a.bottom.value {
        true
    } else if a.top.value < b.bottom.value {
        false
    } else {
        a.right.value < b.left.value
    }
}

/// The comparator of reading order: `Less` where `a` comes before `b`,
/// `Greater` in every other case. It never answers `Equal`.
pub fn reading_order(a: &PositionedObject, b: &PositionedObject) -> (order: Ordering)
    ensures
        precedes(*a, *b) ==> order == Ordering::Less,
        !precedes(*a, *b) ==> order == Ordering::Greater,
{
    if comes_before(a, b) {
        Ordering::Less
    } else {
        Ordering::Greater
    }
}

proof fn lemma_earlier_count_bound(items: Seq<PositionedObject<'_>>, i: int, n: int)
    requires
        0 <= n,
    ensures
        earlier_count(items, i, n) <= n,
    decreases n,
{
    if n > 0 {
        lemma_earlier_count_bound(items, i, n - 1);
    }
}

/// On a strictly ordered sequence an item that precedes another has fewer
/// items before it, counted over any prefix that holds the first one.
proof fn lemma_earlier_count_grows(items: Seq<PositionedObject<'_>>, i: int, j: int, n: int)
    requires
        strictly_ordered(items),
        0 <= i < items.len(),
        0 <= j < items.len(),
        0 <= n <= items.len(),
        precedes(items[i], items[j]),
    ensures
        earlier_count(items, i, n) <= earlier_count(items, j, n),
        i < n ==> earlier_count(items, i, n) < earlier_count(items, j, n),
    decreases n,
{
    if n > 0 {
        lemma_earlier_count_grows(items, i, j, n - 1);
        let k = n - 1;
        if precedes(items[k], items[i]) {
            assert(precedes(items[k], items[j]));
        }
        if k == i {
            assert(!precedes(items[i], items[i]));
        }
    }
}

/// On a strictly ordered sequence the counts of earlier items tell the
/// order of any two items at different places.
proof fn lemma_counts_tell_order(items: Seq<PositionedObject<'_>>, i: int, j: int)
    requires
        strictly_ordered(items),
        0 <= i < items.len(),
        0 <= j < items.len(),
        i != j,
    ensures
        precedes(items[i], items[j]) <==> earlier_count(items, i, items.len() as int)
            < earlier_count(items, j, items.len() as int),
        earlier_count(items, i, items.len() as int) != earlier_count(
            items,
            j,
            items.len() as int,
        ),
{
    let n = items.len() as int;
    if i < j {
        assert(precedes(items[i], items[j]) != precedes(items[j], items[i]));
    } else {
        assert(precedes(items[j], items[i]) != precedes(items[i], items[j]));
    }
    if precedes(items[i], items[j]) {
        lemma_earlier_count_grows(items, i, j, n);
    } else {
        lemma_earlier_count_grows(items, j, i, n);
    }
}

/// Counts that tell the order of every two items witness a strict order.
proof fn lemma_ranked_is_strictly_ordered(items: Seq<PositionedObject<'_>>, ranks: Seq<usize>)
    requires
        ranks.len() == items.len(),
        forall|i: int| 0 <= i < items.len() ==> !precedes(#[trigger] items[i], items[i]),
        forall|i: int, j: int|
            0 <= i < items.len() && 0 <= j < items.len() && i != j ==> (precedes(
                #[trigger] items[i],
                #[trigger] items[j],
            ) <==> ranks[i] < ranks[j]) && ranks[i] != ranks[j],
    ensures
        strictly_ordered(items),
{
    assert forall|i: int, j: int, k: int|
        0 <= i < items.len() && 0 <= j < items.len() && 0 <= k < items.len() && #[trigger] precedes(
            items[i],
            items[j],
        ) && #[trigger] precedes(items[j], items[k]) implies precedes(items[i], items[k]) by {
        assert(i != j);
        assert(j != k);
        assert(ranks[i] < ranks[j] < ranks[k]);
        assert(i != k);
    }
}

/// How many items of `items` precede the item at `place`.
fn count_earlier(items: &Vec<PositionedObject>, place: usize) -> (count: usize)
    requires
        place < items.len(),
    ensures
        count == earlier_count(items@, place as int, items.len() as int),
{
    let mut count: usize = 0;
    let mut k: usize = 0;
    while k < items.len()
        invariant
            k <= items.len(),
            place < items.len(),
            count == earlier_count(items@, place as int, k as int),
        decreases items.len() - k,
    {
        proof {
            lemma_earlier_count_bound(items@, place as int, k as int);
        }
        if comes_before(&items[k], &items[place]) {
            count = count + 1;
        }
        k = k + 1;
    }
    count
}

/// Whether reading order is a strict total order on `items`, so that
/// sorting them is well defined.
pub fn is_strictly_ordered(items: &Vec<PositionedObject>) -> (ordered: bool)
    ensures
        ordered == strictly_ordered(items@),
{
    let n = items.len();
    let mut ranks: Vec<usize> = Vec::new();
    let mut filled: usize = 0;
    while filled < n
        invariant
            n == items.len(),
            filled <= n,
            ranks.len() == filled,
            forall|i: int|
                0 <= i < filled ==> #[trigger] ranks[i] == earlier_count(items@, i, n as int),
        decreases n - filled,
    {
        let count = count_earlier(items, filled);
        ranks.push(count);
        filled = filled + 1;
    }
    let mut i: usize = 0;
    while i < n
        invariant
            n == items.len(),
            i <= n,
            ranks.len() == n,
            forall|a: int| 0 <= a < n ==> #[trigger] ranks[a] == earlier_count(items@, a, n as int),
            forall|a: int| 0 <= a < i ==> !precedes(#[trigger] items[a], items[a]),
            forall|a: int, b: int|
                0 <= a < i && 0 <= b < n && a != b ==> (precedes(
                    #[trigger] items[a],
                    #[trigger] items[b],
                ) <==> ranks[a] < ranks[b]) && ranks[a] != ranks[b],
        decreases n - i,
    {
        let mut j: usize = 0;
        while j < n
            invariant
                n == items.len(),
                i < n,
                j <= n,
                ranks.len() == n,
                forall|a: int|
                    0 <= a < n ==> #[trigger] ranks[a] == earlier_count(items@, a, n as int),
                forall|b: int|
                    0 <= b < j && b != i ==> (precedes(items[i as int], #[trigger] items[b])
                        <==> ranks[i as int] < ranks[b]) && ranks[i as int] != ranks[b],
                j > i ==> !precedes(items[i as int], items[i as int]),
            decreases n - j,
        {
            let before = comes_before(&items[i], &items[j]);
            if i == j {
                if before {
                    return false;
                }
            } else if before != (ranks[i] < ranks[j]) || ranks[i] == ranks[j] {
                proof {
                    if strictly_ordered(items@) {
                        lemma_counts_tell_order(items@, i as int, j as int);
                    }
                }
                return false;
            }
            j = j + 1;
        }
        i = i + 1;
    }
    proof {
        lemma_ranked_is_strictly_ordered(items@, ranks@);
    }
    true
}

/// `Itertools::sorted_by` of the `iter_tools` crate, which collects the
/// items and sorts them with the stable `slice::sort_by` of std, here by
/// `reading_order`. A sort by a comparator that is no total order may
/// leave the items in any order, or panic; so the sort is called only
/// where reading order is a strict total order on the items, which
/// `requires` asks for. The contract claims that the result holds the
/// same items, each as often as before, and that no item comes before
/// one that is behind it in the result.
#[verifier::external_body]
fn sorted_by_reading_order<'a>(items: Vec<PositionedObject<'a>>) -> (sorted: Vec<
    PositionedObject<'a>,
>)
    requires
        strictly_ordered(items@),
    ensures
        sorted@.to_multiset() == items@.to_multiset(),
        forall|i: int, j: int|
            0 <= i < j < sorted@.len() ==> !precedes(#[trigger] sorted@[j], #[trigger] sorted@[i]),
{
    items.into_iter().sorted_by(|a, b| reading_order(a, b)).collect()
}

/// A strictly ordered sequence holds no item twice.
pub proof fn lemma_strictly_ordered_is_distinct(items: Seq<PositionedObject<'_>>)
    requires
        strictly_ordered(items),
    ensures
        items.no_duplicates(),
{
    assert forall|i: int, j: int| 0 <= i < items.len() && 0 <= j < items.len() && i != j implies items[i]
        != items[j] by {
        if i < j {
            assert(precedes(items[i], items[j]) != precedes(items[j], items[i]));
        } else {
            assert(precedes(items[j], items[i]) != precedes(items[i], items[j]));
        }
    }
}

/// A rearrangement of a strictly ordered sequence is strictly ordered,
/// and holds no item twice.
pub proof fn lemma_rearrangement_is_strictly_ordered(
    items: Seq<PositionedObject<'_>>,
    rearranged: Seq<PositionedObject<'_>>,
)
    requires
        strictly_ordered(items),
        rearranged.to_multiset() == items.to_multiset(),
    ensures
        strictly_ordered(rearranged),
        rearranged.no_duplicates(),
{
    broadcast use vstd::seq_lib::group_to_multiset_ensures;

    lemma_strictly_ordered_is_distinct(items);
    items.lemma_multiset_has_no_duplicates();
    rearranged.lemma_multiset_has_no_duplicates_conv();
    assert forall|i: int| 0 <= i < rearranged.len() implies exists|p: int|
        0 <= p < items.len() && items[p] == #[trigger] rearranged[i] by {
        assert(rearranged.contains(rearranged[i]));
        assert(rearranged.to_multiset().count(rearranged[i]) > 0);
        assert(items.contains(rearranged[i]));
    }
    assert forall|i: int| 0 <= i < rearranged.len() implies !precedes(
        #[trigger] rearranged[i],
        rearranged[i],
    ) by {
        let p = choose|p: int| 0 <= p < items.len() && items[p] == rearranged[i];
        assert(!precedes(items[p], items[p]));
    }
    assert forall|i: int, j: int| 0 <= i < j < rearranged.len() implies precedes(
        #[trigger] rearranged[i],
        #[trigger] rearranged[j],
    ) != precedes(rearranged[j], rearranged[i]) by {
        let p = choose|p: int| 0 <= p < items.len() && items[p] == rearranged[i];
        let q = choose|q: int| 0 <= q < items.len() && items[q] == rearranged[j];
        assert(rearranged[i] != rearranged[j]);
        if p < q {
            assert(precedes(items[p], items[q]) != precedes(items[q], items[p]));
        } else {
            assert(precedes(items[q], items[p]) != precedes(items[p], items[q]));
        }
    }
    assert forall|i: int, j: int, k: int|
        0 <= i < rearranged.len() && 0 <= j < rearranged.len() && 0 <= k < rearranged.len()
            && #[trigger] precedes(rearranged[i], rearranged[j]) && #[trigger] precedes(
            rearranged[j],
            rearranged[k],
        ) implies precedes(rearranged[i], rearranged[k]) by {
        let p = choose|p: int| 0 <= p < items.len() && items[p] == rearranged[i];
        let q = choose|q: int| 0 <= q < items.len() && items[q] == rearranged[j];
        let r = choose|r: int| 0 <= r < items.len() && items[r] == rearranged[k];
        assert(precedes(items[p], items[q]) && precedes(items[q], items[r]));
    }
}

/// A rearrangement of a strictly ordered sequence in which no item comes
/// before an earlier one is in reading order.
pub proof fn lemma_sorted_rearrangement(
    items: Seq<PositionedObject<'_>>,
    sorted: Seq<PositionedObject<'_>>,
)
    requires
        strictly_ordered(items),
        sorted.to_multiset() == items.to_multiset(),
        forall|i: int, j: int|
            0 <= i < j < sorted.len() ==> !precedes(#[trigger] sorted[j], #[trigger] sorted[i]),
    ensures
        in_reading_order(sorted),
{
    lemma_rearrangement_is_strictly_ordered(items, sorted);
    assert forall|i: int, j: int| 0 <= i < j < sorted.len() implies precedes(
        #[trigger] sorted[i],
        #[trigger] sorted[j],
    ) by {
        assert(precedes(sorted[i], sorted[j]) != precedes(sorted[j], sorted[i]));
    }
}

/// Reading order leaves no choice: two sequences in reading order that
/// hold the same items, strictly ordered, are the same sequence.
pub proof fn lemma_reading_order_is_unique(
    first: Seq<PositionedObject<'_>>,
    second: Seq<PositionedObject<'_>>,
)
    requires
        strictly_ordered(first),
        in_reading_order(first),
        in_reading_order(second),
        first.to_multiset() == second.to_multiset(),
    ensures
        first == second,
    decreases first.len(),
{
    broadcast use vstd::seq_lib::group_to_multiset_ensures;

    assert(first.len() == first.to_multiset().len());
    assert(second.len() == second.to_multiset().len());
    if first.len() == 0 {
        assert(first =~= second);
    } else {
        let last = first.len() - 1;
        let x = first[last];
        let y = second[last];
        if x != y {
            assert(first.contains(x));
            assert(first.to_multiset().count(x) > 0);
            assert(second.contains(x));
            let p = choose|p: int| 0 <= p < second.len() && second[p] == x;
            assert(precedes(second[p], second[last]));
            assert(second.contains(y));
            assert(second.to_multiset().count(y) > 0);
            assert(first.contains(y));
            let q = choose|q: int| 0 <= q < first.len() && first[q] == y;
            assert(precedes(first[q], first[last]));
            assert(precedes(first[q], first[last]) != precedes(first[last], first[q]));
        }
        let shorter_first = first.drop_last();
        let shorter_second = second.drop_last();
        assert(shorter_first =~= first.remove(last));
        assert(shorter_second =~= second.remove(last));
        assert(shorter_first.to_multiset() == shorter_second.to_multiset());
        assert forall|i: int| 0 <= i < shorter_first.len() implies !precedes(
            #[trigger] shorter_first[i],
            shorter_first[i],
        ) by {
            assert(!precedes(first[i], first[i]));
        }
        assert forall|i: int, j: int| 0 <= i < j < shorter_first.len() implies precedes(
            #[trigger] shorter_first[i],
            #[trigger] shorter_first[j],
        ) != precedes(shorter_first[j], shorter_first[i]) && precedes(
            shorter_first[i],
            shorter_first[j],
        ) by {
            assert(precedes(first[i], first[j]) != precedes(first[j], first[i]));
        }
        assert forall|i: int, j: int, k: int|
            0 <= i < shorter_first.len() && 0 <= j < shorter_first.len() && 0 <= k
                < shorter_first.len() && #[trigger] precedes(shorter_first[i], shorter_first[j])
                && #[trigger] precedes(shorter_first[j], shorter_first[k]) implies precedes(
            shorter_first[i],
            shorter_first[k],
        ) by {
            assert(precedes(first[i], first[j]) && precedes(first[j], first[k]));
        }
        assert forall|i: int, j: int| 0 <= i < j < shorter_second.len() implies precedes(
            #[trigger] shorter_second[i],
            #[trigger] shorter_second[j],
        ) by {
            assert(precedes(second[i], second[j]));
        }
        lemma_reading_order_is_unique(shorter_first, shorter_second);
        assert(first =~= shorter_first.push(x));
        assert(second =~= shorter_second.push(y));
    }
}

/// Arranges `items` in reading order where reading order is a strict
/// total order on them; the result then holds the same items with each
/// one before all that it precedes. On any other input the items come
/// back in the order they were given.
pub fn sort_into_reading_order<'a>(items: Vec<PositionedObject<'a>>) -> (sorted: Vec<
    PositionedObject<'a>,
>)
    ensures
        sorted@.to_multiset() == items@.to_multiset(),
        strictly_ordered(items@) ==> in_reading_order(sorted@),
        !strictly_ordered(items@) ==> sorted@ == items@,
{
    if is_strictly_ordered(&items) {
        let ghost given = items@;
        let sorted = sorted_by_reading_order(items);
        proof {
            lemma_sorted_rearrangement(given, sorted@);
        }
        sorted
    } else {
        items
    }
}

} // verus!
