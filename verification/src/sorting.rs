//! Stable sorting.
use crate::text;
use vstd::prelude::*;
use vstd::relations::*;

verus! {

/// A sorted sequence with one more item, behind all that are at most equal
/// to it.
pub open spec fn insert_by<A>(sorted: Seq<A>, x: A, le: spec_fn(A, A) -> bool) -> Seq<A>
    decreases sorted.len(),
{
    if sorted.len() == 0 {
        seq![x]
    } else if le(sorted.last(), x) {
        sorted.push(x)
    } else {
        insert_by(sorted.drop_last(), x, le).push(sorted.last())
    }
}

/// The items in order. Items that are equal keep their order.
pub open spec fn sorted_stably<A>(items: Seq<A>, le: spec_fn(A, A) -> bool) -> Seq<A>
    decreases items.len(),
{
    if items.len() == 0 {
        seq![]
    } else {
        insert_by(sorted_stably(items.drop_last(), le), items.last(), le)
    }
}

/// That every two items can be compared, and comparisons chain.
pub open spec fn total_preorder<A>(le: spec_fn(A, A) -> bool) -> bool {
    transitive(le) && strongly_connected(le)
}

/// Values that can be put in order.
pub trait Ordered: View + Sized {
    spec fn le(a: Self::V, b: Self::V) -> bool;

    fn at_most(&self, other: &Self) -> (r: bool)
        ensures
            r == Self::le(self@, other@),
    ;
}

pub open spec fn order_of<T: Ordered>() -> spec_fn(T::V, T::V) -> bool {
    |a: T::V, b: T::V| T::le(a, b)
}

proof fn lemma_insert_by<A>(sorted: Seq<A>, x: A, le: spec_fn(A, A) -> bool, i: int)
    requires
        0 <= i <= sorted.len(),
        forall|k: int| i <= k < sorted.len() ==> !le(#[trigger] sorted[k], x),
        i > 0 ==> le(sorted[i - 1], x),
    ensures
        insert_by(sorted, x, le) == sorted.insert(i, x),
    decreases sorted.len(),
{
    if sorted.len() == 0 {
        assert(insert_by(sorted, x, le) =~= sorted.insert(i, x));
    } else if i == sorted.len() {
        assert(insert_by(sorted, x, le) =~= sorted.insert(i, x));
    } else {
        assert(!le(sorted[sorted.len() - 1], x));
        let shorter = sorted.drop_last();
        assert forall|k: int| i <= k < shorter.len() implies !le(#[trigger] shorter[k], x) by {
            assert(shorter[k] == sorted[k]);
        }
        lemma_insert_by(shorter, x, le, i);
        assert(shorter.insert(i, x).push(sorted.last()) =~= sorted.insert(i, x));
    }
}

/// Sorts items. Items that are equal keep their order.
pub fn sort<T: Ordered>(items: Vec<T>) -> (r: Vec<T>)
    ensures
        text::views(r@) == sorted_stably(text::views(items@), order_of::<T>()),
{
    let ghost all = text::views(items@);
    let ghost le = order_of::<T>();
    let mut out: Vec<T> = Vec::new();
    assert(all.take(0) =~= Seq::<T::V>::empty());
    assert(text::views(out@) =~= Seq::<T::V>::empty());
    for x in it: items
        invariant
            it.seq().len() == all.len(),
            forall|i: int| 0 <= i < all.len() ==> all[i] == (#[trigger] it.seq()[i])@,
            le == order_of::<T>(),
            text::views(out@) == sorted_stably(all.take(it.index()), le),
    {
        let ghost n = it.index();
        assert(all.take(n + 1).drop_last() =~= all.take(n));
        assert(all.take(n + 1).last() == x@);
        let ghost sorted = text::views(out@);
        let mut i: usize = out.len();
        while i > 0 && !out[i - 1].at_most(&x)
            invariant
                i <= out@.len(),
                sorted == text::views(out@),
                le == order_of::<T>(),
                forall|k: int| i <= k < sorted.len() ==> !le(#[trigger] sorted[k], x@),
            decreases i,
        {
            assert(sorted[i - 1] == out@[i - 1]@);
            i = i - 1;
        }
        proof {
            if i > 0 {
                assert(sorted[i - 1] == out@[i - 1]@);
            }
            lemma_insert_by(sorted, x@, le, i as int);
            assert(text::views(out@.insert(i as int, x)) =~= sorted.insert(i as int, x@));
        }
        out.insert(i, x);
    }
    assert(all.take(all.len() as int) =~= all);
    out
}

spec fn bounded<A>(items: Seq<A>, y: A, le: spec_fn(A, A) -> bool) -> bool {
    forall|i: int| 0 <= i < items.len() ==> le(#[trigger] items[i], y)
}

proof fn lemma_insert_keeps<A>(sorted: Seq<A>, x: A, le: spec_fn(A, A) -> bool)
    requires
        total_preorder(le),
        sorted_by(sorted, le),
    ensures
        sorted_by(insert_by(sorted, x, le), le),
        insert_by(sorted, x, le).to_multiset() == sorted.to_multiset().insert(x),
        insert_by(sorted, x, le).len() == sorted.len() + 1,
        forall|y: A|
            le(x, y) && bounded(sorted, y, le) ==> #[trigger] bounded(
                insert_by(sorted, x, le),
                y,
                le,
            ),
    decreases sorted.len(),
{
    broadcast use vstd::seq_lib::group_to_multiset_ensures;

    let out = insert_by(sorted, x, le);
    if sorted.len() == 0 {
        assert(out =~= sorted.push(x));
    } else if le(sorted.last(), x) {
        assert forall|i: int, j: int| 0 <= i < j < out.len() implies #[trigger] le(out[i], out[j]) by {
            if j == sorted.len() {
                if i < sorted.len() - 1 {
                    assert(le(sorted[i], sorted[sorted.len() - 1]));
                    assert(le(sorted.last(), x));
                }
            } else {
                assert(le(sorted[i], sorted[j]));
            }
        }
    } else {
        let shorter = sorted.drop_last();
        let last = sorted.last();
        assert forall|i: int, j: int| 0 <= i < j < shorter.len() implies #[trigger] le(
            shorter[i],
            shorter[j],
        ) by {
            assert(le(sorted[i], sorted[j]));
        }
        lemma_insert_keeps(shorter, x, le);
        let inner = insert_by(shorter, x, le);
        assert(le(x, last));
        assert forall|i: int| 0 <= i < shorter.len() implies le(#[trigger] shorter[i], last) by {
            assert(le(sorted[i], sorted[sorted.len() - 1]));
        }
        assert(bounded(shorter, last, le));
        assert(bounded(inner, last, le));
        assert forall|i: int, j: int| 0 <= i < j < out.len() implies #[trigger] le(out[i], out[j]) by {
            if j < inner.len() {
                assert(le(inner[i], inner[j]));
            } else {
                assert(le(inner[i], last));
            }
        }
        assert(sorted =~= shorter.push(last));
        assert(out.to_multiset() =~= sorted.to_multiset().insert(x));
        assert forall|y: A| le(x, y) && bounded(sorted, y, le) implies #[trigger] bounded(
            out,
            y,
            le,
        ) by {
            assert forall|i: int| 0 <= i < shorter.len() implies le(#[trigger] shorter[i], y) by {
                assert(shorter[i] == sorted[i]);
            }
            assert(bounded(inner, y, le));
            assert forall|i: int| 0 <= i < out.len() implies le(#[trigger] out[i], y) by {
                if i < inner.len() {
                    assert(le(inner[i], y));
                } else {
                    assert(le(sorted[sorted.len() - 1], y));
                }
            }
        }
    }
}

/// Sorting puts the items in order, and gives the same items.
pub proof fn law_sorting_sorts<A>(items: Seq<A>, le: spec_fn(A, A) -> bool)
    requires
        total_preorder(le),
    ensures
        sorted_by(sorted_stably(items, le), le),
        sorted_stably(items, le).to_multiset() == items.to_multiset(),
        sorted_stably(items, le).len() == items.len(),
    decreases items.len(),
{
    broadcast use vstd::seq_lib::group_to_multiset_ensures;

    if items.len() > 0 {
        law_sorting_sorts(items.drop_last(), le);
        lemma_insert_keeps(sorted_stably(items.drop_last(), le), items.last(), le);
        assert(items =~= items.drop_last().push(items.last()));
    }
}

/// Whether two items are equal in an order.
pub open spec fn alike<A>(le: spec_fn(A, A) -> bool, a: A, b: A) -> bool {
    le(a, b) && le(b, a)
}

/// The items that are equal to one, in their order.
pub open spec fn alike_to<A>(items: Seq<A>, le: spec_fn(A, A) -> bool, x: A) -> Seq<A>
    decreases items.len(),
{
    if items.len() == 0 {
        seq![]
    } else {
        let rest = alike_to(items.drop_last(), le, x);
        if alike(le, items.last(), x) {
            rest.push(items.last())
        } else {
            rest
        }
    }
}

proof fn lemma_none_alike<A>(items: Seq<A>, le: spec_fn(A, A) -> bool, x: A)
    requires
        forall|i: int| 0 <= i < items.len() ==> !alike(le, #[trigger] items[i], x),
    ensures
        alike_to(items, le, x).len() == 0,
    decreases items.len(),
{
    if items.len() > 0 {
        let shorter = items.drop_last();
        assert forall|i: int| 0 <= i < shorter.len() implies !alike(
            le,
            #[trigger] shorter[i],
            x,
        ) by {
            assert(shorter[i] == items[i]);
        }
        lemma_none_alike(shorter, le, x);
        assert(!alike(le, items[items.len() - 1], x));
    }
}

proof fn lemma_insert_is_stable<A>(sorted: Seq<A>, x: A, le: spec_fn(A, A) -> bool, y: A)
    requires
        total_preorder(le),
        sorted_by(sorted, le),
    ensures
        alike_to(insert_by(sorted, x, le), le, y) == if alike(le, x, y) {
            alike_to(sorted, le, y).push(x)
        } else {
            alike_to(sorted, le, y)
        },
    decreases sorted.len(),
{
    let out = insert_by(sorted, x, le);
    if sorted.len() == 0 {
        assert(out.drop_last() =~= sorted);
    } else if le(sorted.last(), x) {
        assert(out.drop_last() =~= sorted);
    } else {
        let shorter = sorted.drop_last();
        let last = sorted.last();
        assert forall|i: int, j: int| 0 <= i < j < shorter.len() implies #[trigger] le(
            shorter[i],
            shorter[j],
        ) by {
            assert(le(sorted[i], sorted[j]));
        }
        lemma_insert_is_stable(shorter, x, le, y);
        let inner = insert_by(shorter, x, le);
        assert(out.drop_last() =~= inner);
        assert(out.last() == last);
        if alike(le, x, y) && alike(le, last, y) {
            assert(le(last, y) && le(y, x));
            assert(le(last, x));
        }
    }
}

/// Sorting keeps items that are equal in their order.
pub proof fn law_sorting_is_stable<A>(items: Seq<A>, le: spec_fn(A, A) -> bool, y: A)
    requires
        total_preorder(le),
    ensures
        alike_to(sorted_stably(items, le), le, y) == alike_to(items, le, y),
    decreases items.len(),
{
    if items.len() > 0 {
        law_sorting_is_stable(items.drop_last(), le, y);
        law_sorting_sorts(items.drop_last(), le);
        lemma_insert_is_stable(sorted_stably(items.drop_last(), le), items.last(), le, y);
    }
}

/// Where only equal items are alike, sorting does not depend on the order in
/// which the items come.
pub proof fn law_sorting_forgets_the_order<A>(a: Seq<A>, b: Seq<A>, le: spec_fn(A, A) -> bool)
    requires
        total_ordering(le),
        a.to_multiset() == b.to_multiset(),
    ensures
        sorted_stably(a, le) == sorted_stably(b, le),
{
    law_sorting_sorts(a, le);
    law_sorting_sorts(b, le);
    vstd::seq_lib::lemma_sorted_unique(sorted_stably(a, le), sorted_stably(b, le), le);
}

} // verus!
