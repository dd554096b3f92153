//! A stable merge sort, stated as repeated stable insertion.

use crate::sequences::{lemma_views_push, views};
use vstd::prelude::*;

verus! {

/// Whether `leq` ranks every two items and ranks them consistently.
pub open spec fn is_ranking<T>(leq: spec_fn(T, T) -> bool) -> bool {
    &&& forall|a: T, b: T| #[trigger] leq(a, b) || leq(b, a)
    &&& forall|a: T, b: T, c: T|
        #![trigger leq(a, b), leq(b, c)]
        leq(a, b) && leq(b, c) ==> leq(a, c)
}

/// `items` with `item` placed before the first one that ranks strictly after it.
pub open spec fn insert_ranked<T>(items: Seq<T>, item: T, leq: spec_fn(T, T) -> bool) -> Seq<T>
    decreases items.len(),
{
    if items.len() == 0 {
        seq![item]
    } else if leq(items[0], item) {
        seq![items[0]] + insert_ranked(items.drop_first(), item, leq)
    } else {
        seq![item] + items
    }
}

/// The stable ordering of `items` by `leq`.
pub open spec fn stable_sort<T>(items: Seq<T>, leq: spec_fn(T, T) -> bool) -> Seq<T>
    decreases items.len(),
{
    if items.len() == 0 {
        items
    } else {
        insert_ranked(stable_sort(items.drop_last(), leq), items.last(), leq)
    }
}

/// Whether every item ranks no later than the ones behind it.
pub open spec fn is_sorted<T>(items: Seq<T>, leq: spec_fn(T, T) -> bool) -> bool {
    forall|i: int, j: int|
        #![trigger items[i], items[j]]
        0 <= i < j < items.len() ==> leq(items[i], items[j])
}

/// Two ordered sequences taken together, the left one first among equals.
pub open spec fn merge<T>(left: Seq<T>, right: Seq<T>, leq: spec_fn(T, T) -> bool) -> Seq<T>
    decreases left.len() + right.len(),
{
    if left.len() == 0 {
        right
    } else if right.len() == 0 {
        left
    } else if leq(left[0], right[0]) {
        seq![left[0]] + merge(left.drop_first(), right, leq)
    } else {
        seq![right[0]] + merge(left, right.drop_first(), leq)
    }
}

proof fn lemma_merge_insert<T>(left: Seq<T>, right: Seq<T>, item: T, leq: spec_fn(T, T) -> bool)
    requires
        is_ranking(leq),
    ensures
        merge(left, insert_ranked(right, item, leq), leq) == insert_ranked(
            merge(left, right, leq),
            item,
            leq,
        ),
    decreases left.len() + right.len(),
{
    let inserted = insert_ranked(right, item, leq);
    if left.len() == 0 {
    } else if right.len() == 0 {
        assert(inserted =~= seq![item]);
        assert(inserted.drop_first() =~= Seq::<T>::empty());
        assert(right =~= Seq::<T>::empty());
        if leq(left[0], item) {
            lemma_merge_insert(left.drop_first(), right, item, leq);
            assert(merge(left.drop_first(), right, leq) =~= left.drop_first());
        } else {
            assert(merge(left, inserted.drop_first(), leq) =~= left);
        }
    } else {
        let merged = merge(left, right, leq);
        if leq(right[0], item) {
            assert(inserted[0] == right[0]);
            assert(inserted.drop_first() =~= insert_ranked(right.drop_first(), item, leq));
            if leq(left[0], right[0]) {
                assert(leq(left[0], item));
                lemma_merge_insert(left.drop_first(), right, item, leq);
                assert(merged.drop_first() =~= merge(left.drop_first(), right, leq));
            } else {
                lemma_merge_insert(left, right.drop_first(), item, leq);
                assert(merged.drop_first() =~= merge(left, right.drop_first(), leq));
            }
        } else {
            assert(inserted =~= seq![item] + right);
            assert(inserted.drop_first() =~= right);
            assert(leq(item, right[0]));
            if leq(left[0], item) {
                assert(leq(left[0], right[0]));
                lemma_merge_insert(left.drop_first(), right, item, leq);
                assert(merged.drop_first() =~= merge(left.drop_first(), right, leq));
            } else {
                assert(!leq(merged[0], item));
            }
        }
    }
}

proof fn lemma_merge_sorts<T>(left: Seq<T>, right: Seq<T>, leq: spec_fn(T, T) -> bool)
    requires
        is_ranking(leq),
    ensures
        merge(stable_sort(left, leq), stable_sort(right, leq), leq) == stable_sort(
            left + right,
            leq,
        ),
    decreases right.len(),
{
    if right.len() == 0 {
        assert(left + right =~= left);
        let sorted = stable_sort(left, leq);
        assert(merge(sorted, right, leq) =~= sorted);
    } else {
        let joined = left + right;
        assert(joined.drop_last() =~= left + right.drop_last());
        assert(joined.last() == right.last());
        lemma_merge_sorts(left, right.drop_last(), leq);
        lemma_merge_insert(
            stable_sort(left, leq),
            stable_sort(right.drop_last(), leq),
            right.last(),
            leq,
        );
    }
}

proof fn lemma_insert_keeps_items<T>(items: Seq<T>, item: T, leq: spec_fn(T, T) -> bool)
    ensures
        insert_ranked(items, item, leq).to_multiset() == items.to_multiset().insert(item),
        insert_ranked(items, item, leq).len() == items.len() + 1,
    decreases items.len(),
{
    broadcast use vstd::seq_lib::group_to_multiset_ensures;

    if items.len() == 0 {
        assert(seq![item] =~= items.push(item));
    } else if leq(items[0], item) {
        lemma_insert_keeps_items(items.drop_first(), item, leq);
        let rest = insert_ranked(items.drop_first(), item, leq);
        vstd::seq_lib::lemma_multiset_commutative(seq![items[0]], rest);
        vstd::seq_lib::lemma_multiset_commutative(seq![items[0]], items.drop_first());
        assert(items =~= seq![items[0]] + items.drop_first());
        assert(insert_ranked(items, item, leq).to_multiset() =~= items.to_multiset().insert(item));
    } else {
        vstd::seq_lib::lemma_multiset_commutative(seq![item], items);
        assert(seq![item] =~= Seq::<T>::empty().push(item));
        assert(insert_ranked(items, item, leq).to_multiset() =~= items.to_multiset().insert(item));
    }
}

proof fn lemma_insert_keeps_order<T>(items: Seq<T>, item: T, leq: spec_fn(T, T) -> bool)
    requires
        is_ranking(leq),
        is_sorted(items, leq),
    ensures
        is_sorted(insert_ranked(items, item, leq), leq),
        forall|bound: T|
            #![trigger leq(bound, item)]
            leq(bound, item) && (forall|i: int| 0 <= i < items.len() ==> #[trigger] leq(bound, items[i]))
                ==> (forall|i: int|
                0 <= i < items.len() + 1 ==> leq(bound, #[trigger] insert_ranked(items, item, leq)[i])),
    decreases items.len(),
{
    lemma_insert_keeps_items(items, item, leq);
    let all = insert_ranked(items, item, leq);
    if items.len() > 0 {
        if leq(items[0], item) {
            let rest = insert_ranked(items.drop_first(), item, leq);
            lemma_insert_keeps_items(items.drop_first(), item, leq);
            assert(is_sorted(items.drop_first(), leq)) by {
                assert forall|i: int, j: int|
                    0 <= i < j < items.drop_first().len() implies leq(
                    #[trigger] items.drop_first()[i],
                    #[trigger] items.drop_first()[j],
                ) by {
                    assert(leq(items[i + 1], items[j + 1]));
                }
            }
            lemma_insert_keeps_order(items.drop_first(), item, leq);
            assert forall|i: int| 0 <= i < items.drop_first().len() implies #[trigger] leq(
                items[0],
                items.drop_first()[i],
            ) by {
                assert(leq(items[0], items[i + 1]));
            }
            assert(leq(items[0], item));
            assert forall|i: int, j: int| 0 <= i < j < all.len() implies leq(
                #[trigger] all[i],
                #[trigger] all[j],
            ) by {
                assert(all[j] == rest[j - 1]);
                if i > 0 {
                    assert(all[i] == rest[i - 1]);
                }
            }
            assert forall|bound: T|
                #![trigger leq(bound, item)]
                leq(bound, item) && (forall|i: int|
                    0 <= i < items.len() ==> #[trigger] leq(bound, items[i])) implies (forall|i: int|
                0 <= i < items.len() + 1 ==> leq(bound, #[trigger] all[i])) by {
                assert forall|i: int| 0 <= i < items.len() + 1 implies leq(
                    bound,
                    #[trigger] all[i],
                ) by {
                    assert forall|k: int| 0 <= k < items.drop_first().len() implies #[trigger] leq(
                        bound,
                        items.drop_first()[k],
                    ) by {
                        assert(leq(bound, items[k + 1]));
                    }
                    if i == 0 {
                        assert(leq(bound, items[0]));
                    } else {
                        assert(all[i] == rest[i - 1]);
                        assert(leq(bound, item));
                    }
                }
            }
        } else {
            assert(leq(item, items[0]));
            assert forall|i: int, j: int| 0 <= i < j < all.len() implies leq(
                #[trigger] all[i],
                #[trigger] all[j],
            ) by {
                assert(all[j] == items[j - 1]);
                if i > 0 {
                    assert(all[i] == items[i - 1]);
                } else if j > 1 {
                    assert(leq(items[0], items[j - 1]));
                }
            }
            assert forall|bound: T|
                #![trigger leq(bound, item)]
                leq(bound, item) && (forall|i: int|
                    0 <= i < items.len() ==> #[trigger] leq(bound, items[i])) implies (forall|i: int|
                0 <= i < items.len() + 1 ==> leq(bound, #[trigger] all[i])) by {
                assert forall|i: int| 0 <= i < items.len() + 1 implies leq(
                    bound,
                    #[trigger] all[i],
                ) by {
                    if i > 0 {
                        assert(all[i] == items[i - 1]);
                        assert(leq(bound, items[i - 1]));
                    }
                }
            }
        }
    }
}

/// Sorting keeps every item as often as it occurred.
pub proof fn stable_sort_keeps_items<T>(items: Seq<T>, leq: spec_fn(T, T) -> bool)
    ensures
        stable_sort(items, leq).to_multiset() == items.to_multiset(),
        stable_sort(items, leq).len() == items.len(),
    decreases items.len(),
{
    broadcast use vstd::seq_lib::group_to_multiset_ensures;

    if items.len() > 0 {
        stable_sort_keeps_items(items.drop_last(), leq);
        lemma_insert_keeps_items(stable_sort(items.drop_last(), leq), items.last(), leq);
        assert(items =~= items.drop_last().push(items.last()));
    }
}

/// A sorted sequence holds exactly the items that went in.
pub proof fn stable_sort_same_members<T>(items: Seq<T>, leq: spec_fn(T, T) -> bool)
    ensures
        forall|x: T| stable_sort(items, leq).contains(x) <==> #[trigger] items.contains(x),
        stable_sort(items, leq).len() == items.len(),
{
    broadcast use vstd::seq_lib::group_to_multiset_ensures;

    stable_sort_keeps_items(items, leq);
    assert forall|x: T| stable_sort(items, leq).contains(x) <==> #[trigger] items.contains(x) by {
        assert(stable_sort(items, leq).to_multiset().count(x) == items.to_multiset().count(x));
    }
}

/// Sorting puts every item no later than the ones that rank after it.
pub proof fn stable_sort_is_sorted<T>(items: Seq<T>, leq: spec_fn(T, T) -> bool)
    requires
        is_ranking(leq),
    ensures
        is_sorted(stable_sort(items, leq), leq),
    decreases items.len(),
{
    if items.len() > 0 {
        stable_sort_is_sorted(items.drop_last(), leq);
        lemma_insert_keeps_order(stable_sort(items.drop_last(), leq), items.last(), leq);
    }
}

/// A sequence that is in order already stays as it is.
pub proof fn stable_sort_of_sorted<T>(items: Seq<T>, leq: spec_fn(T, T) -> bool)
    requires
        is_sorted(items, leq),
    ensures
        stable_sort(items, leq) == items,
    decreases items.len(),
{
    if items.len() > 0 {
        let front = items.drop_last();
        assert(is_sorted(front, leq)) by {
            assert forall|i: int, j: int| 0 <= i < j < front.len() implies leq(
                #[trigger] front[i],
                #[trigger] front[j],
            ) by {
                assert(leq(items[i], items[j]));
            }
        }
        stable_sort_of_sorted(front, leq);
        assert forall|i: int| 0 <= i < front.len() implies leq(#[trigger] front[i], items.last()) by {
            assert(leq(items[i], items[items.len() - 1]));
        }
        lemma_insert_at_end(front, items.last(), leq);
        assert(items =~= front.push(items.last()));
    }
}

proof fn lemma_insert_at_end<T>(items: Seq<T>, item: T, leq: spec_fn(T, T) -> bool)
    requires
        forall|i: int| 0 <= i < items.len() ==> leq(#[trigger] items[i], item),
    ensures
        insert_ranked(items, item, leq) == items.push(item),
    decreases items.len(),
{
    if items.len() == 0 {
        assert(seq![item] =~= items.push(item));
    } else {
        let rest = items.drop_first();
        assert forall|i: int| 0 <= i < rest.len() implies leq(#[trigger] rest[i], item) by {
            assert(leq(items[i + 1], item));
        }
        lemma_insert_at_end(rest, item, leq);
        assert(seq![items[0]] + rest.push(item) =~= items.push(item));
    }
}

/// Sorting concrete items and then taking an image is sorting the images, when
/// the ranking looks at the images alone.
pub proof fn lemma_sort_image<T, V>(
    items: Seq<T>,
    leq: spec_fn(T, T) -> bool,
    image: spec_fn(T) -> V,
    image_leq: spec_fn(V, V) -> bool,
)
    requires
        forall|a: T, b: T| #[trigger] leq(a, b) == image_leq(image(a), image(b)),
    ensures
        stable_sort(items, leq).map_values(image) == stable_sort(
            items.map_values(image),
            image_leq,
        ),
    decreases items.len(),
{
    if items.len() == 0 {
        assert(items.map_values(image) =~= Seq::<V>::empty());
        assert(stable_sort(items.map_values(image), image_leq) =~= Seq::<V>::empty());
    } else {
        lemma_sort_image(items.drop_last(), leq, image, image_leq);
        assert(items.map_values(image).drop_last() =~= items.drop_last().map_values(image));
        lemma_insert_image(
            stable_sort(items.drop_last(), leq),
            items.last(),
            leq,
            image,
            image_leq,
        );
    }
}

proof fn lemma_insert_image<T, V>(
    items: Seq<T>,
    item: T,
    leq: spec_fn(T, T) -> bool,
    image: spec_fn(T) -> V,
    image_leq: spec_fn(V, V) -> bool,
)
    requires
        forall|a: T, b: T| #[trigger] leq(a, b) == image_leq(image(a), image(b)),
    ensures
        insert_ranked(items, item, leq).map_values(image) == insert_ranked(
            items.map_values(image),
            image(item),
            image_leq,
        ),
    decreases items.len(),
{
    let images = items.map_values(image);
    if items.len() == 0 {
        assert(seq![item].map_values(image) =~= seq![image(item)]);
    } else if leq(items[0], item) {
        lemma_insert_image(items.drop_first(), item, leq, image, image_leq);
        assert(images.drop_first() =~= items.drop_first().map_values(image));
        let rest = insert_ranked(items.drop_first(), item, leq);
        assert((seq![items[0]] + rest).map_values(image) =~= seq![image(items[0])]
            + rest.map_values(image));
    } else {
        assert(!image_leq(images[0], image(item)));
        assert((seq![item] + items).map_values(image) =~= seq![image(item)] + images);
    }
}

/// Two rankings that agree on the items of a sequence sort it alike.
pub proof fn lemma_same_ranking_same_sort<T>(
    items: Seq<T>,
    left: spec_fn(T, T) -> bool,
    right: spec_fn(T, T) -> bool,
)
    requires
        forall|i: int, j: int|
            #![trigger items[i], items[j]]
            0 <= i < items.len() && 0 <= j < items.len() ==> left(items[i], items[j]) == right(
                items[i],
                items[j],
            ),
    ensures
        stable_sort(items, left) == stable_sort(items, right),
    decreases items.len(),
{
    if items.len() > 0 {
        let front = items.drop_last();
        assert forall|i: int, j: int|
            #![trigger front[i], front[j]]
            0 <= i < front.len() && 0 <= j < front.len() implies left(front[i], front[j]) == right(
            front[i],
            front[j],
        ) by {
            assert(front[i] == items[i] && front[j] == items[j]);
        }
        lemma_same_ranking_same_sort(front, left, right);
        stable_sort_same_members(front, left);
        let sorted = stable_sort(front, left);
        assert forall|i: int| 0 <= i < sorted.len() implies left(#[trigger] sorted[i], items.last())
            == right(sorted[i], items.last()) by {
            assert(sorted.contains(sorted[i]));
            assert(front.contains(sorted[i]));
            let at = choose|at: int| 0 <= at < front.len() && front[at] == sorted[i];
            assert(items[at] == sorted[i]);
            assert(items[items.len() - 1] == items.last());
        }
        lemma_same_ranking_same_insert(sorted, items.last(), left, right);
    }
}

proof fn lemma_same_ranking_same_insert<T>(
    items: Seq<T>,
    item: T,
    left: spec_fn(T, T) -> bool,
    right: spec_fn(T, T) -> bool,
)
    requires
        forall|i: int|
            0 <= i < items.len() ==> left(#[trigger] items[i], item) == right(items[i], item),
    ensures
        insert_ranked(items, item, left) == insert_ranked(items, item, right),
    decreases items.len(),
{
    if items.len() > 0 {
        let rest = items.drop_first();
        assert forall|i: int| 0 <= i < rest.len() implies left(#[trigger] rest[i], item) == right(
            rest[i],
            item,
        ) by {
            assert(rest[i] == items[i + 1]);
        }
        lemma_same_ranking_same_insert(rest, item, left, right);
    }
}

pub(crate) fn reversed<T>(items: Vec<T>) -> (turned: Vec<T>)
    ensures
        turned@ == items@.reverse(),
{
    let mut items = items;
    let mut turned: Vec<T> = Vec::new();
    let ghost all = items@;
    while items.len() > 0
        invariant
            items@.len() + turned@.len() == all.len(),
            items@ =~= all.take(items@.len() as int),
            turned@ =~= all.skip(items@.len() as int).reverse(),
        decreases items@.len(),
    {
        let ghost before = items@;
        let item = items.pop().unwrap();
        turned.push(item);
        proof {
            assert(turned@ =~= all.skip(items@.len() as int).reverse());
        }
    }
    assert(all.skip(0) =~= all);
    turned
}

fn merge_sorted<T, F: Fn(&T, &T) -> bool>(
    left: Vec<T>,
    right: Vec<T>,
    leq: &F,
    Ghost(order): Ghost<spec_fn(T, T) -> bool>,
) -> (merged: Vec<T>)
    requires
        forall|a: T, b: T| #[trigger] leq.requires((&a, &b)),
        forall|a: T, b: T, r: bool| #[trigger] leq.ensures((&a, &b), r) ==> r == order(a, b),
    ensures
        merged@ == merge(left@, right@, order),
{
    let ghost left_all = left@;
    let ghost right_all = right@;
    let mut left = reversed(left);
    let mut right = reversed(right);
    let mut merged: Vec<T> = Vec::new();
    let ghost goal = merge(left_all, right_all, order);
    proof {
        assert(left@.reverse() =~= left_all);
        assert(right@.reverse() =~= right_all);
        assert(merged@ + merge(left_all, right_all, order) =~= goal);
    }
    while left.len() > 0 && right.len() > 0
        invariant
            forall|a: T, b: T| #[trigger] leq.requires((&a, &b)),
            forall|a: T, b: T, r: bool| #[trigger] leq.ensures((&a, &b), r) ==> r == order(a, b),
            merged@ + merge(left@.reverse(), right@.reverse(), order) == goal,
        decreases left@.len() + right@.len(),
    {
        let ghost left_rest = left@.reverse();
        let ghost right_rest = right@.reverse();
        let ghost done = merged@;
        let first = leq(&left[left.len() - 1], &right[right.len() - 1]);
        if first {
            let item = left.pop().unwrap();
            merged.push(item);
            proof {
                assert(left@.reverse() =~= left_rest.drop_first());
                assert(merged@ + merge(left@.reverse(), right@.reverse(), order) =~= done + (
                seq![left_rest[0]] + merge(left_rest.drop_first(), right_rest, order)));
            }
        } else {
            let item = right.pop().unwrap();
            merged.push(item);
            proof {
                assert(right@.reverse() =~= right_rest.drop_first());
                assert(merged@ + merge(left@.reverse(), right@.reverse(), order) =~= done + (
                seq![right_rest[0]] + merge(left_rest, right_rest.drop_first(), order)));
            }
        }
    }
    let mut rest = if left.len() > 0 { reversed(left) } else { reversed(right) };
    merged.append(&mut rest);
    merged
}

/// Sorts `items` stably by `leq`.
pub fn sort_by<T, F: Fn(&T, &T) -> bool>(
    items: Vec<T>,
    leq: &F,
    Ghost(order): Ghost<spec_fn(T, T) -> bool>,
) -> (sorted: Vec<T>)
    requires
        is_ranking(order),
        forall|a: T, b: T| #[trigger] leq.requires((&a, &b)),
        forall|a: T, b: T, r: bool| #[trigger] leq.ensures((&a, &b), r) ==> r == order(a, b),
    ensures
        sorted@ == stable_sort(items@, order),
    decreases items@.len(),
{
    let ghost all = items@;
    if items.len() <= 1 {
        proof {
            if all.len() == 1 {
                assert(all.drop_last() =~= Seq::<T>::empty());
                assert(stable_sort(all.drop_last(), order) =~= Seq::<T>::empty());
                assert(seq![all[0]] =~= all);
            }
        }
        return items;
    }
    let mut left = items;
    let middle: usize = left.len() / 2;
    let right = left.split_off(middle);
    let ghost left_items = left@;
    let ghost right_items = right@;
    assert(left_items + right_items =~= all);
    let left = sort_by(left, leq, Ghost(order));
    let right = sort_by(right, leq, Ghost(order));
    proof {
        lemma_merge_sorts(left_items, right_items, order);
    }
    merge_sorted(left, right, leq, Ghost(order))
}

/// Sorts items stably by a ranking of their abstract values.
pub fn sort_views<T: View, F: Fn(&T, &T) -> bool>(
    items: Vec<T>,
    leq: &F,
    Ghost(order): Ghost<spec_fn(T::V, T::V) -> bool>,
) -> (sorted: Vec<T>)
    requires
        is_ranking(order),
        forall|a: T, b: T| #[trigger] leq.requires((&a, &b)),
        forall|a: T, b: T, r: bool| #[trigger] leq.ensures((&a, &b), r) ==> r == order(a@, b@),
    ensures
        views(sorted@) == stable_sort(views(items@), order),
{
    let ghost concrete = |a: T, b: T| order(a@, b@);
    let ghost image = |item: T| item@;
    let ghost before = items@;
    let sorted = sort_by(items, leq, Ghost(concrete));
    proof {
        lemma_sort_image(before, concrete, image, order);
        assert(before.map_values(image) =~= views(before));
        assert(sorted@.map_values(image) =~= views(sorted@));
    }
    sorted
}

/// `items` from `at` on, each dropped when it is the same as the last one
/// kept, behind those kept already.
pub open spec fn dedup_from<V>(
    items: Seq<V>,
    same: spec_fn(V, V) -> bool,
    at: int,
    kept: Seq<V>,
) -> Seq<V>
    decreases items.len() - at,
{
    if at >= items.len() {
        kept
    } else if kept.len() > 0 && same(items[at], kept.last()) {
        dedup_from(items, same, at + 1, kept)
    } else {
        dedup_from(items, same, at + 1, kept.push(items[at]))
    }
}

/// `items` without the repeats that directly follow each other.
pub open spec fn dedup<V>(items: Seq<V>, same: spec_fn(V, V) -> bool) -> Seq<V> {
    dedup_from(items, same, 0, seq![])
}

/// Dropping repeats keeps only items, and no more than there were.
pub proof fn lemma_dedup_members<V>(
    items: Seq<V>,
    same: spec_fn(V, V) -> bool,
    at: int,
    kept: Seq<V>,
)
    requires
        0 <= at <= items.len(),
        kept.len() <= at,
        forall|i: int| 0 <= i < kept.len() ==> items.contains(#[trigger] kept[i]),
    ensures
        dedup_from(items, same, at, kept).len() <= items.len(),
        forall|i: int|
            0 <= i < dedup_from(items, same, at, kept).len() ==> items.contains(
                #[trigger] dedup_from(items, same, at, kept)[i],
            ),
    decreases items.len() - at,
{
    if at < items.len() {
        if kept.len() > 0 && same(items[at], kept.last()) {
            lemma_dedup_members(items, same, at + 1, kept);
        } else {
            assert(items.contains(items[at]));
            lemma_dedup_members(items, same, at + 1, kept.push(items[at]));
        }
    }
}

/// Drops repeats that directly follow each other, by abstract value.
pub fn dedup_views<T: View, F: Fn(&T, &T) -> bool>(
    items: Vec<T>,
    is_same: &F,
    Ghost(same): Ghost<spec_fn(T::V, T::V) -> bool>,
) -> (kept: Vec<T>)
    requires
        forall|a: T, b: T| #[trigger] is_same.requires((&a, &b)),
        forall|a: T, b: T, r: bool| #[trigger] is_same.ensures((&a, &b), r) ==> r == same(a@, b@),
    ensures
        views(kept@) == dedup(views(items@), same),
        kept@.len() <= items@.len(),
{
    let ghost all = views(items@);
    let ghost count = items@.len();
    let mut rest = reversed(items);
    let mut kept: Vec<T> = Vec::new();
    assert(views(kept@) =~= seq![]);
    while rest.len() > 0
        invariant
            forall|a: T, b: T| #[trigger] is_same.requires((&a, &b)),
            forall|a: T, b: T, r: bool| #[trigger]
                is_same.ensures((&a, &b), r) ==> r == same(a@, b@),
            rest@.len() <= count,
            all.len() == count,
            kept@.len() + rest@.len() <= count,
            views(rest@.reverse()) =~= all.skip(count - rest@.len()),
            dedup(all, same) == dedup_from(all, same, count - rest@.len(), views(kept@)),
        decreases rest@.len(),
    {
        let ghost before = rest@;
        let ghost at = count - rest@.len();
        let item = rest.pop().unwrap();
        proof {
            assert(all[at] == item@) by {
                assert(views(before.reverse())[0] == all.skip(at)[0]);
            }
            assert(views(rest@.reverse()) =~= all.skip(at + 1)) by {
                assert forall|i: int| 0 <= i < rest@.len() implies views(rest@.reverse())[i]
                    == #[trigger] all.skip(at + 1)[i] by {
                    assert(rest@.reverse()[i] == before.reverse()[i + 1]);
                    assert(views(before.reverse())[i + 1] == all.skip(at)[i + 1]);
                }
            }
        }
        let repeat: bool = if kept.len() > 0 { is_same(&item, &kept[kept.len() - 1]) } else { false };
        proof {
            if kept@.len() > 0 {
                assert(views(kept@).last() == kept@.last()@);
            }
        }
        if !repeat {
            proof {
                lemma_views_push(kept@, item);
            }
            kept.push(item);
        }
    }
    kept
}

/// The first `limit` items.
pub open spec fn first_few<V>(items: Seq<V>, limit: int) -> Seq<V> {
    if items.len() <= limit {
        items
    } else {
        items.take(limit)
    }
}

/// Drops all items but the first `limit`.
pub fn truncate_views<T: View>(items: &mut Vec<T>, limit: usize)
    ensures
        views(final(items)@) == first_few(views(old(items)@), limit as int),
        final(items)@ == first_few(old(items)@, limit as int),
{
    let ghost before = items@;
    items.truncate(limit);
    proof {
        if before.len() > limit {
            assert(items@ =~= before.take(limit as int));
            assert(views(items@) =~= views(before).take(limit as int));
        }
    }
}

/// Whether every item has a property.
pub open spec fn all_hold<V>(items: Seq<V>, property: spec_fn(V) -> bool) -> bool {
    forall|i: int| 0 <= i < items.len() ==> property(#[trigger] items[i])
}

/// Sorting, dropping repeats and truncating keep what holds of every item.
pub proof fn lemma_all_hold<V>(
    items: Seq<V>,
    property: spec_fn(V) -> bool,
    leq: spec_fn(V, V) -> bool,
    same: spec_fn(V, V) -> bool,
    limit: int,
)
    requires
        all_hold(items, property),
        0 <= limit,
    ensures
        all_hold(stable_sort(items, leq), property),
        all_hold(dedup(items, same), property),
        all_hold(first_few(items, limit), property),
        dedup(items, same).len() <= items.len(),
        stable_sort(items, leq).len() == items.len(),
        first_few(items, limit).len() <= limit,
        first_few(items, limit).len() <= items.len(),
{
    stable_sort_same_members(items, leq);
    lemma_dedup_members(items, same, 0, seq![]);
    let sorted = stable_sort(items, leq);
    let kept = dedup(items, same);
    assert forall|i: int| 0 <= i < sorted.len() implies property(#[trigger] sorted[i]) by {
        assert(sorted.contains(sorted[i]));
        assert(items.contains(sorted[i]));
    }
    assert forall|i: int| 0 <= i < kept.len() implies property(#[trigger] kept[i]) by {
        assert(items.contains(kept[i]));
    }
}

/// Keeping the first `limit` of some items in order drops none that would come
/// before a kept one.
pub proof fn keeping_the_first_drops_the_last<V>(
    items: Seq<V>,
    leq: spec_fn(V, V) -> bool,
    limit: int,
)
    requires
        is_ranking(leq),
        0 <= limit,
    ensures
        ({
            let kept = first_few(stable_sort(items, leq), limit);
            &&& forall|x: V, i: int|
                #![trigger items.contains(x), kept[i]]
                items.contains(x) && !kept.contains(x) && 0 <= i < kept.len() ==> leq(kept[i], x)
            &&& forall|i: int| 0 <= i < kept.len() ==> items.contains(#[trigger] kept[i])
            &&& kept.len() == if items.len() <= limit {
                items.len() as int
            } else {
                limit
            }
        }),
{
    let sorted = stable_sort(items, leq);
    let kept = first_few(sorted, limit);
    stable_sort_same_members(items, leq);
    stable_sort_is_sorted(items, leq);
    assert forall|x: V, i: int|
        #![trigger items.contains(x), kept[i]]
        items.contains(x) && !kept.contains(x) && 0 <= i < kept.len() implies leq(kept[i], x) by {
        assert(sorted.contains(x));
        let j = choose|j: int| 0 <= j < sorted.len() && sorted[j] == x;
        if j < kept.len() {
            assert(kept[j] == x);
        }
        assert(kept[i] == sorted[i]);
    }
    assert forall|i: int| 0 <= i < kept.len() implies items.contains(#[trigger] kept[i]) by {
        assert(sorted.contains(sorted[i]));
    }
}

proof fn lemma_dedup_of_sorted<V>(
    items: Seq<V>,
    leq: spec_fn(V, V) -> bool,
    same: spec_fn(V, V) -> bool,
    at: int,
    kept: Seq<V>,
)
    requires
        is_ranking(leq),
        is_sorted(items, leq),
        forall|x: V| #[trigger] same(x, x),
        0 <= at <= items.len(),
        is_sorted(kept, leq),
        forall|i: int, j: int|
            #![trigger kept[i], items[j]]
            0 <= i < kept.len() && at <= j < items.len() ==> leq(kept[i], items[j]),
    ensures
        ({
            let all = dedup_from(items, same, at, kept);
            &&& is_sorted(all, leq)
            &&& kept.len() <= all.len()
            &&& forall|i: int| 0 <= i < kept.len() ==> all[i] == #[trigger] kept[i]
            &&& forall|j: int|
                at <= j < items.len() ==> exists|i: int|
                    0 <= i < all.len() && same(#[trigger] items[j], #[trigger] all[i]) && leq(
                        all[i],
                        items[j],
                    )
        }),
    decreases items.len() - at,
{
    if at < items.len() {
        let item = items[at];
        assert(leq(item, item) || leq(item, item));
        if kept.len() > 0 && same(item, kept.last()) {
            lemma_dedup_of_sorted(items, leq, same, at + 1, kept);
            let all = dedup_from(items, same, at, kept);
            assert(all[kept.len() - 1] == kept[kept.len() - 1]);
            assert(leq(kept[kept.len() - 1], items[at]));
        } else {
            let next = kept.push(item);
            assert forall|i: int, j: int|
                #![trigger next[i], items[j]]
                0 <= i < next.len() && at + 1 <= j < items.len() implies leq(next[i], items[j]) by {
                if i < kept.len() {
                    assert(next[i] == kept[i]);
                }
            }
            assert(is_sorted(next, leq)) by {
                assert forall|i: int, j: int|
                    #![trigger next[i], next[j]]
                    0 <= i < j < next.len() implies leq(next[i], next[j]) by {
                    assert(next[i] == kept[i]);
                    if j < kept.len() {
                        assert(next[j] == kept[j]);
                    } else {
                        assert(leq(kept[i], items[at]));
                    }
                }
            }
            lemma_dedup_of_sorted(items, leq, same, at + 1, next);
            let all = dedup_from(items, same, at, kept);
            assert(all[kept.len() as int] == next[kept.len() as int]);
            assert forall|i: int| 0 <= i < kept.len() implies all[i] == #[trigger] kept[i] by {
                assert(all[i] == next[i]);
            }
        }
    }
}

/// Keeping the first `limit` of some items in order, without repeats, drops none
/// that would come before a kept one: a dropped item is the same as a kept one
/// that comes no later, or comes no earlier than any kept one.
pub proof fn sifting_drops_the_last<V>(
    items: Seq<V>,
    leq: spec_fn(V, V) -> bool,
    same: spec_fn(V, V) -> bool,
    limit: int,
    x: V,
)
    requires
        is_ranking(leq),
        forall|x: V| #[trigger] same(x, x),
        0 <= limit,
        items.contains(x),
    ensures
        ({
            let kept = first_few(dedup(stable_sort(items, leq), same), limit);
            ||| exists|i: int|
                0 <= i < kept.len() && same(x, #[trigger] kept[i]) && leq(kept[i], x)
            ||| kept.len() == limit && forall|i: int|
                0 <= i < kept.len() ==> leq(#[trigger] kept[i], x)
        }),
{
    let sorted = stable_sort(items, leq);
    stable_sort_same_members(items, leq);
    stable_sort_is_sorted(items, leq);
    lemma_dedup_of_sorted(sorted, leq, same, 0, seq![]);
    let all = dedup(sorted, same);
    let kept = first_few(all, limit);
    assert(sorted.contains(x));
    let j = choose|j: int| 0 <= j < sorted.len() && sorted[j] == x;
    assert(0 <= j < sorted.len());
    let i = choose|i: int|
        0 <= i < all.len() && same(sorted[j], #[trigger] all[i]) && leq(all[i], sorted[j]);
    if i < kept.len() {
        assert(kept[i] == all[i]);
    } else {
        assert forall|k: int| 0 <= k < kept.len() implies leq(#[trigger] kept[k], x) by {
            assert(kept[k] == all[k]);
            assert(leq(all[k], all[i]));
        }
    }
}

proof fn lemma_filter_one<T>(item: T, rest: Seq<T>, chosen: spec_fn(T) -> bool)
    ensures
        (seq![item] + rest).filter(chosen) == (if chosen(item) {
            seq![item] + rest.filter(chosen)
        } else {
            rest.filter(chosen)
        }),
    decreases rest.len(),
{
    reveal(Seq::filter);
    let all = seq![item] + rest;
    if rest.len() == 0 {
        assert(all =~= seq![item]);
        assert(all.drop_last() =~= Seq::<T>::empty());
        assert(Seq::<T>::empty().filter(chosen) =~= Seq::<T>::empty());
        assert(rest =~= Seq::<T>::empty());
        if chosen(item) {
            assert(all.filter(chosen) =~= seq![item]);
        }
    } else {
        lemma_filter_one(item, rest.drop_last(), chosen);
        assert(all.drop_last() =~= seq![item] + rest.drop_last());
        assert(all.last() == rest.last());
        if chosen(item) && chosen(rest.last()) {
            assert((seq![item] + rest.drop_last().filter(chosen)).push(rest.last())
                =~= seq![item] + rest.drop_last().filter(chosen).push(rest.last()));
        }
    }
}

/// Items that rank equal to one: neither before it nor behind it.
pub open spec fn ranks_with<T>(leq: spec_fn(T, T) -> bool, one: T) -> spec_fn(T) -> bool {
    |other: T| leq(one, other) && leq(other, one)
}

proof fn lemma_none_equal<T>(items: Seq<T>, leq: spec_fn(T, T) -> bool, one: T)
    requires
        forall|i: int| 0 <= i < items.len() ==> !ranks_with(leq, one)(#[trigger] items[i]),
    ensures
        items.filter(ranks_with(leq, one)) == Seq::<T>::empty(),
    decreases items.len(),
{
    reveal(Seq::filter);
    if items.len() > 0 {
        lemma_none_equal(items.drop_last(), leq, one);
    }
}

proof fn lemma_insert_keeps_equals<T>(
    items: Seq<T>,
    item: T,
    leq: spec_fn(T, T) -> bool,
    one: T,
)
    requires
        is_ranking(leq),
        is_sorted(items, leq),
    ensures
        insert_ranked(items, item, leq).filter(ranks_with(leq, one)) == (if ranks_with(leq, one)(
            item,
        ) {
            items.filter(ranks_with(leq, one)).push(item)
        } else {
            items.filter(ranks_with(leq, one))
        }),
    decreases items.len(),
{
    let equal = ranks_with(leq, one);
    if items.len() == 0 {
        lemma_filter_one(item, items, equal);
        assert(seq![item] + items =~= seq![item]);
        lemma_none_equal(items, leq, one);
        assert(Seq::<T>::empty().push(item) =~= seq![item]);
        assert(seq![item] + Seq::<T>::empty() =~= seq![item]);
    } else if leq(items[0], item) {
        let rest = items.drop_first();
        assert(is_sorted(rest, leq)) by {
            assert forall|i: int, j: int| 0 <= i < j < rest.len() implies leq(
                #[trigger] rest[i],
                #[trigger] rest[j],
            ) by {
                assert(leq(items[i + 1], items[j + 1]));
            }
        }
        lemma_insert_keeps_equals(rest, item, leq, one);
        lemma_filter_one(items[0], insert_ranked(rest, item, leq), equal);
        lemma_filter_one(items[0], rest, equal);
        assert(items =~= seq![items[0]] + rest);
        if equal(items[0]) && equal(item) {
            assert((seq![items[0]] + rest.filter(equal)).push(item) =~= seq![items[0]]
                + rest.filter(equal).push(item));
        }
    } else {
        lemma_filter_one(item, items, equal);
        if equal(item) {
            assert forall|i: int| 0 <= i < items.len() implies !equal(#[trigger] items[i]) by {
                if equal(items[i]) {
                    assert(leq(items[i], one) && leq(one, item));
                    assert(leq(items[i], item));
                    if i > 0 {
                        assert(leq(items[0], items[i]));
                        assert(leq(items[0], item));
                    }
                }
            }
            lemma_none_equal(items, leq, one);
            assert(Seq::<T>::empty().push(item) =~= seq![item]);
            assert(seq![item] + Seq::<T>::empty() =~= seq![item]);
        }
    }
}

/// Sorting leaves items that rank equal in the order in which they were.
pub proof fn stable_sort_keeps_equals_in_order<T>(
    items: Seq<T>,
    leq: spec_fn(T, T) -> bool,
    one: T,
)
    requires
        is_ranking(leq),
    ensures
        stable_sort(items, leq).filter(ranks_with(leq, one)) == items.filter(
            ranks_with(leq, one),
        ),
    decreases items.len(),
{
    reveal(Seq::filter);
    if items.len() > 0 {
        let front = items.drop_last();
        stable_sort_keeps_equals_in_order(front, leq, one);
        stable_sort_is_sorted(front, leq);
        lemma_insert_keeps_equals(stable_sort(front, leq), items.last(), leq, one);
    }
}

proof fn lemma_filter_first<T>(items: Seq<T>, chosen: spec_fn(T) -> bool, at: int)
    requires
        0 <= at < items.len(),
        chosen(items[at]),
        forall|i: int| 0 <= i < at ==> !chosen(#[trigger] items[i]),
    ensures
        items.filter(chosen).len() > 0,
        items.filter(chosen)[0] == items[at],
    decreases items.len(),
{
    reveal(Seq::filter);
    let front = items.drop_last();
    if at < front.len() {
        lemma_filter_first(front, chosen, at);
    } else {
        assert(front.filter(chosen).len() == 0) by {
            lemma_filter_none(front, chosen);
        }
    }
}

proof fn lemma_filter_none<T>(items: Seq<T>, chosen: spec_fn(T) -> bool)
    requires
        forall|i: int| 0 <= i < items.len() ==> !chosen(#[trigger] items[i]),
    ensures
        items.filter(chosen).len() == 0,
    decreases items.len(),
{
    reveal(Seq::filter);
    if items.len() > 0 {
        lemma_filter_none(items.drop_last(), chosen);
    }
}

/// Whether an item stands at a place with none that is the same before it.
spec fn is_first<V>(items: Seq<V>, same: spec_fn(V, V) -> bool, item: V, at: int) -> bool {
    &&& 0 <= at < items.len()
    &&& items[at] == item
    &&& forall|i: int| 0 <= i < at ==> !same(#[trigger] items[i], item)
}

/// Whether an item stands somewhere with none that is the same before it.
spec fn leads<V>(items: Seq<V>, same: spec_fn(V, V) -> bool, item: V) -> bool {
    exists|i: int| is_first(items, same, item, i)
}

/// Whether some kept item is the same as an item.
spec fn is_covered<V>(kept: Seq<V>, same: spec_fn(V, V) -> bool, item: V) -> bool {
    exists|k: int| 0 <= k < kept.len() && same(item, #[trigger] kept[k])
}

proof fn lemma_new_leads<V>(
    items: Seq<V>,
    leq: spec_fn(V, V) -> bool,
    same: spec_fn(V, V) -> bool,
    at: int,
    last: V,
)
    requires
        is_ranking(leq),
        is_sorted(items, leq),
        forall|a: V, b: V| #[trigger] same(a, b) <==> leq(a, b) && leq(b, a),
        0 < at < items.len(),
        same(items[at - 1], last),
        !same(items[at], last),
    ensures
        is_first(items, same, items[at], at),
{
    let item = items[at];
    let near = items[at - 1];
    assert(leq(near, item));
    assert forall|i: int| 0 <= i < at implies !same(#[trigger] items[i], item) by {
        if same(items[i], item) {
            if i < at - 1 {
                assert(leq(items[i], near));
            }
            assert(leq(item, items[i]));
            assert(leq(item, near));
            assert(leq(near, last) && leq(last, near));
            assert(leq(item, last));
            assert(leq(last, item));
            assert(same(item, last));
        }
    }
}

/// Whether an item is not the same as another that the one before it is.
spec fn parts_at<V>(items: Seq<V>, same: spec_fn(V, V) -> bool, at: int, last: V) -> bool {
    0 < at < items.len() && same(items[at - 1], last) && !same(items[at], last)
}

proof fn lemma_dedup_firsts<V>(
    items: Seq<V>,
    same: spec_fn(V, V) -> bool,
    at: int,
    kept: Seq<V>,
)
    requires
        forall|x: V| #[trigger] same(x, x),
        forall|j: int, last: V| #[trigger]
            parts_at(items, same, j, last) ==> is_first(items, same, items[j], j),
        0 <= at <= items.len(),
        at > 0 ==> kept.len() > 0 && same(items[at - 1], kept.last()),
        at == 0 ==> kept.len() == 0,
        forall|k: int| 0 <= k < kept.len() ==> leads(items, same, #[trigger] kept[k]),
        forall|i: int| 0 <= i < at ==> is_covered(kept, same, #[trigger] items[i]),
    ensures
        forall|k: int|
            0 <= k < dedup_from(items, same, at, kept).len() ==> leads(
                items,
                same,
                #[trigger] dedup_from(items, same, at, kept)[k],
            ),
        forall|i: int|
            0 <= i < items.len() ==> is_covered(
                dedup_from(items, same, at, kept),
                same,
                #[trigger] items[i],
            ),
    decreases items.len() - at,
{
    if at < items.len() {
        let item = items[at];
        assert(same(item, item));
        if kept.len() > 0 && same(item, kept.last()) {
            assert(is_covered(kept, same, item)) by {
                assert(same(item, kept[kept.len() - 1]));
            }
            lemma_dedup_firsts(items, same, at + 1, kept);
            assert(dedup_from(items, same, at, kept) == dedup_from(items, same, at + 1, kept));
        } else {
            let more = kept.push(item);
            if at > 0 {
                assert(parts_at(items, same, at, kept.last()));
            }
            assert(is_first(items, same, item, at));
            assert forall|k: int| 0 <= k < more.len() implies leads(
                items,
                same,
                #[trigger] more[k],
            ) by {
                if k < kept.len() {
                    assert(more[k] == kept[k]);
                }
            }
            assert forall|i: int| 0 <= i < at + 1 implies is_covered(
                more,
                same,
                #[trigger] items[i],
            ) by {
                if i < at {
                    let k = choose|k: int|
                        0 <= k < kept.len() && same(items[i], #[trigger] kept[k]);
                    assert(same(items[i], more[k]));
                } else {
                    assert(same(items[i], more[more.len() - 1]));
                }
            }
            lemma_dedup_firsts(items, same, at + 1, more);
            assert(dedup_from(items, same, at, kept) == dedup_from(items, same, at + 1, more));
        }
    }
}

/// Of items that rank equal, sorting and sifting keeps the one that came first,
/// and no other.
pub proof fn sifting_keeps_the_first_of_equals<V>(
    items: Seq<V>,
    leq: spec_fn(V, V) -> bool,
    same: spec_fn(V, V) -> bool,
    at: int,
)
    requires
        is_ranking(leq),
        forall|a: V, b: V| #[trigger] same(a, b) <==> leq(a, b) && leq(b, a),
        0 <= at < items.len(),
        forall|i: int| 0 <= i < at ==> !same(#[trigger] items[i], items[at]),
    ensures
        ({
            let kept = dedup(stable_sort(items, leq), same);
            &&& kept.contains(items[at])
            &&& forall|k: int|
                0 <= k < kept.len() && same(#[trigger] kept[k], items[at]) ==> kept[k] == items[at]
        }),
{
    let sorted = stable_sort(items, leq);
    let kept = dedup(sorted, same);
    let one = items[at];
    let equal = ranks_with(leq, one);
    stable_sort_is_sorted(items, leq);
    stable_sort_same_members(items, leq);
    stable_sort_keeps_equals_in_order(items, leq, one);
    assert forall|x: V| #[trigger] same(x, x) by {
        assert(leq(x, x));
    }
    assert forall|j: int, last: V| #[trigger] parts_at(sorted, same, j, last) implies is_first(
        sorted,
        same,
        sorted[j],
        j,
    ) by {
        lemma_new_leads(sorted, leq, same, j, last);
    }
    lemma_dedup_firsts(sorted, same, 0, seq![]);
    assert(leq(one, one));
    assert forall|i: int| 0 <= i < at implies !equal(#[trigger] items[i]) by {
        assert(!same(items[i], one));
    }
    lemma_filter_first(items, equal, at);
    assert forall|k: int| 0 <= k < kept.len() && same(#[trigger] kept[k], one) implies kept[k]
        == one by {
        assert(leads(sorted, same, kept[k]));
        let i = choose|i: int| is_first(sorted, same, kept[k], i);
        assert(equal(sorted[i]));
        assert forall|j: int| 0 <= j < i implies !equal(#[trigger] sorted[j]) by {
            if equal(sorted[j]) {
                assert(leq(sorted[j], one) && leq(one, kept[k]));
                assert(leq(kept[k], one) && leq(one, sorted[j]));
                assert(same(sorted[j], kept[k]));
            }
        }
        lemma_filter_first(sorted, equal, i);
    }
    assert(items.contains(one));
    assert(sorted.contains(one));
    let place = choose|i: int| 0 <= i < sorted.len() && sorted[i] == one;
    assert(is_covered(kept, same, sorted[place]));
    let k = choose|k: int| 0 <= k < kept.len() && same(sorted[place], #[trigger] kept[k]);
    assert(same(kept[k], one));
    assert(kept[k] == one);
}

} // verus!
