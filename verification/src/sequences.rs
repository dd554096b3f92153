//! Sequences of track numbers: copying, searching and comparing.

use vstd::prelude::*;

verus! {

/// The abstract values of a sequence of concrete ones.
pub open spec fn views<T: View>(items: Seq<T>) -> Seq<T::V> {
    Seq::new(items.len(), |i: int| items[i]@)
}

/// Taking views commutes with appending one item.
pub broadcast proof fn lemma_views_push<T: View>(items: Seq<T>, item: T)
    ensures
        #[trigger] views(items.push(item)) == views(items).push(item@),
{
    assert(views(items.push(item)) =~= views(items).push(item@));
}

/// Taking views commutes with concatenation.
pub proof fn lemma_views_add<T: View>(left: Seq<T>, right: Seq<T>)
    ensures
        views(left + right) == views(left) + views(right),
{
    assert(views(left + right) =~= views(left) + views(right));
}

/// The first position at or after `from` that holds `item`, or the length of
/// the sequence when there is none.
pub open spec fn position_from(items: Seq<usize>, item: usize, from: int) -> int
    decreases items.len() - from,
{
    if from >= items.len() {
        items.len() as int
    } else if items[from] == item {
        from
    } else {
        position_from(items, item, from + 1)
    }
}

/// The first position of `item`, or the length of the sequence.
pub open spec fn position(items: Seq<usize>, item: usize) -> int {
    position_from(items, item, 0)
}

/// `position_from` finds the first occurrence and nothing before it.
pub proof fn lemma_position_from(items: Seq<usize>, item: usize, from: int)
    requires
        0 <= from <= items.len(),
    ensures
        from <= position_from(items, item, from) <= items.len(),
        position_from(items, item, from) < items.len() ==> items[position_from(
            items,
            item,
            from,
        )] == item,
        forall|i: int|
            from <= i < position_from(items, item, from) ==> #[trigger] items[i] != item,
    decreases items.len() - from,
{
    if from < items.len() && items[from] != item {
        lemma_position_from(items, item, from + 1);
    }
}

/// A member has a position below the length.
pub proof fn lemma_position_of_member(items: Seq<usize>, item: usize)
    ensures
        items.contains(item) == (position(items, item) < items.len()),
        0 <= position(items, item) <= items.len(),
{
    lemma_position_from(items, item, 0);
    if items.contains(item) {
        let i = choose|i: int| 0 <= i < items.len() && items[i] == item;
        assert(items[i] == item);
    } else if position(items, item) < items.len() {
        assert(items[position(items, item)] == item);
    }
}

/// Finds the first position of `item`.
pub fn find_position(items: &[usize], item: usize) -> (found: Option<usize>)
    ensures
        match found {
            Some(at) => at == position(items@, item) && at < items@.len(),
            None => position(items@, item) == items@.len(),
        },
{
    let mut at: usize = 0;
    while at < items.len()
        invariant
            at <= items@.len(),
            position(items@, item) == position_from(items@, item, at as int),
        decreases items@.len() - at,
    {
        if items[at] == item {
            return Some(at);
        }
        at += 1;
    }
    None
}

/// Whether `item` occurs in `items`.
pub fn holds(items: &[usize], item: usize) -> (held: bool)
    ensures
        held == items@.contains(item),
{
    proof {
        lemma_position_of_member(items@, item);
    }
    find_position(items, item).is_some()
}

/// A fresh vector with the same items.
pub fn copied(items: &[usize]) -> (copy: Vec<usize>)
    ensures
        copy@ == items@,
{
    vstd::slice::slice_to_vec(items)
}

/// The numbers `0`, `1`, up to but excluding `count`.
pub open spec fn ascending(count: int) -> Seq<usize> {
    Seq::new(count as nat, |i: int| i as usize)
}

/// Builds the identity route over `count` tracks.
pub fn ascending_route(count: usize) -> (route: Vec<usize>)
    ensures
        route@ == ascending(count as int),
{
    let mut route: Vec<usize> = Vec::new();
    let mut next: usize = 0;
    while next < count
        invariant
            next <= count,
            route@ =~= ascending(next as int),
        decreases count - next,
    {
        route.push(next);
        next += 1;
    }
    route
}

/// Whether `left`, compared with `right` from position `from` on, comes first
/// in dictionary order.
pub open spec fn lex_less_from(left: Seq<usize>, right: Seq<usize>, from: int) -> bool
    decreases left.len() - from,
{
    if from >= right.len() {
        false
    } else if from >= left.len() {
        true
    } else if left[from] != right[from] {
        left[from] < right[from]
    } else {
        lex_less_from(left, right, from + 1)
    }
}

/// Dictionary order of two routes.
pub open spec fn lex_less(left: Seq<usize>, right: Seq<usize>) -> bool {
    lex_less_from(left, right, 0)
}

/// Decides dictionary order.
pub fn precedes_lexically(left: &[usize], right: &[usize]) -> (less: bool)
    ensures
        less == lex_less(left@, right@),
{
    let mut at: usize = 0;
    while at < left.len() && at < right.len()
        invariant
            at <= left@.len(),
            at <= right@.len(),
            lex_less(left@, right@) == lex_less_from(left@, right@, at as int),
        decreases left@.len() - at,
    {
        if left[at] != right[at] {
            return left[at] < right[at];
        }
        at += 1;
    }
    at < right.len()
}

/// Dictionary order is irreflexive, asymmetric and connects distinct routes.
pub proof fn lemma_lex_less_strict(left: Seq<usize>, right: Seq<usize>, from: int)
    requires
        0 <= from <= left.len(),
        from <= right.len(),
        forall|i: int| 0 <= i < from ==> left[i] == right[i],
    ensures
        !(lex_less_from(left, right, from) && lex_less_from(right, left, from)),
        !lex_less_from(left, right, from) && !lex_less_from(right, left, from) ==> left == right,
    decreases left.len() - from,
{
    if from < left.len() && from < right.len() && left[from] == right[from] {
        lemma_lex_less_strict(left, right, from + 1);
    } else if from >= left.len() && from >= right.len() {
        assert(left =~= right);
    }
}

/// Dictionary order is transitive.
pub proof fn lemma_lex_less_transitive(a: Seq<usize>, b: Seq<usize>, c: Seq<usize>, from: int)
    requires
        0 <= from,
        lex_less_from(a, b, from),
        lex_less_from(b, c, from),
    ensures
        lex_less_from(a, c, from),
    decreases b.len() - from,
{
    if from < a.len() && from < b.len() && from < c.len() && a[from] == b[from] && b[from]
        == c[from] {
        lemma_lex_less_transitive(a, b, c, from + 1);
    }
}

/// Whether two routes are the same.
pub fn same_route(left: &[usize], right: &[usize]) -> (same: bool)
    ensures
        same == (left@ == right@),
{
    if left.len() != right.len() {
        return false;
    }
    let mut at: usize = 0;
    while at < left.len()
        invariant
            at <= left@.len(),
            left@.len() == right@.len(),
            forall|i: int| 0 <= i < at ==> left@[i] == right@[i],
        decreases left@.len() - at,
    {
        if left[at] != right[at] {
            return false;
        }
        at += 1;
    }
    assert(left@ =~= right@);
    true
}

/// The first index at or after `from` that is no valid track number, or the
/// length when every one is valid.
pub open spec fn first_outside_from(items: Seq<usize>, track_count: int, from: int) -> int
    decreases items.len() - from,
{
    if from >= items.len() {
        items.len() as int
    } else if items[from] >= track_count {
        from
    } else {
        first_outside_from(items, track_count, from + 1)
    }
}

/// The position of the first number that is no valid track number.
pub open spec fn first_outside(items: Seq<usize>, track_count: int) -> int {
    first_outside_from(items, track_count, 0)
}

/// Whether every number names a track.
pub open spec fn in_range(items: Seq<usize>, track_count: int) -> bool {
    forall|i: int| 0 <= i < items.len() ==> #[trigger] items[i] < track_count
}

/// No number lies outside exactly when the first outside position is the length.
pub proof fn lemma_first_outside(items: Seq<usize>, track_count: int, from: int)
    requires
        0 <= from <= items.len(),
        forall|i: int| 0 <= i < from ==> #[trigger] items[i] < track_count,
    ensures
        from <= first_outside_from(items, track_count, from) <= items.len(),
        first_outside_from(items, track_count, from) < items.len() ==> items[first_outside_from(
            items,
            track_count,
            from,
        )] >= track_count,
        in_range(items, track_count) == (first_outside_from(items, track_count, from)
            == items.len()),
    decreases items.len() - from,
{
    if from < items.len() && items[from] < track_count {
        lemma_first_outside(items, track_count, from + 1);
    }
}

/// Finds the first number that names no track.
pub fn find_outside(items: &[usize], track_count: usize) -> (found: Option<usize>)
    ensures
        match found {
            Some(index) => {
                &&& first_outside(items@, track_count as int) < items@.len()
                &&& index == items@[first_outside(items@, track_count as int)]
            },
            None => first_outside(items@, track_count as int) == items@.len(),
        },
        found is None == in_range(items@, track_count as int),
{
    proof {
        lemma_first_outside(items@, track_count as int, 0);
    }
    let mut at: usize = 0;
    while at < items.len()
        invariant
            at <= items@.len(),
            first_outside(items@, track_count as int) == first_outside_from(
                items@,
                track_count as int,
                at as int,
            ),
            in_range(items@, track_count as int) == (first_outside(items@, track_count as int)
                == items@.len()),
        decreases items@.len() - at,
    {
        if items[at] >= track_count {
            return Some(items[at]);
        }
        at += 1;
    }
    None
}

} // verus!
