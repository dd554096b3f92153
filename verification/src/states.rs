//! The states of a bounded search: what they hold, how they rank and which of
//! them are kept.

use crate::anchored_path::{capped_sum, larger};
use crate::sequences::{
    lemma_lex_less_strict, lemma_lex_less_transitive, lemma_views_add, lex_less, precedes_lexically,
    same_route, views,
};
use crate::sorting::{
    all_hold, dedup, dedup_from, dedup_views, first_few, is_ranking, lemma_all_hold, reversed,
    sifting_drops_the_last, sort_views, stable_sort, stable_sort_is_sorted,
    stable_sort_same_members, truncate_views,
};
use vstd::prelude::*;

verus! {

/// A route that a search has reached, its objective and what is noted of it.
#[verifier::ext_equal]
pub struct SearchStateView<R> {
    pub route: Seq<usize>,
    pub objective: nat,
    pub record: R,
}

/// A route that a search has reached, its objective and what is noted of it.
pub struct SearchState<R> {
    pub route: Vec<usize>,
    pub objective: u128,
    pub record: R,
}

impl<R: View> View for SearchState<R> {
    type V = SearchStateView<R::V>;

    open spec fn view(&self) -> SearchStateView<R::V> {
        SearchStateView {
            route: self.route@,
            objective: self.objective as nat,
            record: self.record@,
        }
    }
}

/// Whether a state comes strictly before another: by its objective, then by its
/// route.
pub open spec fn state_precedes<R>(a: SearchStateView<R>, b: SearchStateView<R>) -> bool {
    a.objective < b.objective || (a.objective == b.objective && lex_less(a.route, b.route))
}

/// The ranking of states.
pub open spec fn best_state_first<R>() -> spec_fn(SearchStateView<R>, SearchStateView<R>) -> bool {
    |a: SearchStateView<R>, b: SearchStateView<R>| !state_precedes(b, a)
}

/// Whether two states have the same route.
pub open spec fn same_state_route<R>() -> spec_fn(SearchStateView<R>, SearchStateView<R>) -> bool {
    |a: SearchStateView<R>, b: SearchStateView<R>| a.route == b.route
}

/// States can be ranked.
pub proof fn lemma_state_ranking<R>()
    ensures
        is_ranking(best_state_first::<R>()),
{
    let leq = best_state_first::<R>();
    assert forall|a: SearchStateView<R>, b: SearchStateView<R>| #[trigger]
        leq(a, b) || leq(b, a) by {
        lemma_lex_less_strict(a.route, b.route, 0);
    }
    assert forall|a: SearchStateView<R>, b: SearchStateView<R>, c: SearchStateView<R>| #[trigger]
        leq(a, b) && #[trigger] leq(b, c) implies leq(a, c) by {
        lemma_lex_less_strict(a.route, b.route, 0);
        lemma_lex_less_strict(b.route, c.route, 0);
        if state_precedes(c, a) {
            if lex_less(c.route, a.route) && lex_less(a.route, b.route) {
                lemma_lex_less_transitive(c.route, a.route, b.route, 0);
            }
            if lex_less(b.route, c.route) && lex_less(c.route, a.route) {
                lemma_lex_less_transitive(b.route, c.route, a.route, 0);
            }
        }
    }
}

/// Decides whether a state comes strictly before another.
pub fn comes_before<R: View>(a: &SearchState<R>, b: &SearchState<R>) -> (before: bool)
    ensures
        before == state_precedes(a@, b@),
{
    a.objective < b.objective || (a.objective == b.objective && precedes_lexically(
        a.route.as_slice(),
        b.route.as_slice(),
    ))
}

// Counting what was added.

/// The most tracks that one of the first `count` states adds to a route of
/// `original` tracks.
pub open spec fn most_added<R>(states: Seq<SearchStateView<R>>, original: int, count: int) -> nat
    decreases count,
{
    if count <= 0 {
        0
    } else {
        larger(
            most_added(states, original, count - 1),
            (states[count - 1].route.len() - original) as nat,
        )
    }
}

/// Every state adds at most what the most adding one does.
pub proof fn lemma_most_added<R>(states: Seq<SearchStateView<R>>, original: int, count: int)
    requires
        0 <= count <= states.len(),
    ensures
        forall|i: int|
            0 <= i < count && original <= (#[trigger] states[i]).route.len() ==> states[i].route.len()
                - original <= most_added(states, original, count),
    decreases count,
{
    if count > 0 {
        lemma_most_added(states, original, count - 1);
    }
}

/// Finds the most tracks that a state adds.
pub fn find_most_added<R: View>(states: &Vec<SearchState<R>>, original: usize) -> (most: usize)
    requires
        forall|i: int| 0 <= i < states@.len() ==> original <= (#[trigger] states@[i]).route@.len(),
    ensures
        most == most_added(views(states@), original as int, states@.len() as int),
        forall|i: int|
            0 <= i < states@.len() ==> (#[trigger] states@[i]).route@.len() - original <= most,
        most == 0 || exists|i: int|
            0 <= i < states@.len() && (#[trigger] states@[i]).route@.len() - original == most,
{
    let ghost all = views(states@);
    let mut most: usize = 0;
    let mut at: usize = 0;
    while at < states.len()
        invariant
            at <= states@.len(),
            all == views(states@),
            forall|i: int|
                0 <= i < states@.len() ==> original <= (#[trigger] states@[i]).route@.len(),
            most == most_added(all, original as int, at as int),
            forall|i: int| 0 <= i < at ==> (#[trigger] states@[i]).route@.len() - original <= most,
            most == 0 || exists|i: int|
                0 <= i < at && (#[trigger] states@[i]).route@.len() - original == most,
        decreases states@.len() - at,
    {
        assert(all[at as int] == states@[at as int]@);
        let added: usize = states[at].route.len() - original;
        if added > most {
            most = added;
        }
        at += 1;
    }
    most
}

// Keeping the best.

/// The states among the first `count` whose routes have a given length.
pub open spec fn having_length<R>(
    states: Seq<SearchStateView<R>>,
    length: int,
    count: int,
) -> Seq<SearchStateView<R>>
    decreases count,
{
    if count <= 0 {
        seq![]
    } else if states[count - 1].route.len() == length {
        having_length(states, length, count - 1).push(states[count - 1])
    } else {
        having_length(states, length, count - 1)
    }
}

/// The best states, no two with the same route.
pub open spec fn beam<R>(states: Seq<SearchStateView<R>>, width: int) -> Seq<SearchStateView<R>> {
    first_few(dedup(stable_sort(states, best_state_first()), same_state_route()), width)
}

/// The best states for every number of added tracks below `count`, the smaller
/// numbers first.
pub open spec fn layers<R>(
    states: Seq<SearchStateView<R>>,
    original: int,
    width: int,
    count: int,
) -> Seq<SearchStateView<R>>
    decreases count,
{
    if count <= 0 {
        seq![]
    } else {
        layers(states, original, width, count - 1) + beam(
            having_length(states, original + count - 1, states.len() as int),
            width,
        )
    }
}

/// What is kept of the states that a step of a search led to.
pub open spec fn kept_states<R>(
    states: Seq<SearchStateView<R>>,
    original: int,
    width: int,
) -> Seq<SearchStateView<R>> {
    layers(
        states,
        original,
        width,
        most_added(states, original, states.len() as int) as int + 1,
    )
}

proof fn lemma_having_length_hold<R>(
    states: Seq<SearchStateView<R>>,
    property: spec_fn(SearchStateView<R>) -> bool,
    length: int,
    count: int,
)
    requires
        all_hold(states, property),
        0 <= count <= states.len(),
    ensures
        all_hold(having_length(states, length, count), property),
        having_length(states, length, count).len() <= count,
    decreases count,
{
    if count > 0 {
        lemma_having_length_hold(states, property, length, count - 1);
        let before = having_length(states, length, count - 1);
        let after = having_length(states, length, count);
        assert forall|i: int| 0 <= i < after.len() implies property(#[trigger] after[i]) by {
            if i < before.len() {
                assert(property(before[i]));
            } else {
                assert(property(states[count - 1]));
            }
        }
    }
}

/// The best of some states have what all of the states have.
pub proof fn lemma_beam_hold<R>(
    states: Seq<SearchStateView<R>>,
    property: spec_fn(SearchStateView<R>) -> bool,
    width: int,
)
    requires
        all_hold(states, property),
        0 <= width,
    ensures
        all_hold(beam(states, width), property),
        beam(states, width).len() <= width,
{
    let leq = best_state_first::<R>();
    let same = same_state_route::<R>();
    lemma_all_hold(states, property, leq, same, width);
    let sorted = stable_sort(states, leq);
    lemma_all_hold(sorted, property, leq, same, width);
    lemma_all_hold(dedup(sorted, same), property, leq, same, width);
}

proof fn lemma_layers_hold<R>(
    states: Seq<SearchStateView<R>>,
    property: spec_fn(SearchStateView<R>) -> bool,
    original: int,
    width: int,
    count: int,
)
    requires
        all_hold(states, property),
        0 <= width,
    ensures
        all_hold(layers(states, original, width, count), property),
    decreases count,
{
    if count > 0 {
        lemma_layers_hold(states, property, original, width, count - 1);
        let length = original + count - 1;
        lemma_having_length_hold(states, property, length, states.len() as int);
        let group = having_length(states, length, states.len() as int);
        lemma_beam_hold(group, property, width);
        let before = layers(states, original, width, count - 1);
        let best = beam(group, width);
        let after = before + best;
        assert forall|i: int| 0 <= i < after.len() implies property(#[trigger] after[i]) by {
            if i < before.len() {
                assert(property(before[i]));
            } else {
                assert(property(best[i - before.len()]));
            }
        }
    }
}

/// What holds of every state holds of every one that is kept.
pub proof fn lemma_kept_hold<R>(
    states: Seq<SearchStateView<R>>,
    property: spec_fn(SearchStateView<R>) -> bool,
    original: int,
    width: int,
)
    requires
        all_hold(states, property),
        0 <= width,
    ensures
        all_hold(kept_states(states, original, width), property),
{
    lemma_layers_hold(
        states,
        property,
        original,
        width,
        most_added(states, original, states.len() as int) as int + 1,
    );
}

fn best_states<R: View>(states: Vec<SearchState<R>>, width: usize) -> (best: Vec<SearchState<R>>)
    ensures
        views(best@) == beam(views(states@), width as int),
{
    let leq = |a: &SearchState<R>, b: &SearchState<R>| -> (first: bool)
        ensures
            first == best_state_first::<R::V>()(a@, b@),
        { !comes_before(b, a) };
    proof {
        lemma_state_ranking::<R::V>();
    }
    let sorted = sort_views(states, &leq, Ghost(best_state_first::<R::V>()));
    let is_same = |a: &SearchState<R>, b: &SearchState<R>| -> (same: bool)
        ensures
            same == same_state_route::<R::V>()(a@, b@),
        { same_route(a.route.as_slice(), b.route.as_slice()) };
    let mut best = dedup_views(sorted, &is_same, Ghost(same_state_route::<R::V>()));
    truncate_views(&mut best, width);
    best
}

/// Keeps the best states for every number of added tracks.
pub fn keep_states<R: View>(
    states: Vec<SearchState<R>>,
    original: usize,
    width: usize,
) -> (kept: Vec<SearchState<R>>)
    requires
        forall|i: int|
            0 <= i < states@.len() ==> original <= (#[trigger] states@[i]).route@.len()
                < usize::MAX,
    ensures
        views(kept@) == kept_states(views(states@), original as int, width as int),
{
    let ghost all = views(states@);
    let ghost total = states@.len() as int;
    let most: usize = find_most_added(&states, original);
    let mut groups: Vec<Vec<SearchState<R>>> = Vec::new();
    let mut slot: usize = 0;
    while slot <= most
        invariant
            slot <= most + 1,
            most < usize::MAX,
            groups@.len() == slot,
            forall|g: int| 0 <= g < slot ==> (#[trigger] groups@[g])@.len() == 0,
        decreases most + 1 - slot,
    {
        groups.push(Vec::new());
        slot += 1;
    }
    let mut rest = reversed(states);
    proof {
        assert forall|g: int| 0 <= g < groups@.len() implies views((#[trigger] groups@[g])@)
            == having_length(all, original + g, 0) by {
            assert(views(groups@[g]@) =~= seq![]);
        }
    }
    while rest.len() > 0
        invariant
            rest@.len() <= total,
            all.len() == total,
            groups@.len() == most + 1,
            views(rest@.reverse()) =~= all.skip(total - rest@.len()),
            forall|i: int|
                0 <= i < rest@.len() ==> original <= (#[trigger] rest@[i]).route@.len() <= original
                    + most,
            forall|g: int|
                0 <= g < groups@.len() ==> views((#[trigger] groups@[g])@) == having_length(
                    all,
                    original + g,
                    total - rest@.len(),
                ),
        decreases rest@.len(),
    {
        let ghost before = rest@;
        let ghost at = total - rest@.len();
        let ghost filled = groups@;
        let item = rest.pop().unwrap();
        proof {
            assert(all[at] == item@) by {
                assert(views(before.reverse())[0] == all.skip(at)[0]);
            }
            assert(views(rest@.reverse()) =~= all.skip(at + 1)) by {
                assert forall|i: int| 0 <= i < rest@.len() implies views(rest@.reverse())[i]
                    == #[trigger] all.skip(at + 1)[i] by {
                    assert(rest@.reverse()[i] == before.reverse()[i + 1]);
                    assert(views(before.reverse())[i + 1] == all.skip(at)[i + 1]);
                }
            }
            assert(before.last() == before[before.len() - 1]);
        }
        let slot: usize = item.route.len() - original;
        proof {
            crate::sequences::lemma_views_push(groups@[slot as int]@, item);
        }
        groups[slot].push(item);
        proof {
            assert forall|g: int| 0 <= g < groups@.len() implies views((#[trigger] groups@[g])@)
                == having_length(all, original + g, total - rest@.len()) by {
                assert(views(filled[g]@) == having_length(all, original + g, at));
            }
        }
    }
    let mut kept: Vec<SearchState<R>> = Vec::new();
    let mut done: usize = 0;
    assert(views(kept@) =~= layers(all, original as int, width as int, 0));
    while done <= most
        invariant
            done <= most + 1,
            most < usize::MAX,
            all.len() == total,
            groups@.len() == most + 1 - done,
            forall|g: int|
                0 <= g < groups@.len() ==> views((#[trigger] groups@[g])@) == having_length(
                    all,
                    original + done + g,
                    total,
                ),
            views(kept@) == layers(all, original as int, width as int, done as int),
        decreases most + 1 - done,
    {
        let ghost waiting = groups@;
        let group = groups.remove(0);
        proof {
            assert(group == waiting[0]);
            assert forall|g: int| 0 <= g < groups@.len() implies views((#[trigger] groups@[g])@)
                == having_length(all, original + (done + 1) + g, total) by {
                assert(groups@[g] == waiting[g + 1]);
            }
        }
        let mut best = best_states(group, width);
        proof {
            lemma_views_add(kept@, best@);
        }
        kept.append(&mut best);
        done += 1;
    }
    kept
}

// Choosing one.

/// Whether a route has the length that is wanted, if one is.
pub open spec fn has_length(route: Seq<usize>, length: Option<int>) -> bool {
    match length {
        Some(wanted) => route.len() == wanted,
        None => true,
    }
}

/// The best state with a route of the wanted length, from `at` on, where `best`
/// is the best one before.
pub open spec fn best_from<R>(
    states: Seq<SearchStateView<R>>,
    length: Option<int>,
    at: int,
    best: Option<int>,
) -> Option<int>
    decreases states.len() - at,
{
    if at >= states.len() {
        best
    } else if has_length(states[at].route, length) && (match best {
        None => true,
        Some(before) => state_precedes(states[at], states[before]),
    }) {
        best_from(states, length, at + 1, Some(at))
    } else {
        best_from(states, length, at + 1, best)
    }
}

/// The state that is found has the length, and no other one with it comes
/// before.
pub proof fn lemma_best<R>(
    states: Seq<SearchStateView<R>>,
    length: Option<int>,
    at: int,
    best: Option<int>,
)
    requires
        0 <= at <= states.len(),
        best matches Some(before) ==> 0 <= before < at && has_length(states[before].route, length),
        best is None ==> forall|i: int|
            0 <= i < at ==> !has_length((#[trigger] states[i]).route, length),
        best matches Some(before) ==> forall|i: int|
            0 <= i < at && has_length((#[trigger] states[i]).route, length) ==> !state_precedes(
                states[i],
                states[before],
            ),
    ensures
        match best_from(states, length, at, best) {
            Some(found) => 0 <= found < states.len() && has_length(states[found].route, length)
                && forall|i: int|
                0 <= i < states.len() && has_length((#[trigger] states[i]).route, length)
                    ==> !state_precedes(states[i], states[found]),
            None => forall|i: int|
                0 <= i < states.len() ==> !has_length((#[trigger] states[i]).route, length),
        },
    decreases states.len() - at,
{
    if at < states.len() {
        let leq = best_state_first::<R>();
        lemma_state_ranking::<R>();
        if has_length(states[at].route, length) && (match best {
            None => true,
            Some(before) => state_precedes(states[at], states[before]),
        }) {
            assert forall|i: int|
                0 <= i < at + 1 && has_length(
                    (#[trigger] states[i]).route,
                    length,
                ) implies !state_precedes(states[i], states[at]) by {
                lemma_lex_less_strict(states[at].route, states[at].route, 0);
                if i < at {
                    if let Some(before) = best {
                        assert(leq(states[before], states[i]));
                        lemma_lex_less_strict(states[at].route, states[before].route, 0);
                        assert(leq(states[at], states[before]));
                        assert(leq(states[at], states[i]));
                    }
                }
            }
            lemma_best(states, length, at + 1, Some(at));
        } else {
            lemma_best(states, length, at + 1, best);
        }
    }
}

/// The length that is wanted, if one is.
pub open spec fn length_in(length: Option<usize>) -> Option<int> {
    match length {
        Some(wanted) => Some(wanted as int),
        None => None,
    }
}

/// Finds the best state with a route of the wanted length.
pub fn find_best<R: View>(states: &Vec<SearchState<R>>, length: Option<usize>) -> (found: Option<
    usize,
>)
    ensures
        match best_from(views(states@), length_in(length), 0, None) {
            Some(at) => found is Some && found->Some_0 == at && 0 <= at < states@.len(),
            None => found is None,
        },
{
    let ghost all = views(states@);
    let mut best: Option<usize> = None;
    let mut at: usize = 0;
    let ghost mut noted: Option<int> = None;
    while at < states.len()
        invariant
            at <= states@.len(),
            all == views(states@),
            match noted {
                Some(before) => best is Some && best->Some_0 == before && 0 <= before
                    < states@.len(),
                None => best is None,
            },
            best_from(all, length_in(length), 0, None) == best_from(
                all,
                length_in(length),
                at as int,
                noted,
            ),
        decreases states@.len() - at,
    {
        assert(all[at as int] == states@[at as int]@);
        let fits: bool = match length {
            Some(wanted) => states[at].route.len() == wanted,
            None => true,
        };
        let better: bool = if fits {
            match best {
                None => true,
                Some(before) => {
                    assert(all[before as int] == states@[before as int]@);
                    comes_before(&states[at], &states[before])
                },
            }
        } else {
            false
        };
        if better {
            best = Some(at);
            proof {
                noted = Some(at as int);
            }
        }
        at += 1;
    }
    best
}

/// How far a search has come.
#[verifier::ext_equal]
pub struct Progress<R> {
    pub states: Seq<SearchStateView<R>>,
    pub evaluated: int,
    pub retained: int,
}

/// A search once the states that a step led to are sifted.
pub open spec fn advanced<R>(
    progress: Progress<R>,
    expanded: Seq<SearchStateView<R>>,
    original: int,
    width: int,
) -> Progress<R> {
    let kept = kept_states(expanded, original, width);
    Progress {
        states: kept,
        evaluated: capped_sum(progress.evaluated, expanded.len() as int),
        retained: capped_sum(progress.retained, kept.len() as int),
    }
}

proof fn lemma_having_length_members<R>(
    states: Seq<SearchStateView<R>>,
    length: int,
    count: int,
    at: int,
)
    requires
        0 <= at < count <= states.len(),
        states[at].route.len() == length,
    ensures
        having_length(states, length, count).contains(states[at]),
    decreases count,
{
    let after = having_length(states, length, count);
    if at == count - 1 {
        assert(after.last() == states[at]);
    } else {
        lemma_having_length_members(states, length, count - 1, at);
        let before = having_length(states, length, count - 1);
        let i = choose|i: int| 0 <= i < before.len() && before[i] == states[at];
        assert(after[i] == states[at]);
    }
}

proof fn lemma_dedup_keeps_first<V>(
    items: Seq<V>,
    same: spec_fn(V, V) -> bool,
    at: int,
    kept: Seq<V>,
)
    requires
        kept.len() > 0,
    ensures
        dedup_from(items, same, at, kept).len() > 0,
        dedup_from(items, same, at, kept)[0] == kept[0],
    decreases items.len() - at,
{
    if at < items.len() {
        if same(items[at], kept.last()) {
            lemma_dedup_keeps_first(items, same, at + 1, kept);
        } else {
            lemma_dedup_keeps_first(items, same, at + 1, kept.push(items[at]));
        }
    }
}

proof fn lemma_layers_hold_each<R>(
    states: Seq<SearchStateView<R>>,
    original: int,
    width: int,
    count: int,
    added: int,
    state: SearchStateView<R>,
)
    requires
        0 <= added < count,
        beam(having_length(states, original + added, states.len() as int), width).contains(state),
    ensures
        layers(states, original, width, count).contains(state),
    decreases count,
{
    let before = layers(states, original, width, count - 1);
    let last = beam(having_length(states, original + count - 1, states.len() as int), width);
    let all = layers(states, original, width, count);
    if added == count - 1 {
        let i = choose|i: int| 0 <= i < last.len() && last[i] == state;
        assert(all[before.len() + i] == state);
    } else {
        lemma_layers_hold_each(states, original, width, count - 1, added, state);
        let i = choose|i: int| 0 <= i < before.len() && before[i] == state;
        assert(all[i] == state);
    }
}

/// No number of added tracks crowds out another: of every number that a step
/// led to, the best state is kept.
pub proof fn the_best_of_every_count_is_kept<R>(
    states: Seq<SearchStateView<R>>,
    original: int,
    width: int,
    at: int,
)
    requires
        0 < width,
        0 <= at < states.len(),
        original <= states[at].route.len(),
    ensures
        exists|i: int|
            0 <= i < kept_states(states, original, width).len() && (#[trigger] kept_states(
                states,
                original,
                width,
            )[i]).route.len() == states[at].route.len() && !state_precedes(
                states[at],
                kept_states(states, original, width)[i],
            ),
{
    let length = states[at].route.len() as int;
    let count = states.len() as int;
    let alike = having_length(states, length, count);
    let leq = best_state_first::<R>();
    let sorted = stable_sort(alike, leq);
    let kept = beam(alike, width);
    lemma_having_length_members(states, length, count, at);
    stable_sort_same_members(alike, leq);
    lemma_state_ranking::<R>();
    stable_sort_is_sorted(alike, leq);
    assert(sorted.contains(states[at]));
    let place = choose|i: int| 0 <= i < sorted.len() && sorted[i] == states[at];
    let best = sorted[0];
    assert(leq(best, states[at]));
    assert(Seq::empty().push(best) =~= seq![best]);
    lemma_dedup_keeps_first(sorted, same_state_route(), 1, seq![best]);
    assert(kept[0] == best);
    assert(kept.contains(best));
    assert(sorted.contains(best));
    assert(alike.contains(best));
    lemma_having_length_is(states, length, count);
    lemma_most_added(states, original, count);
    let added = length - original;
    lemma_layers_hold_each(
        states,
        original,
        width,
        most_added(states, original, count) as int + 1,
        added,
        best,
    );
    let all = kept_states(states, original, width);
    let i = choose|i: int| 0 <= i < all.len() && all[i] == best;
    assert(all[i].route.len() == length);
}

proof fn lemma_having_length_is<R>(
    states: Seq<SearchStateView<R>>,
    length: int,
    count: int,
)
    requires
        0 <= count <= states.len(),
    ensures
        forall|state: SearchStateView<R>| #[trigger]
            having_length(states, length, count).contains(state) ==> state.route.len() == length,
    decreases count,
{
    if count > 0 {
        lemma_having_length_is(states, length, count - 1);
        let before = having_length(states, length, count - 1);
        let after = having_length(states, length, count);
        assert forall|state: SearchStateView<R>| #[trigger] after.contains(
            state,
        ) implies state.route.len() == length by {
            let i = choose|i: int| 0 <= i < after.len() && after[i] == state;
            if i < before.len() {
                assert(before.contains(before[i]));
            }
        }
    }
}

proof fn lemma_layered_in_beam<R>(
    states: Seq<SearchStateView<R>>,
    original: int,
    width: int,
    count: int,
    at: int,
)
    requires
        0 <= width,
        0 <= at < layers(states, original, width, count).len(),
    ensures
        ({
            let state = layers(states, original, width, count)[at];
            beam(
                having_length(states, state.route.len() as int, states.len() as int),
                width,
            ).contains(state)
        }),
    decreases count,
{
    let before = layers(states, original, width, count - 1);
    let length = original + count - 1;
    let alike = having_length(states, length, states.len() as int);
    let last = beam(alike, width);
    let state = layers(states, original, width, count)[at];
    if at < before.len() {
        lemma_layered_in_beam(states, original, width, count - 1, at);
        assert(state == before[at]);
    } else {
        let property = |state: SearchStateView<R>| state.route.len() == length;
        lemma_having_length_is(states, length, states.len() as int);
        assert(all_hold(alike, property)) by {
            assert forall|i: int| 0 <= i < alike.len() implies property(#[trigger] alike[i]) by {
                assert(alike.contains(alike[i]));
            }
        }
        lemma_beam_hold(alike, property, width);
        assert(state == last[at - before.len()]);
        assert(property(last[at - before.len()]));
    }
}

/// A state is dropped only where every kept state that adds as many tracks has
/// an objective no larger, or where its route is kept with an objective no
/// larger.
pub proof fn the_beam_drops_only_what_scores_no_less<R>(
    states: Seq<SearchStateView<R>>,
    original: int,
    width: int,
    at: int,
)
    requires
        0 < width,
        0 <= at < states.len(),
        original <= states[at].route.len(),
    ensures
        ({
            let kept = kept_states(states, original, width);
            ||| exists|i: int|
                0 <= i < kept.len() && (#[trigger] kept[i]).route == states[at].route
                    && kept[i].objective <= states[at].objective
            ||| forall|i: int|
                0 <= i < kept.len() && (#[trigger] kept[i]).route.len() == states[at].route.len()
                    ==> kept[i].objective <= states[at].objective
        }),
{
    let count = states.len() as int;
    let length = states[at].route.len() as int;
    let alike = having_length(states, length, count);
    let leq = best_state_first::<R>();
    let same = same_state_route::<R>();
    let best = beam(alike, width);
    let kept = kept_states(states, original, width);
    lemma_having_length_members(states, length, count, at);
    lemma_state_ranking::<R>();
    assert forall|x: SearchStateView<R>| #[trigger] same(x, x) by {}
    sifting_drops_the_last(alike, leq, same, width, states[at]);
    let most = most_added(states, original, count) as int + 1;
    if exists|i: int|
        0 <= i < best.len() && same(states[at], #[trigger] best[i]) && leq(best[i], states[at]) {
        let i = choose|i: int|
            0 <= i < best.len() && same(states[at], #[trigger] best[i]) && leq(
                best[i],
                states[at],
            );
        lemma_most_added(states, original, count);
        assert(best.contains(best[i]));
        lemma_layers_hold_each(states, original, width, most, length - original, best[i]);
        let k = choose|k: int| 0 <= k < kept.len() && kept[k] == best[i];
        assert(kept[k].route == states[at].route);
    } else {
        assert forall|i: int|
            0 <= i < kept.len() && (#[trigger] kept[i]).route.len()
                == states[at].route.len() implies kept[i].objective <= states[at].objective by {
            lemma_layered_in_beam(states, original, width, most, i);
            let k = choose|k: int| 0 <= k < best.len() && best[k] == kept[i];
            assert(leq(best[k], states[at]));
        }
    }
}

/// The state that is chosen has an objective no larger than any other whose
/// route has the wanted length, and where one is equal no later route. One is
/// chosen exactly where there is a route of that length.
pub proof fn the_chosen_state_scores_least<R>(
    states: Seq<SearchStateView<R>>,
    length: Option<int>,
    at: int,
)
    requires
        0 <= at < states.len(),
        length matches Some(wanted) ==> states[at].route.len() == wanted,
    ensures
        best_from(states, length, 0, None) matches Some(found) && {
            &&& 0 <= found < states.len()
            &&& length matches Some(wanted) ==> states[found].route.len() == wanted
            &&& states[found].objective <= states[at].objective
            &&& states[found].objective == states[at].objective ==> !lex_less(
                states[at].route,
                states[found].route,
            )
        },
{
    lemma_best(states, length, 0, None);
    assert(has_length(states[at].route, length));
}

} // verus!
