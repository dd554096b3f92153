//! What variation may change, which candidates are followed up, and how far a
//! search can come, in numbers.

use crate::bridge::{
    BridgeCandidateEvaluation, BridgeConfig, BridgeModel, EndpointCandidateEvaluation, EndpointSlot,
};
use crate::bridge_laws::{candidates_for_an_end_come_in_order, guided_no_worse};
use crate::contextual::ContextMatrixView;
use crate::exact::{accepted_upto, gap_bound, gap_candidates, with_candidates, ExactModel};
use crate::exact_endpoints::{
    accepted_endpoints_upto, endpoint_choices, endpoint_ranked, guided_endpoint_first,
    leading_accepted_endpoints, lemma_leading_accepted_endpoints, shuffled_endpoints, slot_position,
};
use crate::preview::{
    accepts, adjacent_from, evolving_ranked, gap_position, guided_first, guided_percentile,
    leading_accepted, lemma_adjacent, lemma_leading_accepted, numbers_of, right_position,
    shuffled_bridges, AutomaticGapView, EvolvingAcceptance, Guidance,
};
use crate::semantic::CandidateSemanticsView;
use crate::sequences::{lemma_position_from, lemma_position_of_member, position};
use crate::sorting::{is_sorted, stable_sort, stable_sort_is_sorted, stable_sort_same_members};
use crate::variation::{pool_is_bounded, pool_length};
use vstd::prelude::*;

verus! {

// How many change places.

/// The smaller of two numbers.
spec fn least(a: int, b: int) -> int {
    if a <= b {
        a
    } else {
        b
    }
}

/// Under variation as many of the accepted alternatives change places as the
/// percentage says of those between the wanted number and 32, and of all of them
/// where there are fewer. Without variation none do.
pub proof fn pools_widen_with_variation(accepted: int, percent: u8, minimum: int)
    requires
        0 < accepted,
        percent <= 100,
    ensures
        percent == 0 ==> pool_length(accepted, percent, minimum) == 1,
        percent == 100 && accepted <= 32 ==> pool_length(accepted, percent, minimum) == accepted,
        percent == 100 && accepted >= 32 ==> pool_length(accepted, percent, minimum) == 32,
        percent > 0 && minimum <= accepted && minimum <= 32 ==> minimum <= pool_length(
            accepted,
            percent,
            minimum,
        ),
        percent > 0 && minimum >= accepted && accepted <= 32 ==> pool_length(
            accepted,
            percent,
            minimum,
        ) == accepted,
        percent > 0 && minimum >= 32 && accepted >= 32 ==> pool_length(accepted, percent, minimum)
            == 32,
        percent > 0 && 1 <= minimum <= accepted && accepted <= 32 ==> {
            let more = pool_length(accepted, percent, minimum) - minimum;
            100 * more <= (accepted - minimum) * percent < 100 * (more + 1)
        },
        percent > 0 && 1 <= minimum <= 32 <= accepted ==> {
            let more = pool_length(accepted, percent, minimum) - minimum;
            100 * more <= (32 - minimum) * percent < 100 * (more + 1)
        },
{
    pool_is_bounded(accepted, percent, minimum);
    let ceiling = least(accepted, 32);
    let floor = if minimum < 1 {
        1
    } else {
        least(minimum, ceiling)
    };
    let span = ceiling - floor;
    assert(span * 100 / 100 == span) by (nonlinear_arith);
    assert(0 <= span * percent) by (nonlinear_arith)
        requires
            0 <= span,
            0 <= percent,
    ;
    assert(0 * percent == 0);
}

/// At which places candidates count as accepted.
pub open spec fn accepting_places(
    ranked: Seq<BridgeCandidateEvaluation>,
    acceptance: EvolvingAcceptance,
    config: BridgeConfig,
) -> Set<int> {
    Set::new(|i: int| 0 <= i < ranked.len() && accepts(acceptance, ranked[i], config))
}

proof fn lemma_stops_at_the_first(
    ranked: Seq<BridgeCandidateEvaluation>,
    config: BridgeConfig,
    acceptance: EvolvingAcceptance,
    at: int,
)
    requires
        0 <= at <= ranked.len(),
    ensures
        ({
            let stop = leading_accepted(ranked, config, acceptance, at);
            stop < ranked.len() ==> !accepts(acceptance, ranked[stop], config)
        }),
    decreases ranked.len() - at,
{
    if at < ranked.len() && accepts(acceptance, ranked[at], config) {
        lemma_stops_at_the_first(ranked, config, acceptance, at + 1);
    }
}

proof fn lemma_accepted_lead(
    ranked: Seq<BridgeCandidateEvaluation>,
    config: BridgeConfig,
    semantics: Seq<CandidateSemanticsView>,
    guidance: Guidance,
    acceptance: EvolvingAcceptance,
)
    requires
        is_sorted(ranked, guided_first(config, semantics, guidance, acceptance)),
    ensures
        accepting_places(ranked, acceptance, config).finite(),
        accepting_places(ranked, acceptance, config).len() == leading_accepted(
            ranked,
            config,
            acceptance,
            0,
        ),
{
    let stop = leading_accepted(ranked, config, acceptance, 0);
    let order = guided_first(config, semantics, guidance, acceptance);
    lemma_leading_accepted(ranked, config, acceptance, 0);
    lemma_stops_at_the_first(ranked, config, acceptance, 0);
    vstd::set_lib::lemma_int_range(0, stop);
    assert(accepting_places(ranked, acceptance, config) =~= vstd::set_lib::set_int_range(0, stop))
        by {
        assert forall|i: int| stop <= i < ranked.len() implies !accepts(
            acceptance,
            #[trigger] ranked[i],
            config,
        ) by {
            if i > stop {
                assert(order(ranked[stop], ranked[i]));
            }
        }
    }
}

/// Whether variation left the rest of a ranking behind a pool: what is in the
/// pool is accepted and no worse under guidance than what is behind it, and what
/// is behind it is in order.
pub open spec fn shuffles_the_first(
    ranked: Seq<BridgeCandidateEvaluation>,
    config: BridgeConfig,
    semantics: Seq<CandidateSemanticsView>,
    guidance: Guidance,
    acceptance: EvolvingAcceptance,
    pool: int,
) -> bool {
    &&& pool > 1 ==> forall|i: int|
        0 <= i < pool ==> accepts(acceptance, #[trigger] ranked[i], config)
    &&& forall|i: int, j: int|
        0 <= i < j < ranked.len() && pool <= j && accepts(acceptance, #[trigger] ranked[j], config)
            ==> accepts(acceptance, #[trigger] ranked[i], config) && guided_no_worse(
            semantics,
            guidance,
            ranked[i],
            ranked[j],
        )
}

/// Variation changes places among the best alone: as many of the accepted
/// candidates for a gap as the percentage allows, each of them no worse under
/// guidance than any candidate behind them, and these stay in order.
pub proof fn variation_shuffles_only_the_best(
    model: BridgeModel,
    route: Seq<usize>,
    position: usize,
    semantics: Seq<CandidateSemanticsView>,
    matrix: Option<ContextMatrixView>,
    guidance: Guidance,
    acceptance: EvolvingAcceptance,
)
    requires
        guidance.variation_percent <= 100,
    ensures
        evolving_ranked(model, route, position, semantics, matrix, guidance, acceptance) matches Ok(
            ranked,
        ) ==> {
            let accepted = accepting_places(ranked, acceptance, model.config).len() as int;
            shuffles_the_first(
                ranked,
                model.config,
                semantics,
                guidance,
                acceptance,
                pool_length(accepted, guidance.variation_percent, guidance.minimum_pool as int),
            )
        },
{
    if let Ok(ranked) = evolving_ranked(
        model,
        route,
        position,
        semantics,
        matrix,
        guidance,
        acceptance,
    ) {
        let evaluations = model.ranked(route, position as int, numbers_of(semantics), matrix)->Ok_0;
        let order = guided_first(model.config, semantics, guidance, acceptance);
        let sorted = stable_sort(evaluations, order);
        stable_sort_is_sorted(evaluations, order);
        lemma_accepted_lead(sorted, model.config, semantics, guidance, acceptance);
        let leading = leading_accepted(sorted, model.config, acceptance, 0);
        lemma_leading_accepted(sorted, model.config, acceptance, 0);
        let pool = pool_length(
            leading,
            guidance.variation_percent,
            guidance.minimum_pool as int,
        );
        pool_is_bounded(leading, guidance.variation_percent, guidance.minimum_pool as int);
        if pool > 1 {
            let shuffle = shuffled_bridges(guidance.seed, route, position);
            let head = sorted.take(pool);
            let shuffled = stable_sort(head, shuffle);
            stable_sort_same_members(head, shuffle);
            assert(ranked == shuffled + sorted.skip(pool));
            assert forall|i: int| 0 <= i < pool implies exists|k: int|
                0 <= k < pool && sorted[k] == #[trigger] ranked[i] by {
                assert(shuffled.contains(shuffled[i]));
                assert(head.contains(shuffled[i]));
                let k = choose|k: int| 0 <= k < head.len() && head[k] == shuffled[i];
                assert(sorted[k] == ranked[i]);
            }
            assert(accepting_places(ranked, acceptance, model.config) =~= accepting_places(
                sorted,
                acceptance,
                model.config,
            )) by {
                assert forall|i: int| 0 <= i < ranked.len() implies accepts(
                    acceptance,
                    #[trigger] ranked[i],
                    model.config,
                ) == accepts(acceptance, sorted[i], model.config) by {
                    if i < pool {
                        let k = choose|k: int| 0 <= k < pool && sorted[k] == ranked[i];
                        assert(accepts(acceptance, sorted[k], model.config));
                        assert(accepts(acceptance, sorted[i], model.config));
                    } else {
                        assert(ranked[i] == sorted[i]);
                    }
                }
            }
            assert forall|i: int, j: int|
                0 <= i < j < ranked.len() && pool <= j && accepts(
                    acceptance,
                    #[trigger] ranked[j],
                    model.config,
                ) implies accepts(acceptance, #[trigger] ranked[i], model.config)
                && guided_no_worse(semantics, guidance, ranked[i], ranked[j]) by {
                assert(ranked[j] == sorted[j]);
                let k = if i < pool {
                    choose|k: int| 0 <= k < pool && sorted[k] == ranked[i]
                } else {
                    i
                };
                assert(sorted[k] == ranked[i]);
                assert(order(sorted[k], sorted[j]));
            }
        } else {
            assert forall|i: int, j: int|
                0 <= i < j < ranked.len() && accepts(
                    acceptance,
                    #[trigger] ranked[j],
                    model.config,
                ) implies accepts(acceptance, #[trigger] ranked[i], model.config)
                && guided_no_worse(semantics, guidance, ranked[i], ranked[j]) by {
                assert(order(sorted[i], sorted[j]));
            }
        }
    }
}

// What is followed up.

proof fn lemma_accepted_upto(
    ranked: Seq<BridgeCandidateEvaluation>,
    acceptance: EvolvingAcceptance,
    config: BridgeConfig,
    count: int,
) -> (places: Seq<int>)
    requires
        0 <= count <= ranked.len(),
    ensures
        ({
            let accepted = accepted_upto(ranked, acceptance, config, count);
            &&& places.len() == accepted.len()
            &&& forall|i: int|
                0 <= i < places.len() ==> 0 <= (#[trigger] places[i]) < count && accepted[i]
                    == ranked[places[i]] && accepts(acceptance, accepted[i], config)
            &&& forall|i: int, j: int| 0 <= i < j < places.len() ==> places[i] < places[j]
            &&& forall|k: int|
                0 <= k < count && accepts(acceptance, #[trigger] ranked[k], config)
                    ==> places.contains(k)
        }),
    decreases count,
{
    if count <= 0 {
        seq![]
    } else {
        let before = lemma_accepted_upto(ranked, acceptance, config, count - 1);
        if accepts(acceptance, ranked[count - 1], config) {
            let places = before.push(count - 1);
            assert forall|k: int|
                0 <= k < count && accepts(acceptance, #[trigger] ranked[k], config) implies
                places.contains(k) by {
                if k < count - 1 {
                    let i = choose|i: int| 0 <= i < before.len() && before[i] == k;
                    assert(places[i] == k);
                } else {
                    assert(places[places.len() - 1] == k);
                }
            }
            places
        } else {
            before
        }
    }
}

/// Whether what is followed up stands in a ranking at the given places.
pub open spec fn stands_at(
    followed: Seq<BridgeCandidateEvaluation>,
    ranked: Seq<BridgeCandidateEvaluation>,
    places: Seq<int>,
) -> bool {
    &&& places.len() == followed.len()
    &&& forall|i: int|
        0 <= i < places.len() ==> 0 <= (#[trigger] places[i]) < ranked.len() && followed[i]
            == ranked[places[i]]
    &&& forall|i: int, j: int| 0 <= i < j < places.len() ==> places[i] < places[j]
}

/// Of a ranking the first accepted candidates are followed up, as many as may be:
/// an accepted one that is not is behind all of them, and then they are as many.
pub proof fn the_first_accepted_are_followed_up(
    model: ExactModel,
    ranked: Seq<BridgeCandidateEvaluation>,
    acceptance: EvolvingAcceptance,
    other: int,
)
    requires
        0 <= other < ranked.len(),
        accepts(acceptance, ranked[other], model.bridge.config),
    ensures
        ({
            let followed = model.followed(ranked, acceptance);
            &&& followed.len() <= model.config.candidate_limit
            &&& forall|i: int|
                0 <= i < followed.len() ==> accepts(
                    acceptance,
                    #[trigger] followed[i],
                    model.bridge.config,
                )
            &&& exists|places: Seq<int>| #[trigger]
                stands_at(followed, ranked, places) && (places.contains(other) || (followed.len()
                    == model.config.candidate_limit && forall|i: int|
                    0 <= i < places.len() ==> #[trigger] places[i] < other))
        }),
{
    let config = model.bridge.config;
    let all = accepted_upto(ranked, acceptance, config, ranked.len() as int);
    let places = lemma_accepted_upto(ranked, acceptance, config, ranked.len() as int);
    let followed = model.followed(ranked, acceptance);
    let limit = model.config.candidate_limit as int;
    let at = choose|i: int| 0 <= i < places.len() && places[i] == other;
    assert forall|i: int| 0 <= i < followed.len() implies accepts(
        acceptance,
        #[trigger] followed[i],
        config,
    ) by {
        assert(followed[i] == all[i]);
        assert(0 <= places[i] < ranked.len());
    }
    if all.len() <= limit {
        assert(stands_at(followed, ranked, places));
        assert(places.contains(other));
    } else {
        let kept = places.take(limit);
        assert(stands_at(followed, ranked, kept)) by {
            assert forall|i: int| 0 <= i < kept.len() implies 0 <= (#[trigger] kept[i])
                < ranked.len() && followed[i] == ranked[kept[i]] by {
                assert(kept[i] == places[i]);
            }
            assert forall|i: int, j: int| 0 <= i < j < kept.len() implies kept[i] < kept[j] by {
                assert(kept[i] == places[i] && kept[j] == places[j]);
            }
        }
        if at < limit {
            assert(kept[at] == other);
        } else {
            assert forall|i: int| 0 <= i < kept.len() implies #[trigger] kept[i] < other by {
                assert(kept[i] == places[i]);
                assert(places[i] < places[at]);
            }
        }
    }
}

// The ends.

proof fn lemma_accepted_endpoints(
    semantics: Seq<CandidateSemanticsView>,
    ranked: Seq<EndpointCandidateEvaluation>,
    count: int,
) -> (places: Seq<int>)
    requires
        0 <= count <= ranked.len(),
    ensures
        ({
            let accepted = accepted_endpoints_upto(semantics, ranked, count);
            &&& places.len() == accepted.len()
            &&& forall|i: int|
                0 <= i < places.len() ==> 0 <= (#[trigger] places[i]) < count
                    && accepted[i].evaluation == ranked[places[i]] && ranked[places[i]].accepted
            &&& forall|i: int, j: int| 0 <= i < j < places.len() ==> places[i] < places[j]
            &&& forall|k: int|
                0 <= k < count && (#[trigger] ranked[k]).accepted ==> places.contains(k)
        }),
    decreases count,
{
    if count <= 0 {
        seq![]
    } else {
        let before = lemma_accepted_endpoints(semantics, ranked, count - 1);
        if ranked[count - 1].accepted {
            let places = before.push(count - 1);
            assert forall|k: int| 0 <= k < count && (#[trigger] ranked[k]).accepted implies
                places.contains(k) by {
                if k < count - 1 {
                    let i = choose|i: int| 0 <= i < before.len() && before[i] == k;
                    assert(places[i] == k);
                } else {
                    assert(places[places.len() - 1] == k);
                }
            }
            places
        } else {
            before
        }
    }
}

/// At an end the best accepted candidates are tried, as many as may be. Without
/// variation one that is accepted and not tried has no smaller percentile under
/// guidance than any that is, and then as many are tried.
pub proof fn the_best_are_tried_at_an_end(
    bridge: BridgeModel,
    route: Seq<usize>,
    slot: EndpointSlot,
    semantics: Seq<CandidateSemanticsView>,
    limit: int,
    guidance: Guidance,
    other: int,
)
    requires
        0 <= limit,
        guidance.variation_percent == 0,
        endpoint_ranked(bridge, route, slot, semantics, guidance) is Ok,
        0 <= other < endpoint_ranked(bridge, route, slot, semantics, guidance)->Ok_0.len(),
        endpoint_ranked(bridge, route, slot, semantics, guidance)->Ok_0[other].accepted,
    ensures
        endpoint_choices(bridge, route, slot, semantics, limit, guidance) matches Ok(tried) && {
            let rival = endpoint_ranked(bridge, route, slot, semantics, guidance)->Ok_0[other];
            &&& tried.len() <= limit
            &&& forall|i: int| 0 <= i < tried.len() ==> (#[trigger] tried[i]).evaluation.accepted
            &&& {
                ||| exists|i: int| 0 <= i < tried.len() && (#[trigger] tried[i]).evaluation == rival
                ||| tried.len() == limit && forall|i: int|
                    0 <= i < tried.len() ==> guided_percentile(
                        semantics,
                        guidance,
                        (#[trigger] tried[i]).evaluation.candidate,
                        tried[i].evaluation.percentile,
                    ) <= guided_percentile(
                        semantics,
                        guidance,
                        rival.candidate,
                        rival.percentile,
                    )
            }
        },
{
    let ranked = endpoint_ranked(bridge, route, slot, semantics, guidance)->Ok_0;
    let all = accepted_endpoints_upto(semantics, ranked, ranked.len() as int);
    let tried = endpoint_choices(bridge, route, slot, semantics, limit, guidance)->Ok_0;
    let places = lemma_accepted_endpoints(semantics, ranked, ranked.len() as int);
    let at = choose|i: int| 0 <= i < places.len() && places[i] == other;
    assert forall|i: int| 0 <= i < tried.len() implies (
    #[trigger] tried[i]).evaluation.accepted by {
        assert(tried[i] == all[i]);
        assert(ranked[places[i]].accepted);
    }
    if at < limit {
        assert(tried[at] == all[at]);
        assert(tried[at].evaluation == ranked[other]);
    } else {
        assert forall|i: int| 0 <= i < tried.len() implies guided_percentile(
            semantics,
            guidance,
            (#[trigger] tried[i]).evaluation.candidate,
            tried[i].evaluation.percentile,
        ) <= guided_percentile(
            semantics,
            guidance,
            ranked[other].candidate,
            ranked[other].percentile,
        ) by {
            assert(tried[i] == all[i]);
            assert(places[i] < places[at]);
            candidates_for_an_end_come_in_order(
                bridge,
                route,
                slot,
                semantics,
                guidance,
                places[i],
                other,
            );
        }
    }
}

proof fn lemma_endpoints_stop(ranked: Seq<EndpointCandidateEvaluation>, at: int)
    requires
        0 <= at <= ranked.len(),
    ensures
        ({
            let stop = leading_accepted_endpoints(ranked, at);
            stop < ranked.len() ==> !ranked[stop].accepted
        }),
    decreases ranked.len() - at,
{
    if at < ranked.len() && ranked[at].accepted {
        lemma_endpoints_stop(ranked, at + 1);
    }
}

/// At which places candidates for an end are accepted.
pub open spec fn accepted_ends(ranked: Seq<EndpointCandidateEvaluation>) -> Set<int> {
    Set::new(|i: int| 0 <= i < ranked.len() && ranked[i].accepted)
}

proof fn lemma_accepted_ends_lead(
    ranked: Seq<EndpointCandidateEvaluation>,
    semantics: Seq<CandidateSemanticsView>,
    guidance: Guidance,
)
    requires
        is_sorted(ranked, guided_endpoint_first(semantics, guidance)),
    ensures
        accepted_ends(ranked).finite(),
        accepted_ends(ranked).len() == leading_accepted_endpoints(ranked, 0),
        forall|i: int|
            0 <= i < leading_accepted_endpoints(ranked, 0) ==> (#[trigger] ranked[i]).accepted,
{
    let stop = leading_accepted_endpoints(ranked, 0);
    let order = guided_endpoint_first(semantics, guidance);
    lemma_leading_accepted_endpoints(ranked, 0);
    lemma_endpoints_stop(ranked, 0);
    lemma_endpoints_lead(ranked, 0);
    vstd::set_lib::lemma_int_range(0, stop);
    assert(accepted_ends(ranked) =~= vstd::set_lib::set_int_range(0, stop)) by {
        assert forall|i: int| stop <= i < ranked.len() implies !(#[trigger] ranked[i]).accepted by {
            if i > stop {
                assert(order(ranked[stop], ranked[i]));
            }
        }
    }
}

proof fn lemma_endpoints_lead(ranked: Seq<EndpointCandidateEvaluation>, at: int)
    requires
        0 <= at <= ranked.len(),
    ensures
        forall|i: int|
            at <= i < leading_accepted_endpoints(ranked, at) ==> (#[trigger] ranked[i]).accepted,
    decreases ranked.len() - at,
{
    if at < ranked.len() && ranked[at].accepted {
        lemma_endpoints_lead(ranked, at + 1);
    }
}

/// Whether variation left the rest of a ranking for an end behind a pool: what is
/// in the pool is accepted and has no larger percentile under guidance than what
/// is behind it, and what is behind it is in order.
pub open spec fn shuffles_the_first_ends(
    ranked: Seq<EndpointCandidateEvaluation>,
    semantics: Seq<CandidateSemanticsView>,
    guidance: Guidance,
    pool: int,
) -> bool {
    &&& pool > 1 ==> forall|i: int| 0 <= i < pool ==> (#[trigger] ranked[i]).accepted
    &&& forall|i: int, j: int|
        0 <= i < j < ranked.len() && pool <= j && (#[trigger] ranked[j]).accepted ==> (
        #[trigger] ranked[i]).accepted && guided_percentile(
            semantics,
            guidance,
            ranked[i].candidate,
            ranked[i].percentile,
        ) <= guided_percentile(semantics, guidance, ranked[j].candidate, ranked[j].percentile)
}

proof fn lemma_shuffled_ends(
    sorted: Seq<EndpointCandidateEvaluation>,
    ranked: Seq<EndpointCandidateEvaluation>,
    semantics: Seq<CandidateSemanticsView>,
    guidance: Guidance,
    pool: int,
)
    requires
        is_sorted(sorted, guided_endpoint_first(semantics, guidance)),
        0 <= pool <= leading_accepted_endpoints(sorted, 0) <= sorted.len() == ranked.len(),
        forall|i: int| pool <= i < ranked.len() ==> #[trigger] ranked[i] == sorted[i],
        forall|i: int|
            0 <= i < pool ==> exists|k: int| 0 <= k < pool && sorted[k] == #[trigger] ranked[i],
    ensures
        accepted_ends(ranked) == accepted_ends(sorted),
        shuffles_the_first_ends(ranked, semantics, guidance, pool),
{
    let order = guided_endpoint_first(semantics, guidance);
    lemma_accepted_ends_lead(sorted, semantics, guidance);
    assert forall|i: int| 0 <= i < ranked.len() implies (#[trigger] ranked[i]).accepted
        == sorted[i].accepted by {
        if i < pool {
            let k = choose|k: int| 0 <= k < pool && sorted[k] == ranked[i];
            assert(sorted[k].accepted);
            assert(sorted[i].accepted);
        }
    }
    assert(accepted_ends(ranked) =~= accepted_ends(sorted));
    assert forall|i: int, j: int|
        0 <= i < j < ranked.len() && pool <= j && (#[trigger] ranked[j]).accepted implies (
    #[trigger] ranked[i]).accepted && guided_percentile(
        semantics,
        guidance,
        ranked[i].candidate,
        ranked[i].percentile,
    ) <= guided_percentile(semantics, guidance, ranked[j].candidate, ranked[j].percentile) by {
        let k = if i < pool {
            choose|k: int| 0 <= k < pool && sorted[k] == ranked[i]
        } else {
            i
        };
        assert(sorted[k] == ranked[i]);
        assert(order(sorted[k], sorted[j]));
    }
}

/// At an end too variation changes places among accepted candidates alone, each
/// of them with no larger percentile under guidance than any candidate behind.
pub proof fn variation_at_an_end_shuffles_only_the_best(
    bridge: BridgeModel,
    route: Seq<usize>,
    slot: EndpointSlot,
    semantics: Seq<CandidateSemanticsView>,
    guidance: Guidance,
)
    requires
        guidance.variation_percent <= 100,
    ensures
        endpoint_ranked(bridge, route, slot, semantics, guidance) matches Ok(ranked)
            ==> shuffles_the_first_ends(
            ranked,
            semantics,
            guidance,
            pool_length(
                accepted_ends(ranked).len() as int,
                guidance.variation_percent,
                guidance.minimum_pool as int,
            ),
        ),
{
    if let Ok(ranked) = endpoint_ranked(bridge, route, slot, semantics, guidance) {
        let evaluations = bridge.ranked_endpoints(route, slot, numbers_of(semantics))->Ok_0;
        let order = guided_endpoint_first(semantics, guidance);
        let sorted = stable_sort(evaluations, order);
        stable_sort_is_sorted(evaluations, order);
        lemma_accepted_ends_lead(sorted, semantics, guidance);
        lemma_leading_accepted_endpoints(sorted, 0);
        let leading = leading_accepted_endpoints(sorted, 0);
        let pool = pool_length(
            leading,
            guidance.variation_percent,
            guidance.minimum_pool as int,
        );
        pool_is_bounded(leading, guidance.variation_percent, guidance.minimum_pool as int);
        if pool > 1 {
            let shuffle = shuffled_endpoints(guidance.seed, route, slot_position(route, slot));
            let head = sorted.take(pool);
            let shuffled = stable_sort(head, shuffle);
            stable_sort_same_members(head, shuffle);
            assert(ranked == shuffled + sorted.skip(pool));
            assert forall|i: int| 0 <= i < pool implies exists|k: int|
                0 <= k < pool && sorted[k] == #[trigger] ranked[i] by {
                assert(shuffled.contains(shuffled[i]));
                assert(head.contains(shuffled[i]));
                let k = choose|k: int| 0 <= k < head.len() && head[k] == shuffled[i];
                assert(sorted[k] == ranked[i]);
            }
            lemma_shuffled_ends(sorted, ranked, semantics, guidance, pool);
        } else {
            assert(ranked == sorted);
            assert forall|i: int| 0 <= i < pool implies exists|k: int|
                0 <= k < pool && sorted[k] == #[trigger] ranked[i] by {
                assert(sorted[i] == ranked[i]);
            }
            lemma_shuffled_ends(sorted, ranked, semantics, guidance, pool);
        }
    }
}

// Where a gap is.

/// A gap is where its left anchor is directly followed by its right one, the
/// first such place, and nowhere only where there is none.
pub proof fn gaps_are_between_their_anchors(route: Seq<usize>, gap: AutomaticGapView, other: int)
    requires
        0 < other < route.len(),
        route[other - 1] == gap.left,
        route[other] == gap.right,
    ensures
        gap_position(route, gap) matches Some(at) && {
            &&& 0 < at <= other
            &&& route[at - 1] == gap.left
            &&& route[at] == gap.right
        },
{
    lemma_adjacent(route, gap.left, gap.right, 0);
    lemma_found_by(route, gap, 0, other - 1);
}

proof fn lemma_found_by(route: Seq<usize>, gap: AutomaticGapView, from: int, other: int)
    requires
        0 <= from <= other,
        other + 1 < route.len(),
        route[other] == gap.left,
        route[other + 1] == gap.right,
    ensures
        adjacent_from(route, gap.left, gap.right, from) <= other,
    decreases other - from,
{
    if from < other && !(route[from] == gap.left && route[from + 1] == gap.right) {
        lemma_found_by(route, gap, from + 1, other);
    }
}

/// A gap that was filled ends where its right anchor first stands, behind where
/// its left one does.
pub proof fn filled_gaps_end_at_their_right_anchor(
    route: Seq<usize>,
    gap: AutomaticGapView,
    left: int,
    right: int,
)
    requires
        0 <= left < right < route.len(),
        route.no_duplicates(),
        route[left] == gap.left,
        route[right] == gap.right,
    ensures
        right_position(route, gap) == Some(right),
{
    lemma_position_from(route, gap.left, 0);
    lemma_position_from(route, gap.right, 0);
    lemma_position_of_member(route, gap.left);
    lemma_position_of_member(route, gap.right);
    assert(route[position(route, gap.left)] == gap.left);
    assert(route[position(route, gap.right)] == gap.right);
}

// How far a search can come.

proof fn lemma_with_candidates(
    known: Set<usize>,
    semantics: Seq<CandidateSemanticsView>,
    count: int,
    asked: usize,
)
    requires
        0 <= count <= semantics.len(),
    ensures
        with_candidates(known, semantics, count).contains(asked) <==> known.contains(asked)
            || exists|i: int| 0 <= i < count && (#[trigger] semantics[i]).candidate == asked,
    decreases count,
{
    if count > 0 {
        lemma_with_candidates(known, semantics, count - 1, asked);
        if semantics[count - 1].candidate == asked {
            assert(semantics[count - 1].candidate == asked);
        }
    }
}

/// Whether a gap has a candidate.
pub open spec fn offers(gap: AutomaticGapView, candidate: usize) -> bool {
    exists|i: int|
        0 <= i < gap.semantics.candidates.len() && (
        #[trigger] gap.semantics.candidates[i]).candidate == candidate
}

proof fn lemma_gap_candidates(gaps: Seq<AutomaticGapView>, count: int, asked: usize)
    requires
        0 <= count <= gaps.len(),
    ensures
        gap_candidates(gaps, count).contains(asked) <==> exists|g: int|
            0 <= g < count && offers(#[trigger] gaps[g], asked),
    decreases count,
{
    if count > 0 {
        lemma_gap_candidates(gaps, count - 1, asked);
        let semantics = gaps[count - 1].semantics.candidates;
        lemma_with_candidates(
            gap_candidates(gaps, count - 1),
            semantics,
            semantics.len() as int,
            asked,
        );
        if offers(gaps[count - 1], asked) {
            assert(offers(gaps[count - 1], asked));
        }
    }
}

/// Gaps allow as many tracks as they may take in all, or as many as they have
/// different candidates where that is fewer.
pub proof fn gaps_allow_what_they_take_and_have(
    gaps: Seq<AutomaticGapView>,
    per_gap: int,
    candidates: Set<usize>,
)
    requires
        gaps.len() * per_gap <= usize::MAX,
        forall|candidate: usize| #[trigger] candidates.contains(candidate) <==> exists|g: int|
            0 <= g < gaps.len() && offers(#[trigger] gaps[g], candidate),
    ensures
        gap_bound(gaps, per_gap) <= gaps.len() * per_gap,
        gap_bound(gaps, per_gap) <= candidates.len(),
        gap_bound(gaps, per_gap) == gaps.len() * per_gap || gap_bound(gaps, per_gap)
            == candidates.len(),
{
    assert(gap_candidates(gaps, gaps.len() as int) =~= candidates) by {
        assert forall|asked: usize| gap_candidates(gaps, gaps.len() as int).contains(asked)
            == candidates.contains(asked) by {
            lemma_gap_candidates(gaps, gaps.len() as int, asked);
        }
    }
}

} // verus!
