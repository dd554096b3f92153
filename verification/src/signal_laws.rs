//! What the signals of addons come to, in numbers.

use crate::guidance::{
    applied_upto, base_sum, by_channel, contribution_of, contribution_sum, contributions_to,
    holds_contributions, indexed_upto, same_channel, scaled_product, serves_targets, serving_prefix,
    share_multiplier, size_of_number, support_count, supported_by, target_count, target_pool_limit,
    target_supports, targets_of, targets_upto, weight_after, weight_upto, CandidateGuidance,
    CandidateIndexEntry, ContributionView, GuidancePolicyEntry, ProviderSignal, ShareView,
    TargetView, GUIDANCE_CAP, LARGEST_CONTRIBUTION,
};
use crate::sorting::{is_ranking, sifting_keeps_the_first_of_equals};
use crate::text::lemma_text_order;
use crate::units::UNIT;
use vstd::prelude::*;

verus! {

// One signal.

proof fn lemma_size_of_product(a: int, b: int)
    ensures
        size_of_number(a) * size_of_number(b) == size_of_number(a * b),
        a != 0 && b != 0 ==> (a * b < 0 <==> (a < 0) != (b < 0)),
        a == 0 || b == 0 ==> a * b == 0,
{
    assert((-a) * b == -(a * b) && a * (-b) == -(a * b) && (-a) * (-b) == a * b)
        by (nonlinear_arith);
    assert(a > 0 && b > 0 ==> a * b > 0) by (nonlinear_arith);
    assert(a < 0 && b < 0 ==> a * b > 0) by (nonlinear_arith);
    assert(a > 0 && b < 0 ==> a * b < 0) by (nonlinear_arith);
    assert(a < 0 && b > 0 ==> a * b < 0) by (nonlinear_arith);
    assert(a == 0 || b == 0 ==> a * b == 0) by (nonlinear_arith);
}

/// A signal contributes the product of its weight, score and confidence to the
/// nearest unit: it differs from the product by half a unit at most, unless the
/// product is beyond the largest contribution to its side.
pub proof fn signals_contribute_their_product(weight: int, score: int, confidence: int)
    ensures
        ({
            let square = UNIT * UNIT;
            let exact = weight * score * confidence;
            let contribution = contribution_of(weight, score, confidence);
            let most = LARGEST_CONTRIBUTION as int;
            &&& -most <= contribution <= most
            &&& -most < contribution ==> 2 * contribution * square <= 2 * exact + square
            &&& contribution < most ==> 2 * exact - square <= 2 * contribution * square
        }),
{
    let square: int = UNIT * UNIT;
    assert(square == 1_000_000_000_000_000_000_000_000) by (nonlinear_arith)
        requires
            square == UNIT * UNIT,
            UNIT == 1_000_000_000_000,
    ;
    let pair = weight * score;
    let exact = pair * confidence;
    lemma_size_of_product(weight, score);
    lemma_size_of_product(pair, confidence);
    let size = (size_of_number(exact) + square / 2) / square;
    let product = scaled_product(weight, score, confidence);
    assert(size_of_number(weight) * size_of_number(score) * size_of_number(confidence)
        == size_of_number(exact));
    assert(size * square <= size_of_number(exact) + square / 2 < size * square + square)
        by (nonlinear_arith)
        requires
            size == (size_of_number(exact) + square / 2) / square,
            square > 0,
    ;
    assert((-size) * square == -(size * square)) by (nonlinear_arith);
    assert(exact == 0 ==> size == 0);
    assert(-square <= 2 * (product * square) - 2 * exact <= square);
    let most = LARGEST_CONTRIBUTION as int;
    let contribution = contribution_of(weight, score, confidence);
    assert(contribution <= product ==> contribution * square <= product * square)
        by (nonlinear_arith)
        requires
            square > 0,
    ;
    assert(product <= contribution ==> product * square <= contribution * square)
        by (nonlinear_arith)
        requires
            square > 0,
    ;
    assert(2 * contribution * square == 2 * (contribution * square)) by (nonlinear_arith);
}

// The policy.

/// Whether an entry of a policy is for a channel.
pub open spec fn is_for(entry: GuidancePolicyEntry, provider: Seq<char>, channel: Seq<char>) -> bool {
    entry.provider_id@ == provider && entry.channel@ == channel
}

proof fn lemma_weight_upto(
    policy: Seq<GuidancePolicyEntry>,
    provider: Seq<char>,
    channel: Seq<char>,
    count: int,
    at: int,
)
    requires
        0 <= at < count <= policy.len(),
        is_for(policy[at], provider, channel),
        forall|i: int| at < i < count ==> !is_for(#[trigger] policy[i], provider, channel),
    ensures
        weight_upto(policy, provider, channel, count) == weight_upto(
            policy,
            provider,
            channel,
            at + 1,
        ),
    decreases count,
{
    if count - 1 > at {
        assert(!is_for(policy[count - 1], provider, channel));
        lemma_weight_upto(policy, provider, channel, count - 1, at);
    }
}

/// A channel has the weight of the last entry for it, one at most to either side.
pub proof fn the_last_entry_sets_the_weight(
    policy: Seq<GuidancePolicyEntry>,
    provider: Seq<char>,
    channel: Seq<char>,
    at: int,
)
    requires
        0 <= at < policy.len(),
        is_for(policy[at], provider, channel),
        forall|i: int| at < i < policy.len() ==> !is_for(#[trigger] policy[i], provider, channel),
    ensures
        ({
            let weight = weight_upto(policy, provider, channel, policy.len() as int);
            let asked = policy[at].weight as int;
            &&& -(UNIT as int) <= asked <= UNIT ==> weight == asked
            &&& asked > UNIT ==> weight == UNIT
            &&& asked < -(UNIT as int) ==> weight == -(UNIT as int)
        }),
{
    lemma_weight_upto(policy, provider, channel, policy.len() as int, at);
}

/// A channel without an entry weighs nothing.
pub proof fn channels_without_an_entry_weigh_nothing(
    policy: Seq<GuidancePolicyEntry>,
    provider: Seq<char>,
    channel: Seq<char>,
    count: int,
)
    requires
        0 <= count <= policy.len(),
        forall|i: int| 0 <= i < count ==> !is_for(#[trigger] policy[i], provider, channel),
    ensures
        weight_upto(policy, provider, channel, count) == 0,
    decreases count,
{
    if count > 0 {
        assert(!is_for(policy[count - 1], provider, channel));
        channels_without_an_entry_weigh_nothing(policy, provider, channel, count - 1);
    }
}

// All signals for a candidate.

/// What the first `count` contributions move a candidate by in all.
pub open spec fn moved_by(
    applied: Seq<(usize, ContributionView)>,
    candidate: usize,
    count: int,
) -> int
    decreases count,
{
    if count <= 0 {
        0
    } else if applied[count - 1].0 == candidate {
        applied[count - 1].1.contribution + moved_by(applied, candidate, count - 1)
    } else {
        moved_by(applied, candidate, count - 1)
    }
}

proof fn lemma_sum_of_front(items: Seq<ContributionView>, item: ContributionView, count: int)
    requires
        0 <= count <= items.len(),
    ensures
        contribution_sum(items.push(item), count) == contribution_sum(items, count),
    decreases count,
{
    if count > 0 {
        lemma_sum_of_front(items, item, count - 1);
    }
}

proof fn lemma_moved(applied: Seq<(usize, ContributionView)>, candidate: usize, count: int)
    requires
        0 <= count <= applied.len(),
    ensures
        ({
            let items = contributions_to(applied, candidate, count);
            contribution_sum(items, items.len() as int) == moved_by(applied, candidate, count)
        }),
    decreases count,
{
    if count > 0 {
        lemma_moved(applied, candidate, count - 1);
        let before = contributions_to(applied, candidate, count - 1);
        if applied[count - 1].0 == candidate {
            lemma_sum_of_front(before, applied[count - 1].1, before.len() as int);
        }
    }
}

/// Guidance adjusts a candidate by the sum of all that was contributed to it,
/// and by the cap where that is more to either side.
pub proof fn adjustments_are_capped_sums(
    entry: CandidateGuidance,
    applied: Seq<(usize, ContributionView)>,
)
    requires
        holds_contributions(entry, applied),
    ensures
        ({
            let sum = moved_by(applied, entry.candidate, applied.len() as int);
            let cap = GUIDANCE_CAP as int;
            &&& -cap <= sum <= cap ==> entry.adjustment == sum
            &&& sum > cap ==> entry.adjustment == cap
            &&& sum < -cap ==> entry.adjustment == -cap
        }),
{
    lemma_moved(applied, entry.candidate, applied.len() as int);
}

/// An identifier stands for the candidate of the last entry for it.
pub proof fn identifiers_stand_for_their_last_entry(
    index: Seq<CandidateIndexEntry>,
    id: Seq<char>,
    at: int,
    count: int,
)
    requires
        0 <= at < count <= index.len(),
        index[at].candidate_id@ == id,
        forall|i: int| at < i < count ==> (#[trigger] index[i]).candidate_id@ != id,
    ensures
        indexed_upto(index, id, count) == Some(index[at].candidate),
    decreases count,
{
    if count - 1 > at {
        assert(index[count - 1].candidate_id@ != id);
        identifiers_stand_for_their_last_entry(index, id, at, count - 1);
    }
}

/// Every signal for a known candidate that moves something is applied to that
/// candidate with what it contributes under the weight of its channel, and
/// nothing else is applied.
pub proof fn applied_are_the_signals_that_move_something(
    signals: Seq<ProviderSignal>,
    policy: Seq<GuidancePolicyEntry>,
    index: Seq<CandidateIndexEntry>,
    count: int,
)
    requires
        0 <= count <= signals.len(),
    ensures
        ({
            let applied = applied_upto(signals, policy, index, count);
            &&& applied.len() <= count
            &&& forall|k: int|
                0 <= k < count ==> is_applied(
                    applied,
                    policy,
                    index,
                    #[trigger] signals[k],
                )
            &&& forall|i: int|
                0 <= i < applied.len() ==> comes_from_a_signal(
                    signals,
                    policy,
                    index,
                    #[trigger] applied[i],
                )
        }),
    decreases count,
{
    if count > 0 {
        applied_are_the_signals_that_move_something(signals, policy, index, count - 1);
        let before = applied_upto(signals, policy, index, count - 1);
        let applied = applied_upto(signals, policy, index, count);
        assert(forall|i: int| 0 <= i < before.len() ==> #[trigger] applied[i] == before[i]);
        assert forall|k: int| 0 <= k < count implies is_applied(
            applied,
            policy,
            index,
            #[trigger] signals[k],
        ) by {
            let moving = moves(policy, index, signals[k]);
            if moving is Some {
                if k < count - 1 {
                    assert(is_applied(before, policy, index, signals[k]));
                    let i = choose|i: int|
                        0 <= i < before.len() && applied_as(
                            #[trigger] before[i],
                            moving->Some_0,
                            signals[k],
                        );
                    assert(applied_as(applied[i], moving->Some_0, signals[k]));
                } else {
                    assert(applied_as(applied[applied.len() - 1], moving->Some_0, signals[k]));
                }
            }
        }
        assert forall|i: int| 0 <= i < applied.len() implies comes_from_a_signal(
            signals,
            policy,
            index,
            #[trigger] applied[i],
        ) by {
            if i < before.len() {
                assert(applied[i] == before[i]);
            } else {
                assert(applied_as(
                    applied[i],
                    moves(policy, index, signals[count - 1])->Some_0,
                    signals[count - 1],
                ));
            }
        }
    }
}

/// The candidate that a signal moves and by how much, if it moves one.
pub open spec fn moves(
    policy: Seq<GuidancePolicyEntry>,
    index: Seq<CandidateIndexEntry>,
    signal: ProviderSignal,
) -> Option<(usize, int)> {
    let weight = weight_upto(
        policy,
        signal.provider_id@,
        signal.signal.channel@,
        policy.len() as int,
    );
    let contribution = contribution_of(
        weight,
        signal.signal.score as int,
        signal.signal.confidence as int,
    );
    match indexed_upto(index, signal.signal.candidate_id@, index.len() as int) {
        Some(candidate) if contribution != 0 => Some((candidate, contribution)),
        _ => None,
    }
}

/// Whether what is applied is a signal's contribution to a candidate.
pub open spec fn applied_as(
    item: (usize, ContributionView),
    moved: (usize, int),
    signal: ProviderSignal,
) -> bool {
    &&& item.0 == moved.0
    &&& item.1.contribution == moved.1
    &&& item.1.provider_id == signal.provider_id@
    &&& item.1.channel == signal.signal.channel@
    &&& item.1.signal_score == signal.signal.score
    &&& item.1.confidence == signal.signal.confidence
}

/// Whether a signal is applied, if it moves a candidate.
pub open spec fn is_applied(
    applied: Seq<(usize, ContributionView)>,
    policy: Seq<GuidancePolicyEntry>,
    index: Seq<CandidateIndexEntry>,
    signal: ProviderSignal,
) -> bool {
    moves(policy, index, signal) matches Some(moved) ==> exists|i: int|
        0 <= i < applied.len() && applied_as(#[trigger] applied[i], moved, signal)
}

/// Whether what is applied is the contribution of one of the signals.
pub open spec fn comes_from_a_signal(
    signals: Seq<ProviderSignal>,
    policy: Seq<GuidancePolicyEntry>,
    index: Seq<CandidateIndexEntry>,
    item: (usize, ContributionView),
) -> bool {
    exists|k: int|
        0 <= k < signals.len() && moves(policy, index, #[trigger] signals[k]) is Some && applied_as(
            item,
            moves(policy, index, signals[k])->Some_0,
            signals[k],
        )
}

// Target shares.

/// Only a positive contribution of a channel is support by it.
pub proof fn support_is_positive(items: Seq<ContributionView>, provider: Seq<char>, channel: Seq<char>)
    ensures
        (forall|i: int|
            0 <= i < items.len() && (#[trigger] items[i]).provider_id == provider
                && items[i].channel == channel ==> items[i].contribution <= 0) <==> !supported_by(
            items,
            provider,
            channel,
        ),
{
}

/// A target asks for its share of the requested tracks, rounded up.
pub proof fn targets_ask_for_their_share(requested: int, percent: u8)
    requires
        0 <= requested,
        requested * percent <= usize::MAX,
    ensures
        100 * (target_count(requested, percent) - 1) < requested * percent <= 100 * target_count(
            requested,
            percent,
        ),
{
    let product = requested * percent;
    assert(0 <= product) by (nonlinear_arith)
        requires
            product == requested * percent,
            0 <= requested,
            0 <= percent,
    ;
}

/// At which of the first `count` candidates a target's channel supports one.
pub open spec fn supported_places(
    entries: Seq<CandidateGuidance>,
    target: TargetView,
    candidates: Seq<usize>,
    count: int,
) -> Set<int> {
    Set::new(|i: int| 0 <= i < count && target_supports(entries, target, candidates[i]))
}

proof fn lemma_supported_places(
    entries: Seq<CandidateGuidance>,
    target: TargetView,
    candidates: Seq<usize>,
    count: int,
)
    requires
        0 <= count,
    ensures
        supported_places(entries, target, candidates, count).finite(),
        supported_places(entries, target, candidates, count).len() == support_count(
            entries,
            target,
            candidates,
            count,
        ),
    decreases count,
{
    let places = supported_places(entries, target, candidates, count);
    if count == 0 {
        assert(places =~= Set::empty());
    } else {
        lemma_supported_places(entries, target, candidates, count - 1);
        let before = supported_places(entries, target, candidates, count - 1);
        if target_supports(entries, target, candidates[count - 1]) {
            assert(places =~= before.insert(count - 1));
        } else {
            assert(places =~= before);
        }
    }
}

/// Whether each target's channel supports as many of the first `count`
/// candidates as the target asks for.
pub open spec fn are_served(
    entries: Seq<CandidateGuidance>,
    targets: Seq<TargetView>,
    candidates: Seq<usize>,
    requested: int,
    count: int,
) -> bool {
    forall|t: int|
        0 <= t < targets.len() ==> supported_places(
            entries,
            #[trigger] targets[t],
            candidates,
            count,
        ).len() * 100 >= requested * targets[t].percent
}

proof fn lemma_served(
    entries: Seq<CandidateGuidance>,
    targets: Seq<TargetView>,
    candidates: Seq<usize>,
    requested: int,
    count: int,
)
    requires
        0 <= requested,
        requested * 255 <= usize::MAX,
        0 <= count,
    ensures
        serves_targets(entries, targets, candidates, requested, count) == are_served(
            entries,
            targets,
            candidates,
            requested,
            count,
        ),
{
    assert forall|t: int| 0 <= t < targets.len() implies (support_count(
        entries,
        #[trigger] targets[t],
        candidates,
        count,
    ) >= target_count(requested, targets[t].percent)) == (supported_places(
        entries,
        targets[t],
        candidates,
        count,
    ).len() * 100 >= requested * targets[t].percent) by {
        let percent = targets[t].percent;
        assert(requested * percent <= requested * 255) by (nonlinear_arith)
            requires
                0 <= requested,
                percent <= 255,
        ;
        targets_ask_for_their_share(requested, percent);
        lemma_supported_places(entries, targets[t], candidates, count);
    }
}

proof fn lemma_serving_prefix(
    entries: Seq<CandidateGuidance>,
    targets: Seq<TargetView>,
    candidates: Seq<usize>,
    requested: int,
    minimum: int,
    length: int,
)
    requires
        0 <= requested,
        requested * 255 <= usize::MAX,
        0 <= length <= candidates.len(),
    ensures
        ({
            let found = serving_prefix(
                entries,
                targets,
                candidates,
                requested,
                minimum,
                length,
            );
            &&& length <= found <= candidates.len()
            &&& found < candidates.len() ==> minimum <= found && are_served(
                entries,
                targets,
                candidates,
                requested,
                found,
            )
            &&& forall|shorter: int|
                length <= shorter < found && minimum <= shorter ==> !#[trigger] are_served(
                    entries,
                    targets,
                    candidates,
                    requested,
                    shorter,
                )
        }),
    decreases candidates.len() - length,
{
    if length < candidates.len() {
        lemma_served(entries, targets, candidates, requested, length);
        if !(length >= minimum && serves_targets(
            entries,
            targets,
            candidates,
            requested,
            length,
        )) {
            lemma_serving_prefix(entries, targets, candidates, requested, minimum, length + 1);
        }
    }
}

/// The pool that target shares need is the shortest that serves them all: with
/// fewer candidates than all it serves every target, and no shorter one of at
/// least the wanted length does. Without targets it has the wanted length.
pub proof fn target_pools_are_the_shortest_that_serve(
    entries: Seq<CandidateGuidance>,
    targets: Seq<TargetView>,
    candidates: Seq<usize>,
    requested: int,
    minimum: int,
    shorter: int,
)
    requires
        0 <= requested,
        requested * 255 <= usize::MAX,
        0 <= minimum,
        minimum <= shorter,
        1 <= shorter,
    ensures
        ({
            let length = target_pool_limit(entries, targets, candidates, requested, minimum);
            &&& length <= candidates.len()
            &&& minimum <= candidates.len() ==> minimum <= length
            &&& targets.len() == 0 && minimum <= candidates.len() ==> length == minimum
            &&& targets.len() > 0 && length < candidates.len() ==> are_served(
                entries,
                targets,
                candidates,
                requested,
                length,
            )
            &&& targets.len() > 0 && shorter < length ==> !are_served(
                entries,
                targets,
                candidates,
                requested,
                shorter,
            )
        }),
{
    let floor = if minimum < candidates.len() {
        minimum
    } else {
        candidates.len() as int
    };
    if candidates.len() > 0 && targets.len() > 0 {
        lemma_serving_prefix(entries, targets, candidates, requested, floor, 1);
    }
}

/// The factor of a target share brings the supported weight up to its share of
/// the whole: multiplied by it and rounded down, the supported weight is to the
/// rest as the percentage is to what it leaves of a hundred. A target without
/// support, or with nothing else in the pool, changes nothing.
pub proof fn shares_come_to_their_percentage(
    percent: u8,
    supported_count: int,
    supported_weight: int,
    other_weight: int,
)
    requires
        0 < percent < 100,
        0 <= supported_count,
        0 < supported_weight,
        0 <= other_weight,
        percent * UNIT * other_weight <= u128::MAX,
        (100 - percent) * supported_weight <= u128::MAX,
    ensures
        ({
            let factor = share_multiplier(percent, supported_count, supported_weight, other_weight);
            let wanted = percent * UNIT * other_weight;
            let divisor = (100 - percent) * supported_weight;
            &&& supported_count == 0 || other_weight == 0 ==> factor == UNIT
            &&& supported_count > 0 && other_weight > 0 ==> factor >= 1_000_000
            &&& supported_count > 0 && other_weight > 0 ==> wanted < (factor + 1) * divisor
            &&& supported_count > 0 && factor > 1_000_000 && other_weight > 0 ==> factor * divisor
                <= wanted
        }),
{
    let factor = share_multiplier(percent, supported_count, supported_weight, other_weight);
    let wanted = percent * UNIT * other_weight;
    let divisor = (100 - percent) * supported_weight;
    assert(percent * UNIT <= u128::MAX) by (nonlinear_arith)
        requires
            percent < 100,
            UNIT == 1_000_000_000_000,
    ;
    assert(divisor > 0) by (nonlinear_arith)
        requires
            divisor == (100 - percent) * supported_weight,
            percent < 100,
            0 < supported_weight,
    ;
    if supported_count > 0 && other_weight > 0 {
        let quotient = wanted / divisor;
        assert(quotient * divisor <= wanted < (quotient + 1) * divisor) by (nonlinear_arith)
            requires
                quotient == wanted / divisor,
                divisor > 0,
        ;
        assert(quotient <= factor);
        assert((quotient + 1) * divisor <= (factor + 1) * divisor) by (nonlinear_arith)
            requires
                quotient <= factor,
                divisor > 0,
        ;
    }
}

/// A whole share outweighs everything else a million times.
pub proof fn whole_shares_outweigh_the_rest(
    percent: u8,
    supported_count: int,
    supported_weight: int,
    other_weight: int,
)
    requires
        100 <= percent,
        0 < supported_count,
        0 < other_weight,
    ensures
        share_multiplier(percent, supported_count, supported_weight, other_weight) == 1_000_000
            * UNIT,
{
}

/// A target share weighs the candidates that its channel supports by its factor
/// and leaves all others as they are.
pub proof fn shares_weigh_what_they_support(
    entries: Seq<CandidateGuidance>,
    shares: Seq<ShareView>,
    candidate: usize,
    count: int,
)
    requires
        0 < count <= shares.len(),
        weight_after(entries, shares, candidate, count - 1) * shares[count - 1].multiplier
            <= u128::MAX,
    ensures
        ({
            let before = weight_after(entries, shares, candidate, count - 1);
            let after = weight_after(entries, shares, candidate, count);
            let supported = target_supports(entries, shares[count - 1].target, candidate);
            &&& !supported ==> after == before
            &&& supported ==> after * UNIT <= before * shares[count - 1].multiplier < (after + 1)
                * UNIT
            &&& count == 1 ==> before == UNIT
        }),
{
    let before = weight_after(entries, shares, candidate, count - 1);
    let product = before * shares[count - 1].multiplier;
    let unit = UNIT as int;
    assert(product / unit * unit <= product < (product / unit + 1) * unit) by (nonlinear_arith)
        requires
            unit > 0,
    ;
}

/// The weight of a pool is what is supported and what is not.
pub proof fn supported_and_other_weight_is_all(
    entries: Seq<CandidateGuidance>,
    target: TargetView,
    candidates: Seq<usize>,
    base_weights: Seq<u64>,
    count: int,
)
    requires
        0 < count,
    ensures
        ({
            let more = base_sum(entries, target, candidates, base_weights, true, count) - base_sum(
                entries,
                target,
                candidates,
                base_weights,
                true,
                count - 1,
            );
            let rest = base_sum(entries, target, candidates, base_weights, false, count) - base_sum(
                entries,
                target,
                candidates,
                base_weights,
                false,
                count - 1,
            );
            &&& target_supports(entries, target, candidates[count - 1]) ==> more
                == base_weights[count - 1] && rest == 0
            &&& !target_supports(entries, target, candidates[count - 1]) ==> rest
                == base_weights[count - 1] && more == 0
        }),
{
}

// Which targets there are.

/// Whether an entry gives a channel a target share.
pub open spec fn gives_a_share(
    entry: GuidancePolicyEntry,
    provider: Seq<char>,
    channel: Seq<char>,
) -> bool {
    is_for(entry, provider, channel) && (entry.target_percent matches Some(percent) && percent > 0)
}

proof fn lemma_last_share_is_first(
    policy: Seq<GuidancePolicyEntry>,
    provider: Seq<char>,
    channel: Seq<char>,
    at: int,
    count: int,
) -> (place: int)
    requires
        0 <= at < count <= policy.len(),
        gives_a_share(policy[at], provider, channel),
        forall|i: int| at < i < count ==> !gives_a_share(#[trigger] policy[i], provider, channel),
    ensures
        ({
            let targets = targets_upto(policy, count);
            &&& 0 <= place < targets.len()
            &&& targets[place] == TargetView {
                provider,
                channel,
                percent: policy[at].target_percent->Some_0,
            }
            &&& forall|i: int|
                0 <= i < place ==> !same_channel()(#[trigger] targets[i], targets[place])
        }),
    decreases count,
{
    if count - 1 == at {
        0
    } else {
        let before = lemma_last_share_is_first(policy, provider, channel, at, count - 1);
        let entry = policy[count - 1];
        let earlier = targets_upto(policy, count - 1);
        let targets = targets_upto(policy, count);
        assert(!gives_a_share(entry, provider, channel));
        if entry.target_percent is Some && entry.target_percent->Some_0 > 0 {
            assert forall|i: int| 0 <= i < before + 1 implies !same_channel()(
                #[trigger] targets[i],
                earlier[before],
            ) by {
                if i > 0 {
                    assert(targets[i] == earlier[i - 1]);
                }
            }
            assert(targets[before + 1] == earlier[before]);
            before + 1
        } else {
            before
        }
    }
}

/// The last entry that gives a channel a target share sets it, and no channel has
/// two.
pub proof fn the_last_share_of_a_channel_counts(
    policy: Seq<GuidancePolicyEntry>,
    provider: Seq<char>,
    channel: Seq<char>,
    at: int,
)
    requires
        0 <= at < policy.len(),
        gives_a_share(policy[at], provider, channel),
        forall|i: int|
            at < i < policy.len() ==> !gives_a_share(#[trigger] policy[i], provider, channel),
    ensures
        ({
            let targets = targets_of(policy);
            let target = TargetView {
                provider,
                channel,
                percent: policy[at].target_percent->Some_0,
            };
            &&& targets.contains(target)
            &&& forall|i: int|
                0 <= i < targets.len() && (#[trigger] targets[i]).provider == provider
                    && targets[i].channel == channel ==> targets[i] == target
        }),
{
    let all = targets_upto(policy, policy.len() as int);
    let place = lemma_last_share_is_first(policy, provider, channel, at, policy.len() as int);
    let leq = by_channel();
    let same = same_channel();
    assert forall|a: TargetView, b: TargetView| #[trigger]
        same(a, b) <==> leq(a, b) && leq(b, a) by {
        lemma_text_order(a.provider, b.provider, a.provider);
        lemma_text_order(a.channel, b.channel, a.channel);
    }
    lemma_channel_ranking();
    sifting_keeps_the_first_of_equals(all, leq, same, place);
    let targets = targets_of(policy);
    assert forall|i: int|
        0 <= i < targets.len() && (#[trigger] targets[i]).provider == provider
            && targets[i].channel == channel implies targets[i] == all[place] by {
        assert(same(targets[i], all[place]));
    }
}

proof fn lemma_channel_ranking()
    ensures
        is_ranking(by_channel()),
{
    let leq = by_channel();
    assert forall|a: TargetView, b: TargetView| #[trigger] leq(a, b) || leq(b, a) by {
        lemma_text_order(a.provider, b.provider, a.provider);
        lemma_text_order(a.channel, b.channel, a.channel);
    }
    assert forall|a: TargetView, b: TargetView, c: TargetView|
        #![trigger leq(a, b), leq(b, c)]
        leq(a, b) && leq(b, c) implies leq(a, c) by {
        lemma_text_order(a.provider, b.provider, c.provider);
        lemma_text_order(b.provider, a.provider, c.provider);
        lemma_text_order(c.provider, b.provider, a.provider);
        lemma_text_order(a.channel, b.channel, c.channel);
    }
}

} // verus!
