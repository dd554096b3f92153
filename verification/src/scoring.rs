//! Scoring a playlist as it stands.

use crate::command::{failed, CommandFailure};
use crate::contextual::{
    adaptive_distance_from_seeds, context_distance, scorer_at, scoring_at, AdaptiveScorer,
    ContextualError, Scoring,
};
use crate::gates::{check_score_request, score_refusal};
use crate::reports::{
    lies_within, report_scores, score_report, ScoreReport, ScoredLeg,
};
use crate::requests::{
    choose_measure, measure_for, settings_of, AdaptiveSettings, Measure, Request,
};
use crate::route::{recent, recent_window};
use crate::sequences::{ascending, ascending_route};
use vstd::prelude::*;

verus! {

/// The name of a measure.
pub open spec fn measure_text(measure: Measure) -> Seq<char> {
    match measure {
        Measure::FeatureWeights => "feature-weights"@,
        Measure::LearnedMatrix => "learned-matrix"@,
        Measure::Blend => "learned-variance-blend"@,
        Measure::Variance => "variance"@,
    }
}

fn measure_name(measure: Measure) -> (name: &'static str)
    ensures
        name@ == measure_text(measure),
{
    match measure {
        Measure::FeatureWeights => "feature-weights",
        Measure::LearnedMatrix => "learned-matrix",
        Measure::Blend => "learned-variance-blend",
        Measure::Variance => "variance",
    }
}

/// The tracks that the track at a position is measured against: as many before
/// it as are heard together.
pub open spec fn heard_before(position: int, seed_limit: usize) -> Seq<usize> {
    recent(ascending(position), seed_limit)
}

/// Whether a transition is measured as its place in the playlist says.
pub open spec fn measured_truly(
    leg: ScoredLeg,
    scoring: Scoring,
    algorithm: Seq<char>,
    has_matrix: bool,
    settings: AdaptiveSettings,
    position: int,
) -> bool {
    let window = heard_before(position, settings.seed_limit);
    &&& leg.position == position
    &&& leg.seed_start == position - window.len()
    &&& leg.algorithm@ == measure_text(measure_for(algorithm, has_matrix, window.len() as int))
    &&& context_distance(scoring, window, settings.learned_percent, position as usize) == Ok::<
        u64,
        ContextualError,
    >(leg.distance)
}

/// The first position from `at` on that cannot be measured, or the length.
pub open spec fn first_unmeasured(
    scoring: Scoring,
    settings: AdaptiveSettings,
    count: int,
    at: int,
) -> int
    decreases count - at,
{
    if at >= count {
        count
    } else if context_distance(
        scoring,
        heard_before(at, settings.seed_limit),
        settings.learned_percent,
        at as usize,
    ) is Err {
        at
    } else {
        first_unmeasured(scoring, settings, count, at + 1)
    }
}

/// Measures every transition of a playlist of `count` tracks.
pub fn score_sequence<
    P: Fn(&[usize], u16) -> Result<(), ContextualError>,
    D: Fn(&[usize], u16, &[usize], usize) -> u64,
>(
    count: usize,
    scorer: &AdaptiveScorer<P, D>,
    algorithm: &str,
    has_matrix: bool,
    settings: AdaptiveSettings,
) -> (legs: Result<Vec<ScoredLeg>, ContextualError>)
    requires
        scorer.valid(),
        count >= 1,
    ensures
        ({
            let stop = first_unmeasured(scorer.scoring(), settings, count as int, 1);
            match legs {
                Ok(legs) => {
                    &&& stop == count
                    &&& legs@.len() == count - 1
                    &&& forall|i: int|
                        0 <= i < legs@.len() ==> measured_truly(
                            #[trigger] legs@[i],
                            scorer.scoring(),
                            algorithm@,
                            has_matrix,
                            settings,
                            i + 1,
                        )
                },
                Err(error) => stop < count && context_distance(
                    scorer.scoring(),
                    heard_before(stop, settings.seed_limit),
                    settings.learned_percent,
                    stop as usize,
                ) == Err::<u64, ContextualError>(error),
            }
        }),
{
    let ghost scoring = scorer.scoring();
    let tracks = ascending_route(count);
    let mut legs: Vec<ScoredLeg> = Vec::new();
    let mut at: usize = 1;
    while at < count
        invariant
            1 <= at <= count,
            scorer.valid(),
            scoring == scorer.scoring(),
            tracks@ == ascending(count as int),
            legs@.len() == at - 1,
            first_unmeasured(scoring, settings, count as int, 1) == first_unmeasured(
                scoring,
                settings,
                count as int,
                at as int,
            ),
            forall|i: int|
                0 <= i < legs@.len() ==> measured_truly(
                    #[trigger] legs@[i],
                    scoring,
                    algorithm@,
                    has_matrix,
                    settings,
                    i + 1,
                ),
        decreases count - at,
    {
        let before = vstd::slice::slice_subrange(tracks.as_slice(), 0, at);
        assert(before@ =~= ascending(at as int));
        let window = recent_window(before, settings.seed_limit);
        assert(window@ == heard_before(at as int, settings.seed_limit));
        let distance: u64 = match adaptive_distance_from_seeds(
            window,
            at,
            scorer,
            settings.learned_percent,
        ) {
            Err(error) => {
                return Err(error);
            },
            Ok(distance) => distance,
        };
        let measure = choose_measure(algorithm, has_matrix, window.len());
        legs.push(
            ScoredLeg {
                position: at,
                seed_start: at - window.len(),
                algorithm: measure_name(measure).to_owned(),
                distance,
            },
        );
        at += 1;
    }
    Ok(legs)
}

/// Whether scoring a request may come to an outcome: the refusal of the request,
/// the failure to measure a transition, or the report of all its transitions.
pub open spec fn may_score(
    request: Request,
    places: Seq<usize>,
    scoring: Scoring,
    report: Result<ScoreReport, CommandFailure>,
) -> bool {
    let settings = settings_of(request.scoring)->Some_0;
    let local = scoring_at(scoring, places);
    let count = request.source_tracks@.len() as int;
    match score_refusal(request) {
        Some(failure) => report is Err && report->Err_0@ == failure,
        None => {
            let stop = first_unmeasured(local, settings, count, 1);
            if count == 0 || stop == count {
                report matches Ok(found) && exists|legs: Seq<ScoredLeg>| #[trigger]
                    legs_of(legs, request, local) && found@ == score_report(
                        legs,
                        request.source_tracks@,
                    )
            } else {
                report is Err && exists|error: ContextualError|
                    context_distance(
                        local,
                        heard_before(stop, settings.seed_limit),
                        settings.learned_percent,
                        stop as usize,
                    ) == Err::<u64, ContextualError>(error) && #[trigger] failed(
                        "ADAPTIVE_SCORING_FAILED"@,
                        error.text(),
                    ) == report->Err_0@
            }
        },
    }
}

/// Whether these are the transitions of a request's playlist, truly measured.
pub open spec fn legs_of(legs: Seq<ScoredLeg>, request: Request, local: Scoring) -> bool {
    let count = request.source_tracks@.len() as int;
    &&& legs.len() == if count == 0 {
        0
    } else {
        count - 1
    }
    &&& forall|i: int|
        0 <= i < legs.len() ==> measured_truly(
            #[trigger] legs[i],
            local,
            request.scoring.algorithm@,
            request.artifacts.learned_matrix is Some,
            settings_of(request.scoring)->Some_0,
            i + 1,
        )
}

/// Scores the sources of a request in their order, found in the library at
/// `places`.
pub fn score_request<
    P: Fn(&[usize], u16) -> Result<(), ContextualError> + Copy,
    D: Fn(&[usize], u16, &[usize], usize) -> u64 + Copy,
>(request: &Request, places: Vec<usize>, scorer: &AdaptiveScorer<P, D>) -> (report: Result<
    ScoreReport,
    CommandFailure,
>)
    requires
        scorer.valid(),
        scorer.places@.len() == 0,
    ensures
        may_score(*request, places@, scorer.scoring(), report),
{
    let settings = match check_score_request(request) {
        Err(failure) => {
            return Err(failure);
        },
        Ok(settings) => settings,
    };
    let ghost found = places@;
    let local = scorer_at(scorer, places);
    let count: usize = request.source_tracks.len();
    let has_matrix: bool = request.artifacts.learned_matrix.is_some();
    let legs: Vec<ScoredLeg> = if count == 0 {
        Vec::new()
    } else {
        match score_sequence(
            count,
            &local,
            request.scoring.algorithm.as_str(),
            has_matrix,
            settings,
        ) {
            Err(error) => {
                return Err(CommandFailure::new("ADAPTIVE_SCORING_FAILED", error.message()));
            },
            Ok(legs) => legs,
        }
    };
    assert forall|i: int| 0 <= i < legs@.len() implies lies_within(
        #[trigger] legs@[i],
        count as int,
    ) by {
        assert(measured_truly(
            legs@[i],
            scoring_at(scorer.scoring(), found),
            request.scoring.algorithm@,
            has_matrix,
            settings,
            i + 1,
        ));
    }
    assert(legs_of(legs@, *request, scoring_at(scorer.scoring(), found)));
    Ok(report_scores(legs.as_slice(), request.source_tracks.as_slice()))
}

/// Scoring an accepted request of two or more tracks whose transitions can all
/// be measured reports one transition less than it has tracks, and their sum
/// with twice the worst of them on top.
pub proof fn accepted_playlists_are_scored_in_full(
    request: Request,
    places: Seq<usize>,
    scoring: Scoring,
    report: Result<ScoreReport, CommandFailure>,
)
    requires
        may_score(request, places, scoring, report),
        score_refusal(request) is None,
        request.source_tracks@.len() >= 2,
        first_unmeasured(
            scoring_at(scoring, places),
            settings_of(request.scoring)->Some_0,
            request.source_tracks@.len() as int,
            1,
        ) == request.source_tracks@.len(),
    ensures
        report is Ok,
        report->Ok_0@.legs.len() == request.source_tracks@.len() - 1,
        report->Ok_0@.objective == report->Ok_0@.transition_sum + 2
            * report->Ok_0@.worst_transition as nat,
{
}

} // verus!
