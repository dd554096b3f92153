//! What the score and route commands report.

use crate::command::{failed, CommandFailure, FailureView};
use crate::contextual::{scorer_at, scoring_at, AdaptiveScorer, ContextualError, Scoring};
use crate::gates::{check_route_request, route_refusal};
use crate::library::LibraryTrack;
use crate::random::{derived_seed, derived_seed_value};
use crate::requests::{
    places_in_library, settings_of, AdaptiveSettings, RepeatWindows, Request, SearchSettings,
    SelectionSettings, SourceTrack,
};
use crate::route::{
    optimize_adaptive_route, optimized, RouteSearchResult, RouteSearchResultView, RouteTrack,
    SearchConfig,
};
use crate::route_laws::visits_all;
use crate::sequences::{in_range, lemma_views_push, views};
use crate::sources::{all_routed, route_sources, unresolved_from};
use vstd::hash_set::StringHashSet;
use vstd::prelude::*;

verus! {

// Identifiers.

/// The identifiers of the sources on a route.
pub open spec fn ids_on(route: Seq<usize>, sources: Seq<SourceTrack>) -> Seq<Seq<char>> {
    Seq::new(route.len(), |i: int| sources[route[i] as int].id@)
}

/// Lists the identifiers of the sources on a route.
pub fn route_track_ids(route: &[usize], tracks: &[SourceTrack]) -> (ids: Vec<String>)
    requires
        in_range(route@, tracks@.len() as int),
    ensures
        views(ids@) == ids_on(route@, tracks@),
{
    let mut ids: Vec<String> = Vec::new();
    let mut at: usize = 0;
    while at < route.len()
        invariant
            at <= route@.len(),
            in_range(route@, tracks@.len() as int),
            views(ids@) =~= ids_on(route@, tracks@).take(at as int),
        decreases route@.len() - at,
    {
        assert(route@[at as int] < tracks@.len());
        let id = tracks[route[at]].id.clone();
        proof {
            lemma_views_push(ids@, id);
        }
        ids.push(id);
        at += 1;
    }
    assert(views(ids@) =~= ids_on(route@, tracks@));
    ids
}

/// Whether no text occurs twice.
pub open spec fn all_different(texts: Seq<Seq<char>>) -> bool {
    forall|i: int, j: int| 0 <= i < j < texts.len() ==> texts[i] != texts[j]
}

/// Checks whether no text occurs twice.
pub fn are_different(texts: &[String]) -> (different: bool)
    ensures
        different == all_different(views(texts@)),
{
    let mut seen = StringHashSet::new();
    let mut at: usize = 0;
    while at < texts.len()
        invariant
            at <= texts@.len(),
            forall|text: Seq<char>| #[trigger]
                seen@.contains(text) == exists|i: int| 0 <= i < at && texts@[i]@ == text,
            forall|i: int, j: int| 0 <= i < j < at ==> texts@[i]@ != texts@[j]@,
        decreases texts@.len() - at,
    {
        let ghost all = views(texts@);
        if seen.contains(texts[at].as_str()) {
            proof {
                let i = choose|i: int| 0 <= i < at && texts@[i]@ == texts@[at as int]@;
                assert(all[i] == all[at as int]);
            }
            return false;
        }
        assert forall|i: int| 0 <= i < at implies texts@[i]@ != texts@[at as int]@ by {
            assert(seen@.contains(texts@[at as int]@) == exists|i: int|
                0 <= i < at && texts@[i]@ == texts@[at as int]@);
        }
        let ghost before = seen@;
        seen.insert(texts[at].clone());
        assert forall|text: Seq<char>| #[trigger]
            seen@.contains(text) == exists|i: int| 0 <= i < at + 1 && texts@[i]@ == text by {
            assert(before.contains(text) == exists|i: int| 0 <= i < at && texts@[i]@ == text);
            if before.contains(text) {
                let i = choose|i: int| 0 <= i < at && texts@[i]@ == text;
                assert(0 <= i < at + 1 && texts@[i]@ == text);
            }
            if text == texts@[at as int]@ {
                assert(0 <= at < at + 1 && texts@[at as int]@ == text);
            }
        }
        at += 1;
    }
    true
}

// Scoring.

/// A transition that scoring measured: the position it leads to, where its
/// window of seeds starts, the algorithm, and the distance.
#[derive(Debug)]
pub struct ScoredLeg {
    pub position: usize,
    pub seed_start: usize,
    pub algorithm: String,
    pub distance: u64,
}

/// A transition as it is reported.
#[verifier::ext_equal]
pub struct ContextualLegView {
    pub position: usize,
    pub seed_start: usize,
    pub seed_track_ids: Seq<Seq<char>>,
    pub candidate_track_id: Seq<char>,
    pub algorithm: Seq<char>,
    pub distance: u64,
}

/// A transition as it is reported.
#[derive(Debug)]
pub struct ContextualLeg {
    pub position: usize,
    pub seed_start: usize,
    pub seed_track_ids: Vec<String>,
    pub candidate_track_id: String,
    pub algorithm: String,
    pub distance: u64,
}

impl View for ContextualLeg {
    type V = ContextualLegView;

    open spec fn view(&self) -> ContextualLegView {
        ContextualLegView {
            position: self.position,
            seed_start: self.seed_start,
            seed_track_ids: views(self.seed_track_ids@),
            candidate_track_id: self.candidate_track_id@,
            algorithm: self.algorithm@,
            distance: self.distance,
        }
    }
}

/// The identifiers of all sources.
pub open spec fn source_ids(sources: Seq<SourceTrack>) -> Seq<Seq<char>> {
    Seq::new(sources.len(), |i: int| sources[i].id@)
}

/// A transition with the identifiers of its tracks.
pub open spec fn reported(leg: ScoredLeg, sources: Seq<SourceTrack>) -> ContextualLegView {
    ContextualLegView {
        position: leg.position,
        seed_start: leg.seed_start,
        seed_track_ids: source_ids(sources).subrange(leg.seed_start as int, leg.position as int),
        candidate_track_id: sources[leg.position as int].id@,
        algorithm: leg.algorithm@,
        distance: leg.distance,
    }
}

/// All transitions with the identifiers of their tracks.
pub open spec fn all_reported(legs: Seq<ScoredLeg>, sources: Seq<SourceTrack>) -> Seq<
    ContextualLegView,
> {
    Seq::new(legs.len(), |i: int| reported(legs[i], sources))
}

/// Whether a transition lies within the sources.
pub open spec fn lies_within(leg: ScoredLeg, count: int) -> bool {
    leg.seed_start <= leg.position < count
}

/// The sum of the first `count` distances.
pub open spec fn distance_sum(legs: Seq<ScoredLeg>, count: int) -> nat
    decreases count,
{
    if count <= 0 {
        0
    } else {
        distance_sum(legs, count - 1) + legs[count - 1].distance as nat
    }
}

/// The largest of the first `count` distances, or zero.
pub open spec fn largest_distance(legs: Seq<ScoredLeg>, count: int) -> u64
    decreases count,
{
    if count <= 0 {
        0
    } else {
        let before = largest_distance(legs, count - 1);
        if legs[count - 1].distance > before {
            legs[count - 1].distance
        } else {
            before
        }
    }
}

/// What scoring reports.
#[verifier::ext_equal]
pub struct ScoreReportView {
    pub source_track_ids: Seq<Seq<char>>,
    pub legs: Seq<ContextualLegView>,
    pub transition_sum: nat,
    pub worst_transition: u64,
    pub objective: nat,
}

/// What scoring reports.
#[derive(Debug)]
pub struct ScoreReport {
    pub source_track_ids: Vec<String>,
    pub legs: Vec<ContextualLeg>,
    pub transition_sum: u128,
    pub worst_transition: u64,
    pub objective: u128,
}

impl View for ScoreReport {
    type V = ScoreReportView;

    open spec fn view(&self) -> ScoreReportView {
        ScoreReportView {
            source_track_ids: views(self.source_track_ids@),
            legs: views(self.legs@),
            transition_sum: self.transition_sum as nat,
            worst_transition: self.worst_transition,
            objective: self.objective as nat,
        }
    }
}

/// The report of measured transitions: their sum, the worst of them, and the
/// sum with the worst counted twice more.
pub open spec fn score_report(legs: Seq<ScoredLeg>, sources: Seq<SourceTrack>) -> ScoreReportView {
    let sum = distance_sum(legs, legs.len() as int);
    let worst = largest_distance(legs, legs.len() as int);
    ScoreReportView {
        source_track_ids: source_ids(sources),
        legs: all_reported(legs, sources),
        transition_sum: sum,
        worst_transition: worst,
        objective: sum + 2 * worst as nat,
    }
}

fn list_ids(sources: &[SourceTrack], from: usize, to: usize) -> (ids: Vec<String>)
    requires
        from <= to <= sources@.len(),
    ensures
        views(ids@) == source_ids(sources@).subrange(from as int, to as int),
{
    let ghost all = source_ids(sources@).subrange(from as int, to as int);
    let mut ids: Vec<String> = Vec::new();
    let mut at: usize = from;
    while at < to
        invariant
            from <= at <= to <= sources@.len(),
            all == source_ids(sources@).subrange(from as int, to as int),
            views(ids@) =~= all.take(at - from),
        decreases to - at,
    {
        let id = sources[at].id.clone();
        proof {
            lemma_views_push(ids@, id);
        }
        ids.push(id);
        at += 1;
    }
    assert(views(ids@) =~= all);
    ids
}

/// Lists the identifiers of all sources.
pub fn source_track_ids(sources: &[SourceTrack]) -> (ids: Vec<String>)
    ensures
        views(ids@) == source_ids(sources@),
{
    let ids = list_ids(sources, 0, sources.len());
    assert(source_ids(sources@).subrange(0, sources@.len() as int) =~= source_ids(sources@));
    ids
}

/// Reports measured transitions.
pub fn report_scores(legs: &[ScoredLeg], sources: &[SourceTrack]) -> (report: ScoreReport)
    requires
        forall|i: int| 0 <= i < legs@.len() ==> lies_within(#[trigger] legs@[i], sources@.len() as int),
    ensures
        report@ == score_report(legs@, sources@),
{
    let mut reports: Vec<ContextualLeg> = Vec::new();
    let mut sum: u128 = 0;
    let mut worst: u64 = 0;
    let mut at: usize = 0;
    while at < legs.len()
        invariant
            at <= legs@.len(),
            forall|i: int|
                0 <= i < legs@.len() ==> lies_within(#[trigger] legs@[i], sources@.len() as int),
            views(reports@) =~= all_reported(legs@, sources@).take(at as int),
            sum == distance_sum(legs@, at as int),
            sum <= at * u64::MAX,
            worst == largest_distance(legs@, at as int),
        decreases legs@.len() - at,
    {
        let leg = &legs[at];
        assert(lies_within(legs@[at as int], sources@.len() as int));
        let reported_leg = ContextualLeg {
            position: leg.position,
            seed_start: leg.seed_start,
            seed_track_ids: list_ids(sources, leg.seed_start, leg.position),
            candidate_track_id: sources[leg.position].id.clone(),
            algorithm: leg.algorithm.clone(),
            distance: leg.distance,
        };
        proof {
            lemma_views_push(reports@, reported_leg);
        }
        reports.push(reported_leg);
        assert(at * u64::MAX + u64::MAX <= u64::MAX * (usize::MAX + 1)) by (nonlinear_arith)
            requires
                at <= usize::MAX,
        ;
        sum = sum + leg.distance as u128;
        if leg.distance > worst {
            worst = leg.distance;
        }
        at += 1;
    }
    assert(views(reports@) =~= all_reported(legs@, sources@));
    assert(at * u64::MAX <= usize::MAX * u64::MAX) by (nonlinear_arith)
        requires
            at <= usize::MAX,
    ;
    ScoreReport {
        source_track_ids: source_track_ids(sources),
        legs: reports,
        transition_sum: sum,
        worst_transition: worst,
        objective: sum + 2 * (worst as u128),
    }
}

// Routing.

/// The seed of a route search: the given one, unless variation is asked for,
/// which mixes its own seed in.
pub open spec fn search_seed(search: SearchSettings, selection: SelectionSettings) -> u64 {
    if selection.variation_percent == 0 {
        search.deterministic_seed
    } else {
        derived_seed_value(search.deterministic_seed, selection.generation_seed)
    }
}

/// The search that a request asks for.
pub open spec fn search_config(
    adaptive: AdaptiveSettings,
    search: SearchSettings,
    windows: RepeatWindows,
    selection: SelectionSettings,
) -> SearchConfig {
    SearchConfig {
        seed_limit: adaptive.seed_limit,
        learned_percent: adaptive.learned_percent,
        deterministic_seed: search_seed(search, selection),
        restart_count: search.restart_count,
        artist_window: windows.artist,
        album_window: windows.album,
    }
}

/// The search that a request asks for.
pub fn requested_search(
    adaptive: AdaptiveSettings,
    search: SearchSettings,
    windows: RepeatWindows,
    selection: SelectionSettings,
) -> (config: SearchConfig)
    ensures
        config == search_config(adaptive, search, windows, selection),
{
    let deterministic_seed: u64 = if selection.variation_percent == 0 {
        search.deterministic_seed
    } else {
        derived_seed(search.deterministic_seed, selection.generation_seed)
    };
    SearchConfig {
        seed_limit: adaptive.seed_limit,
        learned_percent: adaptive.learned_percent,
        deterministic_seed,
        restart_count: search.restart_count,
        artist_window: windows.artist,
        album_window: windows.album,
    }
}

/// What routing reports.
#[verifier::ext_equal]
pub struct RouteReportView {
    pub result: RouteSearchResultView,
    pub selected_track_ids: Seq<Seq<char>>,
    pub primary_track_ids: Seq<Seq<char>>,
    pub arc_track_ids: Seq<Seq<char>>,
    pub track_window_satisfied: bool,
}

/// What routing reports.
#[derive(Debug)]
pub struct RouteReport {
    pub result: RouteSearchResult,
    pub selected_track_ids: Vec<String>,
    pub primary_track_ids: Vec<String>,
    pub arc_track_ids: Vec<String>,
    pub track_window_satisfied: bool,
}

impl View for RouteReport {
    type V = RouteReportView;

    open spec fn view(&self) -> RouteReportView {
        RouteReportView {
            result: self.result@,
            selected_track_ids: views(self.selected_track_ids@),
            primary_track_ids: views(self.primary_track_ids@),
            arc_track_ids: views(self.arc_track_ids@),
            track_window_satisfied: self.track_window_satisfied,
        }
    }
}

/// The report of a route search.
pub open spec fn route_report(
    result: RouteSearchResultView,
    sources: Seq<SourceTrack>,
    track_window: usize,
) -> RouteReportView {
    let selected = ids_on(result.selected.route, sources);
    RouteReportView {
        result,
        selected_track_ids: selected,
        primary_track_ids: ids_on(result.primary.route, sources),
        arc_track_ids: ids_on(result.arc.route, sources),
        track_window_satisfied: track_window == 0 || all_different(selected),
    }
}

/// What routing comes to once the sources are found as `tracks`.
pub open spec fn routed(
    request: Request,
    library: Seq<LibraryTrack>,
    scoring: Scoring,
    tracks: Seq<RouteTrack>,
) -> Result<RouteReportView, FailureView> {
    let places = places_in_library(request.source_tracks@, library);
    match optimized(
        scoring_at(scoring, places),
        tracks,
        search_config(
            settings_of(request.scoring)->Some_0,
            request.route.search,
            request.repeat_windows,
            request.selection,
        ),
    ) {
        Err(error) => Err(failed("ROUTE_SEARCH_FAILED"@, error.text())),
        Ok(result) => Ok(
            route_report(result, request.source_tracks@, request.repeat_windows.track),
        ),
    }
}

/// Whether routing a request may come to an outcome.
pub open spec fn may_route(
    request: Request,
    library: Seq<LibraryTrack>,
    scoring: Scoring,
    outcome: Result<RouteReportView, FailureView>,
) -> bool {
    match route_refusal(request) {
        Some(failure) => outcome == Err::<RouteReportView, FailureView>(failure),
        None => match unresolved_from(request.source_tracks@, library, 0) {
            Some(failure) => outcome == Err::<RouteReportView, FailureView>(failure),
            None => exists|tracks: Seq<RouteTrack>| #[trigger]
                all_routed(tracks, request.source_tracks@, library) && outcome == routed(
                    request,
                    library,
                    scoring,
                    tracks,
                ),
        },
    }
}

/// The outcome of a command as a value.
pub open spec fn outcome_of<T: View>(result: Result<T, CommandFailure>) -> Result<T::V, FailureView> {
    match result {
        Ok(value) => Ok(value@),
        Err(failure) => Err(failure@),
    }
}

/// Orders the sources of a request, numbered in the scorer as in the library.
pub fn optimize_route_request<
    P: Fn(&[usize], u16) -> Result<(), ContextualError> + Copy,
    D: Fn(&[usize], u16, &[usize], usize) -> u64 + Copy,
>(request: &Request, library: &[LibraryTrack], scorer: &AdaptiveScorer<P, D>) -> (report: Result<
    RouteReport,
    CommandFailure,
>)
    requires
        scorer.valid(),
        scorer.places@.len() == 0,
        request.route.search.restart_count * 2 + 5 <= usize::MAX,
    ensures
        may_route(*request, library@, scorer.scoring(), outcome_of(report)),
        report matches Ok(found) ==> visits_all(
            found.result.selected.route@,
            request.source_tracks@.len() as int,
        ),
{
    let adaptive = match check_route_request(request) {
        Err(failure) => {
            return Err(failure);
        },
        Ok(adaptive) => adaptive,
    };
    let (places, tracks) = match route_sources(request.source_tracks.as_slice(), library) {
        Err(failure) => {
            return Err(failure);
        },
        Ok(found) => found,
    };
    let config = requested_search(
        adaptive,
        request.route.search,
        request.repeat_windows,
        request.selection,
    );
    let ghost found = places@;
    let local = scorer_at(scorer, places);
    assert(all_routed(tracks@, request.source_tracks@, library@));
    let result = match optimize_adaptive_route(tracks.as_slice(), &local, &config) {
        Err(error) => {
            return Err(CommandFailure::new("ROUTE_SEARCH_FAILED", error.message()));
        },
        Ok(result) => result,
    };
    let sources = request.source_tracks.as_slice();
    let selected_track_ids = route_track_ids(result.selected.route.as_slice(), sources);
    let track_window_satisfied: bool = request.repeat_windows.track == 0 || are_different(
        selected_track_ids.as_slice(),
    );
    let primary_track_ids = route_track_ids(result.primary.route.as_slice(), sources);
    let arc_track_ids = route_track_ids(result.arc.route.as_slice(), sources);
    let report = RouteReport {
        result,
        selected_track_ids,
        primary_track_ids,
        arc_track_ids,
        track_window_satisfied,
    };
    assert(report@ == route_report(
        report.result@,
        request.source_tracks@,
        request.repeat_windows.track,
    ));
    Ok(report)
}

/// A route over sources with different identifiers repeats no track.
pub proof fn routes_repeat_no_track(route: Seq<usize>, sources: Seq<SourceTrack>)
    requires
        visits_all(route, sources.len() as int),
        all_different(source_ids(sources)),
    ensures
        all_different(ids_on(route, sources)),
{
    let ids = ids_on(route, sources);
    let all = source_ids(sources);
    assert forall|i: int, j: int| 0 <= i < j < ids.len() implies ids[i] != ids[j] by {
        assert(route[i] != route[j]);
        assert(route[i] < sources.len() && route[j] < sources.len());
        if route[i] < route[j] {
            assert(all[route[i] as int] != all[route[j] as int]);
        } else {
            assert(all[route[j] as int] != all[route[i] as int]);
        }
    }
}

} // verus!
