//! Analyzing how a playlist can be extended.

use crate::anchored_path::{adjacency, is_adjacency};
use crate::bridge::{
    build_frozen_reference, distance_model, BridgeConfig, BridgeError, BridgeModel, GapContextMode,
    DEFAULT_MAX_DETOUR_PERCENTILE, DEFAULT_MAX_LEG_PERCENTILE,
};
use crate::coarse_pool::{
    coarse_pool, narrow_pool, pools_are_bounded_and_keep_the_nearest, Nearness,
};
use crate::command::{failed, CommandFailure, FailureView};
use crate::contextual::{scorer_at, scoring_at, AdaptiveScorer, ContextualError, Scoring};
use crate::destination::{
    extends_last, select_destination_bridge_routes, DestinationModel, DestinationRepeatContext,
};
use crate::destination_goal::{
    breadth, most, search_breadth, target_of, DestinationGoal, SearchEffort,
};
use crate::destination_laws::{
    destination_routes_hold_no_track_twice, routes_to_a_destination_are_sound,
};
use crate::destination_report::{
    chosen_route, measure_routes, qualities_from, report_destination,
    the_shortest_good_route_or_the_best_is_chosen, DestinationReport, DestinationReportView,
};
use crate::exact::ExactModel;
use crate::exact_endpoints::{
    select_exact_count_bridges_with_endpoints, slot_in, ExactEndpointSlot, ExactEndpointSlotView,
    ExactEndpointSlots, ExactEndpointSlotsView,
};
use crate::gap_analysis::{
    gaps_of, reports_of, AnalyzedGap, AnalyzedGaps, GapAnalysis, GapModel, GapReport, GapReportView,
};
use crate::gates::{
    adaptive_settings, bridge_refusal, check_bridge_request, is_bridge_mode, is_bridge_policy,
    plan_extension, planned, settings_required, tracks_per_gap, ExtensionPlan,
};
use crate::library::{library_route_tracks, route_tracks, LibraryTrack};
use crate::preview::{
    automatic_selection, select_automatic_bridges, AutomaticGap, AutomaticGapView,
    AutomaticSelectionConfig, ExactScoringContext, ExactSelectionConfig, MAX_EXACT_TRACKS_PER_GAP,
};
use crate::reports::{
    ids_on, outcome_of, requested_search, route_track_ids, search_config, source_ids,
    source_track_ids,
};
use crate::requests::{
    accepted_sources_are_distinct_and_known, places_in_library, rows_in, settings_of,
    sources_refusal, AdaptiveSettings, RepeatWindows, Request, SelectionSettings,
};
use crate::route::{
    evaluate_adaptive_sequence, optimize_adaptive_route, optimized, repeat_violations,
    sequence_metrics, violations, RouteTrack, SearchConfig,
};
use crate::route_laws::visits_all;
use crate::seed_growth::{
    additions_are_relevant_to_the_sources, candidates_of, look_up, members_at, select_seed_growth,
    Addition, GrowthModel, Preference, PreferenceView,
};
use crate::selection_laws::{
    automatic_selection_keeps_the_playlist, endpoint_selection_is_all_or_nothing, kept_in_order,
};
use crate::selection_report::{
    is_allowed, kept_order_is_reported, report_automatic, report_exact, report_growth, AllowedEnds,
    AutomaticReport, AutomaticReportView, ExactReport, ExactReportView, GrowthReport,
    GrowthReportView, Names, NamesView,
};
use crate::semantic::{
    endpoint_evidence, seed_support, select_endpoint_candidates, select_seed_candidates, supported,
    CandidateIdentity, CandidateSemanticsView, EvidenceBundle, EvidenceEdge, SemanticPool,
    SourceEndpoint,
};
use crate::sequences::{ascending, ascending_route, copied, in_range, views};
use crate::sources::{
    all_identified, bridge_sources, bridge_sources_refusal, candidate_identities,
    candidates_are_local_and_new, eligible, eligible_candidates, lemma_eligible, materialized,
    Sources,
};
use crate::text::{decimal, is_text, text_with_number};
use std::collections::HashSet;
use vstd::prelude::*;

verus! {

/// How many accepted candidates a gap keeps unless asked otherwise.
pub const DEFAULT_RETAINED_CANDIDATES: usize = 5;

/// How many routes an exact search keeps at each step.
pub const EXACT_COUNT_BEAM_WIDTH: usize = 64;

// The order of the sources.

/// The route that an extension starts from.
#[verifier::ext_equal]
pub struct BaseRouteView {
    pub route: Seq<usize>,
    pub strategy: Seq<char>,
    pub objective: nat,
    pub execution: Seq<char>,
}

/// The route that an extension starts from.
#[derive(Debug)]
pub struct BaseRoute {
    pub route: Vec<usize>,
    pub strategy: &'static str,
    pub objective: u128,
    pub execution: &'static str,
}

impl View for BaseRoute {
    type V = BaseRouteView;

    open spec fn view(&self) -> BaseRouteView {
        BaseRouteView {
            route: self.route@,
            strategy: self.strategy@,
            objective: self.objective as nat,
            execution: self.execution@,
        }
    }
}

/// The sources in the order that a policy asks for: the best order, or the
/// given one where it repeats nothing.
pub open spec fn base_route(
    policy: Seq<char>,
    scoring: Scoring,
    tracks: Seq<RouteTrack>,
    config: SearchConfig,
) -> Result<BaseRouteView, FailureView> {
    if policy == "optimize_order"@ {
        match optimized(scoring, tracks, config) {
            Err(error) => Err(failed("ROUTE_SEARCH_FAILED"@, error.text())),
            Ok(result) => Ok(
                BaseRouteView {
                    route: result.selected.route,
                    strategy: result.selected.strategy,
                    objective: result.selected.metrics.objective,
                    execution: "rayon-route-restarts-and-candidates-indexed"@,
                },
            ),
        }
    } else {
        let given = ascending(tracks.len() as int);
        let repeats = violations(given, tracks, config);
        if repeats.len() > 0 {
            Err(
                failed(
                    "PRESERVED_ANCHOR_REPEAT_CONFLICT"@,
                    "the immutable source order has "@ + decimal(repeats.len() as int)
                        + " repeat-window violation(s)"@,
                ),
            )
        } else {
            match sequence_metrics(
                scoring,
                given,
                tracks.len() as int,
                config.seed_limit,
                config.learned_percent,
            ) {
                Err(error) => Err(failed("PRESERVED_ROUTE_SCORING_FAILED"@, error.text())),
                Ok(metrics) => Ok(
                    BaseRouteView {
                        route: given,
                        strategy: "preserve-order"@,
                        objective: metrics.objective,
                        execution: "rayon-candidates-indexed"@,
                    },
                ),
            }
        }
    }
}

/// Puts the sources in the order that a policy asks for.
pub fn order_sources<
    P: Fn(&[usize], u16) -> Result<(), ContextualError>,
    D: Fn(&[usize], u16, &[usize], usize) -> u64,
>(
    policy: &str,
    tracks: &[RouteTrack],
    scorer: &AdaptiveScorer<P, D>,
    config: &SearchConfig,
) -> (ordered: Result<BaseRoute, CommandFailure>)
    requires
        is_bridge_policy(policy@),
        scorer.valid(),
        config.restart_count * 2 + 5 <= usize::MAX,
    ensures
        match base_route(policy@, scorer.scoring(), tracks@, *config) {
            Ok(base) => ordered is Ok && ordered->Ok_0@ == base,
            Err(failure) => ordered is Err && ordered->Err_0@ == failure,
        },
        ordered matches Ok(base) ==> visits_all(base.route@, tracks@.len() as int)
            && base.route@.len() >= 2,
{
    if is_text(policy, "optimize_order") {
        return match optimize_adaptive_route(tracks, scorer, config) {
            Err(error) => Err(CommandFailure::new("ROUTE_SEARCH_FAILED", error.message())),
            Ok(result) => Ok(
                BaseRoute {
                    route: result.selected.route,
                    strategy: result.selected.strategy,
                    objective: result.selected.metrics.objective,
                    execution: "rayon-route-restarts-and-candidates-indexed",
                },
            ),
        };
    }
    let given = ascending_route(tracks.len());
    assert(visits_all(given@, tracks@.len() as int)) by {
        assert(in_range(given@, tracks@.len() as int));
        assert(given@.no_duplicates());
    }
    let repeats = repeat_violations(given.as_slice(), tracks, config);
    assert(repeats@.len() == violations(given@, tracks@, *config).len());
    if repeats.len() > 0 {
        return Err(
            CommandFailure::new(
                "PRESERVED_ANCHOR_REPEAT_CONFLICT",
                text_with_number(
                    "the immutable source order has ",
                    repeats.len() as u64,
                    " repeat-window violation(s)",
                ),
            ),
        );
    }
    match evaluate_adaptive_sequence(
        given.as_slice(),
        tracks,
        scorer,
        config.seed_limit,
        config.learned_percent,
    ) {
        Err(error) => Err(
            CommandFailure::new("PRESERVED_ROUTE_SCORING_FAILED", error.message()),
        ),
        Ok(metrics) => Ok(
            BaseRoute {
                route: given,
                strategy: "preserve-order",
                objective: metrics.objective,
                execution: "rayon-candidates-indexed",
            },
        ),
    }
}

// Settings.

/// The search for the order of the sources. Sources that are to be grown may
/// repeat at first, and what is on the way to a destination already is no matter
/// of the search.
pub open spec fn base_config(config: SearchConfig, plan: ExtensionPlan) -> SearchConfig {
    if plan is SeedGrowth || plan is Destination {
        SearchConfig { artist_window: 0, album_window: 0, ..config }
    } else {
        config
    }
}

fn base_search(config: &SearchConfig, plan: ExtensionPlan) -> (base: SearchConfig)
    ensures
        base == base_config(*config, plan),
{
    let free: bool = match plan {
        ExtensionPlan::SeedGrowth => true,
        ExtensionPlan::Destination { .. } => true,
        _ => false,
    };
    if free {
        SearchConfig {
            seed_limit: config.seed_limit,
            learned_percent: config.learned_percent,
            deterministic_seed: config.deterministic_seed,
            restart_count: config.restart_count,
            artist_window: 0,
            album_window: 0,
        }
    } else {
        *config
    }
}

/// How bridges are scored.
pub open spec fn bridge_config(adaptive: AdaptiveSettings, windows: RepeatWindows) -> BridgeConfig {
    BridgeConfig {
        seed_limit: adaptive.seed_limit,
        learned_percent: adaptive.learned_percent,
        artist_window: windows.artist,
        album_window: windows.album,
        max_leg_percentile: DEFAULT_MAX_LEG_PERCENTILE,
        max_detour_percentile: DEFAULT_MAX_DETOUR_PERCENTILE,
        gap_context_mode: GapContextMode::Rolling,
    }
}

fn bridging(adaptive: AdaptiveSettings, windows: RepeatWindows) -> (config: BridgeConfig)
    ensures
        config == bridge_config(adaptive, windows),
{
    BridgeConfig {
        seed_limit: adaptive.seed_limit,
        learned_percent: adaptive.learned_percent,
        artist_window: windows.artist,
        album_window: windows.album,
        max_leg_percentile: DEFAULT_MAX_LEG_PERCENTILE,
        max_detour_percentile: DEFAULT_MAX_DETOUR_PERCENTILE,
        gap_context_mode: GapContextMode::Rolling,
    }
}

/// Bridge settings that turn nothing away for how it sounds.
pub open spec fn unlimited(config: BridgeConfig) -> BridgeConfig {
    BridgeConfig { max_leg_percentile: u64::MAX, max_detour_percentile: u64::MAX, ..config }
}

fn without_limits(config: &BridgeConfig) -> (free: BridgeConfig)
    ensures
        free == unlimited(*config),
{
    BridgeConfig {
        seed_limit: config.seed_limit,
        learned_percent: config.learned_percent,
        artist_window: config.artist_window,
        album_window: config.album_window,
        max_leg_percentile: u64::MAX,
        max_detour_percentile: u64::MAX,
        gap_context_mode: config.gap_context_mode,
    }
}

/// A limit that is given, or else another.
pub open spec fn given_or(limit: Option<usize>, other: usize) -> usize {
    match limit {
        Some(limit) => limit,
        None => other,
    }
}

fn limit_or(limit: Option<usize>, other: usize) -> (chosen: usize)
    ensures
        chosen == given_or(limit, other),
{
    match limit {
        Some(limit) => limit,
        None => other,
    }
}

/// The tracks whose distances percentiles refer to: those of the route, or,
/// where these give fewer than two observations, the candidates as well.
pub open spec fn reference_population(route: Seq<usize>, candidates: Seq<usize>) -> Seq<usize> {
    if route.len() < 3 {
        candidates + route
    } else {
        route
    }
}

fn population(route: &[usize], candidates: &[usize]) -> (tracks: Vec<usize>)
    ensures
        tracks@ == reference_population(route@, candidates@),
{
    if route.len() < 3 {
        let mut tracks = copied(candidates);
        let mut rest = copied(route);
        tracks.append(&mut rest);
        tracks
    } else {
        copied(route)
    }
}

// Outcomes.

/// What is reported of a selection.
#[verifier::ext_equal]
pub enum SelectionReportView {
    Automatic(AutomaticReportView),
    Exact(ExactReportView),
    SeedGrowth(GrowthReportView),
    Destination(DestinationReportView),
}

/// What is reported of a selection.
#[derive(Debug)]
pub enum SelectionReport {
    Automatic(AutomaticReport),
    Exact(ExactReport),
    SeedGrowth(GrowthReport),
    Destination(DestinationReport),
}

impl View for SelectionReport {
    type V = SelectionReportView;

    open spec fn view(&self) -> SelectionReportView {
        match self {
            SelectionReport::Automatic(report) => SelectionReportView::Automatic(report@),
            SelectionReport::Exact(report) => SelectionReportView::Exact(report@),
            SelectionReport::SeedGrowth(report) => SelectionReportView::SeedGrowth(report@),
            SelectionReport::Destination(report) => SelectionReportView::Destination(report@),
        }
    }
}

/// A selection with what it changes of the analysis: whether evidence at the
/// ends counted, and the strategy and objective of the route.
#[verifier::ext_equal]
pub struct SelectedView {
    pub report: SelectionReportView,
    pub assisted: bool,
    pub strategy: Seq<char>,
    pub objective: nat,
}

/// A selection with what it changes of the analysis.
struct Selected {
    report: SelectionReport,
    assisted: bool,
    strategy: &'static str,
    objective: u128,
}

impl View for Selected {
    type V = SelectedView;

    closed spec fn view(&self) -> SelectedView {
        SelectedView {
            report: self.report@,
            assisted: self.assisted,
            strategy: self.strategy@,
            objective: self.objective as nat,
        }
    }
}

/// What is reported of an analysis.
#[verifier::ext_equal]
pub struct BridgeAnalysisView {
    pub parallel_execution: Seq<char>,
    pub selected_strategy: Seq<char>,
    pub source_track_ids: Seq<Seq<char>>,
    pub selected_track_ids: Seq<Seq<char>>,
    pub selected_route_objective: nat,
    pub usable_library_track_count: int,
    pub local_candidate_track_count: Option<usize>,
    pub non_local_candidate_excluded_count: Option<usize>,
    pub eligible_candidate_count: int,
    pub frozen_reference_count: int,
    pub trigger_percentile: Option<i64>,
    pub retained_candidate_limit: usize,
    pub semantic_mode: Seq<char>,
    pub gaps: Seq<GapReportView>,
    pub selection: SelectionReportView,
}

/// What is reported of an analysis.
#[derive(Debug)]
pub struct BridgeAnalysis {
    pub parallel_execution: &'static str,
    pub selected_strategy: &'static str,
    pub source_track_ids: Vec<String>,
    pub selected_track_ids: Vec<String>,
    pub selected_route_objective: u128,
    pub usable_library_track_count: usize,
    pub local_candidate_track_count: Option<usize>,
    pub non_local_candidate_excluded_count: Option<usize>,
    pub eligible_candidate_count: usize,
    pub frozen_reference_count: usize,
    pub trigger_percentile: Option<i64>,
    pub retained_candidate_limit: usize,
    pub semantic_mode: &'static str,
    pub gaps: Vec<GapReport>,
    pub selection: SelectionReport,
}

impl View for BridgeAnalysis {
    type V = BridgeAnalysisView;

    open spec fn view(&self) -> BridgeAnalysisView {
        BridgeAnalysisView {
            parallel_execution: self.parallel_execution@,
            selected_strategy: self.selected_strategy@,
            source_track_ids: views(self.source_track_ids@),
            selected_track_ids: views(self.selected_track_ids@),
            selected_route_objective: self.selected_route_objective as nat,
            usable_library_track_count: self.usable_library_track_count as int,
            local_candidate_track_count: self.local_candidate_track_count,
            non_local_candidate_excluded_count: self.non_local_candidate_excluded_count,
            eligible_candidate_count: self.eligible_candidate_count as int,
            frozen_reference_count: self.frozen_reference_count as int,
            trigger_percentile: self.trigger_percentile,
            retained_candidate_limit: self.retained_candidate_limit,
            semantic_mode: self.semantic_mode@,
            gaps: views(self.gaps@),
            selection: self.selection@,
        }
    }
}

/// Whether evidence counted for any gap.
pub open spec fn any_assisted(gaps: Seq<AutomaticGapView>) -> bool {
    exists|i: int|
        0 <= i < gaps.len() && (#[trigger] gaps[i]).semantics.pool != SemanticPool::BlissOnly
}

/// Whether evidence counted for an end.
pub open spec fn end_assisted(end: Option<ExactEndpointSlotView>) -> bool {
    match end {
        Some(end) => end.semantics.pool != SemanticPool::BlissOnly,
        None => false,
    }
}

/// How evidence took part.
pub open spec fn mode_text(assisted: bool, edges: int, providers: int) -> Seq<char> {
    if assisted {
        "semantic-assisted"@
    } else if edges == 0 && providers == 0 {
        "bliss-only-empty-graph"@
    } else {
        "bliss-only-no-usable-edges"@
    }
}

/// The trigger of a plan, if it has one.
pub open spec fn trigger_of(plan: ExtensionPlan) -> Option<i64> {
    match plan {
        ExtensionPlan::Automatic { max_added_tracks, trigger_percentile } => Some(
            trigger_percentile,
        ),
        ExtensionPlan::Destination { goal, effort } => target_of(goal),
        _ => None,
    }
}

fn find_trigger(plan: ExtensionPlan) -> (trigger: Option<i64>)
    ensures
        trigger == trigger_of(plan),
{
    match plan {
        ExtensionPlan::Automatic { max_added_tracks, trigger_percentile } => Some(
            trigger_percentile,
        ),
        ExtensionPlan::Destination { goal, effort } => goal.target(),
        _ => None,
    }
}

/// How many candidates of a gap are scored strictly. The effort of a search for
/// a destination bounds them as well.
pub open spec fn shortlist_of(limit: Option<usize>, plan: ExtensionPlan) -> usize {
    let given = given_or(limit, usize::MAX);
    match plan {
        ExtensionPlan::Destination { goal, effort } => if breadth(effort).shortlist_limit < given {
            breadth(effort).shortlist_limit
        } else {
            given
        },
        _ => given,
    }
}

fn find_shortlist(limit: Option<usize>, plan: ExtensionPlan) -> (shortlist: usize)
    ensures
        shortlist == shortlist_of(limit, plan),
{
    let given: usize = limit_or(limit, usize::MAX);
    match plan {
        ExtensionPlan::Destination { goal, effort } => {
            let bound: usize = search_breadth(effort).shortlist_limit;
            if bound < given {
                bound
            } else {
                given
            }
        },
        _ => given,
    }
}

/// How many tracks of the library an inventory leaves out.
pub open spec fn left_out(local: Option<usize>, library: int) -> Option<usize> {
    match local {
        Some(count) => Some(
            if count <= library {
                (library - count) as usize
            } else {
                0
            },
        ),
        None => None,
    }
}

// The model.

/// What an analysis is about, once the sources and the candidates are there.
pub struct AnalysisModel {
    pub request: Request,
    pub adaptive: AdaptiveSettings,
    pub library: Seq<LibraryTrack>,
    pub local_count: Option<usize>,
    pub scoring: Scoring,
    pub distance: spec_fn(usize, usize) -> u64,
    pub edges: Seq<EvidenceEdge>,
    pub provider_count: int,
    pub sources: Sources,
    pub eligible: Seq<usize>,
    pub candidates: Seq<CandidateIdentity>,
}

impl AnalysisModel {
    /// The search that the request asks for.
    pub open spec fn config(self) -> SearchConfig {
        search_config(
            self.adaptive,
            self.request.route.search,
            self.request.repeat_windows,
            self.request.selection,
        )
    }

    /// The order of the sources.
    pub open spec fn base(self, plan: ExtensionPlan) -> Result<BaseRouteView, FailureView> {
        base_route(
            self.request.route.ordering_policy@,
            scoring_at(self.scoring, self.sources.places@),
            self.sources.tracks@,
            base_config(self.config(), plan),
        )
    }

    /// The route in the library.
    pub open spec fn route(self, base: BaseRouteView) -> Seq<usize> {
        members_at(self.sources.places@, base.route)
    }

    /// How bridges are scored.
    pub open spec fn bridging(self) -> BridgeConfig {
        bridge_config(self.adaptive, self.request.repeat_windows)
    }

    /// The distribution that percentiles refer to.
    pub open spec fn reference(self, route: Seq<usize>) -> Result<Seq<u64>, BridgeError> {
        distance_model(self.scoring, route_tracks(self.library), self.bridging()).frozen_reference(
            route,
            reference_population(route, self.eligible),
        )
    }

    /// The model that bridges are scored by.
    pub open spec fn bridge(self, reference: Seq<u64>) -> BridgeModel {
        BridgeModel {
            scoring: self.scoring,
            tracks: route_tracks(self.library),
            config: self.bridging(),
            reference,
        }
    }

    /// How many accepted candidates a gap keeps.
    pub open spec fn retained(self) -> usize {
        given_or(self.request.extension.candidate_limit, DEFAULT_RETAINED_CANDIDATES)
    }

    /// What analyzing the gaps is about.
    pub open spec fn gap_model(
        self,
        plan: ExtensionPlan,
        base: BaseRouteView,
        reference: Seq<u64>,
    ) -> GapModel {
        GapModel {
            bridge: self.bridge(reference),
            route: self.route(base),
            local: base.route,
            ids: ids_on(base.route, self.request.source_tracks@),
            edges: self.edges,
            identities: self.sources.identities@,
            candidates: self.candidates,
            library: self.library,
            shortlist_limit: shortlist_of(self.request.extension.shortlist_limit, plan),
            retained_limit: self.retained(),
            trigger: trigger_of(plan),
        }
    }

    /// The first gap that is analyzed: only the last on the way to a destination,
    /// and none where a playlist is grown.
    pub open spec fn first_gap(self, plan: ExtensionPlan, base: BaseRouteView) -> int {
        match plan {
            ExtensionPlan::SeedGrowth => base.route.len() as int,
            ExtensionPlan::Destination { goal, effort } => base.route.len() - 1,
            _ => 1,
        }
    }

    /// The names that tracks are reported under.
    pub open spec fn names(self, base: BaseRouteView) -> NamesView {
        NamesView {
            route: self.route(base),
            ids: ids_on(base.route, self.request.source_tracks@),
            library: self.library,
        }
    }

    /// How an automatic selection is made.
    pub open spec fn automatic_config(self, max_added_tracks: usize, trigger_percentile: i64) -> AutomaticSelectionConfig {
        AutomaticSelectionConfig {
            max_added_tracks,
            trigger_percentile,
            track_guidance_percent: self.request.selection.track_guidance_percent,
            artist_guidance_percent: self.request.selection.artist_guidance_percent,
            variation_percent: self.request.selection.variation_percent,
            generation_seed: self.request.selection.generation_seed,
        }
    }

    /// An automatic selection.
    pub open spec fn automatic(
        self,
        base: BaseRouteView,
        reference: Seq<u64>,
        gaps: Seq<AutomaticGapView>,
        max_added_tracks: usize,
        trigger_percentile: i64,
    ) -> Result<SelectedView, FailureView> {
        match automatic_selection(
            self.bridge(reference),
            self.route(base),
            gaps,
            self.automatic_config(max_added_tracks, trigger_percentile),
        ) {
            Err(error) => Err(failed("BRIDGE_PREVIEW_FAILED"@, error.text())),
            Ok(selection) => Ok(
                SelectedView {
                    report: SelectionReportView::Automatic(
                        self.names(base).automatic(
                            selection,
                            max_added_tracks,
                            trigger_percentile,
                        ),
                    ),
                    assisted: false,
                    strategy: base.strategy,
                    objective: base.objective,
                },
            ),
        }
    }

    /// The ends that a request speaks of.
    pub open spec fn allowed(self) -> AllowedEnds {
        AllowedEnds {
            opening: self.request.extension.allow_opening_track,
            closing: self.request.extension.allow_closing_track,
        }
    }

    /// An end of the route with the evidence for its candidates. The track at
    /// the end is to the right of an opening and to the left of a closing.
    pub open spec fn end(
        self,
        base: BaseRouteView,
        at: int,
        endpoint: SourceEndpoint,
    ) -> ExactEndpointSlotView {
        ExactEndpointSlotView {
            anchor: self.route(base)[at],
            semantics: endpoint_evidence(
                self.edges,
                self.sources.identities@[base.route[at] as int],
                endpoint,
                self.sources.identities@,
                self.candidates,
            ),
        }
    }

    /// The ends that may take a track.
    pub open spec fn ends(self, base: BaseRouteView) -> ExactEndpointSlotsView {
        ExactEndpointSlotsView {
            opening: if is_allowed(self.allowed().opening) {
                Some(self.end(base, 0, SourceEndpoint::Right))
            } else {
                None
            },
            closing: if is_allowed(self.allowed().closing) {
                Some(self.end(base, base.route.len() - 1, SourceEndpoint::Left))
            } else {
                None
            },
        }
    }

    /// How an exact selection is made.
    pub open spec fn exact_config(self, requested_added_tracks: usize) -> ExactSelectionConfig {
        ExactSelectionConfig {
            requested_added_tracks,
            candidate_limit: self.retained(),
            beam_width: EXACT_COUNT_BEAM_WIDTH,
            max_tracks_per_gap: tracks_per_gap(self.request.extension),
            track_guidance_percent: self.request.selection.track_guidance_percent,
            artist_guidance_percent: self.request.selection.artist_guidance_percent,
            variation_percent: self.request.selection.variation_percent,
            generation_seed: self.request.selection.generation_seed,
        }
    }

    /// An exact selection.
    pub open spec fn exact(
        self,
        base: BaseRouteView,
        reference: Seq<u64>,
        gaps: Seq<AutomaticGapView>,
        requested_added_tracks: usize,
    ) -> Result<SelectedView, FailureView> {
        let ends = self.ends(base);
        match (ExactModel {
            bridge: self.bridge(reference),
            original: self.route(base),
            config: self.exact_config(requested_added_tracks),
        }).endpoint_selection(gaps, ends) {
            Err(error) => Err(failed("BRIDGE_PREVIEW_FAILED"@, error.text())),
            Ok(selection) => Ok(
                SelectedView {
                    report: SelectionReportView::Exact(
                        self.names(base).exact(
                            selection,
                            requested_added_tracks,
                            self.allowed(),
                            EXACT_COUNT_BEAM_WIDTH,
                            self.retained(),
                        ),
                    ),
                    assisted: end_assisted(ends.opening) || end_assisted(ends.closing),
                    strategy: base.strategy,
                    objective: base.objective,
                },
            ),
        }
    }

    /// Growing the playlist to a target.
    pub open spec fn growth_model(self, target: usize) -> GrowthModel {
        GrowthModel {
            scoring: self.scoring,
            tracks: route_tracks(self.library),
            config: self.config(),
            target,
            sources: self.sources.places@,
            eligible: self.eligible,
            preference: PreferenceView {
                variation_percent: self.request.selection.variation_percent,
                generation_seed: self.request.selection.generation_seed,
                supports: self.supports(),
            },
        }
    }

    /// How much evidence from the sources supports each track of the library.
    pub open spec fn supports(self) -> Seq<u64> {
        let settings = self.request.selection;
        let size = self.library.len() as int;
        if settings.track_guidance_percent == 0 && settings.artist_guidance_percent == 0 {
            unsupported_tracks(size)
        } else {
            let findings = supported(
                self.candidates,
                |candidate: CandidateIdentity|
                    seed_support(self.edges, self.sources.identities@, candidate),
            );
            supports_upto(findings, settings, size, findings.len() as int)
        }
    }

    /// A grown playlist.
    pub open spec fn grown(self, base: BaseRouteView) -> Result<SelectedView, FailureView> {
        match self.request.extension.target_track_count {
            None => Err(
                failed(
                    "SEED_GROWTH_TARGET_REQUIRED"@,
                    "seed_growth extension requires extension.target_track_count"@,
                ),
            ),
            Some(target) => match self.growth_model(target).grown(self.route(base)) {
                Err(failure) => Err(failure),
                Ok(growth) => Ok(
                    SelectedView {
                        report: SelectionReportView::SeedGrowth(
                            self.names(base).growth(
                                growth,
                                target,
                                self.sources.places@.len() as int,
                            ),
                        ),
                        assisted: false,
                        strategy: growth.strategy,
                        objective: growth.objective,
                    },
                ),
            },
        }
    }

    /// How a search for a destination is made.
    pub open spec fn destination_config(
        self,
        goal: DestinationGoal,
        effort: SearchEffort,
    ) -> ExactSelectionConfig {
        ExactSelectionConfig {
            requested_added_tracks: most(goal),
            candidate_limit: breadth(effort).expansion_limit,
            beam_width: breadth(effort).beam_width,
            max_tracks_per_gap: MAX_EXACT_TRACKS_PER_GAP,
            track_guidance_percent: self.request.selection.track_guidance_percent,
            artist_guidance_percent: self.request.selection.artist_guidance_percent,
            variation_percent: self.request.selection.variation_percent,
            generation_seed: self.request.selection.generation_seed,
        }
    }

    /// What a search for a destination looks at. Nothing is turned away for how
    /// it sounds: the path is chosen by its transitions.
    pub open spec fn destination_model(
        self,
        reference: Seq<u64>,
        goal: DestinationGoal,
        effort: SearchEffort,
    ) -> DestinationModel {
        DestinationModel {
            bridge: BridgeModel {
                scoring: self.scoring,
                tracks: route_tracks(self.library),
                config: unlimited(self.bridging()),
                reference,
            },
            config: self.destination_config(goal, effort),
            history: seq![],
            track_window: self.request.repeat_windows.track,
            distance: self.distance,
        }
    }

    /// A route to the destination, whose transitions are measured against the
    /// distances from the start and the destination to the library.
    pub open spec fn destination(
        self,
        base: BaseRouteView,
        reference: Seq<u64>,
        gaps: Seq<AutomaticGapView>,
        goal: DestinationGoal,
        effort: SearchEffort,
    ) -> Result<SelectedView, FailureView> {
        let route = self.route(base);
        let before = route.len() - 2;
        match self.reference(route.skip(before)) {
            Err(error) => Err(failed("BRIDGE_SCORING_FAILED"@, error.text())),
            Ok(measure) => match self.destination_model(reference, goal, effort).leg(
                route,
                gaps[0],
                most(goal),
            ) {
                Err(error) => Err(failed("BRIDGE_PREVIEW_FAILED"@, error.text())),
                Ok(options) => match qualities_from(
                    measure,
                    self.distance,
                    options,
                    before,
                    0,
                    seq![],
                ) {
                    Err(error) => Err(failed("BRIDGE_SCORING_FAILED"@, error.text())),
                    Ok(qualities) => Ok(
                        SelectedView {
                            report: SelectionReportView::Destination(
                                self.names(base).destination(
                                    goal,
                                    effort,
                                    options,
                                    qualities,
                                    gaps[0].semantics.candidates.len() as usize,
                                ),
                            ),
                            assisted: false,
                            strategy: base.strategy,
                            objective: base.objective,
                        },
                    ),
                },
            },
        }
    }

    /// The selection that a plan asks for.
    pub open spec fn selected(
        self,
        plan: ExtensionPlan,
        base: BaseRouteView,
        reference: Seq<u64>,
        gaps: Seq<AutomaticGapView>,
    ) -> Result<SelectedView, FailureView> {
        match plan {
            ExtensionPlan::Automatic { max_added_tracks, trigger_percentile } => self.automatic(
                base,
                reference,
                gaps,
                max_added_tracks,
                trigger_percentile,
            ),
            ExtensionPlan::Exact { requested_added_tracks } => self.exact(
                base,
                reference,
                gaps,
                requested_added_tracks,
            ),
            ExtensionPlan::SeedGrowth => self.grown(base),
            ExtensionPlan::Destination { goal, effort } => self.destination(
                base,
                reference,
                gaps,
                goal,
                effort,
            ),
        }
    }

    /// The report of a finished analysis.
    pub open spec fn report(
        self,
        plan: ExtensionPlan,
        base: BaseRouteView,
        reference: Seq<u64>,
        gaps: Seq<AnalyzedGap>,
        selected: SelectedView,
    ) -> BridgeAnalysisView {
        BridgeAnalysisView {
            parallel_execution: base.execution,
            selected_strategy: selected.strategy,
            source_track_ids: source_ids(self.request.source_tracks@),
            selected_track_ids: ids_on(base.route, self.request.source_tracks@),
            selected_route_objective: selected.objective,
            usable_library_track_count: self.library.len() as int,
            local_candidate_track_count: self.local_count,
            non_local_candidate_excluded_count: left_out(
                self.local_count,
                self.library.len() as int,
            ),
            eligible_candidate_count: self.eligible.len() as int,
            frozen_reference_count: reference.len() as int,
            trigger_percentile: trigger_of(plan),
            retained_candidate_limit: self.retained(),
            semantic_mode: mode_text(
                any_assisted(gaps_of(gaps)) || selected.assisted,
                self.edges.len() as int,
                self.provider_count,
            ),
            gaps: reports_of(gaps),
            selection: selected.report,
        }
    }

    /// The outcome once the order of the sources is there.
    pub open spec fn outcome_on(self, plan: ExtensionPlan, base: BaseRouteView) -> Result<
        BridgeAnalysisView,
        FailureView,
    > {
        match self.reference(self.route(base)) {
            Err(error) => Err(failed("BRIDGE_SCORING_FAILED"@, error.text())),
            Ok(reference) => match self.gap_model(plan, base, reference).analyzed_from(
                self.first_gap(plan, base),
                seq![],
            ) {
                Err(failure) => Err(failure),
                Ok(gaps) => match self.selected(plan, base, reference, gaps_of(gaps)) {
                    Err(failure) => Err(failure),
                    Ok(selected) => Ok(self.report(plan, base, reference, gaps, selected)),
                },
            },
        }
    }

    /// The outcome of the analysis.
    pub open spec fn outcome(self, plan: ExtensionPlan) -> Result<BridgeAnalysisView, FailureView> {
        match self.base(plan) {
            Err(failure) => Err(failure),
            Ok(base) => self.outcome_on(plan, base),
        }
    }
}

/// No support for any of `size` tracks.
pub open spec fn unsupported_tracks(size: int) -> Seq<u64> {
    Seq::new(size as nat, |i: int| 0)
}

/// What the first `count` findings say in support of each of `size` tracks.
pub open spec fn supports_upto(
    findings: Seq<CandidateSemanticsView>,
    settings: SelectionSettings,
    size: int,
    count: int,
) -> Seq<u64>
    decreases count,
{
    if count <= 0 {
        unsupported_tracks(size)
    } else {
        let before = supports_upto(findings, settings, size, count - 1);
        let found = findings[count - 1];
        if found.candidate < size {
            before.update(
                found.candidate as int,
                found.seed_guidance_score(
                    settings.track_guidance_percent,
                    settings.artist_guidance_percent,
                ) as u64,
            )
        } else {
            before
        }
    }
}

/// What every reported selection keeps: the playlist in its order and no track
/// twice, within the budget or with exactly the requested number of additions,
/// or else nothing at all. A grown playlist reaches its target.
pub open spec fn keeps_the_playlist(report: SelectionReportView) -> bool {
    match report {
        SelectionReportView::Automatic(report) => {
            &&& report.original_subsequence_preserved
            &&& report.unique_membership
            &&& 0 <= report.added_track_count <= report.max_added_tracks
        },
        SelectionReportView::Exact(report) => if report.feasible {
            &&& report.original_subsequence_preserved == Some(true)
            &&& report.unique_membership == Some(true)
            &&& report.added_track_count == report.requested_added_tracks
            &&& report.infeasibility is None
        } else {
            &&& report.final_sequence is None
            &&& report.decisions.len() == 0
            &&& report.endpoint_decisions.len() == 0
            &&& report.added_track_count == 0
            &&& report.infeasibility is Some
        },
        SelectionReportView::SeedGrowth(report) => {
            &&& report.unique_membership
            &&& report.added_track_count == report.requested_added_tracks
            &&& report.final_sequence.len() == report.target_track_count
        },
        SelectionReportView::Destination(report) => if report.feasible {
            &&& report.original_subsequence_preserved == Some(true)
            &&& report.unique_membership == Some(true)
            &&& report.min_added_tracks <= report.added_track_count <= report.max_added_tracks
            &&& report.route_quality is Some
            &&& report.infeasibility is None
        } else {
            &&& report.final_sequence is None
            &&& report.decisions.len() == 0
            &&& report.added_track_count == 0
            &&& report.route_quality is None
            &&& report.infeasibility is Some
        },
    }
}

// Carrying it out.

struct Analysis<'a, P, D, F> {
    request: &'a Request,
    adaptive: AdaptiveSettings,
    library: &'a [LibraryTrack],
    local_count: Option<usize>,
    scorer: &'a AdaptiveScorer<P, D>,
    distance: F,
    bundle: &'a EvidenceBundle,
    sources: &'a Sources,
    eligible: &'a [usize],
    candidates: &'a [CandidateIdentity],
}

/// Whether the numbers in a request, and a library of some size, leave room for
/// computing with them.
pub open spec fn within_machine_limits(request: Request, size: int) -> bool {
    &&& request.route.search.restart_count * 2 + 5 <= usize::MAX
    &&& request.repeat_windows.artist < usize::MAX
    &&& request.repeat_windows.album < usize::MAX
    &&& request.source_tracks@.len() * (MAX_EXACT_TRACKS_PER_GAP + 1) < usize::MAX - 4
    &&& request.source_tracks@.len() + size < usize::MAX - MAX_EXACT_TRACKS_PER_GAP
}

impl<
    'a,
    P: Fn(&[usize], u16) -> Result<(), ContextualError> + Copy,
    D: Fn(&[usize], u16, &[usize], usize) -> u64 + Copy,
    F: Fn(usize, usize) -> u64 + Copy,
> Analysis<'a, P, D, F> {
    spec fn model(&self) -> AnalysisModel {
        AnalysisModel {
            request: *self.request,
            adaptive: self.adaptive,
            library: self.library@,
            local_count: self.local_count,
            scoring: self.scorer.scoring(),
            distance: adjacency(self.distance),
            edges: self.bundle.edges@,
            provider_count: self.bundle.providers@.len() as int,
            sources: *self.sources,
            eligible: self.eligible@,
            candidates: self.candidates@,
        }
    }

    spec fn valid(&self) -> bool {
        &&& self.scorer.valid()
        &&& self.scorer.places@.len() == 0
        &&& is_adjacency(self.distance)
        &&& within_machine_limits(*self.request, self.library@.len() as int)
        &&& self.request.selection.variation_percent <= 100
        &&& is_bridge_policy(self.request.route.ordering_policy@)
        &&& self.sources.places@.len() == self.request.source_tracks@.len()
        &&& self.sources.tracks@.len() == self.request.source_tracks@.len()
        &&& self.sources.identities@.len() == self.request.source_tracks@.len()
        &&& in_range(self.sources.places@, self.library@.len() as int)
        &&& in_range(self.eligible@, self.library@.len() as int)
    }

    /// Whether no track is there twice, neither among the sources nor among the
    /// candidates nor among both.
    spec fn distinct(&self) -> bool {
        &&& self.sources.places@.no_duplicates()
        &&& self.eligible@.no_duplicates()
        &&& forall|i: int|
            0 <= i < self.eligible@.len() ==> !self.sources.places@.contains(
                #[trigger] self.eligible@[i],
            )
    }

    /// Whether a route orders the sources.
    spec fn orders(&self, base: BaseRoute) -> bool {
        &&& visits_all(base.route@, self.request.source_tracks@.len() as int)
        &&& base.route@.len() >= 2
    }

    fn config(&self) -> (config: SearchConfig)
        ensures
            config == self.model().config(),
    {
        requested_search(
            self.adaptive,
            self.request.route.search,
            self.request.repeat_windows,
            self.request.selection,
        )
    }

    fn base(&self, plan: ExtensionPlan) -> (base: Result<BaseRoute, CommandFailure>)
        requires
            self.valid(),
        ensures
            match self.model().base(plan) {
                Ok(found) => base is Ok && base->Ok_0@ == found,
                Err(failure) => base is Err && base->Err_0@ == failure,
            },
            base matches Ok(found) ==> self.orders(found),
    {
        let config = base_search(&self.config(), plan);
        let local = scorer_at(self.scorer, copied(self.sources.places.as_slice()));
        order_sources(
            self.request.route.ordering_policy.as_str(),
            self.sources.tracks.as_slice(),
            &local,
            &config,
        )
    }

    fn allowed(&self) -> (allowed: AllowedEnds)
        ensures
            allowed == self.model().allowed(),
    {
        AllowedEnds {
            opening: self.request.extension.allow_opening_track,
            closing: self.request.extension.allow_closing_track,
        }
    }

    fn retained(&self) -> (limit: usize)
        ensures
            limit == self.model().retained(),
    {
        limit_or(self.request.extension.candidate_limit, DEFAULT_RETAINED_CANDIDATES)
    }

    fn end(&self, base: &BaseRoute, route: &[usize], at: usize, endpoint: SourceEndpoint) -> (end:
        ExactEndpointSlot)
        requires
            self.valid(),
            self.orders(*base),
            route@ == self.model().route(base@),
            at < base.route@.len(),
        ensures
            end@ == self.model().end(base@, at as int, endpoint),
    {
        assert(base.route@[at as int] < self.request.source_tracks@.len());
        ExactEndpointSlot {
            anchor: route[at],
            semantics: select_endpoint_candidates(
                self.bundle,
                &self.sources.identities[base.route[at]],
                endpoint,
                self.sources.identities.as_slice(),
                self.candidates,
            ),
        }
    }

    fn ends(&self, base: &BaseRoute, route: &[usize]) -> (ends: ExactEndpointSlots)
        requires
            self.valid(),
            self.orders(*base),
            route@ == self.model().route(base@),
        ensures
            ends@ == self.model().ends(base@),
    {
        let allowed = self.allowed();
        let opening = if allowed.opening_enabled() {
            Some(self.end(base, route, 0, SourceEndpoint::Right))
        } else {
            None
        };
        let closing = if allowed.closing_enabled() {
            Some(self.end(base, route, route.len() - 1, SourceEndpoint::Left))
        } else {
            None
        };
        ExactEndpointSlots { opening, closing }
    }

    fn select_automatic(
        &self,
        base: &BaseRoute,
        names: &Names<'_>,
        gaps: &[AutomaticGap],
        scoring: &ExactScoringContext<'_, P, D>,
        max_added_tracks: usize,
        trigger_percentile: i64,
    ) -> (selected: Result<Selected, CommandFailure>)
        requires
            self.valid(),
            self.orders(*base),
            names.valid(),
            names@ == self.model().names(base@),
            scoring.scorer.valid(),
            scoring.model() == self.model().bridge(scoring.reference@),
            gaps@.len() <= base.route@.len(),
        ensures
            match self.model().automatic(
                base@,
                scoring.reference@,
                views(gaps@),
                max_added_tracks,
                trigger_percentile,
            ) {
                Ok(found) => selected is Ok && selected->Ok_0@ == found,
                Err(failure) => selected is Err && selected->Err_0@ == failure,
            },
            self.distinct() ==> (selected matches Ok(found) ==> keeps_the_playlist(found@.report)),
    {
        let settings = &self.request.selection;
        let config = AutomaticSelectionConfig {
            max_added_tracks,
            trigger_percentile,
            track_guidance_percent: settings.track_guidance_percent,
            artist_guidance_percent: settings.artist_guidance_percent,
            variation_percent: settings.variation_percent,
            generation_seed: settings.generation_seed,
        };
        assert(config == self.model().automatic_config(max_added_tracks, trigger_percentile));
        let selection = match select_automatic_bridges(names.route, gaps, &config, scoring) {
            Err(error) => {
                return Err(CommandFailure::new("BRIDGE_PREVIEW_FAILED", error.message()));
            },
            Ok(selection) => selection,
        };
        proof {
            automatic_selection_keeps_the_playlist(
                scoring.model(),
                names.route@,
                views(gaps@),
                config,
            );
            if self.distinct() {
                lemma_members_distinct(self.sources.places@, base.route@);
                kept_order_is_reported(names@, selection.final_route@);
            }
        }
        Ok(
            Selected {
                report: SelectionReport::Automatic(
                    report_automatic(names, &selection, max_added_tracks, trigger_percentile),
                ),
                assisted: false,
                strategy: base.strategy,
                objective: base.objective,
            },
        )
    }

    fn select_exact(
        &self,
        base: &BaseRoute,
        names: &Names<'_>,
        gaps: &[AutomaticGap],
        scoring: &ExactScoringContext<'_, P, D>,
        requested_added_tracks: usize,
    ) -> (selected: Result<Selected, CommandFailure>)
        requires
            self.valid(),
            self.orders(*base),
            names.valid(),
            names@ == self.model().names(base@),
            scoring.scorer.valid(),
            scoring.model() == self.model().bridge(scoring.reference@),
            gaps@.len() <= base.route@.len(),
        ensures
            match self.model().exact(
                base@,
                scoring.reference@,
                views(gaps@),
                requested_added_tracks,
            ) {
                Ok(found) => selected is Ok && selected->Ok_0@ == found,
                Err(failure) => selected is Err && selected->Err_0@ == failure,
            },
            self.distinct() ==> (selected matches Ok(found) ==> keeps_the_playlist(found@.report)),
    {
        let settings = &self.request.selection;
        let config = ExactSelectionConfig {
            requested_added_tracks,
            candidate_limit: self.retained(),
            beam_width: EXACT_COUNT_BEAM_WIDTH,
            max_tracks_per_gap: limit_or(self.request.extension.max_tracks_per_gap, 1),
            track_guidance_percent: settings.track_guidance_percent,
            artist_guidance_percent: settings.artist_guidance_percent,
            variation_percent: settings.variation_percent,
            generation_seed: settings.generation_seed,
        };
        assert(config == self.model().exact_config(requested_added_tracks));
        let ends = self.ends(base, names.route);
        assert(names.route@.len() + gaps@.len() * MAX_EXACT_TRACKS_PER_GAP < usize::MAX - 4)
            by (nonlinear_arith)
            requires
                names.route@.len() == self.request.source_tracks@.len(),
                gaps@.len() <= self.request.source_tracks@.len(),
                self.request.source_tracks@.len() * (MAX_EXACT_TRACKS_PER_GAP + 1) < usize::MAX - 4,
        ;
        let selection = match select_exact_count_bridges_with_endpoints(
            names.route,
            gaps,
            &config,
            &ends,
            scoring,
        ) {
            Err(error) => {
                return Err(CommandFailure::new("BRIDGE_PREVIEW_FAILED", error.message()));
            },
            Ok(selection) => selection,
        };
        proof {
            endpoint_selection_is_all_or_nothing(
                ExactModel { bridge: scoring.model(), original: names.route@, config },
                views(gaps@),
                ends@,
            );
            if self.distinct() {
                lemma_members_distinct(self.sources.places@, base.route@);
                if let Some(route) = selection@.final_route {
                    kept_order_is_reported(names@, route);
                }
            }
        }
        let assisted: bool = is_assisted(&ends.opening) || is_assisted(&ends.closing);
        Ok(
            Selected {
                report: SelectionReport::Exact(
                    report_exact(
                        names,
                        &selection,
                        requested_added_tracks,
                        self.allowed(),
                        EXACT_COUNT_BEAM_WIDTH,
                        self.retained(),
                    ),
                ),
                assisted,
                strategy: base.strategy,
                objective: base.objective,
            },
        )
    }

    fn supports(&self) -> (supports: Vec<u64>)
        ensures
            supports@ == self.model().supports(),
    {
        let settings = self.request.selection;
        let size: usize = self.library.len();
        let mut supports: Vec<u64> = Vec::new();
        let mut at: usize = 0;
        while at < size
            invariant
                at <= size,
                supports@ =~= unsupported_tracks(size as int).take(at as int),
            decreases size - at,
        {
            supports.push(0);
            at += 1;
        }
        assert(supports@ =~= unsupported_tracks(size as int));
        if settings.track_guidance_percent == 0 && settings.artist_guidance_percent == 0 {
            return supports;
        }
        let findings = select_seed_candidates(
            self.bundle,
            self.sources.identities.as_slice(),
            self.candidates,
        );
        let ghost all = views(findings@);
        let mut next: usize = 0;
        while next < findings.len()
            invariant
                next <= findings@.len(),
                all == views(findings@),
                supports@.len() == size,
                supports@ == supports_upto(all, settings, size as int, next as int),
            decreases findings@.len() - next,
        {
            assert(all[next as int] == findings@[next as int]@);
            let track: usize = findings[next].candidate;
            if track < size {
                let score: u64 = findings[next].seed_guidance_score(
                    settings.track_guidance_percent,
                    settings.artist_guidance_percent,
                );
                supports.set(track, score);
            }
            next += 1;
        }
        supports
    }

    fn grow(&self, base: &BaseRoute, names: &Names<'_>, tracks: &[RouteTrack]) -> (selected: Result<
        Selected,
        CommandFailure,
    >)
        requires
            self.valid(),
            self.orders(*base),
            names.valid(),
            names@ == self.model().names(base@),
            tracks@ == route_tracks(self.library@),
            in_range(names.route@, tracks@.len() as int),
        ensures
            match self.model().grown(base@) {
                Ok(found) => selected is Ok && selected->Ok_0@ == found,
                Err(failure) => selected is Err && selected->Err_0@ == failure,
            },
            self.distinct() ==> (selected matches Ok(found) ==> keeps_the_playlist(found@.report)),
    {
        let target: usize = match self.request.extension.target_track_count {
            None => {
                return Err(
                    CommandFailure::plain(
                        "SEED_GROWTH_TARGET_REQUIRED",
                        "seed_growth extension requires extension.target_track_count",
                    ),
                );
            },
            Some(target) => target,
        };
        let config = self.config();
        let count: usize = self.eligible.len();
        assert(self.eligible@.len() == count);
        let supports = self.supports();
        let preference = Preference {
            variation_percent: self.request.selection.variation_percent,
            generation_seed: self.request.selection.generation_seed,
            supports: supports.as_slice(),
        };
        assert(preference@ == self.model().growth_model(target).preference);
        let growth = match select_seed_growth(
            target,
            self.sources.places.as_slice(),
            names.route,
            self.eligible,
            tracks,
            self.scorer,
            &config,
            &preference,
        ) {
            Err(failure) => {
                return Err(failure);
            },
            Ok(growth) => growth,
        };
        proof {
            if self.distinct() {
                lemma_members_distinct(self.sources.places@, base.route@);
                lemma_grown_distinct(
                    self.model().growth_model(target),
                    base.route@,
                    growth.additions@,
                );
            }
        }
        Ok(
            Selected {
                report: SelectionReport::SeedGrowth(
                    report_growth(names, &growth, target, self.sources.places.len()),
                ),
                assisted: false,
                strategy: growth.strategy,
                objective: growth.objective,
            },
        )
    }

    fn select_destination(
        &self,
        base: &BaseRoute,
        names: &Names<'_>,
        gaps: &[AutomaticGap],
        scoring: &ExactScoringContext<'_, P, D>,
        goal: DestinationGoal,
        effort: SearchEffort,
    ) -> (selected: Result<Selected, CommandFailure>)
        requires
            self.valid(),
            self.orders(*base),
            names.valid(),
            names@ == self.model().names(base@),
            scoring.scorer == self.scorer,
            scoring.tracks@ == route_tracks(self.library@),
            *scoring.config == self.model().bridging(),
            gaps@.len() == 1,
        ensures
            match self.model().destination(base@, scoring.reference@, views(gaps@), goal, effort) {
                Ok(found) => selected is Ok && selected->Ok_0@ == found,
                Err(failure) => selected is Err && selected->Err_0@ == failure,
            },
            self.distinct() ==> (selected matches Ok(found) ==> keeps_the_playlist(found@.report)),
    {
        let settings = &self.request.selection;
        let route = names.route;
        let before: usize = route.len() - 2;
        let ends = vstd::slice::slice_subrange(route, before, route.len());
        assert(ends@ =~= route@.skip(before as int));
        let heard = population(ends, self.eligible);
        let measure = match build_frozen_reference(
            ends,
            heard.as_slice(),
            scoring.tracks,
            self.scorer,
            scoring.config,
        ) {
            Err(error) => {
                return Err(CommandFailure::new("BRIDGE_SCORING_FAILED", error.message()));
            },
            Ok(measure) => measure,
        };
        let breadth = search_breadth(effort);
        let config = ExactSelectionConfig {
            requested_added_tracks: goal.most(),
            candidate_limit: breadth.expansion_limit,
            beam_width: breadth.beam_width,
            max_tracks_per_gap: MAX_EXACT_TRACKS_PER_GAP,
            track_guidance_percent: settings.track_guidance_percent,
            artist_guidance_percent: settings.artist_guidance_percent,
            variation_percent: settings.variation_percent,
            generation_seed: settings.generation_seed,
        };
        let limits = without_limits(scoring.config);
        let free = ExactScoringContext {
            tracks: scoring.tracks,
            scorer: self.scorer,
            config: &limits,
            reference: scoring.reference,
        };
        let nothing: Vec<usize> = Vec::new();
        let heard_before = DestinationRepeatContext {
            history_route: nothing.as_slice(),
            track_window: self.request.repeat_windows.track,
        };
        let ghost model = self.model().destination_model(scoring.reference@, goal, effort);
        assert(nothing@ =~= seq![]);
        assert(free.model() == model.bridge);
        assert(views(gaps@)[0] == gaps@[0]@);
        let options = match select_destination_bridge_routes(
            route,
            &gaps[0],
            goal.most(),
            &config,
            heard_before,
            &free,
            self.distance,
        ) {
            Err(error) => {
                return Err(CommandFailure::new("BRIDGE_PREVIEW_FAILED", error.message()));
            },
            Ok(options) => options,
        };
        let ghost all = views(options@);
        proof {
            model.every_leg_extends_the_last_transition(route@, gaps@[0]@, most(goal));
            assert forall|i: int| 0 <= i < options@.len() implies (
            #[trigger] options@[i])@.selection.final_route is Some
                && options@[i]@.selection.final_route->Some_0.len() > before by {
                assert(extends_last(route@, gaps@[0]@, most(goal) as int, all[i]));
            }
        }
        let qualities = match measure_routes(&measure, &self.distance, &options, before) {
            Err(error) => {
                return Err(CommandFailure::new("BRIDGE_SCORING_FAILED", error.message()));
            },
            Ok(qualities) => qualities,
        };
        proof {
            the_shortest_good_route_or_the_best_is_chosen(goal, all, views(qualities@));
            if self.distinct() {
                lemma_members_distinct(self.sources.places@, base.route@);
                destination_routes_hold_no_track_twice(model, route@, gaps@[0]@, most(goal));
                routes_to_a_destination_are_sound(model, route@, gaps@[0]@, most(goal));
                if let Some(at) = chosen_route(goal, all, views(qualities@)) {
                    let found = all[at].selection.final_route->Some_0;
                    assert(found.no_duplicates());
                    assert(kept_in_order(route@, found));
                    kept_order_is_reported(names@, found);
                }
            }
        }
        Ok(
            Selected {
                report: SelectionReport::Destination(
                    report_destination(
                        names,
                        &goal,
                        effort,
                        &options,
                        &qualities,
                        gaps[0].semantics.candidates.len(),
                    ),
                ),
                assisted: false,
                strategy: base.strategy,
                objective: base.objective,
            },
        )
    }

    fn select(
        &self,
        plan: ExtensionPlan,
        base: &BaseRoute,
        names: &Names<'_>,
        gaps: &[AutomaticGap],
        scoring: &ExactScoringContext<'_, P, D>,
    ) -> (selected: Result<Selected, CommandFailure>)
        requires
            self.valid(),
            self.orders(*base),
            names.valid(),
            names@ == self.model().names(base@),
            in_range(names.route@, self.library@.len() as int),
            scoring.scorer == self.scorer,
            scoring.tracks@ == route_tracks(self.library@),
            *scoring.config == self.model().bridging(),
            scoring.scorer.valid(),
            scoring.model() == self.model().bridge(scoring.reference@),
            gaps@.len() <= base.route@.len(),
            plan is Destination ==> gaps@.len() == 1,
        ensures
            match self.model().selected(plan, base@, scoring.reference@, views(gaps@)) {
                Ok(found) => selected is Ok && selected->Ok_0@ == found,
                Err(failure) => selected is Err && selected->Err_0@ == failure,
            },
            self.distinct() ==> (selected matches Ok(found) ==> keeps_the_playlist(found@.report)),
    {
        match plan {
            ExtensionPlan::Automatic { max_added_tracks, trigger_percentile } => {
                self.select_automatic(
                    base,
                    names,
                    gaps,
                    scoring,
                    max_added_tracks,
                    trigger_percentile,
                )
            },
            ExtensionPlan::Exact { requested_added_tracks } => {
                self.select_exact(base, names, gaps, scoring, requested_added_tracks)
            },
            ExtensionPlan::SeedGrowth => self.grow(base, names, scoring.tracks),
            ExtensionPlan::Destination { goal, effort } => {
                self.select_destination(base, names, gaps, scoring, goal, effort)
            },
        }
    }
}

proof fn lemma_members_distinct(members: Seq<usize>, order: Seq<usize>)
    requires
        members.no_duplicates(),
        visits_all(order, members.len() as int),
    ensures
        members_at(members, order).no_duplicates(),
        members_at(members, order).len() == members.len(),
{
    let route = members_at(members, order);
    assert forall|i: int, j: int|
        0 <= i < route.len() && 0 <= j < route.len() && i != j implies route[i] != route[j] by {
        assert(order[i] != order[j]);
        assert(order[i] < members.len() && order[j] < members.len());
    }
}

proof fn lemma_grown_distinct(model: GrowthModel, order: Seq<usize>, additions: Seq<Addition>)
    requires
        additions == model.additions(),
        model.eligible.len() <= usize::MAX,
        model.sources.no_duplicates(),
        model.eligible.no_duplicates(),
        forall|i: int|
            0 <= i < model.eligible.len() ==> !model.sources.contains(#[trigger] model.eligible[i]),
        visits_all(order, model.sources.len() as int),
    ensures
        (members_at(model.sources, order) + candidates_of(additions)).no_duplicates(),
{
    additions_are_relevant_to_the_sources(model);
    lemma_members_distinct(model.sources, order);
    let known = members_at(model.sources, order);
    let added = candidates_of(additions);
    let all = known + added;
    assert forall|i: int, j: int|
        0 <= i < known.len() && 0 <= j < added.len() implies known[i] != added[j] by {
        assert(model.eligible.contains(additions[j].candidate));
        let k = choose|k: int|
            0 <= k < model.eligible.len() && model.eligible[k] == additions[j].candidate;
        assert(!model.sources.contains(model.eligible[k]));
        assert(order[i] < model.sources.len());
        assert(model.sources.contains(known[i]));
    }
    assert forall|i: int, j: int|
        0 <= i < all.len() && 0 <= j < all.len() && i != j implies all[i] != all[j] by {
        if i < known.len() && j < known.len() {
            assert(known[i] != known[j]);
        } else if i >= known.len() && j >= known.len() {
            assert(added[i - known.len()] != added[j - known.len()]);
        } else if i < known.len() {
            assert(known[i] != added[j - known.len()]);
        } else {
            assert(known[j] != added[i - known.len()]);
        }
    }
}

fn is_assisted(end: &Option<ExactEndpointSlot>) -> (assisted: bool)
    ensures
        assisted == end_assisted(slot_in(*end)),
{
    match end {
        Some(end) => end.semantics.pool != SemanticPool::BlissOnly,
        None => false,
    }
}

fn is_any_assisted(gaps: &[AutomaticGap]) -> (assisted: bool)
    ensures
        assisted == any_assisted(views(gaps@)),
{
    let ghost all = views(gaps@);
    let mut at: usize = 0;
    while at < gaps.len()
        invariant
            at <= gaps@.len(),
            all == views(gaps@),
            forall|i: int|
                0 <= i < at ==> (#[trigger] all[i]).semantics.pool == SemanticPool::BlissOnly,
        decreases gaps@.len() - at,
    {
        assert(all[at as int] == gaps@[at as int]@);
        if gaps[at].semantics.pool != SemanticPool::BlissOnly {
            return true;
        }
        at += 1;
    }
    false
}

proof fn lemma_analyzed_count(model: GapModel, position: int, done: Seq<AnalyzedGap>)
    requires
        0 <= position <= model.route.len(),
    ensures
        model.analyzed_from(position, done) matches Ok(gaps) ==> gaps.len() == done.len()
            + model.route.len() - position,
    decreases model.route.len() - position,
{
    if position < model.route.len() {
        if let Ok(gap) = model.analyzed(position as usize) {
            lemma_analyzed_count(model, position + 1, done.push(gap));
        }
    }
}

fn semantic_mode(assisted: bool, bundle: &EvidenceBundle) -> (mode: &'static str)
    ensures
        mode@ == mode_text(assisted, bundle.edges@.len() as int, bundle.providers@.len() as int),
{
    if assisted {
        "semantic-assisted"
    } else if bundle.edges.len() == 0 && bundle.providers.len() == 0 {
        "bliss-only-empty-graph"
    } else {
        "bliss-only-no-usable-edges"
    }
}

impl<
    'a,
    P: Fn(&[usize], u16) -> Result<(), ContextualError> + Copy,
    D: Fn(&[usize], u16, &[usize], usize) -> u64 + Copy,
    F: Fn(usize, usize) -> u64 + Copy,
> Analysis<'a, P, D, F> {
    fn report(
        &self,
        plan: ExtensionPlan,
        base: &BaseRoute,
        selected_track_ids: Vec<String>,
        reference_count: usize,
        gaps: AnalyzedGaps,
        selected: Selected,
        Ghost(reference): Ghost<Seq<u64>>,
        Ghost(analyzed): Ghost<Seq<AnalyzedGap>>,
    ) -> (report: BridgeAnalysis)
        requires
            views(selected_track_ids@) == ids_on(base.route@, self.request.source_tracks@),
            reference_count == reference.len(),
            views(gaps.reports@) == reports_of(analyzed),
            views(gaps.gaps@) == gaps_of(analyzed),
        ensures
            report@ == self.model().report(plan, base@, reference, analyzed, selected@),
    {
        let assisted: bool = is_any_assisted(gaps.gaps.as_slice()) || selected.assisted;
        let size: usize = self.library.len();
        BridgeAnalysis {
            parallel_execution: base.execution,
            selected_strategy: selected.strategy,
            source_track_ids: source_track_ids(self.request.source_tracks.as_slice()),
            selected_track_ids,
            selected_route_objective: selected.objective,
            usable_library_track_count: size,
            local_candidate_track_count: self.local_count,
            non_local_candidate_excluded_count: match self.local_count {
                Some(count) => Some(size.saturating_sub(count)),
                None => None,
            },
            eligible_candidate_count: self.eligible.len(),
            frozen_reference_count: reference_count,
            trigger_percentile: find_trigger(plan),
            retained_candidate_limit: self.retained(),
            semantic_mode: semantic_mode(assisted, self.bundle),
            gaps: gaps.reports,
            selection: selected.report,
        }
    }

    fn run_on(&self, plan: ExtensionPlan, base: &BaseRoute) -> (outcome: Result<
        BridgeAnalysis,
        CommandFailure,
    >)
        requires
            self.valid(),
            self.orders(*base),
        ensures
            outcome_of(outcome) == self.model().outcome_on(plan, base@),
            self.distinct() ==> (outcome matches Ok(found) ==> keeps_the_playlist(
                found@.selection,
            )),
    {
        let ghost model = self.model();
        let places = self.sources.places.as_slice();
        let route = look_up(places, base.route.as_slice());
        let route = route.as_slice();
        proof {
            assert forall|i: int| 0 <= i < route@.len() implies (#[trigger] route@[i])
                < self.library@.len() by {
                assert(base.route@[i] < places@.len());
                assert(places@[base.route@[i] as int] < self.library@.len());
            }
        }
        let ids = route_track_ids(base.route.as_slice(), self.request.source_tracks.as_slice());
        let tracks = library_route_tracks(self.library);
        let config = bridging(self.adaptive, self.request.repeat_windows);
        let population = population(route, self.eligible);
        let reference = match build_frozen_reference(
            route,
            population.as_slice(),
            tracks.as_slice(),
            self.scorer,
            &config,
        ) {
            Err(error) => {
                return Err(CommandFailure::new("BRIDGE_SCORING_FAILED", error.message()));
            },
            Ok(reference) => reference,
        };
        let scoring = ExactScoringContext {
            tracks: tracks.as_slice(),
            scorer: self.scorer,
            config: &config,
            reference: &reference,
        };
        assert(scoring.model() == model.bridge(reference@));
        let analysis = GapAnalysis {
            scoring: &scoring,
            route,
            local: base.route.as_slice(),
            ids: ids.as_slice(),
            bundle: self.bundle,
            identities: self.sources.identities.as_slice(),
            candidates: self.candidates,
            library: self.library,
            shortlist_limit: find_shortlist(self.request.extension.shortlist_limit, plan),
            retained_limit: self.retained(),
            trigger: find_trigger(plan),
        };
        assert(views(ids@).len() == ids@.len());
        let ghost gap_model = model.gap_model(plan, base@, reference@);
        assert(analysis.model() == gap_model);
        let first: usize = match plan {
            ExtensionPlan::SeedGrowth => route.len(),
            ExtensionPlan::Destination { goal, effort } => route.len() - 1,
            _ => 1,
        };
        let gaps = match analysis.analyze_gaps(first) {
            Err(failure) => {
                return Err(failure);
            },
            Ok(gaps) => gaps,
        };
        let ghost analyzed = gap_model.analyzed_from(first as int, seq![])->Ok_0;
        proof {
            lemma_analyzed_count(gap_model, first as int, seq![]);
            assert(views(gaps.gaps@).len() == gaps.gaps@.len());
        }
        let names = Names { route, ids: ids.as_slice(), library: self.library };
        assert(names@ == model.names(base@));
        let selected = match self.select(plan, base, &names, gaps.gaps.as_slice(), &scoring) {
            Err(failure) => {
                return Err(failure);
            },
            Ok(selected) => selected,
        };
        let count: usize = reference.len();
        Ok(
            self.report(
                plan,
                base,
                ids,
                count,
                gaps,
                selected,
                Ghost(reference@),
                Ghost(analyzed),
            ),
        )
    }

    fn run(&self, plan: ExtensionPlan) -> (outcome: Result<BridgeAnalysis, CommandFailure>)
        requires
            self.valid(),
        ensures
            outcome_of(outcome) == self.model().outcome(plan),
            self.distinct() ==> (outcome matches Ok(found) ==> keeps_the_playlist(
                found@.selection,
            )),
    {
        match self.base(plan) {
            Err(failure) => Err(failure),
            Ok(base) => self.run_on(plan, &base),
        }
    }
}

/// The tracks that come into question: those of a pool on the way to a
/// destination, and all that may be added otherwise.
pub open spec fn in_question(
    plan: ExtensionPlan,
    distance: spec_fn(usize, usize) -> u64,
    places: Seq<usize>,
    eligible: Seq<usize>,
) -> Seq<usize> {
    match plan {
        ExtensionPlan::Destination { goal, effort } => if places.len() >= 2 {
            coarse_pool(
                eligible,
                distance,
                places[places.len() - 2],
                places.last(),
                breadth(effort).pool_limit,
            )
        } else {
            eligible
        },
        _ => eligible,
    }
}

fn find_in_question<F: Fn(usize, usize) -> u64>(
    plan: ExtensionPlan,
    distance: &F,
    places: &[usize],
    eligible: &[usize],
) -> (tracks: Vec<usize>)
    requires
        is_adjacency(*distance),
    ensures
        tracks@ == in_question(plan, adjacency(*distance), places@, eligible@),
{
    match plan {
        ExtensionPlan::Destination { goal, effort } => {
            let count: usize = places.len();
            if count >= 2 {
                narrow_pool(
                    eligible,
                    distance,
                    places[count - 2],
                    places[count - 1],
                    search_breadth(effort).pool_limit,
                )
            } else {
                copied(eligible)
            }
        },
        _ => copied(eligible),
    }
}

/// Whether these are the sources of a request and the identities of the
/// candidates that come into question beside them.
pub open spec fn stand_for(
    sources: Sources,
    candidates: Seq<CandidateIdentity>,
    request: Request,
    library: Seq<LibraryTrack>,
    tracks: Seq<usize>,
) -> bool {
    &&& materialized(sources, request.source_tracks@, library)
    &&& all_identified(candidates, tracks, library)
}

/// The size of an inventory, where there is one.
pub open spec fn inventory_size(rows: Option<Set<u64>>) -> Option<usize> {
    match rows {
        Some(rows) => Some(rows.len() as usize),
        None => None,
    }
}

/// What an analysis is about.
pub open spec fn analysis_model(
    request: Request,
    library: Seq<LibraryTrack>,
    rows: Option<Set<u64>>,
    scoring: Scoring,
    distance: spec_fn(usize, usize) -> u64,
    bundle: EvidenceBundle,
    sources: Sources,
    candidates: Seq<CandidateIdentity>,
) -> AnalysisModel {
    AnalysisModel {
        request,
        adaptive: settings_of(request.scoring)->Some_0,
        library,
        local_count: inventory_size(rows),
        scoring,
        distance,
        edges: bundle.edges@,
        provider_count: bundle.providers@.len() as int,
        sources,
        eligible: eligible(request.source_tracks@, library, rows),
        candidates,
    }
}

/// Whether analyzing a request may come to an outcome.
pub open spec fn may_analyze(
    request: Request,
    library: Seq<LibraryTrack>,
    rows: Option<Set<u64>>,
    scoring: Scoring,
    distance: spec_fn(usize, usize) -> u64,
    bundle: EvidenceBundle,
    outcome: Result<BridgeAnalysisView, FailureView>,
) -> bool {
    if settings_of(request.scoring) is None {
        outcome == Err::<BridgeAnalysisView, FailureView>(settings_required())
    } else {
        match planned(request.extension) {
            Err(failure) => outcome == Err::<BridgeAnalysisView, FailureView>(failure),
            Ok(plan) => match bridge_sources_refusal(request.source_tracks@, library) {
                Some(failure) => outcome == Err::<BridgeAnalysisView, FailureView>(failure),
                None => exists|sources: Sources, candidates: Seq<CandidateIdentity>| #[trigger]
                    stand_for(
                        sources,
                        candidates,
                        request,
                        library,
                        in_question(
                            plan,
                            distance,
                            places_in_library(request.source_tracks@, library),
                            eligible(request.source_tracks@, library, rows),
                        ),
                    ) && outcome
                        == analysis_model(
                        request,
                        library,
                        rows,
                        scoring,
                        distance,
                        bundle,
                        sources,
                        candidates,
                    ).outcome(plan),
            },
        }
    }
}

/// Analyzes a request that the bridge command supports, with the library
/// numbered in the scorer as it is here.
pub fn analyze_bridge_validated<
    P: Fn(&[usize], u16) -> Result<(), ContextualError> + Copy,
    D: Fn(&[usize], u16, &[usize], usize) -> u64 + Copy,
    F: Fn(usize, usize) -> u64 + Copy,
>(
    request: &Request,
    semantic_bundle: &EvidenceBundle,
    scorer: &AdaptiveScorer<P, D>,
    adjacent_distance: F,
    library: &[LibraryTrack],
    local_candidate_rows: Option<&HashSet<u64>>,
) -> (analysis: Result<BridgeAnalysis, CommandFailure>)
    requires
        scorer.valid(),
        scorer.places@.len() == 0,
        is_bridge_mode(request.extension.mode@),
        is_bridge_policy(request.route.ordering_policy@),
        request.selection.variation_percent <= 100,
        within_machine_limits(*request, library@.len() as int),
        is_adjacency(adjacent_distance),
    ensures
        may_analyze(
            *request,
            library@,
            rows_in(local_candidate_rows),
            scorer.scoring(),
            adjacency(adjacent_distance),
            *semantic_bundle,
            outcome_of(analysis),
        ),
        sources_refusal(request.source_tracks@, library@, rows_in(local_candidate_rows)) is None
            ==> (analysis matches Ok(found) ==> keeps_the_playlist(found@.selection)),
{
    broadcast use vstd::std_specs::hash::group_hash_axioms;

    let adaptive = match adaptive_settings(request) {
        Err(failure) => {
            return Err(failure);
        },
        Ok(adaptive) => adaptive,
    };
    let plan = match plan_extension(&request.extension) {
        Err(failure) => {
            return Err(failure);
        },
        Ok(plan) => plan,
    };
    let sources = match bridge_sources(request.source_tracks.as_slice(), library) {
        Err(failure) => {
            return Err(failure);
        },
        Ok(sources) => sources,
    };
    let size: usize = library.len();
    let candidates = eligible_candidates(
        &sources,
        request.source_tracks.as_slice(),
        library,
        local_candidate_rows,
    );
    let ghost rows = rows_in(local_candidate_rows);
    proof {
        lemma_eligible(request.source_tracks@, library@, rows, size as int);
        if sources_refusal(request.source_tracks@, library@, rows) is None {
            accepted_sources_are_distinct_and_known(request.source_tracks@, library@, rows);
            candidates_are_local_and_new(request.source_tracks@, library@, rows);
        }
        assert(places_in_library(request.source_tracks@, library@).take(
            request.source_tracks@.len() as int,
        ) =~= places_in_library(request.source_tracks@, library@));
    }
    let tracks = find_in_question(
        plan,
        &adjacent_distance,
        sources.places.as_slice(),
        candidates.as_slice(),
    );
    proof {
        if let ExtensionPlan::Destination { goal, effort } = plan {
            if sources.places@.len() >= 2 {
                pools_are_bounded_and_keep_the_nearest(
                    candidates@,
                    adjacency(adjacent_distance),
                    sources.places@[sources.places@.len() - 2],
                    sources.places@.last(),
                    breadth(effort).pool_limit,
                    Nearness::Left,
                    0,
                );
            }
        }
        assert forall|i: int| 0 <= i < tracks@.len() implies #[trigger] tracks@[i] < size by {
            if plan is Destination && sources.places@.len() >= 2 {
                assert(candidates@.contains(tracks@[i]));
                let j = choose|j: int| 0 <= j < candidates@.len() && candidates@[j] == tracks@[i];
                assert(candidates@[j] < size);
            }
        }
    }
    let identities = candidate_identities(tracks.as_slice(), library);
    let local_count: Option<usize> = match local_candidate_rows {
        Some(rows) => Some(rows.len()),
        None => None,
    };
    assert(stand_for(sources, identities@, *request, library@, tracks@));
    let analysis = Analysis {
        request,
        adaptive,
        library,
        local_count,
        scorer,
        distance: adjacent_distance,
        bundle: semantic_bundle,
        sources: &sources,
        eligible: candidates.as_slice(),
        candidates: identities.as_slice(),
    };
    assert(analysis.model() == analysis_model(
        *request,
        library@,
        rows,
        scorer.scoring(),
        adjacency(adjacent_distance),
        *semantic_bundle,
        sources,
        identities@,
    ));
    analysis.run(plan)
}

/// Checks a request and analyzes it.
pub fn analyze_bridge_request<
    P: Fn(&[usize], u16) -> Result<(), ContextualError> + Copy,
    D: Fn(&[usize], u16, &[usize], usize) -> u64 + Copy,
    F: Fn(usize, usize) -> u64 + Copy,
>(
    request: &Request,
    semantic_bundle: &EvidenceBundle,
    scorer: &AdaptiveScorer<P, D>,
    adjacent_distance: F,
    library: &[LibraryTrack],
    local_candidate_rows: Option<&HashSet<u64>>,
) -> (analysis: Result<BridgeAnalysis, CommandFailure>)
    requires
        scorer.valid(),
        scorer.places@.len() == 0,
        request.selection.variation_percent <= 100,
        within_machine_limits(*request, library@.len() as int),
        is_adjacency(adjacent_distance),
    ensures
        match bridge_refusal(*request) {
            Some(failure) => analysis is Err && analysis->Err_0@ == failure,
            None => may_analyze(
                *request,
                library@,
                rows_in(local_candidate_rows),
                scorer.scoring(),
                adjacency(adjacent_distance),
                *semantic_bundle,
                outcome_of(analysis),
            ),
        },
        sources_refusal(request.source_tracks@, library@, rows_in(local_candidate_rows)) is None
            ==> (analysis matches Ok(found) ==> keeps_the_playlist(found@.selection)),
{
    match check_bridge_request(request) {
        Err(failure) => {
            return Err(failure);
        },
        Ok(_) => {},
    }
    analyze_bridge_validated(
        request,
        semantic_bundle,
        scorer,
        adjacent_distance,
        library,
        local_candidate_rows,
    )
}

} // verus!
