//! What is reported of a selection.

use crate::bridge::EndpointSlot;
use crate::exact::{
    EndpointDecision, EndpointDecisionView, ExactSearchStats, ExactSelection, ExactSelectionView,
};
use crate::library::{bridge_candidate_id, LibraryTrack};
use crate::lookup::row_key;
use crate::preview::{AutomaticSelection, AutomaticSelectionView, GapDecision, GapDecisionView};
use crate::seed_growth::{Addition, Growth, GrowthView};
use crate::selection_laws::{kept_in_order, places_fit};
use crate::sequences::{
    find_position, holds, lemma_position_of_member, lemma_views_push, position, same_route, views,
};
use std::collections::HashSet;
use crate::units::exceeds;
use vstd::prelude::*;

verus! {

// Names of tracks.

/// The tracks of a playlist under their identifiers, and the library that all
/// other tracks come from.
#[verifier::ext_equal]
pub struct NamesView {
    pub route: Seq<usize>,
    pub ids: Seq<Seq<char>>,
    pub library: Seq<LibraryTrack>,
}

/// The tracks of a playlist under their identifiers, and the library that all
/// other tracks come from.
pub struct Names<'a> {
    pub route: &'a [usize],
    pub ids: &'a [String],
    pub library: &'a [LibraryTrack],
}

impl<'a> View for Names<'a> {
    type V = NamesView;

    open spec fn view(&self) -> NamesView {
        NamesView { route: self.route@, ids: views(self.ids@), library: self.library@ }
    }
}

impl NamesView {
    /// Whether a track is one of the playlist.
    pub open spec fn is_original(self, track: usize) -> bool {
        self.route.contains(track)
    }

    /// The name that a track is reported under: its identifier in the playlist,
    /// or else that of its row.
    pub open spec fn name(self, track: usize) -> Seq<char> {
        if self.route.contains(track) {
            self.ids[position(self.route, track)]
        } else {
            self.row_name(track)
        }
    }

    /// The name of a track of the library by its row.
    pub open spec fn row_name(self, track: usize) -> Seq<char> {
        if track < self.library.len() {
            row_key(self.library[track as int].row_id)
        } else {
            seq![]
        }
    }

    /// The tracks of the playlist among the first `count` of a route.
    pub open spec fn originals_upto(self, route: Seq<usize>, count: int) -> Seq<usize>
        decreases count,
    {
        if count <= 0 {
            seq![]
        } else if self.is_original(route[count - 1]) {
            self.originals_upto(route, count - 1).push(route[count - 1])
        } else {
            self.originals_upto(route, count - 1)
        }
    }

    /// Whether a route holds the tracks of the playlist in their order.
    pub open spec fn preserved(self, route: Seq<usize>) -> bool {
        self.originals_upto(route, route.len() as int) == self.route
    }

    /// A route under the names of its tracks.
    pub open spec fn sequence(self, route: Seq<usize>) -> Seq<EntryView> {
        Seq::new(
            route.len(),
            |i: int|
                EntryView {
                    position: i,
                    kind: if self.is_original(route[i]) {
                        "original"@
                    } else {
                        "bridge"@
                    },
                    track_id: self.name(route[i]),
                },
        )
    }
}

/// A position of a reported sequence.
#[verifier::ext_equal]
pub struct EntryView {
    pub position: int,
    pub kind: Seq<char>,
    pub track_id: Seq<char>,
}

/// A position of a reported sequence.
#[derive(Debug)]
pub struct Entry {
    pub position: usize,
    pub kind: &'static str,
    pub track_id: String,
}

impl View for Entry {
    type V = EntryView;

    open spec fn view(&self) -> EntryView {
        EntryView { position: self.position as int, kind: self.kind@, track_id: self.track_id@ }
    }
}

/// Whether no track of a route comes twice.
pub fn is_unique(route: &[usize]) -> (unique: bool)
    ensures
        unique == route@.no_duplicates(),
{
    broadcast use vstd::std_specs::hash::group_hash_axioms;

    let mut seen: HashSet<usize> = HashSet::new();
    let mut at: usize = 0;
    while at < route.len()
        invariant
            at <= route@.len(),
            forall|track: usize| #[trigger]
                seen@.contains(track) == exists|i: int| 0 <= i < at && route@[i] == track,
            forall|i: int, j: int| 0 <= i < j < at ==> route@[i] != route@[j],
        decreases route@.len() - at,
    {
        broadcast use vstd::std_specs::hash::group_hash_axioms;

        let track: usize = route[at];
        if seen.contains(&track) {
            proof {
                let i = choose|i: int| 0 <= i < at && route@[i] == track;
                assert(route@[i] == route@[at as int]);
            }
            return false;
        }
        let ghost before = seen@;
        assert(before.contains(track) == exists|i: int| 0 <= i < at && route@[i] == track);
        assert forall|i: int| 0 <= i < at implies route@[i] != track by {}
        seen.insert(track);
        assert forall|other: usize| #[trigger]
            seen@.contains(other) == exists|i: int| 0 <= i < at + 1 && route@[i] == other by {
            assert(before.contains(other) == exists|i: int| 0 <= i < at && route@[i] == other);
            if before.contains(other) {
                let i = choose|i: int| 0 <= i < at && route@[i] == other;
                assert(0 <= i < at + 1 && route@[i] == other);
            }
            if other == track {
                assert(0 <= at < at + 1 && route@[at as int] == other);
            }
        }
        at += 1;
    }
    true
}

impl<'a> Names<'a> {
    /// Every track of the playlist has an identifier.
    pub open spec fn valid(&self) -> bool {
        self.ids@.len() == self.route@.len()
    }

    /// The name that a track is reported under.
    pub fn name(&self, track: usize) -> (name: String)
        requires
            self.valid(),
        ensures
            name@ == self@.name(track),
    {
        proof {
            lemma_position_of_member(self.route@, track);
        }
        match find_position(self.route, track) {
            Some(at) => self.ids[at].clone(),
            None => self.row_name(track),
        }
    }

    /// The name of a track of the library by its row.
    pub fn row_name(&self, track: usize) -> (name: String)
        ensures
            name@ == self@.row_name(track),
    {
        if track < self.library.len() {
            bridge_candidate_id(self.library[track].row_id)
        } else {
            let nothing = String::new();
            assert(nothing@ =~= seq![]);
            nothing
        }
    }

    /// Whether a route holds the tracks of the playlist in their order.
    pub fn preserved(&self, route: &[usize]) -> (preserved: bool)
        ensures
            preserved == self@.preserved(route@),
    {
        let mut originals: Vec<usize> = Vec::new();
        let mut at: usize = 0;
        assert(originals@ =~= self@.originals_upto(route@, 0));
        while at < route.len()
            invariant
                at <= route@.len(),
                originals@ == self@.originals_upto(route@, at as int),
            decreases route@.len() - at,
        {
            if holds(self.route, route[at]) {
                originals.push(route[at]);
            }
            at += 1;
        }
        same_route(originals.as_slice(), self.route)
    }

    /// Reports a route under the names of its tracks.
    pub fn sequence(&self, route: &[usize]) -> (entries: Vec<Entry>)
        requires
            self.valid(),
        ensures
            views(entries@) == self@.sequence(route@),
    {
        let mut entries: Vec<Entry> = Vec::new();
        let mut at: usize = 0;
        while at < route.len()
            invariant
                at <= route@.len(),
                self.valid(),
                views(entries@) =~= self@.sequence(route@).take(at as int),
            decreases route@.len() - at,
        {
            let entry = Entry {
                position: at,
                kind: if holds(self.route, route[at]) {
                    "original"
                } else {
                    "bridge"
                },
                track_id: self.name(route[at]),
            };
            proof {
                lemma_views_push(entries@, entry);
            }
            entries.push(entry);
            at += 1;
        }
        assert(views(entries@) =~= self@.sequence(route@));
        entries
    }
}

// Decisions.

/// A decision on a gap as it is reported.
#[verifier::ext_equal]
pub struct DecisionReportView {
    pub left_track_id: Seq<char>,
    pub right_track_id: Seq<char>,
    pub triggering: Option<bool>,
    pub candidate_id: Option<Seq<char>>,
    pub decision: GapDecisionView,
}

/// A decision on a gap as it is reported.
#[derive(Debug)]
pub struct DecisionReport {
    pub left_track_id: String,
    pub right_track_id: String,
    pub triggering: Option<bool>,
    pub candidate_id: Option<String>,
    pub decision: GapDecision,
}

impl View for DecisionReport {
    type V = DecisionReportView;

    open spec fn view(&self) -> DecisionReportView {
        DecisionReportView {
            left_track_id: self.left_track_id@,
            right_track_id: self.right_track_id@,
            triggering: self.triggering,
            candidate_id: crate::text::text_in(self.candidate_id),
            decision: self.decision@,
        }
    }
}

/// A decision on an end as it is reported.
#[verifier::ext_equal]
pub struct EndpointReportView {
    pub slot: Seq<char>,
    pub anchor_track_id: Seq<char>,
    pub candidate_id: Option<Seq<char>>,
    pub decision: EndpointDecisionView,
}

/// A decision on an end as it is reported.
#[derive(Debug)]
pub struct EndpointReport {
    pub slot: &'static str,
    pub anchor_track_id: String,
    pub candidate_id: Option<String>,
    pub decision: EndpointDecision,
}

impl View for EndpointReport {
    type V = EndpointReportView;

    open spec fn view(&self) -> EndpointReportView {
        EndpointReportView {
            slot: self.slot@,
            anchor_track_id: self.anchor_track_id@,
            candidate_id: crate::text::text_in(self.candidate_id),
            decision: self.decision@,
        }
    }
}

impl NamesView {
    /// A decision on a gap with the names of its tracks.
    pub open spec fn decision(self, decision: GapDecisionView, trigger: Option<i64>) -> DecisionReportView {
        DecisionReportView {
            left_track_id: self.name(decision.left),
            right_track_id: self.name(decision.right),
            triggering: match trigger {
                Some(threshold) => Some(decision.direct_percentile > threshold),
                None => None,
            },
            candidate_id: match decision.selected {
                Some(bridge) => Some(self.row_name(bridge.evaluation.candidate)),
                None => None,
            },
            decision,
        }
    }

    /// Decisions on gaps with the names of their tracks.
    pub open spec fn decisions(self, decisions: Seq<GapDecisionView>, trigger: Option<i64>) -> Seq<
        DecisionReportView,
    > {
        Seq::new(decisions.len(), |i: int| self.decision(decisions[i], trigger))
    }

    /// A decision on an end with the names of its tracks.
    pub open spec fn end(self, decision: EndpointDecisionView) -> EndpointReportView {
        EndpointReportView {
            slot: match decision.slot {
                EndpointSlot::Opening => "opening"@,
                EndpointSlot::Closing => "closing"@,
            },
            anchor_track_id: self.name(decision.anchor),
            candidate_id: match decision.selected {
                Some(endpoint) => Some(self.row_name(endpoint.evaluation.candidate)),
                None => None,
            },
            decision,
        }
    }

    /// Decisions on ends with the names of their tracks.
    pub open spec fn ends(self, decisions: Seq<EndpointDecisionView>) -> Seq<EndpointReportView> {
        Seq::new(decisions.len(), |i: int| self.end(decisions[i]))
    }
}

impl<'a> Names<'a> {
    /// Reports decisions under the names of their tracks.
    pub fn decisions(&self, decisions: &Vec<GapDecision>, trigger: Option<i64>) -> (reports: Vec<
        DecisionReport,
    >)
        requires
            self.valid(),
        ensures
            views(reports@) == self@.decisions(views(decisions@), trigger),
    {
        let ghost all = self@.decisions(views(decisions@), trigger);
        let mut reports: Vec<DecisionReport> = Vec::new();
        let mut at: usize = 0;
        while at < decisions.len()
            invariant
                at <= decisions@.len(),
                self.valid(),
                all == self@.decisions(views(decisions@), trigger),
                views(reports@) =~= all.take(at as int),
            decreases decisions@.len() - at,
        {
            let decision = decisions[at].clone();
            let report = DecisionReport {
                left_track_id: self.name(decision.left),
                right_track_id: self.name(decision.right),
                triggering: match trigger {
                    Some(threshold) => Some(exceeds(decision.direct_percentile, threshold)),
                    None => None,
                },
                candidate_id: match &decision.selected {
                    Some(bridge) => Some(self.row_name(bridge.evaluation.candidate)),
                    None => None,
                },
                decision,
            };
            proof {
                lemma_views_push(reports@, report);
                assert(report@ == all[at as int]);
            }
            reports.push(report);
            at += 1;
        }
        assert(views(reports@) =~= all);
        reports
    }

    fn ends(&self, decisions: &Vec<EndpointDecision>) -> (reports: Vec<EndpointReport>)
        requires
            self.valid(),
        ensures
            views(reports@) == self@.ends(views(decisions@)),
    {
        let ghost all = self@.ends(views(decisions@));
        let mut reports: Vec<EndpointReport> = Vec::new();
        let mut at: usize = 0;
        while at < decisions.len()
            invariant
                at <= decisions@.len(),
                self.valid(),
                all == self@.ends(views(decisions@)),
                views(reports@) =~= all.take(at as int),
            decreases decisions@.len() - at,
        {
            let decision = decisions[at].clone();
            let report = EndpointReport {
                slot: match decision.slot {
                    EndpointSlot::Opening => "opening",
                    EndpointSlot::Closing => "closing",
                },
                anchor_track_id: self.name(decision.anchor),
                candidate_id: match &decision.selected {
                    Some(endpoint) => Some(self.row_name(endpoint.evaluation.candidate)),
                    None => None,
                },
                decision,
            };
            proof {
                lemma_views_push(reports@, report);
                assert(report@ == all[at as int]);
            }
            reports.push(report);
            at += 1;
        }
        assert(views(reports@) =~= all);
        reports
    }
}

// Automatic selections.

/// What is reported of an automatic selection.
#[verifier::ext_equal]
pub struct AutomaticReportView {
    pub processing_order: Seq<char>,
    pub max_added_tracks: usize,
    pub added_track_count: int,
    pub original_subsequence_preserved: bool,
    pub unique_membership: bool,
    pub final_sequence: Seq<EntryView>,
    pub decisions: Seq<DecisionReportView>,
}

/// What is reported of an automatic selection.
#[derive(Debug)]
pub struct AutomaticReport {
    pub processing_order: &'static str,
    pub max_added_tracks: usize,
    pub added_track_count: usize,
    pub original_subsequence_preserved: bool,
    pub unique_membership: bool,
    pub final_sequence: Vec<Entry>,
    pub decisions: Vec<DecisionReport>,
}

impl View for AutomaticReport {
    type V = AutomaticReportView;

    open spec fn view(&self) -> AutomaticReportView {
        AutomaticReportView {
            processing_order: self.processing_order@,
            max_added_tracks: self.max_added_tracks,
            added_track_count: self.added_track_count as int,
            original_subsequence_preserved: self.original_subsequence_preserved,
            unique_membership: self.unique_membership,
            final_sequence: views(self.final_sequence@),
            decisions: views(self.decisions@),
        }
    }
}

impl NamesView {
    /// What is reported of an automatic selection.
    pub open spec fn automatic(
        self,
        selection: AutomaticSelectionView,
        max_added_tracks: usize,
        trigger: i64,
    ) -> AutomaticReportView {
        AutomaticReportView {
            processing_order: "left-to-right-original-gaps"@,
            max_added_tracks,
            added_track_count: selection.final_route.len() - self.route.len(),
            original_subsequence_preserved: self.preserved(selection.final_route),
            unique_membership: selection.final_route.no_duplicates(),
            final_sequence: self.sequence(selection.final_route),
            decisions: self.decisions(selection.decisions, Some(trigger)),
        }
    }
}

/// Reports an automatic selection.
pub fn report_automatic(
    names: &Names<'_>,
    selection: &AutomaticSelection,
    max_added_tracks: usize,
    trigger: i64,
) -> (report: AutomaticReport)
    requires
        names.valid(),
        selection.final_route@.len() >= names.route@.len(),
    ensures
        report@ == names@.automatic(selection@, max_added_tracks, trigger),
{
    let route = selection.final_route.as_slice();
    AutomaticReport {
        processing_order: "left-to-right-original-gaps",
        max_added_tracks,
        added_track_count: route.len() - names.route.len(),
        original_subsequence_preserved: names.preserved(route),
        unique_membership: is_unique(route),
        final_sequence: names.sequence(route),
        decisions: names.decisions(&selection.decisions, Some(trigger)),
    }
}

// Exact selections.

/// Which ends may take a track.
#[derive(Clone, Copy, Debug, PartialEq, Eq, Structural)]
pub struct EndpointPolicy {
    pub opening_enabled: bool,
    pub closing_enabled: bool,
    pub maximum_opening_tracks: usize,
    pub maximum_closing_tracks: usize,
}

/// Why an exact selection found nothing.
#[verifier::ext_equal]
pub struct InfeasibilityView {
    pub code: Seq<char>,
    pub requested_added_tracks: usize,
    pub maximum_additions_found: usize,
    pub structural_upper_bound: usize,
}

/// Why an exact selection found nothing.
#[derive(Debug)]
pub struct Infeasibility {
    pub code: &'static str,
    pub requested_added_tracks: usize,
    pub maximum_additions_found: usize,
    pub structural_upper_bound: usize,
}

impl View for Infeasibility {
    type V = InfeasibilityView;

    open spec fn view(&self) -> InfeasibilityView {
        InfeasibilityView {
            code: self.code@,
            requested_added_tracks: self.requested_added_tracks,
            maximum_additions_found: self.maximum_additions_found,
            structural_upper_bound: self.structural_upper_bound,
        }
    }
}

/// What is reported of an exact selection.
#[verifier::ext_equal]
pub struct ExactReportView {
    pub processing_order: Seq<char>,
    pub requested_added_tracks: usize,
    pub feasible: bool,
    pub added_track_count: int,
    pub original_subsequence_preserved: Option<bool>,
    pub unique_membership: Option<bool>,
    pub final_sequence: Option<Seq<EntryView>>,
    pub decisions: Seq<DecisionReportView>,
    pub endpoint_policy: Option<EndpointPolicy>,
    pub endpoint_decisions: Seq<EndpointReportView>,
    pub beam_width: usize,
    pub candidate_limit: usize,
    pub stats: ExactSearchStats,
    pub infeasibility: Option<InfeasibilityView>,
}

/// What is reported of an exact selection.
#[derive(Debug)]
pub struct ExactReport {
    pub processing_order: &'static str,
    pub requested_added_tracks: usize,
    pub feasible: bool,
    pub added_track_count: usize,
    pub original_subsequence_preserved: Option<bool>,
    pub unique_membership: Option<bool>,
    pub final_sequence: Option<Vec<Entry>>,
    pub decisions: Vec<DecisionReport>,
    pub endpoint_policy: Option<EndpointPolicy>,
    pub endpoint_decisions: Vec<EndpointReport>,
    pub beam_width: usize,
    pub candidate_limit: usize,
    pub stats: ExactSearchStats,
    pub infeasibility: Option<Infeasibility>,
}

/// The value of a sequence that may be missing.
pub open spec fn sequence_in(sequence: Option<Vec<Entry>>) -> Option<Seq<EntryView>> {
    match sequence {
        Some(entries) => Some(views(entries@)),
        None => None,
    }
}

/// The value of a reason that may be missing.
pub open spec fn infeasibility_in(reason: Option<Infeasibility>) -> Option<InfeasibilityView> {
    match reason {
        Some(reason) => Some(reason@),
        None => None,
    }
}

impl View for ExactReport {
    type V = ExactReportView;

    open spec fn view(&self) -> ExactReportView {
        ExactReportView {
            processing_order: self.processing_order@,
            requested_added_tracks: self.requested_added_tracks,
            feasible: self.feasible,
            added_track_count: self.added_track_count as int,
            original_subsequence_preserved: self.original_subsequence_preserved,
            unique_membership: self.unique_membership,
            final_sequence: sequence_in(self.final_sequence),
            decisions: views(self.decisions@),
            endpoint_policy: self.endpoint_policy,
            endpoint_decisions: views(self.endpoint_decisions@),
            beam_width: self.beam_width,
            candidate_limit: self.candidate_limit,
            stats: self.stats,
            infeasibility: infeasibility_in(self.infeasibility),
        }
    }
}

/// The ends that a request speaks of, and what it says.
#[derive(Clone, Copy, Debug, PartialEq, Eq, Structural)]
pub struct AllowedEnds {
    pub opening: Option<bool>,
    pub closing: Option<bool>,
}

/// Whether a permission is given.
pub open spec fn is_allowed(permission: Option<bool>) -> bool {
    permission == Some(true)
}

/// One if something is enabled, else zero.
pub open spec fn one_if(enabled: bool) -> usize {
    if enabled {
        1
    } else {
        0
    }
}

impl AllowedEnds {
    /// The policy that a request states, if it states one.
    pub open spec fn stated(self) -> Option<EndpointPolicy> {
        let opening = is_allowed(self.opening);
        let closing = is_allowed(self.closing);
        if self.opening is Some || self.closing is Some {
            Some(
                EndpointPolicy {
                    opening_enabled: opening,
                    closing_enabled: closing,
                    maximum_opening_tracks: one_if(opening),
                    maximum_closing_tracks: one_if(closing),
                },
            )
        } else {
            None
        }
    }

    /// Whether the opening may take a track.
    pub fn opening_enabled(&self) -> (enabled: bool)
        ensures
            enabled == is_allowed(self.opening),
    {
        match self.opening {
            Some(enabled) => enabled,
            None => false,
        }
    }

    /// Whether the closing may take a track.
    pub fn closing_enabled(&self) -> (enabled: bool)
        ensures
            enabled == is_allowed(self.closing),
    {
        match self.closing {
            Some(enabled) => enabled,
            None => false,
        }
    }

    /// The policy that a request states, if it states one.
    pub fn policy(&self) -> (policy: Option<EndpointPolicy>)
        ensures
            policy == self.stated(),
    {
        let opening: bool = self.opening_enabled();
        let closing: bool = self.closing_enabled();
        if self.opening.is_some() || self.closing.is_some() {
            Some(
                EndpointPolicy {
                    opening_enabled: opening,
                    closing_enabled: closing,
                    maximum_opening_tracks: if opening {
                        1
                    } else {
                        0
                    },
                    maximum_closing_tracks: if closing {
                        1
                    } else {
                        0
                    },
                },
            )
        } else {
            None
        }
    }
}

/// Why an exact selection that found nothing did so: the request is above the
/// structural bound, or the bounded search missed it.
pub open spec fn infeasible(requested: usize, stats: ExactSearchStats) -> InfeasibilityView {
    InfeasibilityView {
        code: if requested > stats.structural_upper_bound {
            "EXACT_COUNT_INFEASIBLE"@
        } else {
            "EXACT_COUNT_NOT_FOUND_WITHIN_SEARCH_BOUNDS"@
        },
        requested_added_tracks: requested,
        maximum_additions_found: stats.maximum_additions_found,
        structural_upper_bound: stats.structural_upper_bound,
    }
}

impl NamesView {
    /// What is reported of an exact selection.
    pub open spec fn exact(
        self,
        selection: ExactSelectionView,
        requested: usize,
        allowed: AllowedEnds,
        beam_width: usize,
        candidate_limit: usize,
    ) -> ExactReportView {
        let route = selection.final_route;
        ExactReportView {
            processing_order: if is_allowed(allowed.opening) || is_allowed(allowed.closing) {
                "bounded-endpoints-and-original-gaps-beam-search"@
            } else {
                "left-to-right-original-gaps-beam-search"@
            },
            requested_added_tracks: requested,
            feasible: route is Some,
            added_track_count: match route {
                Some(route) => route.len() - self.route.len(),
                None => 0,
            },
            original_subsequence_preserved: match route {
                Some(route) => Some(self.preserved(route)),
                None => None,
            },
            unique_membership: match route {
                Some(route) => Some(route.no_duplicates()),
                None => None,
            },
            final_sequence: match route {
                Some(route) => Some(self.sequence(route)),
                None => None,
            },
            decisions: self.decisions(selection.decisions, None),
            endpoint_policy: allowed.stated(),
            endpoint_decisions: self.ends(selection.endpoint_decisions),
            beam_width,
            candidate_limit,
            stats: selection.stats,
            infeasibility: match route {
                Some(_) => None,
                None => Some(infeasible(requested, selection.stats)),
            },
        }
    }
}

/// Reports an exact selection.
pub fn report_exact(
    names: &Names<'_>,
    selection: &ExactSelection,
    requested: usize,
    allowed: AllowedEnds,
    beam_width: usize,
    candidate_limit: usize,
) -> (report: ExactReport)
    requires
        names.valid(),
        selection.final_route matches Some(route) ==> route@.len() >= names.route@.len(),
    ensures
        report@ == names@.exact(selection@, requested, allowed, beam_width, candidate_limit),
{
    let stats = selection.stats;
    let decisions = names.decisions(&selection.decisions, None);
    let endpoint_decisions = names.ends(&selection.endpoint_decisions);
    let processing_order: &'static str = if allowed.opening_enabled() || allowed.closing_enabled() {
        "bounded-endpoints-and-original-gaps-beam-search"
    } else {
        "left-to-right-original-gaps-beam-search"
    };
    match &selection.final_route {
        Some(route) => {
            let route = route.as_slice();
            ExactReport {
                processing_order,
                requested_added_tracks: requested,
                feasible: true,
                added_track_count: route.len() - names.route.len(),
                original_subsequence_preserved: Some(names.preserved(route)),
                unique_membership: Some(is_unique(route)),
                final_sequence: Some(names.sequence(route)),
                decisions,
                endpoint_policy: allowed.policy(),
                endpoint_decisions,
                beam_width,
                candidate_limit,
                stats,
                infeasibility: None,
            }
        },
        None => ExactReport {
            processing_order,
            requested_added_tracks: requested,
            feasible: false,
            added_track_count: 0,
            original_subsequence_preserved: None,
            unique_membership: None,
            final_sequence: None,
            decisions,
            endpoint_policy: allowed.policy(),
            endpoint_decisions,
            beam_width,
            candidate_limit,
            stats,
            infeasibility: Some(
                Infeasibility {
                    code: if requested > stats.structural_upper_bound {
                        "EXACT_COUNT_INFEASIBLE"
                    } else {
                        "EXACT_COUNT_NOT_FOUND_WITHIN_SEARCH_BOUNDS"
                    },
                    requested_added_tracks: requested,
                    maximum_additions_found: stats.maximum_additions_found,
                    structural_upper_bound: stats.structural_upper_bound,
                },
            ),
        },
    }
}

// Grown playlists.

/// An addition as it is reported.
#[verifier::ext_equal]
pub struct AdditionReportView {
    pub candidate_id: Seq<char>,
    pub relevance_distance: u64,
}

/// An addition as it is reported.
#[derive(Debug)]
pub struct AdditionReport {
    pub candidate_id: String,
    pub relevance_distance: u64,
}

impl View for AdditionReport {
    type V = AdditionReportView;

    open spec fn view(&self) -> AdditionReportView {
        AdditionReportView {
            candidate_id: self.candidate_id@,
            relevance_distance: self.relevance_distance,
        }
    }
}

/// What is reported of a grown playlist.
#[verifier::ext_equal]
pub struct GrowthReportView {
    pub processing_order: Seq<char>,
    pub target_track_count: usize,
    pub requested_added_tracks: int,
    pub feasible: bool,
    pub added_track_count: int,
    pub original_subsequence_preserved: bool,
    pub unique_membership: bool,
    pub relevance_reference_track_count: int,
    pub final_sequence: Seq<EntryView>,
    pub selected_additions: Seq<AdditionReportView>,
}

/// What is reported of a grown playlist.
#[derive(Debug)]
pub struct GrowthReport {
    pub processing_order: &'static str,
    pub target_track_count: usize,
    pub requested_added_tracks: usize,
    pub feasible: bool,
    pub added_track_count: usize,
    pub original_subsequence_preserved: bool,
    pub unique_membership: bool,
    pub relevance_reference_track_count: usize,
    pub final_sequence: Vec<Entry>,
    pub selected_additions: Vec<AdditionReport>,
}

impl View for GrowthReport {
    type V = GrowthReportView;

    open spec fn view(&self) -> GrowthReportView {
        GrowthReportView {
            processing_order: self.processing_order@,
            target_track_count: self.target_track_count,
            requested_added_tracks: self.requested_added_tracks as int,
            feasible: self.feasible,
            added_track_count: self.added_track_count as int,
            original_subsequence_preserved: self.original_subsequence_preserved,
            unique_membership: self.unique_membership,
            relevance_reference_track_count: self.relevance_reference_track_count as int,
            final_sequence: views(self.final_sequence@),
            selected_additions: views(self.selected_additions@),
        }
    }
}

impl NamesView {
    /// Additions under their names.
    pub open spec fn additions(self, additions: Seq<Addition>) -> Seq<AdditionReportView> {
        Seq::new(
            additions.len(),
            |i: int|
                AdditionReportView {
                    candidate_id: self.row_name(additions[i].candidate),
                    relevance_distance: additions[i].distance,
                },
        )
    }

    /// What is reported of a grown playlist.
    pub open spec fn growth(self, growth: GrowthView, target: usize, source_count: int) -> GrowthReportView {
        GrowthReportView {
            processing_order: "full-seed-relevance-then-complete-membership-route"@,
            target_track_count: target,
            requested_added_tracks: target - source_count,
            feasible: true,
            added_track_count: growth.additions.len() as int,
            original_subsequence_preserved: self.preserved(growth.route),
            unique_membership: growth.route.no_duplicates(),
            relevance_reference_track_count: source_count,
            final_sequence: self.sequence(growth.route),
            selected_additions: self.additions(growth.additions),
        }
    }
}

/// Reports a grown playlist.
pub fn report_growth(names: &Names<'_>, growth: &Growth, target: usize, source_count: usize) -> (report:
    GrowthReport)
    requires
        names.valid(),
        source_count <= target,
    ensures
        report@ == names@.growth(growth@, target, source_count as int),
{
    let ghost all = names@.additions(growth.additions@);
    let mut additions: Vec<AdditionReport> = Vec::new();
    let mut at: usize = 0;
    while at < growth.additions.len()
        invariant
            at <= growth.additions@.len(),
            names.valid(),
            all == names@.additions(growth.additions@),
            views(additions@) =~= all.take(at as int),
        decreases growth.additions@.len() - at,
    {
        let addition = AdditionReport {
            candidate_id: names.row_name(growth.additions[at].candidate),
            relevance_distance: growth.additions[at].distance,
        };
        proof {
            lemma_views_push(additions@, addition);
            assert(addition@ == all[at as int]);
        }
        additions.push(addition);
        at += 1;
    }
    assert(views(additions@) =~= all);
    let route = growth.route.as_slice();
    GrowthReport {
        processing_order: "full-seed-relevance-then-complete-membership-route",
        target_track_count: target,
        requested_added_tracks: target - source_count,
        feasible: true,
        added_track_count: growth.additions.len(),
        original_subsequence_preserved: names.preserved(route),
        unique_membership: is_unique(route),
        relevance_reference_track_count: source_count,
        final_sequence: names.sequence(route),
        selected_additions: additions,
    }
}

// Laws.

spec fn places_below(places: Seq<int>, bound: int, count: int) -> int
    decreases count,
{
    if count <= 0 {
        0
    } else if places[count - 1] < bound {
        count
    } else {
        places_below(places, bound, count - 1)
    }
}

proof fn lemma_places_below(places: Seq<int>, bound: int, count: int)
    requires
        0 <= count <= places.len(),
        forall|i: int, j: int| 0 <= i < j < places.len() ==> #[trigger] places[i] < #[trigger] places[j],
    ensures
        0 <= places_below(places, bound, count) <= count,
        forall|i: int|
            0 <= i < count ==> ((#[trigger] places[i]) < bound) == (i < places_below(
                places,
                bound,
                count,
            )),
    decreases count,
{
    if count > 0 && places[count - 1] >= bound {
        lemma_places_below(places, bound, count - 1);
    }
}

proof fn lemma_originals_upto(names: NamesView, route: Seq<usize>, places: Seq<int>, count: int)
    requires
        0 <= count <= route.len(),
        route.no_duplicates(),
        places_fit(names.route, route, places),
    ensures
        names.originals_upto(route, count) == names.route.take(
            places_below(places, count, places.len() as int),
        ),
    decreases count,
{
    let len = places.len() as int;
    lemma_places_below(places, count, len);
    if count <= 0 {
        assert(places_below(places, count, len) == 0) by {
            if places_below(places, count, len) > 0 {
                assert(places[0] < count);
            }
        }
        assert(names.route.take(0) =~= seq![]);
    } else {
        lemma_originals_upto(names, route, places, count - 1);
        lemma_places_below(places, count - 1, len);
        let before = places_below(places, count - 1, len);
        let after = places_below(places, count, len);
        let track = route[count - 1];
        if names.route.contains(track) {
            let i = choose|i: int| 0 <= i < names.route.len() && names.route[i] == track;
            assert(places[i] == count - 1) by {
                assert(route[places[i]] == track);
                if places[i] != count - 1 {
                    assert(route[places[i]] != route[count - 1]);
                }
            }
            assert(i >= before);
            assert(i < after);
            assert(before == i) by {
                if before < i {
                    assert(places[before] < places[i]);
                    assert(places[before] < count - 1);
                }
            }
            assert(after == i + 1) by {
                if after > i + 1 {
                    assert(places[i + 1] > places[i]);
                    assert(places[i + 1] < count);
                }
            }
            assert(names.route.take(before).push(track) =~= names.route.take(after));
        } else {
            assert(before == after) by {
                if before < after {
                    assert(places[before] < count);
                    assert(places[before] >= count - 1);
                    assert(names.route[before] == track);
                    assert(names.route.contains(track));
                } else if after < before {
                    assert(places[after] < count - 1);
                    assert(places[after] >= count);
                }
            }
        }
    }
}

/// A route without repeats that holds the playlist in its order is reported to
/// preserve it.
pub proof fn kept_order_is_reported(names: NamesView, route: Seq<usize>)
    requires
        route.no_duplicates(),
        kept_in_order(names.route, route),
    ensures
        names.preserved(route),
{
    let places = choose|places: Seq<int>| places_fit(names.route, route, places);
    let len = places.len() as int;
    lemma_originals_upto(names, route, places, route.len() as int);
    lemma_places_below(places, route.len() as int, len);
    assert(places_below(places, route.len() as int, len) == len) by {
        if places_below(places, route.len() as int, len) < len {
            assert(places[len - 1] < route.len());
        }
    }
    assert(names.route.take(len) =~= names.route);
}

} // verus!
