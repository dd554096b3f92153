//! Evidence about which tracks and artists are similar, and what it says about
//! the candidates for a gap.

use crate::sequences::{lemma_views_push, views};
use crate::sorting::{is_ranking, sort_views, stable_sort};
use crate::text::{
    ascii_lowercase, ascii_lowered, copied_text, decimal, equal_but_for_case, in_text_order,
    lemma_text_order, normalize, normalized, number, sort_keys, sorted_keys, text_around,
    text_at_most, text_in, text_with_number,
};
use crate::units::UNIT;
use std::cmp::Ordering;
use vstd::hash_map::StringHashMap;
use vstd::prelude::*;
use vstd::string::*;

verus! {

// Evidence.

/// What kind of thing a piece of evidence is about.
#[derive(Clone, Copy, Debug, PartialEq, Eq, PartialOrd, Ord, Structural)]
pub enum EntityKind {
    Recording,
    Artist,
}

/// Whether evidence speaks of the ends of a gap or of the collection.
#[derive(Clone, Copy, Debug, PartialEq, Eq, Structural)]
pub enum EvidenceScope {
    EndpointLocal,
    CollectionFallback,
}

/// How fresh a piece of evidence is.
#[derive(Clone, Copy, Debug, PartialEq, Eq, Structural)]
pub enum CacheState {
    Fresh,
    Cached,
    Stale,
}

/// How a provider did.
#[derive(Clone, Copy, Debug, PartialEq, Eq, PartialOrd, Ord, Structural)]
pub enum ProviderStatus {
    Disabled,
    Fresh,
    Cached,
    Stale,
    Partial,
    Unavailable,
    Failed,
}

/// A recording or an artist as a provider names it.
#[derive(Clone, Debug, PartialEq, Eq)]
pub struct Entity {
    pub kind: EntityKind,
    pub id: String,
    pub mbid: Option<String>,
    pub name: Option<String>,
    pub title: Option<String>,
}

/// One statement of similarity. The score and the confidence count parts of
/// `UNIT` to one; what lies outside counts as the nearer end.
#[derive(Clone, Debug, PartialEq, Eq)]
pub struct EvidenceEdge {
    pub provider: String,
    pub dataset_or_algorithm: Option<String>,
    pub source: Entity,
    pub candidate: Entity,
    pub scope: EvidenceScope,
    pub raw_rank: Option<u64>,
    pub raw_score: Option<i64>,
    pub identity_confidence: i64,
    pub observed_at: Option<String>,
    pub cache_state: Option<CacheState>,
}

/// What a provider reports about itself.
#[derive(Clone, Debug, PartialEq, Eq)]
pub struct ProviderState {
    pub provider: String,
    pub dataset_or_algorithm: Option<String>,
    pub state: ProviderStatus,
    pub request_count: Option<u64>,
    pub failure_count: Option<u64>,
    pub error_codes: Vec<String>,
}

/// A frozen collection of evidence.
#[derive(Clone, Debug, PartialEq, Eq)]
pub struct EvidenceBundle {
    pub schema_version: u8,
    pub frozen_at: String,
    pub providers: Vec<ProviderState>,
    pub edges: Vec<EvidenceEdge>,
}

/// Why a bundle is refused.
#[verifier::ext_equal]
pub enum SemanticErrorView {
    UnsupportedSchemaVersion(u8),
    DuplicateProvider(Seq<char>),
    UndeclaredProvider(Seq<char>),
}

/// Why a bundle is refused.
#[derive(Clone, Debug, PartialEq, Eq)]
pub enum SemanticError {
    UnsupportedSchemaVersion(u8),
    DuplicateProvider(String),
    UndeclaredProvider(String),
}

impl View for SemanticError {
    type V = SemanticErrorView;

    open spec fn view(&self) -> SemanticErrorView {
        match self {
            SemanticError::UnsupportedSchemaVersion(version) => {
                SemanticErrorView::UnsupportedSchemaVersion(*version)
            },
            SemanticError::DuplicateProvider(provider) => {
                SemanticErrorView::DuplicateProvider(provider@)
            },
            SemanticError::UndeclaredProvider(provider) => {
                SemanticErrorView::UndeclaredProvider(provider@)
            },
        }
    }
}

impl SemanticErrorView {
    /// The text of the message for this error.
    pub open spec fn text(self) -> Seq<char> {
        match self {
            SemanticErrorView::UnsupportedSchemaVersion(version) => {
                "unsupported semantic evidence version "@ + decimal(version as int) + ""@
            },
            SemanticErrorView::DuplicateProvider(provider) => {
                "duplicate semantic provider state '"@ + provider + "'"@
            },
            SemanticErrorView::UndeclaredProvider(provider) => {
                "semantic edge references undeclared provider '"@ + provider + "'"@
            },
        }
    }
}

impl SemanticError {
    /// Says what went wrong.
    pub fn message(&self) -> (text: String)
        ensures
            text@ == self@.text(),
    {
        match self {
            SemanticError::UnsupportedSchemaVersion(version) => text_with_number(
                "unsupported semantic evidence version ",
                *version as u64,
                "",
            ),
            SemanticError::DuplicateProvider(provider) => text_around(
                "duplicate semantic provider state '",
                provider.as_str(),
                "'",
            ),
            SemanticError::UndeclaredProvider(provider) => text_around(
                "semantic edge references undeclared provider '",
                provider.as_str(),
                "'",
            ),
        }
    }
}

/// The providers that come before position `count`.
pub open spec fn declared_upto(providers: Seq<ProviderState>, count: int) -> Set<Seq<char>> {
    Set::new(
        |name: Seq<char>|
            exists|i: int|
                0 <= i < count && i < providers.len() && (#[trigger] providers[i]).provider@
                    == name,
    )
}

/// The first provider at or after `from` that was declared before, or the length.
pub open spec fn first_repeated(providers: Seq<ProviderState>, from: int) -> int
    decreases providers.len() - from,
{
    if from >= providers.len() {
        providers.len() as int
    } else if declared_upto(providers, from).contains(providers[from].provider@) {
        from
    } else {
        first_repeated(providers, from + 1)
    }
}

/// The first edge at or after `from` whose provider is not declared, or the length.
pub open spec fn first_undeclared(
    edges: Seq<EvidenceEdge>,
    providers: Seq<ProviderState>,
    from: int,
) -> int
    decreases edges.len() - from,
{
    if from >= edges.len() {
        edges.len() as int
    } else if !declared_upto(providers, providers.len() as int).contains(edges[from].provider@) {
        from
    } else {
        first_undeclared(edges, providers, from + 1)
    }
}

/// Why a bundle is refused, if it is.
pub open spec fn bundle_refusal(
    schema_version: u8,
    providers: Seq<ProviderState>,
    edges: Seq<EvidenceEdge>,
) -> Option<SemanticErrorView> {
    if schema_version != 1 {
        Some(SemanticErrorView::UnsupportedSchemaVersion(schema_version))
    } else if first_repeated(providers, 0) < providers.len() {
        Some(
            SemanticErrorView::DuplicateProvider(
                providers[first_repeated(providers, 0)].provider@,
            ),
        )
    } else if first_undeclared(edges, providers, 0) < edges.len() {
        Some(
            SemanticErrorView::UndeclaredProvider(
                edges[first_undeclared(edges, providers, 0)].provider@,
            ),
        )
    } else {
        None
    }
}

impl EvidenceBundle {
    /// Checks the version and that every edge has one declared provider.
    pub fn validate(&self) -> (valid: Result<(), SemanticError>)
        ensures
            match bundle_refusal(self.schema_version, self.providers@, self.edges@) {
                Some(error) => valid is Err && valid->Err_0@ == error,
                None => valid is Ok,
            },
    {
        if self.schema_version != 1 {
            return Err(SemanticError::UnsupportedSchemaVersion(self.schema_version));
        }
        let mut declared: StringHashMap<bool> = StringHashMap::new();
        let mut at: usize = 0;
        assert(declared@.dom() =~= declared_upto(self.providers@, 0));
        while at < self.providers.len()
            invariant
                at <= self.providers@.len(),
                self.schema_version == 1,
                declared@.dom() =~= declared_upto(self.providers@, at as int),
                first_repeated(self.providers@, 0) == first_repeated(self.providers@, at as int),
            decreases self.providers@.len() - at,
        {
            let name = &self.providers[at].provider;
            if declared.contains_key(name.as_str()) {
                return Err(SemanticError::DuplicateProvider(name.clone()));
            }
            let ghost before = declared@.dom();
            declared.insert(name.clone(), true);
            proof {
                let after = declared_upto(self.providers@, at + 1);
                assert forall|text: Seq<char>| declared@.dom().contains(text) == #[trigger] after.contains(text) by {
                    if after.contains(text) {
                        let i = choose|i: int|
                            0 <= i < at + 1 && i < self.providers@.len()
                                && (#[trigger] self.providers@[i]).provider@ == text;
                        if i < at {
                            assert(declared_upto(self.providers@, at as int).contains(text));
                        }
                    }
                    if text == name@ {
                        assert(self.providers@[at as int].provider@ == text);
                    } else if before.contains(text) {
                        let i = choose|i: int|
                            0 <= i < at && i < self.providers@.len()
                                && (#[trigger] self.providers@[i]).provider@ == text;
                        assert(self.providers@[i].provider@ == text);
                    }
                }
            }
            at += 1;
        }
        let mut edge: usize = 0;
        while edge < self.edges.len()
            invariant
                edge <= self.edges@.len(),
                self.schema_version == 1,
                first_repeated(self.providers@, 0) == self.providers@.len(),
                declared@.dom() =~= declared_upto(self.providers@, self.providers@.len() as int),
                first_undeclared(self.edges@, self.providers@, 0) == first_undeclared(
                    self.edges@,
                    self.providers@,
                    edge as int,
                ),
            decreases self.edges@.len() - edge,
        {
            let name = &self.edges[edge].provider;
            if !declared.contains_key(name.as_str()) {
                return Err(SemanticError::UndeclaredProvider(name.clone()));
            }
            edge += 1;
        }
        Ok(())
    }
}

proof fn lemma_first_repeated(providers: Seq<ProviderState>, from: int, earlier: int, later: int)
    requires
        0 <= from <= later,
        0 <= earlier < later < providers.len(),
        first_repeated(providers, from) == providers.len(),
    ensures
        providers[earlier].provider@ != providers[later].provider@,
    decreases later - from,
{
    if from == later {
        if providers[earlier].provider@ == providers[later].provider@ {
            assert(declared_upto(providers, from).contains(providers[later].provider@));
        }
    } else {
        lemma_first_repeated(providers, from + 1, earlier, later);
    }
}

proof fn lemma_first_undeclared(
    edges: Seq<EvidenceEdge>,
    providers: Seq<ProviderState>,
    from: int,
    edge: int,
)
    requires
        0 <= from <= edge < edges.len(),
        first_undeclared(edges, providers, from) == edges.len(),
    ensures
        declared_upto(providers, providers.len() as int).contains(edges[edge].provider@),
    decreases edge - from,
{
    if from < edge {
        lemma_first_undeclared(edges, providers, from + 1, edge);
    }
}

/// In a bundle that is not refused, every edge has exactly one declared
/// provider.
pub proof fn every_edge_has_one_declared_provider(
    schema_version: u8,
    providers: Seq<ProviderState>,
    edges: Seq<EvidenceEdge>,
    edge: int,
)
    requires
        bundle_refusal(schema_version, providers, edges) is None,
        0 <= edge < edges.len(),
    ensures
        exists|i: int|
            0 <= i < providers.len() && (#[trigger] providers[i]).provider@
                == edges[edge].provider@,
        forall|i: int, j: int|
            0 <= i < providers.len() && 0 <= j < providers.len()
                && (#[trigger] providers[i]).provider@ == edges[edge].provider@
                && (#[trigger] providers[j]).provider@ == edges[edge].provider@ ==> i == j,
{
    lemma_bounds(providers, edges, providers, 0);
    lemma_first_undeclared(edges, providers, 0, edge);
    assert forall|i: int, j: int|
        0 <= i < providers.len() && 0 <= j < providers.len() && (#[trigger] providers[i]).provider@
            == edges[edge].provider@ && (#[trigger] providers[j]).provider@
            == edges[edge].provider@ implies i == j by {
        if i < j {
            lemma_first_repeated(providers, 0, i, j);
        } else if j < i {
            lemma_first_repeated(providers, 0, j, i);
        }
    }
}

proof fn lemma_bounds(
    providers: Seq<ProviderState>,
    edges: Seq<EvidenceEdge>,
    declared: Seq<ProviderState>,
    from: int,
)
    ensures
        first_repeated(providers, from) <= providers.len(),
        first_undeclared(edges, declared, from) <= edges.len(),
    decreases providers.len() + edges.len() - from,
{
    if from < providers.len() || from < edges.len() {
        lemma_bounds(providers, edges, declared, from + 1);
    }
}

// Matched evidence.

/// Which end of a gap a piece of evidence starts from.
#[derive(Clone, Copy, Debug, PartialEq, Eq, PartialOrd, Ord, Structural)]
pub enum SourceEndpoint {
    Left,
    Right,
    Collection,
}

/// How strongly a candidate is supported.
#[derive(Clone, Copy, Debug, PartialEq, Eq, PartialOrd, Ord, Structural)]
pub enum SemanticTier {
    RecordingBoth,
    RecordingOne,
    ArtistLocal,
    ArtistCollection,
    BlissOnly,
}

/// Where the support for the candidates of a gap comes from.
#[derive(Clone, Copy, Debug, PartialEq, Eq, Structural)]
pub enum SemanticPool {
    EndpointLocal,
    CollectionFallback,
    BlissOnly,
}

/// A piece of evidence that supports a candidate.
#[verifier::ext_equal]
pub struct MatchedEvidenceView {
    pub provider: Seq<char>,
    pub dataset_or_algorithm: Option<Seq<char>>,
    pub source_endpoint: SourceEndpoint,
    pub source_id: Seq<char>,
    pub kind: EntityKind,
    pub scope: EvidenceScope,
    pub raw_rank: Option<u64>,
    pub raw_score: Option<i64>,
    pub identity_confidence: i64,
    pub observed_at: Option<Seq<char>>,
    pub cache_state: Option<CacheState>,
}

/// A piece of evidence that supports a candidate.
#[derive(Debug, PartialEq, Eq)]
pub struct MatchedEvidence {
    pub provider: String,
    pub dataset_or_algorithm: Option<String>,
    pub source_endpoint: SourceEndpoint,
    pub source_id: String,
    pub kind: EntityKind,
    pub scope: EvidenceScope,
    pub raw_rank: Option<u64>,
    pub raw_score: Option<i64>,
    pub identity_confidence: i64,
    pub observed_at: Option<String>,
    pub cache_state: Option<CacheState>,
}

impl View for MatchedEvidence {
    type V = MatchedEvidenceView;

    open spec fn view(&self) -> MatchedEvidenceView {
        MatchedEvidenceView {
            provider: self.provider@,
            dataset_or_algorithm: text_in(self.dataset_or_algorithm),
            source_endpoint: self.source_endpoint,
            source_id: self.source_id@,
            kind: self.kind,
            scope: self.scope,
            raw_rank: self.raw_rank,
            raw_score: self.raw_score,
            identity_confidence: self.identity_confidence,
            observed_at: text_in(self.observed_at),
            cache_state: self.cache_state,
        }
    }
}

impl Clone for MatchedEvidence {
    fn clone(&self) -> (copy: Self)
        ensures
            copy@ == self@,
    {
        MatchedEvidence {
            provider: self.provider.clone(),
            dataset_or_algorithm: copied_text(&self.dataset_or_algorithm),
            source_endpoint: self.source_endpoint,
            source_id: self.source_id.clone(),
            kind: self.kind,
            scope: self.scope,
            raw_rank: self.raw_rank,
            raw_score: self.raw_score,
            identity_confidence: self.identity_confidence,
            observed_at: copied_text(&self.observed_at),
            cache_state: self.cache_state,
        }
    }
}

/// A candidate and the evidence for it.
#[verifier::ext_equal]
pub struct CandidateSemanticsView {
    pub candidate: usize,
    pub tier: SemanticTier,
    pub evidence: Seq<MatchedEvidenceView>,
}

/// A candidate and the evidence for it.
#[derive(Debug, PartialEq, Eq)]
pub struct CandidateSemantics {
    pub candidate: usize,
    pub tier: SemanticTier,
    pub evidence: Vec<MatchedEvidence>,
}

impl View for CandidateSemantics {
    type V = CandidateSemanticsView;

    open spec fn view(&self) -> CandidateSemanticsView {
        CandidateSemanticsView {
            candidate: self.candidate,
            tier: self.tier,
            evidence: views(self.evidence@),
        }
    }
}

impl Clone for CandidateSemantics {
    fn clone(&self) -> (copy: Self)
        ensures
            copy@ == self@,
    {
        let mut evidence: Vec<MatchedEvidence> = Vec::new();
        let mut at: usize = 0;
        while at < self.evidence.len()
            invariant
                at <= self.evidence@.len(),
                views(evidence@) =~= views(self.evidence@).take(at as int),
            decreases self.evidence@.len() - at,
        {
            let item = self.evidence[at].clone();
            proof {
                lemma_views_push(evidence@, item);
            }
            evidence.push(item);
            at += 1;
        }
        assert(views(evidence@) =~= views(self.evidence@));
        CandidateSemantics { candidate: self.candidate, tier: self.tier, evidence }
    }
}

/// The candidates of a gap and where their support comes from.
#[verifier::ext_equal]
pub struct GapEvidenceView {
    pub pool: SemanticPool,
    pub candidates: Seq<CandidateSemanticsView>,
}

/// The candidates of a gap and where their support comes from.
#[derive(Debug, PartialEq, Eq)]
pub struct GapEvidence {
    pub pool: SemanticPool,
    pub candidates: Vec<CandidateSemantics>,
}

impl View for GapEvidence {
    type V = GapEvidenceView;

    open spec fn view(&self) -> GapEvidenceView {
        GapEvidenceView { pool: self.pool, candidates: views(self.candidates@) }
    }
}

impl Clone for GapEvidence {
    fn clone(&self) -> (copy: Self)
        ensures
            copy@ == self@,
    {
        let mut candidates: Vec<CandidateSemantics> = Vec::new();
        let mut at: usize = 0;
        while at < self.candidates.len()
            invariant
                at <= self.candidates@.len(),
                views(candidates@) =~= views(self.candidates@).take(at as int),
            decreases self.candidates@.len() - at,
        {
            let item = self.candidates[at].clone();
            proof {
                lemma_views_push(candidates@, item);
            }
            candidates.push(item);
            at += 1;
        }
        assert(views(candidates@) =~= views(self.candidates@));
        GapEvidence { pool: self.pool, candidates }
    }
}

// Support.

/// A rank comes before a missing one.
pub open spec fn rank_order(left: Option<u64>, right: Option<u64>) -> Ordering {
    match (left, right) {
        (Some(left), Some(right)) => if left < right {
            Ordering::Less
        } else if left > right {
            Ordering::Greater
        } else {
            Ordering::Equal
        },
        (Some(_), None) => Ordering::Less,
        (None, Some(_)) => Ordering::Greater,
        (None, None) => Ordering::Equal,
    }
}

/// Orders two ranks that may be missing.
pub fn compare_optional_rank(left: Option<u64>, right: Option<u64>) -> (order: Ordering)
    ensures
        order == rank_order(left, right),
{
    match (left, right) {
        (Some(left), Some(right)) => if left < right {
            Ordering::Less
        } else if left > right {
            Ordering::Greater
        } else {
            Ordering::Equal
        },
        (Some(_), None) => Ordering::Less,
        (None, Some(_)) => Ordering::Greater,
        (None, None) => Ordering::Equal,
    }
}

/// The place of a tier, the strongest first.
pub open spec fn tier_place(tier: SemanticTier) -> int {
    match tier {
        SemanticTier::RecordingBoth => 0,
        SemanticTier::RecordingOne => 1,
        SemanticTier::ArtistLocal => 2,
        SemanticTier::ArtistCollection => 3,
        SemanticTier::BlissOnly => 4,
    }
}

pub(crate) fn place_of_tier(tier: SemanticTier) -> (place: u8)
    ensures
        place == tier_place(tier),
{
    match tier {
        SemanticTier::RecordingBoth => 0,
        SemanticTier::RecordingOne => 1,
        SemanticTier::ArtistLocal => 2,
        SemanticTier::ArtistCollection => 3,
        SemanticTier::BlissOnly => 4,
    }
}

/// The smaller of two numbers.
pub open spec fn smaller(a: int, b: int) -> int {
    if a < b {
        a
    } else {
        b
    }
}

/// A number of units as a share: none below zero, one above one.
pub open spec fn as_share(units: int) -> int {
    if units < 0 {
        0
    } else {
        smaller(units, UNIT as int)
    }
}

fn share_of(units: i64) -> (share: u64)
    ensures
        share == as_share(units as int),
{
    if units < 0 {
        0
    } else if (units as u64) < UNIT {
        units as u64
    } else {
        UNIT
    }
}

/// How strong a piece of evidence is: its score, or else the reciprocal of its
/// rank in tens, or else a half, weighted by the confidence in the identity.
pub open spec fn strength(evidence: MatchedEvidenceView) -> int {
    let base = match evidence.raw_score {
        Some(score) => as_share(score as int),
        None => match evidence.raw_rank {
            Some(rank) => (10 * UNIT) / (10 + (if rank > 0 {
                rank - 1
            } else {
                0
            })),
            None => 500_000_000_000,
        },
    };
    base * as_share(evidence.identity_confidence as int) / (UNIT as int)
}

/// A strength lies between zero and one.
pub proof fn strength_is_a_share(evidence: MatchedEvidenceView)
    ensures
        0 <= strength(evidence) <= UNIT,
{
    let base = match evidence.raw_score {
        Some(score) => as_share(score as int),
        None => match evidence.raw_rank {
            Some(rank) => (10 * UNIT) / (10 + (if rank > 0 {
                rank - 1
            } else {
                0
            })),
            None => 500_000_000_000,
        },
    };
    let confidence = as_share(evidence.identity_confidence as int);
    if evidence.raw_score is None && evidence.raw_rank is Some {
        let rank = evidence.raw_rank->Some_0;
        let below = 10 + (if rank > 0 {
            rank - 1
        } else {
            0
        });
        assert(0 <= (10 * UNIT as int) / below <= UNIT as int) by (nonlinear_arith)
            requires
                below >= 10,
        ;
    }
    assert(0 <= base * confidence <= UNIT * UNIT) by (nonlinear_arith)
        requires
            0 <= base <= UNIT,
            0 <= confidence <= UNIT,
    ;
}

fn evidence_strength(evidence: &MatchedEvidence) -> (value: u64)
    ensures
        value == strength(evidence@),
        value <= UNIT,
{
    proof {
        strength_is_a_share(evidence@);
    }
    let base: u64 = match evidence.raw_score {
        Some(score) => share_of(score),
        None => match evidence.raw_rank {
            Some(rank) => {
                let places: u128 = 10 + (if rank > 0 {
                    rank - 1
                } else {
                    0
                }) as u128;
                let share: u128 = (10 * UNIT as u128) / places;
                assert(0 <= (10 * UNIT as int) / (places as int) <= UNIT as int)
                    by (nonlinear_arith)
                    requires
                        places >= 10,
                ;
                share as u64
            },
            None => 500_000_000_000,
        },
    };
    let confidence: u64 = share_of(evidence.identity_confidence);
    assert(0 <= base * confidence <= UNIT * UNIT) by (nonlinear_arith)
        requires
            0 <= base <= UNIT,
            0 <= confidence <= UNIT,
    ;
    (base as u128 * confidence as u128 / UNIT as u128) as u64
}

/// Whether a piece of evidence is of the kind that supports are made of.
pub open spec fn counts(
    evidence: MatchedEvidenceView,
    kind: EntityKind,
    endpoint: Option<SourceEndpoint>,
) -> bool {
    &&& ascii_lowered(evidence.provider) == ascii_lowered("last.fm"@)
    &&& evidence.kind == kind
    &&& endpoint matches Some(wanted) ==> evidence.source_endpoint == wanted
}

/// The strength of a piece of evidence, halved for the collection where asked.
pub open spec fn weighted(evidence: MatchedEvidenceView, halve_collection: bool) -> int {
    if halve_collection && evidence.scope == EvidenceScope::CollectionFallback {
        strength(evidence) / 2
    } else {
        strength(evidence)
    }
}

/// The strongest of the first `count` pieces of evidence that count.
pub open spec fn strongest_upto(
    evidence: Seq<MatchedEvidenceView>,
    kind: EntityKind,
    endpoint: Option<SourceEndpoint>,
    halve_collection: bool,
    count: int,
) -> Option<int>
    decreases count,
{
    if count <= 0 {
        None
    } else {
        let before = strongest_upto(evidence, kind, endpoint, halve_collection, count - 1);
        let item = evidence[count - 1];
        if !counts(item, kind, endpoint) {
            before
        } else {
            let value = weighted(item, halve_collection);
            match before {
                Some(best) if best > value => before,
                _ => Some(value),
            }
        }
    }
}

/// The strongest piece of evidence that counts.
pub open spec fn strongest(
    evidence: Seq<MatchedEvidenceView>,
    kind: EntityKind,
    endpoint: Option<SourceEndpoint>,
    halve_collection: bool,
) -> Option<int> {
    strongest_upto(evidence, kind, endpoint, halve_collection, evidence.len() as int)
}

proof fn lemma_strongest_is_a_share(
    evidence: Seq<MatchedEvidenceView>,
    kind: EntityKind,
    endpoint: Option<SourceEndpoint>,
    halve_collection: bool,
    count: int,
)
    requires
        0 <= count <= evidence.len(),
    ensures
        strongest_upto(evidence, kind, endpoint, halve_collection, count) matches Some(value) ==> 0
            <= value <= UNIT,
    decreases count,
{
    if count > 0 {
        lemma_strongest_is_a_share(evidence, kind, endpoint, halve_collection, count - 1);
        strength_is_a_share(evidence[count - 1]);
    }
}

/// A value that may be missing, as a number.
pub open spec fn or_zero(value: Option<int>) -> int {
    match value {
        Some(value) => value,
        None => 0,
    }
}

/// What one percentage takes of one support and another of a second, at most one.
pub open spec fn blended(
    track_percent: u8,
    track_support: int,
    artist_percent: u8,
    artist_support: int,
) -> int {
    smaller((track_percent * track_support + artist_percent * artist_support) / 100, UNIT as int)
}

fn blend(track_percent: u8, track_support: u64, artist_percent: u8, artist_support: u64) -> (score:
    u64)
    requires
        track_support <= UNIT,
        artist_support <= UNIT,
    ensures
        score == blended(track_percent, track_support as int, artist_percent, artist_support as int),
        score <= UNIT,
{
    assert(track_percent * track_support <= 255 * UNIT && artist_percent * artist_support <= 255
        * UNIT) by (nonlinear_arith)
        requires
            track_support <= UNIT,
            artist_support <= UNIT,
            track_percent <= 255,
            artist_percent <= 255,
    ;
    let sum: u64 = (track_percent as u64) * track_support + (artist_percent as u64)
        * artist_support;
    if sum / 100 < UNIT {
        sum / 100
    } else {
        UNIT
    }
}

impl CandidateSemanticsView {
    /// The largest confidence in an identity, zero without evidence.
    pub open spec fn confidence_upto(self, count: int) -> int
        decreases count,
    {
        if count <= 0 {
            0
        } else {
            let before = self.confidence_upto(count - 1);
            if count == 1 || self.evidence[count - 1].identity_confidence > before {
                self.evidence[count - 1].identity_confidence as int
            } else {
                before
            }
        }
    }

    /// The smallest rank among the first `count` pieces of evidence.
    pub open spec fn rank_upto(self, count: int) -> Option<u64>
        decreases count,
    {
        if count <= 0 {
            None
        } else {
            let before = self.rank_upto(count - 1);
            match (before, self.evidence[count - 1].raw_rank) {
                (Some(best), Some(rank)) => if rank < best {
                    Some(rank)
                } else {
                    before
                },
                (None, Some(rank)) => Some(rank),
                (_, None) => before,
            }
        }
    }

    /// The largest confidence in an identity.
    pub open spec fn confidence(self) -> int {
        self.confidence_upto(self.evidence.len() as int)
    }

    /// The smallest rank.
    pub open spec fn best_rank(self) -> Option<u64> {
        self.rank_upto(self.evidence.len() as int)
    }

    /// How this candidate ranks against another: by tier, by confidence, by rank.
    pub open spec fn priority(self, other: CandidateSemanticsView) -> Ordering {
        let mine = self.confidence();
        let theirs = other.confidence();
        if tier_place(self.tier) < tier_place(other.tier) {
            Ordering::Less
        } else if tier_place(self.tier) > tier_place(other.tier) {
            Ordering::Greater
        } else if mine > theirs {
            Ordering::Less
        } else if mine < theirs {
            Ordering::Greater
        } else {
            rank_order(self.best_rank(), other.best_rank())
        }
    }

    /// The support of a track: the mean of both sides, or 0.65 of the only one.
    pub open spec fn track_support(self) -> int {
        let left = strongest(
            self.evidence,
            EntityKind::Recording,
            Some(SourceEndpoint::Left),
            false,
        );
        let right = strongest(
            self.evidence,
            EntityKind::Recording,
            Some(SourceEndpoint::Right),
            false,
        );
        match (left, right) {
            (Some(left), Some(right)) => (left + right) / 2,
            (Some(value), None) => value * 65 / 100,
            (None, Some(value)) => value * 65 / 100,
            (None, None) => 0,
        }
    }

    /// The support of an artist; the collection counts half.
    pub open spec fn artist_support(self) -> int {
        or_zero(strongest(self.evidence, EntityKind::Artist, None, true))
    }

    /// The guidance that a candidate gets.
    pub open spec fn guidance_score(self, track_percent: u8, artist_percent: u8) -> int {
        blended(track_percent, self.track_support(), artist_percent, self.artist_support())
    }

    /// The guidance that a candidate for growing a seed gets.
    pub open spec fn seed_guidance_score(self, track_percent: u8, artist_percent: u8) -> int {
        blended(
            track_percent,
            or_zero(strongest(self.evidence, EntityKind::Recording, None, false)),
            artist_percent,
            self.artist_support(),
        )
    }

    /// An acoustic percentile lowered by at most a tenth.
    pub open spec fn adjusted_percentile(
        self,
        acoustic_percentile: int,
        track_percent: u8,
        artist_percent: u8,
    ) -> int {
        acoustic_percentile - self.guidance_score(track_percent, artist_percent) / 10
    }
}

impl CandidateSemantics {
    fn strongest(
        &self,
        kind: EntityKind,
        endpoint: Option<SourceEndpoint>,
        halve_collection: bool,
    ) -> (found: Option<u64>)
        ensures
            match strongest(self@.evidence, kind, endpoint, halve_collection) {
                Some(value) => found is Some && found->Some_0 == value,
                None => found is None,
            },
            found matches Some(value) ==> value <= UNIT,
    {
        let mut found: Option<u64> = None;
        let mut at: usize = 0;
        while at < self.evidence.len()
            invariant
                at <= self.evidence@.len(),
                match strongest_upto(self@.evidence, kind, endpoint, halve_collection, at as int) {
                    Some(value) => found is Some && found->Some_0 == value,
                    None => found is None,
                },
                found matches Some(value) ==> value <= UNIT,
            decreases self.evidence@.len() - at,
        {
            let item = &self.evidence[at];
            assert(self@.evidence[at as int] == item@);
            let wanted: bool = match endpoint {
                None => true,
                Some(endpoint) => item.source_endpoint == endpoint,
            };
            if wanted && item.kind == kind && equal_but_for_case(item.provider.as_str(), "last.fm") {
                let full: u64 = evidence_strength(item);
                let value: u64 = if halve_collection && item.scope
                    == EvidenceScope::CollectionFallback {
                    full / 2
                } else {
                    full
                };
                found = match found {
                    Some(best) => if best > value {
                        Some(best)
                    } else {
                        Some(value)
                    },
                    None => Some(value),
                };
            }
            at += 1;
        }
        found
    }

    pub(crate) fn max_identity_confidence(&self) -> (confidence: i64)
        ensures
            confidence == self@.confidence(),
    {
        let mut confidence: i64 = 0;
        let mut at: usize = 0;
        while at < self.evidence.len()
            invariant
                at <= self.evidence@.len(),
                confidence == self@.confidence_upto(at as int),
            decreases self.evidence@.len() - at,
        {
            assert(self@.evidence[at as int] == self.evidence@[at as int]@);
            if at == 0 || self.evidence[at].identity_confidence > confidence {
                confidence = self.evidence[at].identity_confidence;
            }
            at += 1;
        }
        confidence
    }

    pub(crate) fn best_raw_rank(&self) -> (rank: Option<u64>)
        ensures
            rank == self@.best_rank(),
    {
        let mut best: Option<u64> = None;
        let mut at: usize = 0;
        while at < self.evidence.len()
            invariant
                at <= self.evidence@.len(),
                best == self@.rank_upto(at as int),
            decreases self.evidence@.len() - at,
        {
            assert(self@.evidence[at as int] == self.evidence@[at as int]@);
            if let Some(rank) = self.evidence[at].raw_rank {
                best = match best {
                    Some(known) => if rank < known {
                        Some(rank)
                    } else {
                        Some(known)
                    },
                    None => Some(rank),
                };
            }
            at += 1;
        }
        best
    }

    /// Orders two candidates by what speaks for them.
    pub fn compare_priority(&self, other: &Self) -> (order: Ordering)
        ensures
            order == self@.priority(other@),
    {
        let mine: u8 = place_of_tier(self.tier);
        let theirs: u8 = place_of_tier(other.tier);
        if mine < theirs {
            return Ordering::Less;
        }
        if mine > theirs {
            return Ordering::Greater;
        }
        let confidence: i64 = self.max_identity_confidence();
        let other_confidence: i64 = other.max_identity_confidence();
        if confidence > other_confidence {
            return Ordering::Less;
        }
        if confidence < other_confidence {
            return Ordering::Greater;
        }
        compare_optional_rank(self.best_raw_rank(), other.best_raw_rank())
    }

    /// The support that recordings give.
    pub fn track_support(&self) -> (support: u64)
        ensures
            support == self@.track_support(),
            support <= UNIT,
    {
        let left = self.strongest(EntityKind::Recording, Some(SourceEndpoint::Left), false);
        let right = self.strongest(EntityKind::Recording, Some(SourceEndpoint::Right), false);
        match (left, right) {
            (Some(left), Some(right)) => (left + right) / 2,
            (Some(value), None) => value * 65 / 100,
            (None, Some(value)) => value * 65 / 100,
            (None, None) => 0,
        }
    }

    /// The support that artists give.
    pub fn artist_support(&self) -> (support: u64)
        ensures
            support == self@.artist_support(),
            support <= UNIT,
    {
        match self.strongest(EntityKind::Artist, None, true) {
            Some(value) => value,
            None => 0,
        }
    }

    /// The guidance for a bridge or an endpoint.
    pub fn guidance_score(&self, track_percent: u8, artist_percent: u8) -> (score: u64)
        ensures
            score == self@.guidance_score(track_percent, artist_percent),
            score <= UNIT,
    {
        blend(track_percent, self.track_support(), artist_percent, self.artist_support())
    }

    /// The guidance for growing a seed.
    pub fn seed_guidance_score(&self, track_percent: u8, artist_percent: u8) -> (score: u64)
        ensures
            score == self@.seed_guidance_score(track_percent, artist_percent),
            score <= UNIT,
    {
        let recording: u64 = match self.strongest(EntityKind::Recording, None, false) {
            Some(value) => value,
            None => 0,
        };
        blend(track_percent, recording, artist_percent, self.artist_support())
    }

    /// Lowers an acoustic percentile by the guidance.
    pub fn adjusted_percentile(
        &self,
        acoustic_percentile: u64,
        track_percent: u8,
        artist_percent: u8,
    ) -> (adjusted: i128)
        ensures
            adjusted == self@.adjusted_percentile(
                acoustic_percentile as int,
                track_percent,
                artist_percent,
            ),
    {
        let guidance: u64 = self.guidance_score(track_percent, artist_percent);
        acoustic_percentile as i128 - (guidance / 10) as i128
    }
}

/// At zero percent a kind of evidence has no say: candidates that differ in it
/// alone get the same guidance.
pub proof fn zero_percent_ignores_its_evidence(
    left: CandidateSemanticsView,
    right: CandidateSemanticsView,
    track_percent: u8,
    artist_percent: u8,
)
    requires
        artist_percent == 0 || left.artist_support() == right.artist_support(),
    ensures
        track_percent == 0 || left.track_support() == right.track_support() ==> left.guidance_score(
            track_percent,
            artist_percent,
        ) == right.guidance_score(track_percent, artist_percent),
        track_percent == 0 ==> left.seed_guidance_score(track_percent, artist_percent)
            == right.seed_guidance_score(track_percent, artist_percent),
{
    let supports = (left.track_support(), right.track_support());
    let artists = (left.artist_support(), right.artist_support());
    let recordings = (
        or_zero(strongest(left.evidence, EntityKind::Recording, None, false)),
        or_zero(strongest(right.evidence, EntityKind::Recording, None, false)),
    );
    if track_percent == 0 {
        assert(track_percent * supports.0 == 0 && track_percent * supports.1 == 0 && track_percent
            * recordings.0 == 0 && track_percent * recordings.1 == 0) by (nonlinear_arith)
            requires
                track_percent == 0,
        ;
    }
    if artist_percent == 0 {
        assert(artist_percent * artists.0 == 0 && artist_percent * artists.1 == 0)
            by (nonlinear_arith)
            requires
                artist_percent == 0,
        ;
    }
}

/// Guidance lowers a percentile by at most a tenth, raises none, and changes
/// nothing at zero percent or without evidence.
pub proof fn guidance_is_bounded(
    semantics: CandidateSemanticsView,
    acoustic_percentile: int,
    track_percent: u8,
    artist_percent: u8,
)
    ensures
        ({
            let adjusted = semantics.adjusted_percentile(
                acoustic_percentile,
                track_percent,
                artist_percent,
            );
            &&& acoustic_percentile - UNIT as int / 10 <= adjusted <= acoustic_percentile
            &&& (track_percent == 0 && artist_percent == 0) || semantics.evidence.len() == 0
                ==> adjusted == acoustic_percentile
        }),
{
    let evidence = semantics.evidence;
    let count = evidence.len() as int;
    lemma_strongest_is_a_share(
        evidence,
        EntityKind::Recording,
        Some(SourceEndpoint::Left),
        false,
        count,
    );
    lemma_strongest_is_a_share(
        evidence,
        EntityKind::Recording,
        Some(SourceEndpoint::Right),
        false,
        count,
    );
    lemma_strongest_is_a_share(evidence, EntityKind::Artist, None, true, count);
    let track = semantics.track_support();
    let artist = semantics.artist_support();
    assert(0 <= track_percent * track + artist_percent * artist) by (nonlinear_arith)
        requires
            0 <= track,
            0 <= artist,
    ;
    if track_percent == 0 && artist_percent == 0 {
        assert(track_percent * track + artist_percent * artist == 0) by (nonlinear_arith)
            requires
                track_percent == 0,
                artist_percent == 0,
        ;
    }
    if evidence.len() == 0 {
        assert(track == 0 && artist == 0);
        assert(track_percent * track + artist_percent * artist == 0) by (nonlinear_arith)
            requires
                track == 0,
                artist == 0,
        ;
    }
}

// Identities.

/// The identity of a track as evidence is matched against it.
#[derive(Clone, Debug, PartialEq, Eq)]
pub struct TrackIdentity {
    pub recording_id: String,
    pub recording_mbid: Option<String>,
    pub title_name: String,
    pub artist_ids: Vec<String>,
    pub artist_name: String,
}

/// A candidate's number and identity.
#[derive(Clone, Debug, PartialEq, Eq)]
pub struct CandidateIdentity {
    pub candidate: usize,
    pub track: TrackIdentity,
}

/// Puts a name in the form that identities are compared in: its words in lower
/// case with single spaces between them.
pub fn normalize_identity(value: &str) -> (name: String)
    ensures
        name@ == normalized(value@),
{
    normalize(value)
}

/// The identifier of an artist by name.
pub fn canonical_artist_id(name: &str) -> (id: String)
    ensures
        id@ == "artist:"@ + normalized(name@) + ""@,
{
    text_around("artist:", normalize(name).as_str(), "")
}

/// The key of a recording by title and artist.
pub open spec fn title_artist_key(title: Seq<char>, artist: Seq<char>) -> Seq<char> {
    "title_artist:"@ + normalized(title) + "\0"@ + normalized(artist)
}

fn recording_title_artist_key(title: &str, artist: &str) -> (key: String)
    ensures
        key@ == title_artist_key(title@, artist@),
{
    let mut key = text_around("title_artist:", normalize(title).as_str(), "\0");
    key.append(normalize(artist).as_str());
    key
}

/// The key of an artist by name.
pub open spec fn artist_key(name: Seq<char>) -> Seq<char> {
    "artist_name:"@ + normalized(name) + ""@
}

fn artist_name_key(name: &str) -> (key: String)
    ensures
        key@ == artist_key(name@),
{
    text_around("artist_name:", normalize(name).as_str(), "")
}

/// The identifier and, in lower case, the MusicBrainz identifier if there is one.
pub open spec fn identifier_keys(id: Seq<char>, mbid: Option<String>) -> Seq<Seq<char>> {
    match mbid {
        Some(mbid) => seq![id, ascii_lowered(mbid@)],
        None => seq![id],
    }
}

/// The keys that a track is found under as a recording.
pub open spec fn track_recording_keys(track: TrackIdentity) -> Seq<Seq<char>> {
    let base = identifier_keys(track.recording_id@, track.recording_mbid);
    sorted_keys(base.push(title_artist_key(track.title_name@, track.artist_name@)))
}

pub(crate) fn recording_keys_for_track(track: &TrackIdentity) -> (keys: Vec<String>)
    ensures
        views(keys@) == track_recording_keys(*track),
{
    let mut keys: Vec<String> = Vec::new();
    keys.push(track.recording_id.clone());
    if let Some(mbid) = &track.recording_mbid {
        keys.push(ascii_lowercase(mbid.as_str()));
    }
    let ghost base = identifier_keys(track.recording_id@, track.recording_mbid);
    assert(views(keys@) =~= base);
    keys.push(
        recording_title_artist_key(track.title_name.as_str(), track.artist_name.as_str()),
    );
    assert(views(keys@) =~= base.push(title_artist_key(track.title_name@, track.artist_name@)));
    sort_keys(keys)
}

/// The keys that a track is found under by its artist.
pub open spec fn track_artist_keys(track: TrackIdentity) -> Seq<Seq<char>> {
    sorted_keys(views(track.artist_ids@).push(artist_key(track.artist_name@)))
}

pub(crate) fn artist_keys_for_track(track: &TrackIdentity) -> (keys: Vec<String>)
    ensures
        views(keys@) == track_artist_keys(*track),
{
    let mut keys: Vec<String> = Vec::new();
    let mut at: usize = 0;
    while at < track.artist_ids.len()
        invariant
            at <= track.artist_ids@.len(),
            views(keys@) =~= views(track.artist_ids@).take(at as int),
        decreases track.artist_ids@.len() - at,
    {
        let id = track.artist_ids[at].clone();
        proof {
            lemma_views_push(keys@, id);
        }
        keys.push(id);
        at += 1;
    }
    assert(views(keys@) =~= views(track.artist_ids@));
    let name = artist_name_key(track.artist_name.as_str());
    proof {
        lemma_views_push(keys@, name);
    }
    keys.push(name);
    sort_keys(keys)
}

/// The keys that a recording is looked up under.
pub open spec fn entity_recording_keys(entity: Entity) -> Seq<Seq<char>> {
    let base = identifier_keys(entity.id@, entity.mbid);
    sorted_keys(
        match (entity.title, entity.name) {
            (Some(title), Some(artist)) => base.push(title_artist_key(title@, artist@)),
            _ => base,
        },
    )
}

pub(crate) fn recording_keys_for_entity(entity: &Entity) -> (keys: Vec<String>)
    ensures
        views(keys@) == entity_recording_keys(*entity),
{
    let mut keys: Vec<String> = Vec::new();
    keys.push(entity.id.clone());
    if let Some(mbid) = &entity.mbid {
        keys.push(ascii_lowercase(mbid.as_str()));
    }
    let ghost base = identifier_keys(entity.id@, entity.mbid);
    assert(views(keys@) =~= base);
    if let Some(title) = &entity.title {
        if let Some(artist) = &entity.name {
            keys.push(recording_title_artist_key(title.as_str(), artist.as_str()));
            assert(views(keys@) =~= base.push(title_artist_key(title@, artist@)));
        }
    }
    sort_keys(keys)
}

/// The keys that an artist is looked up under.
pub open spec fn entity_artist_keys(entity: Entity) -> Seq<Seq<char>> {
    let base = identifier_keys(entity.id@, entity.mbid);
    sorted_keys(
        match entity.name {
            Some(name) => base.push(artist_key(name@)),
            None => base,
        },
    )
}

pub(crate) fn artist_keys_for_entity(entity: &Entity) -> (keys: Vec<String>)
    ensures
        views(keys@) == entity_artist_keys(*entity),
{
    let mut keys: Vec<String> = Vec::new();
    keys.push(entity.id.clone());
    if let Some(mbid) = &entity.mbid {
        keys.push(ascii_lowercase(mbid.as_str()));
    }
    let ghost base = identifier_keys(entity.id@, entity.mbid);
    assert(views(keys@) =~= base);
    if let Some(name) = &entity.name {
        keys.push(artist_name_key(name.as_str()));
        assert(views(keys@) =~= base.push(artist_key(name@)));
    }
    sort_keys(keys)
}

// Matching.

/// Whether a recording is a track: by identifier, by MusicBrainz identifier, or
/// by title and artist.
pub open spec fn recording_is(entity: Entity, track: TrackIdentity) -> bool {
    entity.kind == EntityKind::Recording && (entity.id@ == track.recording_id@ || (
    match (entity.mbid, track.recording_mbid) {
        (Some(left), Some(right)) => ascii_lowered(left@) == ascii_lowered(right@),
        _ => false,
    }) || (match (entity.title, entity.name) {
        (Some(title), Some(artist)) => normalized(title@) == track.title_name@ && normalized(
            artist@,
        ) == track.artist_name@,
        _ => false,
    }))
}

fn recording_matches(entity: &Entity, track: &TrackIdentity) -> (same: bool)
    ensures
        same == recording_is(*entity, *track),
{
    match entity.kind {
        EntityKind::Artist => {
            return false;
        },
        EntityKind::Recording => {},
    }
    if entity.id == track.recording_id {
        return true;
    }
    if let Some(left) = &entity.mbid {
        if let Some(right) = &track.recording_mbid {
            if equal_but_for_case(left.as_str(), right.as_str()) {
                return true;
            }
        }
    }
    if let Some(title) = &entity.title {
        if let Some(artist) = &entity.name {
            return normalize(title.as_str()) == track.title_name && normalize(artist.as_str())
                == track.artist_name;
        }
    }
    false
}

/// Whether one of the first `count` identifiers equals `id` but for ASCII case.
pub open spec fn names_one_of(ids: Seq<String>, id: Seq<char>, count: int) -> bool {
    exists|i: int|
        0 <= i < count && i < ids.len() && ascii_lowered((#[trigger] ids[i])@) == ascii_lowered(id)
}

/// Whether an artist is that of a track: by identifier or by name.
pub open spec fn artist_is(entity: Entity, track: TrackIdentity) -> bool {
    entity.kind == EntityKind::Artist && (names_one_of(
        track.artist_ids@,
        entity.id@,
        track.artist_ids@.len() as int,
    ) || (match entity.mbid {
        Some(mbid) => names_one_of(track.artist_ids@, mbid@, track.artist_ids@.len() as int),
        None => false,
    }) || (match entity.name {
        Some(name) => normalized(name@) == track.artist_name@,
        None => false,
    }))
}

fn is_one_of(ids: &Vec<String>, id: &str) -> (found: bool)
    ensures
        found == names_one_of(ids@, id@, ids@.len() as int),
{
    let mut at: usize = 0;
    while at < ids.len()
        invariant
            at <= ids@.len(),
            !names_one_of(ids@, id@, at as int),
        decreases ids@.len() - at,
    {
        if equal_but_for_case(ids[at].as_str(), id) {
            assert(ascii_lowered(ids@[at as int]@) == ascii_lowered(id@));
            return true;
        }
        at += 1;
    }
    false
}

fn artist_matches(entity: &Entity, track: &TrackIdentity) -> (same: bool)
    ensures
        same == artist_is(*entity, *track),
{
    match entity.kind {
        EntityKind::Recording => {
            return false;
        },
        EntityKind::Artist => {},
    }
    if is_one_of(&track.artist_ids, entity.id.as_str()) {
        return true;
    }
    if let Some(mbid) = &entity.mbid {
        if is_one_of(&track.artist_ids, mbid.as_str()) {
            return true;
        }
    }
    if let Some(name) = &entity.name {
        return normalize(name.as_str()) == track.artist_name;
    }
    false
}

/// Whether an entity is a track or its artist.
pub open spec fn entity_is(entity: Entity, track: TrackIdentity) -> bool {
    recording_is(entity, track) || artist_is(entity, track)
}

pub(crate) fn entity_matches(entity: &Entity, track: &TrackIdentity) -> (same: bool)
    ensures
        same == entity_is(*entity, *track),
{
    match entity.kind {
        EntityKind::Recording => recording_matches(entity, track),
        EntityKind::Artist => artist_matches(entity, track),
    }
}

/// Whether an edge leads from like to like, to a track.
pub open spec fn leads_to(edge: EvidenceEdge, track: TrackIdentity) -> bool {
    edge.source.kind == edge.candidate.kind && entity_is(edge.candidate, track)
}

fn candidate_matches(edge: &EvidenceEdge, track: &TrackIdentity) -> (leads: bool)
    ensures
        leads == leads_to(*edge, *track),
{
    edge.source.kind == edge.candidate.kind && entity_matches(&edge.candidate, track)
}

/// Whether an edge starts from one of the first `count` tracks.
pub open spec fn starts_from_any(
    edge: EvidenceEdge,
    tracks: Seq<TrackIdentity>,
    count: int,
) -> bool {
    exists|i: int|
        0 <= i < count && i < tracks.len() && entity_is(edge.source, #[trigger] tracks[i])
}

fn source_matches_any(edge: &EvidenceEdge, tracks: &[TrackIdentity]) -> (found: bool)
    ensures
        found == starts_from_any(*edge, tracks@, tracks@.len() as int),
{
    let mut at: usize = 0;
    while at < tracks.len()
        invariant
            at <= tracks@.len(),
            !starts_from_any(*edge, tracks@, at as int),
        decreases tracks@.len() - at,
    {
        if entity_matches(&edge.source, &tracks[at]) {
            assert(entity_is(edge.source, tracks@[at as int]));
            return true;
        }
        at += 1;
    }
    false
}

/// An edge as evidence.
pub open spec fn matched(edge: EvidenceEdge, source_endpoint: SourceEndpoint) -> MatchedEvidenceView {
    MatchedEvidenceView {
        provider: edge.provider@,
        dataset_or_algorithm: text_in(edge.dataset_or_algorithm),
        source_endpoint,
        source_id: edge.source.id@,
        kind: edge.source.kind,
        scope: edge.scope,
        raw_rank: edge.raw_rank,
        raw_score: edge.raw_score,
        identity_confidence: edge.identity_confidence,
        observed_at: text_in(edge.observed_at),
        cache_state: edge.cache_state,
    }
}

fn matched_evidence(edge: &EvidenceEdge, source_endpoint: SourceEndpoint) -> (evidence:
    MatchedEvidence)
    ensures
        evidence@ == matched(*edge, source_endpoint),
{
    MatchedEvidence {
        provider: edge.provider.clone(),
        dataset_or_algorithm: copied_text(&edge.dataset_or_algorithm),
        source_endpoint,
        source_id: edge.source.id.clone(),
        kind: edge.source.kind,
        scope: edge.scope,
        raw_rank: edge.raw_rank,
        raw_score: edge.raw_score,
        identity_confidence: edge.identity_confidence,
        observed_at: copied_text(&edge.observed_at),
        cache_state: edge.cache_state,
    }
}

/// The place of an endpoint.
pub open spec fn endpoint_place(endpoint: SourceEndpoint) -> int {
    match endpoint {
        SourceEndpoint::Left => 0,
        SourceEndpoint::Right => 1,
        SourceEndpoint::Collection => 2,
    }
}

fn place_of_endpoint(endpoint: SourceEndpoint) -> (place: u8)
    ensures
        place == endpoint_place(endpoint),
{
    match endpoint {
        SourceEndpoint::Left => 0,
        SourceEndpoint::Right => 1,
        SourceEndpoint::Collection => 2,
    }
}

/// Whether a rank comes strictly before another; a missing one comes last.
pub open spec fn rank_before(left: Option<u64>, right: Option<u64>) -> bool {
    match (left, right) {
        (Some(left), Some(right)) => left < right,
        (Some(_), None) => true,
        _ => false,
    }
}

/// Whether a piece of evidence is listed no later than another: by endpoint,
/// recordings first, by provider, rank and source.
pub open spec fn listed_at_most(a: MatchedEvidenceView, b: MatchedEvidenceView) -> bool {
    if a.source_endpoint != b.source_endpoint {
        endpoint_place(a.source_endpoint) < endpoint_place(b.source_endpoint)
    } else if a.kind != b.kind {
        a.kind == EntityKind::Recording
    } else if a.provider != b.provider {
        text_at_most(a.provider, b.provider)
    } else if a.raw_rank != b.raw_rank {
        rank_before(a.raw_rank, b.raw_rank)
    } else {
        text_at_most(a.source_id, b.source_id)
    }
}

/// The order in which evidence is listed.
pub open spec fn listing() -> spec_fn(MatchedEvidenceView, MatchedEvidenceView) -> bool {
    |a: MatchedEvidenceView, b: MatchedEvidenceView| listed_at_most(a, b)
}

/// Evidence can be listed in order.
pub proof fn lemma_listing()
    ensures
        is_ranking(listing()),
{
    assert forall|a: MatchedEvidenceView, b: MatchedEvidenceView| #[trigger] listing()(a, b)
        || listing()(b, a) by {
        lemma_text_order(a.provider, b.provider, a.provider);
        lemma_text_order(a.source_id, b.source_id, a.source_id);
    }
    assert forall|a: MatchedEvidenceView, b: MatchedEvidenceView, c: MatchedEvidenceView|
        #![trigger listing()(a, b), listing()(b, c)]
        listing()(a, b) && listing()(b, c) implies listing()(a, c) by {
        lemma_text_order(a.provider, b.provider, c.provider);
        lemma_text_order(b.provider, c.provider, a.provider);
        lemma_text_order(a.source_id, b.source_id, c.source_id);
    }
}

fn is_listed_at_most(a: &MatchedEvidence, b: &MatchedEvidence) -> (first: bool)
    ensures
        first == listed_at_most(a@, b@),
{
    if a.source_endpoint != b.source_endpoint {
        place_of_endpoint(a.source_endpoint) < place_of_endpoint(b.source_endpoint)
    } else if a.kind != b.kind {
        a.kind == EntityKind::Recording
    } else if a.provider != b.provider {
        in_text_order(a.provider.as_str(), b.provider.as_str())
    } else {
        match (a.raw_rank, b.raw_rank) {
            (Some(left), Some(right)) => if left != right {
                left < right
            } else {
                in_text_order(a.source_id.as_str(), b.source_id.as_str())
            },
            (Some(_), None) => true,
            (None, Some(_)) => false,
            (None, None) => in_text_order(a.source_id.as_str(), b.source_id.as_str()),
        }
    }
}

fn sort_evidence(evidence: Vec<MatchedEvidence>) -> (sorted: Vec<MatchedEvidence>)
    ensures
        views(sorted@) == stable_sort(views(evidence@), listing()),
{
    proof {
        lemma_listing();
    }
    let leq = |a: &MatchedEvidence, b: &MatchedEvidence| -> (first: bool)
        ensures
            first == listing()(a@, b@),
        { is_listed_at_most(a, b) };
    sort_views(evidence, &leq, Ghost(listing()))
}

// Support for single candidates.

/// The evidence gathered for a candidate and what kinds of it there were.
#[verifier::ext_equal]
pub struct GatheredView {
    pub evidence: Seq<MatchedEvidenceView>,
    pub recording_left: bool,
    pub recording_right: bool,
    pub artist_local: bool,
}

/// Nothing gathered.
pub open spec fn nothing_gathered() -> GatheredView {
    GatheredView {
        evidence: seq![],
        recording_left: false,
        recording_right: false,
        artist_local: false,
    }
}

impl GatheredView {
    /// What is gathered once an edge is noted for the ends that it starts from.
    pub open spec fn noted(self, edge: EvidenceEdge, left: bool, right: bool) -> GatheredView {
        let recording = edge.source.kind == EntityKind::Recording;
        let once = if left {
            GatheredView {
                evidence: self.evidence.push(matched(edge, SourceEndpoint::Left)),
                recording_left: self.recording_left || recording,
                recording_right: self.recording_right,
                artist_local: self.artist_local || !recording,
            }
        } else {
            self
        };
        if right {
            GatheredView {
                evidence: once.evidence.push(matched(edge, SourceEndpoint::Right)),
                recording_left: once.recording_left,
                recording_right: once.recording_right || recording,
                artist_local: once.artist_local || !recording,
            }
        } else {
            once
        }
    }

    /// The tier that the gathered evidence amounts to, if it is local.
    pub open spec fn local_tier(self) -> Option<SemanticTier> {
        if self.recording_left && self.recording_right {
            Some(SemanticTier::RecordingBoth)
        } else if self.recording_left || self.recording_right {
            Some(SemanticTier::RecordingOne)
        } else if self.artist_local {
            Some(SemanticTier::ArtistLocal)
        } else {
            None
        }
    }

    /// A candidate with the gathered evidence in listing order.
    pub open spec fn semantics(self, candidate: usize, tier: SemanticTier) -> CandidateSemanticsView {
        CandidateSemanticsView {
            candidate,
            tier,
            evidence: stable_sort(self.evidence, listing()),
        }
    }
}

pub(crate) struct Gathered {
    pub evidence: Vec<MatchedEvidence>,
    pub recording_left: bool,
    pub recording_right: bool,
    pub artist_local: bool,
}

impl View for Gathered {
    type V = GatheredView;

    closed spec fn view(&self) -> GatheredView {
        GatheredView {
            evidence: views(self.evidence@),
            recording_left: self.recording_left,
            recording_right: self.recording_right,
            artist_local: self.artist_local,
        }
    }
}

impl Gathered {
    pub fn new() -> (gathered: Self)
        ensures
            gathered@ == nothing_gathered(),
    {
        let gathered = Gathered {
            evidence: Vec::new(),
            recording_left: false,
            recording_right: false,
            artist_local: false,
        };
        assert(views(gathered.evidence@) =~= seq![]);
        gathered
    }

    pub fn note(&mut self, edge: &EvidenceEdge, left: bool, right: bool)
        ensures
            final(self)@ == old(self)@.noted(*edge, left, right),
    {
        let recording: bool = edge.source.kind == EntityKind::Recording;
        if left {
            self.recording_left = self.recording_left || recording;
            self.artist_local = self.artist_local || !recording;
            let item = matched_evidence(edge, SourceEndpoint::Left);
            proof {
                lemma_views_push(self.evidence@, item);
            }
            self.evidence.push(item);
        }
        if right {
            self.recording_right = self.recording_right || recording;
            self.artist_local = self.artist_local || !recording;
            let item = matched_evidence(edge, SourceEndpoint::Right);
            proof {
                lemma_views_push(self.evidence@, item);
            }
            self.evidence.push(item);
        }
    }

    pub fn note_as(&mut self, edge: &EvidenceEdge, endpoint: SourceEndpoint)
        ensures
            final(self)@ == (GatheredView {
                evidence: old(self)@.evidence.push(matched(*edge, endpoint)),
                ..old(self)@
            }),
    {
        let item = matched_evidence(edge, endpoint);
        proof {
            lemma_views_push(self.evidence@, item);
        }
        self.evidence.push(item);
    }

    pub fn local_tier(&self) -> (tier: Option<SemanticTier>)
        ensures
            tier == self@.local_tier(),
    {
        if self.recording_left && self.recording_right {
            Some(SemanticTier::RecordingBoth)
        } else if self.recording_left || self.recording_right {
            Some(SemanticTier::RecordingOne)
        } else if self.artist_local {
            Some(SemanticTier::ArtistLocal)
        } else {
            None
        }
    }

    pub fn into_semantics(self, candidate: usize, tier: SemanticTier) -> (semantics: CandidateSemantics)
        ensures
            semantics@ == self@.semantics(candidate, tier),
    {
        CandidateSemantics { candidate, tier, evidence: sort_evidence(self.evidence) }
    }
}

/// What the first `count` edges gather for a candidate between two tracks.
pub open spec fn local_gathered(
    edges: Seq<EvidenceEdge>,
    left: TrackIdentity,
    right: TrackIdentity,
    track: TrackIdentity,
    count: int,
) -> GatheredView
    decreases count,
{
    if count <= 0 {
        nothing_gathered()
    } else {
        let before = local_gathered(edges, left, right, track, count - 1);
        let edge = edges[count - 1];
        if edge.scope == EvidenceScope::EndpointLocal && leads_to(edge, track) {
            before.noted(edge, entity_is(edge.source, left), entity_is(edge.source, right))
        } else {
            before
        }
    }
}

/// What local evidence says of a candidate between two tracks.
pub open spec fn local_support(
    edges: Seq<EvidenceEdge>,
    left: TrackIdentity,
    right: TrackIdentity,
    candidate: CandidateIdentity,
) -> Option<CandidateSemanticsView> {
    let gathered = local_gathered(edges, left, right, candidate.track, edges.len() as int);
    match gathered.local_tier() {
        Some(tier) => Some(gathered.semantics(candidate.candidate, tier)),
        None => None,
    }
}

/// The value of semantics that may be missing.
pub open spec fn semantics_in(found: Option<CandidateSemantics>) -> Option<CandidateSemanticsView> {
    match found {
        Some(found) => Some(found@),
        None => None,
    }
}

fn local_candidate(
    edges: &Vec<EvidenceEdge>,
    left: &TrackIdentity,
    right: &TrackIdentity,
    candidate: &CandidateIdentity,
) -> (found: Option<CandidateSemantics>)
    ensures
        semantics_in(found) == local_support(edges@, *left, *right, *candidate),
{
    let mut gathered = Gathered::new();
    let mut at: usize = 0;
    while at < edges.len()
        invariant
            at <= edges@.len(),
            gathered@ == local_gathered(edges@, *left, *right, candidate.track, at as int),
        decreases edges@.len() - at,
    {
        let edge = &edges[at];
        if edge.scope == EvidenceScope::EndpointLocal && candidate_matches(edge, &candidate.track) {
            let from_left: bool = entity_matches(&edge.source, left);
            let from_right: bool = entity_matches(&edge.source, right);
            gathered.note(edge, from_left, from_right);
        }
        at += 1;
    }
    match gathered.local_tier() {
        Some(tier) => Some(gathered.into_semantics(candidate.candidate, tier)),
        None => None,
    }
}

/// What the first `count` edges gather for a candidate next to one track.
pub open spec fn endpoint_gathered(
    edges: Seq<EvidenceEdge>,
    anchor: TrackIdentity,
    endpoint: SourceEndpoint,
    track: TrackIdentity,
    count: int,
) -> GatheredView
    decreases count,
{
    if count <= 0 {
        nothing_gathered()
    } else {
        let before = endpoint_gathered(edges, anchor, endpoint, track, count - 1);
        let edge = edges[count - 1];
        if edge.scope == EvidenceScope::EndpointLocal && leads_to(edge, track) && entity_is(
            edge.source,
            anchor,
        ) {
            let recording = edge.source.kind == EntityKind::Recording;
            GatheredView {
                evidence: before.evidence.push(matched(edge, endpoint)),
                recording_left: before.recording_left || recording,
                recording_right: false,
                artist_local: before.artist_local || !recording,
            }
        } else {
            before
        }
    }
}

/// What local evidence says of a candidate next to one track.
pub open spec fn endpoint_support(
    edges: Seq<EvidenceEdge>,
    anchor: TrackIdentity,
    endpoint: SourceEndpoint,
    candidate: CandidateIdentity,
) -> Option<CandidateSemanticsView> {
    let gathered = endpoint_gathered(
        edges,
        anchor,
        endpoint,
        candidate.track,
        edges.len() as int,
    );
    match gathered.local_tier() {
        Some(tier) => Some(gathered.semantics(candidate.candidate, tier)),
        None => None,
    }
}

fn endpoint_candidate(
    edges: &Vec<EvidenceEdge>,
    anchor: &TrackIdentity,
    endpoint: SourceEndpoint,
    candidate: &CandidateIdentity,
) -> (found: Option<CandidateSemantics>)
    ensures
        semantics_in(found) == endpoint_support(edges@, *anchor, endpoint, *candidate),
{
    let mut gathered = Gathered::new();
    let mut at: usize = 0;
    while at < edges.len()
        invariant
            at <= edges@.len(),
            gathered@ == endpoint_gathered(edges@, *anchor, endpoint, candidate.track, at as int),
            !gathered.recording_right,
        decreases edges@.len() - at,
    {
        let edge = &edges[at];
        if edge.scope == EvidenceScope::EndpointLocal && candidate_matches(edge, &candidate.track)
            && entity_matches(&edge.source, anchor) {
            let recording: bool = edge.source.kind == EntityKind::Recording;
            gathered.note_as(edge, endpoint);
            gathered.recording_left = gathered.recording_left || recording;
            gathered.artist_local = gathered.artist_local || !recording;
        }
        at += 1;
    }
    match gathered.local_tier() {
        Some(tier) => Some(gathered.into_semantics(candidate.candidate, tier)),
        None => None,
    }
}

/// Whether an edge is collection evidence that starts from one of the tracks.
pub open spec fn collection_edge(edge: EvidenceEdge, sources: Seq<TrackIdentity>) -> bool {
    edge.scope == EvidenceScope::CollectionFallback && edge.source.kind == EntityKind::Artist
        && edge.candidate.kind == EntityKind::Artist && starts_from_any(
        edge,
        sources,
        sources.len() as int,
    )
}

pub(crate) fn is_collection_edge(edge: &EvidenceEdge, sources: &[TrackIdentity]) -> (counts: bool)
    ensures
        counts == collection_edge(*edge, sources@),
{
    edge.scope == EvidenceScope::CollectionFallback && edge.source.kind == EntityKind::Artist
        && edge.candidate.kind == EntityKind::Artist && source_matches_any(edge, sources)
}

/// The collection evidence among the first `count` edges for a track.
pub open spec fn collection_gathered(
    edges: Seq<EvidenceEdge>,
    sources: Seq<TrackIdentity>,
    track: TrackIdentity,
    count: int,
) -> GatheredView
    decreases count,
{
    if count <= 0 {
        nothing_gathered()
    } else {
        let before = collection_gathered(edges, sources, track, count - 1);
        let edge = edges[count - 1];
        if collection_edge(edge, sources) && artist_is(edge.candidate, track) {
            GatheredView {
                evidence: before.evidence.push(matched(edge, SourceEndpoint::Collection)),
                ..before
            }
        } else {
            before
        }
    }
}

/// What collection evidence says of a candidate.
pub open spec fn collection_support(
    edges: Seq<EvidenceEdge>,
    sources: Seq<TrackIdentity>,
    candidate: CandidateIdentity,
) -> Option<CandidateSemanticsView> {
    let gathered = collection_gathered(edges, sources, candidate.track, edges.len() as int);
    if gathered.evidence.len() == 0 {
        None
    } else {
        Some(gathered.semantics(candidate.candidate, SemanticTier::ArtistCollection))
    }
}

fn collection_candidate(
    edges: &Vec<EvidenceEdge>,
    sources: &[TrackIdentity],
    candidate: &CandidateIdentity,
) -> (found: Option<CandidateSemantics>)
    ensures
        semantics_in(found) == collection_support(edges@, sources@, *candidate),
{
    let mut gathered = Gathered::new();
    let mut at: usize = 0;
    while at < edges.len()
        invariant
            at <= edges@.len(),
            gathered@ == collection_gathered(edges@, sources@, candidate.track, at as int),
        decreases edges@.len() - at,
    {
        let edge = &edges[at];
        if is_collection_edge(edge, sources) && artist_matches(&edge.candidate, &candidate.track) {
            gathered.note_as(edge, SourceEndpoint::Collection);
        }
        at += 1;
    }
    assert(gathered@.evidence.len() == gathered.evidence@.len());
    if gathered.evidence.len() == 0 {
        return None;
    }
    Some(gathered.into_semantics(candidate.candidate, SemanticTier::ArtistCollection))
}

/// The endpoint under which seed evidence is listed.
pub open spec fn seed_endpoint(scope: EvidenceScope) -> SourceEndpoint {
    match scope {
        EvidenceScope::CollectionFallback => SourceEndpoint::Collection,
        EvidenceScope::EndpointLocal => SourceEndpoint::Left,
    }
}

/// What the first `count` edges gather for a track from any of the sources:
/// the flags tell whether there is evidence from recordings and local evidence.
pub open spec fn seed_gathered(
    edges: Seq<EvidenceEdge>,
    sources: Seq<TrackIdentity>,
    track: TrackIdentity,
    count: int,
) -> GatheredView
    decreases count,
{
    if count <= 0 {
        nothing_gathered()
    } else {
        let before = seed_gathered(edges, sources, track, count - 1);
        let edge = edges[count - 1];
        if leads_to(edge, track) && starts_from_any(edge, sources, sources.len() as int) {
            GatheredView {
                evidence: before.evidence.push(matched(edge, seed_endpoint(edge.scope))),
                recording_left: before.recording_left || edge.source.kind == EntityKind::Recording,
                recording_right: false,
                artist_local: before.artist_local || edge.scope == EvidenceScope::EndpointLocal,
            }
        } else {
            before
        }
    }
}

/// What any evidence says of a candidate for growing a seed.
pub open spec fn seed_support(
    edges: Seq<EvidenceEdge>,
    sources: Seq<TrackIdentity>,
    candidate: CandidateIdentity,
) -> Option<CandidateSemanticsView> {
    let gathered = seed_gathered(edges, sources, candidate.track, edges.len() as int);
    if gathered.evidence.len() == 0 {
        None
    } else {
        let tier = if gathered.recording_left {
            SemanticTier::RecordingOne
        } else if gathered.artist_local {
            SemanticTier::ArtistLocal
        } else {
            SemanticTier::ArtistCollection
        };
        Some(gathered.semantics(candidate.candidate, tier))
    }
}

fn seed_candidate(
    edges: &Vec<EvidenceEdge>,
    sources: &[TrackIdentity],
    candidate: &CandidateIdentity,
) -> (found: Option<CandidateSemantics>)
    ensures
        semantics_in(found) == seed_support(edges@, sources@, *candidate),
{
    let mut gathered = Gathered::new();
    let mut at: usize = 0;
    while at < edges.len()
        invariant
            at <= edges@.len(),
            gathered@ == seed_gathered(edges@, sources@, candidate.track, at as int),
            !gathered.recording_right,
        decreases edges@.len() - at,
    {
        let edge = &edges[at];
        if candidate_matches(edge, &candidate.track) && source_matches_any(edge, sources) {
            let endpoint = match edge.scope {
                EvidenceScope::CollectionFallback => SourceEndpoint::Collection,
                EvidenceScope::EndpointLocal => SourceEndpoint::Left,
            };
            gathered.note_as(edge, endpoint);
            gathered.recording_left = gathered.recording_left || edge.source.kind
                == EntityKind::Recording;
            gathered.artist_local = gathered.artist_local || edge.scope
                == EvidenceScope::EndpointLocal;
        }
        at += 1;
    }
    assert(gathered@.evidence.len() == gathered.evidence@.len());
    if gathered.evidence.len() == 0 {
        return None;
    }
    let tier = if gathered.recording_left {
        SemanticTier::RecordingOne
    } else if gathered.artist_local {
        SemanticTier::ArtistLocal
    } else {
        SemanticTier::ArtistCollection
    };
    Some(gathered.into_semantics(candidate.candidate, tier))
}

// Support for all candidates.

/// What is said of those of the first `count` candidates of which anything is.
pub open spec fn supported_upto(
    candidates: Seq<CandidateIdentity>,
    support: spec_fn(CandidateIdentity) -> Option<CandidateSemanticsView>,
    count: int,
) -> Seq<CandidateSemanticsView>
    decreases count,
{
    if count <= 0 {
        seq![]
    } else {
        let before = supported_upto(candidates, support, count - 1);
        match support(candidates[count - 1]) {
            Some(found) => before.push(found),
            None => before,
        }
    }
}

/// What is said of those candidates of which anything is.
pub open spec fn supported(
    candidates: Seq<CandidateIdentity>,
    support: spec_fn(CandidateIdentity) -> Option<CandidateSemanticsView>,
) -> Seq<CandidateSemanticsView> {
    supported_upto(candidates, support, candidates.len() as int)
}

/// A candidate without evidence.
pub open spec fn unsupported(candidate: usize) -> CandidateSemanticsView {
    CandidateSemanticsView { candidate, tier: SemanticTier::BlissOnly, evidence: seq![] }
}

/// The last of the first `count` findings for a candidate number.
pub open spec fn last_finding(
    found: Seq<CandidateSemanticsView>,
    candidate: usize,
    count: int,
) -> Option<CandidateSemanticsView>
    decreases count,
{
    if count <= 0 {
        None
    } else if found[count - 1].candidate == candidate {
        Some(found[count - 1])
    } else {
        last_finding(found, candidate, count - 1)
    }
}

/// What is said of a candidate, or that nothing is.
pub open spec fn resolved(found: Seq<CandidateSemanticsView>, candidate: usize) -> CandidateSemanticsView {
    match last_finding(found, candidate, found.len() as int) {
        Some(finding) => finding,
        None => unsupported(candidate),
    }
}

/// Every candidate with what is said of it.
pub open spec fn resolved_all(
    found: Seq<CandidateSemanticsView>,
    candidates: Seq<CandidateIdentity>,
) -> Seq<CandidateSemanticsView> {
    Seq::new(candidates.len(), |i: int| resolved(found, candidates[i].candidate))
}

/// The candidates of a gap: with the local findings if there are any, else
/// with those of the collection if there are any, else without any.
pub open spec fn pooled(
    local: Seq<CandidateSemanticsView>,
    collection: Seq<CandidateSemanticsView>,
    candidates: Seq<CandidateIdentity>,
) -> GapEvidenceView {
    if local.len() > 0 {
        GapEvidenceView {
            pool: SemanticPool::EndpointLocal,
            candidates: resolved_all(local, candidates),
        }
    } else if collection.len() > 0 {
        GapEvidenceView {
            pool: SemanticPool::CollectionFallback,
            candidates: resolved_all(collection, candidates),
        }
    } else {
        GapEvidenceView {
            pool: SemanticPool::BlissOnly,
            candidates: resolved_all(seq![], candidates),
        }
    }
}

fn resolve(found: &Vec<CandidateSemantics>, candidates: &[CandidateIdentity]) -> (all: Vec<
    CandidateSemantics,
>)
    ensures
        views(all@) == resolved_all(views(found@), candidates@),
{
    let mut all: Vec<CandidateSemantics> = Vec::new();
    let ghost findings = views(found@);
    let mut at: usize = 0;
    while at < candidates.len()
        invariant
            at <= candidates@.len(),
            findings == views(found@),
            views(all@) =~= resolved_all(findings, candidates@).take(at as int),
        decreases candidates@.len() - at,
    {
        let candidate: usize = candidates[at].candidate;
        let mut left: usize = found.len();
        while left > 0 && found[left - 1].candidate != candidate
            invariant
                left <= found@.len(),
                findings == views(found@),
                last_finding(findings, candidate, findings.len() as int) == last_finding(
                    findings,
                    candidate,
                    left as int,
                ),
            decreases left,
        {
            assert(findings[left - 1] == found@[left - 1]@);
            left -= 1;
        }
        proof {
            if left > 0 {
                assert(findings[left - 1] == found@[left - 1]@);
            }
        }
        let item = if left > 0 {
            found[left - 1].clone()
        } else {
            CandidateSemantics { candidate, tier: SemanticTier::BlissOnly, evidence: Vec::new() }
        };
        proof {
            if left == 0 {
                assert(views(item.evidence@) =~= seq![]);
            }
            assert(item@ == resolved(findings, candidate));
            lemma_views_push(all@, item);
        }
        all.push(item);
        at += 1;
    }
    assert(views(all@) =~= resolved_all(findings, candidates@));
    all
}

fn pool(
    local: Vec<CandidateSemantics>,
    edges: &Vec<EvidenceEdge>,
    sources: &[TrackIdentity],
    candidates: &[CandidateIdentity],
) -> (evidence: GapEvidence)
    ensures
        evidence@ == pooled(
            views(local@),
            supported(
                candidates@,
                |candidate: CandidateIdentity| collection_support(edges@, sources@, candidate),
            ),
            candidates@,
        ),
{
    if local.len() > 0 {
        return GapEvidence {
            pool: SemanticPool::EndpointLocal,
            candidates: resolve(&local, candidates),
        };
    }
    let collection = collection_findings(edges, sources, candidates);
    let pool = if collection.len() > 0 {
        SemanticPool::CollectionFallback
    } else {
        SemanticPool::BlissOnly
    };
    proof {
        if collection@.len() == 0 {
            assert(views(collection@) =~= seq![]);
        }
    }
    GapEvidence { pool, candidates: resolve(&collection, candidates) }
}

fn collection_findings(
    edges: &Vec<EvidenceEdge>,
    sources: &[TrackIdentity],
    candidates: &[CandidateIdentity],
) -> (found: Vec<CandidateSemantics>)
    ensures
        views(found@) == supported(
            candidates@,
            |candidate: CandidateIdentity| collection_support(edges@, sources@, candidate),
        ),
{
    let ghost support = |candidate: CandidateIdentity|
        collection_support(edges@, sources@, candidate);
    let mut found: Vec<CandidateSemantics> = Vec::new();
    let mut at: usize = 0;
    assert(views(found@) =~= seq![]);
    while at < candidates.len()
        invariant
            at <= candidates@.len(),
            support == (|candidate: CandidateIdentity|
                collection_support(edges@, sources@, candidate)),
            views(found@) == supported_upto(candidates@, support, at as int),
        decreases candidates@.len() - at,
    {
        if let Some(item) = collection_candidate(edges, sources, &candidates[at]) {
            proof {
                lemma_views_push(found@, item);
            }
            found.push(item);
        }
        at += 1;
    }
    found
}

/// The evidence for the candidates between two tracks.
pub open spec fn gap_evidence(
    edges: Seq<EvidenceEdge>,
    left: TrackIdentity,
    right: TrackIdentity,
    sources: Seq<TrackIdentity>,
    candidates: Seq<CandidateIdentity>,
) -> GapEvidenceView {
    pooled(
        supported(
            candidates,
            |candidate: CandidateIdentity| local_support(edges, left, right, candidate),
        ),
        supported(
            candidates,
            |candidate: CandidateIdentity| collection_support(edges, sources, candidate),
        ),
        candidates,
    )
}

/// Finds the evidence for the candidates between two tracks.
pub fn select_gap_candidates(
    bundle: &EvidenceBundle,
    left: &TrackIdentity,
    right: &TrackIdentity,
    collection_sources: &[TrackIdentity],
    candidates: &[CandidateIdentity],
) -> (evidence: GapEvidence)
    ensures
        evidence@ == gap_evidence(
            bundle.edges@,
            *left,
            *right,
            collection_sources@,
            candidates@,
        ),
{
    let ghost support = |candidate: CandidateIdentity|
        local_support(bundle.edges@, *left, *right, candidate);
    let mut local: Vec<CandidateSemantics> = Vec::new();
    let mut at: usize = 0;
    assert(views(local@) =~= seq![]);
    while at < candidates.len()
        invariant
            at <= candidates@.len(),
            support == (|candidate: CandidateIdentity|
                local_support(bundle.edges@, *left, *right, candidate)),
            views(local@) == supported_upto(candidates@, support, at as int),
        decreases candidates@.len() - at,
    {
        if let Some(item) = local_candidate(&bundle.edges, left, right, &candidates[at]) {
            proof {
                lemma_views_push(local@, item);
            }
            local.push(item);
        }
        at += 1;
    }
    pool(local, &bundle.edges, collection_sources, candidates)
}

/// The evidence for the candidates next to one track.
pub open spec fn endpoint_evidence(
    edges: Seq<EvidenceEdge>,
    anchor: TrackIdentity,
    endpoint: SourceEndpoint,
    sources: Seq<TrackIdentity>,
    candidates: Seq<CandidateIdentity>,
) -> GapEvidenceView {
    pooled(
        supported(
            candidates,
            |candidate: CandidateIdentity| endpoint_support(edges, anchor, endpoint, candidate),
        ),
        supported(
            candidates,
            |candidate: CandidateIdentity| collection_support(edges, sources, candidate),
        ),
        candidates,
    )
}

/// Finds the evidence for the candidates next to one track.
pub fn select_endpoint_candidates(
    bundle: &EvidenceBundle,
    anchor: &TrackIdentity,
    source_endpoint: SourceEndpoint,
    collection_sources: &[TrackIdentity],
    candidates: &[CandidateIdentity],
) -> (evidence: GapEvidence)
    ensures
        evidence@ == endpoint_evidence(
            bundle.edges@,
            *anchor,
            source_endpoint,
            collection_sources@,
            candidates@,
        ),
{
    let ghost support = |candidate: CandidateIdentity|
        endpoint_support(bundle.edges@, *anchor, source_endpoint, candidate);
    let mut local: Vec<CandidateSemantics> = Vec::new();
    let mut at: usize = 0;
    assert(views(local@) =~= seq![]);
    while at < candidates.len()
        invariant
            at <= candidates@.len(),
            support == (|candidate: CandidateIdentity|
                endpoint_support(bundle.edges@, *anchor, source_endpoint, candidate)),
            views(local@) == supported_upto(candidates@, support, at as int),
        decreases candidates@.len() - at,
    {
        if let Some(item) = endpoint_candidate(
            &bundle.edges,
            anchor,
            source_endpoint,
            &candidates[at],
        ) {
            proof {
                lemma_views_push(local@, item);
            }
            local.push(item);
        }
        at += 1;
    }
    pool(local, &bundle.edges, collection_sources, candidates)
}

/// Finds the candidates that collection evidence supports.
pub fn select_collection_candidates(
    bundle: &EvidenceBundle,
    collection_sources: &[TrackIdentity],
    candidates: &[CandidateIdentity],
) -> (found: Vec<CandidateSemantics>)
    ensures
        views(found@) == supported(
            candidates@,
            |candidate: CandidateIdentity|
                collection_support(bundle.edges@, collection_sources@, candidate),
        ),
{
    collection_findings(&bundle.edges, collection_sources, candidates)
}

/// Finds the candidates that any evidence from the sources supports.
pub fn select_seed_candidates(
    bundle: &EvidenceBundle,
    collection_sources: &[TrackIdentity],
    candidates: &[CandidateIdentity],
) -> (found: Vec<CandidateSemantics>)
    ensures
        views(found@) == supported(
            candidates@,
            |candidate: CandidateIdentity|
                seed_support(bundle.edges@, collection_sources@, candidate),
        ),
{
    let ghost support = |candidate: CandidateIdentity|
        seed_support(bundle.edges@, collection_sources@, candidate);
    let mut found: Vec<CandidateSemantics> = Vec::new();
    let mut at: usize = 0;
    assert(views(found@) =~= seq![]);
    while at < candidates.len()
        invariant
            at <= candidates@.len(),
            support == (|candidate: CandidateIdentity|
                seed_support(bundle.edges@, collection_sources@, candidate)),
            views(found@) == supported_upto(candidates@, support, at as int),
        decreases candidates@.len() - at,
    {
        if let Some(item) = seed_candidate(&bundle.edges, collection_sources, &candidates[at]) {
            proof {
                lemma_views_push(found@, item);
            }
            found.push(item);
        }
        at += 1;
    }
    found
}

// Laws of selection.

proof fn lemma_resolved_candidate(found: Seq<CandidateSemanticsView>, candidate: usize, count: int)
    requires
        0 <= count <= found.len(),
    ensures
        last_finding(found, candidate, count) matches Some(finding) ==> finding.candidate
            == candidate && found.contains(finding),
    decreases count,
{
    if count > 0 {
        lemma_resolved_candidate(found, candidate, count - 1);
        assert(found.contains(found[count - 1]));
    }
}

/// Selecting evidence neither adds nor drops nor reorders candidates, and
/// collection evidence counts only where no candidate has local evidence.
pub proof fn selection_keeps_candidates(
    local: Seq<CandidateSemanticsView>,
    collection: Seq<CandidateSemanticsView>,
    candidates: Seq<CandidateIdentity>,
)
    ensures
        ({
            let selected = pooled(local, collection, candidates);
            &&& selected.candidates.len() == candidates.len()
            &&& forall|i: int|
                0 <= i < candidates.len() ==> (#[trigger] selected.candidates[i]).candidate
                    == candidates[i].candidate
            &&& (selected.pool == SemanticPool::CollectionFallback) == (local.len() == 0
                && collection.len() > 0)
            &&& local.len() > 0 ==> forall|i: int|
                0 <= i < candidates.len() ==> local.contains(#[trigger] selected.candidates[i])
                    || selected.candidates[i] == unsupported(candidates[i].candidate)
        }),
{
    let selected = pooled(local, collection, candidates);
    let nothing = Seq::<CandidateSemanticsView>::empty();
    assert forall|i: int| 0 <= i < candidates.len() implies (#[trigger] selected.candidates[i]).candidate
        == candidates[i].candidate by {
        let number = candidates[i].candidate;
        lemma_resolved_candidate(local, number, local.len() as int);
        lemma_resolved_candidate(collection, number, collection.len() as int);
        lemma_resolved_candidate(nothing, number, 0);
    }
    if local.len() > 0 {
        assert forall|i: int| 0 <= i < candidates.len() implies local.contains(
            #[trigger] selected.candidates[i],
        ) || selected.candidates[i] == unsupported(candidates[i].candidate) by {
            lemma_resolved_candidate(local, candidates[i].candidate, local.len() as int);
        }
    }
}

/// Next to a single track no candidate is ever supported from both sides.
pub proof fn one_anchor_never_supports_both_sides(
    edges: Seq<EvidenceEdge>,
    anchor: TrackIdentity,
    endpoint: SourceEndpoint,
    candidate: CandidateIdentity,
)
    ensures
        endpoint_support(edges, anchor, endpoint, candidate) matches Some(found) ==> found.tier
            != SemanticTier::RecordingBoth,
{
    lemma_endpoint_one_sided(edges, anchor, endpoint, candidate.track, edges.len() as int);
}

proof fn lemma_endpoint_one_sided(
    edges: Seq<EvidenceEdge>,
    anchor: TrackIdentity,
    endpoint: SourceEndpoint,
    track: TrackIdentity,
    count: int,
)
    ensures
        !endpoint_gathered(edges, anchor, endpoint, track, count).recording_right,
    decreases count,
{
    if count > 0 {
        lemma_endpoint_one_sided(edges, anchor, endpoint, track, count - 1);
    }
}

/// Without edges no candidate is supported.
pub proof fn no_edges_leave_bliss_only(
    left: TrackIdentity,
    right: TrackIdentity,
    sources: Seq<TrackIdentity>,
    candidates: Seq<CandidateIdentity>,
)
    ensures
        gap_evidence(seq![], left, right, sources, candidates).pool == SemanticPool::BlissOnly,
{
    lemma_no_support(
        candidates,
        |candidate: CandidateIdentity| local_support(seq![], left, right, candidate),
        candidates.len() as int,
    );
    lemma_no_support(
        candidates,
        |candidate: CandidateIdentity| collection_support(seq![], sources, candidate),
        candidates.len() as int,
    );
}

proof fn lemma_no_support(
    candidates: Seq<CandidateIdentity>,
    support: spec_fn(CandidateIdentity) -> Option<CandidateSemanticsView>,
    count: int,
)
    requires
        forall|candidate: CandidateIdentity| #[trigger] support(candidate) is None,
    ensures
        supported_upto(candidates, support, count).len() == 0,
    decreases count,
{
    if count > 0 {
        lemma_no_support(candidates, support, count - 1);
        assert(support(candidates[count - 1]) is None);
    }
}

} // verus!
