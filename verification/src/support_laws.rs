//! What evidence is worth: how strong a piece of it is, what the pieces come to
//! for a candidate, and how far that moves the candidate.

use crate::semantic::{
    as_share, collection_edge, collection_gathered, collection_support, endpoint_gathered,
    endpoint_support, entity_is, gap_evidence, artist_is, last_finding, leads_to, local_gathered,
    local_support, matched, seed_endpoint, seed_gathered, seed_support, starts_from_any, strength,
    strength_is_a_share, strongest, strongest_upto, supported, supported_upto, unsupported,
    CandidateIdentity, CandidateSemanticsView, EntityKind, EvidenceEdge, EvidenceScope,
    MatchedEvidenceView, SemanticPool, SemanticTier, SourceEndpoint, TrackIdentity,
};
use crate::sorting::stable_sort_same_members;
use crate::text::ascii_lowered;
use crate::units::UNIT;
use vstd::prelude::*;

verus! {

// One piece of evidence.

/// A piece of evidence about an identity that is beyond doubt.
pub open spec fn undoubted(evidence: MatchedEvidenceView) -> MatchedEvidenceView {
    MatchedEvidenceView { identity_confidence: UNIT as i64, ..evidence }
}

/// Beyond doubt, a piece of evidence is worth its score; without a score, ten
/// over nine more than its rank, so that the first rank is worth one; and
/// without either a half.
pub proof fn undoubted_evidence_is_worth_its_score_or_rank(evidence: MatchedEvidenceView)
    requires
        evidence.identity_confidence == UNIT,
    ensures
        evidence.raw_score matches Some(score) ==> {
            &&& 0 <= score <= UNIT ==> strength(evidence) == score
            &&& score < 0 ==> strength(evidence) == 0
            &&& score > UNIT ==> strength(evidence) == UNIT
        },
        evidence.raw_score is None ==> (evidence.raw_rank matches Some(rank) ==> {
            &&& rank <= 1 ==> strength(evidence) == UNIT
            &&& rank > 1 ==> strength(evidence) * (rank + 9) <= 10 * UNIT < (strength(evidence) + 1)
                * (rank + 9)
        }),
        evidence.raw_score is None && evidence.raw_rank is None ==> 2 * strength(evidence) == UNIT,
{
    let unit = UNIT as int;
    if let Some(score) = evidence.raw_score {
        let base = as_share(score as int);
        assert(base * unit / unit == base) by (nonlinear_arith)
            requires
                unit > 0,
        ;
    } else if let Some(rank) = evidence.raw_rank {
        let places = 10 + (if rank > 0 {
            rank - 1
        } else {
            0
        });
        let base = (10 * UNIT) as int / places;
        assert(base * unit / unit == base) by (nonlinear_arith)
            requires
                unit > 0,
        ;
        assert(strength(evidence) == base);
        let whole = 10 * unit;
        assert(base * places <= whole < (base + 1) * places) by (nonlinear_arith)
            requires
                base == whole / places,
                places > 0,
        ;
        if rank > 1 {
            assert(places == rank + 9);
        } else {
            assert(base == unit) by (nonlinear_arith)
                requires
                    base * places <= whole < (base + 1) * places,
                    whole == 10 * unit,
                    places == 10,
            ;
        }
    }
}

/// A doubt about the identity takes away that share of what the piece is worth
/// beyond doubt.
pub proof fn doubt_takes_its_share(evidence: MatchedEvidenceView)
    requires
        0 <= evidence.identity_confidence <= UNIT,
    ensures
        strength(evidence) * UNIT <= strength(undoubted(evidence)) * evidence.identity_confidence
            < (strength(evidence) + 1) * UNIT,
{
    let unit = UNIT as int;
    let sure = undoubted(evidence);
    let confidence = evidence.identity_confidence as int;
    let base = strength_base(evidence);
    assert(base * unit / unit == base) by (nonlinear_arith)
        requires
            unit > 0,
    ;
    assert(strength(sure) == base);
    let product = base * confidence;
    assert(product / unit * unit <= product < (product / unit + 1) * unit) by (nonlinear_arith)
        requires
            unit > 0,
    ;
    assert(strength(evidence) == product / unit);
}

spec fn strength_base(evidence: MatchedEvidenceView) -> int {
    match evidence.raw_score {
        Some(score) => as_share(score as int),
        None => match evidence.raw_rank {
            Some(rank) => (10 * UNIT) / (10 + (if rank > 0 {
                rank - 1
            } else {
                0
            })),
            None => 500_000_000_000,
        },
    }
}

// Several pieces of evidence.

/// Whether a piece of evidence comes from Last.fm, however that is spelt, is of
/// this kind, and starts from this end, if one is asked for.
pub open spec fn speaks_of(
    evidence: MatchedEvidenceView,
    kind: EntityKind,
    endpoint: Option<SourceEndpoint>,
) -> bool {
    &&& ascii_lowered(evidence.provider) == ascii_lowered("last.fm"@)
    &&& evidence.kind == kind
    &&& endpoint is None || endpoint == Some(evidence.source_endpoint)
}

/// Whether a piece of evidence is worth this much: its strength, or half of it
/// where evidence about the collection counts half.
pub open spec fn worth(
    evidence: MatchedEvidenceView,
    halve_collection: bool,
    value: int,
) -> bool {
    if halve_collection && evidence.scope == EvidenceScope::CollectionFallback {
        2 * value == strength(evidence) || 2 * value + 1 == strength(evidence)
    } else {
        value == strength(evidence)
    }
}

proof fn lemma_strongest(
    evidence: Seq<MatchedEvidenceView>,
    kind: EntityKind,
    endpoint: Option<SourceEndpoint>,
    halve_collection: bool,
    count: int,
    at: int,
    value: int,
)
    requires
        0 <= count <= evidence.len(),
    ensures
        ({
            let found = strongest_upto(evidence, kind, endpoint, halve_collection, count);
            &&& 0 <= at < count && speaks_of(evidence[at], kind, endpoint) && worth(
                evidence[at],
                halve_collection,
                value,
            ) ==> (found matches Some(best) && value <= best)
            &&& found matches Some(best) ==> exists|i: int|
                0 <= i < count && speaks_of(#[trigger] evidence[i], kind, endpoint) && worth(
                    evidence[i],
                    halve_collection,
                    best,
                )
        }),
    decreases count,
{
    if count > 0 {
        lemma_strongest(evidence, kind, endpoint, halve_collection, count - 1, at, value);
        let item = evidence[count - 1];
        strength_is_a_share(item);
        assert(speaks_of(evidence[count - 1], kind, endpoint) == crate::semantic::counts(
            item,
            kind,
            endpoint,
        ));
        let weighed = crate::semantic::weighted(item, halve_collection);
        assert(worth(item, halve_collection, weighed));
    }
}

/// What some evidence comes to is what its strongest piece that speaks of the
/// matter is worth: no piece is worth more, and one is worth just that. It comes
/// to something exactly where a piece speaks of the matter.
pub proof fn evidence_comes_to_its_strongest_piece(
    evidence: Seq<MatchedEvidenceView>,
    kind: EntityKind,
    endpoint: Option<SourceEndpoint>,
    halve_collection: bool,
    at: int,
    value: int,
)
    ensures
        ({
            let found = strongest(evidence, kind, endpoint, halve_collection);
            &&& 0 <= at < evidence.len() && speaks_of(evidence[at], kind, endpoint) && worth(
                evidence[at],
                halve_collection,
                value,
            ) ==> (found matches Some(best) && value <= best)
            &&& found matches Some(best) ==> exists|i: int|
                0 <= i < evidence.len() && speaks_of(#[trigger] evidence[i], kind, endpoint)
                    && worth(evidence[i], halve_collection, best)
        }),
{
    lemma_strongest(
        evidence,
        kind,
        endpoint,
        halve_collection,
        evidence.len() as int,
        at,
        value,
    );
}

proof fn lemma_strongest_bounded(
    evidence: Seq<MatchedEvidenceView>,
    kind: EntityKind,
    endpoint: Option<SourceEndpoint>,
    halve_collection: bool,
)
    ensures
        strongest(evidence, kind, endpoint, halve_collection) matches Some(value) ==> 0 <= value
            <= UNIT,
{
    evidence_comes_to_its_strongest_piece(evidence, kind, endpoint, halve_collection, -1, 0);
    if let Some(best) = strongest(evidence, kind, endpoint, halve_collection) {
        let i = choose|i: int|
            0 <= i < evidence.len() && speaks_of(#[trigger] evidence[i], kind, endpoint) && worth(
                evidence[i],
                halve_collection,
                best,
            );
        strength_is_a_share(evidence[i]);
    }
}

/// The strongest piece about recordings that starts from one end.
pub open spec fn side(candidate: CandidateSemanticsView, end: SourceEndpoint) -> Option<int> {
    strongest(candidate.evidence, EntityKind::Recording, Some(end), false)
}

/// Supported from both sides, a track has the mean of the two, which lies between
/// the weaker and the stronger; from one side alone it has 0.65 of that; and from
/// none it has nothing.
pub proof fn track_support_is_the_mean_of_both_sides(candidate: CandidateSemanticsView)
    ensures
        ({
            let support = candidate.track_support();
            match (
                side(candidate, SourceEndpoint::Left),
                side(candidate, SourceEndpoint::Right),
            ) {
                (Some(left), Some(right)) => {
                    &&& left + right - 1 <= 2 * support <= left + right
                    &&& left <= support <= right || right <= support <= left
                },
                (Some(only), None) => 100 * support <= 65 * only < 100 * (support + 1),
                (None, Some(only)) => 100 * support <= 65 * only < 100 * (support + 1),
                (None, None) => support == 0,
            }
        }),
{
}

/// Evidence from a second side that is no weaker than the first never lowers the
/// support.
pub proof fn a_second_side_never_hurts(
    one_sided: CandidateSemanticsView,
    two_sided: CandidateSemanticsView,
    first: SourceEndpoint,
    second: SourceEndpoint,
)
    requires
        (first == SourceEndpoint::Left && second == SourceEndpoint::Right) || (first
            == SourceEndpoint::Right && second == SourceEndpoint::Left),
        side(one_sided, second) is None,
        side(two_sided, first) == side(one_sided, first),
        side(two_sided, first) matches Some(here) ==> (side(two_sided, second) matches Some(there)
            && there >= here),
    ensures
        two_sided.track_support() >= one_sided.track_support(),
        side(one_sided, first) matches Some(value) ==> (value >= 100 ==> two_sided.track_support()
            > one_sided.track_support()),
{
    lemma_strongest_bounded(
        one_sided.evidence,
        EntityKind::Recording,
        Some(first),
        false,
    );
    lemma_strongest_bounded(
        two_sided.evidence,
        EntityKind::Recording,
        Some(second),
        false,
    );
    track_support_is_the_mean_of_both_sides(one_sided);
    track_support_is_the_mean_of_both_sides(two_sided);
}

/// An artist has the support of the strongest piece about artists from any side,
/// where the collection counts half, and nothing without one.
pub proof fn artist_support_is_the_strongest_piece(
    candidate: CandidateSemanticsView,
    at: int,
    value: int,
)
    ensures
        ({
            let support = candidate.artist_support();
            &&& 0 <= at < candidate.evidence.len() && speaks_of(
                candidate.evidence[at],
                EntityKind::Artist,
                None,
            ) && worth(candidate.evidence[at], true, value) ==> value <= support
            &&& support == 0 || exists|i: int|
                0 <= i < candidate.evidence.len() && speaks_of(
                    #[trigger] candidate.evidence[i],
                    EntityKind::Artist,
                    None,
                ) && worth(candidate.evidence[i], true, support)
        }),
{
    evidence_comes_to_its_strongest_piece(
        candidate.evidence,
        EntityKind::Artist,
        None,
        true,
        at,
        value,
    );
}

// Guidance.

/// Guidance takes each kind of support by its percentage, at most one in all:
/// a hundred times the guidance is what the percentages take, but for what is
/// less than a unit.
pub proof fn guidance_takes_the_supports_by_their_percentages(
    candidate: CandidateSemanticsView,
    track_percent: u8,
    artist_percent: u8,
)
    ensures
        ({
            let guidance = candidate.guidance_score(track_percent, artist_percent);
            let taken = track_percent * candidate.track_support() + artist_percent
                * candidate.artist_support();
            &&& guidance <= UNIT
            &&& 100 * guidance <= taken
            &&& guidance == UNIT || taken < 100 * (guidance + 1)
        }),
        ({
            let guidance = candidate.seed_guidance_score(track_percent, artist_percent);
            let recording = strongest(candidate.evidence, EntityKind::Recording, None, false);
            let taken = track_percent * (match recording {
                Some(value) => value,
                None => 0,
            }) + artist_percent * candidate.artist_support();
            &&& guidance <= UNIT
            &&& 100 * guidance <= taken
            &&& guidance == UNIT || taken < 100 * (guidance + 1)
        }),
{
}

/// Guidance lowers a percentile by a tenth of itself, but for what is less than a
/// unit. So of two candidates with the same percentile the one with the more
/// guidance never comes later.
pub proof fn guidance_lowers_a_percentile_by_its_tenth(
    candidate: CandidateSemanticsView,
    other: CandidateSemanticsView,
    percentile: int,
    track_percent: u8,
    artist_percent: u8,
)
    ensures
        ({
            let guidance = candidate.guidance_score(track_percent, artist_percent);
            let lowered = percentile - candidate.adjusted_percentile(
                percentile,
                track_percent,
                artist_percent,
            );
            &&& 10 * lowered <= guidance < 10 * (lowered + 1)
            &&& guidance >= other.guidance_score(track_percent, artist_percent)
                ==> candidate.adjusted_percentile(percentile, track_percent, artist_percent)
                <= other.adjusted_percentile(percentile, track_percent, artist_percent)
        }),
{
}

// Which evidence a candidate has.

/// Whether an edge is local evidence that leads from a track to another.
pub open spec fn links(edge: EvidenceEdge, from: TrackIdentity, to: TrackIdentity) -> bool {
    &&& edge.scope == EvidenceScope::EndpointLocal
    &&& edge.source.kind == edge.candidate.kind
    &&& entity_is(edge.source, from)
    &&& entity_is(edge.candidate, to)
}

/// Whether one of the first `count` edges links two tracks, by a recording or by
/// an artist.
pub open spec fn linked(
    edges: Seq<EvidenceEdge>,
    from: TrackIdentity,
    to: TrackIdentity,
    recording: bool,
    count: int,
) -> bool {
    exists|i: int|
        0 <= i < count && links(#[trigger] edges[i], from, to) && (edges[i].source.kind
            == EntityKind::Recording) == recording
}

proof fn lemma_linked_step(
    edges: Seq<EvidenceEdge>,
    from: TrackIdentity,
    to: TrackIdentity,
    recording: bool,
    count: int,
)
    requires
        0 < count <= edges.len(),
    ensures
        linked(edges, from, to, recording, count) <==> linked(
            edges,
            from,
            to,
            recording,
            count - 1,
        ) || (links(edges[count - 1], from, to) && (edges[count - 1].source.kind
            == EntityKind::Recording) == recording),
{
    if linked(edges, from, to, recording, count) {
        let i = choose|i: int|
            0 <= i < count && links(#[trigger] edges[i], from, to) && (edges[i].source.kind
                == EntityKind::Recording) == recording;
        if i < count - 1 {
            assert(linked(edges, from, to, recording, count - 1));
        }
    }
    if linked(edges, from, to, recording, count - 1) {
        let i = choose|i: int|
            0 <= i < count - 1 && links(#[trigger] edges[i], from, to) && (edges[i].source.kind
                == EntityKind::Recording) == recording;
        assert(links(edges[i], from, to));
    }
}

proof fn lemma_local_flags(
    edges: Seq<EvidenceEdge>,
    left: TrackIdentity,
    right: TrackIdentity,
    track: TrackIdentity,
    count: int,
    at: int,
)
    requires
        0 <= count <= edges.len(),
    ensures
        ({
            let gathered = local_gathered(edges, left, right, track, count);
            &&& gathered.recording_left <==> linked(edges, left, track, true, count)
            &&& gathered.recording_right <==> linked(edges, right, track, true, count)
            &&& gathered.artist_local <==> linked(edges, left, track, false, count) || linked(
                edges,
                right,
                track,
                false,
                count,
            )
            &&& 0 <= at < count && links(edges[at], left, track) ==> gathered.evidence.contains(
                matched(edges[at], SourceEndpoint::Left),
            )
            &&& 0 <= at < count && links(edges[at], right, track) ==> gathered.evidence.contains(
                matched(edges[at], SourceEndpoint::Right),
            )
        }),
    decreases count,
{
    if count > 0 {
        lemma_local_flags(edges, left, right, track, count - 1, at);
        lemma_linked_step(edges, left, track, true, count);
        lemma_linked_step(edges, left, track, false, count);
        lemma_linked_step(edges, right, track, true, count);
        lemma_linked_step(edges, right, track, false, count);
        let before = local_gathered(edges, left, right, track, count - 1).evidence;
        let after = local_gathered(edges, left, right, track, count).evidence;
        let edge = edges[count - 1];
        assert(forall|i: int| 0 <= i < before.len() ==> after[i] == #[trigger] before[i]);
        assert forall|piece: MatchedEvidenceView| #[trigger] before.contains(
            piece,
        ) implies after.contains(piece) by {
            let i = choose|i: int| 0 <= i < before.len() && before[i] == piece;
            assert(after[i] == piece);
        }
        if at == count - 1 {
            if links(edge, left, track) {
                assert(after[before.len() as int] == matched(edge, SourceEndpoint::Left));
            }
            if links(edge, right, track) {
                assert(after.last() == matched(edge, SourceEndpoint::Right));
            }
        }
    }
}

/// A candidate between two tracks has local evidence exactly where an edge links
/// one of them to it. It is of the strongest tier where recordings link both to
/// it, of the next where one does, and of the third where only artists do; and it
/// holds every edge that links one of them to it, for the side it starts from.
pub proof fn local_evidence_is_of_the_links(
    edges: Seq<EvidenceEdge>,
    left: TrackIdentity,
    right: TrackIdentity,
    candidate: CandidateIdentity,
    at: int,
)
    ensures
        ({
            let found = local_support(edges, left, right, candidate);
            let count = edges.len() as int;
            let from_left = linked(edges, left, candidate.track, true, count);
            let from_right = linked(edges, right, candidate.track, true, count);
            let artists = linked(edges, left, candidate.track, false, count) || linked(
                edges,
                right,
                candidate.track,
                false,
                count,
            );
            &&& found is Some <==> from_left || from_right || artists
            &&& found matches Some(semantics) ==> {
                &&& semantics.candidate == candidate.candidate
                &&& semantics.tier == SemanticTier::RecordingBoth <==> from_left && from_right
                &&& semantics.tier == SemanticTier::RecordingOne <==> from_left != from_right
                &&& semantics.tier == SemanticTier::ArtistLocal <==> !from_left && !from_right
                &&& 0 <= at < count && links(edges[at], left, candidate.track)
                    ==> semantics.evidence.contains(matched(edges[at], SourceEndpoint::Left))
                &&& 0 <= at < count && links(edges[at], right, candidate.track)
                    ==> semantics.evidence.contains(matched(edges[at], SourceEndpoint::Right))
            }
        }),
{
    let count = edges.len() as int;
    lemma_local_flags(edges, left, right, candidate.track, count, at);
    let gathered = local_gathered(edges, left, right, candidate.track, count);
    stable_sort_same_members(gathered.evidence, crate::semantic::listing());
}

proof fn lemma_endpoint_flags(
    edges: Seq<EvidenceEdge>,
    anchor: TrackIdentity,
    endpoint: SourceEndpoint,
    track: TrackIdentity,
    count: int,
    at: int,
)
    requires
        0 <= count <= edges.len(),
    ensures
        ({
            let gathered = endpoint_gathered(edges, anchor, endpoint, track, count);
            &&& gathered.recording_left <==> linked(edges, anchor, track, true, count)
            &&& !gathered.recording_right
            &&& gathered.artist_local <==> linked(edges, anchor, track, false, count)
            &&& 0 <= at < count && links(edges[at], anchor, track) ==> gathered.evidence.contains(
                matched(edges[at], endpoint),
            )
        }),
    decreases count,
{
    if count > 0 {
        lemma_endpoint_flags(edges, anchor, endpoint, track, count - 1, at);
        lemma_linked_step(edges, anchor, track, true, count);
        lemma_linked_step(edges, anchor, track, false, count);
        let before = endpoint_gathered(edges, anchor, endpoint, track, count - 1).evidence;
        let after = endpoint_gathered(edges, anchor, endpoint, track, count).evidence;
        assert forall|piece: MatchedEvidenceView| #[trigger] before.contains(
            piece,
        ) implies after.contains(piece) by {
            let i = choose|i: int| 0 <= i < before.len() && before[i] == piece;
            assert(after[i] == piece);
        }
        if at == count - 1 && links(edges[at], anchor, track) {
            assert(after.last() == matched(edges[at], endpoint));
        }
    }
}

/// A candidate next to one track has local evidence exactly where an edge links
/// the track to it, by a recording or else by an artist.
pub proof fn evidence_at_an_end_is_of_the_links(
    edges: Seq<EvidenceEdge>,
    anchor: TrackIdentity,
    endpoint: SourceEndpoint,
    candidate: CandidateIdentity,
    at: int,
)
    ensures
        ({
            let found = endpoint_support(edges, anchor, endpoint, candidate);
            let count = edges.len() as int;
            let recording = linked(edges, anchor, candidate.track, true, count);
            let artist = linked(edges, anchor, candidate.track, false, count);
            &&& found is Some <==> recording || artist
            &&& found matches Some(semantics) ==> {
                &&& semantics.candidate == candidate.candidate
                &&& recording ==> semantics.tier == SemanticTier::RecordingOne
                &&& !recording ==> semantics.tier == SemanticTier::ArtistLocal
                &&& 0 <= at < count && links(edges[at], anchor, candidate.track)
                    ==> semantics.evidence.contains(matched(edges[at], endpoint))
            }
        }),
{
    let count = edges.len() as int;
    lemma_endpoint_flags(edges, anchor, endpoint, candidate.track, count, at);
    let gathered = endpoint_gathered(edges, anchor, endpoint, candidate.track, count);
    stable_sort_same_members(gathered.evidence, crate::semantic::listing());
}

/// Whether an edge is evidence about the collection that leads from the artist of
/// a source to the artist of a track.
pub open spec fn links_collection(
    edge: EvidenceEdge,
    sources: Seq<TrackIdentity>,
    track: TrackIdentity,
) -> bool {
    &&& edge.scope == EvidenceScope::CollectionFallback
    &&& edge.source.kind == EntityKind::Artist
    &&& edge.candidate.kind == EntityKind::Artist
    &&& exists|i: int| 0 <= i < sources.len() && entity_is(edge.source, #[trigger] sources[i])
    &&& artist_is(edge.candidate, track)
}

proof fn lemma_collection_gathered(
    edges: Seq<EvidenceEdge>,
    sources: Seq<TrackIdentity>,
    track: TrackIdentity,
    count: int,
    at: int,
)
    requires
        0 <= count <= edges.len(),
    ensures
        ({
            let gathered = collection_gathered(edges, sources, track, count).evidence;
            &&& 0 <= at < count && links_collection(edges[at], sources, track)
                ==> gathered.contains(matched(edges[at], SourceEndpoint::Collection))
            &&& gathered.len() > 0 ==> exists|i: int|
                0 <= i < count && links_collection(#[trigger] edges[i], sources, track)
        }),
    decreases count,
{
    if count > 0 {
        lemma_collection_gathered(edges, sources, track, count - 1, at);
        let before = collection_gathered(edges, sources, track, count - 1).evidence;
        let after = collection_gathered(edges, sources, track, count).evidence;
        let edge = edges[count - 1];
        assert(links_collection(edge, sources, track) == (collection_edge(edge, sources)
            && artist_is(edge.candidate, track)));
        assert forall|piece: MatchedEvidenceView| #[trigger] before.contains(
            piece,
        ) implies after.contains(piece) by {
            let i = choose|i: int| 0 <= i < before.len() && before[i] == piece;
            assert(after[i] == piece);
        }
        if links_collection(edge, sources, track) {
            assert(after.last() == matched(edge, SourceEndpoint::Collection));
        }
    }
}

/// A candidate has evidence about the collection exactly where an edge leads to
/// its artist from that of a source, and holds every such edge.
pub proof fn collection_evidence_is_of_the_artists(
    edges: Seq<EvidenceEdge>,
    sources: Seq<TrackIdentity>,
    candidate: CandidateIdentity,
    at: int,
)
    ensures
        ({
            let found = collection_support(edges, sources, candidate);
            &&& found is Some ==> exists|i: int|
                0 <= i < edges.len() && links_collection(
                    #[trigger] edges[i],
                    sources,
                    candidate.track,
                )
            &&& 0 <= at < edges.len() && links_collection(edges[at], sources, candidate.track) ==> (
            found matches Some(semantics) && semantics.evidence.contains(
                matched(edges[at], SourceEndpoint::Collection),
            ))
            &&& found matches Some(semantics) ==> semantics.tier == SemanticTier::ArtistCollection
                && semantics.candidate == candidate.candidate
        }),
{
    let count = edges.len() as int;
    lemma_collection_gathered(edges, sources, candidate.track, count, at);
    let gathered = collection_gathered(edges, sources, candidate.track, count);
    stable_sort_same_members(gathered.evidence, crate::semantic::listing());
}

proof fn lemma_supported_has(
    candidates: Seq<CandidateIdentity>,
    support: spec_fn(CandidateIdentity) -> Option<CandidateSemanticsView>,
    count: int,
    at: int,
)
    requires
        0 <= count <= candidates.len(),
        forall|i: int, j: int|
            0 <= i < j < candidates.len() ==> (#[trigger] candidates[i]).candidate != (
            #[trigger] candidates[j]).candidate,
        forall|i: int|
            0 <= i < candidates.len() ==> (support(#[trigger] candidates[i]) matches Some(found)
                ==> found.candidate == candidates[i].candidate),
        0 <= at < candidates.len(),
    ensures
        ({
            let all = supported_upto(candidates, support, count);
            &&& last_finding(all, candidates[at].candidate, all.len() as int) == if at < count {
                support(candidates[at])
            } else {
                None
            }
            &&& at < count && support(candidates[at]) is Some ==> all.len() > 0
            &&& all.len() > 0 ==> exists|i: int|
                0 <= i < count && support(#[trigger] candidates[i]) is Some
        }),
    decreases count,
{
    if count > 0 {
        lemma_supported_has(candidates, support, count - 1, at);
        let before = supported_upto(candidates, support, count - 1);
        let all = supported_upto(candidates, support, count);
        let item = candidates[count - 1];
        let wanted = candidates[at].candidate;
        if let Some(found) = support(item) {
            assert(all == before.push(found));
            lemma_last_finding_push(before, found, wanted, before.len() as int);
            if at < count - 1 {
                assert(candidates[at].candidate != candidates[count - 1].candidate);
            } else if at > count - 1 {
                assert(candidates[count - 1].candidate != candidates[at].candidate);
            }
        }
    }
}

proof fn lemma_last_finding_push(
    found: Seq<CandidateSemanticsView>,
    item: CandidateSemanticsView,
    candidate: usize,
    count: int,
)
    requires
        0 <= count <= found.len(),
    ensures
        last_finding(found.push(item), candidate, count) == last_finding(found, candidate, count),
    decreases count,
{
    if count > 0 {
        lemma_last_finding_push(found, item, candidate, count - 1);
    }
}

/// Where any candidate of a gap has local evidence, every candidate has what
/// local evidence says of it, and nothing where it says nothing; evidence about
/// the collection counts only where none has local evidence.
pub proof fn gaps_hold_the_evidence_of_their_pool(
    edges: Seq<EvidenceEdge>,
    left: TrackIdentity,
    right: TrackIdentity,
    sources: Seq<TrackIdentity>,
    candidates: Seq<CandidateIdentity>,
    at: int,
    other: int,
)
    requires
        0 <= at < candidates.len(),
        0 <= other < candidates.len(),
        forall|i: int, j: int|
            0 <= i < j < candidates.len() ==> (#[trigger] candidates[i]).candidate != (
            #[trigger] candidates[j]).candidate,
    ensures
        ({
            let gap = gap_evidence(edges, left, right, sources, candidates);
            let local = local_support(edges, left, right, candidates[at]);
            let collection = collection_support(edges, sources, candidates[at]);
            &&& gap.candidates.len() == candidates.len()
            &&& local_support(edges, left, right, candidates[other]) is Some ==> gap.pool
                == SemanticPool::EndpointLocal
            &&& gap.pool == SemanticPool::EndpointLocal ==> gap.candidates[at] == (match local {
                Some(found) => found,
                None => unsupported(candidates[at].candidate),
            })
            &&& gap.pool != SemanticPool::EndpointLocal && collection_support(
                edges,
                sources,
                candidates[other],
            ) is Some ==> gap.pool == SemanticPool::CollectionFallback
            &&& gap.pool == SemanticPool::CollectionFallback ==> local is None
                && gap.candidates[at] == (match collection {
                Some(found) => found,
                None => unsupported(candidates[at].candidate),
            })
            &&& gap.pool == SemanticPool::BlissOnly ==> local is None && collection is None
                && gap.candidates[at] == unsupported(candidates[at].candidate)
        }),
{
    let near = |candidate: CandidateIdentity| local_support(edges, left, right, candidate);
    let far = |candidate: CandidateIdentity| collection_support(edges, sources, candidate);
    let count = candidates.len() as int;
    lemma_supported_has(candidates, near, count, at);
    lemma_supported_has(candidates, far, count, at);
    lemma_supported_has(candidates, near, count, other);
    lemma_supported_has(candidates, far, count, other);
    let nothing = Seq::<CandidateSemanticsView>::empty();
    assert(last_finding(nothing, candidates[at].candidate, 0) is None);
    assert(supported(candidates, near) == supported_upto(candidates, near, count));
    assert(supported(candidates, far) == supported_upto(candidates, far, count));
}

// Evidence for growing.

/// Whether an edge leads from one of the sources to a track, from like to like.
pub open spec fn links_from_any(
    edge: EvidenceEdge,
    sources: Seq<TrackIdentity>,
    track: TrackIdentity,
) -> bool {
    &&& edge.source.kind == edge.candidate.kind
    &&& entity_is(edge.candidate, track)
    &&& exists|i: int| 0 <= i < sources.len() && entity_is(edge.source, #[trigger] sources[i])
}

proof fn lemma_seed_gathered(
    edges: Seq<EvidenceEdge>,
    sources: Seq<TrackIdentity>,
    track: TrackIdentity,
    count: int,
    at: int,
)
    requires
        0 <= count <= edges.len(),
    ensures
        ({
            let gathered = seed_gathered(edges, sources, track, count);
            &&& 0 <= at < count && links_from_any(edges[at], sources, track) ==> {
                &&& gathered.evidence.contains(matched(edges[at], seed_endpoint(edges[at].scope)))
                &&& edges[at].source.kind == EntityKind::Recording ==> gathered.recording_left
                &&& edges[at].scope == EvidenceScope::EndpointLocal ==> gathered.artist_local
            }
            &&& gathered.evidence.len() > 0 ==> exists|i: int|
                0 <= i < count && links_from_any(#[trigger] edges[i], sources, track)
            &&& gathered.recording_left ==> exists|i: int|
                0 <= i < count && links_from_any(#[trigger] edges[i], sources, track)
                    && edges[i].source.kind == EntityKind::Recording
            &&& gathered.artist_local ==> exists|i: int|
                0 <= i < count && links_from_any(#[trigger] edges[i], sources, track)
                    && edges[i].scope == EvidenceScope::EndpointLocal
        }),
    decreases count,
{
    if count > 0 {
        lemma_seed_gathered(edges, sources, track, count - 1, at);
        let before = seed_gathered(edges, sources, track, count - 1).evidence;
        let after = seed_gathered(edges, sources, track, count).evidence;
        let edge = edges[count - 1];
        assert(links_from_any(edge, sources, track) == (leads_to(edge, track) && starts_from_any(
            edge,
            sources,
            sources.len() as int,
        )));
        assert forall|piece: MatchedEvidenceView| #[trigger] before.contains(
            piece,
        ) implies after.contains(piece) by {
            let i = choose|i: int| 0 <= i < before.len() && before[i] == piece;
            assert(after[i] == piece);
        }
        if links_from_any(edge, sources, track) {
            assert(after.last() == matched(edge, seed_endpoint(edge.scope)));
        }
    }
}

/// A candidate for growing has evidence exactly where an edge leads to it from
/// one of the sources. It is of the tier of a recording where such an edge does,
/// else of a local artist where an edge is local, else of the collection.
pub proof fn evidence_for_growing_is_of_the_sources(
    edges: Seq<EvidenceEdge>,
    sources: Seq<TrackIdentity>,
    candidate: CandidateIdentity,
    at: int,
)
    ensures
        ({
            let found = seed_support(edges, sources, candidate);
            &&& 0 <= at < edges.len() && links_from_any(edges[at], sources, candidate.track) ==> (
            found matches Some(semantics) && {
                &&& semantics.evidence.contains(
                    matched(
                        edges[at],
                        if edges[at].scope == EvidenceScope::EndpointLocal {
                            SourceEndpoint::Left
                        } else {
                            SourceEndpoint::Collection
                        },
                    ),
                )
                &&& edges[at].source.kind == EntityKind::Recording ==> semantics.tier
                    == SemanticTier::RecordingOne
                &&& edges[at].scope == EvidenceScope::EndpointLocal ==> semantics.tier
                    != SemanticTier::ArtistCollection
            })
            &&& found matches Some(semantics) ==> {
                &&& semantics.candidate == candidate.candidate
                &&& semantics.tier == SemanticTier::RecordingOne ==> exists|i: int|
                    0 <= i < edges.len() && links_from_any(
                        #[trigger] edges[i],
                        sources,
                        candidate.track,
                    ) && edges[i].source.kind == EntityKind::Recording
                &&& semantics.tier == SemanticTier::RecordingOne || semantics.tier
                    == SemanticTier::ArtistLocal || semantics.tier
                    == SemanticTier::ArtistCollection
            }
            &&& found is Some ==> exists|i: int|
                0 <= i < edges.len() && links_from_any(
                    #[trigger] edges[i],
                    sources,
                    candidate.track,
                )
        }),
{
    let count = edges.len() as int;
    lemma_seed_gathered(edges, sources, candidate.track, count, at);
    let gathered = seed_gathered(edges, sources, candidate.track, count);
    stable_sort_same_members(gathered.evidence, crate::semantic::listing());
}

// Who comes first.

/// The largest confidence is that of a piece of evidence, and none is larger.
pub proof fn the_confidence_is_the_largest(candidate: CandidateSemanticsView, at: int)
    requires
        0 <= at < candidate.evidence.len(),
    ensures
        candidate.evidence[at].identity_confidence <= candidate.confidence(),
        exists|i: int|
            0 <= i < candidate.evidence.len() && (
            #[trigger] candidate.evidence[i]).identity_confidence == candidate.confidence(),
{
    lemma_confidence(candidate, candidate.evidence.len() as int, at);
}

proof fn lemma_confidence(candidate: CandidateSemanticsView, count: int, at: int)
    requires
        0 <= at < candidate.evidence.len(),
        0 <= count <= candidate.evidence.len(),
    ensures
        at < count ==> candidate.evidence[at].identity_confidence <= candidate.confidence_upto(
            count,
        ),
        count > 0 ==> exists|i: int|
            0 <= i < count && (#[trigger] candidate.evidence[i]).identity_confidence
                == candidate.confidence_upto(count),
    decreases count,
{
    if count > 0 {
        lemma_confidence(candidate, count - 1, at);
        let last = candidate.evidence[count - 1].identity_confidence;
        if candidate.confidence_upto(count) == last {
            assert(candidate.evidence[count - 1].identity_confidence == last);
        }
    }
}

/// The best rank is that of a piece of evidence, and none is smaller.
pub proof fn the_best_rank_is_the_smallest(candidate: CandidateSemanticsView, at: int)
    requires
        0 <= at < candidate.evidence.len(),
    ensures
        candidate.evidence[at].raw_rank matches Some(rank) ==> (candidate.best_rank() matches Some(
            best,
        ) && best <= rank),
        candidate.best_rank() is Some ==> exists|i: int|
            0 <= i < candidate.evidence.len() && (#[trigger] candidate.evidence[i]).raw_rank
                == candidate.best_rank(),
{
    lemma_rank(candidate, candidate.evidence.len() as int, at);
}

proof fn lemma_rank(candidate: CandidateSemanticsView, count: int, at: int)
    requires
        0 <= at < candidate.evidence.len(),
        0 <= count <= candidate.evidence.len(),
    ensures
        at < count ==> (candidate.evidence[at].raw_rank matches Some(rank) ==> (
        candidate.rank_upto(count) matches Some(best) && best <= rank)),
        candidate.rank_upto(count) is Some ==> exists|i: int|
            0 <= i < count && (#[trigger] candidate.evidence[i]).raw_rank == candidate.rank_upto(
                count,
            ),
    decreases count,
{
    if count > 0 {
        lemma_rank(candidate, count - 1, at);
        if candidate.rank_upto(count) == candidate.evidence[count - 1].raw_rank {
            assert(candidate.evidence[count - 1].raw_rank == candidate.rank_upto(count));
        }
    }
}

} // verus!
