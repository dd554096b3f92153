//! Guidance from addons, its aggregation and its target shares.

use bliss_playlist_optimizer::guidance::{
    accept_manifest, accept_name, accepted_signal_count, aggregate_batch,
    refresh_prepared_diagnostic, validate_batch_signals, validate_manifest_signals,
    AddonDiagnostic, AppliedGuidanceContribution, CandidateGuidance, CandidateIndexEntry,
    CandidateWeight, GuidancePolicyEntry, GuidanceScope, GuidanceSignal, GuidanceWeights,
    Manifest, ManifestChannel, ProviderSignal, SessionState, GUIDANCE_CAP,
};
use bliss_playlist_optimizer::units::UNIT;

const ONE: i64 = UNIT as i64;

fn signal(candidate_id: &str, channel: &str, score: i64, confidence: i64) -> GuidanceSignal {
    GuidanceSignal {
        candidate_id: candidate_id.to_owned(),
        channel: channel.to_owned(),
        scope: GuidanceScope::Global,
        score,
        confidence,
        rationale: None,
    }
}

fn provided(provider_id: &str, signal: GuidanceSignal) -> ProviderSignal {
    ProviderSignal {
        provider_id: provider_id.to_owned(),
        signal,
    }
}

fn policy(
    provider_id: &str,
    channel: &str,
    weight: i64,
    target_percent: Option<u8>,
) -> GuidancePolicyEntry {
    GuidancePolicyEntry {
        provider_id: provider_id.to_owned(),
        channel: channel.to_owned(),
        weight,
        target_percent,
    }
}

fn index(candidate_id: &str, candidate: usize) -> CandidateIndexEntry {
    CandidateIndexEntry {
        candidate_id: candidate_id.to_owned(),
        candidate,
    }
}

fn supported(candidate: usize, channel: &str) -> CandidateGuidance {
    CandidateGuidance {
        candidate,
        adjustment: ONE,
        contributions: vec![AppliedGuidanceContribution {
            provider_id: "lastfm-guidance".to_owned(),
            channel: channel.to_owned(),
            scope: GuidanceScope::Global,
            signal_score: ONE,
            confidence: ONE,
            policy_weight: ONE,
            contribution: ONE,
            rationale: None,
        }],
    }
}

/// The least suitable of a pool weighs a tenth of the most suitable.
fn base_curve(pool: usize) -> Vec<u64> {
    (0..pool)
        .map(|rank| {
            let fraction = if pool > 1 {
                rank as f64 / (pool - 1) as f64
            } else {
                0.0
            };
            ((-std::f64::consts::LN_10 * fraction).exp() * UNIT as f64).round() as u64
        })
        .collect()
}

#[test]
fn disabled_host_is_neutral() {
    let weights = GuidanceWeights::from_policy(Vec::new());
    let batch = aggregate_batch(Vec::new(), &weights, &[]);
    assert!(batch.candidates.is_empty());
    assert_eq!(batch.observed, 0);
    assert_eq!(batch.applied, 0);
    assert!(batch.diagnostics.is_empty());
    assert!(!weights.is_enabled());
    assert!(!weights.has_target_shares());
    assert_eq!(accepted_signal_count(&[]), 0);
}

#[test]
fn out_of_batch_signal_is_rejected_as_a_provider_failure() {
    let candidates = ["shortlist-a".to_owned(), "shortlist-b".to_owned()];
    let error = validate_batch_signals(
        &candidates,
        vec![signal("not-in-shortlist", "playcount", ONE, ONE)],
    )
    .unwrap_err();
    assert!(error.contains("outside the score batch"));
}

#[test]
fn aggregation_combines_weighted_channels_with_a_stable_cap() {
    let signals = vec![
        provided(
            "lastfm-guidance",
            signal("bliss-row-2", "lastfm_artist", ONE / 2, ONE),
        ),
        provided(
            "lastfm-guidance",
            signal("bliss-row-2", "lastfm_track", ONE, ONE / 2),
        ),
    ];
    let weights = GuidanceWeights::from_policy(vec![
        policy("lastfm-guidance", "lastfm_track", ONE / 10 * 8, None),
        policy("lastfm-guidance", "lastfm_artist", ONE / 10 * 4, None),
    ]);
    let batch = aggregate_batch(signals, &weights, &[index("bliss-row-2", 2)]);
    assert_eq!(batch.observed, 2);
    assert_eq!(batch.applied, 2);
    assert_eq!(batch.candidates.len(), 1);
    let guided = &batch.candidates[0];
    assert_eq!(guided.candidate, 2);
    assert_eq!(guided.adjustment, ONE / 10 * 6);
    let contributions = &guided.contributions;
    assert_eq!(contributions.len(), 2);
    assert_eq!(contributions[0].provider_id, "lastfm-guidance");
    assert_eq!(contributions[0].channel, "lastfm_artist");
    assert_eq!(contributions[0].contribution, ONE / 10 * 2);
    assert_eq!(contributions[1].channel, "lastfm_track");
    assert_eq!(contributions[1].contribution, ONE / 10 * 4);
}

#[test]
fn target_share_weights_promote_supported_candidates_from_the_same_bliss_pool() {
    let weights = GuidanceWeights::from_policy(vec![policy(
        "lastfm-guidance",
        "lastfm_track",
        ONE,
        Some(75),
    )]);
    let candidate_weights = weights.target_share_weights(
        &[1, 2, 3, 4],
        &[supported(2, "lastfm_track")],
        &base_curve(4),
    );
    let one = u128::from(UNIT);
    assert_eq!(candidate_weights.len(), 4);
    assert_eq!(candidate_weights[1].candidate, 2);
    assert!(candidate_weights[1].weight > one);
    for (place, candidate) in [(0, 1), (2, 3), (3, 4)] {
        assert_eq!(
            candidate_weights[place],
            CandidateWeight {
                candidate,
                weight: one
            }
        );
    }
}

#[test]
fn zero_target_does_not_change_the_bliss_order_weight() {
    let weights = GuidanceWeights::from_policy(vec![policy(
        "lastfm-guidance",
        "lastfm_track",
        ONE,
        Some(0),
    )]);
    let one = u128::from(UNIT);
    assert_eq!(
        weights.target_share_weights(&[1, 2], &[supported(2, "lastfm_track")], &base_curve(2)),
        vec![
            CandidateWeight {
                candidate: 1,
                weight: one
            },
            CandidateWeight {
                candidate: 2,
                weight: one
            },
        ]
    );
}

#[test]
fn target_share_diagnostics_explain_supported_candidates_and_multiplier() {
    let weights = GuidanceWeights::from_policy(vec![policy(
        "lastfm-guidance",
        "lastfm_artist",
        ONE,
        Some(75),
    )]);
    let diagnostics = weights.target_share_diagnostics(
        &[1, 2, 3],
        &[supported(2, "lastfm_artist")],
        &base_curve(3),
    );
    assert_eq!(diagnostics.len(), 1);
    assert_eq!(diagnostics[0].provider_id, "lastfm-guidance");
    assert_eq!(diagnostics[0].channel, "lastfm_artist");
    assert_eq!(diagnostics[0].target_percent, 75);
    assert_eq!(diagnostics[0].supported_candidate_count, 1);
    assert!(diagnostics[0].multiplier > u128::from(UNIT));
}

#[test]
fn aggregation_uses_provider_and_channel_as_the_policy_key() {
    let weights =
        GuidanceWeights::from_policy(vec![policy("future-provider", "preference", ONE / 2, None)]);
    let batch = aggregate_batch(
        vec![provided(
            "future-provider",
            signal("bliss-row-2", "preference", ONE, ONE),
        )],
        &weights,
        &[index("bliss-row-2", 2)],
    );
    assert_eq!(batch.candidates[0].candidate, 2);
    assert_eq!(batch.candidates[0].adjustment, ONE / 2);
}

#[test]
fn refreshes_prepared_diagnostic_with_final_score_counts() {
    let mut diagnostics = vec![AddonDiagnostic {
        configured_id: "lastfm-guidance".to_owned(),
        provider_id: Some("lastfm-guidance".to_owned()),
        state: "prepared",
        message: None,
        prepared: true,
        score_batches: 0,
        returned_signals: 0,
        accepted_signals: 0,
    }];

    refresh_prepared_diagnostic(&mut diagnostics, "lastfm-guidance", 3, 12, 10);

    assert_eq!(diagnostics.len(), 1);
    assert_eq!(diagnostics[0].score_batches, 3);
    assert_eq!(diagnostics[0].returned_signals, 12);
    assert_eq!(diagnostics[0].accepted_signals, 10);
    assert_eq!(accepted_signal_count(&diagnostics), 10);
}

#[test]
fn adjustments_stay_within_the_cap() {
    let weights = GuidanceWeights::from_policy(vec![
        policy("p", "a", ONE, None),
        policy("p", "b", ONE, None),
    ]);
    let signals = |score: i64| {
        vec![
            provided("p", signal("x", "a", score, ONE)),
            provided("p", signal("x", "b", score, ONE)),
        ]
    };
    let raised = aggregate_batch(signals(ONE), &weights, &[index("x", 0)]);
    assert_eq!(raised.candidates[0].adjustment, GUIDANCE_CAP);
    let lowered = aggregate_batch(signals(-ONE), &weights, &[index("x", 0)]);
    assert_eq!(lowered.candidates[0].adjustment, -GUIDANCE_CAP);
}

#[test]
fn signals_of_any_size_are_taken() {
    let weights = GuidanceWeights::from_policy(vec![policy("p", "a", ONE, None)]);
    let wild = |score: i64| vec![provided("p", signal("x", "a", score, i64::MAX))];
    let raised = aggregate_batch(wild(i64::MAX), &weights, &[index("x", 0)]);
    assert_eq!(raised.candidates[0].adjustment, GUIDANCE_CAP);
    let lowered = aggregate_batch(wild(i64::MIN), &weights, &[index("x", 0)]);
    assert_eq!(lowered.candidates[0].adjustment, -GUIDANCE_CAP);
}

#[test]
fn a_target_gives_the_supported_candidates_their_share() {
    let weights =
        GuidanceWeights::from_policy(vec![policy("lastfm-guidance", "c", ONE, Some(50))]);
    let curve = [UNIT, UNIT / 2];
    let shares = weights.target_share_diagnostics(&[5, 6], &[supported(6, "c")], &curve);
    assert_eq!(shares[0].multiplier, 2 * u128::from(UNIT));
    let all = weights.target_share_diagnostics(
        &[5, 6],
        &[supported(5, "c"), supported(6, "c")],
        &curve,
    );
    assert_eq!(all[0].multiplier, u128::from(UNIT));
}

#[test]
fn pools_grow_until_every_target_can_be_met() {
    let weights =
        GuidanceWeights::from_policy(vec![policy("lastfm-guidance", "c", ONE, Some(50))]);
    let contributions = [supported(3, "c"), supported(4, "c")];
    let limit = |requested: usize, minimum: usize| {
        weights.target_share_minimum_pool_limit(
            &[1, 2, 3, 4, 5],
            &contributions,
            requested,
            minimum,
        )
    };
    assert_eq!(limit(2, 1), 3);
    assert_eq!(limit(4, 1), 4);
    assert_eq!(limit(6, 1), 5);
    assert_eq!(limit(2, 4), 4);
    assert_eq!(limit(0, 2), 2);
    let free = GuidanceWeights::from_policy(Vec::new());
    assert_eq!(
        free.target_share_minimum_pool_limit(&[1, 2, 3], &contributions, 3, 2),
        2
    );
}

fn manifest(spi_version: u64, protocol: &str) -> Manifest {
    Manifest {
        spi_version,
        protocol: protocol.to_owned(),
        provider_id: "p".to_owned(),
        channels: vec![ManifestChannel {
            channel: "a".to_owned(),
            scopes: vec![GuidanceScope::Global],
        }],
    }
}

#[test]
fn addons_that_break_the_protocol_are_refused() {
    assert!(accept_manifest(&manifest(1, "lines"), 1, "lines").is_ok());
    assert!(accept_manifest(&manifest(2, "lines"), 1, "lines").is_err());
    assert!(accept_manifest(&manifest(1, "other"), 1, "lines").is_err());
    assert!(accept_name("p", "p").is_ok());
    assert!(accept_name("q", "p").is_err());
    let declared = manifest(1, "lines");
    assert!(validate_manifest_signals(&declared, &[signal("x", "a", ONE, ONE)]).is_ok());
    assert!(validate_manifest_signals(&declared, &[signal("x", "b", ONE, ONE)]).is_err());
    let mut on_an_edge = signal("x", "a", ONE, ONE);
    on_an_edge.scope = GuidanceScope::Edge;
    assert!(validate_manifest_signals(&declared, &[on_an_edge]).is_err());
}

#[test]
fn sessions_count_what_addons_return() {
    let mut session = SessionState::begin("configured".to_owned());
    session.describe("p".to_owned());
    let prepared = session.prepare();
    assert_eq!(prepared.state, "prepared");
    assert!(prepared.prepared);
    let ids = ["x".to_owned(), "y".to_owned()];
    let accepted = session
        .score(
            &manifest(1, "lines"),
            &ids,
            vec![
                signal("y", "a", ONE, ONE),
                signal("x", "a", ONE, ONE),
            ],
        )
        .unwrap();
    assert_eq!(accepted.len(), 2);
    assert_eq!(accepted[0].candidate_id, "x");
    assert_eq!(session.score_batches, 1);
    assert_eq!(session.returned_signals, 2);
    assert_eq!(session.accepted_signals, 2);
    assert!(session
        .score(&manifest(1, "lines"), &ids, vec![signal("z", "a", ONE, ONE)])
        .is_err());
    let failed = session.fail("it stopped".to_owned());
    assert_eq!(failed.message.as_deref(), Some("it stopped"));
    assert!(session.disabled);
}
