//! Optional guidance by addons.
//!
//! An addon scores a batch of candidates. Its signals are checked against the
//! batch and against what the addon declared, weighted by the policy, and
//! summed for every candidate under a cap. An addon that fails is neutral.
//!
//! Weights, scores and confidences are fixed-point numbers in units of `UNIT`
//! to one.

use crate::sequences::{lemma_views_push, views};
use crate::sorting::{dedup, is_ranking, sort_by, stable_sort};
use crate::text::{
    in_text_order, is_text, lemma_text_order, text_around, text_around_two, text_at_most, text_in,
    text_with_number, decimal,
};
use crate::units::UNIT;
use vstd::prelude::*;

verus! {

/// The most that guidance moves a candidate either way.
pub const GUIDANCE_CAP: i64 = 750_000_000_000;

// Signals.

/// What a signal is about.
#[derive(Clone, Copy, Debug, PartialEq, Eq, Structural)]
pub enum GuidanceScope {
    Global,
    Edge,
    Other,
}

impl GuidanceScope {
    /// The name of the scope.
    pub open spec fn text(self) -> Seq<char> {
        match self {
            GuidanceScope::Global => "Global"@,
            GuidanceScope::Edge => "Edge"@,
            GuidanceScope::Other => "Other"@,
        }
    }

    /// The name of the scope.
    pub fn name(self) -> (text: &'static str)
        ensures
            text@ == self.text(),
    {
        match self {
            GuidanceScope::Global => "Global",
            GuidanceScope::Edge => "Edge",
            GuidanceScope::Other => "Other",
        }
    }
}

/// What an addon says of a candidate.
#[derive(Debug, PartialEq, Eq)]
pub struct GuidanceSignal {
    pub candidate_id: String,
    pub channel: String,
    pub scope: GuidanceScope,
    pub score: i64,
    pub confidence: i64,
    pub rationale: Option<String>,
}

/// A signal and the addon that it comes from.
#[derive(Debug, PartialEq, Eq)]
pub struct ProviderSignal {
    pub provider_id: String,
    pub signal: GuidanceSignal,
}

/// A channel that an addon declares, with its scopes.
#[derive(Debug, PartialEq, Eq)]
pub struct ManifestChannel {
    pub channel: String,
    pub scopes: Vec<GuidanceScope>,
}

/// What an addon declares.
#[derive(Debug, PartialEq, Eq)]
pub struct Manifest {
    pub spi_version: u64,
    pub protocol: String,
    pub provider_id: String,
    pub channels: Vec<ManifestChannel>,
}

// Checking a batch.

/// Whether an id is in a batch.
pub open spec fn in_batch(ids: Seq<String>, id: Seq<char>) -> bool {
    exists|i: int| 0 <= i < ids.len() && (#[trigger] ids[i])@ == id
}

fn is_in_batch(ids: &[String], id: &String) -> (found: bool)
    ensures
        found == in_batch(ids@, id@),
{
    let mut at: usize = 0;
    while at < ids.len()
        invariant
            at <= ids@.len(),
            forall|i: int| 0 <= i < at ==> (#[trigger] ids@[i])@ != id@,
        decreases ids@.len() - at,
    {
        if ids[at] == *id {
            return true;
        }
        at += 1;
    }
    false
}

/// The first signal at or after `at` for a candidate outside a batch, or their
/// number.
pub open spec fn first_stray(ids: Seq<String>, signals: Seq<GuidanceSignal>, at: int) -> int
    decreases signals.len() - at,
{
    if at >= signals.len() {
        signals.len() as int
    } else if !in_batch(ids, signals[at].candidate_id@) {
        at
    } else {
        first_stray(ids, signals, at + 1)
    }
}

/// Those of the first `count` signals that are about a track or a transition.
pub open spec fn usable_signals(signals: Seq<GuidanceSignal>, count: int) -> Seq<GuidanceSignal>
    decreases count,
{
    if count <= 0 {
        seq![]
    } else {
        let before = usable_signals(signals, count - 1);
        if signals[count - 1].scope == GuidanceScope::Global || signals[count - 1].scope
            == GuidanceScope::Edge {
            before.push(signals[count - 1])
        } else {
            before
        }
    }
}

/// Whether one pair of texts comes no later than another.
pub open spec fn pair_at_most(
    first: Seq<char>,
    second: Seq<char>,
    other_first: Seq<char>,
    other_second: Seq<char>,
) -> bool {
    if first != other_first {
        text_at_most(first, other_first)
    } else {
        text_at_most(second, other_second)
    }
}

proof fn lemma_pair_order(
    a: (Seq<char>, Seq<char>),
    b: (Seq<char>, Seq<char>),
    c: (Seq<char>, Seq<char>),
)
    ensures
        pair_at_most(a.0, a.1, b.0, b.1) || pair_at_most(b.0, b.1, a.0, a.1),
        pair_at_most(a.0, a.1, b.0, b.1) && pair_at_most(b.0, b.1, c.0, c.1) ==> pair_at_most(
            a.0,
            a.1,
            c.0,
            c.1,
        ),
        pair_at_most(a.0, a.1, b.0, b.1) && pair_at_most(b.0, b.1, a.0, a.1) ==> a == b,
{
    lemma_text_order(a.0, b.0, c.0);
    lemma_text_order(b.0, a.0, c.0);
    lemma_text_order(b.0, c.0, a.0);
    lemma_text_order(c.0, a.0, b.0);
    lemma_text_order(a.1, b.1, c.1);
    lemma_text_order(b.1, a.1, c.1);
}

fn pair_in_order(first: &str, second: &str, other_first: &str, other_second: &str) -> (ordered:
    bool)
    ensures
        ordered == pair_at_most(first@, second@, other_first@, other_second@),
{
    if !is_text(first, other_first) {
        in_text_order(first, other_first)
    } else {
        in_text_order(second, other_second)
    }
}

/// Signals by candidate and channel.
pub open spec fn by_candidate() -> spec_fn(GuidanceSignal, GuidanceSignal) -> bool {
    |a: GuidanceSignal, b: GuidanceSignal|
        pair_at_most(a.candidate_id@, a.channel@, b.candidate_id@, b.channel@)
}

/// The text of the error for a signal outside its batch.
pub open spec fn stray_text(id: Seq<char>) -> Seq<char> {
    "guidance addon returned candidate '"@ + id + "' outside the score batch"@
}

/// Checks the signals for a batch: how many came, and the usable ones in order,
/// or why the addon failed.
pub fn validate_batch_signals(
    candidate_ids: &[String],
    signals: Vec<GuidanceSignal>,
) -> (checked: Result<(u64, Vec<GuidanceSignal>), String>)
    ensures
        ({
            let stray = first_stray(candidate_ids@, signals@, 0);
            if stray < signals@.len() {
                checked matches Err(message) && message@ == stray_text(
                    signals@[stray].candidate_id@,
                )
            } else {
                checked matches Ok((returned, accepted)) && returned == signals@.len()
                    && accepted@ == stable_sort(
                    usable_signals(signals@, signals@.len() as int),
                    by_candidate(),
                )
            }
        }),
{
    let returned: u64 = signals.len() as u64;
    let mut at: usize = 0;
    while at < signals.len()
        invariant
            at <= signals@.len(),
            first_stray(candidate_ids@, signals@, 0) == first_stray(
                candidate_ids@,
                signals@,
                at as int,
            ),
        decreases signals@.len() - at,
    {
        if !is_in_batch(candidate_ids, &signals[at].candidate_id) {
            return Err(
                text_around(
                    "guidance addon returned candidate '",
                    signals[at].candidate_id.as_str(),
                    "' outside the score batch",
                ),
            );
        }
        at += 1;
    }
    let ghost all = signals@;
    let mut rest = crate::sorting::reversed(signals);
    let mut usable: Vec<GuidanceSignal> = Vec::new();
    while rest.len() > 0
        invariant
            rest@.len() <= all.len(),
            rest@.reverse() =~= all.skip(all.len() - rest@.len()),
            usable@ == usable_signals(all, all.len() - rest@.len()),
        decreases rest@.len(),
    {
        let ghost before = rest@;
        let ghost done = all.len() - rest@.len();
        let signal = rest.pop().unwrap();
        proof {
            assert(before.reverse()[0] == all.skip(done)[0]);
            assert(rest@.reverse() =~= all.skip(done + 1)) by {
                assert forall|i: int| 0 <= i < rest@.len() implies rest@.reverse()[i]
                    == #[trigger] all.skip(done + 1)[i] by {
                    assert(rest@.reverse()[i] == before.reverse()[i + 1]);
                    assert(before.reverse()[i + 1] == all.skip(done)[i + 1]);
                }
            }
        }
        if signal.scope == GuidanceScope::Global || signal.scope == GuidanceScope::Edge {
            usable.push(signal);
        }
    }
    let leq = |a: &GuidanceSignal, b: &GuidanceSignal| -> (first: bool)
        ensures
            first == by_candidate()(*a, *b),
        {
            pair_in_order(
                a.candidate_id.as_str(),
                a.channel.as_str(),
                b.candidate_id.as_str(),
                b.channel.as_str(),
            )
        };
    proof {
        let order = by_candidate();
        assert forall|a: GuidanceSignal, b: GuidanceSignal| #[trigger]
            order(a, b) || order(b, a) by {
            let (x, y) = ((a.candidate_id@, a.channel@), (b.candidate_id@, b.channel@));
            lemma_pair_order(x, y, y);
        }
        assert forall|a: GuidanceSignal, b: GuidanceSignal, c: GuidanceSignal| #[trigger]
            order(a, b) && #[trigger] order(b, c) implies order(a, c) by {
            lemma_pair_order(
                (a.candidate_id@, a.channel@),
                (b.candidate_id@, b.channel@),
                (c.candidate_id@, c.channel@),
            );
        }
    }
    Ok((returned, sort_by(usable, &leq, Ghost(by_candidate()))))
}

// Checking against the manifest.

/// The first channel at or after `at` with a name, or their number.
pub open spec fn channel_at(channels: Seq<ManifestChannel>, name: Seq<char>, at: int) -> int
    decreases channels.len() - at,
{
    if at >= channels.len() {
        channels.len() as int
    } else if channels[at].channel@ == name {
        at
    } else {
        channel_at(channels, name, at + 1)
    }
}

/// Why a signal does not fit a manifest, if so.
pub open spec fn undeclared(manifest: Manifest, signal: GuidanceSignal) -> Option<Seq<char>> {
    let at = channel_at(manifest.channels@, signal.channel@, 0);
    if at >= manifest.channels@.len() {
        Some("guidance addon returned undeclared channel '"@ + signal.channel@ + "'"@)
    } else if !manifest.channels@[at].scopes@.contains(signal.scope) {
        Some(
            "guidance addon returned channel '"@ + signal.channel@ + "' for undeclared scope "@
                + signal.scope.text() + ""@,
        )
    } else {
        None
    }
}

/// Why the signals from `at` on do not fit a manifest, if so.
pub open spec fn first_undeclared(
    manifest: Manifest,
    signals: Seq<GuidanceSignal>,
    at: int,
) -> Option<Seq<char>>
    decreases signals.len() - at,
{
    if at >= signals.len() {
        None
    } else if undeclared(manifest, signals[at]) is Some {
        undeclared(manifest, signals[at])
    } else {
        first_undeclared(manifest, signals, at + 1)
    }
}

fn find_channel(manifest: &Manifest, name: &String) -> (found: Option<usize>)
    ensures
        match found {
            Some(at) => at == channel_at(manifest.channels@, name@, 0) && at
                < manifest.channels@.len(),
            None => channel_at(manifest.channels@, name@, 0) == manifest.channels@.len(),
        },
{
    let mut at: usize = 0;
    while at < manifest.channels.len()
        invariant
            at <= manifest.channels@.len(),
            channel_at(manifest.channels@, name@, 0) == channel_at(
                manifest.channels@,
                name@,
                at as int,
            ),
        decreases manifest.channels@.len() - at,
    {
        if manifest.channels[at].channel == *name {
            return Some(at);
        }
        at += 1;
    }
    None
}

fn has_scope(scopes: &Vec<GuidanceScope>, scope: GuidanceScope) -> (found: bool)
    ensures
        found == scopes@.contains(scope),
{
    let mut at: usize = 0;
    while at < scopes.len()
        invariant
            at <= scopes@.len(),
            forall|i: int| 0 <= i < at ==> scopes@[i] != scope,
        decreases scopes@.len() - at,
    {
        if scopes[at] == scope {
            return true;
        }
        at += 1;
    }
    false
}

/// Checks signals against what their addon declared.
pub fn validate_manifest_signals(manifest: &Manifest, signals: &[GuidanceSignal]) -> (checked:
    Result<(), String>)
    ensures
        match first_undeclared(*manifest, signals@, 0) {
            None => checked is Ok,
            Some(text) => checked is Err && checked->Err_0@ == text,
        },
{
    let mut at: usize = 0;
    while at < signals.len()
        invariant
            at <= signals@.len(),
            first_undeclared(*manifest, signals@, 0) == first_undeclared(
                *manifest,
                signals@,
                at as int,
            ),
        decreases signals@.len() - at,
    {
        let signal = &signals[at];
        match find_channel(manifest, &signal.channel) {
            None => {
                return Err(
                    text_around(
                        "guidance addon returned undeclared channel '",
                        signal.channel.as_str(),
                        "'",
                    ),
                );
            },
            Some(index) => {
                if !has_scope(&manifest.channels[index].scopes, signal.scope) {
                    return Err(
                        text_around_two(
                            "guidance addon returned channel '",
                            signal.channel.as_str(),
                            "' for undeclared scope ",
                            signal.scope.name(),
                            "",
                        ),
                    );
                }
            },
        }
        at += 1;
    }
    Ok(())
}

// Policy.

/// How much a channel of an addon counts, and the share of the tracks that it
/// should support.
#[derive(Debug, PartialEq, Eq)]
pub struct GuidancePolicyEntry {
    pub provider_id: String,
    pub channel: String,
    pub weight: i64,
    pub target_percent: Option<u8>,
}

/// A weight between minus one and one.
pub open spec fn clamped(weight: int, limit: int) -> int {
    if weight < -limit {
        -limit
    } else if weight > limit {
        limit
    } else {
        weight
    }
}

/// The weight of a channel under the first `count` entries: the last one for it
/// decides.
pub open spec fn weight_upto(
    policy: Seq<GuidancePolicyEntry>,
    provider: Seq<char>,
    channel: Seq<char>,
    count: int,
) -> int
    decreases count,
{
    if count <= 0 {
        0
    } else if policy[count - 1].provider_id@ == provider && policy[count - 1].channel@ == channel {
        clamped(policy[count - 1].weight as int, UNIT as int)
    } else {
        weight_upto(policy, provider, channel, count - 1)
    }
}

/// A channel with a target share.
#[verifier::ext_equal]
pub struct TargetView {
    pub provider: Seq<char>,
    pub channel: Seq<char>,
    pub percent: u8,
}

/// A channel with a target share.
#[derive(Debug, PartialEq, Eq)]
pub struct Target {
    pub provider: String,
    pub channel: String,
    pub percent: u8,
}

impl View for Target {
    type V = TargetView;

    open spec fn view(&self) -> TargetView {
        TargetView { provider: self.provider@, channel: self.channel@, percent: self.percent }
    }
}

/// The targets of the first `count` entries, the last one first.
pub open spec fn targets_upto(policy: Seq<GuidancePolicyEntry>, count: int) -> Seq<TargetView>
    decreases count,
{
    if count <= 0 {
        seq![]
    } else {
        let before = targets_upto(policy, count - 1);
        let entry = policy[count - 1];
        match entry.target_percent {
            Some(percent) => if percent > 0 {
                seq![
                    TargetView {
                        provider: entry.provider_id@,
                        channel: entry.channel@,
                        percent,
                    },
                ] + before
            } else {
                before
            },
            None => before,
        }
    }
}

/// Targets by addon and channel.
pub open spec fn by_channel() -> spec_fn(TargetView, TargetView) -> bool {
    |a: TargetView, b: TargetView| pair_at_most(a.provider, a.channel, b.provider, b.channel)
}

/// Whether two targets are for the same channel.
pub open spec fn same_channel() -> spec_fn(TargetView, TargetView) -> bool {
    |a: TargetView, b: TargetView| a.provider == b.provider && a.channel == b.channel
}

/// The target of every channel that has one, in order: the last entry for a
/// channel decides.
pub open spec fn targets_of(policy: Seq<GuidancePolicyEntry>) -> Seq<TargetView> {
    dedup(stable_sort(targets_upto(policy, policy.len() as int), by_channel()), same_channel())
}

/// The weights and target shares of a policy.
pub struct GuidanceWeights {
    policy: Vec<GuidancePolicyEntry>,
    targets: Vec<Target>,
}

impl GuidanceWeights {
    /// The policy.
    pub closed spec fn policy(&self) -> Seq<GuidancePolicyEntry> {
        self.policy@
    }

    #[verifier::type_invariant]
    spec fn targets_fit(&self) -> bool {
        views(self.targets@) == targets_of(self.policy@)
    }

    /// The weights and target shares of a policy.
    pub fn from_policy(policy: Vec<GuidancePolicyEntry>) -> (weights: Self)
        ensures
            weights.policy() == policy@,
    {
        let mut found: Vec<Target> = Vec::new();
        let mut left: usize = policy.len();
        assert(views(found@) + targets_upto(policy@, left as int) =~= targets_upto(
            policy@,
            policy@.len() as int,
        ));
        while left > 0
            invariant
                left <= policy@.len(),
                views(found@) + targets_upto(policy@, left as int) == targets_upto(
                    policy@,
                    policy@.len() as int,
                ),
            decreases left,
        {
            let entry = &policy[left - 1];
            if let Some(percent) = entry.target_percent {
                if percent > 0 {
                    let target = Target {
                        provider: entry.provider_id.clone(),
                        channel: entry.channel.clone(),
                        percent,
                    };
                    proof {
                        lemma_views_push(found@, target);
                        let rest = targets_upto(policy@, left - 1);
                        assert(views(found@).push(target@) + rest =~= views(found@) + (seq![
                            target@,
                        ] + rest));
                    }
                    found.push(target);
                }
            }
            left -= 1;
        }
        assert(views(found@) + targets_upto(policy@, 0) =~= views(found@));
        let leq = |a: &Target, b: &Target| -> (first: bool)
            ensures
                first == by_channel()(a@, b@),
            {
                pair_in_order(
                    a.provider.as_str(),
                    a.channel.as_str(),
                    b.provider.as_str(),
                    b.channel.as_str(),
                )
            };
        proof {
            let order = by_channel();
            assert forall|a: TargetView, b: TargetView| #[trigger] order(a, b) || order(b, a) by {
                lemma_pair_order(
                    (a.provider, a.channel),
                    (b.provider, b.channel),
                    (b.provider, b.channel),
                );
            }
            assert forall|a: TargetView, b: TargetView, c: TargetView| #[trigger] order(a, b)
                && #[trigger] order(b, c) implies order(a, c) by {
                lemma_pair_order(
                    (a.provider, a.channel),
                    (b.provider, b.channel),
                    (c.provider, c.channel),
                );
            }
        }
        let sorted = crate::sorting::sort_views(found, &leq, Ghost(by_channel()));
        let is_same = |a: &Target, b: &Target| -> (same: bool)
            ensures
                same == same_channel()(a@, b@),
            { a.provider == b.provider && a.channel == b.channel };
        let targets = crate::sorting::dedup_views(sorted, &is_same, Ghost(same_channel()));
        GuidanceWeights { policy, targets }
    }

    /// The weight of a channel.
    pub fn weight(&self, provider_id: &str, channel: &str) -> (weight: i64)
        ensures
            weight == weight_upto(
                self.policy(),
                provider_id@,
                channel@,
                self.policy().len() as int,
            ),
            -(UNIT as int) <= weight <= UNIT,
    {
        let mut left: usize = self.policy.len();
        while left > 0
            invariant
                left <= self.policy@.len(),
                weight_upto(self.policy@, provider_id@, channel@, self.policy@.len() as int)
                    == weight_upto(self.policy@, provider_id@, channel@, left as int),
            decreases left,
        {
            let entry = &self.policy[left - 1];
            if is_text(entry.provider_id.as_str(), provider_id) && is_text(
                entry.channel.as_str(),
                channel,
            ) {
                let limit: i64 = UNIT as i64;
                return if entry.weight < -limit {
                    -limit
                } else if entry.weight > limit {
                    limit
                } else {
                    entry.weight
                };
            }
            left -= 1;
        }
        0
    }

    /// Whether any channel counts.
    pub fn is_enabled(&self) -> (enabled: bool)
        ensures
            enabled == exists|i: int|
                0 <= i < self.policy().len() && weight_upto(
                    self.policy(),
                    (#[trigger] self.policy()[i]).provider_id@,
                    self.policy()[i].channel@,
                    self.policy().len() as int,
                ) != 0,
    {
        let mut at: usize = 0;
        while at < self.policy.len()
            invariant
                at <= self.policy@.len(),
                self.policy@ == self.policy(),
                forall|i: int|
                    0 <= i < at ==> weight_upto(
                        self.policy(),
                        (#[trigger] self.policy()[i]).provider_id@,
                        self.policy()[i].channel@,
                        self.policy().len() as int,
                    ) == 0,
            decreases self.policy@.len() - at,
        {
            let entry = &self.policy[at];
            if self.weight(entry.provider_id.as_str(), entry.channel.as_str()) != 0 {
                assert(self.policy()[at as int] == *entry);
                return true;
            }
            at += 1;
        }
        false
    }

    /// Whether any channel has a target share.
    pub fn has_target_shares(&self) -> (some: bool)
        ensures
            some == (targets_of(self.policy()).len() > 0),
    {
        proof {
            use_type_invariant(self);
        }
        self.targets.len() > 0
    }
}

// Contributions.

/// A signal that survived weighting and moved a candidate.
#[verifier::ext_equal]
pub struct ContributionView {
    pub provider_id: Seq<char>,
    pub channel: Seq<char>,
    pub scope: GuidanceScope,
    pub signal_score: i64,
    pub confidence: i64,
    pub policy_weight: i64,
    pub contribution: i64,
    pub rationale: Option<Seq<char>>,
}

/// A signal that survived weighting and moved a candidate that qualified
/// acoustically. It explains a selection without the addon's own logic.
#[derive(Debug, PartialEq, Eq)]
pub struct AppliedGuidanceContribution {
    pub provider_id: String,
    pub channel: String,
    pub scope: GuidanceScope,
    pub signal_score: i64,
    pub confidence: i64,
    pub policy_weight: i64,
    pub contribution: i64,
    pub rationale: Option<String>,
}

impl View for AppliedGuidanceContribution {
    type V = ContributionView;

    open spec fn view(&self) -> ContributionView {
        ContributionView {
            provider_id: self.provider_id@,
            channel: self.channel@,
            scope: self.scope,
            signal_score: self.signal_score,
            confidence: self.confidence,
            policy_weight: self.policy_weight,
            contribution: self.contribution,
            rationale: text_in(self.rationale),
        }
    }
}

/// The size of a number.
pub open spec fn size_of_number(value: int) -> int {
    if value < 0 {
        -value
    } else {
        value
    }
}

/// The product of three fixed-point numbers, rounded to the nearest unit.
pub open spec fn scaled_product(a: int, b: int, c: int) -> int {
    let square = UNIT * UNIT;
    let size = (size_of_number(a) * size_of_number(b) * size_of_number(c) + square / 2) / square;
    if ((a < 0) != (b < 0)) != (c < 0) {
        -size
    } else {
        size
    }
}

/// The largest contribution of one signal, a hundred to either side.
pub const LARGEST_CONTRIBUTION: i64 = 100_000_000_000_000;

/// What a signal with a score and a confidence contributes under a weight. No
/// signal counts for more than the largest contribution.
pub open spec fn contribution_of(weight: int, score: int, confidence: int) -> int {
    let product = scaled_product(weight, score, confidence);
    if product > LARGEST_CONTRIBUTION {
        LARGEST_CONTRIBUTION as int
    } else if product < -LARGEST_CONTRIBUTION {
        -LARGEST_CONTRIBUTION
    } else {
        product
    }
}

/// A signal with a score between minus one and one and a confidence between zero
/// and one contributes the whole product of its weight, score and confidence,
/// for weights up to the largest contribution.
pub proof fn ordinary_signals_contribute_in_full(weight: int, score: int, confidence: int)
    requires
        -LARGEST_CONTRIBUTION <= weight <= LARGEST_CONTRIBUTION,
        -(UNIT as int) <= score <= UNIT,
        0 <= confidence <= UNIT,
    ensures
        contribution_of(weight, score, confidence) == scaled_product(weight, score, confidence),
{
    let square = UNIT * UNIT;
    let a = size_of_number(weight);
    let b = size_of_number(score);
    let c = size_of_number(confidence);
    assert(square == 1_000_000_000_000_000_000_000_000int) by (nonlinear_arith)
        requires
            square == UNIT * UNIT,
            UNIT == 1_000_000_000_000,
    ;
    assert(0 <= b * c <= square) by (nonlinear_arith)
        requires
            0 <= b <= UNIT,
            0 <= c <= UNIT,
            square == UNIT * UNIT,
    ;
    assert(0 <= a * b * c <= a * square) by (nonlinear_arith)
        requires
            0 <= a,
            0 <= b * c <= square,
    ;
    let size = (a * b * c + square / 2) / square;
    assert(size <= a) by (nonlinear_arith)
        requires
            size == (a * b * c + square / 2) / square,
            a * b * c <= a * square,
            square == 1_000_000_000_000_000_000_000_000int,
    ;
}

fn size_of_units(value: i64) -> (size: u128)
    ensures
        size == size_of_number(value as int),
        size <= 0x8000_0000_0000_0000,
{
    if value < 0 {
        (-(value as i128)) as u128
    } else {
        value as u128
    }
}

/// The largest product that is computed: the largest contribution times the
/// square of a unit.
const LARGEST_PRODUCT: u128 = 100_000_000_000_000_000_000_000_000_000_000_000_000;

/// The square of a unit.
const SQUARE: u128 = 1_000_000_000_000_000_000_000_000;

fn contribute(weight: i64, score: i64, confidence: i64) -> (contribution: i64)
    requires
        -(UNIT as int) <= weight <= UNIT,
    ensures
        contribution == contribution_of(weight as int, score as int, confidence as int),
        -LARGEST_CONTRIBUTION <= contribution <= LARGEST_CONTRIBUTION,
{
    let x: u128 = size_of_units(weight);
    let y: u128 = size_of_units(score);
    let z: u128 = size_of_units(confidence);
    assert(UNIT * UNIT == SQUARE) by (nonlinear_arith)
        requires
            UNIT == 1_000_000_000_000,
            SQUARE == 1_000_000_000_000_000_000_000_000,
    ;
    assert(0 <= x * y <= 0x8000_0000_0000_0000 * 1_000_000_000_000) by (nonlinear_arith)
        requires
            0 <= x <= 1_000_000_000_000,
            0 <= y <= 0x8000_0000_0000_0000,
    ;
    let part: u128 = x * y;
    let size: i64 = if z > 0 && part > LARGEST_PRODUCT / z {
        assert(part * z > LARGEST_PRODUCT) by (nonlinear_arith)
            requires
                0 < z,
                part > LARGEST_PRODUCT / z,
        ;
        LARGEST_CONTRIBUTION
    } else {
        assert(0 <= part * z <= LARGEST_PRODUCT) by (nonlinear_arith)
            requires
                0 <= z,
                0 <= part,
                z > 0 ==> part <= LARGEST_PRODUCT / z,
        ;
        ((part * z + SQUARE / 2) / SQUARE) as i64
    };
    let flipped: bool = (weight < 0) != (score < 0);
    if flipped != (confidence < 0) {
        -size
    } else {
        size
    }
}

/// Signals by addon, candidate and channel.
pub open spec fn by_provider() -> spec_fn(ProviderSignal, ProviderSignal) -> bool {
    |a: ProviderSignal, b: ProviderSignal|
        if a.provider_id@ != b.provider_id@ {
            text_at_most(a.provider_id@, b.provider_id@)
        } else {
            by_candidate()(a.signal, b.signal)
        }
}

/// A candidate of a batch and the id that it goes by.
#[derive(Debug, PartialEq, Eq)]
pub struct CandidateIndexEntry {
    pub candidate_id: String,
    pub candidate: usize,
}

/// The candidate with an id among the first `count` entries, the last one for
/// it.
pub open spec fn indexed_upto(
    index: Seq<CandidateIndexEntry>,
    id: Seq<char>,
    count: int,
) -> Option<usize>
    decreases count,
{
    if count <= 0 {
        None
    } else if index[count - 1].candidate_id@ == id {
        Some(index[count - 1].candidate)
    } else {
        indexed_upto(index, id, count - 1)
    }
}

fn find_candidate(index: &[CandidateIndexEntry], id: &String) -> (found: Option<usize>)
    ensures
        found == indexed_upto(index@, id@, index@.len() as int),
{
    let mut left: usize = index.len();
    while left > 0
        invariant
            left <= index@.len(),
            indexed_upto(index@, id@, index@.len() as int) == indexed_upto(
                index@,
                id@,
                left as int,
            ),
        decreases left,
    {
        if index[left - 1].candidate_id == *id {
            return Some(index[left - 1].candidate);
        }
        left -= 1;
    }
    None
}

/// The contributions of the first `count` signals, each with its candidate.
/// Signals for unknown candidates and those that move nothing contribute
/// nothing.
pub open spec fn applied_upto(
    signals: Seq<ProviderSignal>,
    policy: Seq<GuidancePolicyEntry>,
    index: Seq<CandidateIndexEntry>,
    count: int,
) -> Seq<(usize, ContributionView)>
    decreases count,
{
    if count <= 0 {
        seq![]
    } else {
        let before = applied_upto(signals, policy, index, count - 1);
        let provider = signals[count - 1].provider_id@;
        let signal = signals[count - 1].signal;
        match indexed_upto(index, signal.candidate_id@, index.len() as int) {
            None => before,
            Some(candidate) => {
                let weight = weight_upto(policy, provider, signal.channel@, policy.len() as int);
                let contribution = contribution_of(
                    weight,
                    signal.score as int,
                    signal.confidence as int,
                );
                if contribution == 0 {
                    before
                } else {
                    before.push(
                        (
                            candidate,
                            ContributionView {
                                provider_id: provider,
                                channel: signal.channel@,
                                scope: signal.scope,
                                signal_score: signal.score,
                                confidence: signal.confidence,
                                policy_weight: weight as i64,
                                contribution: contribution as i64,
                                rationale: text_in(signal.rationale),
                            },
                        ),
                    )
                }
            },
        }
    }
}

/// The contributions to one candidate among the first `count`.
pub open spec fn contributions_to(
    applied: Seq<(usize, ContributionView)>,
    candidate: usize,
    count: int,
) -> Seq<ContributionView>
    decreases count,
{
    if count <= 0 {
        seq![]
    } else if applied[count - 1].0 == candidate {
        contributions_to(applied, candidate, count - 1).push(applied[count - 1].1)
    } else {
        contributions_to(applied, candidate, count - 1)
    }
}

/// The sum of the first `count` contributions.
pub open spec fn contribution_sum(items: Seq<ContributionView>, count: int) -> int
    decreases count,
{
    if count <= 0 {
        0
    } else {
        contribution_sum(items, count - 1) + items[count - 1].contribution
    }
}

/// What guidance comes to for one candidate.
#[derive(Debug, PartialEq, Eq)]
pub struct CandidateGuidance {
    pub candidate: usize,
    pub adjustment: i64,
    pub contributions: Vec<AppliedGuidanceContribution>,
}

/// Whether the entry for a candidate holds all its contributions and their
/// capped sum.
pub open spec fn holds_contributions(
    entry: CandidateGuidance,
    applied: Seq<(usize, ContributionView)>,
) -> bool {
    let items = contributions_to(applied, entry.candidate, applied.len() as int);
    &&& items.len() > 0
    &&& views(entry.contributions@) == items
    &&& entry.adjustment == clamped(
        contribution_sum(items, items.len() as int),
        GUIDANCE_CAP as int,
    )
}

/// Whether entries are ordered by candidate, each once.
pub open spec fn candidates_ascend(entries: Seq<CandidateGuidance>) -> bool {
    forall|i: int, j: int|
        0 <= i < j < entries.len() ==> (#[trigger] entries[i]).candidate < (
        #[trigger] entries[j]).candidate
}

/// Whether entries hold exactly what was applied.
pub open spec fn holds_applied(
    entries: Seq<CandidateGuidance>,
    applied: Seq<(usize, ContributionView)>,
) -> bool {
    &&& candidates_ascend(entries)
    &&& forall|i: int|
        0 <= i < entries.len() ==> holds_contributions(#[trigger] entries[i], applied)
    &&& forall|k: int|
        0 <= k < applied.len() ==> has_entry(entries, (#[trigger] applied[k]).0)
}

/// Whether there is an entry for a candidate.
pub open spec fn has_entry(entries: Seq<CandidateGuidance>, candidate: usize) -> bool {
    exists|i: int| 0 <= i < entries.len() && (#[trigger] entries[i]).candidate == candidate
}

/// What a batch comes to, and what became of the addons that were asked.
#[derive(Debug, PartialEq, Eq)]
pub struct GuidanceBatch {
    pub candidates: Vec<CandidateGuidance>,
    pub observed: u64,
    pub applied: u64,
    pub diagnostics: Vec<AddonDiagnostic>,
}

struct Tally {
    candidate: usize,
    sum: i128,
    contributions: Vec<AppliedGuidanceContribution>,
}

spec fn tally_holds(tally: Tally, applied: Seq<(usize, ContributionView)>) -> bool {
    let items = contributions_to(applied, tally.candidate, applied.len() as int);
    &&& items.len() > 0
    &&& views(tally.contributions@) == items
    &&& tally.sum == contribution_sum(items, items.len() as int)
}

spec fn tallies_hold(tallies: Seq<Tally>, applied: Seq<(usize, ContributionView)>) -> bool {
    &&& forall|i: int, j: int|
        0 <= i < j < tallies.len() ==> (#[trigger] tallies[i]).candidate < (
        #[trigger] tallies[j]).candidate
    &&& forall|i: int| 0 <= i < tallies.len() ==> tally_holds(#[trigger] tallies[i], applied)
    &&& forall|k: int|
        0 <= k < applied.len() ==> has_tally(tallies, (#[trigger] applied[k]).0)
}

spec fn has_tally(tallies: Seq<Tally>, candidate: usize) -> bool {
    exists|i: int| 0 <= i < tallies.len() && (#[trigger] tallies[i]).candidate == candidate
}

spec fn bounded_items(applied: Seq<(usize, ContributionView)>) -> bool {
    forall|k: int|
        0 <= k < applied.len() ==> -LARGEST_CONTRIBUTION <= (
        #[trigger] applied[k]).1.contribution <= LARGEST_CONTRIBUTION
}

proof fn lemma_contributions_push(
    applied: Seq<(usize, ContributionView)>,
    item: (usize, ContributionView),
    candidate: usize,
    count: int,
)
    requires
        0 <= count <= applied.len(),
    ensures
        contributions_to(applied.push(item), candidate, count) == contributions_to(
            applied,
            candidate,
            count,
        ),
    decreases count,
{
    if count > 0 {
        lemma_contributions_push(applied, item, candidate, count - 1);
    }
}

proof fn lemma_sum_push(items: Seq<ContributionView>, item: ContributionView, count: int)
    requires
        0 <= count <= items.len(),
    ensures
        contribution_sum(items.push(item), count) == contribution_sum(items, count),
    decreases count,
{
    if count > 0 {
        lemma_sum_push(items, item, count - 1);
    }
}

proof fn lemma_contributions_bounded(
    applied: Seq<(usize, ContributionView)>,
    candidate: usize,
    count: int,
)
    requires
        0 <= count <= applied.len(),
        bounded_items(applied),
    ensures
        contributions_to(applied, candidate, count).len() <= count,
        forall|i: int|
            0 <= i < contributions_to(applied, candidate, count).len()
                ==> -LARGEST_CONTRIBUTION <= (
            #[trigger] contributions_to(applied, candidate, count)[i]).contribution
                <= LARGEST_CONTRIBUTION,
    decreases count,
{
    if count > 0 {
        lemma_contributions_bounded(applied, candidate, count - 1);
        assert(-LARGEST_CONTRIBUTION <= applied[count - 1].1.contribution <= LARGEST_CONTRIBUTION);
    }
}

proof fn lemma_sum_bounded(items: Seq<ContributionView>, count: int)
    requires
        0 <= count <= items.len(),
        forall|i: int|
            0 <= i < items.len() ==> -LARGEST_CONTRIBUTION <= (#[trigger] items[i]).contribution
                <= LARGEST_CONTRIBUTION,
    ensures
        -(count * LARGEST_CONTRIBUTION) <= contribution_sum(items, count),
        contribution_sum(items, count) <= count * LARGEST_CONTRIBUTION,
    decreases count,
{
    if count > 0 {
        lemma_sum_bounded(items, count - 1);
        assert(-LARGEST_CONTRIBUTION <= items[count - 1].contribution <= LARGEST_CONTRIBUTION);
        let most = LARGEST_CONTRIBUTION as int;
        assert(count * most == (count - 1) * most + most) by (nonlinear_arith);
    }
}

proof fn lemma_no_contributions(
    applied: Seq<(usize, ContributionView)>,
    candidate: usize,
    count: int,
)
    requires
        0 <= count <= applied.len(),
        forall|k: int| 0 <= k < count ==> (#[trigger] applied[k]).0 != candidate,
    ensures
        contributions_to(applied, candidate, count).len() == 0,
    decreases count,
{
    if count > 0 {
        lemma_no_contributions(applied, candidate, count - 1);
    }
}

fn add_contribution(
    tallies: &mut Vec<Tally>,
    candidate: usize,
    item: AppliedGuidanceContribution,
    Ghost(applied): Ghost<Seq<(usize, ContributionView)>>,
)
    requires
        tallies_hold(old(tallies)@, applied),
        bounded_items(applied),
        applied.len() <= u64::MAX,
        -LARGEST_CONTRIBUTION <= item.contribution <= LARGEST_CONTRIBUTION,
    ensures
        tallies_hold(final(tallies)@, applied.push((candidate, item@))),
{
    let ghost before = tallies@;
    let ghost next = applied.push((candidate, item@));
    let mut at: usize = 0;
    while at < tallies.len() && tallies[at].candidate < candidate
        invariant
            at <= tallies@.len(),
            tallies@ == before,
            forall|i: int| 0 <= i < at ==> (#[trigger] tallies@[i]).candidate < candidate,
        decreases tallies@.len() - at,
    {
        at += 1;
    }
    let ghost value = item@;
    proof {
        assert forall|other: usize| #[trigger]
            contributions_to(next, other, next.len() as int) == (if other == candidate {
                contributions_to(applied, other, applied.len() as int).push(value)
            } else {
                contributions_to(applied, other, applied.len() as int)
            }) by {
            lemma_contributions_push(applied, (candidate, value), other, applied.len() as int);
        }
    }
    if at < tallies.len() && tallies[at].candidate == candidate {
        proof {
            assert(tally_holds(before[at as int], applied));
            lemma_contributions_bounded(applied, candidate, applied.len() as int);
            let items = contributions_to(applied, candidate, applied.len() as int);
            lemma_sum_bounded(items, items.len() as int);
            lemma_sum_push(items, value, items.len() as int);
            let count = items.len() as int;
            assert(count * LARGEST_CONTRIBUTION <= u64::MAX * LARGEST_CONTRIBUTION) by (nonlinear_arith)
                requires
                    0 <= count <= u64::MAX,
            ;
            lemma_views_push(before[at as int].contributions@, item);
        }
        tallies[at].sum = tallies[at].sum + item.contribution as i128;
        tallies[at].contributions.push(item);
        proof {
            assert(tallies@.len() == before.len());
            assert forall|i: int| 0 <= i < tallies@.len() implies tally_holds(
                #[trigger] tallies@[i],
                next,
            ) && tallies@[i].candidate == before[i].candidate by {
                assert(tally_holds(before[i], applied));
                if i != at {
                    assert(tallies@[i] == before[i]);
                    if i < at {
                        assert(before[i].candidate < before[at as int].candidate);
                    } else {
                        assert(before[at as int].candidate < before[i].candidate);
                    }
                }
            }
            assert forall|i: int, j: int| 0 <= i < j < tallies@.len() implies (
            #[trigger] tallies@[i]).candidate < (#[trigger] tallies@[j]).candidate by {
                assert(before[i].candidate < before[j].candidate);
            }
            assert forall|k: int| 0 <= k < next.len() implies has_tally(
                tallies@,
                (#[trigger] next[k]).0,
            ) by {
                if k < applied.len() {
                    assert(next[k] == applied[k]);
                    assert(has_tally(before, applied[k].0));
                    let i = choose|i: int|
                        0 <= i < before.len() && (#[trigger] before[i]).candidate == applied[k].0;
                    assert(tallies@[i].candidate == before[i].candidate);
                } else {
                    assert(tallies@[at as int].candidate == candidate);
                }
            }
        }
    } else {
        let mut contributions: Vec<AppliedGuidanceContribution> = Vec::new();
        let sum: i128 = item.contribution as i128;
        contributions.push(item);
        let tally = Tally { candidate, sum, contributions };
        proof {
            assert forall|k: int| 0 <= k < applied.len() implies (#[trigger] applied[k]).0
                != candidate by {
                assert(has_tally(before, applied[k].0));
                let i = choose|i: int|
                    0 <= i < before.len() && (#[trigger] before[i]).candidate == applied[k].0;
                if i >= at && at < before.len() {
                    if i > at {
                        assert(before[at as int].candidate < before[i].candidate);
                    }
                    assert(before[at as int].candidate > candidate);
                }
            }
            lemma_no_contributions(applied, candidate, applied.len() as int);
            let items = contributions_to(applied, candidate, applied.len() as int);
            assert(items =~= Seq::<ContributionView>::empty());
            assert(contributions_to(next, candidate, next.len() as int) =~= seq![value]);
            assert(views(tally.contributions@) =~= seq![value]);
            assert(contribution_sum(seq![value], 0) == 0);
            assert(contribution_sum(seq![value], 1) == value.contribution);
            assert(tally_holds(tally, next));
        }
        tallies.insert(at, tally);
        proof {
            let after = tallies@;
            assert(after == before.insert(at as int, tally));
            assert forall|i: int| 0 <= i < after.len() implies tally_holds(
                #[trigger] after[i],
                next,
            ) by {
                if i < at {
                    assert(after[i] == before[i]);
                    assert(tally_holds(before[i], applied));
                    assert(before[i].candidate != candidate);
                } else if i > at {
                    assert(after[i] == before[i - 1]);
                    assert(tally_holds(before[i - 1], applied));
                    if i - 1 > at {
                        assert(before[at as int].candidate < before[i - 1].candidate);
                    }
                    assert(before[i - 1].candidate != candidate);
                }
            }
            assert forall|i: int, j: int| 0 <= i < j < after.len() implies (
            #[trigger] after[i]).candidate < (#[trigger] after[j]).candidate by {
                let old_i = if i < at {
                    i
                } else {
                    i - 1
                };
                let old_j = if j < at {
                    j
                } else {
                    j - 1
                };
                if i == at {
                    assert(after[j] == before[old_j]);
                    if old_j > at {
                        assert(before[at as int].candidate < before[old_j].candidate);
                    }
                } else if j == at {
                    assert(after[i] == before[old_i]);
                } else {
                    assert(after[i] == before[old_i] && after[j] == before[old_j]);
                    assert(before[old_i].candidate < before[old_j].candidate);
                }
            }
            assert forall|k: int| 0 <= k < next.len() implies has_tally(
                after,
                (#[trigger] next[k]).0,
            ) by {
                if k < applied.len() {
                    assert(next[k] == applied[k]);
                    assert(has_tally(before, applied[k].0));
                    let i = choose|i: int|
                        0 <= i < before.len() && (#[trigger] before[i]).candidate == applied[k].0;
                    if i < at {
                        assert(after[i] == before[i]);
                    } else {
                        assert(after[i + 1] == before[i]);
                    }
                } else {
                    assert(after[at as int] == tally);
                }
            }
        }
    }
}

proof fn lemma_provider_ranking()
    ensures
        is_ranking(by_provider()),
{
    let order = by_provider();
    assert forall|a: ProviderSignal, b: ProviderSignal| #[trigger] order(a, b) || order(b, a) by {
        lemma_text_order(a.provider_id@, b.provider_id@, b.provider_id@);
        lemma_text_order(b.provider_id@, a.provider_id@, a.provider_id@);
        let (x, y) = (
            (a.signal.candidate_id@, a.signal.channel@),
            (b.signal.candidate_id@, b.signal.channel@),
        );
        lemma_pair_order(x, y, y);
    }
    assert forall|a: ProviderSignal, b: ProviderSignal, c: ProviderSignal| #[trigger]
        order(a, b) && #[trigger] order(b, c) implies order(a, c) by {
        lemma_text_order(a.provider_id@, b.provider_id@, c.provider_id@);
        lemma_text_order(b.provider_id@, a.provider_id@, c.provider_id@);
        lemma_text_order(b.provider_id@, c.provider_id@, a.provider_id@);
        lemma_text_order(c.provider_id@, a.provider_id@, b.provider_id@);
        lemma_pair_order(
            (a.signal.candidate_id@, a.signal.channel@),
            (b.signal.candidate_id@, b.signal.channel@),
            (c.signal.candidate_id@, c.signal.channel@),
        );
    }
}

/// The contributions of a batch of signals, in order.
pub open spec fn applied_signals(
    signals: Seq<ProviderSignal>,
    policy: Seq<GuidancePolicyEntry>,
    index: Seq<CandidateIndexEntry>,
) -> Seq<(usize, ContributionView)> {
    let sorted = stable_sort(signals, by_provider());
    applied_upto(sorted, policy, index, sorted.len() as int)
}

/// Weights signals by the policy and sums them for every candidate under the
/// cap. Signals alone say nothing of the addons: there are no diagnostics yet.
pub fn aggregate_batch(
    signals: Vec<ProviderSignal>,
    weights: &GuidanceWeights,
    candidate_index: &[CandidateIndexEntry],
) -> (batch: GuidanceBatch)
    ensures
        batch.observed == signals@.len(),
        ({
            let applied = applied_signals(signals@, weights.policy(), candidate_index@);
            batch.applied == applied.len() && holds_applied(batch.candidates@, applied)
        }),
        batch.diagnostics@.len() == 0,
{
    let observed: u64 = signals.len() as u64;
    let leq = |a: &ProviderSignal, b: &ProviderSignal| -> (first: bool)
        ensures
            first == by_provider()(*a, *b),
        {
            if !is_text(a.provider_id.as_str(), b.provider_id.as_str()) {
                in_text_order(a.provider_id.as_str(), b.provider_id.as_str())
            } else {
                pair_in_order(
                    a.signal.candidate_id.as_str(),
                    a.signal.channel.as_str(),
                    b.signal.candidate_id.as_str(),
                    b.signal.channel.as_str(),
                )
            }
        };
    let ghost plain = signals@;
    proof {
        lemma_provider_ranking();
    }
    let sorted = sort_by(signals, &leq, Ghost(by_provider()));
    proof {
        crate::sorting::stable_sort_keeps_items(plain, by_provider());
    }
    let ghost policy = weights.policy();
    let ghost index = candidate_index@;
    let mut tallies: Vec<Tally> = Vec::new();
    let mut applied: u64 = 0;
    let mut at: usize = 0;
    while at < sorted.len()
        invariant
            at <= sorted@.len(),
            policy == weights.policy(),
            index == candidate_index@,
            applied == applied_upto(sorted@, policy, index, at as int).len(),
            applied <= at,
            bounded_items(applied_upto(sorted@, policy, index, at as int)),
            tallies_hold(tallies@, applied_upto(sorted@, policy, index, at as int)),
        decreases sorted@.len() - at,
    {
        let provider = &sorted[at].provider_id;
        let signal = &sorted[at].signal;
        let ghost before = applied_upto(sorted@, policy, index, at as int);
        if let Some(candidate) = find_candidate(candidate_index, &signal.candidate_id) {
            let weight: i64 = weights.weight(provider.as_str(), signal.channel.as_str());
            let contribution: i64 = contribute(weight, signal.score, signal.confidence);
            if contribution != 0 {
                let item = AppliedGuidanceContribution {
                    provider_id: provider.clone(),
                    channel: signal.channel.clone(),
                    scope: signal.scope,
                    signal_score: signal.score,
                    confidence: signal.confidence,
                    policy_weight: weight,
                    contribution,
                    rationale: match &signal.rationale {
                        Some(text) => Some(text.clone()),
                        None => None,
                    },
                };
                let ghost value = item@;
                proof {
                    let next = applied_upto(sorted@, policy, index, at + 1);
                    assert(next =~= before.push((candidate, value)));
                    assert forall|k: int| 0 <= k < next.len() implies -LARGEST_CONTRIBUTION <= (
                    #[trigger] next[k]).1.contribution <= LARGEST_CONTRIBUTION by {
                        if k < before.len() {
                            assert(next[k] == before[k]);
                        }
                    }
                }
                add_contribution(&mut tallies, candidate, item, Ghost(before));
                applied += 1;
            }
        }
        at += 1;
    }
    let ghost all = applied_upto(sorted@, policy, index, sorted@.len() as int);
    let ghost held = tallies@;
    let mut rest = crate::sorting::reversed(tallies);
    let mut candidates: Vec<CandidateGuidance> = Vec::new();
    while rest.len() > 0
        invariant
            tallies_hold(held, all),
            rest@.len() + candidates@.len() == held.len(),
            rest@.reverse() =~= held.skip(candidates@.len() as int),
            forall|i: int|
                0 <= i < candidates@.len() ==> (#[trigger] candidates@[i]).candidate
                    == held[i].candidate && holds_contributions(candidates@[i], all),
        decreases rest@.len(),
    {
        let ghost before = rest@;
        let ghost done = candidates@.len() as int;
        let tally = rest.pop().unwrap();
        proof {
            assert(before.reverse()[0] == held.skip(done)[0]);
            assert(tally_holds(held[done], all));
            assert(rest@.reverse() =~= held.skip(done + 1)) by {
                assert forall|i: int| 0 <= i < rest@.len() implies rest@.reverse()[i]
                    == #[trigger] held.skip(done + 1)[i] by {
                    assert(rest@.reverse()[i] == before.reverse()[i + 1]);
                    assert(before.reverse()[i + 1] == held.skip(done)[i + 1]);
                }
            }
        }
        let cap: i128 = GUIDANCE_CAP as i128;
        let adjustment: i64 = if tally.sum < -cap {
            -GUIDANCE_CAP
        } else if tally.sum > cap {
            GUIDANCE_CAP
        } else {
            tally.sum as i64
        };
        candidates.push(
            CandidateGuidance {
                candidate: tally.candidate,
                adjustment,
                contributions: tally.contributions,
            },
        );
    }
    proof {
        assert forall|i: int, j: int| 0 <= i < j < candidates@.len() implies (
        #[trigger] candidates@[i]).candidate < (#[trigger] candidates@[j]).candidate by {
            assert(held[i].candidate < held[j].candidate);
        }
        assert forall|k: int| 0 <= k < all.len() implies has_entry(
            candidates@,
            (#[trigger] all[k]).0,
        ) by {
            assert(has_tally(held, all[k].0));
            let i = choose|i: int|
                0 <= i < held.len() && (#[trigger] held[i]).candidate == all[k].0;
            assert(candidates@[i].candidate == held[i].candidate);
        }
    }
    GuidanceBatch { candidates, observed, applied, diagnostics: Vec::new() }
}

/// No guidance moves a candidate by more than the cap, whatever the signals.
pub proof fn guidance_is_capped(
    entry: CandidateGuidance,
    applied: Seq<(usize, ContributionView)>,
)
    requires
        holds_contributions(entry, applied),
    ensures
        -(GUIDANCE_CAP as int) <= entry.adjustment <= GUIDANCE_CAP,
{
}

/// Without signals, or under a policy that weighs nothing, guidance is neutral.
pub proof fn guidance_without_weight_is_neutral(
    signals: Seq<ProviderSignal>,
    policy: Seq<GuidancePolicyEntry>,
    index: Seq<CandidateIndexEntry>,
    count: int,
)
    requires
        0 <= count <= signals.len(),
        forall|provider: Seq<char>, channel: Seq<char>| #[trigger]
            weight_upto(policy, provider, channel, policy.len() as int) == 0,
    ensures
        applied_upto(signals, policy, index, count).len() == 0,
    decreases count,
{
    if count > 0 {
        guidance_without_weight_is_neutral(signals, policy, index, count - 1);
        let signal = signals[count - 1].signal;
        let weight = weight_upto(
            policy,
            signals[count - 1].provider_id@,
            signal.channel@,
            policy.len() as int,
        );
        assert(weight == 0);
        let score = size_of_number(signal.score as int);
        let confidence = size_of_number(signal.confidence as int);
        assert(0 * score * confidence == 0) by (nonlinear_arith);
        assert(UNIT * UNIT == 1_000_000_000_000_000_000_000_000) by (nonlinear_arith)
            requires
                UNIT == 1_000_000_000_000,
        ;
    }
}

// Target shares.

/// The contributions to a candidate: those of the first entry for it.
pub open spec fn contributions_at(
    entries: Seq<CandidateGuidance>,
    candidate: usize,
    at: int,
) -> Seq<ContributionView>
    decreases entries.len() - at,
{
    if at >= entries.len() {
        seq![]
    } else if entries[at].candidate == candidate {
        views(entries[at].contributions@)
    } else {
        contributions_at(entries, candidate, at + 1)
    }
}

/// Whether a channel supports a candidate.
pub open spec fn supported_by(items: Seq<ContributionView>, provider: Seq<char>, channel: Seq<char>) -> bool {
    exists|i: int|
        0 <= i < items.len() && (#[trigger] items[i]).provider_id == provider && items[i].channel
            == channel && items[i].contribution > 0
}

/// Whether a target's channel supports a candidate.
pub open spec fn target_supports(
    entries: Seq<CandidateGuidance>,
    target: TargetView,
    candidate: usize,
) -> bool {
    supported_by(contributions_at(entries, candidate, 0), target.provider, target.channel)
}

fn has_positive_support(items: &Vec<AppliedGuidanceContribution>, target: &Target) -> (supported:
    bool)
    ensures
        supported == supported_by(views(items@), target@.provider, target@.channel),
{
    let ghost all = views(items@);
    let mut at: usize = 0;
    while at < items.len()
        invariant
            at <= items@.len(),
            all == views(items@),
            forall|i: int|
                0 <= i < at ==> !((#[trigger] all[i]).provider_id == target@.provider
                    && all[i].channel == target@.channel && all[i].contribution > 0),
        decreases items@.len() - at,
    {
        assert(all[at as int] == items@[at as int]@);
        let item = &items[at];
        if item.provider_id == target.provider && item.channel == target.channel
            && item.contribution > 0 {
            return true;
        }
        at += 1;
    }
    false
}

fn does_support(entries: &[CandidateGuidance], target: &Target, candidate: usize) -> (supports:
    bool)
    ensures
        supports == target_supports(entries@, target@, candidate),
{
    let mut at: usize = 0;
    while at < entries.len()
        invariant
            at <= entries@.len(),
            contributions_at(entries@, candidate, 0) == contributions_at(
                entries@,
                candidate,
                at as int,
            ),
        decreases entries@.len() - at,
    {
        if entries[at].candidate == candidate {
            return has_positive_support(&entries[at].contributions, target);
        }
        at += 1;
    }
    false
}

/// How many of the first `count` candidates a target's channel supports.
pub open spec fn support_count(
    entries: Seq<CandidateGuidance>,
    target: TargetView,
    candidates: Seq<usize>,
    count: int,
) -> nat
    decreases count,
{
    if count <= 0 {
        0
    } else {
        support_count(entries, target, candidates, count - 1) + (if target_supports(
            entries,
            target,
            candidates[count - 1],
        ) {
            1nat
        } else {
            0
        })
    }
}

/// How many supported tracks a target asks for, rounded up.
pub open spec fn target_count(requested: int, percent: u8) -> int {
    let product = if requested * percent > usize::MAX {
        usize::MAX as int
    } else {
        requested * percent
    };
    (product + 99) / 100
}

/// Whether a prefix of the candidates serves every target.
pub open spec fn serves_targets(
    entries: Seq<CandidateGuidance>,
    targets: Seq<TargetView>,
    candidates: Seq<usize>,
    requested: int,
    length: int,
) -> bool {
    forall|t: int|
        0 <= t < targets.len() ==> support_count(
            entries,
            #[trigger] targets[t],
            candidates,
            length,
        ) >= target_count(requested, targets[t].percent)
}

/// The shortest prefix from `length` on that serves every target and has at
/// least `minimum` candidates, or all of them.
pub open spec fn serving_prefix(
    entries: Seq<CandidateGuidance>,
    targets: Seq<TargetView>,
    candidates: Seq<usize>,
    requested: int,
    minimum: int,
    length: int,
) -> int
    decreases candidates.len() - length,
{
    if length >= candidates.len() {
        candidates.len() as int
    } else if length >= minimum && serves_targets(
        entries,
        targets,
        candidates,
        requested,
        length,
    ) {
        length
    } else {
        serving_prefix(entries, targets, candidates, requested, minimum, length + 1)
    }
}

/// The length of the candidate pool that target shares need.
pub open spec fn target_pool_limit(
    entries: Seq<CandidateGuidance>,
    targets: Seq<TargetView>,
    candidates: Seq<usize>,
    requested: int,
    minimum: int,
) -> int {
    let floor = if minimum < candidates.len() {
        minimum
    } else {
        candidates.len() as int
    };
    if candidates.len() == 0 || targets.len() == 0 {
        floor
    } else {
        serving_prefix(entries, targets, candidates, requested, floor, 1)
    }
}

fn count_target(requested: usize, percent: u8) -> (count: usize)
    ensures
        count == target_count(requested as int, percent),
{
    let product: usize = match requested.checked_mul(percent as usize) {
        Some(product) => product,
        None => usize::MAX,
    };
    if product == 0 {
        0
    } else {
        (product - 1) / 100 + 1
    }
}

fn count_support(
    entries: &[CandidateGuidance],
    target: &Target,
    candidates: &[usize],
    length: usize,
) -> (count: usize)
    requires
        length <= candidates@.len(),
    ensures
        count == support_count(entries@, target@, candidates@, length as int),
        count <= length,
{
    let mut count: usize = 0;
    let mut at: usize = 0;
    while at < length
        invariant
            at <= length,
            length <= candidates@.len(),
            count <= at,
            count == support_count(entries@, target@, candidates@, at as int),
        decreases length - at,
    {
        if does_support(entries, target, candidates[at]) {
            count += 1;
        }
        at += 1;
    }
    count
}

impl GuidanceWeights {
    fn serves(
        &self,
        entries: &[CandidateGuidance],
        candidates: &[usize],
        requested: usize,
        length: usize,
    ) -> (served: bool)
        requires
            length <= candidates@.len(),
        ensures
            served == serves_targets(
                entries@,
                targets_of(self.policy()),
                candidates@,
                requested as int,
                length as int,
            ),
    {
        proof {
            use_type_invariant(self);
        }
        let ghost targets = targets_of(self.policy());
        let mut at: usize = 0;
        while at < self.targets.len()
            invariant
                at <= self.targets@.len(),
                length <= candidates@.len(),
                targets == views(self.targets@),
                targets == targets_of(self.policy()),
                forall|t: int|
                    0 <= t < at ==> support_count(
                        entries@,
                        #[trigger] targets[t],
                        candidates@,
                        length as int,
                    ) >= target_count(requested as int, targets[t].percent),
            decreases self.targets@.len() - at,
        {
            let target = &self.targets[at];
            assert(targets[at as int] == target@);
            if count_support(entries, target, candidates, length) < count_target(
                requested,
                target.percent,
            ) {
                return false;
            }
            at += 1;
        }
        true
    }

    /// Finds the shortest ranked prefix that gives every target channel enough
    /// supported alternatives to plausibly meet its share. Where the matches
    /// are too few, the complete pool is kept.
    pub fn target_share_minimum_pool_limit(
        &self,
        candidates: &[usize],
        contributions: &[CandidateGuidance],
        requested_selection_count: usize,
        minimum_pool_limit: usize,
    ) -> (limit: usize)
        ensures
            limit == target_pool_limit(
                contributions@,
                targets_of(self.policy()),
                candidates@,
                requested_selection_count as int,
                minimum_pool_limit as int,
            ),
    {
        proof {
            use_type_invariant(self);
        }
        let floor: usize = if minimum_pool_limit < candidates.len() {
            minimum_pool_limit
        } else {
            candidates.len()
        };
        if candidates.len() == 0 || self.targets.len() == 0 {
            return floor;
        }
        let ghost targets = targets_of(self.policy());
        let mut length: usize = 1;
        while length < candidates.len()
            invariant
                1 <= length <= candidates@.len(),
                targets == targets_of(self.policy()),
                serving_prefix(
                    contributions@,
                    targets,
                    candidates@,
                    requested_selection_count as int,
                    floor as int,
                    1,
                ) == serving_prefix(
                    contributions@,
                    targets,
                    candidates@,
                    requested_selection_count as int,
                    floor as int,
                    length as int,
                ),
                target_pool_limit(
                    contributions@,
                    targets,
                    candidates@,
                    requested_selection_count as int,
                    minimum_pool_limit as int,
                ) == serving_prefix(
                    contributions@,
                    targets,
                    candidates@,
                    requested_selection_count as int,
                    floor as int,
                    1,
                ),
            decreases candidates@.len() - length,
        {
            if length >= floor && self.serves(
                contributions,
                candidates,
                requested_selection_count,
                length,
            ) {
                return length;
            }
            length += 1;
        }
        length
    }
}

/// A number, or the largest one that fits.
pub open spec fn wide(value: int) -> int {
    if value > u128::MAX {
        u128::MAX as int
    } else {
        value
    }
}

fn wide_product(a: u128, b: u128) -> (product: u128)
    ensures
        product == wide(a * b),
{
    match a.checked_mul(b) {
        Some(product) => product,
        None => u128::MAX,
    }
}

/// The base weights of those of the first `count` candidates that a target's
/// channel supports, or does not.
pub open spec fn base_sum(
    entries: Seq<CandidateGuidance>,
    target: TargetView,
    candidates: Seq<usize>,
    base_weights: Seq<u64>,
    supported: bool,
    count: int,
) -> nat
    decreases count,
{
    if count <= 0 {
        0
    } else {
        base_sum(entries, target, candidates, base_weights, supported, count - 1) + (if
        target_supports(entries, target, candidates[count - 1]) == supported {
            base_weights[count - 1] as nat
        } else {
            0
        })
    }
}

/// Those of the first `count` candidates that a target's channel supports.
pub open spec fn supported_candidates(
    entries: Seq<CandidateGuidance>,
    target: TargetView,
    candidates: Seq<usize>,
    count: int,
) -> Set<usize>
    decreases count,
{
    if count <= 0 {
        Set::empty()
    } else {
        let before = supported_candidates(entries, target, candidates, count - 1);
        if target_supports(entries, target, candidates[count - 1]) {
            before.insert(candidates[count - 1])
        } else {
            before
        }
    }
}

/// The factor that lifts the supported candidates of a pool to their target
/// share of its weight.
pub open spec fn share_multiplier(
    percent: u8,
    supported_count: int,
    supported_weight: int,
    other_weight: int,
) -> int {
    if supported_count == 0 || other_weight == 0 {
        UNIT as int
    } else if percent >= 100 {
        1_000_000 * UNIT
    } else {
        let factor = wide(wide(percent * UNIT) * other_weight) / wide(
            (100 - percent) * supported_weight,
        );
        if factor < 1_000_000 {
            1_000_000
        } else {
            factor
        }
    }
}

/// The state of one target share in a pool.
#[verifier::ext_equal]
pub struct ShareView {
    pub target: TargetView,
    pub supported_candidate_count: int,
    pub multiplier: int,
}

/// The state of a target share in a pool.
pub open spec fn share_of(
    entries: Seq<CandidateGuidance>,
    target: TargetView,
    candidates: Seq<usize>,
    base_weights: Seq<u64>,
) -> ShareView {
    let count = candidates.len() as int;
    let supported = supported_candidates(entries, target, candidates, count).len() as int;
    ShareView {
        target,
        supported_candidate_count: supported,
        multiplier: share_multiplier(
            target.percent,
            supported,
            base_sum(entries, target, candidates, base_weights, true, count) as int,
            base_sum(entries, target, candidates, base_weights, false, count) as int,
        ),
    }
}

/// The state of one target share in a pool.
#[derive(Debug, PartialEq, Eq)]
pub struct TargetShareDiagnostic {
    pub provider_id: String,
    pub channel: String,
    pub target_percent: u8,
    pub supported_candidate_count: usize,
    pub multiplier: u128,
}

impl View for TargetShareDiagnostic {
    type V = ShareView;

    open spec fn view(&self) -> ShareView {
        ShareView {
            target: TargetView {
                provider: self.provider_id@,
                channel: self.channel@,
                percent: self.target_percent,
            },
            supported_candidate_count: self.supported_candidate_count as int,
            multiplier: self.multiplier as int,
        }
    }
}

/// Whether there is a base weight for every rank of a pool, none of them zero
/// or more than one.
pub open spec fn is_base_curve(base_weights: Seq<u64>, count: int) -> bool {
    &&& base_weights.len() == count
    &&& forall|i: int| 0 <= i < base_weights.len() ==> 0 < #[trigger] base_weights[i] <= UNIT
}

proof fn lemma_base_sum(
    entries: Seq<CandidateGuidance>,
    target: TargetView,
    candidates: Seq<usize>,
    base_weights: Seq<u64>,
    supported: bool,
    count: int,
)
    requires
        is_base_curve(base_weights, candidates.len() as int),
        0 <= count <= candidates.len(),
    ensures
        base_sum(entries, target, candidates, base_weights, supported, count) <= count * UNIT,
        supported_candidates(entries, target, candidates, count).finite(),
        supported_candidates(entries, target, candidates, count).len() <= count,
        supported && supported_candidates(entries, target, candidates, count).len() > 0
            ==> base_sum(entries, target, candidates, base_weights, supported, count) > 0,
    decreases count,
{
    if count > 0 {
        lemma_base_sum(entries, target, candidates, base_weights, supported, count - 1);
        assert(0 < base_weights[count - 1] <= UNIT);
        assert(count * UNIT == (count - 1) * UNIT + UNIT) by (nonlinear_arith);
    }
}

impl GuidanceWeights {
    fn measure_share(
        target: &Target,
        candidates: &[usize],
        contributions: &[CandidateGuidance],
        base_weights: &[u64],
    ) -> (share: TargetShareDiagnostic)
        requires
            is_base_curve(base_weights@, candidates@.len() as int),
        ensures
            share@ == share_of(contributions@, target@, candidates@, base_weights@),
    {
        broadcast use vstd::std_specs::hash::group_hash_axioms;

        let ghost entries = contributions@;
        let mut known: std::collections::HashSet<usize> = std::collections::HashSet::new();
        let mut supported_weight: u128 = 0;
        let mut other_weight: u128 = 0;
        let mut at: usize = 0;
        assert(known@ =~= supported_candidates(entries, target@, candidates@, 0));
        while at < candidates.len()
            invariant
                at <= candidates@.len(),
                entries == contributions@,
                is_base_curve(base_weights@, candidates@.len() as int),
                known@ == supported_candidates(entries, target@, candidates@, at as int),
                supported_weight == base_sum(
                    entries,
                    target@,
                    candidates@,
                    base_weights@,
                    true,
                    at as int,
                ),
                other_weight == base_sum(
                    entries,
                    target@,
                    candidates@,
                    base_weights@,
                    false,
                    at as int,
                ),
            decreases candidates@.len() - at,
        {
            proof {
                let next = at + 1;
                lemma_base_sum(entries, target@, candidates@, base_weights@, true, next);
                lemma_base_sum(entries, target@, candidates@, base_weights@, false, next);
                assert(next * UNIT <= usize::MAX * UNIT) by (nonlinear_arith)
                    requires
                        0 <= next <= usize::MAX,
                ;
            }
            if does_support(contributions, target, candidates[at]) {
                known.insert(candidates[at]);
                supported_weight = supported_weight + base_weights[at] as u128;
            } else {
                other_weight = other_weight + base_weights[at] as u128;
            }
            at += 1;
        }
        let supported: usize = known.len();
        proof {
            lemma_base_sum(
                entries,
                target@,
                candidates@,
                base_weights@,
                true,
                candidates@.len() as int,
            );
        }
        let multiplier: u128 = if supported == 0 || other_weight == 0 {
            UNIT as u128
        } else if target.percent >= 100 {
            1_000_000 * (UNIT as u128)
        } else {
            let percent: u128 = target.percent as u128;
            let numerator: u128 = wide_product(
                wide_product(percent, UNIT as u128),
                other_weight,
            );
            let denominator: u128 = wide_product(100 - percent, supported_weight);
            proof {
                let left = 100 - percent;
                assert(left * supported_weight > 0) by (nonlinear_arith)
                    requires
                        left > 0,
                        supported_weight > 0,
                ;
            }
            let factor: u128 = numerator / denominator;
            if factor < 1_000_000 {
                1_000_000
            } else {
                factor
            }
        };
        TargetShareDiagnostic {
            provider_id: target.provider.clone(),
            channel: target.channel.clone(),
            target_percent: target.percent,
            supported_candidate_count: supported,
            multiplier,
        }
    }

    /// Says for every target channel how many candidates of a pool it supports
    /// and what factor they get. `base_weights` gives the weight of every rank.
    pub fn target_share_diagnostics(
        &self,
        candidates: &[usize],
        contributions: &[CandidateGuidance],
        base_weights: &[u64],
    ) -> (shares: Vec<TargetShareDiagnostic>)
        requires
            is_base_curve(base_weights@, candidates@.len() as int),
        ensures
            views(shares@) == Seq::new(
                targets_of(self.policy()).len(),
                |t: int|
                    share_of(
                        contributions@,
                        targets_of(self.policy())[t],
                        candidates@,
                        base_weights@,
                    ),
            ),
    {
        proof {
            use_type_invariant(self);
        }
        let ghost targets = targets_of(self.policy());
        let ghost all = Seq::new(
            targets.len(),
            |t: int| share_of(contributions@, targets[t], candidates@, base_weights@),
        );
        let mut shares: Vec<TargetShareDiagnostic> = Vec::new();
        let mut at: usize = 0;
        while at < self.targets.len()
            invariant
                at <= self.targets@.len(),
                is_base_curve(base_weights@, candidates@.len() as int),
                targets == views(self.targets@),
                all == Seq::new(
                    targets.len(),
                    |t: int| share_of(contributions@, targets[t], candidates@, base_weights@),
                ),
                views(shares@) =~= all.take(at as int),
            decreases self.targets@.len() - at,
        {
            assert(targets[at as int] == self.targets@[at as int]@);
            let share = Self::measure_share(
                &self.targets[at],
                candidates,
                contributions,
                base_weights,
            );
            proof {
                lemma_views_push(shares@, share);
            }
            shares.push(share);
            at += 1;
        }
        assert(views(shares@) =~= all);
        shares
    }
}

/// The weight of a candidate once the first `count` target shares are applied.
pub open spec fn weight_after(
    entries: Seq<CandidateGuidance>,
    shares: Seq<ShareView>,
    candidate: usize,
    count: int,
) -> int
    decreases count,
{
    if count <= 0 {
        UNIT as int
    } else {
        let before = weight_after(entries, shares, candidate, count - 1);
        if target_supports(entries, shares[count - 1].target, candidate) {
            wide(before * shares[count - 1].multiplier) / (UNIT as int)
        } else {
            before
        }
    }
}

/// A candidate and its weight.
#[derive(Clone, Copy, Debug, PartialEq, Eq)]
pub struct CandidateWeight {
    pub candidate: usize,
    pub weight: u128,
}

/// Numbers from the smallest on.
pub open spec fn smallest_number_first() -> spec_fn(usize, usize) -> bool {
    |a: usize, b: usize| a <= b
}

/// Whether two numbers are the same.
pub open spec fn same_number() -> spec_fn(usize, usize) -> bool {
    |a: usize, b: usize| a == b
}

/// The numbers of a pool in order, each once.
pub open spec fn pool_members(candidates: Seq<usize>) -> Seq<usize> {
    dedup(stable_sort(candidates, smallest_number_first()), same_number())
}

impl GuidanceWeights {
    /// The weights that target shares give the candidates of a pool. A target
    /// moves the choice inside the pool, and never brings in a candidate from
    /// outside.
    pub fn target_share_weights(
        &self,
        candidates: &[usize],
        contributions: &[CandidateGuidance],
        base_weights: &[u64],
    ) -> (weights: Vec<CandidateWeight>)
        requires
            is_base_curve(base_weights@, candidates@.len() as int),
        ensures
            weights@.len() == pool_members(candidates@).len(),
            forall|i: int|
                0 <= i < weights@.len() ==> (#[trigger] weights@[i]).candidate == pool_members(
                    candidates@,
                )[i] && weights@[i].weight == weight_after(
                    contributions@,
                    Seq::new(
                        targets_of(self.policy()).len(),
                        |t: int|
                            share_of(
                                contributions@,
                                targets_of(self.policy())[t],
                                candidates@,
                                base_weights@,
                            ),
                    ),
                    weights@[i].candidate,
                    targets_of(self.policy()).len() as int,
                ),
    {
        let ghost entries = contributions@;
        let shares = self.target_share_diagnostics(candidates, contributions, base_weights);
        let ghost all = views(shares@);
        proof {
            use_type_invariant(self);
            let targets = targets_of(self.policy());
            assert(views(self.targets@).len() == self.targets@.len());
            assert(all.len() == shares@.len());
            assert forall|t: int| 0 <= t < shares@.len() implies (#[trigger] all[t]).target
                == self.targets@[t]@ by {
                assert(targets[t] == views(self.targets@)[t]);
            }
        }
        let leq = |a: &usize, b: &usize| -> (first: bool)
            ensures
                first == smallest_number_first()(*a, *b),
            { *a <= *b };
        let sorted = sort_by(
            crate::sequences::copied(candidates),
            &leq,
            Ghost(smallest_number_first()),
        );
        let members = dedup_numbers(sorted);
        let mut weights: Vec<CandidateWeight> = Vec::new();
        let mut at: usize = 0;
        while at < members.len()
            invariant
                at <= members@.len(),
                entries == contributions@,
                all == views(shares@),
                views(self.targets@) == targets_of(self.policy()),
                shares@.len() == self.targets@.len(),
                forall|t: int|
                    0 <= t < shares@.len() ==> (#[trigger] all[t]).target
                        == self.targets@[t]@,
                weights@.len() == at,
                forall|i: int|
                    0 <= i < at ==> (#[trigger] weights@[i]).candidate == members@[i]
                        && weights@[i].weight == weight_after(
                        entries,
                        all,
                        members@[i],
                        all.len() as int,
                    ),
            decreases members@.len() - at,
        {
            let candidate: usize = members[at];
            let mut weight: u128 = UNIT as u128;
            let mut t: usize = 0;
            while t < shares.len()
                invariant
                    t <= shares@.len(),
                    entries == contributions@,
                    all == views(shares@),
                    shares@.len() == self.targets@.len(),
                    forall|k: int|
                        0 <= k < shares@.len() ==> (#[trigger] all[k]).target
                            == self.targets@[k]@,
                    weight == weight_after(entries, all, candidate, t as int),
                decreases shares@.len() - t,
            {
                assert(all[t as int] == shares@[t as int]@);
                if does_support(contributions, &self.targets[t], candidate) {
                    weight = wide_product(weight, shares[t].multiplier) / (UNIT as u128);
                }
                t += 1;
            }
            weights.push(CandidateWeight { candidate, weight });
            at += 1;
        }
        weights
    }
}

fn dedup_numbers(numbers: Vec<usize>) -> (kept: Vec<usize>)
    ensures
        kept@ == dedup(numbers@, same_number()),
{
    let mut kept: Vec<usize> = Vec::new();
    let mut at: usize = 0;
    while at < numbers.len()
        invariant
            at <= numbers@.len(),
            dedup(numbers@, same_number()) == crate::sorting::dedup_from(
                numbers@,
                same_number(),
                at as int,
                kept@,
            ),
        decreases numbers@.len() - at,
    {
        if kept.len() == 0 || kept[kept.len() - 1] != numbers[at] {
            kept.push(numbers[at]);
        }
        at += 1;
    }
    kept
}

/// A channel without support leaves every weight of a pool alone.
pub proof fn unsupported_targets_change_no_weight(
    entries: Seq<CandidateGuidance>,
    shares: Seq<ShareView>,
    candidate: usize,
    count: int,
)
    requires
        0 <= count <= shares.len(),
        forall|t: int|
            0 <= t < shares.len() ==> !target_supports(
                entries,
                (#[trigger] shares[t]).target,
                candidate,
            ),
    ensures
        weight_after(entries, shares, candidate, count) == UNIT,
    decreases count,
{
    if count > 0 {
        unsupported_targets_change_no_weight(entries, shares, candidate, count - 1);
    }
}

// Sessions and diagnostics.

/// What became of an addon.
#[verifier::ext_equal]
pub struct DiagnosticView {
    pub configured_id: Seq<char>,
    pub provider_id: Option<Seq<char>>,
    pub state: Seq<char>,
    pub message: Option<Seq<char>>,
    pub prepared: bool,
    pub score_batches: u64,
    pub returned_signals: u64,
    pub accepted_signals: u64,
}

/// What became of an addon.
#[derive(Clone, Debug, PartialEq, Eq)]
pub struct AddonDiagnostic {
    pub configured_id: String,
    pub provider_id: Option<String>,
    pub state: &'static str,
    pub message: Option<String>,
    pub prepared: bool,
    pub score_batches: u64,
    pub returned_signals: u64,
    pub accepted_signals: u64,
}

impl View for AddonDiagnostic {
    type V = DiagnosticView;

    open spec fn view(&self) -> DiagnosticView {
        DiagnosticView {
            configured_id: self.configured_id@,
            provider_id: text_in(self.provider_id),
            state: self.state@,
            message: text_in(self.message),
            prepared: self.prepared,
            score_batches: self.score_batches,
            returned_signals: self.returned_signals,
            accepted_signals: self.accepted_signals,
        }
    }
}

/// The last of the first `count` diagnostics of a prepared addon, if there is
/// one.
pub open spec fn last_prepared(
    diagnostics: Seq<DiagnosticView>,
    configured_id: Seq<char>,
    count: int,
) -> Option<int>
    decreases count,
{
    if count <= 0 {
        None
    } else if diagnostics[count - 1].configured_id == configured_id && diagnostics[count - 1].state
        == "prepared"@ {
        Some(count - 1)
    } else {
        last_prepared(diagnostics, configured_id, count - 1)
    }
}

/// A diagnostic with other counts.
pub open spec fn with_counts(
    diagnostic: DiagnosticView,
    score_batches: u64,
    returned_signals: u64,
    accepted_signals: u64,
) -> DiagnosticView {
    DiagnosticView {
        configured_id: diagnostic.configured_id,
        provider_id: diagnostic.provider_id,
        state: diagnostic.state,
        message: diagnostic.message,
        prepared: diagnostic.prepared,
        score_batches,
        returned_signals,
        accepted_signals,
    }
}

/// The diagnostics with the counts of a prepared addon brought up to date.
pub open spec fn refreshed(
    diagnostics: Seq<DiagnosticView>,
    configured_id: Seq<char>,
    score_batches: u64,
    returned_signals: u64,
    accepted_signals: u64,
) -> Seq<DiagnosticView> {
    match last_prepared(diagnostics, configured_id, diagnostics.len() as int) {
        Some(at) => diagnostics.update(
            at,
            with_counts(diagnostics[at], score_batches, returned_signals, accepted_signals),
        ),
        None => diagnostics,
    }
}

/// Brings the counts of a prepared addon up to date: in the last diagnostic
/// that says it is prepared. All others stay as they are.
pub fn refresh_prepared_diagnostic(
    diagnostics: &mut Vec<AddonDiagnostic>,
    configured_id: &str,
    score_batches: u64,
    returned_signals: u64,
    accepted_signals: u64,
)
    ensures
        views(final(diagnostics)@) == refreshed(
            views(old(diagnostics)@),
            configured_id@,
            score_batches,
            returned_signals,
            accepted_signals,
        ),
{
    let ghost all = views(diagnostics@);
    let mut left: usize = diagnostics.len();
    while left > 0
        invariant
            left <= diagnostics@.len(),
            diagnostics@ == old(diagnostics)@,
            all == views(diagnostics@),
            last_prepared(all, configured_id@, all.len() as int) == last_prepared(
                all,
                configured_id@,
                left as int,
            ),
        decreases left,
    {
        let at: usize = left - 1;
        assert(all[at as int] == diagnostics@[at as int]@);
        if is_text(diagnostics[at].configured_id.as_str(), configured_id) && is_text(
            diagnostics[at].state,
            "prepared",
        ) {
            diagnostics[at].score_batches = score_batches;
            diagnostics[at].returned_signals = returned_signals;
            diagnostics[at].accepted_signals = accepted_signals;
            assert(views(diagnostics@) =~= refreshed(
                all,
                configured_id@,
                score_batches,
                returned_signals,
                accepted_signals,
            ));
            return;
        }
        left -= 1;
    }
}

/// How many signals were accepted in all, or the largest number.
pub open spec fn accepted_upto_count(diagnostics: Seq<DiagnosticView>, count: int) -> int
    decreases count,
{
    if count <= 0 {
        0
    } else {
        let sum = accepted_upto_count(diagnostics, count - 1) + diagnostics[count
            - 1].accepted_signals;
        if sum > u64::MAX {
            u64::MAX as int
        } else {
            sum
        }
    }
}

/// Counts the accepted signals of all addons.
pub fn accepted_signal_count(diagnostics: &[AddonDiagnostic]) -> (count: u64)
    ensures
        count == accepted_upto_count(views(diagnostics@), diagnostics@.len() as int),
{
    let ghost all = views(diagnostics@);
    let mut count: u64 = 0;
    let mut at: usize = 0;
    while at < diagnostics.len()
        invariant
            at <= diagnostics@.len(),
            all == views(diagnostics@),
            count == accepted_upto_count(all, at as int),
        decreases diagnostics@.len() - at,
    {
        assert(all[at as int] == diagnostics@[at as int]@);
        count = count.saturating_add(diagnostics[at].accepted_signals);
        at += 1;
    }
    count
}

/// Where the talk with an addon stands.
#[verifier::ext_equal]
pub struct SessionView {
    pub configured_id: Seq<char>,
    pub provider_id: Option<Seq<char>>,
    pub prepared: bool,
    pub score_batches: u64,
    pub returned_signals: u64,
    pub accepted_signals: u64,
    pub disabled: bool,
}

/// Where the talk with an addon stands. Once it failed it stays disabled.
#[derive(Debug, PartialEq, Eq)]
pub struct SessionState {
    pub configured_id: String,
    pub provider_id: Option<String>,
    pub prepared: bool,
    pub score_batches: u64,
    pub returned_signals: u64,
    pub accepted_signals: u64,
    pub disabled: bool,
}

impl View for SessionState {
    type V = SessionView;

    open spec fn view(&self) -> SessionView {
        SessionView {
            configured_id: self.configured_id@,
            provider_id: text_in(self.provider_id),
            prepared: self.prepared,
            score_batches: self.score_batches,
            returned_signals: self.returned_signals,
            accepted_signals: self.accepted_signals,
            disabled: self.disabled,
        }
    }
}

/// A number counted up, or the largest one.
pub open spec fn counted(value: u64, more: int) -> u64 {
    if value + more > u64::MAX {
        u64::MAX
    } else {
        (value + more) as u64
    }
}

impl SessionView {
    /// The diagnostic of a session.
    pub open spec fn diagnosed(self, state: Seq<char>, message: Option<Seq<char>>) -> DiagnosticView {
        DiagnosticView {
            configured_id: self.configured_id,
            provider_id: self.provider_id,
            state,
            message,
            prepared: self.prepared,
            score_batches: self.score_batches,
            returned_signals: self.returned_signals,
            accepted_signals: self.accepted_signals,
        }
    }

    /// The session after a failure.
    pub open spec fn failed(self) -> SessionView {
        SessionView { disabled: true, ..self }
    }

    /// The session after the addon is prepared.
    pub open spec fn after_preparation(self) -> SessionView {
        SessionView { prepared: true, ..self }
    }

    /// The session after a batch of signals.
    pub open spec fn after_batch(self, returned: u64, accepted: int) -> SessionView {
        SessionView {
            score_batches: counted(self.score_batches, 1),
            returned_signals: counted(self.returned_signals, returned as int),
            accepted_signals: counted(self.accepted_signals, accepted),
            ..self
        }
    }
}

/// Why a manifest is refused, if so: by its version, its protocol or its name.
pub open spec fn manifest_refusal(
    manifest: Manifest,
    spi_version: u64,
    protocol: Seq<char>,
) -> Option<Seq<char>> {
    if manifest.spi_version != spi_version {
        Some(
            "guidance addon reports unsupported SPI version "@ + decimal(
                manifest.spi_version as int,
            ) + ""@,
        )
    } else if manifest.protocol@ != protocol {
        Some(
            "guidance addon reports unsupported protocol '"@ + manifest.protocol@ + "'"@,
        )
    } else {
        None
    }
}

/// Checks the version and the protocol of a manifest.
pub fn accept_manifest(manifest: &Manifest, spi_version: u64, protocol: &str) -> (accepted: Result<
    (),
    String,
>)
    ensures
        match manifest_refusal(*manifest, spi_version, protocol@) {
            None => accepted is Ok,
            Some(text) => accepted is Err && accepted->Err_0@ == text,
        },
{
    if manifest.spi_version != spi_version {
        return Err(
            text_with_number(
                "guidance addon reports unsupported SPI version ",
                manifest.spi_version,
                "",
            ),
        );
    }
    if !is_text(manifest.protocol.as_str(), protocol) {
        return Err(
            text_around(
                "guidance addon reports unsupported protocol '",
                manifest.protocol.as_str(),
                "'",
            ),
        );
    }
    Ok(())
}

/// Why an addon does not answer under its configured name, if so.
pub open spec fn name_refusal(provider_id: Seq<char>, configured_id: Seq<char>) -> Option<
    Seq<char>,
> {
    if provider_id != configured_id {
        Some(
            "manifest provider id '"@ + provider_id + "' does not match configured id '"@
                + configured_id + "'"@,
        )
    } else {
        None
    }
}

/// Checks that an addon answers under its configured name.
pub fn accept_name(provider_id: &str, configured_id: &str) -> (accepted: Result<(), String>)
    ensures
        match name_refusal(provider_id@, configured_id@) {
            None => accepted is Ok,
            Some(text) => accepted is Err && accepted->Err_0@ == text,
        },
{
    if is_text(provider_id, configured_id) {
        Ok(())
    } else {
        Err(
            text_around_two(
                "manifest provider id '",
                provider_id,
                "' does not match configured id '",
                configured_id,
                "'",
            ),
        )
    }
}

impl SessionState {
    /// A session that has just begun.
    pub fn begin(configured_id: String) -> (session: Self)
        ensures
            session@ == (SessionView {
                configured_id: configured_id@,
                provider_id: None,
                prepared: false,
                score_batches: 0,
                returned_signals: 0,
                accepted_signals: 0,
                disabled: false,
            }),
    {
        SessionState {
            configured_id,
            provider_id: None,
            prepared: false,
            score_batches: 0,
            returned_signals: 0,
            accepted_signals: 0,
            disabled: false,
        }
    }

    fn diagnose(&self, state: &'static str, message: Option<String>) -> (diagnostic:
        AddonDiagnostic)
        ensures
            diagnostic@ == self@.diagnosed(state@, text_in(message)),
    {
        AddonDiagnostic {
            configured_id: self.configured_id.clone(),
            provider_id: match &self.provider_id {
                Some(id) => Some(id.clone()),
                None => None,
            },
            state,
            message,
            prepared: self.prepared,
            score_batches: self.score_batches,
            returned_signals: self.returned_signals,
            accepted_signals: self.accepted_signals,
        }
    }

    /// Notes a failure and disables the session.
    pub fn fail(&mut self, message: String) -> (diagnostic: AddonDiagnostic)
        ensures
            final(self)@ == old(self)@.failed(),
            diagnostic@ == old(self)@.diagnosed("failed"@, Some(message@)),
    {
        self.disabled = true;
        self.diagnose("failed", Some(message))
    }

    /// Notes that the addon is prepared.
    pub fn prepare(&mut self) -> (diagnostic: AddonDiagnostic)
        ensures
            final(self)@ == old(self)@.after_preparation(),
            diagnostic@ == old(self)@.after_preparation().diagnosed("prepared"@, None),
    {
        self.prepared = true;
        self.diagnose("prepared", None)
    }

    /// Notes the manifest of the addon.
    pub fn describe(&mut self, provider_id: String)
        ensures
            final(self)@ == (SessionView { provider_id: Some(provider_id@), ..old(self)@ }),
    {
        self.provider_id = Some(provider_id);
    }

    /// Checks a batch of signals and counts it, or says why the addon failed.
    pub fn score(
        &mut self,
        manifest: &Manifest,
        candidate_ids: &[String],
        signals: Vec<GuidanceSignal>,
    ) -> (accepted: Result<Vec<GuidanceSignal>, String>)
        ensures
            ({
                let stray = first_stray(candidate_ids@, signals@, 0);
                let usable = stable_sort(
                    usable_signals(signals@, signals@.len() as int),
                    by_candidate(),
                );
                if stray < signals@.len() {
                    &&& accepted is Err
                    &&& accepted->Err_0@ == stray_text(signals@[stray].candidate_id@)
                    &&& final(self)@ == old(self)@
                } else {
                    match first_undeclared(*manifest, usable, 0) {
                        Some(text) => {
                            &&& accepted is Err
                            &&& accepted->Err_0@ == text
                            &&& final(self)@ == old(self)@
                        },
                        None => {
                            &&& accepted is Ok
                            &&& accepted->Ok_0@ == usable
                            &&& final(self)@ == old(self)@.after_batch(
                                signals@.len() as u64,
                                usable.len() as int,
                            )
                        },
                    }
                }
            }),
    {
        let (returned, accepted) = match validate_batch_signals(candidate_ids, signals) {
            Err(message) => {
                return Err(message);
            },
            Ok(checked) => checked,
        };
        match validate_manifest_signals(manifest, accepted.as_slice()) {
            Err(message) => {
                return Err(message);
            },
            Ok(_) => {},
        }
        self.score_batches = self.score_batches.saturating_add(1);
        self.returned_signals = self.returned_signals.saturating_add(returned);
        self.accepted_signals = self.accepted_signals.saturating_add(accepted.len() as u64);
        Ok(accepted)
    }
}

} // verus!
