//! Adaptive distances from a window of seed tracks.
//!
//! What an acoustic engine computes enters as a pair of functions over track
//! numbers: one that selects the distance matrix for a seed window, one that
//! measures a candidate against the mean of a seed window under such a matrix.

use crate::text::text_with_number;
use vstd::prelude::*;

verus! {

/// Why no adaptive distance can be had.
#[derive(Clone, Copy, Debug, PartialEq, Eq, Structural)]
pub enum ContextualError {
    EmptySeeds,
    InvalidLearnedPercent(u16),
    MatrixUnavailable,
}

impl ContextualError {
    /// The text of the message for this error.
    pub open spec fn text(self) -> Seq<char> {
        match self {
            ContextualError::EmptySeeds => "adaptive scoring requires at least one seed"@,
            ContextualError::InvalidLearnedPercent(value) => "learned matrix percentage "@
                + crate::text::decimal(value as int) + " is outside 0..=100"@,
            ContextualError::MatrixUnavailable => {
                "no adaptive matrix was selected for the seed context"@
            },
        }
    }

    /// Says what went wrong.
    pub fn message(&self) -> (text: String)
        ensures
            text@ == self.text(),
    {
        match self {
            ContextualError::EmptySeeds => "adaptive scoring requires at least one seed".to_owned(),
            ContextualError::InvalidLearnedPercent(value) => text_with_number(
                "learned matrix percentage ",
                *value as u64,
                " is outside 0..=100",
            ),
            ContextualError::MatrixUnavailable => {
                "no adaptive matrix was selected for the seed context".to_owned()
            },
        }
    }
}

/// A scorer as mathematics: whether a matrix can be selected for a seed window
/// at a learned percentage, and the distance of a candidate from the mean of a
/// second window under the matrix of the first.
#[verifier::ext_equal]
pub struct Scoring {
    pub prepare: spec_fn(Seq<usize>, u16) -> Result<(), ContextualError>,
    pub distance: spec_fn(Seq<usize>, u16, Seq<usize>, usize) -> u64,
}

/// The two functions of an acoustic engine. `places` says which track of the
/// engine a track number stands for; a number without a place stands for itself.
pub struct AdaptiveScorer<P, D> {
    pub prepare: P,
    pub distance: D,
    pub places: Vec<usize>,
}

/// The track of the engine that a track number stands for.
pub open spec fn place_of(places: Seq<usize>, track: usize) -> usize {
    if track < places.len() {
        places[track as int]
    } else {
        track
    }
}

/// The tracks of the engine that track numbers stand for.
pub open spec fn places_of(places: Seq<usize>, tracks: Seq<usize>) -> Seq<usize> {
    Seq::new(tracks.len(), |i: int| place_of(places, tracks[i]))
}

/// Without places every number stands for itself.
pub proof fn lemma_no_places(tracks: Seq<usize>)
    ensures
        places_of(seq![], tracks) == tracks,
{
    assert(places_of(seq![], tracks) =~= tracks);
}

/// `prepare` may answer `result` for this window.
pub open spec fn may_prepare<P: Fn(&[usize], u16) -> Result<(), ContextualError>>(
    prepare: P,
    seeds: Seq<usize>,
    learned_percent: u16,
    result: Result<(), ContextualError>,
) -> bool {
    exists|window: &[usize]|
        window@ == seeds && #[trigger] prepare.ensures((window, learned_percent), result)
}

/// `distance` may answer `result` for these windows.
pub open spec fn may_measure<D: Fn(&[usize], u16, &[usize], usize) -> u64>(
    distance: D,
    matrix: Seq<usize>,
    learned_percent: u16,
    seeds: Seq<usize>,
    candidate: usize,
    result: u64,
) -> bool {
    exists|matrix_window: &[usize], window: &[usize]|
        matrix_window@ == matrix && window@ == seeds && #[trigger] distance.ensures(
            (matrix_window, learned_percent, window, candidate),
            result,
        )
}

impl<
    P: Fn(&[usize], u16) -> Result<(), ContextualError>,
    D: Fn(&[usize], u16, &[usize], usize) -> u64,
> AdaptiveScorer<P, D> {
    /// Both functions can be called on every window and answer by the track
    /// numbers alone.
    pub open spec fn valid(&self) -> bool {
        &&& forall|window: &[usize], percent: u16| #[trigger] self.prepare.requires((window, percent))
        &&& forall|
            left: &[usize],
            right: &[usize],
            percent: u16,
            a: Result<(), ContextualError>,
            b: Result<(), ContextualError>,
        |
            left@ == right@ && #[trigger] self.prepare.ensures((left, percent), a)
                && #[trigger] self.prepare.ensures((right, percent), b) ==> a == b
        &&& forall|matrix: &[usize], percent: u16, window: &[usize], candidate: usize|
         #[trigger] self.distance.requires((matrix, percent, window, candidate))
        &&& forall|
            left_matrix: &[usize],
            left: &[usize],
            right_matrix: &[usize],
            right: &[usize],
            percent: u16,
            candidate: usize,
            a: u64,
            b: u64,
        |
            left_matrix@ == right_matrix@ && left@ == right@ && #[trigger] self.distance.ensures(
                (left_matrix, percent, left, candidate),
                a,
            ) && #[trigger] self.distance.ensures((right_matrix, percent, right, candidate), b)
                ==> a == b
    }

    /// The functions as mathematics.
    pub open spec fn scoring(&self) -> Scoring {
        Scoring {
            prepare: |seeds: Seq<usize>, percent: u16|
                choose|result: Result<(), ContextualError>|
                    may_prepare(self.prepare, places_of(self.places@, seeds), percent, result),
            distance: |matrix: Seq<usize>, percent: u16, seeds: Seq<usize>, candidate: usize|
                choose|result: u64|
                    may_measure(
                        self.distance,
                        places_of(self.places@, matrix),
                        percent,
                        places_of(self.places@, seeds),
                        place_of(self.places@, candidate),
                        result,
                    ),
        }
    }

    /// A scorer whose track numbers all stand for themselves.
    pub fn new(prepare: P, distance: D) -> (scorer: Self)
        ensures
            scorer.prepare == prepare,
            scorer.distance == distance,
            scorer.places@ == Seq::<usize>::empty(),
    {
        AdaptiveScorer { prepare, distance, places: Vec::new() }
    }

    fn placed(&self, tracks: &[usize]) -> (placed: Vec<usize>)
        ensures
            placed@ == places_of(self.places@, tracks@),
    {
        let mut placed: Vec<usize> = Vec::new();
        let mut at: usize = 0;
        while at < tracks.len()
            invariant
                at <= tracks@.len(),
                placed@ =~= places_of(self.places@, tracks@).take(at as int),
            decreases tracks@.len() - at,
        {
            placed.push(self.place(tracks[at]));
            at += 1;
        }
        assert(placed@ =~= places_of(self.places@, tracks@));
        placed
    }

    fn place(&self, track: usize) -> (place: usize)
        ensures
            place == place_of(self.places@, track),
    {
        if track < self.places.len() {
            self.places[track]
        } else {
            track
        }
    }

    fn select(&self, seeds: &[usize], learned_percent: u16) -> (result: Result<
        (),
        ContextualError,
    >)
        requires
            self.valid(),
        ensures
            result == (self.scoring().prepare)(seeds@, learned_percent),
    {
        let ghost window = places_of(self.places@, seeds@);
        let result = if self.places.len() == 0 {
            proof {
                assert(self.places@ =~= Seq::<usize>::empty());
                lemma_no_places(seeds@);
            }
            (self.prepare)(seeds, learned_percent)
        } else {
            let placed = self.placed(seeds);
            (self.prepare)(placed.as_slice(), learned_percent)
        };
        proof {
            assert(may_prepare(self.prepare, window, learned_percent, result));
            let chosen = (self.scoring().prepare)(seeds@, learned_percent);
            assert(may_prepare(self.prepare, window, learned_percent, chosen));
        }
        result
    }

    fn measure(
        &self,
        matrix: &[usize],
        learned_percent: u16,
        seeds: &[usize],
        candidate: usize,
    ) -> (result: u64)
        requires
            self.valid(),
        ensures
            result == (self.scoring().distance)(matrix@, learned_percent, seeds@, candidate),
    {
        let ghost matrix_window = places_of(self.places@, matrix@);
        let ghost window = places_of(self.places@, seeds@);
        let place: usize = self.place(candidate);
        let result = if self.places.len() == 0 {
            proof {
                assert(self.places@ =~= Seq::<usize>::empty());
                lemma_no_places(matrix@);
                lemma_no_places(seeds@);
            }
            (self.distance)(matrix, learned_percent, seeds, place)
        } else {
            let placed_matrix = self.placed(matrix);
            let placed = self.placed(seeds);
            (self.distance)(placed_matrix.as_slice(), learned_percent, placed.as_slice(), place)
        };
        proof {
            assert(may_measure(
                self.distance,
                matrix_window,
                learned_percent,
                window,
                place,
                result,
            ));
            let chosen = (self.scoring().distance)(matrix@, learned_percent, seeds@, candidate);
            assert(may_measure(
                self.distance,
                matrix_window,
                learned_percent,
                window,
                place,
                chosen,
            ));
        }
        result
    }
}

/// The scoring of some tracks of an engine, by their own numbers.
pub open spec fn scoring_at(scoring: Scoring, places: Seq<usize>) -> Scoring {
    Scoring {
        prepare: |seeds: Seq<usize>, percent: u16|
            (scoring.prepare)(places_of(places, seeds), percent),
        distance: |matrix: Seq<usize>, percent: u16, seeds: Seq<usize>, candidate: usize|
            (scoring.distance)(
                places_of(places, matrix),
                percent,
                places_of(places, seeds),
                place_of(places, candidate),
            ),
    }
}

/// A scorer for some tracks of the engine, by their own numbers.
pub fn scorer_at<
    P: Fn(&[usize], u16) -> Result<(), ContextualError> + Copy,
    D: Fn(&[usize], u16, &[usize], usize) -> u64 + Copy,
>(scorer: &AdaptiveScorer<P, D>, places: Vec<usize>) -> (local: AdaptiveScorer<P, D>)
    requires
        scorer.valid(),
        scorer.places@.len() == 0,
    ensures
        local.valid(),
        local.scoring() == scoring_at(scorer.scoring(), places@),
{
    let local = AdaptiveScorer { prepare: scorer.prepare, distance: scorer.distance, places };
    proof {
        let whole = scorer.scoring();
        let part = scoring_at(whole, local.places@);
        assert(scorer.places@ =~= Seq::<usize>::empty());
        assert forall|seeds: Seq<usize>, percent: u16|
            (local.scoring().prepare)(seeds, percent) == #[trigger] (part.prepare)(
            seeds,
            percent,
        ) by {
            lemma_no_places(places_of(local.places@, seeds));
        }
        assert forall|matrix: Seq<usize>, percent: u16, seeds: Seq<usize>, candidate: usize|
            (local.scoring().distance)(matrix, percent, seeds, candidate) == #[trigger] (
            part.distance)(matrix, percent, seeds, candidate) by {
            lemma_no_places(places_of(local.places@, matrix));
            lemma_no_places(places_of(local.places@, seeds));
        }
        assert(local.scoring().prepare =~= part.prepare);
        assert(local.scoring().distance =~= part.distance);
    }
    local
}

/// Whether a matrix can be had for a seed window.
pub open spec fn context_prepared(
    scoring: Scoring,
    seeds: Seq<usize>,
    learned_percent: u16,
) -> Result<(), ContextualError> {
    if seeds.len() == 0 {
        Err(ContextualError::EmptySeeds)
    } else {
        (scoring.prepare)(seeds, learned_percent)
    }
}

/// The distance of a candidate from a seed window under the window's own matrix.
pub open spec fn context_distance(
    scoring: Scoring,
    seeds: Seq<usize>,
    learned_percent: u16,
    candidate: usize,
) -> Result<u64, ContextualError> {
    match context_prepared(scoring, seeds, learned_percent) {
        Err(error) => Err(error),
        Ok(_) => Ok((scoring.distance)(seeds, learned_percent, seeds, candidate)),
    }
}

/// The distance of a candidate from a seed window under a matrix selected before.
pub open spec fn matrix_distance(
    scoring: Scoring,
    matrix: ContextMatrixView,
    seeds: Seq<usize>,
    candidate: usize,
) -> Result<u64, ContextualError> {
    if seeds.len() == 0 {
        Err(ContextualError::EmptySeeds)
    } else {
        Ok((scoring.distance)(matrix.seeds, matrix.learned_percent, seeds, candidate))
    }
}

/// What a selected matrix stands for.
#[verifier::ext_equal]
pub struct ContextMatrixView {
    pub seeds: Seq<usize>,
    pub learned_percent: u16,
}

/// The matrix selected for a seed window, named by what it was selected from.
#[derive(Clone, Debug, PartialEq, Eq)]
pub struct ContextMatrix {
    seeds: Vec<usize>,
    learned_percent: u16,
}

impl View for ContextMatrix {
    type V = ContextMatrixView;

    closed spec fn view(&self) -> ContextMatrixView {
        ContextMatrixView { seeds: self.seeds@, learned_percent: self.learned_percent }
    }
}

/// A seed window whose matrix has been selected.
#[derive(Clone, Debug)]
pub struct PreparedAdaptiveContext {
    matrix: ContextMatrix,
}

impl View for PreparedAdaptiveContext {
    type V = ContextMatrixView;

    closed spec fn view(&self) -> ContextMatrixView {
        self.matrix@
    }
}

impl PreparedAdaptiveContext {
    /// The distance of a candidate from the prepared window.
    pub fn distance_to<
        P: Fn(&[usize], u16) -> Result<(), ContextualError>,
        D: Fn(&[usize], u16, &[usize], usize) -> u64,
    >(&self, candidate: usize, scorer: &AdaptiveScorer<P, D>) -> (distance: u64)
        requires
            scorer.valid(),
        ensures
            distance == (scorer.scoring().distance)(
                self@.seeds,
                self@.learned_percent,
                self@.seeds,
                candidate,
            ),
    {
        scorer.measure(
            self.matrix.seeds.as_slice(),
            self.matrix.learned_percent,
            self.matrix.seeds.as_slice(),
            candidate,
        )
    }

    /// The matrix that was selected.
    pub fn matrix(&self) -> (matrix: &ContextMatrix)
        ensures
            matrix@ == self@,
    {
        &self.matrix
    }

    /// Gives the matrix away.
    pub fn into_matrix(self) -> (matrix: ContextMatrix)
        ensures
            matrix@ == self@,
    {
        self.matrix
    }
}

/// Measures a candidate against a seed window under the window's own matrix.
pub fn adaptive_distance_from_seeds<
    P: Fn(&[usize], u16) -> Result<(), ContextualError>,
    D: Fn(&[usize], u16, &[usize], usize) -> u64,
>(
    seeds: &[usize],
    candidate: usize,
    scorer: &AdaptiveScorer<P, D>,
    learned_percent: u16,
) -> (distance: Result<u64, ContextualError>)
    requires
        scorer.valid(),
    ensures
        distance == context_distance(scorer.scoring(), seeds@, learned_percent, candidate),
{
    if seeds.len() == 0 {
        return Err(ContextualError::EmptySeeds);
    }
    match scorer.select(seeds, learned_percent) {
        Err(error) => Err(error),
        Ok(_) => Ok(scorer.measure(seeds, learned_percent, seeds, candidate)),
    }
}

/// Measures a candidate against a seed window under a matrix selected before.
pub fn adaptive_distance_with_matrix<
    P: Fn(&[usize], u16) -> Result<(), ContextualError>,
    D: Fn(&[usize], u16, &[usize], usize) -> u64,
>(
    seeds: &[usize],
    candidate: usize,
    scorer: &AdaptiveScorer<P, D>,
    matrix: &ContextMatrix,
) -> (distance: Result<u64, ContextualError>)
    requires
        scorer.valid(),
    ensures
        distance == matrix_distance(scorer.scoring(), matrix@, seeds@, candidate),
{
    if seeds.len() == 0 {
        return Err(ContextualError::EmptySeeds);
    }
    Ok(scorer.measure(matrix.seeds.as_slice(), matrix.learned_percent, seeds, candidate))
}

/// Selects the matrix for a seed window.
pub fn prepare_adaptive_context<
    P: Fn(&[usize], u16) -> Result<(), ContextualError>,
    D: Fn(&[usize], u16, &[usize], usize) -> u64,
>(seeds: &[usize], scorer: &AdaptiveScorer<P, D>, learned_percent: u16) -> (prepared: Result<
    PreparedAdaptiveContext,
    ContextualError,
>)
    requires
        scorer.valid(),
    ensures
        match context_prepared(scorer.scoring(), seeds@, learned_percent) {
            Ok(_) => prepared is Ok && prepared->Ok_0@ == (ContextMatrixView {
                seeds: seeds@,
                learned_percent,
            }),
            Err(error) => prepared is Err && prepared->Err_0 == error,
        },
{
    if seeds.len() == 0 {
        return Err(ContextualError::EmptySeeds);
    }
    match scorer.select(seeds, learned_percent) {
        Err(error) => Err(error),
        Ok(_) => Ok(
            PreparedAdaptiveContext {
                matrix: ContextMatrix { seeds: crate::sequences::copied(seeds), learned_percent },
            },
        ),
    }
}

/// Measuring through a prepared context is measuring from the seeds.
pub proof fn prepared_context_agrees_with_seeds(
    scoring: Scoring,
    seeds: Seq<usize>,
    learned_percent: u16,
    candidate: usize,
)
    requires
        context_prepared(scoring, seeds, learned_percent) is Ok,
    ensures
        context_distance(scoring, seeds, learned_percent, candidate) == matrix_distance(
            scoring,
            ContextMatrixView { seeds, learned_percent },
            seeds,
            candidate,
        ),
{
}

} // verus!
