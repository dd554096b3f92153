//! What texts, numbers and fractions come to.

use crate::contextual::{context_distance, ContextualError, Scoring};
use crate::reports::ScoredLeg;
use crate::requests::AdaptiveSettings;
use crate::scoring::{heard_before, measured_truly};
use crate::text::{
    decimal, digit, digit_value, is_space, number, number_from, text_at_most, text_less_from, words,
    words_from,
};
use crate::units::{fraction, UNIT};
use vstd::prelude::*;

verus! {

// Numbers.

proof fn lemma_digit(value: int)
    requires
        0 <= value <= 9,
    ensures
        digit_value(digit(value)) == value,
        digit(value) != '+',
{
}

proof fn lemma_number_of_front(text: Seq<char>, last: char, at: int, value: int)
    requires
        0 <= at <= text.len(),
        0 <= value,
    ensures
        match number_from(text, at, value) {
            Some(front) => number_from(text.push(last), at, value) == if digit_value(last) > 9
                || front * 10 + digit_value(last) > u64::MAX {
                None::<int>
            } else {
                Some(front * 10 + digit_value(last))
            },
            None => true,
        },
    decreases text.len() - at,
{
    let longer = text.push(last);
    if at < text.len() {
        assert(longer[at] == text[at]);
        if !(digit_value(text[at]) > 9 || value * 10 + digit_value(text[at]) > u64::MAX) {
            lemma_number_of_front(text, last, at + 1, value * 10 + digit_value(text[at]));
        }
    } else {
        assert(longer[at] == last);
        reveal_with_fuel(number_from, 3);
    }
}

proof fn lemma_reads_back(value: int)
    requires
        0 <= value <= u64::MAX,
    ensures
        decimal(value).len() > 0,
        decimal(value)[0] != '+',
        number_from(decimal(value), 0, 0) == Some(value),
    decreases value,
{
    if value < 10 {
        lemma_digit(value);
        reveal_with_fuel(number_from, 3);
    } else {
        lemma_reads_back(value / 10);
        lemma_digit(value % 10);
        lemma_number_of_front(decimal(value / 10), digit(value % 10), 0, 0);
        assert(decimal(value)[0] == decimal(value / 10)[0]);
    }
}

/// A number that is written is read back as it was.
pub proof fn written_numbers_read_back(value: int)
    requires
        0 <= value <= u64::MAX,
    ensures
        number(decimal(value)) == Some(value),
{
    lemma_reads_back(value);
}

/// No two numbers are written alike.
pub proof fn numbers_are_told_apart(a: int, b: int)
    requires
        0 <= a <= u64::MAX,
        0 <= b <= u64::MAX,
        decimal(a) == decimal(b),
    ensures
        a == b,
{
    written_numbers_read_back(a);
    written_numbers_read_back(b);
}

// The order of texts.

/// Whether the first place at which two texts differ, or at which the left one is
/// over, puts the left one first.
pub open spec fn differs_first(left: Seq<char>, right: Seq<char>, at: int) -> bool {
    &&& 0 <= at < right.len()
    &&& at <= left.len()
    &&& forall|i: int| 0 <= i < at ==> #[trigger] left[i] == right[i]
    &&& at == left.len() || left[at] < right[at]
}

proof fn lemma_differs_first(left: Seq<char>, right: Seq<char>, from: int)
    requires
        0 <= from <= left.len(),
        from <= right.len(),
        forall|i: int| 0 <= i < from ==> #[trigger] left[i] == right[i],
    ensures
        text_less_from(left, right, from) <==> exists|at: int| #[trigger]
            differs_first(left, right, at),
    decreases left.len() - from,
{
    if from < right.len() && (from == left.len() || left[from] < right[from]) {
        assert(differs_first(left, right, from));
    } else if from < right.len() && left[from] == right[from] {
        lemma_differs_first(left, right, from + 1);
    } else if exists|at: int| #[trigger] differs_first(left, right, at) {
        let at = choose|at: int| #[trigger] differs_first(left, right, at);
        if at > from {
            assert(left[from] == right[from]);
        }
    }
}

/// A text comes no later than another unless that one has the smaller character
/// at the first place at which they differ, or is over where this one goes on.
pub proof fn texts_come_by_their_first_difference(left: Seq<char>, right: Seq<char>)
    ensures
        text_at_most(left, right) <==> !exists|at: int| #[trigger] differs_first(right, left, at),
{
    lemma_differs_first(right, left, 0);
}

// Words.

/// A text without its white space, from a place on.
pub open spec fn unspaced(text: Seq<char>, at: int) -> Seq<char>
    decreases text.len() - at,
{
    if at >= text.len() {
        seq![]
    } else if is_space(text[at]) {
        unspaced(text, at + 1)
    } else {
        seq![text[at]] + unspaced(text, at + 1)
    }
}

/// Words one behind the other.
pub open spec fn run_together(list: Seq<Seq<char>>) -> Seq<char>
    decreases list.len(),
{
    if list.len() == 0 {
        seq![]
    } else {
        run_together(list.drop_last()) + list.last()
    }
}

/// Whether a word is one: it has characters, and none of them is white space.
pub open spec fn is_word(word: Seq<char>) -> bool {
    &&& word.len() > 0
    &&& forall|i: int| 0 <= i < word.len() ==> !is_space(#[trigger] word[i])
}

proof fn lemma_words(text: Seq<char>, at: int, word: Seq<char>, done: Seq<Seq<char>>)
    requires
        0 <= at <= text.len(),
        forall|i: int| 0 <= i < word.len() ==> !is_space(#[trigger] word[i]),
        forall|i: int| 0 <= i < done.len() ==> is_word(#[trigger] done[i]),
    ensures
        forall|i: int|
            0 <= i < words_from(text, at, word, done).len() ==> is_word(
                #[trigger] words_from(text, at, word, done)[i],
            ),
        run_together(words_from(text, at, word, done)) == run_together(done) + word + unspaced(
            text,
            at,
        ),
    decreases text.len() - at,
{
    let pushed = done.push(word);
    assert(pushed.drop_last() =~= done);
    assert(run_together(pushed) == run_together(done) + word);
    if at >= text.len() {
        assert(run_together(done) + word + unspaced(text, at) =~= run_together(done) + word);
        if word.len() == 0 {
            assert(run_together(done) + word =~= run_together(done));
        }
    } else if is_space(text[at]) {
        let next = if word.len() > 0 {
            pushed
        } else {
            done
        };
        assert forall|i: int| 0 <= i < next.len() implies is_word(#[trigger] next[i]) by {
            if i < done.len() {
                assert(next[i] == done[i]);
            }
        }
        lemma_words(text, at + 1, seq![], next);
        assert(words_from(text, at, word, done) == words_from(text, at + 1, seq![], next));
        assert(run_together(next) =~= run_together(done) + word);
        assert(run_together(next) + seq![] + unspaced(text, at + 1) =~= run_together(done) + word
            + unspaced(text, at));
    } else {
        let longer = word.push(text[at]);
        lemma_words(text, at + 1, longer, done);
        assert(words_from(text, at, word, done) == words_from(text, at + 1, longer, done));
        assert(run_together(done) + longer + unspaced(text, at + 1) =~= run_together(done) + word
            + unspaced(text, at));
    }
}

/// The words of a text hold all its characters but the white space, in order.
/// None is empty, and none holds white space.
pub proof fn words_are_what_white_space_parts(text: Seq<char>)
    ensures
        forall|i: int| 0 <= i < words(text).len() ==> is_word(#[trigger] words(text)[i]),
        run_together(words(text)) == unspaced(text, 0),
{
    lemma_words(text, 0, seq![], seq![]);
    assert(run_together(seq![]) + seq![] + unspaced(text, 0) =~= unspaced(text, 0));
}

// Fractions.

/// A fraction is within half a unit of what it stands for.
pub proof fn fractions_are_rounded_to_the_nearest(numerator: int, denominator: int)
    requires
        0 < denominator,
    ensures
        2 * numerator * UNIT - denominator <= 2 * fraction(numerator, denominator) * denominator
            <= 2 * numerator * UNIT + denominator,
{
    let scaled = 2 * numerator * (UNIT as int) + denominator;
    let twice = 2 * denominator;
    let quotient = scaled / twice;
    assert(quotient * twice <= scaled < (quotient + 1) * twice) by (nonlinear_arith)
        requires
            quotient == scaled / twice,
            twice > 0,
    ;
    assert(quotient * twice == 2 * quotient * denominator && (quotient + 1) * twice == 2 * quotient
        * denominator + twice) by (nonlinear_arith)
        requires
            twice == 2 * denominator,
    ;
}

// What a track is heard behind.

/// A transition of a playlist is measured from the tracks that are heard before
/// it: as many as are heard together, or all of them where there are fewer.
pub proof fn transitions_are_heard_behind_the_last_tracks(
    leg: ScoredLeg,
    scoring: Scoring,
    algorithm: Seq<char>,
    has_matrix: bool,
    settings: AdaptiveSettings,
    position: int,
)
    requires
        0 <= position <= usize::MAX,
        measured_truly(leg, scoring, algorithm, has_matrix, settings, position),
    ensures
        leg.position == position,
        settings.seed_limit <= position ==> leg.seed_start == position - settings.seed_limit,
        settings.seed_limit > position ==> leg.seed_start == 0,
        context_distance(
            scoring,
            Seq::new(
                (position - leg.seed_start) as nat,
                |i: int| (leg.seed_start + i) as usize,
            ),
            settings.learned_percent,
            position as usize,
        ) == Ok::<u64, ContextualError>(leg.distance),
{
    let window = heard_before(position, settings.seed_limit);
    assert(window =~= Seq::new(
        (position - leg.seed_start) as nat,
        |i: int| (leg.seed_start + i) as usize,
    ));
}

} // verus!
