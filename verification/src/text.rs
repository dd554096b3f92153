//! Text that messages and identity keys are made of.

use vstd::prelude::*;
use vstd::string::*;

verus! {

/// The digit that stands for a value below ten.
pub open spec fn digit(value: int) -> char {
    if value == 0 {
        '0'
    } else if value == 1 {
        '1'
    } else if value == 2 {
        '2'
    } else if value == 3 {
        '3'
    } else if value == 4 {
        '4'
    } else if value == 5 {
        '5'
    } else if value == 6 {
        '6'
    } else if value == 7 {
        '7'
    } else if value == 8 {
        '8'
    } else {
        '9'
    }
}

/// A number written in decimal without leading zeros.
pub open spec fn decimal(value: int) -> Seq<char>
    decreases value,
{
    if value < 10 {
        seq![digit(value)]
    } else {
        decimal(value / 10).push(digit(value % 10))
    }
}

fn append_digit(out: &mut String, value: u64)
    requires
        value < 10,
    ensures
        final(out)@ == old(out)@.push(digit(value as int)),
{
    let text = match value {
        0 => "0",
        1 => "1",
        2 => "2",
        3 => "3",
        4 => "4",
        5 => "5",
        6 => "6",
        7 => "7",
        8 => "8",
        _ => "9",
    };
    proof {
        reveal_strlit("0");
        reveal_strlit("1");
        reveal_strlit("2");
        reveal_strlit("3");
        reveal_strlit("4");
        reveal_strlit("5");
        reveal_strlit("6");
        reveal_strlit("7");
        reveal_strlit("8");
        reveal_strlit("9");
        assert(text@ =~= seq![digit(value as int)]);
    }
    let ghost before = out@;
    out.append(text);
    assert(out@ =~= before.push(digit(value as int)));
}

/// Appends a number in decimal.
pub fn append_decimal(out: &mut String, value: u64)
    ensures
        final(out)@ == old(out)@ + decimal(value as int),
    decreases value,
{
    let ghost before = out@;
    if value < 10 {
        append_digit(out, value);
        assert(out@ =~= before + decimal(value as int));
    } else {
        append_decimal(out, value / 10);
        append_digit(out, value % 10);
        assert(out@ =~= before + decimal(value as int));
    }
}

/// Three pieces of text and a number between the first two.
pub fn text_with_number(before: &str, number: u64, after: &str) -> (text: String)
    ensures
        text@ == before@ + decimal(number as int) + after@,
{
    let mut text = before.to_owned();
    append_decimal(&mut text, number);
    text.append(after);
    text
}

/// Text put around other text.
pub fn text_around(before: &str, middle: &str, after: &str) -> (text: String)
    ensures
        text@ == before@ + middle@ + after@,
{
    let mut text = before.to_owned();
    text.append(middle);
    text.append(after);
    text
}

/// Two texts put between three others.
pub fn text_around_two(before: &str, first: &str, between: &str, second: &str, after: &str) -> (text:
    String)
    ensures
        text@ == before@ + first@ + between@ + second@ + after@,
{
    let mut text = before.to_owned();
    text.append(first);
    text.append(between);
    text.append(second);
    text.append(after);
    text
}

// Texts that may be missing.

/// The value of a text that may be missing.
pub open spec fn text_in(text: Option<String>) -> Option<Seq<char>> {
    match text {
        Some(text) => Some(text@),
        None => None,
    }
}

/// A copy of a text that may be missing.
pub fn copied_text(text: &Option<String>) -> (copy: Option<String>)
    ensures
        text_in(copy) == text_in(*text),
{
    match text {
        Some(text) => Some(text.clone()),
        None => None,
    }
}

// Characters.

/// Whether a character is white space by the Unicode property of that name.
pub open spec fn is_space(character: char) -> bool {
    let code = character as int;
    ||| 0x9 <= code <= 0xd
    ||| code == 0x20
    ||| code == 0x85
    ||| code == 0xa0
    ||| code == 0x1680
    ||| 0x2000 <= code <= 0x200a
    ||| code == 0x2028
    ||| code == 0x2029
    ||| code == 0x202f
    ||| code == 0x205f
    ||| code == 0x3000
}

/// Whether std counts a character as upper case.
pub uninterp spec fn is_upper(character: char) -> bool;

/// The lower-case form that std gives a text.
pub uninterp spec fn lowercased(text: Seq<char>) -> Seq<char>;

/// Decides whether a character is white space.
pub fn char_is_space(character: char) -> (space: bool)
    ensures
        space == is_space(character),
{
    let code: u32 = character as u32;
    (0x9 <= code && code <= 0xd) || code == 0x20 || code == 0x85 || code == 0xa0 || code == 0x1680
        || (0x2000 <= code && code <= 0x200a) || code == 0x2028 || code == 0x2029 || code == 0x202f
        || code == 0x205f || code == 0x3000
}

/// Calls `char::is_uppercase`, which decides by the character's `Uppercase`
/// property in the Unicode tables that std ships with. Which characters have it
/// stays unsaid.
#[verifier::external_body]
pub(crate) fn char_is_upper(character: char) -> (upper: bool)
    ensures
        upper == is_upper(character),
{
    character.is_uppercase()
}

/// Calls `str::to_lowercase`, which maps a text to lower case by the Unicode
/// tables that std ships with and looks at nothing but the text. What the
/// mapping is stays unsaid.
#[verifier::external_body]
pub(crate) fn lowercase(text: &str) -> (lower: String)
    ensures
        lower@ == lowercased(text@),
{
    text.to_lowercase()
}

/// Calls `String::from_iter` on characters: the text is made of them in order.
#[verifier::external_body]
pub(crate) fn text_of(characters: &[char]) -> (text: String)
    ensures
        text@ == characters@,
{
    String::from_iter(characters)
}

/// The characters of a text.
pub fn chars_of(text: &str) -> (characters: Vec<char>)
    ensures
        characters@ == text@,
{
    let mut characters: Vec<char> = Vec::new();
    for character in iter: text.chars()
        invariant
            iter.seq() == text@,
            characters@ =~= text@.take(iter.index() as int),
    {
        characters.push(character);
    }
    assert(characters@ =~= text@);
    characters
}

/// Whether `left`, compared with `right` from position `from` on, comes first
/// by code point.
pub open spec fn text_less_from(left: Seq<char>, right: Seq<char>, from: int) -> bool
    decreases left.len() - from,
{
    if from >= right.len() {
        false
    } else if from >= left.len() {
        true
    } else if left[from] != right[from] {
        left[from] < right[from]
    } else {
        text_less_from(left, right, from + 1)
    }
}

/// Whether `left` comes no later than `right` by code point.
pub open spec fn text_at_most(left: Seq<char>, right: Seq<char>) -> bool {
    !text_less_from(right, left, 0)
}

/// The order of texts by code point.
pub open spec fn texts_in_order() -> spec_fn(Seq<char>, Seq<char>) -> bool {
    |left: Seq<char>, right: Seq<char>| text_at_most(left, right)
}

/// Whether two texts are the same.
pub open spec fn same_text() -> spec_fn(Seq<char>, Seq<char>) -> bool {
    |left: Seq<char>, right: Seq<char>| left == right
}

proof fn lemma_text_less_strict(left: Seq<char>, right: Seq<char>, from: int)
    requires
        0 <= from <= left.len(),
        from <= right.len(),
        forall|i: int| 0 <= i < from ==> left[i] == right[i],
    ensures
        !(text_less_from(left, right, from) && text_less_from(right, left, from)),
        !text_less_from(left, right, from) && !text_less_from(right, left, from) ==> left == right,
    decreases left.len() - from,
{
    if from < left.len() && from < right.len() && left[from] == right[from] {
        lemma_text_less_strict(left, right, from + 1);
    } else if from >= left.len() && from >= right.len() {
        assert(left =~= right);
    }
}

proof fn lemma_text_less_transitive(a: Seq<char>, b: Seq<char>, c: Seq<char>, from: int)
    requires
        0 <= from,
        text_less_from(a, b, from),
        text_less_from(b, c, from),
    ensures
        text_less_from(a, c, from),
    decreases b.len() - from,
{
    if from < a.len() && from < b.len() && from < c.len() && a[from] == b[from] && b[from]
        == c[from] {
        lemma_text_less_transitive(a, b, c, from + 1);
    }
}

/// The order by code point ranks texts, and ranks equal only the same ones.
pub proof fn lemma_text_order(a: Seq<char>, b: Seq<char>, c: Seq<char>)
    ensures
        text_at_most(a, b) || text_at_most(b, a),
        text_at_most(a, b) && text_at_most(b, a) ==> a == b,
        text_at_most(a, b) && text_at_most(b, c) ==> text_at_most(a, c),
{
    lemma_text_less_strict(a, b, 0);
    if text_at_most(a, b) && text_at_most(b, c) && text_less_from(c, a, 0) {
        lemma_text_less_strict(b, c, 0);
        if text_less_from(a, b, 0) && text_less_from(b, c, 0) {
            lemma_text_less_transitive(a, b, c, 0);
            lemma_text_less_strict(a, c, 0);
        }
    }
}

/// Texts can be sorted.
pub proof fn lemma_text_ranking()
    ensures
        crate::sorting::is_ranking(texts_in_order()),
{
    assert forall|a: Seq<char>, b: Seq<char>| #[trigger] texts_in_order()(a, b) || texts_in_order()(
        b,
        a,
    ) by {
        lemma_text_order(a, b, a);
    }
    assert forall|a: Seq<char>, b: Seq<char>, c: Seq<char>|
        #![trigger texts_in_order()(a, b), texts_in_order()(b, c)]
        texts_in_order()(a, b) && texts_in_order()(b, c) implies texts_in_order()(a, c) by {
        lemma_text_order(a, b, c);
    }
}

fn char_before(left: char, right: char) -> (before: bool)
    ensures
        before == (left < right),
{
    let left_code: u32 = left as u32;
    let right_code: u32 = right as u32;
    left_code < right_code
}

/// Decides the order of two texts.
pub fn in_text_order(left: &str, right: &str) -> (ordered: bool)
    ensures
        ordered == text_at_most(left@, right@),
{
    let left_chars = chars_of(left);
    let right_chars = chars_of(right);
    let mut at: usize = 0;
    while at < left_chars.len() && at < right_chars.len()
        invariant
            at <= left_chars@.len(),
            at <= right_chars@.len(),
            left_chars@ == left@,
            right_chars@ == right@,
            text_less_from(right_chars@, left_chars@, 0) == text_less_from(
                right_chars@,
                left_chars@,
                at as int,
            ),
        decreases left_chars@.len() - at,
    {
        let left_char: char = left_chars[at];
        let right_char: char = right_chars[at];
        if left_char != right_char {
            return char_before(left_char, right_char);
        }
        at += 1;
    }
    at >= left_chars.len()
}

/// Texts in order, each once.
pub open spec fn sorted_keys(keys: Seq<Seq<char>>) -> Seq<Seq<char>> {
    crate::sorting::dedup(crate::sorting::stable_sort(keys, texts_in_order()), same_text())
}

/// Sorts texts and drops repeats.
pub fn sort_keys(keys: Vec<String>) -> (sorted: Vec<String>)
    ensures
        crate::sequences::views(sorted@) == sorted_keys(crate::sequences::views(keys@)),
{
    proof {
        lemma_text_ranking();
    }
    let leq = |a: &String, b: &String| -> (first: bool)
        ensures
            first == texts_in_order()(a@, b@),
        { in_text_order(a.as_str(), b.as_str()) };
    let same = |a: &String, b: &String| -> (equal: bool)
        ensures
            equal == same_text()(a@, b@),
        { *a == *b };
    let sorted = crate::sorting::sort_views(keys, &leq, Ghost(texts_in_order()));
    crate::sorting::dedup_views(sorted, &same, Ghost(same_text()))
}

// ASCII.

/// A character with an ASCII capital turned into the small letter.
pub open spec fn ascii_lower(character: char) -> char {
    if 65 <= character as u32 && character as u32 <= 90 {
        ((character as u32) + 32) as char
    } else {
        character
    }
}

/// A text with its ASCII capitals turned into small letters.
pub open spec fn ascii_lowered(text: Seq<char>) -> Seq<char> {
    Seq::new(text.len(), |i: int| ascii_lower(text[i]))
}

fn ascii_lower_char(character: char) -> (lower: char)
    ensures
        lower == ascii_lower(character),
{
    if 65 <= character as u32 && character as u32 <= 90 {
        ((character as u8) + 32) as char
    } else {
        character
    }
}

fn ascii_lower_chars(text: &str) -> (lower: Vec<char>)
    ensures
        lower@ == ascii_lowered(text@),
{
    let characters = chars_of(text);
    let mut lower: Vec<char> = Vec::new();
    let mut at: usize = 0;
    while at < characters.len()
        invariant
            at <= characters@.len(),
            characters@ == text@,
            lower@ =~= ascii_lowered(text@).take(at as int),
        decreases characters@.len() - at,
    {
        lower.push(ascii_lower_char(characters[at]));
        at += 1;
    }
    assert(lower@ =~= ascii_lowered(text@));
    lower
}

/// Turns the ASCII capitals of a text into small letters.
pub fn ascii_lowercase(text: &str) -> (lower: String)
    ensures
        lower@ == ascii_lowered(text@),
{
    text_of(ascii_lower_chars(text).as_slice())
}

/// Whether two texts are equal but for ASCII case.
pub fn equal_but_for_case(left: &str, right: &str) -> (equal: bool)
    ensures
        equal == (ascii_lowered(left@) == ascii_lowered(right@)),
{
    let left_lower = ascii_lower_chars(left);
    let right_lower = ascii_lower_chars(right);
    same_chars(left_lower.as_slice(), right_lower.as_slice())
}

/// Whether two sequences of characters are the same.
pub fn same_chars(left: &[char], right: &[char]) -> (same: bool)
    ensures
        same == (left@ == right@),
{
    if left.len() != right.len() {
        return false;
    }
    let mut at: usize = 0;
    while at < left.len()
        invariant
            at <= left@.len(),
            left@.len() == right@.len(),
            forall|i: int| 0 <= i < at ==> left@[i] == right@[i],
        decreases left@.len() - at,
    {
        if left[at] != right[at] {
            return false;
        }
        at += 1;
    }
    assert(left@ =~= right@);
    true
}

// Words.

/// The words of a text from `at` on, the first of them begun with `word`,
/// behind those in `done`. Words are what white space separates.
pub open spec fn words_from(
    text: Seq<char>,
    at: int,
    word: Seq<char>,
    done: Seq<Seq<char>>,
) -> Seq<Seq<char>>
    decreases text.len() - at,
{
    if at >= text.len() {
        if word.len() > 0 {
            done.push(word)
        } else {
            done
        }
    } else if is_space(text[at]) {
        words_from(
            text,
            at + 1,
            seq![],
            if word.len() > 0 {
                done.push(word)
            } else {
                done
            },
        )
    } else {
        words_from(text, at + 1, word.push(text[at]), done)
    }
}

/// The words of a text.
pub open spec fn words(text: Seq<char>) -> Seq<Seq<char>> {
    words_from(text, 0, seq![], seq![])
}

/// The first `count` words in lower case with single spaces between them.
pub open spec fn joined_lower(list: Seq<Seq<char>>, count: int) -> Seq<char>
    decreases count,
{
    if count <= 0 {
        seq![]
    } else if count == 1 {
        lowercased(list[0])
    } else {
        joined_lower(list, count - 1) + " "@ + lowercased(list[count - 1])
    }
}

/// A name with its words in lower case and single spaces between them.
pub open spec fn normalized(text: Seq<char>) -> Seq<char> {
    joined_lower(words(text), words(text).len() as int)
}

fn split_words(text: &str) -> (list: Vec<String>)
    ensures
        crate::sequences::views(list@) == words(text@),
{
    let characters = chars_of(text);
    let mut list: Vec<String> = Vec::new();
    let mut word: Vec<char> = Vec::new();
    let mut at: usize = 0;
    assert(crate::sequences::views(list@) =~= seq![]);
    while at < characters.len()
        invariant
            at <= characters@.len(),
            characters@ == text@,
            words(text@) == words_from(
                text@,
                at as int,
                word@,
                crate::sequences::views(list@),
            ),
        decreases characters@.len() - at,
    {
        if char_is_space(characters[at]) {
            if word.len() > 0 {
                let finished = text_of(word.as_slice());
                proof {
                    crate::sequences::lemma_views_push(list@, finished);
                }
                list.push(finished);
            }
            word = Vec::new();
            assert(word@ =~= seq![]);
        } else {
            word.push(characters[at]);
        }
        at += 1;
    }
    if word.len() > 0 {
        let finished = text_of(word.as_slice());
        proof {
            crate::sequences::lemma_views_push(list@, finished);
        }
        list.push(finished);
    }
    list
}

/// Puts the words of a name in lower case with single spaces between them.
pub fn normalize(text: &str) -> (name: String)
    ensures
        name@ == normalized(text@),
{
    let list = split_words(text);
    let ghost all = words(text@);
    let mut name = String::new();
    let mut at: usize = 0;
    while at < list.len()
        invariant
            at <= list@.len(),
            all == crate::sequences::views(list@),
            name@ =~= joined_lower(all, at as int),
        decreases list@.len() - at,
    {
        if at > 0 {
            name.append(" ");
        }
        assert(all[at as int] == list@[at as int]@);
        let lower = lowercase(list[at].as_str());
        name.append(lower.as_str());
        at += 1;
    }
    name
}

// Prefixes and numbers.

/// Whether a text starts with another.
pub open spec fn starts_with(text: Seq<char>, prefix: Seq<char>) -> bool {
    text.len() >= prefix.len() && text.take(prefix.len() as int) == prefix
}

/// The rest of a text behind a prefix, when it has that prefix.
pub fn rest_behind(text: &str, prefix: &str) -> (rest: Option<String>)
    ensures
        match rest {
            Some(rest) => starts_with(text@, prefix@) && rest@ == text@.skip(prefix@.len() as int),
            None => !starts_with(text@, prefix@),
        },
{
    let text_chars = chars_of(text);
    let prefix_chars = chars_of(prefix);
    if text_chars.len() < prefix_chars.len() {
        return None;
    }
    let (head, tail) = text_chars.as_slice().split_at(prefix_chars.len());
    assert(head@ =~= text@.take(prefix@.len() as int));
    assert(tail@ =~= text@.skip(prefix@.len() as int));
    if same_chars(head, prefix_chars.as_slice()) {
        Some(text_of(tail))
    } else {
        None
    }
}

/// The value of a decimal digit, or ten for any other character.
pub open spec fn digit_value(character: char) -> int {
    if 48 <= character as u32 && character as u32 <= 57 {
        character as u32 - 48
    } else {
        10
    }
}

/// The number that the digits from `at` on write behind `value`, if they are
/// digits and the number stays below two to the 64th.
pub open spec fn number_from(text: Seq<char>, at: int, value: int) -> Option<int>
    decreases text.len() - at,
{
    if at >= text.len() {
        Some(value)
    } else if digit_value(text[at]) > 9 || value * 10 + digit_value(text[at]) > u64::MAX {
        None
    } else {
        number_from(text, at + 1, value * 10 + digit_value(text[at]))
    }
}

/// The number that a text writes: decimal digits, at least one, behind an
/// optional plus sign.
pub open spec fn number(text: Seq<char>) -> Option<int> {
    let start = if text.len() > 0 && text[0] == '+' {
        1
    } else {
        0int
    };
    if start >= text.len() {
        None
    } else {
        number_from(text, start, 0)
    }
}

/// Reads a number.
pub fn parse_number(text: &str) -> (value: Option<u64>)
    ensures
        match number(text@) {
            Some(expected) => value is Some && value->Some_0 == expected,
            None => value is None,
        },
{
    let characters = chars_of(text);
    let start: usize = if characters.len() > 0 && characters[0] == '+' { 1 } else { 0 };
    if start >= characters.len() {
        return None;
    }
    let mut value: u64 = 0;
    let mut at: usize = start;
    while at < characters.len()
        invariant
            at <= characters@.len(),
            characters@ == text@,
            number(text@) == number_from(text@, at as int, value as int),
        decreases characters@.len() - at,
    {
        let code: u32 = characters[at] as u32;
        if code < 48 || code > 57 {
            return None;
        }
        let digit: u64 = (code - 48) as u64;
        if value > (u64::MAX - digit) / 10 {
            return None;
        }
        value = value * 10 + digit;
        at += 1;
    }
    Some(value)
}

/// Whether two texts are the same.
pub fn is_text(left: &str, right: &str) -> (same: bool)
    ensures
        same == (left@ == right@),
{
    let left_chars = chars_of(left);
    let right_chars = chars_of(right);
    same_chars(left_chars.as_slice(), right_chars.as_slice())
}

} // verus!
