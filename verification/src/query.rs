//! The query language: what a line of search text asks for.
//!
//! A query names a range of dates, known people, whether faces must or must not be
//! seen, file types, a limit on the number of results, words that must not occur and
//! words that should. `parse_query` finds all of these and leaves the rest as the
//! text of a semantic search.

use vstd::prelude::*;
use vstd::utf8::{decode_utf8, encode_utf8, encode_utf8_decode_utf8, is_char_boundary};

use crate::calendar::{
    date_bounds, day_range, law_moments_are_ordered_as_texts, moment_string, month_length, named_range, open_range,
    CivilTime, DateRange, DateRangeText,
};
use crate::number::{is_decimal_digit, is_digit, read_digits, unsigned_digits};
use crate::text::{
    append_chars, blank, blank_run, chars_of, contains, find, find_text, has_text, holds_text, is_whitespace, join,
    joined, lemma_nothing_trimmed, lemma_pieces_hold_no_separator, lemma_run_bounds, lemma_run_length,
    lemma_tail_length, lemma_trimmed_ends, lowercase, occurs_at, part_of, pieces, replace, replaced, rows, run_length,
    slices, split_marked, string_of, tail_length, text_before, texts, to_lowercase, trim, trimmed, white_space,
};

verus! {

/// Whether a result must show a face.
#[derive(Debug, Clone, Copy, PartialEq, Eq, Structural)]
pub enum FacePresence {
    Any,
    Required,
    Forbidden,
}

impl Default for FacePresence {
    fn default() -> (presence: Self)
        ensures
            presence == FacePresence::Any,
    {
        FacePresence::Any
    }
}

/// The words of a query.
#[derive(Debug, Clone)]
pub struct TextQueryPlan {
    pub should: Vec<String>,
    pub must: Vec<String>,
    pub must_not: Vec<String>,
}

/// What a query asks for.
#[derive(Debug, Clone)]
pub struct QueryPlan {
    pub semantic_query: String,
    pub text: TextQueryPlan,
    pub people_include: Vec<String>,
    pub people_exclude: Vec<String>,
    pub face_presence: FacePresence,
    pub date: DateRange,
    pub extensions: Vec<String>,
    pub limit: Option<usize>,
}

/// The texts of a `QueryPlan`.
pub struct PlanText {
    pub semantic_query: Seq<char>,
    pub should: Seq<Seq<char>>,
    pub must: Seq<Seq<char>>,
    pub must_not: Seq<Seq<char>>,
    pub people_include: Seq<Seq<char>>,
    pub people_exclude: Seq<Seq<char>>,
    pub face_presence: FacePresence,
    pub date: DateRangeText,
    pub extensions: Seq<Seq<char>>,
    pub limit: Option<nat>,
}

impl View for QueryPlan {
    type V = PlanText;

    open spec fn view(&self) -> PlanText {
        PlanText {
            semantic_query: self.semantic_query@,
            should: texts(self.text.should@),
            must: texts(self.text.must@),
            must_not: texts(self.text.must_not@),
            people_include: texts(self.people_include@),
            people_exclude: texts(self.people_exclude@),
            face_presence: self.face_presence,
            date: self.date@,
            extensions: texts(self.extensions@),
            limit: match self.limit {
                Some(limit) => Some(limit as nat),
                None => None,
            },
        }
    }
}

// ---------------------------------------------------------------------------
// Vocabulary
// ---------------------------------------------------------------------------

/// Words that say nothing about a picture.
pub open spec fn stop_words() -> Seq<Seq<char>> {
    seq![
        "的"@, "和"@, "與"@, "在"@, "有"@, "一張"@, "一些"@, "照片"@, "相片"@, "圖片"@, "影像"@, "找"@, "找出"@,
        "請"@, "幫我"@, "顯示"@, "列出"@, "相關"@, "最"@, "看"@, "只"@, "其中"@, "裡"@, "中"@, "張"@,
    ]
}

/// Words that a date is made of.
pub open spec fn date_words() -> Seq<Seq<char>> {
    seq![
        "去年夏天"@, "今年夏天"@, "前年"@, "去年"@, "今年"@, "明年"@, "夏天"@, "年"@, "月"@, "日"@,
    ]
}

/// Words that a limit follows.
pub open spec fn limit_markers() -> Seq<Seq<char>> {
    seq!["最多"@, "前"@, "取"@]
}

/// Phrases that ask for pictures without faces.
pub open spec fn faceless_phrases() -> Seq<Seq<char>> {
    seq!["不要有人"@, "沒有人的"@, "沒有臉"@, "無人臉"@, "無人物"@, "不要人"@]
}

/// Phrases that ask for pictures with faces.
pub open spec fn face_phrases() -> Seq<Seq<char>> {
    seq!["有人臉"@, "有人"@, "人物"@, "人像"@, "合照"@]
}

/// Words that a word to be left out follows.
pub open spec fn exclusion_markers() -> Seq<Seq<char>> {
    seq!["不要"@, "不含"@, "排除"@, "沒有"@]
}

/// Words of negation.
pub open spec fn negations() -> Seq<Seq<char>> {
    seq!["不要"@, "不含"@, "排除"@, "沒有"@, "無"@]
}

/// The file types of pictures.
pub open spec fn image_extensions() -> Seq<Seq<char>> {
    seq!["jpg"@, "jpeg"@, "png"@, "webp"@, "gif"@, "bmp"@]
}

fn stop_word_list() -> (words: Vec<&'static str>)
    ensures
        slices(words@) == stop_words(),
{
    let words: Vec<&'static str> = vec![
        "的", "和", "與", "在", "有", "一張", "一些", "照片", "相片", "圖片", "影像", "找", "找出",
        "請", "幫我", "顯示", "列出", "相關", "最", "看", "只", "其中", "裡", "中", "張",
    ];
    assert(slices(words@) =~= stop_words());
    words
}

fn date_word_list() -> (words: Vec<&'static str>)
    ensures
        slices(words@) == date_words(),
{
    let words: Vec<&'static str> = vec![
        "去年夏天", "今年夏天", "前年", "去年", "今年", "明年", "夏天", "年", "月", "日",
    ];
    assert(slices(words@) =~= date_words());
    words
}

fn limit_marker_list() -> (words: Vec<&'static str>)
    ensures
        slices(words@) == limit_markers(),
{
    let words: Vec<&'static str> = vec!["最多", "前", "取"];
    assert(slices(words@) =~= limit_markers());
    words
}

fn faceless_phrase_list() -> (words: Vec<&'static str>)
    ensures
        slices(words@) == faceless_phrases(),
{
    let words: Vec<&'static str> = vec!["不要有人", "沒有人的", "沒有臉", "無人臉", "無人物", "不要人"];
    assert(slices(words@) =~= faceless_phrases());
    words
}

fn face_phrase_list() -> (words: Vec<&'static str>)
    ensures
        slices(words@) == face_phrases(),
{
    let words: Vec<&'static str> = vec!["有人臉", "有人", "人物", "人像", "合照"];
    assert(slices(words@) =~= face_phrases());
    words
}

fn exclusion_marker_list() -> (words: Vec<&'static str>)
    ensures
        slices(words@) == exclusion_markers(),
{
    let words: Vec<&'static str> = vec!["不要", "不含", "排除", "沒有"];
    assert(slices(words@) =~= exclusion_markers());
    words
}

fn negation_list() -> (words: Vec<&'static str>)
    ensures
        slices(words@) == negations(),
{
    let words: Vec<&'static str> = vec!["不要", "不含", "排除", "沒有", "無"];
    assert(slices(words@) =~= negations());
    words
}

pub(crate) fn image_extension_list() -> (words: Vec<&'static str>)
    ensures
        slices(words@) == image_extensions(),
{
    let words: Vec<&'static str> = vec!["jpg", "jpeg", "png", "webp", "gif", "bmp"];
    assert(slices(words@) =~= image_extensions());
    words
}

// ---------------------------------------------------------------------------
// Dates
// ---------------------------------------------------------------------------

/// The decimal digits.
pub open spec fn digit() -> spec_fn(char) -> bool {
    |character: char| is_digit(character)
}

/// The number whose digits end the text, if it fits 32 bits.
pub open spec fn trailing_number(text: Seq<char>) -> Option<int> {
    let digits = text.skip(text.len() - tail_length(text, digit()));
    match unsigned_digits(digits) {
        Some(value) if value <= i32::MAX => Some(value as int),
        _ => None,
    }
}

/// The number that stands right before the first occurrence of a word.
pub open spec fn number_before(text: Seq<char>, word: Seq<char>) -> Option<int> {
    match find_text(text, word) {
        Some(at) => trailing_number(text.take(at)),
        None => None,
    }
}

/// The summer of a year: June to August.
pub open spec fn summer(year: int) -> DateRangeText {
    day_range(year, 6, 1, 8, 31)
}

/// What a year with an optional month and day names, or else every date.
pub open spec fn named_or_open(year: int, month: Option<int>, day: Option<int>) -> DateRangeText {
    match named_range(year, month, day) {
        Some(range) => range,
        None => open_range(),
    }
}

/// The dates that a query asks for in the year `now_year`.
pub open spec fn date_range_of(query: Seq<char>, now_year: int) -> DateRangeText {
    if holds_text(query, "去年夏天"@) {
        summer(now_year - 1)
    } else if holds_text(query, "今年夏天"@) {
        summer(now_year)
    } else if holds_text(query, "前年"@) {
        named_or_open(now_year - 2, None, None)
    } else if holds_text(query, "去年"@) {
        named_or_open(now_year - 1, None, None)
    } else if holds_text(query, "今年"@) {
        named_or_open(now_year, None, None)
    } else if holds_text(query, "明年"@) {
        named_or_open(now_year + 1, None, None)
    } else {
        match number_before(query, "年"@) {
            Some(year) => named_or_open(year, number_before(query, "月"@), number_before(query, "日"@)),
            None => open_range(),
        }
    }
}

/// The number whose digits end right before position `end`.
fn number_up_to(text: &Vec<char>, end: usize) -> (number: Option<i32>)
    requires
        end <= text@.len(),
    ensures
        match number {
            Some(number) => trailing_number(text@.take(end as int)) == Some(number as int),
            None => trailing_number(text@.take(end as int)) is None,
        },
{
    let ghost head = text@.take(end as int);
    let mut start: usize = end;
    while start > 0 && is_decimal_digit(text[start - 1])
        invariant
            start <= end <= text@.len(),
            head == text@.take(end as int),
            forall|i: int| start <= i < end ==> is_digit(#[trigger] head[i]),
        decreases start,
    {
        assert(head[start - 1] == text@[start - 1]);
        start = start - 1;
    }
    proof {
        lemma_tail_length(head, digit(), end - start);
        assert(text@.subrange(start as int, end as int) =~= head.skip(start as int));
    }
    let digits: Vec<char> = part_of(text, start, end);
    assert(digits@.skip(0) =~= digits@);
    match read_digits(&digits, 0, i32::MAX as u128) {
        Some(value) => Some(value as i32),
        None => None,
    }
}

/// The text whose bytes are the first `end` bytes of another.
pub open spec fn byte_prefix(text: Seq<char>, end: int) -> Seq<char> {
    decode_utf8(encode_utf8(text).subrange(0, end))
}

/// The number whose digits end right before the byte offset `end`, which lies between
/// two characters.
pub fn digits_before(value: &str, end: usize) -> (number: Option<i32>)
    requires
        is_char_boundary(encode_utf8(value@), end as int),
    ensures
        match number {
            Some(number) => trailing_number(byte_prefix(value@, end as int)) == Some(number as int),
            None => trailing_number(byte_prefix(value@, end as int)) is None,
        },
{
    let (prefix, _rest) = value.split_at(end);
    let chars: Vec<char> = chars_of(prefix);
    proof {
        encode_utf8_decode_utf8(prefix@);
        assert(chars@.take(chars@.len() as int) =~= chars@);
    }
    number_up_to(&chars, chars.len())
}

/// The number right before the first occurrence of a word.
fn number_before_word(text: &Vec<char>, word: &str) -> (number: Option<i32>)
    ensures
        match number {
            Some(number) => number_before(text@, word@) == Some(number as int),
            None => number_before(text@, word@) is None,
        },
{
    match find(text, &chars_of(word)) {
        Some(at) => number_up_to(text, at),
        None => None,
    }
}

fn bounds_or_open(year: i32, month: Option<u32>, day: Option<u32>) -> (range: DateRange)
    ensures
        range@ == named_or_open(
            year as int,
            crate::calendar::optional_int(month),
            crate::calendar::optional_int(day),
        ),
{
    match date_bounds(year, month, day) {
        Some(range) => range,
        None => DateRange { from: None, to: None },
    }
}

fn holds_word(text: &Vec<char>, word: &str) -> (found: bool)
    ensures
        found == holds_text(text@, word@),
{
    contains(text, &chars_of(word))
}

fn summer_of(year: i32) -> (range: DateRange)
    ensures
        range@ == summer(year as int),
{
    DateRange {
        from: Some(moment_string(year as i64, 6, 1, 0, 0, 0)),
        to: Some(moment_string(year as i64, 8, 31, 23, 59, 59)),
    }
}

/// The dates that a query asks for in the year `now_year`.
pub fn parse_date_range_in(query: &str, now_year: i32) -> (range: DateRange)
    requires
        i32::MIN + 2 <= now_year < i32::MAX,
    ensures
        range@ == date_range_of(query@, now_year as int),
{
    let text: Vec<char> = chars_of(query);
    if holds_word(&text, "去年夏天") {
        return summer_of(now_year - 1);
    }
    if holds_word(&text, "今年夏天") {
        return summer_of(now_year);
    }
    if holds_word(&text, "前年") {
        return bounds_or_open(now_year - 2, None, None);
    }
    if holds_word(&text, "去年") {
        return bounds_or_open(now_year - 1, None, None);
    }
    if holds_word(&text, "今年") {
        return bounds_or_open(now_year, None, None);
    }
    if holds_word(&text, "明年") {
        return bounds_or_open(now_year + 1, None, None);
    }
    let year: i32 = match number_before_word(&text, "年") {
        Some(year) => year,
        None => return DateRange { from: None, to: None },
    };
    let month: Option<u32> = match number_before_word(&text, "月") {
        Some(month) => Some(month as u32),
        None => None,
    };
    let day: Option<u32> = match number_before_word(&text, "日") {
        Some(day) => Some(day as u32),
        None => None,
    };
    bounds_or_open(year, month, day)
}

// ---------------------------------------------------------------------------
// Taking words out
// ---------------------------------------------------------------------------

/// `text` with every occurrence of each phrase, one phrase after the other, turned
/// into a blank.
pub open spec fn struck(text: Seq<char>, phrases: Seq<Seq<char>>) -> Seq<char>
    decreases phrases.len(),
{
    if phrases.len() == 0 {
        text
    } else {
        replaced(struck(text, phrases.drop_last()), phrases.last(), " "@)
    }
}

/// `text` with every digit turned into a blank.
pub open spec fn without_digits(text: Seq<char>) -> Seq<char> {
    text.map_values(
        |character: char|
            if is_digit(character) {
                ' '
            } else {
                character
            },
    )
}

/// `text` without the words and numbers of dates.
pub open spec fn undated(text: Seq<char>) -> Seq<char> {
    without_digits(struck(text, date_words()))
}

fn strike(text: &Vec<char>, phrase: &Vec<char>) -> (result: Vec<char>)
    ensures
        result@ == replaced(text@, phrase@, " "@),
{
    replace(text, phrase, &chars_of(" "))
}

fn remove_dates(text: &Vec<char>) -> (result: Vec<char>)
    ensures
        result@ == undated(text@),
{
    let phrases: Vec<&'static str> = date_word_list();
    let ghost all = date_words();
    let mut result: Vec<char> = part_of(text, 0, text.len());
    assert(result@ =~= text@);
    for i in 0..phrases.len()
        invariant
            all == slices(phrases@),
            result@ == struck(text@, all.take(i as int)),
    {
        result = strike(&result, &chars_of(phrases[i]));
        assert(all.take(i + 1).drop_last() =~= all.take(i as int));
    }
    assert(all.take(all.len() as int) =~= all);
    let mut blanked: Vec<char> = Vec::new();
    for i in 0..result.len()
        invariant
            blanked@ == without_digits(result@).take(i as int),
    {
        blanked.push(if is_decimal_digit(result[i]) { ' ' } else { result[i] });
        assert(blanked@ =~= without_digits(result@).take(i + 1));
    }
    assert(without_digits(result@).take(result@.len() as int) =~= without_digits(result@));
    blanked
}

/// Takes the words and numbers of dates out of a query.
pub fn remove_date_words(value: &str) -> (result: String)
    ensures
        result@ == undated(value@),
{
    string_of(&remove_dates(&chars_of(value)))
}

// ---------------------------------------------------------------------------
// Limits
// ---------------------------------------------------------------------------

/// The positive number after the first occurrence of a marker; blanks may stand between.
pub open spec fn limit_after(query: Seq<char>, marker: Seq<char>) -> Option<nat> {
    match find_text(query, marker) {
        Some(at) => {
            let rest = query.skip(at + marker.len());
            let tail = rest.skip(run_length(rest, blank()) as int);
            match unsigned_digits(tail.take(run_length(tail, digit()) as int)) {
                Some(value) if 0 < value <= usize::MAX => Some(value),
                _ => None,
            }
        },
        None => None,
    }
}

/// The limit after the first of the markers that one follows.
pub open spec fn first_limit(query: Seq<char>, markers: Seq<Seq<char>>) -> Option<nat>
    decreases markers.len(),
{
    if markers.len() == 0 {
        None
    } else {
        match first_limit(query, markers.drop_last()) {
            Some(limit) => Some(limit),
            None => limit_after(query, markers.last()),
        }
    }
}

/// The limit that a query names.
pub open spec fn limit_of(query: Seq<char>) -> Option<nat> {
    first_limit(query, limit_markers())
}

/// `text` with the first occurrence of a marker, and the blanks and digits after it,
/// turned into one blank.
pub open spec fn without_limit(text: Seq<char>, marker: Seq<char>) -> Seq<char> {
    match find_text(text, marker) {
        Some(at) => {
            let rest = text.skip(at + marker.len());
            let tail = rest.skip(run_length(rest, blank()) as int);
            text.take(at) + " "@ + tail.skip(run_length(tail, digit()) as int)
        },
        None => text,
    }
}

/// `text` without the limits, marker by marker.
pub open spec fn without_limits(text: Seq<char>, markers: Seq<Seq<char>>) -> Seq<char>
    decreases markers.len(),
{
    if markers.len() == 0 {
        text
    } else {
        without_limit(without_limits(text, markers.drop_last()), markers.last())
    }
}

/// Where the blanks and then the digits end that stand from `from` on.
fn limit_span(text: &Vec<char>, from: usize) -> (span: (usize, usize))
    requires
        from <= text@.len(),
    ensures
        from <= span.0 <= span.1 <= text@.len(),
        ({
            let rest = text@.skip(from as int);
            let tail = rest.skip(run_length(rest, blank()) as int);
            &&& tail == text@.skip(span.0 as int)
            &&& run_length(tail, digit()) == span.1 - span.0
        }),
{
    let start: usize = from + blank_run(text, from);
    let ghost tail = text@.skip(start as int);
    assert(text@.skip(from as int).skip(start - from) =~= tail);
    let mut end: usize = start;
    while end < text.len() && is_decimal_digit(text[end])
        invariant
            start <= end <= text@.len(),
            tail == text@.skip(start as int),
            forall|i: int| 0 <= i < end - start ==> is_digit(#[trigger] tail[i]),
        decreases text@.len() - end,
    {
        assert(tail[end - start] == text@[end as int]);
        end = end + 1;
    }
    proof {
        lemma_run_length(tail, digit(), end - start);
    }
    (start, end)
}

/// The positive number after the first occurrence of a marker.
fn limit_after_marker(query: &Vec<char>, marker: &Vec<char>) -> (limit: Option<usize>)
    ensures
        match limit {
            Some(limit) => limit_after(query@, marker@) == Some(limit as nat),
            None => limit_after(query@, marker@) is None,
        },
{
    let at: usize = match find(query, marker) {
        Some(at) => at,
        None => return None,
    };
    let (start, end): (usize, usize) = limit_span(query, at + marker.len());
    let digits: Vec<char> = part_of(query, start, end);
    assert(digits@ =~= query@.skip(start as int).take(end - start));
    assert(digits@.skip(0) =~= digits@);
    match read_digits(&digits, 0, usize::MAX as u128) {
        Some(value) => if value > 0 {
            Some(value as usize)
        } else {
            None
        },
        None => None,
    }
}

/// The limit that a query names.
pub fn parse_limit(query: &str) -> (limit: Option<usize>)
    ensures
        match limit {
            Some(limit) => limit_of(query@) == Some(limit as nat),
            None => limit_of(query@) is None,
        },
{
    let text: Vec<char> = chars_of(query);
    let markers: Vec<&'static str> = limit_marker_list();
    let ghost all = limit_markers();
    for i in 0..markers.len()
        invariant
            text@ == query@,
            all == slices(markers@),
            all == limit_markers(),
            first_limit(query@, all.take(i as int)) is None,
    {
        assert(all.take(i + 1).drop_last() =~= all.take(i as int));
        match limit_after_marker(&text, &chars_of(markers[i])) {
            Some(limit) => {
                proof {
                    lemma_first_limit_stays(query@, all, i + 1);
                }
                return Some(limit);
            },
            None => {},
        }
    }
    assert(all.take(all.len() as int) =~= all);
    None
}

/// Later markers do not change a limit that was found.
proof fn lemma_first_limit_stays(query: Seq<char>, markers: Seq<Seq<char>>, n: int)
    requires
        0 <= n <= markers.len(),
        first_limit(query, markers.take(n)) is Some,
    ensures
        first_limit(query, markers) == first_limit(query, markers.take(n)),
    decreases markers.len() - n,
{
    if n < markers.len() {
        assert(markers.take(n + 1).drop_last() =~= markers.take(n));
        lemma_first_limit_stays(query, markers, n + 1);
    } else {
        assert(markers.take(n) =~= markers);
    }
}

fn remove_limits(text: &Vec<char>) -> (result: Vec<char>)
    ensures
        result@ == without_limits(text@, limit_markers()),
{
    let markers: Vec<&'static str> = limit_marker_list();
    let ghost all = limit_markers();
    let mut result: Vec<char> = part_of(text, 0, text.len());
    assert(result@ =~= text@);
    for i in 0..markers.len()
        invariant
            all == slices(markers@),
            result@ == without_limits(text@, all.take(i as int)),
    {
        assert(all.take(i + 1).drop_last() =~= all.take(i as int));
        let marker: Vec<char> = chars_of(markers[i]);
        match find(&result, &marker) {
            Some(at) => {
                let (start, end): (usize, usize) = limit_span(&result, at + marker.len());
                let mut shorter: Vec<char> = part_of(&result, 0, at);
                append_chars(&mut shorter, &chars_of(" "));
                append_chars(&mut shorter, &part_of(&result, end, result.len()));
                assert(result@.subrange(0, at as int) =~= result@.take(at as int));
                assert(result@.subrange(end as int, result@.len() as int) =~= result@.skip(
                    start as int,
                ).skip(end - start));
                assert(shorter@ =~= without_limit(result@, marker@));
                result = shorter;
            },
            None => {},
        }
    }
    assert(all.take(all.len() as int) =~= all);
    result
}

// ---------------------------------------------------------------------------
// Words
// ---------------------------------------------------------------------------

/// The characters between words.
pub open spec fn word_separator() -> spec_fn(char) -> bool {
    |character: char|
        white_space(character) || "、，,。.！!?？"@.contains(character) || "的和與在有"@.contains(
            character,
        )
}

/// The words of a text: its pieces between separators, without stop words.
pub open spec fn words_of(text: Seq<char>) -> Seq<Seq<char>> {
    pieces(text, word_separator()).filter(|word: Seq<char>| word.len() > 0 && !stop_words().contains(word))
}

fn is_one_of(character: char, set: &Vec<char>) -> (found: bool)
    ensures
        found == set@.contains(character),
{
    for i in 0..set.len()
        invariant
            forall|k: int| 0 <= k < i ==> set@[k] != character,
    {
        if set[i] == character {
            return true;
        }
    }
    false
}

fn split_words(text: &Vec<char>) -> (words: Vec<String>)
    ensures
        texts(words@) == words_of(text@),
{
    let punctuation: Vec<char> = chars_of("、，,。.！!?？");
    let particles: Vec<char> = chars_of("的和與在有");
    let mut marks: Vec<bool> = Vec::new();
    for i in 0..text.len()
        invariant
            punctuation@ == "、，,。.！!?？"@,
            particles@ == "的和與在有"@,
            marks@.len() == i,
            forall|k: int| 0 <= k < i ==> #[trigger] marks@[k] == word_separator()(text@[k]),
    {
        let separates: bool = is_whitespace(text[i]) || is_one_of(text[i], &punctuation) || is_one_of(
            text[i],
            &particles,
        );
        marks.push(separates);
    }
    let parts: Vec<Vec<char>> = split_marked(text, &marks, Ghost(word_separator()));
    let stops: Vec<&'static str> = stop_word_list();
    let ghost all = rows(parts@);
    let ghost keep = |word: Seq<char>| word.len() > 0 && !stop_words().contains(word);
    let mut words: Vec<String> = Vec::new();
    assert(all.take(0).filter(keep) =~= texts(words@)) by {
        reveal(Seq::filter);
    }
    for i in 0..parts.len()
        invariant
            all == rows(parts@),
            slices(stops@) == stop_words(),
            keep == (|word: Seq<char>| word.len() > 0 && !stop_words().contains(word)),
            texts(words@) == all.take(i as int).filter(keep),
    {
        let ghost before = texts(words@);
        proof {
            reveal(Seq::filter);
            assert(all.take(i + 1).drop_last() =~= all.take(i as int));
            assert(all.take(i + 1).last() == parts@[i as int]@);
        }
        if parts[i].len() > 0 && !has_text(&stops, &parts[i]) {
            words.push(string_of(&parts[i]));
            assert(texts(words@) =~= before.push(parts@[i as int]@));
        }
    }
    assert(all.take(all.len() as int) =~= all);
    words
}

/// Splits a text into words, leaving out stop words.
pub fn tokenize_query(value: &str) -> (words: Vec<String>)
    ensures
        texts(words@) == words_of(value@),
{
    split_words(&chars_of(value))
}

/// The characters that a word to be left out is made of.
pub open spec fn term_character() -> spec_fn(char) -> bool {
    |character: char| !white_space(character) && !"的和與在有或、，,。"@.contains(character)
}

/// What is left of a text, and the words that were taken out of it.
pub struct Extraction {
    pub terms: Seq<Seq<char>>,
    pub text: Seq<char>,
}

/// Takes a marker out of a text wherever it stands, with the word after it unless
/// that is a stop word; a blank takes their place.
pub open spec fn extraction(text: Seq<char>, marker: Seq<char>) -> Extraction
    decreases text.len(),
{
    if marker.len() == 0 || text.len() < marker.len() {
        Extraction { terms: Seq::empty(), text }
    } else if occurs_at(text, marker, 0) {
        let rest = text.skip(marker.len() as int);
        let term = rest.take(run_length(rest, term_character()) as int);
        if term.len() > 0 && !stop_words().contains(term) {
            proof {
                lemma_run_bounds(rest, term_character());
            }
            let more = extraction(rest.skip(term.len() as int), marker);
            Extraction { terms: seq![term] + more.terms, text: " "@ + more.text }
        } else {
            let more = extraction(rest, marker);
            Extraction { terms: more.terms, text: " "@ + more.text }
        }
    } else {
        let more = extraction(text.skip(1), marker);
        Extraction { terms: more.terms, text: text.take(1) + more.text }
    }
}

/// Takes out one marker after the other.
pub open spec fn extractions(text: Seq<char>, markers: Seq<Seq<char>>) -> Extraction
    decreases markers.len(),
{
    if markers.len() == 0 {
        Extraction { terms: Seq::empty(), text }
    } else {
        let before = extractions(text, markers.drop_last());
        let after = extraction(before.text, markers.last());
        Extraction { terms: before.terms + after.terms, text: after.text }
    }
}

/// The length of the word that starts at `from`.
fn term_length(text: &Vec<char>, from: usize) -> (length: usize)
    requires
        from <= text@.len(),
    ensures
        from + length <= text.len(),
        length == run_length(text@.skip(from as int), term_character()),
{
    let stops: Vec<char> = chars_of("的和與在有或、，,。");
    let ghost rest = text@.skip(from as int);
    let mut end: usize = from;
    while end < text.len() && !is_whitespace(text[end]) && !is_one_of(text[end], &stops)
        invariant
            from <= end <= text@.len(),
            rest == text@.skip(from as int),
            stops@ == "的和與在有或、，,。"@,
            forall|i: int| 0 <= i < end - from ==> term_character()(#[trigger] rest[i]),
        decreases text@.len() - end,
    {
        assert(rest[end - from] == text@[end as int]);
        end = end + 1;
    }
    proof {
        if end < text@.len() {
            assert(rest[end - from] == text@[end as int]);
        }
        lemma_run_length(rest, term_character(), end - from);
    }
    end - from
}

/// Takes one marker out, and appends the words after it to `terms`.
fn extract_marker(text: &Vec<char>, marker: &Vec<char>, terms: &mut Vec<String>) -> (rest: Vec<char>)
    requires
        marker@.len() > 0,
    ensures
        rest@ == extraction(text@, marker@).text,
        texts(final(terms)@) == texts(old(terms)@) + extraction(text@, marker@).terms,
{
    let stops: Vec<&'static str> = stop_word_list();
    let ghost whole = extraction(text@, marker@);
    let ghost before = texts(terms@);
    let mut out: Vec<char> = Vec::new();
    let mut at: usize = 0;
    assert(text@.skip(0) =~= text@);
    while at < text.len()
        invariant
            marker@.len() > 0,
            at <= text@.len(),
            slices(stops@) == stop_words(),
            whole.text =~= out@ + extraction(text@.skip(at as int), marker@).text,
            before + whole.terms =~= texts(terms@) + extraction(text@.skip(at as int), marker@).terms,
        decreases text@.len() - at,
    {
        let ghost rest = text@.skip(at as int);
        assert(occurs_at(text@, marker@, at as int) <==> occurs_at(rest, marker@, 0)) by {
            if at + marker@.len() <= text@.len() {
                assert(text@.subrange(at as int, at + marker@.len()) =~= rest.subrange(
                    0,
                    marker@.len() as int,
                ));
            }
        }
        if crate::text::matches_at(text, marker, at) {
            let start: usize = at + marker.len();
            assert(rest.skip(marker@.len() as int) =~= text@.skip(start as int));
            let length: usize = term_length(text, start);
            let term: Vec<char> = part_of(text, start, start + length);
            assert(term@ =~= text@.skip(start as int).take(length as int));
            append_chars(&mut out, &chars_of(" "));
            if term.len() > 0 && !has_text(&stops, &term) {
                let ghost collected = texts(terms@);
                terms.push(string_of(&term));
                assert(texts(terms@) =~= collected.push(term@));
                assert(text@.skip(start as int).skip(length as int) =~= text@.skip(start + length));
                at = start + length;
            } else {
                at = start;
            }
        } else {
            assert(rest.take(1) =~= seq![text@[at as int]]);
            assert(rest.skip(1) =~= text@.skip(at + 1));
            assert(rest =~= rest.take(1) + rest.skip(1));
            out.push(text[at]);
            at = at + 1;
        }
    }
    assert(text@.skip(at as int) =~= Seq::<char>::empty());
    out
}

fn extract_all(text: &Vec<char>) -> (found: (Vec<String>, Vec<char>))
    ensures
        texts(found.0@) == extractions(text@, exclusion_markers()).terms,
        found.1@ == extractions(text@, exclusion_markers()).text,
{
    let markers: Vec<&'static str> = exclusion_marker_list();
    let ghost all = exclusion_markers();
    let mut terms: Vec<String> = Vec::new();
    let mut rest: Vec<char> = part_of(text, 0, text.len());
    assert(rest@ =~= text@);
    assert(texts(terms@) =~= Seq::<Seq<char>>::empty());
    proof {
        reveal_strlit("不要");
        reveal_strlit("不含");
        reveal_strlit("排除");
        reveal_strlit("沒有");
    }
    for i in 0..markers.len()
        invariant
            all == slices(markers@),
            forall|k: int| 0 <= k < all.len() ==> #[trigger] all[k].len() > 0,
            texts(terms@) == extractions(text@, all.take(i as int)).terms,
            rest@ == extractions(text@, all.take(i as int)).text,
    {
        assert(all.take(i + 1).drop_last() =~= all.take(i as int));
        assert(all[i as int].len() > 0);
        rest = extract_marker(&rest, &chars_of(markers[i]), &mut terms);
    }
    assert(all.take(all.len() as int) =~= all);
    (terms, rest)
}

/// Takes the words to be left out, with their markers, out of a query.
pub fn extract_negative_terms(value: &mut String) -> (terms: Vec<String>)
    ensures
        texts(terms@) == extractions(old(value)@, exclusion_markers()).terms,
        final(value)@ == extractions(old(value)@, exclusion_markers()).text,
{
    let text: Vec<char> = chars_of(value.as_str());
    let (terms, rest): (Vec<String>, Vec<char>) = extract_all(&text);
    *value = string_of(&rest);
    terms
}

// ---------------------------------------------------------------------------
// Faces, people and file types
// ---------------------------------------------------------------------------

/// One of the phrases stands in the query.
pub open spec fn any_held(query: Seq<char>, phrases: Seq<Seq<char>>) -> bool {
    exists|k: int| 0 <= k < phrases.len() && holds_text(query, #[trigger] phrases[k])
}

/// The first of the phrases that stands in the query.
pub open spec fn first_held(query: Seq<char>, phrases: Seq<Seq<char>>) -> Option<Seq<char>>
    decreases phrases.len(),
{
    if phrases.len() == 0 {
        None
    } else {
        match first_held(query, phrases.drop_last()) {
            Some(phrase) => Some(phrase),
            None => if holds_text(query, phrases.last()) {
                Some(phrases.last())
            } else {
                None
            },
        }
    }
}

/// `text` with each phrase that stands in the query turned into a blank.
pub open spec fn struck_held(text: Seq<char>, query: Seq<char>, phrases: Seq<Seq<char>>) -> Seq<char>
    decreases phrases.len(),
{
    if phrases.len() == 0 {
        text
    } else {
        let before = struck_held(text, query, phrases.drop_last());
        if holds_text(query, phrases.last()) {
            replaced(before, phrases.last(), " "@)
        } else {
            before
        }
    }
}

/// The query names a person, in any case.
pub open spec fn mentions(query: Seq<char>, name: Seq<char>) -> bool {
    name.len() > 0 && holds_text(query, lowercase(name))
}

/// A word of negation stands right before the name.
pub open spec fn denies(query: Seq<char>, name: Seq<char>) -> bool {
    exists|k: int| 0 <= k < negations().len() && holds_text(query, #[trigger] negations()[k] + lowercase(name))
}

/// The people that a query asks for, those that it rules out, and the text without them.
pub struct PeopleSplit {
    pub wanted: Seq<Seq<char>>,
    pub exclude: Seq<Seq<char>>,
    pub text: Seq<char>,
}

/// Which of the known people a query names, in their order.
pub open spec fn people_of(query: Seq<char>, text: Seq<char>, known: Seq<Seq<char>>) -> PeopleSplit
    decreases known.len(),
{
    if known.len() == 0 {
        PeopleSplit { wanted: Seq::empty(), exclude: Seq::empty(), text }
    } else {
        let before = people_of(query, text, known.drop_last());
        let name = trimmed(known.last(), blank());
        if !mentions(query, name) {
            before
        } else {
            let after = replaced(before.text, lowercase(name), " "@);
            if denies(query, name) {
                PeopleSplit { wanted: before.wanted, exclude: before.exclude.push(name), text: after }
            } else {
                PeopleSplit { wanted: before.wanted.push(name), exclude: before.exclude, text: after }
            }
        }
    }
}

/// The file types that a query names.
pub open spec fn extensions_of(query: Seq<char>) -> Seq<Seq<char>> {
    image_extensions().filter(|extension: Seq<char>| holds_text(query, extension))
}

fn strike_held(text: Vec<char>, query: &Vec<char>, phrases: &Vec<&'static str>) -> (result: (Vec<char>, bool))
    ensures
        result.0@ == struck_held(text@, query@, slices(phrases@)),
        result.1 == any_held(query@, slices(phrases@)),
{
    let ghost all = slices(phrases@);
    let ghost start = text@;
    let mut result: Vec<char> = text;
    let mut held: bool = false;
    for i in 0..phrases.len()
        invariant
            all == slices(phrases@),
            result@ == struck_held(start, query@, all.take(i as int)),
            held == exists|k: int| 0 <= k < i && holds_text(query@, #[trigger] all[k]),
    {
        assert(all.take(i + 1).drop_last() =~= all.take(i as int));
        let phrase: Vec<char> = chars_of(phrases[i]);
        assert(all[i as int] == phrase@);
        if contains(query, &phrase) {
            result = strike(&result, &phrase);
            held = true;
        }
    }
    assert(all.take(all.len() as int) =~= all);
    (result, held)
}

/// Strikes out the first of the phrases that stands in the query.
fn strike_first_held(text: Vec<char>, query: &Vec<char>, phrases: &Vec<&'static str>) -> (result: (Vec<char>, bool))
    ensures
        match first_held(query@, slices(phrases@)) {
            Some(phrase) => result.1 && result.0@ == replaced(text@, phrase, " "@),
            None => !result.1 && result.0@ == text@,
        },
{
    let ghost all = slices(phrases@);
    for i in 0..phrases.len()
        invariant
            all == slices(phrases@),
            first_held(query@, all.take(i as int)) is None,
    {
        assert(all.take(i + 1).drop_last() =~= all.take(i as int));
        let phrase: Vec<char> = chars_of(phrases[i]);
        assert(all[i as int] == phrase@);
        if contains(query, &phrase) {
            proof {
                lemma_first_held_stays(query@, all, i + 1);
            }
            return (strike(&text, &phrase), true);
        }
    }
    assert(all.take(all.len() as int) =~= all);
    (text, false)
}

/// Later phrases do not change the first one that was found.
proof fn lemma_first_held_stays(query: Seq<char>, phrases: Seq<Seq<char>>, n: int)
    requires
        0 <= n <= phrases.len(),
        first_held(query, phrases.take(n)) is Some,
    ensures
        first_held(query, phrases) == first_held(query, phrases.take(n)),
    decreases phrases.len() - n,
{
    if n < phrases.len() {
        assert(phrases.take(n + 1).drop_last() =~= phrases.take(n));
        lemma_first_held_stays(query, phrases, n + 1);
    } else {
        assert(phrases.take(n) =~= phrases);
    }
}

fn is_denied(query: &Vec<char>, name: &Vec<char>, Ghost(full): Ghost<Seq<char>>) -> (denied: bool)
    requires
        name@ == lowercase(full),
    ensures
        denied == denies(query@, full),
{
    let words: Vec<&'static str> = negation_list();
    let ghost all = negations();
    for i in 0..words.len()
        invariant
            all == slices(words@),
            all == negations(),
            name@ == lowercase(full),
            forall|k: int| 0 <= k < i ==> !holds_text(query@, #[trigger] all[k] + name@),
    {
        let mut phrase: Vec<char> = chars_of(words[i]);
        append_chars(&mut phrase, name);
        assert(all[i as int] + name@ == phrase@);
        if contains(query, &phrase) {
            return true;
        }
    }
    false
}

/// The people of a query, with what is left of its text.
struct FoundPeople {
    wanted: Vec<String>,
    exclude: Vec<String>,
    text: Vec<char>,
}

fn find_people(query: &Vec<char>, text: Vec<char>, known: &Vec<String>) -> (found: FoundPeople)
    ensures
        texts(found.wanted@) == people_of(query@, text@, texts(known@)).wanted,
        texts(found.exclude@) == people_of(query@, text@, texts(known@)).exclude,
        found.text@ == people_of(query@, text@, texts(known@)).text,
{
    let ghost all = texts(known@);
    let ghost start = text@;
    let mut wanted: Vec<String> = Vec::new();
    let mut exclude: Vec<String> = Vec::new();
    let mut rest: Vec<char> = text;
    assert(texts(wanted@) =~= Seq::<Seq<char>>::empty());
    assert(texts(exclude@) =~= Seq::<Seq<char>>::empty());
    for i in 0..known.len()
        invariant
            all == texts(known@),
            texts(wanted@) == people_of(query@, start, all.take(i as int)).wanted,
            texts(exclude@) == people_of(query@, start, all.take(i as int)).exclude,
            rest@ == people_of(query@, start, all.take(i as int)).text,
    {
        assert(all.take(i + 1).drop_last() =~= all.take(i as int));
        assert(all.take(i + 1).last() == known@[i as int]@);
        let ghost included = texts(wanted@);
        let ghost excluded = texts(exclude@);
        let name: Vec<char> = trim(&chars_of(known[i].as_str()));
        let text: String = string_of(&name);
        let lower: Vec<char> = chars_of(to_lowercase(text.as_str()).as_str());
        if name.len() > 0 && contains(query, &lower) {
            if is_denied(query, &lower, Ghost(name@)) {
                exclude.push(text);
                assert(texts(exclude@) =~= excluded.push(name@));
            } else {
                wanted.push(text);
                assert(texts(wanted@) =~= included.push(name@));
            }
            rest = strike(&rest, &lower);
        }
    }
    assert(all.take(all.len() as int) =~= all);
    FoundPeople { wanted, exclude, text: rest }
}

fn find_extensions(query: &Vec<char>) -> (found: Vec<String>)
    ensures
        texts(found@) == extensions_of(query@),
{
    let words: Vec<&'static str> = image_extension_list();
    let ghost all = image_extensions();
    let ghost keep = |extension: Seq<char>| holds_text(query@, extension);
    let mut found: Vec<String> = Vec::new();
    assert(all.take(0).filter(keep) =~= texts(found@)) by {
        reveal(Seq::filter);
    }
    for i in 0..words.len()
        invariant
            all == slices(words@),
            keep == (|extension: Seq<char>| holds_text(query@, extension)),
            texts(found@) == all.take(i as int).filter(keep),
    {
        let ghost before = texts(found@);
        proof {
            reveal(Seq::filter);
            assert(all.take(i + 1).drop_last() =~= all.take(i as int));
            assert(all.take(i + 1).last() == words@[i as int]@);
        }
        if holds_word(query, words[i]) {
            found.push(words[i].to_owned());
            assert(texts(found@) =~= before.push(words@[i as int]@));
        }
    }
    assert(all.take(all.len() as int) =~= all);
    found
}

/// The words that are no words of negation.
pub open spec fn positive_words(words: Seq<Seq<char>>) -> Seq<Seq<char>> {
    words.filter(|word: Seq<char>| !negations().contains(word))
}

fn drop_negations(words: Vec<String>) -> (kept: Vec<String>)
    ensures
        texts(kept@) == positive_words(texts(words@)),
{
    let refused: Vec<&'static str> = negation_list();
    let ghost all = texts(words@);
    let ghost keep = |word: Seq<char>| !negations().contains(word);
    let mut kept: Vec<String> = Vec::new();
    assert(all.take(0).filter(keep) =~= texts(kept@)) by {
        reveal(Seq::filter);
    }
    for i in 0..words.len()
        invariant
            all == texts(words@),
            slices(refused@) == negations(),
            keep == (|word: Seq<char>| !negations().contains(word)),
            texts(kept@) == all.take(i as int).filter(keep),
    {
        let ghost before = texts(kept@);
        proof {
            reveal(Seq::filter);
            assert(all.take(i + 1).drop_last() =~= all.take(i as int));
            assert(all.take(i + 1).last() == words@[i as int]@);
        }
        if !has_text(&refused, &chars_of(words[i].as_str())) {
            kept.push(words[i].clone());
            assert(texts(kept@) =~= before.push(words@[i as int]@));
        }
    }
    assert(all.take(all.len() as int) =~= all);
    kept
}

// ---------------------------------------------------------------------------
// The whole query
// ---------------------------------------------------------------------------

/// A query without surrounding blanks, in lower case.
pub open spec fn normalized(query: Seq<char>) -> Seq<char> {
    lowercase(trimmed(query, blank()))
}

/// What is left of a query once dates and limits are taken out.
pub open spec fn undated_unlimited(query: Seq<char>) -> Seq<char> {
    without_limits(undated(query), limit_markers())
}

/// What is left once phrases about faces are taken out too.
pub open spec fn without_face_phrases(query: Seq<char>) -> Seq<char> {
    let text = struck_held(undated_unlimited(query), query, faceless_phrases());
    match first_held(query, face_phrases()) {
        Some(phrase) if !any_held(query, faceless_phrases()) => replaced(text, phrase, " "@),
        _ => text,
    }
}

/// Whether a query wants faces, given the people that it asks for.
pub open spec fn presence_of(query: Seq<char>, wanted: Seq<Seq<char>>) -> FacePresence {
    if any_held(query, faceless_phrases()) {
        FacePresence::Forbidden
    } else if first_held(query, face_phrases()) is Some || wanted.len() > 0 {
        FacePresence::Required
    } else {
        FacePresence::Any
    }
}

/// What a normalized query asks for in the year `now_year`, where `known` are the
/// names of known people.
pub open spec fn normalized_plan(query: Seq<char>, known: Seq<Seq<char>>, now_year: int) -> PlanText {
    let people = people_of(query, without_face_phrases(query), known);
    let rest = extractions(
        struck_held(people.text, query, image_extensions()),
        exclusion_markers(),
    );
    let should = positive_words(words_of(rest.text));
    PlanText {
        semantic_query: joined(should, " "@),
        should,
        must: Seq::empty(),
        must_not: rest.terms,
        people_include: people.wanted,
        people_exclude: people.exclude,
        face_presence: presence_of(query, people.wanted),
        date: date_range_of(query, now_year),
        extensions: extensions_of(query),
        limit: limit_of(query),
    }
}

/// What a query asks for in the year `now_year`.
pub open spec fn plan_of(query: Seq<char>, known: Seq<Seq<char>>, now_year: int) -> PlanText {
    normalized_plan(normalized(query), known, now_year)
}

/// What a normalized query asks for in the year `now_year`.
pub fn parse_normalized_query(query: &str, known_people: &Vec<String>, now_year: i32) -> (plan: QueryPlan)
    requires
        i32::MIN + 2 <= now_year < i32::MAX,
    ensures
        plan@ == normalized_plan(query@, texts(known_people@), now_year as int),
{
    let text: Vec<char> = chars_of(query);
    let date: DateRange = parse_date_range_in(query, now_year);
    let limit: Option<usize> = parse_limit(query);
    let residual: Vec<char> = remove_limits(&remove_dates(&text));
    let (residual, faceless): (Vec<char>, bool) = strike_held(residual, &text, &faceless_phrase_list());
    let mut face_presence: FacePresence = FacePresence::Any;
    let mut rest: Vec<char> = residual;
    if faceless {
        face_presence = FacePresence::Forbidden;
    } else {
        let (shorter, wanted): (Vec<char>, bool) = strike_first_held(rest, &text, &face_phrase_list());
        rest = shorter;
        if wanted {
            face_presence = FacePresence::Required;
        }
    }
    assert(rest@ == without_face_phrases(query@));
    let people: FoundPeople = find_people(&text, rest, known_people);
    if people.wanted.len() > 0 && face_presence == FacePresence::Any {
        face_presence = FacePresence::Required;
    }
    let extensions: Vec<String> = find_extensions(&text);
    let (rest, _named): (Vec<char>, bool) = strike_held(people.text, &text, &image_extension_list());
    let (must_not, rest): (Vec<String>, Vec<char>) = extract_all(&rest);
    let should: Vec<String> = drop_negations(split_words(&rest));
    let semantic_query: String = join(&should, " ");
    let must: Vec<String> = Vec::new();
    assert(texts(must@) =~= Seq::<Seq<char>>::empty());
    QueryPlan {
        semantic_query,
        text: TextQueryPlan { should, must, must_not },
        people_include: people.wanted,
        people_exclude: people.exclude,
        face_presence,
        date,
        extensions,
        limit,
    }
}

/// What a query asks for in the year `now_year`. Blanks around it and the case of its letters
/// do not matter: the query without them asks for the same.
pub fn parse_query_in(query: &str, known_people: &Vec<String>, now_year: i32) -> (plan: QueryPlan)
    requires
        i32::MIN + 2 <= now_year < i32::MAX,
    ensures
        plan@ == plan_of(query@, texts(known_people@), now_year as int),
        plan@ == plan_of(normalized(query@), texts(known_people@), now_year as int),
        normalized(normalized(query@)) == normalized(query@),
{
    let trimmed_query: String = string_of(&trim(&chars_of(query)));
    proof {
        lemma_trimmed_ends(query@, blank());
        lemma_nothing_trimmed(trimmed_query@, blank());
    }
    let lower: String = to_lowercase(trimmed_query.as_str());
    parse_normalized_query(lower.as_str(), known_people, now_year)
}

/// `time::OffsetDateTime::now_utc` reads the clock, and `year` gives the year of that
/// moment in UTC. The calendar of the crate, built without large dates, ends at the year
/// 9999 on either side; which year it is cannot be said.
#[verifier::external_body]
fn current_year() -> (year: i32)
    ensures
        -9999 <= year <= 9999,
{
    time::OffsetDateTime::now_utc().year()
}

/// A year that the clock can show.
pub open spec fn clock_year(year: int) -> bool {
    -9999 <= year <= 9999
}

/// The dates that a query asks for this year.
pub fn parse_date_range(query: &str) -> (range: DateRange)
    ensures
        exists|year: int| #[trigger] clock_year(year) && range@ == date_range_of(query@, year),
{
    let year: i32 = current_year();
    assert(clock_year(year as int));
    parse_date_range_in(query, year)
}

/// What a query asks for this year. Blanks around it and the case of its letters do not
/// matter: the query without them asks for the same.
pub fn parse_query(query: &str, known_people: &Vec<String>) -> (plan: QueryPlan)
    ensures
        exists|year: int|
            #[trigger] clock_year(year) && plan@ == plan_of(query@, texts(known_people@), year) && plan@ == plan_of(
                normalized(query@),
                texts(known_people@),
                year,
            ),
{
    let year: i32 = current_year();
    assert(clock_year(year as int));
    parse_query_in(query, known_people, year)
}

// ---------------------------------------------------------------------------
// What holds of every plan
// ---------------------------------------------------------------------------

/// A limit is a positive number that can be held.
pub proof fn law_limit_is_positive(query: Seq<char>)
    ensures
        limit_of(query) matches Some(limit) ==> 0 < limit <= usize::MAX,
{
    lemma_first_limit_is_positive(query, limit_markers());
}

proof fn lemma_first_limit_is_positive(query: Seq<char>, markers: Seq<Seq<char>>)
    ensures
        first_limit(query, markers) matches Some(limit) ==> 0 < limit <= usize::MAX,
    decreases markers.len(),
{
    if markers.len() > 0 {
        lemma_first_limit_is_positive(query, markers.drop_last());
    }
}

/// A word of a query is not empty, is no stop word, and holds no separator.
pub proof fn law_words_hold_no_separator(text: Seq<char>, k: int)
    requires
        0 <= k < words_of(text).len(),
    ensures
        words_of(text)[k].len() > 0,
        !stop_words().contains(words_of(text)[k]),
        forall|i: int| 0 <= i < words_of(text)[k].len() ==> !word_separator()(#[trigger] words_of(text)[k][i]),
{
    let all = pieces(text, word_separator());
    let keep = |word: Seq<char>| word.len() > 0 && !stop_words().contains(word);
    let word = words_of(text)[k];
    all.lemma_filter_pred(keep, k);
    assert(all.filter(keep).contains(word));
    all.lemma_filter_contains_rev(keep, word);
    lemma_pieces_hold_no_separator(text, word_separator());
    let at = choose|at: int| 0 <= at < all.len() && all[at] == word;
    assert forall|i: int| 0 <= i < word.len() implies !word_separator()(#[trigger] word[i]) by {
        assert(!word_separator()(all[at][i]));
    }
}

/// The words of a plan that count are words of what is left of the query, without the
/// words of negation, and the text of the semantic search is made of them.
pub proof fn law_plan_words_are_positive(query: Seq<char>, known: Seq<Seq<char>>, now_year: int, k: int)
    requires
        0 <= k < normalized_plan(query, known, now_year).should.len(),
    ensures
        ({
            let plan = normalized_plan(query, known, now_year);
            &&& plan.should[k].len() > 0
            &&& !negations().contains(plan.should[k])
            &&& !stop_words().contains(plan.should[k])
            &&& plan.semantic_query == joined(plan.should, " "@)
        }),
{
    let people = people_of(query, without_face_phrases(query), known);
    let rest = extractions(struck_held(people.text, query, image_extensions()), exclusion_markers());
    let words = words_of(rest.text);
    let positive = |word: Seq<char>| !negations().contains(word);
    let word = normalized_plan(query, known, now_year).should[k];
    words.lemma_filter_pred(positive, k);
    assert(words.filter(positive).contains(word));
    words.lemma_filter_contains_rev(positive, word);
    let at = choose|at: int| 0 <= at < words.len() && words[at] == word;
    law_words_hold_no_separator(rest.text, at);
}

/// Every word that a query rules out is not empty and is no stop word.
pub proof fn law_excluded_words_are_words(text: Seq<char>, markers: Seq<Seq<char>>, k: int)
    requires
        0 <= k < extractions(text, markers).terms.len(),
    ensures
        extractions(text, markers).terms[k].len() > 0,
        !stop_words().contains(extractions(text, markers).terms[k]),
    decreases markers.len(),
{
    if markers.len() > 0 {
        let before = extractions(text, markers.drop_last());
        if k < before.terms.len() {
            law_excluded_words_are_words(text, markers.drop_last(), k);
        } else {
            lemma_extracted_terms(before.text, markers.last(), k - before.terms.len());
        }
    }
}

proof fn lemma_extracted_terms(text: Seq<char>, marker: Seq<char>, k: int)
    requires
        0 <= k < extraction(text, marker).terms.len(),
    ensures
        extraction(text, marker).terms[k].len() > 0,
        !stop_words().contains(extraction(text, marker).terms[k]),
    decreases text.len(),
{
    if marker.len() == 0 || text.len() < marker.len() {
    } else if occurs_at(text, marker, 0) {
        let rest = text.skip(marker.len() as int);
        let term = rest.take(run_length(rest, term_character()) as int);
        lemma_run_bounds(rest, term_character());
        if term.len() > 0 && !stop_words().contains(term) {
            if k > 0 {
                lemma_extracted_terms(rest.skip(term.len() as int), marker, k - 1);
            }
        } else {
            lemma_extracted_terms(rest, marker, k);
        }
    } else {
        lemma_extracted_terms(text.skip(1), marker, k);
    }
}

/// A person that a plan asks for, or rules out, is one of the known people whom the query
/// names; whom it rules out stands behind a word of negation, and whom it asks for does not.
pub proof fn law_plan_people_are_known(query: Seq<char>, text: Seq<char>, known: Seq<Seq<char>>, name: Seq<char>)
    ensures
        people_of(query, text, known).wanted.contains(name) <==> exists|k: int|
            0 <= k < known.len() && name == trimmed(#[trigger] known[k], blank()) && mentions(query, name)
                && !denies(query, name),
        people_of(query, text, known).exclude.contains(name) <==> exists|k: int|
            0 <= k < known.len() && name == trimmed(#[trigger] known[k], blank()) && mentions(query, name)
                && denies(query, name),
    decreases known.len(),
{
    if known.len() > 0 {
        let shorter = known.drop_last();
        law_plan_people_are_known(query, text, shorter, name);
        let before = people_of(query, text, shorter);
        let last = trimmed(known[known.len() - 1], blank());
        lemma_holds_after_push(before.wanted, last, name);
        lemma_holds_after_push(before.exclude, last, name);
        if exists|k: int|
            0 <= k < shorter.len() && name == trimmed(#[trigger] shorter[k], blank()) && mentions(query, name) {
            let k = choose|k: int|
                0 <= k < shorter.len() && name == trimmed(#[trigger] shorter[k], blank()) && mentions(query, name);
            assert(known[k] == shorter[k]);
        }
        if exists|k: int|
            0 <= k < known.len() && name == trimmed(#[trigger] known[k], blank()) && mentions(query, name)
                && name != last {
            let k = choose|k: int|
                0 <= k < known.len() && name == trimmed(#[trigger] known[k], blank()) && mentions(query, name)
                    && name != last;
            assert(shorter[k] == known[k]);
        }
    }
}

/// A longer list holds the new text and what it held before.
proof fn lemma_holds_after_push(list: Seq<Seq<char>>, last: Seq<char>, text: Seq<char>)
    ensures
        list.push(last).contains(text) == (list.contains(text) || last == text),
{
    let longer = list.push(last);
    if list.contains(text) {
        let k = choose|k: int| 0 <= k < list.len() && list[k] == text;
        assert(longer[k] == text);
    }
    if last == text {
        assert(longer[list.len() as int] == text);
    }
    if longer.contains(text) && last != text {
        let k = choose|k: int| 0 <= k < longer.len() && longer[k] == text;
        assert(list[k] == text);
    }
}

/// Who asks for a person asks for a face, unless faces are ruled out altogether.
pub proof fn law_people_call_for_faces(query: Seq<char>, known: Seq<Seq<char>>, now_year: int)
    ensures
        ({
            let plan = normalized_plan(query, known, now_year);
            &&& plan.people_include.len() > 0 ==> plan.face_presence != FacePresence::Any
            &&& plan.face_presence == FacePresence::Forbidden <==> any_held(query, faceless_phrases())
        }),
{
}

/// The range of dates of a plan has both ends or none, and the first does not come after
/// the last, in the years that are written with four digits.
pub proof fn law_date_range_is_ordered(query: Seq<char>, now_year: int)
    requires
        1 <= now_year <= 9998,
    ensures
        ({
            let range = date_range_of(query, now_year);
            &&& range.from is Some <==> range.to is Some
            &&& range.from is Some ==> text_before(range.from->0, range.to->0)
        }),
{
    let range = date_range_of(query, now_year);
    if holds_text(query, "去年夏天"@) {
        lemma_day_range_is_ordered((now_year - 1) as i32, 6, 1, 8, 31);
    } else if holds_text(query, "今年夏天"@) {
        lemma_day_range_is_ordered(now_year as i32, 6, 1, 8, 31);
    } else if holds_text(query, "前年"@) {
        lemma_named_range_is_ordered(now_year - 2, None, None);
    } else if holds_text(query, "去年"@) {
        lemma_named_range_is_ordered(now_year - 1, None, None);
    } else if holds_text(query, "今年"@) {
        lemma_named_range_is_ordered(now_year, None, None);
    } else if holds_text(query, "明年"@) {
        lemma_named_range_is_ordered(now_year + 1, None, None);
    } else {
        match number_before(query, "年"@) {
            Some(year) => {
                lemma_named_range_is_ordered(year, number_before(query, "月"@), number_before(query, "日"@));
            },
            None => {},
        }
    }
}

proof fn lemma_named_range_is_ordered(year: int, month: Option<int>, day: Option<int>)
    ensures
        named_range(year, month, day) matches Some(range) ==> range.from is Some && range.to is Some && text_before(
            range.from->0,
            range.to->0,
        ),
{
    let m = match month {
        Some(month) => month,
        None => 1,
    };
    let first = match day {
        Some(day) => day,
        None => 1,
    };
    let last = match day {
        Some(day) => day,
        None => month_length(year, m),
    };
    if named_range(year, month, day) is Some {
        lemma_day_range_is_ordered(year as i32, m as u8, first as u8, m as u8, last as u8);
    }
}

/// A range of days starts before it ends.
proof fn lemma_day_range_is_ordered(year: i32, month: u8, first: u8, last_month: u8, last: u8)
    requires
        0 <= year <= 9999,
        1 <= month <= last_month <= 12,
        1 <= first <= month_length(year as int, month as int),
        1 <= last <= month_length(year as int, last_month as int),
        month == last_month ==> first <= last,
    ensures
        ({
            let range = day_range(year as int, month as int, first as int, last_month as int, last as int);
            range.from is Some && range.to is Some && text_before(range.from->0, range.to->0)
        }),
{
    let from = CivilTime { year, month, day: first, hour: 0, minute: 0, second: 0 };
    let to = CivilTime { year, month: last_month, day: last, hour: 23, minute: 59, second: 59 };
    law_moments_are_ordered_as_texts(from, to);
}

} // verus!
