//! What holds of the parts of every query: what is left once dates, limits, phrases, names
//! and words to be left out have been taken out, and the words that remain.

use vstd::prelude::*;
use vstd::utf8::{encode_utf8, is_char_boundary};

use crate::calendar::{month_length, named_range, open_range, CivilTime, DateRange};
use crate::number::{all_digits, decimal, digits_of, is_digit, lemma_decimal_of_zeros, lemma_digits_of};
use crate::query::{
    any_held, byte_prefix, clock_year, date_range_of, date_words, denies, digits_before, digit, exclusion_markers,
    extract_negative_terms, extraction, extractions, face_phrases, faceless_phrases, first_held, first_limit,
    image_extensions, law_excluded_words_are_words, law_plan_people_are_known, law_plan_words_are_positive,
    law_words_hold_no_separator, limit_after, limit_markers, limit_of, mentions, negations, normalized_plan,
    number_before, parse_date_range, parse_date_range_in, parse_limit, parse_normalized_query, parse_query,
    parse_query_in, people_of, plan_of, positive_words, remove_date_words, stop_words, struck, struck_held,
    term_character, tokenize_query, undated, undated_unlimited, without_digits, without_face_phrases, without_limit,
    without_limits, word_separator, words_of, Extraction, FacePresence, QueryPlan,
};
use crate::record::{
    law_day_finds_its_moments, law_month_finds_its_moments, law_summer_finds_its_moments, lies_between,
};
use crate::residue::{
    are_places, goes_on, is_left_of, is_unbroken, lemma_left_behind_blank, lemma_left_behind_first,
    lemma_left_of_itself, lemma_left_of_left, lemma_left_start_stands, lemma_left_stays_clear,
    lemma_left_without_passage, lemma_left_words_stand, lemma_nothing_replaced, lemma_occurs_behind,
    lemma_replaced_is_gone, lemma_replaced_is_left, places_behind, starts_alike,
};
use crate::text::{
    blank, find_text, first_at, holds_text, is_clear_of, joined, lemma_all_are_kept, lemma_find_text,
    lemma_part_is_held, lemma_pieces_nonempty, lemma_pieces_of_one_more, lemma_pieces_of_word,
    lemma_pieces_stay_clear, lemma_run_bounds, lemma_run_length, lemma_tail_length, lowercase, occurs_at, pieces,
    replaced, run_length, texts, trimmed, white_space,
};

verus! {

/// A blank as a text.
proof fn lemma_blank_text()
    ensures
        " "@ == seq![' '],
{
    reveal_strlit(" ");
    assert(" "@ =~= seq![' ']);
}

/// Texts that can be looked for one by one: none is empty, and none has a blank.
pub open spec fn are_unbroken(phrases: Seq<Seq<char>>) -> bool {
    forall|k: int| 0 <= k < phrases.len() ==> (#[trigger] phrases[k]).len() > 0 && is_unbroken(phrases[k])
}

// ---------------------------------------------------------------------------
// Dates
// ---------------------------------------------------------------------------

/// The characters that dates are written with: digits, and the signs for year, month and day.
pub open spec fn date_character() -> spec_fn(char) -> bool {
    |character: char| is_digit(character) || character == '年' || character == '月' || character == '日'
}

proof fn lemma_date_words_are_unbroken()
    ensures
        are_unbroken(date_words()),
{
    reveal_strlit("去年夏天");
    reveal_strlit("今年夏天");
    reveal_strlit("前年");
    reveal_strlit("去年");
    reveal_strlit("今年");
    reveal_strlit("明年");
    reveal_strlit("夏天");
    reveal_strlit("年");
    reveal_strlit("月");
    reveal_strlit("日");
}

/// Phrases that were struck out stand nowhere any more, and nothing was joined.
proof fn lemma_struck(text: Seq<char>, phrases: Seq<Seq<char>>)
    requires
        are_unbroken(phrases),
    ensures
        is_left_of(struck(text, phrases), text),
        forall|k: int| 0 <= k < phrases.len() ==> !holds_text(struck(text, phrases), #[trigger] phrases[k]),
    decreases phrases.len(),
{
    if phrases.len() == 0 {
        lemma_left_of_itself(text);
    } else {
        lemma_blank_text();
        let shorter = phrases.drop_last();
        assert forall|k: int| 0 <= k < shorter.len() implies (#[trigger] shorter[k]).len() > 0 && is_unbroken(
            shorter[k],
        ) by {
            assert(phrases[k].len() > 0);
        }
        lemma_struck(text, shorter);
        let before = struck(text, shorter);
        let after = struck(text, phrases);
        let last = phrases[phrases.len() - 1];
        lemma_replaced_is_left(before, last);
        lemma_left_of_left(text, before, after);
        lemma_replaced_is_gone(before, last);
        assert forall|k: int| 0 <= k < phrases.len() implies !holds_text(after, #[trigger] phrases[k]) by {
            if k < shorter.len() {
                assert(shorter[k] == phrases[k]);
                if holds_text(after, phrases[k]) {
                    lemma_left_words_stand(before, after, phrases[k]);
                }
            }
        }
    }
}

/// Phrases that stand nowhere cannot be struck out.
proof fn lemma_nothing_struck(text: Seq<char>, phrases: Seq<Seq<char>>)
    requires
        forall|k: int| 0 <= k < phrases.len() ==> (#[trigger] phrases[k]).len() > 0,
        forall|k: int| 0 <= k < phrases.len() ==> !holds_text(text, #[trigger] phrases[k]),
    ensures
        struck(text, phrases) == text,
    decreases phrases.len(),
{
    if phrases.len() > 0 {
        let shorter = phrases.drop_last();
        assert forall|k: int| 0 <= k < shorter.len() implies (#[trigger] shorter[k]).len() > 0 && !holds_text(
            text,
            shorter[k],
        ) by {
            assert(shorter[k] == phrases[k]);
            assert(phrases[k].len() > 0);
        }
        lemma_nothing_struck(text, shorter);
        assert(phrases[phrases.len() - 1].len() > 0);
        lemma_nothing_replaced(text, phrases[phrases.len() - 1], " "@);
    }
}

proof fn lemma_without_digits_is_left(text: Seq<char>)
    ensures
        is_left_of(without_digits(text), text),
{
    let rest = without_digits(text);
    let places = Seq::new(text.len(), |i: int| i);
    assert forall|i: int| 0 <= i < rest.len() - 1 implies #[trigger] goes_on(rest, places, i) by {}
    assert(are_places(text, rest, places));
}

/// A text that holds a word has its characters.
proof fn lemma_held_word_is_clear(text: Seq<char>, word: Seq<char>, bad: spec_fn(char) -> bool)
    requires
        holds_text(text, word),
        is_clear_of(text, bad),
    ensures
        is_clear_of(word, bad),
{
    let at = choose|at: int| occurs_at(text, word, at);
    assert forall|i: int| 0 <= i < word.len() implies !bad(#[trigger] word[i]) by {
        assert(text.subrange(at, at + word.len())[i] == word[i]);
        assert(!bad(text[at + i]));
    }
}

/// A text that does not hold a character as a word does not have it.
proof fn lemma_character_is_missing(text: Seq<char>, character: char)
    requires
        !holds_text(text, seq![character]),
    ensures
        forall|i: int| 0 <= i < text.len() ==> #[trigger] text[i] != character,
{
    assert forall|i: int| 0 <= i < text.len() implies #[trigger] text[i] != character by {
        if text[i] == character {
            assert(text.subrange(i, i + 1) =~= seq![character]);
            assert(occurs_at(text, seq![character], i));
        }
    }
}

/// Without date characters and the word for summer, a text holds no word of dates.
proof fn lemma_clear_text_holds_no_date_word(text: Seq<char>)
    requires
        is_clear_of(text, date_character()),
        !holds_text(text, "夏天"@),
    ensures
        forall|k: int| 0 <= k < date_words().len() ==> !holds_text(text, #[trigger] date_words()[k]),
{
    reveal_strlit("去年夏天");
    reveal_strlit("今年夏天");
    reveal_strlit("前年");
    reveal_strlit("去年");
    reveal_strlit("今年");
    reveal_strlit("明年");
    reveal_strlit("年");
    reveal_strlit("月");
    reveal_strlit("日");
    assert forall|k: int| 0 <= k < date_words().len() implies !holds_text(text, #[trigger] date_words()[k]) by {
        if k != 6 && holds_text(text, date_words()[k]) {
            lemma_held_word_is_clear(text, date_words()[k], date_character());
            let place: int = if k < 6 { 1 } else { 0 };
            assert(!date_character()(date_words()[k][place]));
        }
    }
}

/// Once the words and numbers of dates have been taken out of a text, it has no digit and no
/// sign for a year, a month or a day, and it holds no word of dates. What is left stood in
/// the text, in its order and, between blanks, unbroken. Taking dates out once more changes
/// nothing, nor does it where there are none.
pub proof fn law_dates_are_gone(text: Seq<char>)
    ensures
        is_clear_of(undated(text), date_character()),
        forall|k: int| 0 <= k < date_words().len() ==> !holds_text(undated(text), #[trigger] date_words()[k]),
        !holds_text(undated(text), "夏天"@),
        is_left_of(undated(text), text),
        undated(undated(text)) == undated(text),
        is_clear_of(text, date_character()) && !holds_text(text, "夏天"@) ==> undated(text) == text,
{
    lemma_date_words_are_unbroken();
    let middle = struck(text, date_words());
    let rest = undated(text);
    lemma_struck(text, date_words());
    lemma_without_digits_is_left(middle);
    lemma_left_of_left(text, middle, rest);
    assert forall|k: int| 0 <= k < date_words().len() implies !holds_text(rest, #[trigger] date_words()[k]) by {
        if holds_text(rest, date_words()[k]) {
            lemma_left_words_stand(middle, rest, date_words()[k]);
        }
    }
    assert(date_words()[6] == "夏天"@);
    assert(date_words()[7] == "年"@);
    assert(date_words()[8] == "月"@);
    assert(date_words()[9] == "日"@);
    reveal_strlit("年");
    reveal_strlit("月");
    reveal_strlit("日");
    assert("年"@ =~= seq!['年']);
    assert("月"@ =~= seq!['月']);
    assert("日"@ =~= seq!['日']);
    lemma_character_is_missing(rest, '年');
    lemma_character_is_missing(rest, '月');
    lemma_character_is_missing(rest, '日');
    assert(is_clear_of(rest, date_character()));
    lemma_dateless_text_stays(rest);
    if is_clear_of(text, date_character()) && !holds_text(text, "夏天"@) {
        lemma_dateless_text_stays(text);
    }
}

proof fn lemma_dateless_text_stays(text: Seq<char>)
    requires
        is_clear_of(text, date_character()),
        !holds_text(text, "夏天"@),
    ensures
        undated(text) == text,
{
    lemma_date_words_are_unbroken();
    lemma_clear_text_holds_no_date_word(text);
    lemma_nothing_struck(text, date_words());
    assert forall|i: int| 0 <= i < text.len() implies !is_digit(#[trigger] text[i]) by {
        assert(!date_character()(text[i]));
    }
    assert(without_digits(text) =~= text);
}

// ---------------------------------------------------------------------------
// Words to be left out
// ---------------------------------------------------------------------------

/// Where the characters of a text stand out of which a marker and its words were taken.
proof fn lemma_extraction_places(text: Seq<char>, marker: Seq<char>) -> (places: Seq<int>)
    ensures
        are_places(text, extraction(text, marker).text, places),
        starts_alike(extraction(text, marker).text, places),
    decreases text.len(),
{
    lemma_blank_text();
    if marker.len() == 0 || text.len() < marker.len() {
        let places = Seq::new(text.len(), |i: int| i);
        assert forall|i: int| 0 <= i < text.len() - 1 implies #[trigger] goes_on(text, places, i) by {}
        places
    } else if occurs_at(text, marker, 0) {
        let rest = text.skip(marker.len() as int);
        let term = rest.take(run_length(rest, term_character()) as int);
        lemma_run_bounds(rest, term_character());
        let taken: int = if term.len() > 0 && !stop_words().contains(term) {
            (marker.len() + term.len()) as int
        } else {
            marker.len() as int
        };
        assert(rest.skip(term.len() as int) =~= text.skip((marker.len() + term.len()) as int));
        let more = lemma_extraction_places(text.skip(taken), marker);
        lemma_left_behind_blank(text, taken, extraction(text.skip(taken), marker).text, more);
        places_behind(seq![0], more, taken)
    } else {
        let more = lemma_extraction_places(text.skip(1), marker);
        lemma_left_behind_first(text, extraction(text.skip(1), marker).text, more);
        places_behind(seq![0], more, 1)
    }
}

/// A marker that was taken out stands nowhere any more.
proof fn lemma_marker_is_gone(text: Seq<char>, marker: Seq<char>)
    requires
        marker.len() > 0,
        is_unbroken(marker),
    ensures
        !holds_text(extraction(text, marker).text, marker),
    decreases text.len(),
{
    lemma_blank_text();
    let left = extraction(text, marker).text;
    if text.len() >= marker.len() {
        let found = occurs_at(text, marker, 0);
        let rest = text.skip(marker.len() as int);
        let term = rest.take(run_length(rest, term_character()) as int);
        lemma_run_bounds(rest, term_character());
        assert(rest.skip(term.len() as int) =~= text.skip((marker.len() + term.len()) as int));
        let taken: int = if !found {
            1
        } else if term.len() > 0 && !stop_words().contains(term) {
            (marker.len() + term.len()) as int
        } else {
            marker.len() as int
        };
        let first = if found { seq![' '] } else { text.take(1) };
        let more = extraction(text.skip(taken), marker).text;
        lemma_marker_is_gone(text.skip(taken), marker);
        assert(left =~= first + more);
        let places = lemma_extraction_places(text, marker);
        assert forall|at: int| !occurs_at(left, marker, at) by {
            if occurs_at(left, marker, at) {
                if at >= 1 {
                    lemma_occurs_behind(first, more, marker, at);
                    assert(occurs_at(more, marker, at - 1));
                } else {
                    lemma_left_start_stands(text, left, places, marker);
                    assert(left.subrange(0, marker.len() as int)[0] == marker[0]);
                }
            }
        }
    } else {
        assert forall|at: int| !occurs_at(left, marker, at) by {}
    }
}

/// Without its marker there is nothing to be taken out.
proof fn lemma_nothing_extracted(text: Seq<char>, marker: Seq<char>)
    requires
        marker.len() > 0,
        !holds_text(text, marker),
    ensures
        extraction(text, marker) == (Extraction { terms: Seq::empty(), text }),
    decreases text.len(),
{
    if text.len() >= marker.len() {
        assert(!occurs_at(text, marker, 0));
        assert(text.take(1) + text.skip(1) =~= text);
        assert forall|at: int| !occurs_at(text.skip(1), marker, at) by {
            if occurs_at(text.skip(1), marker, at) {
                lemma_occurs_behind(text.take(1), text.skip(1), marker, at + 1);
                assert(occurs_at(text, marker, at + 1));
            }
        }
        lemma_nothing_extracted(text.skip(1), marker);
    }
}

/// A word that was taken out stood in the text, and has none of the characters that end one.
proof fn lemma_extracted_term_stood(text: Seq<char>, marker: Seq<char>, k: int)
    requires
        0 <= k < extraction(text, marker).terms.len(),
    ensures
        holds_text(text, extraction(text, marker).terms[k]),
        forall|i: int|
            0 <= i < extraction(text, marker).terms[k].len() ==> term_character()(
                #[trigger] extraction(text, marker).terms[k][i],
            ),
    decreases text.len(),
{
    if marker.len() == 0 || text.len() < marker.len() {
    } else {
        let found = occurs_at(text, marker, 0);
        let rest = text.skip(marker.len() as int);
        let term = rest.take(run_length(rest, term_character()) as int);
        lemma_run_bounds(rest, term_character());
        assert(rest.skip(term.len() as int) =~= text.skip((marker.len() + term.len()) as int));
        let kept = found && term.len() > 0 && !stop_words().contains(term);
        let taken: int = if !found {
            1
        } else if kept {
            (marker.len() + term.len()) as int
        } else {
            marker.len() as int
        };
        if kept && k == 0 {
            assert(text.subrange(marker.len() as int, (marker.len() + term.len()) as int) =~= term);
            assert(occurs_at(text, term, marker.len() as int));
            assert(extraction(text, marker).terms[0] == term);
            assert forall|i: int| 0 <= i < term.len() implies term_character()(#[trigger] term[i]) by {
                assert(term_character()(rest[i]));
            }
        } else {
            let earlier: int = if kept { k - 1 } else { k };
            let more = extraction(text.skip(taken), marker);
            lemma_extracted_term_stood(text.skip(taken), marker, earlier);
            let word = more.terms[earlier];
            assert(extraction(text, marker).terms[k] == word);
            let at = choose|at: int| occurs_at(text.skip(taken), word, at);
            lemma_occurs_behind(text.take(taken), text.skip(taken), word, at + taken);
            assert(text.take(taken) + text.skip(taken) =~= text);
            assert(occurs_at(text, word, at + taken));
        }
    }
}

/// Markers that were taken out stand nowhere any more, nothing was joined, and the words
/// taken out with them stood in the text.
proof fn lemma_extractions(text: Seq<char>, markers: Seq<Seq<char>>)
    requires
        are_unbroken(markers),
    ensures
        is_left_of(extractions(text, markers).text, text),
        forall|k: int| 0 <= k < markers.len() ==> !holds_text(extractions(text, markers).text, #[trigger] markers[k]),
        forall|k: int|
            0 <= k < extractions(text, markers).terms.len() ==> holds_text(
                text,
                #[trigger] extractions(text, markers).terms[k],
            ),
        forall|k: int, i: int|
            0 <= k < extractions(text, markers).terms.len() && 0 <= i < extractions(text, markers).terms[k].len()
                ==> term_character()(#[trigger] extractions(text, markers).terms[k][i]),
    decreases markers.len(),
{
    if markers.len() == 0 {
        lemma_left_of_itself(text);
    } else {
        let shorter = markers.drop_last();
        assert forall|k: int| 0 <= k < shorter.len() implies (#[trigger] shorter[k]).len() > 0 && is_unbroken(
            shorter[k],
        ) by {
            assert(markers[k].len() > 0);
        }
        lemma_extractions(text, shorter);
        let before = extractions(text, shorter);
        let after = extractions(text, markers);
        let last = markers[markers.len() - 1];
        let places = lemma_extraction_places(before.text, last);
        assert(is_left_of(after.text, before.text));
        lemma_left_of_left(text, before.text, after.text);
        lemma_marker_is_gone(before.text, last);
        assert forall|k: int| 0 <= k < markers.len() implies !holds_text(after.text, #[trigger] markers[k]) by {
            if k < shorter.len() {
                assert(shorter[k] == markers[k]);
                if holds_text(after.text, markers[k]) {
                    lemma_left_words_stand(before.text, after.text, markers[k]);
                }
            }
        }
        assert forall|k: int| 0 <= k < after.terms.len() implies holds_text(text, #[trigger] after.terms[k]) && forall|
            i: int,
        |
            0 <= i < after.terms[k].len() ==> term_character()(#[trigger] after.terms[k][i]) by {
            let word = after.terms[k];
            if k < before.terms.len() {
                assert(word == before.terms[k]);
                assert forall|i: int| 0 <= i < word.len() implies term_character()(#[trigger] word[i]) by {
                    assert(term_character()(before.terms[k][i]));
                }
            } else {
                let at = k - before.terms.len();
                lemma_extracted_term_stood(before.text, last, at);
                law_excluded_words_are_words(text, markers, k);
                assert(word == extraction(before.text, last).terms[at]);
                assert forall|i: int| 0 <= i < word.len() implies #[trigger] word[i] != ' ' by {
                    assert(term_character()(word[i]));
                }
                lemma_left_words_stand(text, before.text, word);
            }
        }
    }
}

proof fn lemma_nothing_extracted_at_all(text: Seq<char>, markers: Seq<Seq<char>>)
    requires
        are_unbroken(markers),
        forall|k: int| 0 <= k < markers.len() ==> !holds_text(text, #[trigger] markers[k]),
    ensures
        extractions(text, markers) == (Extraction { terms: Seq::empty(), text }),
    decreases markers.len(),
{
    if markers.len() > 0 {
        let shorter = markers.drop_last();
        assert forall|k: int| 0 <= k < shorter.len() implies (#[trigger] shorter[k]).len() > 0 && is_unbroken(
            shorter[k],
        ) && !holds_text(text, shorter[k]) by {
            assert(shorter[k] == markers[k]);
            assert(markers[k].len() > 0);
        }
        lemma_nothing_extracted_at_all(text, shorter);
        assert(markers[markers.len() - 1].len() > 0);
        lemma_nothing_extracted(text, markers[markers.len() - 1]);
        assert(Seq::<Seq<char>>::empty() + Seq::<Seq<char>>::empty() =~= Seq::<Seq<char>>::empty());
    }
}

proof fn lemma_exclusion_markers_are_unbroken()
    ensures
        are_unbroken(exclusion_markers()),
{
    reveal_strlit("不要");
    reveal_strlit("不含");
    reveal_strlit("排除");
    reveal_strlit("沒有");
}

/// Once the words to be left out have been taken out of a text, it holds none of their
/// markers. What is left stood in the text, in its order and, between blanks, unbroken. Doing
/// so once more finds no word and changes nothing, nor does it where there is no marker.
pub proof fn law_exclusions_are_gone(text: Seq<char>)
    ensures
        ({
            let after = extractions(text, exclusion_markers());
            &&& forall|k: int|
                0 <= k < exclusion_markers().len() ==> !holds_text(after.text, #[trigger] exclusion_markers()[k])
            &&& is_left_of(after.text, text)
            &&& extractions(after.text, exclusion_markers()) == (Extraction {
                terms: Seq::empty(),
                text: after.text,
            })
            &&& (forall|k: int|
                0 <= k < exclusion_markers().len() ==> !holds_text(text, #[trigger] exclusion_markers()[k]))
                ==> after == (Extraction { terms: Seq::empty(), text })
        }),
{
    lemma_exclusion_markers_are_unbroken();
    lemma_extractions(text, exclusion_markers());
    lemma_nothing_extracted_at_all(extractions(text, exclusion_markers()).text, exclusion_markers());
    if forall|k: int| 0 <= k < exclusion_markers().len() ==> !holds_text(text, #[trigger] exclusion_markers()[k]) {
        lemma_nothing_extracted_at_all(text, exclusion_markers());
    }
}

/// Every word that a text rules out stood in it, is not empty, is no stop word, and holds
/// neither a blank nor a particle nor a mark that ends a word.
pub proof fn law_excluded_words_stood_in_the_text(text: Seq<char>, k: int)
    requires
        0 <= k < extractions(text, exclusion_markers()).terms.len(),
    ensures
        ({
            let word = extractions(text, exclusion_markers()).terms[k];
            &&& holds_text(text, word)
            &&& word.len() > 0
            &&& !stop_words().contains(word)
            &&& forall|i: int|
                0 <= i < word.len() ==> !white_space(#[trigger] word[i]) && !"的和與在有或、，,。"@.contains(word[i])
        }),
{
    lemma_exclusion_markers_are_unbroken();
    lemma_extractions(text, exclusion_markers());
    law_excluded_words_are_words(text, exclusion_markers(), k);
    let word = extractions(text, exclusion_markers()).terms[k];
    assert forall|i: int| 0 <= i < word.len() implies !white_space(#[trigger] word[i])
        && !"的和與在有或、，,。"@.contains(word[i]) by {
        assert(term_character()(word[i]));
    }
}

// ---------------------------------------------------------------------------
// What is left of a query
// ---------------------------------------------------------------------------

/// Where a limit starts and ends that is taken out of a text.
proof fn lemma_limit_passage(text: Seq<char>, marker: Seq<char>) -> (passage: (int, int))
    requires
        holds_text(text, marker),
    ensures
        0 <= passage.0 <= passage.1 <= text.len(),
        without_limit(text, marker) == text.take(passage.0) + seq![' '] + text.skip(passage.1),
{
    lemma_blank_text();
    lemma_first_place(text, marker);
    let at = find_text(text, marker)->0;
    let behind = text.skip(at + marker.len());
    let blanks = run_length(behind, blank()) as int;
    assert(0 <= blanks <= behind.len()) by {
        lemma_run_bounds(behind, blank());
    }
    let tail = behind.skip(blanks);
    let digits = run_length(tail, digit()) as int;
    assert(0 <= digits <= tail.len()) by {
        lemma_run_bounds(tail, digit());
    }
    let start = at + marker.len() + blanks + digits;
    assert(tail.skip(digits) =~= text.skip(start));
    (at, start)
}

proof fn lemma_without_limit_is_left(text: Seq<char>, marker: Seq<char>)
    ensures
        is_left_of(without_limit(text, marker), text),
{
    if holds_text(text, marker) {
        let passage = lemma_limit_passage(text, marker);
        lemma_left_without_passage(text, passage.0, passage.1);
    } else {
        lemma_left_of_itself(text);
    }
}

/// Where a text holds a word, there is a first place of it.
proof fn lemma_first_place(text: Seq<char>, word: Seq<char>)
    requires
        holds_text(text, word),
    ensures
        find_text(text, word) is Some,
        occurs_at(text, word, find_text(text, word)->0),
{
    let at = choose|at: int| occurs_at(text, word, at);
    lemma_first_up_to(text, word, at);
}

proof fn lemma_first_up_to(text: Seq<char>, word: Seq<char>, at: int)
    requires
        occurs_at(text, word, at),
    ensures
        find_text(text, word) is Some,
        occurs_at(text, word, find_text(text, word)->0),
    decreases at,
{
    if exists|i: int| i < at && occurs_at(text, word, i) {
        let earlier = choose|i: int| i < at && occurs_at(text, word, i);
        lemma_first_up_to(text, word, earlier);
    } else {
        assert(first_at(text, word, at));
        lemma_find_text(text, word, at);
    }
}

proof fn lemma_without_limits_is_left(text: Seq<char>, markers: Seq<Seq<char>>)
    ensures
        is_left_of(without_limits(text, markers), text),
    decreases markers.len(),
{
    if markers.len() == 0 {
        lemma_left_of_itself(text);
    } else {
        let before = without_limits(text, markers.drop_last());
        lemma_without_limits_is_left(text, markers.drop_last());
        lemma_without_limit_is_left(before, markers.last());
        lemma_left_of_left(text, before, without_limits(text, markers));
    }
}

proof fn lemma_struck_held_is_left(text: Seq<char>, query: Seq<char>, phrases: Seq<Seq<char>>)
    ensures
        is_left_of(struck_held(text, query, phrases), text),
    decreases phrases.len(),
{
    if phrases.len() == 0 {
        lemma_left_of_itself(text);
    } else {
        lemma_blank_text();
        let before = struck_held(text, query, phrases.drop_last());
        lemma_struck_held_is_left(text, query, phrases.drop_last());
        lemma_replaced_is_left(before, phrases.last());
        if holds_text(query, phrases.last()) {
            lemma_left_of_left(text, before, struck_held(text, query, phrases));
        }
    }
}

proof fn lemma_people_text_is_left(query: Seq<char>, text: Seq<char>, known: Seq<Seq<char>>)
    ensures
        is_left_of(people_of(query, text, known).text, text),
    decreases known.len(),
{
    if known.len() == 0 {
        lemma_left_of_itself(text);
    } else {
        lemma_blank_text();
        let before = people_of(query, text, known.drop_last()).text;
        let name = crate::text::trimmed(known.last(), blank());
        lemma_people_text_is_left(query, text, known.drop_last());
        lemma_replaced_is_left(before, crate::text::lowercase(name));
        if crate::query::mentions(query, name) {
            lemma_left_of_left(text, before, people_of(query, text, known).text);
        }
    }
}

/// What words are looked for in, once all else has been taken out of a query.
pub open spec fn wording(query: Seq<char>, known: Seq<Seq<char>>) -> Seq<char> {
    struck_held(people_of(query, without_face_phrases(query), known).text, query, image_extensions())
}

/// What is left of a query for its words is left of the query without its dates.
proof fn lemma_wording_is_left(query: Seq<char>, known: Seq<Seq<char>>)
    ensures
        is_left_of(wording(query, known), undated(query)),
{
    lemma_blank_text();
    let dateless = undated(query);
    let unlimited = undated_unlimited(query);
    lemma_without_limits_is_left(dateless, limit_markers());
    let faceless = struck_held(unlimited, query, faceless_phrases());
    lemma_struck_held_is_left(unlimited, query, faceless_phrases());
    lemma_left_of_left(dateless, unlimited, faceless);
    let phraseless = without_face_phrases(query);
    match first_held(query, face_phrases()) {
        Some(phrase) => {
            lemma_replaced_is_left(faceless, phrase);
            lemma_left_of_itself(faceless);
            lemma_left_of_left(dateless, faceless, phraseless);
        },
        None => {},
    }
    let nameless = people_of(query, phraseless, known).text;
    lemma_people_text_is_left(query, phraseless, known);
    lemma_left_of_left(dateless, phraseless, nameless);
    lemma_struck_held_is_left(nameless, query, image_extensions());
    lemma_left_of_left(dateless, nameless, wording(query, known));
}

// ---------------------------------------------------------------------------
// The words of a plan
// ---------------------------------------------------------------------------

/// Words without a separator, joined by blanks, are the pieces of what they make.
proof fn lemma_joined_words_are_pieces(words: Seq<Seq<char>>)
    requires
        words.len() > 0,
        forall|k: int| 0 <= k < words.len() ==> is_clear_of(#[trigger] words[k], word_separator()),
    ensures
        pieces(joined(words, " "@), word_separator()) == words,
    decreases words.len(),
{
    lemma_blank_text();
    let last = words[words.len() - 1];
    assert(is_clear_of(last, word_separator()));
    if words.len() == 1 {
        lemma_pieces_of_word(last, word_separator());
        assert(words =~= seq![last]);
    } else {
        let shorter = words.drop_last();
        assert forall|k: int| 0 <= k < shorter.len() implies is_clear_of(#[trigger] shorter[k], word_separator()) by {
            assert(is_clear_of(words[k], word_separator()));
        }
        lemma_joined_words_are_pieces(shorter);
        assert(word_separator()(' '));
        lemma_pieces_of_one_more(joined(shorter, " "@), ' ', last, word_separator());
        assert(words =~= shorter.push(last));
    }
}

/// Words survive being joined and split again.
pub proof fn law_words_survive_being_joined(words: Seq<Seq<char>>)
    requires
        forall|k: int|
            0 <= k < words.len() ==> (#[trigger] words[k]).len() > 0 && !stop_words().contains(words[k]) && is_clear_of(
                words[k],
                word_separator(),
            ),
    ensures
        words_of(joined(words, " "@)) == words,
{
    let keep = |word: Seq<char>| word.len() > 0 && !stop_words().contains(word);
    reveal(Seq::filter);
    if words.len() == 0 {
        let nothing = Seq::<char>::empty();
        assert(pieces(nothing, word_separator()) =~= seq![nothing]);
        let one = seq![nothing];
        assert(one.drop_last() =~= Seq::<Seq<char>>::empty());
        assert(one.drop_last().filter(keep) =~= Seq::<Seq<char>>::empty());
        assert(!keep(one.last()));
        assert(one.filter(keep) =~= Seq::<Seq<char>>::empty());
        assert(words =~= Seq::<Seq<char>>::empty());
    } else {
        lemma_joined_words_are_pieces(words);
        lemma_all_are_kept(words, keep);
    }
}

/// A word of a plan: it is not empty, is no stop word, and holds no blank, no digit and no
/// sign of a date.
pub open spec fn is_plan_word(word: Seq<char>) -> bool {
    &&& word.len() > 0
    &&& !stop_words().contains(word)
    &&& is_clear_of(word, blank())
    &&& is_clear_of(word, date_character())
}

/// The words of every plan, those that count and those that rule out, are not empty, are no
/// stop words, and hold no blank, no digit and no sign of a date; none that counts is a word
/// of negation. Those that count are what the text of the semantic search is split into.
pub proof fn law_plan_words(query: Seq<char>, known: Seq<Seq<char>>, now_year: int)
    ensures
        ({
            let plan = normalized_plan(query, known, now_year);
            &&& plan.semantic_query == joined(plan.should, " "@)
            &&& words_of(plan.semantic_query) == plan.should
            &&& plan.must == Seq::<Seq<char>>::empty()
            &&& forall|k: int| 0 <= k < plan.should.len() ==> is_plan_word(#[trigger] plan.should[k])
            &&& forall|k: int| 0 <= k < plan.should.len() ==> !negations().contains(#[trigger] plan.should[k])
            &&& forall|k: int| 0 <= k < plan.must_not.len() ==> is_plan_word(#[trigger] plan.must_not[k])
        }),
{
    let plan = normalized_plan(query, known, now_year);
    let text = wording(query, known);
    let rest = extractions(text, exclusion_markers());
    law_dates_are_gone(query);
    lemma_wording_is_left(query, known);
    lemma_left_stays_clear(undated(query), text, date_character());
    lemma_exclusion_markers_are_unbroken();
    lemma_extractions(text, exclusion_markers());
    lemma_left_stays_clear(text, rest.text, date_character());
    lemma_pieces_stay_clear(rest.text, word_separator(), date_character());
    let words = words_of(rest.text);
    let all = pieces(rest.text, word_separator());
    let keep = |word: Seq<char>| word.len() > 0 && !stop_words().contains(word);
    let positive = |word: Seq<char>| !negations().contains(word);
    assert forall|k: int| 0 <= k < plan.should.len() implies is_plan_word(#[trigger] plan.should[k]) && is_clear_of(
        plan.should[k],
        word_separator(),
    ) && !negations().contains(plan.should[k]) by {
        let word = plan.should[k];
        law_plan_words_are_positive(query, known, now_year, k);
        words.lemma_filter_pred(positive, k);
        assert(words.filter(positive).contains(word));
        words.lemma_filter_contains_rev(positive, word);
        let at = choose|at: int| 0 <= at < words.len() && words[at] == word;
        law_words_hold_no_separator(rest.text, at);
        assert forall|i: int| 0 <= i < word.len() implies !blank()(#[trigger] word[i]) && !word_separator()(word[i]) by {
            assert(!word_separator()(words_of(rest.text)[at][i]));
        }
        all.lemma_filter_pred(keep, at);
        assert(all.filter(keep).contains(word));
        all.lemma_filter_contains_rev(keep, word);
        let piece = choose|piece: int| 0 <= piece < all.len() && all[piece] == word;
        assert(is_clear_of(all[piece], date_character()));
    }
    law_words_survive_being_joined(plan.should);
    assert forall|k: int| 0 <= k < plan.must_not.len() implies is_plan_word(#[trigger] plan.must_not[k]) by {
        let word = plan.must_not[k];
        law_excluded_words_stood_in_the_text(text, k);
        lemma_held_word_is_clear(text, word, date_character());
    }
}

// ---------------------------------------------------------------------------
// What dates ask for
// ---------------------------------------------------------------------------

/// A range holds exactly the moments of a day, in the years that are written with four digits.
pub open spec fn asks_for_day(range: DateRange, year: int, month: int, day: int) -> bool {
    forall|moment: CivilTime|
        moment.valid() && 0 <= moment.year <= 9999 ==> lies_between(#[trigger] moment.text(), range.from, range.to) == (
        moment.year == year && moment.month == month && moment.day == day)
}

/// A range holds exactly the moments from one month of a year to another.
pub open spec fn asks_for_months(range: DateRange, year: int, first: int, last: int) -> bool {
    forall|moment: CivilTime|
        moment.valid() && 0 <= moment.year <= 9999 ==> lies_between(#[trigger] moment.text(), range.from, range.to) == (
        moment.year == year && first <= moment.month <= last)
}

/// A text holds none of the words for years that are named by the present one.
pub open spec fn names_no_near_year(query: Seq<char>) -> bool {
    &&& !holds_text(query, "前年"@)
    &&& !holds_text(query, "去年"@)
    &&& !holds_text(query, "今年"@)
    &&& !holds_text(query, "明年"@)
}

/// A text without a character does not have it.
proof fn lemma_first_character(text: Seq<char>, mark: char, at: int)
    requires
        0 <= at < text.len(),
        text[at] == mark,
        forall|i: int| 0 <= i < at ==> #[trigger] text[i] != mark,
    ensures
        find_text(text, seq![mark]) == Some(at),
{
    let word = seq![mark];
    assert(text.subrange(at, at + 1) =~= word);
    assert forall|i: int| i < at implies !occurs_at(text, word, i) by {
        if occurs_at(text, word, i) {
            assert(text.subrange(i, i + 1)[0] == text[i]);
        }
    }
    lemma_find_text(text, word, at);
}

/// A text is the digits of a number, with any zeros before them.
pub open spec fn is_numeral(text: Seq<char>, number: nat) -> bool {
    let start = text.len() - digits_of(number).len();
    &&& 0 <= start
    &&& text.skip(start) == digits_of(number)
    &&& forall|i: int| 0 <= i < start ==> #[trigger] text[i] == '0'
}

/// The digits of a number stand for it, whatever zeros are before them.
proof fn lemma_numeral(text: Seq<char>, number: nat)
    requires
        is_numeral(text, number),
    ensures
        text.len() > 0,
        all_digits(text),
        decimal(text) == number,
{
    lemma_digits_of(number);
    let start = text.len() - digits_of(number).len();
    let zeros = text.take(start);
    assert(text =~= zeros + digits_of(number));
    lemma_decimal_of_zeros(zeros, digits_of(number));
    assert forall|i: int| 0 <= i < text.len() implies is_digit(#[trigger] text[i]) by {
        if i >= start {
            assert(text[i] == digits_of(number)[i - start]);
        }
    }
}

/// The digits of a number are such a text.
proof fn lemma_digits_are_a_numeral(number: nat)
    ensures
        is_numeral(digits_of(number), number),
{
    assert(digits_of(number).skip(0) =~= digits_of(number));
}

/// The number right before the first of a mark.
proof fn lemma_number_before(before: Seq<char>, digits: Seq<char>, number: nat, mark: char, behind: Seq<char>)
    requires
        is_numeral(digits, number),
        number <= i32::MAX,
        !is_digit(mark),
        forall|i: int| 0 <= i < before.len() ==> #[trigger] before[i] != mark,
        before.len() > 0 ==> !is_digit(before.last()),
    ensures
        number_before(before + digits + seq![mark] + behind, seq![mark]) == Some(number as int),
{
    lemma_numeral(digits, number);
    let text = before + digits + seq![mark] + behind;
    let at = (before.len() + digits.len()) as int;
    assert forall|i: int| 0 <= i < at implies #[trigger] text[i] != mark by {
        if i < before.len() {
            assert(text[i] == before[i]);
        } else {
            assert(text[i] == digits[i - before.len()]);
            assert(is_digit(digits[i - before.len()]));
        }
    }
    lemma_first_character(text, mark, at);
    let head = text.take(at);
    assert(head =~= before + digits);
    assert forall|i: int| head.len() - digits.len() <= i < head.len() implies digit()(#[trigger] head[i]) by {
        assert(head[i] == digits[i - before.len()]);
        assert(is_digit(digits[i - before.len()]));
    }
    lemma_tail_length(head, digit(), digits.len() as int);
    assert(head.skip(before.len() as int) =~= digits);
}

/// A text without a mark has no number before it.
proof fn lemma_no_number_before(text: Seq<char>, mark: char)
    requires
        forall|i: int| 0 <= i < text.len() ==> #[trigger] text[i] != mark,
    ensures
        number_before(text, seq![mark]) is None,
{
    if holds_text(text, seq![mark]) {
        let at = choose|at: int| occurs_at(text, seq![mark], at);
        assert(text.subrange(at, at + 1)[0] == text[at]);
    }
}

proof fn lemma_date_marks()
    ensures
        "年"@ == seq!['年'],
        "月"@ == seq!['月'],
        "日"@ == seq!['日'],
{
    reveal_strlit("年");
    reveal_strlit("月");
    reveal_strlit("日");
    assert("年"@ =~= seq!['年']);
    assert("月"@ =~= seq!['月']);
    assert("日"@ =~= seq!['日']);
}

/// Whoever names a summer or a near year names the near year.
proof fn lemma_no_near_summer(query: Seq<char>)
    requires
        names_no_near_year(query),
    ensures
        !holds_text(query, "去年夏天"@),
        !holds_text(query, "今年夏天"@),
{
    reveal_strlit("去年夏天");
    reveal_strlit("今年夏天");
    reveal_strlit("去年");
    reveal_strlit("今年");
    if holds_text(query, "去年夏天"@) {
        let at = choose|at: int| occurs_at(query, "去年夏天"@, at);
        assert(query.subrange(at, at + 2) =~= query.subrange(at, at + 4).take(2));
        assert(query.subrange(at, at + 2) =~= "去年"@);
        assert(occurs_at(query, "去年"@, at));
    }
    if holds_text(query, "今年夏天"@) {
        let at = choose|at: int| occurs_at(query, "今年夏天"@, at);
        assert(query.subrange(at, at + 2) =~= query.subrange(at, at + 4).take(2));
        assert(query.subrange(at, at + 2) =~= "今年"@);
        assert(occurs_at(query, "今年"@, at));
    }
}

/// A date written with a year, a month and a day asks for exactly the moments of that day,
/// wherever it stands, as long as nothing before it is part of a date, and with zeros before its
/// numbers or without.
pub proof fn law_a_written_day_asks_for_that_day(
    query: &str,
    now_year: i32,
    range: DateRange,
    before: Seq<char>,
    written: (Seq<char>, Seq<char>, Seq<char>),
    year: nat,
    month: nat,
    day: nat,
    behind: Seq<char>,
)
    requires
        i32::MIN + 2 <= now_year < i32::MAX,
        call_ensures(parse_date_range_in, (query, now_year), range),
        query@ == before + written.0 + "年"@ + written.1 + "月"@ + written.2 + "日"@ + behind,
        is_numeral(written.0, year),
        is_numeral(written.1, month),
        is_numeral(written.2, day),
        is_clear_of(before, date_character()),
        names_no_near_year(query@),
        1900 <= year <= 2200,
        1 <= month <= 12,
        1 <= day <= month_length(year as int, month as int),
    ensures
        asks_for_day(range, year as int, month as int, day as int),
{
    lemma_date_marks();
    lemma_no_near_summer(query@);
    lemma_first_two_numbers(before, (written.0, written.1), year, month, written.2 + "日"@ + behind);
    lemma_third_number(before, written, year, month, day, behind);
    assert(query@ =~= before + written.0 + "年"@ + written.1 + "月"@ + (written.2 + "日"@ + behind));
    assert(range@ == named_range(year as int, Some(month as int), Some(day as int))->0);
    assert forall|moment: CivilTime| moment.valid() && 0 <= moment.year <= 9999 implies lies_between(
        #[trigger] moment.text(),
        range.from,
        range.to,
    ) == (moment.year == year && moment.month == month && moment.day == day) by {
        law_day_finds_its_moments(moment, year as int, month as int, day as int);
    }
}

/// The year and the month of a written date.
proof fn lemma_first_two_numbers(
    before: Seq<char>,
    written: (Seq<char>, Seq<char>),
    year: nat,
    month: nat,
    behind: Seq<char>,
)
    requires
        is_numeral(written.0, year),
        is_numeral(written.1, month),
        is_clear_of(before, date_character()),
        year <= i32::MAX,
        month <= i32::MAX,
    ensures
        ({
            let text = before + written.0 + "年"@ + written.1 + "月"@ + behind;
            &&& number_before(text, "年"@) == Some(year as int)
            &&& number_before(text, "月"@) == Some(month as int)
        }),
{
    lemma_date_marks();
    lemma_clear_before(before);
    let text = before + written.0 + "年"@ + written.1 + "月"@ + behind;
    let rest = written.1 + "月"@ + behind;
    lemma_number_before(before, written.0, year, '年', rest);
    assert(text =~= before + written.0 + seq!['年'] + rest);
    let second = before + written.0 + seq!['年'];
    lemma_marks_differ(before, written.0, year, '年', '月');
    lemma_number_before(second, written.1, month, '月', behind);
    assert(text =~= second + written.1 + seq!['月'] + behind);
}

/// The day of a written date.
proof fn lemma_third_number(
    before: Seq<char>,
    written: (Seq<char>, Seq<char>, Seq<char>),
    year: nat,
    month: nat,
    day: nat,
    behind: Seq<char>,
)
    requires
        is_numeral(written.0, year),
        is_numeral(written.1, month),
        is_numeral(written.2, day),
        is_clear_of(before, date_character()),
        day <= i32::MAX,
    ensures
        number_before(
            before + written.0 + "年"@ + written.1 + "月"@ + written.2 + "日"@ + behind,
            "日"@,
        ) == Some(day as int),
{
    lemma_date_marks();
    lemma_clear_before(before);
    lemma_marks_differ(before, written.0, year, '年', '日');
    let second = before + written.0 + seq!['年'];
    lemma_marks_differ(second, written.1, month, '月', '日');
    lemma_number_before(second + written.1 + seq!['月'], written.2, day, '日', behind);
}

/// What is clear of the characters of dates has none of them.
proof fn lemma_clear_before(before: Seq<char>)
    requires
        is_clear_of(before, date_character()),
    ensures
        forall|i: int| 0 <= i < before.len() ==> #[trigger] before[i] != '年' && before[i] != '月' && before[i] != '日'
            && !is_digit(before[i]),
        before.len() > 0 ==> !is_digit(before.last()),
{
    assert forall|i: int| 0 <= i < before.len() implies #[trigger] before[i] != '年' && before[i] != '月' && before[i]
        != '日' && !is_digit(before[i]) by {
        assert(!date_character()(before[i]));
    }
    if before.len() > 0 {
        assert(before.last() == before[before.len() - 1]);
    }
}

/// A text that ends in a number and a mark does not have another mark.
proof fn lemma_marks_differ(before: Seq<char>, digits: Seq<char>, number: nat, mark: char, other: char)
    requires
        is_numeral(digits, number),
        forall|i: int| 0 <= i < before.len() ==> #[trigger] before[i] != other,
        mark != other,
        !is_digit(other),
        !is_digit(mark),
    ensures
        ({
            let text = before + digits + seq![mark];
            &&& forall|i: int| 0 <= i < text.len() ==> #[trigger] text[i] != other
            &&& text.len() > 0
            &&& !is_digit(text.last())
        }),
{
    lemma_numeral(digits, number);
    let text = before + digits + seq![mark];
    assert forall|i: int| 0 <= i < text.len() implies #[trigger] text[i] != other by {
        if i < before.len() {
            assert(text[i] == before[i]);
        } else if i < before.len() + digits.len() {
            assert(text[i] == digits[i - before.len()]);
            assert(is_digit(digits[i - before.len()]));
        }
    }
}

/// A date written with a year and a month asks for exactly the moments of that month.
pub proof fn law_a_written_month_asks_for_that_month(
    query: &str,
    now_year: i32,
    range: DateRange,
    before: Seq<char>,
    written: (Seq<char>, Seq<char>),
    year: nat,
    month: nat,
    behind: Seq<char>,
)
    requires
        i32::MIN + 2 <= now_year < i32::MAX,
        call_ensures(parse_date_range_in, (query, now_year), range),
        query@ == before + written.0 + "年"@ + written.1 + "月"@ + behind,
        is_numeral(written.0, year),
        is_numeral(written.1, month),
        is_clear_of(before, date_character()),
        forall|i: int| 0 <= i < behind.len() ==> #[trigger] behind[i] != '日',
        names_no_near_year(query@),
        1900 <= year <= 2200,
        1 <= month <= 12,
    ensures
        asks_for_months(range, year as int, month as int, month as int),
{
    lemma_date_marks();
    lemma_no_near_summer(query@);
    lemma_clear_before(before);
    lemma_first_two_numbers(before, written, year, month, behind);
    let second = before + written.0 + seq!['年'];
    lemma_marks_differ(before, written.0, year, '年', '日');
    lemma_marks_differ(second, written.1, month, '月', '日');
    let third = second + written.1 + seq!['月'];
    assert forall|i: int| 0 <= i < query@.len() implies #[trigger] query@[i] != '日' by {
        if i < third.len() {
            assert(query@[i] == third[i]);
        } else {
            assert(query@[i] == behind[i - third.len()]);
        }
    }
    lemma_no_number_before(query@, '日');
    assert(range@ == named_range(year as int, Some(month as int), None)->0);
    assert forall|moment: CivilTime| moment.valid() && 0 <= moment.year <= 9999 implies lies_between(
        #[trigger] moment.text(),
        range.from,
        range.to,
    ) == (moment.year == year && month <= moment.month <= month) by {
        law_month_finds_its_moments(moment, year as int, month as int);
    }
}

/// The plain text of a date with a year, a month and a day names no near year.
pub proof fn lemma_written_dates_name_no_near_year(text: Seq<char>)
    requires
        forall|i: int|
            0 <= i < text.len() ==> #[trigger] text[i] != '前' && text[i] != '去' && text[i] != '今' && text[i] != '明',
    ensures
        names_no_near_year(text),
{
    reveal_strlit("前年");
    reveal_strlit("去年");
    reveal_strlit("今年");
    reveal_strlit("明年");
    if holds_text(text, "前年"@) {
        let at = choose|at: int| occurs_at(text, "前年"@, at);
        assert(text.subrange(at, at + 2)[0] == text[at]);
    }
    if holds_text(text, "去年"@) {
        let at = choose|at: int| occurs_at(text, "去年"@, at);
        assert(text.subrange(at, at + 2)[0] == text[at]);
    }
    if holds_text(text, "今年"@) {
        let at = choose|at: int| occurs_at(text, "今年"@, at);
        assert(text.subrange(at, at + 2)[0] == text[at]);
    }
    if holds_text(text, "明年"@) {
        let at = choose|at: int| occurs_at(text, "明年"@, at);
        assert(text.subrange(at, at + 2)[0] == text[at]);
    }
}

/// For every date of the years 1900 to 2200 its year, month and day, written one after the other
/// and nothing else, ask for exactly the moments of that day; its year and month alone ask for
/// exactly the moments of that month.
pub proof fn law_written_dates_are_understood(
    day_query: &str,
    month_query: &str,
    now_year: i32,
    day_range: DateRange,
    month_range: DateRange,
    year: nat,
    month: nat,
    day: nat,
)
    requires
        i32::MIN + 2 <= now_year < i32::MAX,
        call_ensures(parse_date_range_in, (day_query, now_year), day_range),
        call_ensures(parse_date_range_in, (month_query, now_year), month_range),
        day_query@ == digits_of(year) + "年"@ + digits_of(month) + "月"@ + digits_of(day) + "日"@,
        month_query@ == digits_of(year) + "年"@ + digits_of(month) + "月"@,
        1900 <= year <= 2200,
        1 <= month <= 12,
        1 <= day <= month_length(year as int, month as int),
    ensures
        asks_for_day(day_range, year as int, month as int, day as int),
        asks_for_months(month_range, year as int, month as int, month as int),
{
    lemma_date_marks();
    lemma_digits_of(year);
    lemma_digits_of(month);
    lemma_digits_of(day);
    let nothing = Seq::<char>::empty();
    let head = digits_of(year) + "年"@ + digits_of(month) + "月"@;
    assert forall|i: int| 0 <= i < head.len() implies is_digit(#[trigger] head[i]) || head[i] == '年' || head[i]
        == '月' by {
        let first = digits_of(year).len();
        if i < first {
            assert(head[i] == digits_of(year)[i]);
        } else if first < i < first + 1 + digits_of(month).len() {
            assert(head[i] == digits_of(month)[i - first - 1]);
        }
    }
    assert forall|i: int| 0 <= i < day_query@.len() implies #[trigger] day_query@[i] != '前' && day_query@[i] != '去'
        && day_query@[i] != '今' && day_query@[i] != '明' by {
        if i < head.len() {
            assert(day_query@[i] == head[i]);
        } else if i < head.len() + digits_of(day).len() {
            assert(day_query@[i] == digits_of(day)[i - head.len()]);
        }
    }
    lemma_written_dates_name_no_near_year(day_query@);
    lemma_written_dates_name_no_near_year(month_query@);
    assert(day_query@ =~= nothing + digits_of(year) + "年"@ + digits_of(month) + "月"@ + digits_of(day) + "日"@ + nothing);
    assert(month_query@ =~= nothing + digits_of(year) + "年"@ + digits_of(month) + "月"@ + nothing);
    lemma_digits_are_a_numeral(year);
    lemma_digits_are_a_numeral(month);
    lemma_digits_are_a_numeral(day);
    let written = (digits_of(year), digits_of(month));
    law_a_written_day_asks_for_that_day(
        day_query,
        now_year,
        day_range,
        nothing,
        (written.0, written.1, digits_of(day)),
        year,
        month,
        day,
        nothing,
    );
    law_a_written_month_asks_for_that_month(month_query, now_year, month_range, nothing, written, year, month, nothing);
}

/// A year that is written alone asks for exactly the moments of its January, and with a day for
/// those of that day of January.
pub proof fn law_a_written_year_asks_for_its_january(
    query: &str,
    day_query: &str,
    now_year: i32,
    range: DateRange,
    day_range: DateRange,
    before: Seq<char>,
    written: (Seq<char>, Seq<char>),
    year: nat,
    day: nat,
    behind: Seq<char>,
)
    requires
        i32::MIN + 2 <= now_year < i32::MAX,
        call_ensures(parse_date_range_in, (query, now_year), range),
        call_ensures(parse_date_range_in, (day_query, now_year), day_range),
        query@ == before + written.0 + "年"@ + behind,
        day_query@ == before + written.0 + "年"@ + written.1 + "日"@ + behind,
        is_numeral(written.0, year),
        is_numeral(written.1, day),
        is_clear_of(before, date_character()),
        forall|i: int| 0 <= i < behind.len() ==> #[trigger] behind[i] != '月' && behind[i] != '日',
        names_no_near_year(query@),
        names_no_near_year(day_query@),
        1900 <= year <= 2200,
        1 <= day <= 31,
    ensures
        asks_for_months(range, year as int, 1, 1),
        asks_for_day(day_range, year as int, 1, day as int),
{
    lemma_date_marks();
    lemma_no_near_summer(query@);
    lemma_no_near_summer(day_query@);
    lemma_clear_before(before);
    let head = before + written.0 + seq!['年'];
    lemma_number_before(before, written.0, year, '年', behind);
    lemma_number_before(before, written.0, year, '年', written.1 + "日"@ + behind);
    assert(day_query@ =~= head + (written.1 + "日"@ + behind));
    lemma_marks_differ(before, written.0, year, '年', '月');
    lemma_marks_differ(before, written.0, year, '年', '日');
    assert forall|i: int| 0 <= i < query@.len() implies #[trigger] query@[i] != '月' && query@[i] != '日' by {
        if i < head.len() {
            assert(query@[i] == head[i]);
        } else {
            assert(query@[i] == behind[i - head.len()]);
        }
    }
    lemma_no_number_before(query@, '月');
    lemma_no_number_before(query@, '日');
    lemma_january(range, year as int);
    lemma_number_before(head, written.1, day, '日', behind);
    lemma_marks_differ(head, written.1, day, '日', '月');
    let all = head + written.1 + seq!['日'];
    assert forall|i: int| 0 <= i < day_query@.len() implies #[trigger] day_query@[i] != '月' by {
        if i < all.len() {
            assert(day_query@[i] == all[i]);
        } else {
            assert(day_query@[i] == behind[i - all.len()]);
        }
    }
    lemma_no_number_before(day_query@, '月');
    assert(day_range@ == named_range(year as int, Some(1), Some(day as int))->0);
    assert forall|moment: CivilTime| moment.valid() && 0 <= moment.year <= 9999 implies lies_between(
        #[trigger] moment.text(),
        day_range.from,
        day_range.to,
    ) == (moment.year == year && moment.month == 1 && moment.day == day) by {
        law_day_finds_its_moments(moment, year as int, 1, day as int);
    }
}

/// A written date that the calendar of the years 1900 to 2200 does not have asks for no dates.
pub proof fn law_impossible_dates_ask_for_nothing(
    query: &str,
    now_year: i32,
    range: DateRange,
    before: Seq<char>,
    written: (Seq<char>, Seq<char>, Seq<char>),
    year: nat,
    month: nat,
    day: nat,
    behind: Seq<char>,
)
    requires
        i32::MIN + 2 <= now_year < i32::MAX,
        call_ensures(parse_date_range_in, (query, now_year), range),
        query@ == before + written.0 + "年"@ + written.1 + "月"@ + written.2 + "日"@ + behind,
        is_numeral(written.0, year),
        is_numeral(written.1, month),
        is_numeral(written.2, day),
        is_clear_of(before, date_character()),
        names_no_near_year(query@),
        year <= i32::MAX,
        month <= i32::MAX,
        day <= i32::MAX,
        !(1900 <= year <= 2200) || !(1 <= month <= 12) || day == 0 || day > month_length(year as int, month as int),
    ensures
        range.from is None,
        range.to is None,
{
    lemma_date_marks();
    lemma_no_near_summer(query@);
    lemma_first_two_numbers(before, (written.0, written.1), year, month, written.2 + "日"@ + behind);
    lemma_third_number(before, written, year, month, day, behind);
    assert(query@ =~= before + written.0 + "年"@ + written.1 + "月"@ + (written.2 + "日"@ + behind));
    assert(named_range(year as int, Some(month as int), Some(day as int)) is None);
    assert(range@ == open_range());
}

/// Near years are told by their words. A summer of last year or of this one asks for exactly the
/// moments from June to August; the year before last, last year, this year and next year ask for
/// those of January. A query without any year asks for no dates.
pub proof fn law_near_years_are_understood(query: &str, now_year: i32, range: DateRange)
    requires
        1902 <= now_year <= 2199,
        call_ensures(parse_date_range_in, (query, now_year), range),
    ensures
        ({
            let last_summer = holds_text(query@, "去年夏天"@);
            let this_summer = holds_text(query@, "今年夏天"@);
            let before_last = holds_text(query@, "前年"@);
            let last = holds_text(query@, "去年"@);
            let this = holds_text(query@, "今年"@);
            let next = holds_text(query@, "明年"@);
            &&& last_summer ==> asks_for_months(range, now_year - 1, 6, 8)
            &&& !last_summer && this_summer ==> asks_for_months(range, now_year as int, 6, 8)
            &&& !last_summer && !this_summer && before_last ==> asks_for_months(range, now_year - 2, 1, 1)
            &&& !last_summer && !this_summer && !before_last && last ==> asks_for_months(range, now_year - 1, 1, 1)
            &&& !last_summer && !this_summer && !before_last && !last && this ==> asks_for_months(
                range,
                now_year as int,
                1,
                1,
            )
            &&& !last_summer && !this_summer && !before_last && !last && !this && next ==> asks_for_months(
                range,
                now_year + 1,
                1,
                1,
            )
            &&& !holds_text(query@, "年"@) && names_no_near_year(query@) ==> range.from is None && range.to is None
        }),
{
    let last_summer = holds_text(query@, "去年夏天"@);
    let this_summer = holds_text(query@, "今年夏天"@);
    let before_last = holds_text(query@, "前年"@);
    let last = holds_text(query@, "去年"@);
    let this = holds_text(query@, "今年"@);
    let next = holds_text(query@, "明年"@);
    if last_summer {
        lemma_summer(range, now_year - 1);
    } else if this_summer {
        lemma_summer(range, now_year as int);
    } else if before_last {
        lemma_january(range, now_year - 2);
    } else if last {
        lemma_january(range, now_year - 1);
    } else if this {
        lemma_january(range, now_year as int);
    } else if next {
        lemma_january(range, now_year + 1);
    }
    if names_no_near_year(query@) {
        lemma_no_near_summer(query@);
    }
}

proof fn lemma_summer(range: DateRange, year: int)
    requires
        1900 <= year <= 2200,
        range@ == crate::query::summer(year),
    ensures
        asks_for_months(range, year, 6, 8),
{
    assert forall|moment: CivilTime| moment.valid() && 0 <= moment.year <= 9999 implies lies_between(
        #[trigger] moment.text(),
        range.from,
        range.to,
    ) == (moment.year == year && 6 <= moment.month <= 8) by {
        law_summer_finds_its_moments(moment, year);
    }
}

proof fn lemma_january(range: DateRange, year: int)
    requires
        1900 <= year <= 2200,
        Some(range@) == named_range(year, None, None),
    ensures
        asks_for_months(range, year, 1, 1),
{
    assert(named_range(year, None, None) == named_range(year, Some(1), None));
    assert forall|moment: CivilTime| moment.valid() && 0 <= moment.year <= 9999 implies lies_between(
        #[trigger] moment.text(),
        range.from,
        range.to,
    ) == (moment.year == year && 1 <= moment.month <= 1) by {
        law_month_finds_its_moments(moment, year, 1);
    }
}

// ---------------------------------------------------------------------------
// What the other parts ask for
// ---------------------------------------------------------------------------

/// The dates and the limit of a plan are those that are read from the query by themselves.
pub proof fn law_plans_hold_dates_and_limits(
    query: &str,
    known_people: &Vec<String>,
    now_year: i32,
    plan: QueryPlan,
    range: DateRange,
    limit: Option<usize>,
)
    requires
        i32::MIN + 2 <= now_year < i32::MAX,
        call_ensures(parse_normalized_query, (query, known_people, now_year), plan),
        call_ensures(parse_date_range_in, (query, now_year), range),
        call_ensures(parse_limit, (query,), limit),
    ensures
        plan.date@ == range@,
        plan.limit == limit,
{
    assert(plan@.date == range@);
    assert(plan@.limit == limit_of(query@));
}

/// A query asks for what it asks for without surrounding blanks and in lower case.
pub proof fn law_queries_are_normalized_first(
    query: &str,
    lower: &str,
    known_people: &Vec<String>,
    now_year: i32,
    plan: QueryPlan,
    lower_plan: QueryPlan,
)
    requires
        i32::MIN + 2 <= now_year < i32::MAX,
        lower@ == lowercase(trimmed(query@, blank())),
        call_ensures(parse_query_in, (query, known_people, now_year), plan),
        call_ensures(parse_normalized_query, (lower, known_people, now_year), lower_plan),
    ensures
        plan@ == lower_plan@,
{
}

/// A marker that stands before a number of results at most.
pub open spec fn is_limit_marker(marker: Seq<char>, query: Seq<char>) -> bool {
    ||| marker == "最多"@
    ||| marker == "前"@ && !holds_text(query, "最多"@)
    ||| marker == "取"@ && !holds_text(query, "最多"@) && !holds_text(query, "前"@)
}

/// A number of results behind a marker, with or without blanks between, is the limit of a query,
/// whatever stands before and behind; a query without a marker has none.
pub proof fn law_limits_are_understood(
    query: &str,
    limit: Option<usize>,
    before: Seq<char>,
    marker: Seq<char>,
    blanks: Seq<char>,
    number: nat,
    behind: Seq<char>,
)
    requires
        call_ensures(parse_limit, (query,), limit),
    ensures
        ({
            &&& query@ == before + marker + blanks + digits_of(number) + behind
            &&& is_limit_marker(marker, query@)
            &&& forall|i: int| 0 <= i < before.len() ==> #[trigger] before[i] != marker[0]
            &&& forall|i: int| 0 <= i < blanks.len() ==> white_space(#[trigger] blanks[i])
            &&& 0 < number <= usize::MAX
            &&& behind.len() > 0 ==> !is_digit(behind[0])
        }) ==> limit is Some && limit->0 == number,
        !holds_text(query@, "最多"@) && !holds_text(query@, "前"@) && !holds_text(query@, "取"@) ==> limit is None,
{
    reveal_strlit("最多");
    reveal_strlit("前");
    reveal_strlit("取");
    let text = query@;
    let all = limit_markers();
    assert(all.drop_last() =~= seq!["最多"@, "前"@]);
    assert(all.drop_last().drop_last() =~= seq!["最多"@]);
    assert(all.drop_last().drop_last().drop_last() =~= Seq::<Seq<char>>::empty());
    assert(all.last() == "取"@ && all.drop_last().last() == "前"@ && all.drop_last().drop_last().last() == "最多"@);
    reveal_with_fuel(first_limit, 4);
    if text == before + marker + blanks + digits_of(number) + behind && is_limit_marker(marker, text) && (forall|i: int|
        0 <= i < before.len() ==> #[trigger] before[i] != marker[0]) && (forall|i: int|
        0 <= i < blanks.len() ==> white_space(#[trigger] blanks[i])) && 0 < number <= usize::MAX && (behind.len() > 0
        ==> !is_digit(behind[0])) {
        lemma_limit_after(before, marker, blanks, number, behind);
    }
}

proof fn lemma_limit_after(before: Seq<char>, marker: Seq<char>, blanks: Seq<char>, number: nat, behind: Seq<char>)
    requires
        marker.len() > 0,
        forall|i: int| 0 <= i < before.len() ==> #[trigger] before[i] != marker[0],
        forall|i: int| 0 <= i < blanks.len() ==> white_space(#[trigger] blanks[i]),
        0 < number <= usize::MAX,
        behind.len() > 0 ==> !is_digit(behind[0]),
    ensures
        limit_after(before + marker + blanks + digits_of(number) + behind, marker) == Some(number),
{
    let digits = digits_of(number);
    lemma_digits_of(number);
    let text = before + marker + blanks + digits + behind;
    let at = before.len() as int;
    assert(text.subrange(at, at + marker.len()) =~= marker);
    assert forall|i: int| i < at implies !occurs_at(text, marker, i) by {
        if occurs_at(text, marker, i) {
            assert(text.subrange(i, i + marker.len())[0] == text[i]);
            assert(text[i] == before[i]);
        }
    }
    lemma_find_text(text, marker, at);
    let rest = text.skip(at + marker.len());
    assert(rest =~= blanks + digits + behind);
    assert(is_digit(digits[0]));
    assert(rest[blanks.len() as int] == digits[0]);
    assert forall|i: int| 0 <= i < blanks.len() implies blank()(#[trigger] rest[i]) by {
        assert(rest[i] == blanks[i]);
    }
    lemma_run_length(rest, blank(), blanks.len() as int);
    let tail = rest.skip(blanks.len() as int);
    assert(tail =~= digits + behind);
    assert forall|i: int| 0 <= i < digits.len() implies digit()(#[trigger] tail[i]) by {
        assert(tail[i] == digits[i]);
        assert(is_digit(digits[i]));
    }
    if behind.len() > 0 {
        assert(tail[digits.len() as int] == behind[0]);
    }
    lemma_run_length(tail, digit(), digits.len() as int);
    assert(tail.take(digits.len() as int) =~= digits);
}

/// A word of negation stands right before a name in a query.
pub open spec fn is_ruled_out(query: Seq<char>, name: Seq<char>) -> bool {
    ||| holds_text(query, "不要"@ + lowercase(name))
    ||| holds_text(query, "不含"@ + lowercase(name))
    ||| holds_text(query, "排除"@ + lowercase(name))
    ||| holds_text(query, "沒有"@ + lowercase(name))
    ||| holds_text(query, "無"@ + lowercase(name))
}

/// A known person is asked for exactly where the name stands in the query, in any case, and no
/// word of negation right before it; with such a word the person is ruled out. Nobody else is
/// asked for or ruled out.
pub proof fn law_people_are_understood(
    query: &str,
    known_people: &Vec<String>,
    now_year: i32,
    plan: QueryPlan,
    name: Seq<char>,
)
    requires
        i32::MIN + 2 <= now_year < i32::MAX,
        call_ensures(parse_normalized_query, (query, known_people, now_year), plan),
    ensures
        ({
            let is_known = exists|k: int|
                0 <= k < known_people@.len() && trimmed((#[trigger] known_people@[k])@, blank()) == name;
            let is_named = name.len() > 0 && holds_text(query@, lowercase(name));
            &&& texts(plan.people_include@).contains(name) <==> is_known && is_named && !is_ruled_out(query@, name)
            &&& texts(plan.people_exclude@).contains(name) <==> is_known && is_named && is_ruled_out(query@, name)
        }),
{
    lemma_ruled_out(query@, name);
    lemma_known_name(known_people@, name);
    law_plan_people_are_known(query@, without_face_phrases(query@), texts(known_people@), name);
    assert(plan@.people_include == texts(plan.people_include@));
    assert(plan@.people_exclude == texts(plan.people_exclude@));
}

proof fn lemma_ruled_out(query: Seq<char>, name: Seq<char>)
    ensures
        denies(query, name) == is_ruled_out(query, name),
{
    let all = negations();
    assert(all[0] == "不要"@);
    assert(all[1] == "不含"@);
    assert(all[2] == "排除"@);
    assert(all[3] == "沒有"@);
    assert(all[4] == "無"@);
    if is_ruled_out(query, name) {
        assert(holds_text(query, all[0] + lowercase(name)) || holds_text(query, all[1] + lowercase(name))
            || holds_text(query, all[2] + lowercase(name)) || holds_text(query, all[3] + lowercase(name))
            || holds_text(query, all[4] + lowercase(name)));
    }
}

proof fn lemma_known_name(people: Seq<String>, name: Seq<char>)
    ensures
        (exists|k: int| 0 <= k < people.len() && trimmed((#[trigger] people[k])@, blank()) == name) == (exists|k: int|
            0 <= k < texts(people).len() && name == trimmed(#[trigger] texts(people)[k], blank())),
{
    let known = texts(people);
    if exists|k: int| 0 <= k < people.len() && trimmed((#[trigger] people[k])@, blank()) == name {
        let k = choose|k: int| 0 <= k < people.len() && trimmed((#[trigger] people[k])@, blank()) == name;
        assert(known[k] == people[k]@);
    }
    if exists|k: int| 0 <= k < known.len() && name == trimmed(#[trigger] known[k], blank()) {
        let k = choose|k: int| 0 <= k < known.len() && name == trimmed(#[trigger] known[k], blank());
        assert(trimmed(people[k]@, blank()) == name);
    }
}

/// A query asks for pictures without faces.
pub open spec fn rules_faces_out(query: Seq<char>) -> bool {
    ||| holds_text(query, "不要有人"@)
    ||| holds_text(query, "沒有人的"@)
    ||| holds_text(query, "沒有臉"@)
    ||| holds_text(query, "無人臉"@)
    ||| holds_text(query, "無人物"@)
    ||| holds_text(query, "不要人"@)
}

/// A query asks for pictures with faces.
pub open spec fn calls_for_faces(query: Seq<char>) -> bool {
    ||| holds_text(query, "有人臉"@)
    ||| holds_text(query, "有人"@)
    ||| holds_text(query, "人物"@)
    ||| holds_text(query, "人像"@)
    ||| holds_text(query, "合照"@)
}

/// Faces are ruled out exactly where a phrase of the query says so; else they are asked for
/// exactly where a phrase says so or a person is asked for.
pub proof fn law_faces_are_understood(query: &str, known_people: &Vec<String>, now_year: i32, plan: QueryPlan)
    requires
        i32::MIN + 2 <= now_year < i32::MAX,
        call_ensures(parse_normalized_query, (query, known_people, now_year), plan),
    ensures
        plan.face_presence == FacePresence::Forbidden <==> rules_faces_out(query@),
        plan.face_presence == FacePresence::Required <==> !rules_faces_out(query@) && (calls_for_faces(query@)
            || plan.people_include@.len() > 0),
{
    lemma_faces_ruled_out(query@);
    lemma_faces_called_for(query@);
    lemma_first_held(query@, face_phrases());
    assert(plan@.people_include.len() == plan.people_include@.len());
    assert(plan@.face_presence == crate::query::presence_of(query@, plan@.people_include));
}

proof fn lemma_faces_ruled_out(query: Seq<char>)
    ensures
        any_held(query, faceless_phrases()) == rules_faces_out(query),
{
    let all = faceless_phrases();
    assert(all[0] == "不要有人"@);
    assert(all[1] == "沒有人的"@);
    assert(all[2] == "沒有臉"@);
    assert(all[3] == "無人臉"@);
    assert(all[4] == "無人物"@);
    assert(all[5] == "不要人"@);
}

proof fn lemma_faces_called_for(query: Seq<char>)
    ensures
        any_held(query, face_phrases()) == calls_for_faces(query),
{
    let all = face_phrases();
    assert(all[0] == "有人臉"@);
    assert(all[1] == "有人"@);
    assert(all[2] == "人物"@);
    assert(all[3] == "人像"@);
    assert(all[4] == "合照"@);
}

proof fn lemma_first_held(query: Seq<char>, phrases: Seq<Seq<char>>)
    ensures
        first_held(query, phrases) is Some <==> any_held(query, phrases),
        first_held(query, phrases) is Some ==> phrases.contains(first_held(query, phrases)->0),
    decreases phrases.len(),
{
    if phrases.len() > 0 {
        let shorter = phrases.drop_last();
        lemma_first_held(query, shorter);
        if any_held(query, shorter) {
            let k = choose|k: int| 0 <= k < shorter.len() && holds_text(query, #[trigger] shorter[k]);
            assert(holds_text(query, phrases[k]));
            let n = choose|n: int| 0 <= n < shorter.len() && shorter[n] == first_held(query, shorter)->0;
            assert(phrases[n] == shorter[n]);
        }
        if holds_text(query, phrases.last()) {
            assert(holds_text(query, phrases[phrases.len() - 1]));
        }
        if any_held(query, phrases) {
            let k = choose|k: int| 0 <= k < phrases.len() && holds_text(query, #[trigger] phrases[k]);
            if k < shorter.len() {
                assert(holds_text(query, shorter[k]));
            }
        }
    }
}

/// A file type is asked for exactly where it stands in the query and is one of pictures.
pub proof fn law_file_types_are_understood(
    query: &str,
    known_people: &Vec<String>,
    now_year: i32,
    plan: QueryPlan,
    extension: Seq<char>,
)
    requires
        i32::MIN + 2 <= now_year < i32::MAX,
        call_ensures(parse_normalized_query, (query, known_people, now_year), plan),
    ensures
        texts(plan.extensions@).contains(extension) <==> holds_text(query@, extension) && (extension == "jpg"@
            || extension == "jpeg"@ || extension == "png"@ || extension == "webp"@ || extension == "gif"@
            || extension == "bmp"@),
{
    lemma_extensions_are_kept(query@, extension);
    lemma_picture_types(extension);
    assert(plan@.extensions == crate::query::extensions_of(query@));
}

proof fn lemma_extensions_are_kept(query: Seq<char>, extension: Seq<char>)
    ensures
        crate::query::extensions_of(query).contains(extension) <==> holds_text(query, extension)
            && image_extensions().contains(extension),
{
    let all = image_extensions();
    let keep = |one: Seq<char>| holds_text(query, one);
    let found = all.filter(keep);
    assert(crate::query::extensions_of(query) == found);
    if found.contains(extension) {
        all.lemma_filter_contains_rev(keep, extension);
        let k = choose|k: int| 0 <= k < found.len() && found[k] == extension;
        all.lemma_filter_pred(keep, k);
    }
    if holds_text(query, extension) && all.contains(extension) {
        let k = choose|k: int| 0 <= k < all.len() && all[k] == extension;
        all.lemma_filter_contains(keep, k);
    }
}

proof fn lemma_picture_types(extension: Seq<char>)
    ensures
        image_extensions().contains(extension) <==> (extension == "jpg"@ || extension == "jpeg"@ || extension == "png"@
            || extension == "webp"@ || extension == "gif"@ || extension == "bmp"@),
{
    let all = image_extensions();
    assert(all[0] == "jpg"@);
    assert(all[1] == "jpeg"@);
    assert(all[2] == "png"@);
    assert(all[3] == "webp"@);
    assert(all[4] == "gif"@);
    assert(all[5] == "bmp"@);
}

// ---------------------------------------------------------------------------
// Words that stand by themselves
// ---------------------------------------------------------------------------

/// What stands between two parts of a text stands by itself: the one before is empty or ends in a
/// blank, and the one behind is empty or starts with one.
pub open spec fn stands_alone(before: Seq<char>, behind: Seq<char>) -> bool {
    &&& before.len() == 0 || before.last() == ' '
    &&& behind.len() == 0 || behind[0] == ' '
}

/// An unbroken word that stands at the start of a text stands before the first blank.
proof fn lemma_stops_at_blank(text: Seq<char>, word: Seq<char>, at: int)
    requires
        is_unbroken(word),
        occurs_at(text, word, 0),
        0 <= at < text.len(),
        text[at] == ' ',
    ensures
        word.len() <= at,
{
    if at < word.len() {
        assert(text.subrange(0, word.len() as int)[at] == text[at]);
        assert(word[at] == ' ');
    }
}

/// What is replaced in a text is replaced before a blank and behind it.
proof fn lemma_replaced_apart(first: Seq<char>, second: Seq<char>, phrase: Seq<char>)
    requires
        phrase.len() > 0,
        is_unbroken(phrase),
        first.len() == 0 || first.last() == ' ',
    ensures
        replaced(first + second, phrase, seq![' ']) == replaced(first, phrase, seq![' ']) + replaced(
            second,
            phrase,
            seq![' '],
        ),
        first.len() > 0 ==> replaced(first, phrase, seq![' ']).len() > 0 && replaced(first, phrase, seq![' ']).last()
            == ' ',
    decreases first.len(),
{
    let to = seq![' '];
    let text = first + second;
    if first.len() == 0 {
        assert(text =~= second);
        assert(replaced(first, phrase, to) =~= Seq::<char>::empty());
        assert(Seq::<char>::empty() + replaced(second, phrase, to) =~= replaced(second, phrase, to));
    } else {
        let last = first.len() - 1;
        assert(text[last] == ' ');
        if occurs_at(text, phrase, 0) {
            lemma_stops_at_blank(text, phrase, last);
            assert(first.subrange(0, phrase.len() as int) =~= text.subrange(0, phrase.len() as int));
            assert(occurs_at(first, phrase, 0));
            let rest = first.skip(phrase.len() as int);
            assert(rest.last() == ' ');
            assert(text.skip(phrase.len() as int) =~= rest + second);
            lemma_replaced_apart(rest, second, phrase);
            assert(to + (replaced(rest, phrase, to) + replaced(second, phrase, to)) =~= (to + replaced(rest, phrase, to))
                + replaced(second, phrase, to));
        } else {
            if occurs_at(first, phrase, 0) {
                assert(first.subrange(0, phrase.len() as int) =~= text.subrange(0, phrase.len() as int));
            }
            let rest = first.skip(1);
            if rest.len() > 0 {
                assert(rest.last() == ' ');
            }
            assert(text.skip(1) =~= rest + second);
            assert(text.take(1) =~= first.take(1));
            lemma_replaced_apart(rest, second, phrase);
            assert(first.take(1) + rest =~= first);
            assert(first.take(1) + (replaced(rest, phrase, to) + replaced(second, phrase, to)) =~= (first.take(1)
                + replaced(rest, phrase, to)) + replaced(second, phrase, to));
            assert(replaced(first, phrase, to) =~= first.take(1) + replaced(rest, phrase, to));
            if text.len() < phrase.len() {
                assert(replaced(second, phrase, to) == second);
                assert(replaced(rest, phrase, to) == rest);
            }
        }
    }
}

/// A word in which a phrase does not stand is left as it is before a blank.
proof fn lemma_word_is_not_replaced(word: Seq<char>, behind: Seq<char>, phrase: Seq<char>)
    requires
        phrase.len() > 0,
        is_unbroken(phrase),
        !holds_text(word, phrase),
        behind.len() == 0 || behind[0] == ' ',
    ensures
        replaced(word + behind, phrase, seq![' ']) == word + replaced(behind, phrase, seq![' ']),
        behind.len() > 0 ==> replaced(behind, phrase, seq![' ']).len() > 0 && replaced(behind, phrase, seq![' '])[0]
            == ' ',
    decreases word.len(),
{
    let to = seq![' '];
    let text = word + behind;
    if behind.len() > 0 {
        if occurs_at(behind, phrase, 0) {
            lemma_stops_at_blank(behind, phrase, 0);
        }
    }
    if word.len() == 0 {
        assert(text =~= behind);
        assert(word + replaced(behind, phrase, to) =~= replaced(behind, phrase, to));
    } else {
        if occurs_at(text, phrase, 0) {
            if behind.len() > 0 {
                assert(text[word.len() as int] == ' ');
                lemma_stops_at_blank(text, phrase, word.len() as int);
            }
            assert(word.subrange(0, phrase.len() as int) =~= text.subrange(0, phrase.len() as int));
            assert(occurs_at(word, phrase, 0));
        }
        let rest = word.skip(1);
        if holds_text(rest, phrase) {
            lemma_part_is_held(word.take(1), rest, Seq::<char>::empty(), phrase);
            assert(word.take(1) + rest + Seq::<char>::empty() =~= word);
        }
        lemma_word_is_not_replaced(rest, behind, phrase);
        assert(text.skip(1) =~= rest + behind);
        assert(text.take(1) =~= word.take(1));
        assert(word.take(1) + (rest + replaced(behind, phrase, to)) =~= word + replaced(behind, phrase, to));
        if text.len() < phrase.len() {
            assert(replaced(behind, phrase, to) == behind);
        }
    }
}

/// The parts before and behind a word that stands by itself.
pub struct Surroundings {
    pub before: Seq<char>,
    pub behind: Seq<char>,
}

impl Surroundings {
    /// The text with a word between the two parts, which stands there by itself.
    pub open spec fn hold(self, word: Seq<char>, text: Seq<char>) -> bool {
        text == self.before + word + self.behind && stands_alone(self.before, self.behind)
    }
}

/// A word that stands by itself still does once a phrase that does not stand in it is replaced.
proof fn lemma_alone_after_replacing(around: Surroundings, word: Seq<char>, text: Seq<char>, phrase: Seq<char>) -> (after:
    Surroundings)
    requires
        around.hold(word, text),
        phrase.len() > 0,
        is_unbroken(phrase),
        !holds_text(word, phrase),
    ensures
        after.hold(word, replaced(text, phrase, " "@)),
{
    lemma_blank_text();
    let to = seq![' '];
    let rest = word + around.behind;
    lemma_replaced_apart(around.before, rest, phrase);
    lemma_word_is_not_replaced(word, around.behind, phrase);
    assert(text =~= around.before + rest);
    let after = Surroundings {
        before: replaced(around.before, phrase, to),
        behind: replaced(around.behind, phrase, to),
    };
    if around.before.len() == 0 {
        assert(after.before =~= Seq::<char>::empty());
    }
    if around.behind.len() == 0 {
        assert(after.behind =~= Seq::<char>::empty());
    }
    assert(after.before + (word + after.behind) =~= after.before + word + after.behind);
    after
}

proof fn lemma_alone_after_striking(around: Surroundings, word: Seq<char>, text: Seq<char>, phrases: Seq<Seq<char>>) -> (after:
    Surroundings)
    requires
        around.hold(word, text),
        are_unbroken(phrases),
        forall|k: int| 0 <= k < phrases.len() ==> !holds_text(word, #[trigger] phrases[k]),
    ensures
        after.hold(word, struck(text, phrases)),
    decreases phrases.len(),
{
    if phrases.len() == 0 {
        around
    } else {
        let shorter = phrases.drop_last();
        assert forall|k: int| 0 <= k < shorter.len() implies (#[trigger] shorter[k]).len() > 0 && is_unbroken(shorter[k])
            && !holds_text(word, shorter[k]) by {
            assert(phrases[k].len() > 0);
        }
        let before = lemma_alone_after_striking(around, word, text, shorter);
        let last = phrases[phrases.len() - 1];
        assert(last.len() > 0);
        lemma_alone_after_replacing(before, word, struck(text, shorter), last)
    }
}

proof fn lemma_alone_after_striking_held(
    around: Surroundings,
    word: Seq<char>,
    text: Seq<char>,
    query: Seq<char>,
    phrases: Seq<Seq<char>>,
) -> (after: Surroundings)
    requires
        around.hold(word, text),
        are_unbroken(phrases),
        forall|k: int| 0 <= k < phrases.len() ==> !holds_text(word, #[trigger] phrases[k]),
    ensures
        after.hold(word, struck_held(text, query, phrases)),
    decreases phrases.len(),
{
    if phrases.len() == 0 {
        around
    } else {
        let shorter = phrases.drop_last();
        assert forall|k: int| 0 <= k < shorter.len() implies (#[trigger] shorter[k]).len() > 0 && is_unbroken(shorter[k])
            && !holds_text(word, shorter[k]) by {
            assert(phrases[k].len() > 0);
        }
        let before = lemma_alone_after_striking_held(around, word, text, query, shorter);
        let last = phrases[phrases.len() - 1];
        assert(last.len() > 0);
        if holds_text(query, last) {
            lemma_alone_after_replacing(before, word, struck_held(text, query, shorter), last)
        } else {
            before
        }
    }
}

proof fn lemma_alone_without_digits(around: Surroundings, word: Seq<char>, text: Seq<char>) -> (after: Surroundings)
    requires
        around.hold(word, text),
        forall|i: int| 0 <= i < word.len() ==> !is_digit(#[trigger] word[i]),
    ensures
        after.hold(word, without_digits(text)),
{
    let after = Surroundings { before: without_digits(around.before), behind: without_digits(around.behind) };
    assert(without_digits(word) =~= word);
    assert(without_digits(text) =~= after.before + word + after.behind);
    after
}

/// A word that stands by itself still does once a limit is taken out, whose marker does not stand
/// in the word.
#[verifier::spinoff_prover]
proof fn lemma_alone_without_limit(around: Surroundings, word: Seq<char>, text: Seq<char>, marker: Seq<char>) -> (after:
    Surroundings)
    requires
        around.hold(word, text),
        word.len() > 0,
        !is_digit(word[0]),
        !white_space(word[0]),
        marker.len() > 0,
        is_unbroken(marker),
        !holds_text(word, marker),
    ensures
        after.hold(word, without_limit(text, marker)),
{
    lemma_blank_text();
    if !holds_text(text, marker) {
        around
    } else {
        let x = around.before;
        let y = around.behind;
        lemma_first_place(text, marker);
        let at = find_text(text, marker)->0;
        let here = text.skip(at);
        assert(here.subrange(0, marker.len() as int) =~= text.subrange(at, at + marker.len()));
        assert(occurs_at(here, marker, 0));
        if at < x.len() {
            let last = x.len() - 1;
            assert(here[last - at] == text[last]);
            assert(text[last] == ' ');
            lemma_stops_at_blank(here, marker, last - at);
            let from = at + marker.len();
            lemma_limit_before_word(x.skip(from), word, y);
            let taken = lemma_limit_before_word(x.skip(from), word, y);
            assert(text.skip(from) =~= x.skip(from) + word + y);
            let after = Surroundings { before: x.take(at) + seq![' '] + x.skip(from).skip(taken), behind: y };
            if x.skip(from).skip(taken).len() > 0 {
                assert(x.skip(from).skip(taken).last() == ' ');
            }
            assert(without_limit(text, marker) =~= after.before + word + after.behind);
            after
        } else {
            let end = x.len() + word.len();
            if at < end {
                if y.len() > 0 {
                    assert(here[end - at] == text[end as int]);
                    assert(text[end as int] == ' ');
                    lemma_stops_at_blank(here, marker, end - at);
                }
                assert(word.subrange(at - x.len(), at - x.len() + marker.len()) =~= text.subrange(at, at + marker.len()));
                assert(occurs_at(word, marker, at - x.len()));
            }
            assert(at >= end);
            if at == end {
                assert(here[0] == text[end as int]);
                assert(text[end as int] == y[0]);
                lemma_stops_at_blank(here, marker, 0);
            }
            let cut = at - end;
            let rest = text.skip(at + marker.len());
            let tail = rest.skip(run_length(rest, blank()) as int);
            let left = tail.skip(run_length(tail, digit()) as int);
            let after = Surroundings { before: x, behind: y.take(cut) + seq![' '] + left };
            assert(text.take(at) =~= x + word + y.take(cut));
            assert(without_limit(text, marker) =~= after.before + word + after.behind);
            assert(after.behind[0] == y[0]);
            after
        }
    }
}

/// How much of what stands before a word the blanks and digits of a limit take up.
proof fn lemma_limit_before_word(x: Seq<char>, word: Seq<char>, y: Seq<char>) -> (taken: int)
    requires
        x.len() > 0,
        x.last() == ' ',
        word.len() > 0,
        !is_digit(word[0]),
        !white_space(word[0]),
    ensures
        0 <= taken <= x.len(),
        ({
            let rest = x + word + y;
            let tail = rest.skip(run_length(rest, blank()) as int);
            tail.skip(run_length(tail, digit()) as int) == x.skip(taken) + word + y
        }),
{
    let rest = x + word + y;
    lemma_run_bounds(rest, blank());
    let blanks = run_length(rest, blank()) as int;
    assert(rest[x.len() as int] == word[0]);
    if blanks > x.len() {
        assert(blank()(rest[x.len() as int]));
    }
    let tail = rest.skip(blanks);
    lemma_run_bounds(tail, digit());
    let digits = run_length(tail, digit()) as int;
    if blanks + digits > x.len() {
        assert(tail[x.len() - blanks] == rest[x.len() as int]);
        assert(digit()(tail[x.len() - blanks]));
    }
    let taken = blanks + digits;
    assert(tail.skip(digits) =~= x.skip(taken) + word + y);
    taken
}

proof fn lemma_alone_without_limits(around: Surroundings, word: Seq<char>, text: Seq<char>, markers: Seq<Seq<char>>) -> (after:
    Surroundings)
    requires
        around.hold(word, text),
        word.len() > 0,
        !is_digit(word[0]),
        !white_space(word[0]),
        are_unbroken(markers),
        forall|k: int| 0 <= k < markers.len() ==> !holds_text(word, #[trigger] markers[k]),
    ensures
        after.hold(word, without_limits(text, markers)),
    decreases markers.len(),
{
    if markers.len() == 0 {
        around
    } else {
        let shorter = markers.drop_last();
        assert forall|k: int| 0 <= k < shorter.len() implies (#[trigger] shorter[k]).len() > 0 && is_unbroken(shorter[k])
            && !holds_text(word, shorter[k]) by {
            assert(markers[k].len() > 0);
        }
        let before = lemma_alone_without_limits(around, word, text, shorter);
        let last = markers[markers.len() - 1];
        assert(last.len() > 0);
        lemma_alone_without_limit(before, word, without_limits(text, shorter), last)
    }
}

/// A name of a known person does not touch a word: it does not stand in the query, or it has no
/// blank and does not stand in the word.
pub open spec fn leaves_alone(query: Seq<char>, word: Seq<char>, name: Seq<char>) -> bool {
    let lower = lowercase(trimmed(name, blank()));
    ||| trimmed(name, blank()).len() == 0
    ||| !holds_text(query, lower)
    ||| lower.len() > 0 && is_unbroken(lower) && !holds_text(word, lower)
}

proof fn lemma_alone_without_people(
    around: Surroundings,
    word: Seq<char>,
    text: Seq<char>,
    query: Seq<char>,
    known: Seq<Seq<char>>,
) -> (after: Surroundings)
    requires
        around.hold(word, text),
        forall|k: int| 0 <= k < known.len() ==> leaves_alone(query, word, #[trigger] known[k]),
    ensures
        after.hold(word, people_of(query, text, known).text),
    decreases known.len(),
{
    if known.len() == 0 {
        around
    } else {
        let shorter = known.drop_last();
        assert forall|k: int| 0 <= k < shorter.len() implies leaves_alone(query, word, #[trigger] shorter[k]) by {
            assert(leaves_alone(query, word, known[k]));
        }
        let before = lemma_alone_without_people(around, word, text, query, shorter);
        let name = trimmed(known.last(), blank());
        assert(leaves_alone(query, word, known[known.len() - 1]));
        if mentions(query, name) {
            lemma_alone_after_replacing(before, word, people_of(query, text, shorter).text, lowercase(name))
        } else {
            before
        }
    }
}

/// The words and phrases of the query language.
pub open spec fn special_words() -> Seq<Seq<char>> {
    seq![
        "去年夏天"@, "今年夏天"@, "前年"@, "去年"@, "今年"@, "明年"@, "夏天"@, "年"@, "月"@, "日"@,
        "最多"@, "前"@, "取"@,
        "不要有人"@, "沒有人的"@, "沒有臉"@, "無人臉"@, "無人物"@, "不要人"@,
        "有人臉"@, "有人"@, "人物"@, "人像"@, "合照"@,
        "jpg"@, "jpeg"@, "png"@, "webp"@, "gif"@, "bmp"@,
    ]
}

/// A word holds none of the words and phrases of the query language, but for those that rule a
/// word out, and no digit.
pub open spec fn holds_nothing_special(word: Seq<char>) -> bool {
    &&& forall|k: int| 0 <= k < special_words().len() ==> !holds_text(word, #[trigger] special_words()[k])
    &&& forall|i: int| 0 <= i < word.len() ==> !is_digit(#[trigger] word[i])
}

/// Every list of phrases that is looked for in a query is part of the query language.
proof fn lemma_special_words(word: Seq<char>)
    requires
        holds_nothing_special(word),
    ensures
        forall|k: int| 0 <= k < date_words().len() ==> !holds_text(word, #[trigger] date_words()[k]),
        forall|k: int| 0 <= k < limit_markers().len() ==> !holds_text(word, #[trigger] limit_markers()[k]),
        forall|k: int| 0 <= k < faceless_phrases().len() ==> !holds_text(word, #[trigger] faceless_phrases()[k]),
        forall|k: int| 0 <= k < face_phrases().len() ==> !holds_text(word, #[trigger] face_phrases()[k]),
        forall|k: int| 0 <= k < image_extensions().len() ==> !holds_text(word, #[trigger] image_extensions()[k]),
{
    let all = special_words();
    assert forall|k: int| 0 <= k < date_words().len() implies !holds_text(word, #[trigger] date_words()[k]) by {
        assert(date_words()[k] == all[k]);
    }
    assert forall|k: int| 0 <= k < limit_markers().len() implies !holds_text(word, #[trigger] limit_markers()[k]) by {
        assert(limit_markers()[k] == all[10 + k]);
    }
    assert forall|k: int| 0 <= k < faceless_phrases().len() implies !holds_text(
        word,
        #[trigger] faceless_phrases()[k],
    ) by {
        assert(faceless_phrases()[k] == all[13 + k]);
    }
    assert forall|k: int| 0 <= k < face_phrases().len() implies !holds_text(word, #[trigger] face_phrases()[k]) by {
        assert(face_phrases()[k] == all[19 + k]);
    }
    assert forall|k: int| 0 <= k < image_extensions().len() implies !holds_text(
        word,
        #[trigger] image_extensions()[k],
    ) by {
        assert(image_extensions()[k] == all[24 + k]);
    }
}

proof fn lemma_phrases_are_unbroken()
    ensures
        are_unbroken(limit_markers()),
        are_unbroken(faceless_phrases()),
        are_unbroken(face_phrases()),
        are_unbroken(image_extensions()),
{
    assert(are_unbroken(limit_markers())) by {
        reveal_strlit("最多");
        reveal_strlit("前");
        reveal_strlit("取");
    }
    assert(are_unbroken(faceless_phrases())) by {
        reveal_strlit("不要有人");
        reveal_strlit("沒有人的");
        reveal_strlit("沒有臉");
        reveal_strlit("無人臉");
        reveal_strlit("無人物");
        reveal_strlit("不要人");
    }
    assert(are_unbroken(face_phrases())) by {
        reveal_strlit("有人臉");
        reveal_strlit("有人");
        reveal_strlit("人物");
        reveal_strlit("人像");
        reveal_strlit("合照");
    }
    assert(are_unbroken(image_extensions())) by {
        reveal_strlit("jpg");
        reveal_strlit("jpeg");
        reveal_strlit("png");
        reveal_strlit("webp");
        reveal_strlit("gif");
        reveal_strlit("bmp");
    }
}

/// A word that stands by itself in a query and holds nothing special still does once all else has
/// been taken out of the query.
proof fn lemma_alone_in_wording(around: Surroundings, word: Seq<char>, query: Seq<char>, known: Seq<Seq<char>>) -> (after:
    Surroundings)
    requires
        around.hold(word, query),
        word.len() > 0,
        !white_space(word[0]),
        holds_nothing_special(word),
        forall|k: int| 0 <= k < known.len() ==> leaves_alone(query, word, #[trigger] known[k]),
    ensures
        after.hold(word, wording(query, known)),
{
    lemma_special_words(word);
    lemma_phrases_are_unbroken();
    lemma_date_words_are_unbroken();
    let one = lemma_alone_after_striking(around, word, query, date_words());
    let two = lemma_alone_without_digits(one, word, struck(query, date_words()));
    let three = lemma_alone_without_limits(two, word, undated(query), limit_markers());
    let text = struck_held(undated_unlimited(query), query, faceless_phrases());
    let four = lemma_alone_after_striking_held(three, word, undated_unlimited(query), query, faceless_phrases());
    lemma_first_held(query, face_phrases());
    let five = match first_held(query, face_phrases()) {
        Some(phrase) => {
            let k = choose|k: int| 0 <= k < face_phrases().len() && face_phrases()[k] == phrase;
            assert(face_phrases()[k].len() > 0 && is_unbroken(face_phrases()[k]));
            if any_held(query, faceless_phrases()) {
                four
            } else {
                lemma_alone_after_replacing(four, word, text, phrase)
            }
        },
        None => four,
    };
    let six = lemma_alone_without_people(five, word, without_face_phrases(query), query, known);
    let nameless = people_of(query, without_face_phrases(query), known).text;
    lemma_alone_after_striking_held(six, word, nameless, query, image_extensions())
}

// ---------------------------------------------------------------------------
// Words that count and words that rule out
// ---------------------------------------------------------------------------

/// What is taken out of a text is taken out before a blank and behind it.
proof fn lemma_extraction_apart(first: Seq<char>, second: Seq<char>, marker: Seq<char>)
    requires
        marker.len() > 0,
        is_unbroken(marker),
        first.len() == 0 || first.last() == ' ',
    ensures
        ({
            let whole = extraction(first + second, marker);
            let left = extraction(first, marker);
            let right = extraction(second, marker);
            &&& whole.terms == left.terms + right.terms
            &&& whole.text == left.text + right.text
            &&& first.len() > 0 ==> left.text.len() > 0 && left.text.last() == ' '
        }),
    decreases first.len(),
{
    lemma_blank_text();
    let text = first + second;
    let whole = extraction(text, marker);
    let left = extraction(first, marker);
    let right = extraction(second, marker);
    if first.len() == 0 {
        assert(text =~= second);
        assert(left.text =~= Seq::<char>::empty());
        assert(left.text + right.text =~= right.text);
        assert(left.terms + right.terms =~= right.terms);
    } else {
        let last = first.len() - 1;
        assert(text[last] == ' ');
        if occurs_at(text, marker, 0) {
            lemma_stops_at_blank(text, marker, last);
            assert(first.subrange(0, marker.len() as int) =~= text.subrange(0, marker.len() as int));
            assert(occurs_at(first, marker, 0));
            let rest = first.skip(marker.len() as int);
            assert(rest.last() == ' ');
            assert(text.skip(marker.len() as int) =~= rest + second);
            lemma_term_stops_at_blank(rest, second);
            let length = run_length(rest, term_character()) as int;
            let term = rest.take(length);
            assert((rest + second).take(length) =~= term);
            if term.len() > 0 && !stop_words().contains(term) {
                assert((rest + second).skip(length) =~= rest.skip(length) + second);
                assert(rest.skip(length).last() == ' ');
                lemma_extraction_apart(rest.skip(length), second, marker);
                let more = extraction(rest.skip(length), marker);
                assert(seq![term] + (more.terms + right.terms) =~= (seq![term] + more.terms) + right.terms);
                assert(" "@ + (more.text + right.text) =~= (" "@ + more.text) + right.text);
            } else {
                lemma_extraction_apart(rest, second, marker);
                let more = extraction(rest, marker);
                assert(" "@ + (more.text + right.text) =~= (" "@ + more.text) + right.text);
            }
        } else {
            if occurs_at(first, marker, 0) {
                assert(first.subrange(0, marker.len() as int) =~= text.subrange(0, marker.len() as int));
            }
            let rest = first.skip(1);
            if rest.len() > 0 {
                assert(rest.last() == ' ');
            }
            assert(text.skip(1) =~= rest + second);
            assert(text.take(1) =~= first.take(1));
            lemma_extraction_apart(rest, second, marker);
            let more = extraction(rest, marker);
            assert(first.take(1) + rest =~= first);
            assert(first.take(1) + (more.text + right.text) =~= (first.take(1) + more.text) + right.text);
            if first.len() < marker.len() {
                assert(more.text == rest);
                assert(left.text =~= first.take(1) + more.text);
                assert(left.terms =~= more.terms);
            }
            if text.len() < marker.len() {
                assert(right.text == second);
                assert(left.text + right.text =~= text);
                assert(left.terms + right.terms =~= Seq::<Seq<char>>::empty());
            }
        }
    }
}

/// A word to be left out ends before a blank.
proof fn lemma_term_stops_at_blank(rest: Seq<char>, second: Seq<char>)
    requires
        rest.len() > 0,
        rest.last() == ' ',
    ensures
        run_length(rest, term_character()) < rest.len(),
        run_length(rest + second, term_character()) == run_length(rest, term_character()),
{
    let keep = term_character();
    lemma_run_bounds(rest, keep);
    let length = run_length(rest, keep) as int;
    assert(white_space(' '));
    if length == rest.len() {
        assert(keep(rest[rest.len() - 1]));
    }
    let text = rest + second;
    assert forall|i: int| 0 <= i < length implies keep(#[trigger] text[i]) by {
        assert(text[i] == rest[i]);
    }
    assert(text[length] == rest[length]);
    lemma_run_length(text, keep, length);
}

/// A word in which a marker does not stand is left as it is before a blank.
proof fn lemma_word_is_not_extracted(word: Seq<char>, behind: Seq<char>, marker: Seq<char>)
    requires
        marker.len() > 0,
        is_unbroken(marker),
        !holds_text(word, marker),
        behind.len() == 0 || behind[0] == ' ',
    ensures
        extraction(word + behind, marker).text == word + extraction(behind, marker).text,
        extraction(word + behind, marker).terms == extraction(behind, marker).terms,
        behind.len() > 0 ==> extraction(behind, marker).text.len() > 0 && extraction(behind, marker).text[0] == ' ',
        behind.len() == 0 ==> extraction(behind, marker).text.len() == 0,
    decreases word.len(),
{
    let text = word + behind;
    let right = extraction(behind, marker);
    if behind.len() > 0 {
        if occurs_at(behind, marker, 0) {
            lemma_stops_at_blank(behind, marker, 0);
        }
    }
    if word.len() == 0 {
        assert(text =~= behind);
        assert(word + right.text =~= right.text);
    } else {
        if occurs_at(text, marker, 0) {
            if behind.len() > 0 {
                assert(text[word.len() as int] == ' ');
                lemma_stops_at_blank(text, marker, word.len() as int);
            }
            assert(word.subrange(0, marker.len() as int) =~= text.subrange(0, marker.len() as int));
            assert(occurs_at(word, marker, 0));
        }
        let rest = word.skip(1);
        if holds_text(rest, marker) {
            lemma_part_is_held(word.take(1), rest, Seq::<char>::empty(), marker);
            assert(word.take(1) + rest + Seq::<char>::empty() =~= word);
        }
        lemma_word_is_not_extracted(rest, behind, marker);
        assert(text.skip(1) =~= rest + behind);
        assert(text.take(1) =~= word.take(1));
        assert(word.take(1) + (rest + right.text) =~= word + right.text);
        if text.len() < marker.len() {
            assert(right.text == behind);
            assert(right.terms =~= Seq::<Seq<char>>::empty());
        }
    }
}

/// A word that stands by itself still does once words to be left out are taken out whose marker
/// does not stand in it.
proof fn lemma_alone_after_extraction(around: Surroundings, word: Seq<char>, text: Seq<char>, marker: Seq<char>) -> (after:
    Surroundings)
    requires
        around.hold(word, text),
        marker.len() > 0,
        is_unbroken(marker),
        !holds_text(word, marker),
    ensures
        after.hold(word, extraction(text, marker).text),
{
    let rest = word + around.behind;
    lemma_extraction_apart(around.before, rest, marker);
    lemma_word_is_not_extracted(word, around.behind, marker);
    assert(text =~= around.before + rest);
    let after = Surroundings {
        before: extraction(around.before, marker).text,
        behind: extraction(around.behind, marker).text,
    };
    if around.before.len() == 0 {
        assert(after.before =~= Seq::<char>::empty());
    }
    assert(after.before + (word + after.behind) =~= after.before + word + after.behind);
    after
}

proof fn lemma_alone_after_extractions(around: Surroundings, word: Seq<char>, text: Seq<char>, markers: Seq<Seq<char>>) -> (after:
    Surroundings)
    requires
        around.hold(word, text),
        are_unbroken(markers),
        forall|k: int| 0 <= k < markers.len() ==> !holds_text(word, #[trigger] markers[k]),
    ensures
        after.hold(word, extractions(text, markers).text),
    decreases markers.len(),
{
    if markers.len() == 0 {
        around
    } else {
        let shorter = markers.drop_last();
        assert forall|k: int| 0 <= k < shorter.len() implies (#[trigger] shorter[k]).len() > 0 && is_unbroken(shorter[k])
            && !holds_text(word, shorter[k]) by {
            assert(markers[k].len() > 0);
        }
        let before = lemma_alone_after_extractions(around, word, text, shorter);
        let last = markers[markers.len() - 1];
        assert(last.len() > 0);
        lemma_alone_after_extraction(before, word, extractions(text, shorter).text, last)
    }
}

/// A word behind its marker is taken out.
proof fn lemma_marked_word_is_extracted(
    around: Surroundings,
    marker: Seq<char>,
    word: Seq<char>,
    text: Seq<char>,
)
    requires
        around.hold(marker + word, text),
        marker.len() > 0,
        is_unbroken(marker),
        word.len() > 0,
        !stop_words().contains(word),
        forall|i: int| 0 <= i < word.len() ==> term_character()(#[trigger] word[i]),
    ensures
        extraction(text, marker).terms.contains(word),
{
    let rest = marker + word + around.behind;
    lemma_extraction_apart(around.before, rest, marker);
    assert(text =~= around.before + rest);
    let tail = word + around.behind;
    assert(rest.skip(marker.len() as int) =~= tail);
    assert(rest.subrange(0, marker.len() as int) =~= marker);
    assert(occurs_at(rest, marker, 0));
    assert forall|i: int| 0 <= i < word.len() implies term_character()(#[trigger] tail[i]) by {
        assert(tail[i] == word[i]);
    }
    assert(white_space(' '));
    if around.behind.len() > 0 {
        assert(tail[word.len() as int] == ' ');
    }
    lemma_run_length(tail, term_character(), word.len() as int);
    assert(tail.take(word.len() as int) =~= word);
    let left = extraction(around.before, marker).terms;
    let right = extraction(rest, marker).terms;
    assert(right[0] == word);
    assert((left + right)[left.len() as int] == word);
}

/// A word that one of the markers stands before is among the words that are taken out, where none
/// of the markers before that one stands in them.
proof fn lemma_marked_word_is_among(
    around: Surroundings,
    markers: Seq<Seq<char>>,
    at: int,
    word: Seq<char>,
    text: Seq<char>,
)
    requires
        0 <= at < markers.len(),
        around.hold(markers[at] + word, text),
        are_unbroken(markers),
        forall|k: int| 0 <= k < at ==> !holds_text(markers[at] + word, #[trigger] markers[k]),
        word.len() > 0,
        !stop_words().contains(word),
        forall|i: int| 0 <= i < word.len() ==> term_character()(#[trigger] word[i]),
    ensures
        extractions(text, markers).terms.contains(word),
    decreases markers.len(),
{
    let shorter = markers.drop_last();
    assert forall|k: int| 0 <= k < shorter.len() implies (#[trigger] shorter[k]).len() > 0 && is_unbroken(
        shorter[k],
    ) by {
        assert(markers[k].len() > 0);
    }
    let before = extractions(text, shorter);
    let last = markers[markers.len() - 1];
    let after = extraction(before.text, last);
    if at < shorter.len() {
        assert forall|k: int| 0 <= k < at implies !holds_text(shorter[at] + word, #[trigger] shorter[k]) by {
            assert(!holds_text(markers[at] + word, markers[k]));
        }
        lemma_marked_word_is_among(around, shorter, at, word, text);
        let k = choose|k: int| 0 <= k < before.terms.len() && before.terms[k] == word;
        assert((before.terms + after.terms)[k] == word);
    } else {
        assert forall|k: int| 0 <= k < shorter.len() implies !holds_text(last + word, #[trigger] shorter[k]) by {
            assert(!holds_text(markers[at] + word, markers[k]));
        }
        let there = lemma_alone_after_extractions(around, last + word, text, shorter);
        assert(last.len() > 0);
        lemma_marked_word_is_extracted(there, last, word, before.text);
        let k = choose|k: int| 0 <= k < after.terms.len() && after.terms[k] == word;
        assert((before.terms + after.terms)[before.terms.len() + k] == word);
    }
}

/// A word without a separator that stands by itself is one of the pieces of a text.
proof fn lemma_alone_is_a_piece(around: Surroundings, word: Seq<char>, text: Seq<char>, separates: spec_fn(char) -> bool)
    requires
        around.hold(word, text),
        separates(' '),
        is_clear_of(word, separates),
    ensures
        pieces(text, separates).contains(word),
{
    let head = around.before + word;
    let first = pieces(head, separates);
    lemma_pieces_nonempty(head, separates);
    if around.before.len() == 0 {
        assert(head =~= word);
        lemma_pieces_of_word(word, separates);
        assert(first[0] == word);
    } else {
        let start = around.before.drop_last();
        assert(head =~= start + seq![' '] + word);
        lemma_pieces_of_one_more(start, ' ', word, separates);
        assert(first.last() == word);
    }
    assert(first[first.len() - 1] == word);
    lemma_pieces_stay(head, around.behind, separates, first.len() - 1);
    assert(pieces(text, separates)[first.len() - 1] == word);
}

/// What stands behind a separator does not change the pieces before it.
proof fn lemma_pieces_stay(head: Seq<char>, behind: Seq<char>, separates: spec_fn(char) -> bool, at: int)
    requires
        behind.len() > 0 ==> separates(behind[0]),
        0 <= at < pieces(head, separates).len(),
    ensures
        at < pieces(head + behind, separates).len(),
        pieces(head + behind, separates)[at] == pieces(head, separates)[at],
        behind.len() > 0 ==> pieces(head + behind, separates).len() > pieces(head, separates).len(),
    decreases behind.len(),
{
    if behind.len() == 0 {
        assert(head + behind =~= head);
    } else {
        let shorter = behind.drop_last();
        if shorter.len() > 0 {
            assert(shorter[0] == behind[0]);
        }
        lemma_pieces_stay(head, shorter, separates, at);
        assert((head + behind).drop_last() =~= head + shorter);
        assert((head + behind).last() == behind.last());
        if shorter.len() == 0 {
            assert(behind.last() == behind[0]);
        }
    }
}

/// A word says nothing about a picture.
pub open spec fn is_filler(word: Seq<char>) -> bool {
    seq![
        "的"@, "和"@, "與"@, "在"@, "有"@, "一張"@, "一些"@, "照片"@, "相片"@, "圖片"@, "影像"@, "找"@, "找出"@,
        "請"@, "幫我"@, "顯示"@, "列出"@, "相關"@, "最"@, "看"@, "只"@, "其中"@, "裡"@, "中"@, "張"@,
    ].contains(word)
}

/// A character ends a word that counts.
pub open spec fn ends_word(character: char) -> bool {
    white_space(character) || "、，,。.！!?？"@.contains(character) || "的和與在有"@.contains(character)
}

/// A character ends a word that rules out.
pub open spec fn ends_excluded_word(character: char) -> bool {
    white_space(character) || "的和與在有或、，,。"@.contains(character)
}

/// A word of negation stands in a text.
pub open spec fn holds_negation(text: Seq<char>) -> bool {
    ||| holds_text(text, "不要"@)
    ||| holds_text(text, "不含"@)
    ||| holds_text(text, "排除"@)
    ||| holds_text(text, "沒有"@)
}

/// A word that stands by itself in a query, and is no word of the query language, is one of the
/// words that pictures are searched for, whatever else the query asks for.
pub proof fn law_plain_words_are_searched_for(
    query: &str,
    known_people: &Vec<String>,
    now_year: i32,
    plan: QueryPlan,
    before: Seq<char>,
    word: Seq<char>,
    behind: Seq<char>,
)
    requires
        i32::MIN + 2 <= now_year < i32::MAX,
        call_ensures(parse_normalized_query, (query, known_people, now_year), plan),
        query@ == before + word + behind,
        stands_alone(before, behind),
        word.len() > 0,
        forall|i: int| 0 <= i < word.len() ==> !ends_word(#[trigger] word[i]),
        holds_nothing_special(word),
        !holds_negation(word),
        word != "無"@,
        !is_filler(word),
        forall|k: int| 0 <= k < known_people@.len() ==> leaves_alone(query@, word, (#[trigger] known_people@[k])@),
    ensures
        texts(plan.text.should@).contains(word),
        plan.semantic_query@.len() > 0,
{
    let known = texts(known_people@);
    let around = Surroundings { before, behind };
    assert forall|k: int| 0 <= k < known.len() implies leaves_alone(query@, word, #[trigger] known[k]) by {
        assert(known[k] == known_people@[k]@);
    }
    assert(!ends_word(word[0]));
    let there = lemma_alone_in_wording(around, word, query@, known);
    lemma_word_counts(there, word, wording(query@, known));
    let found = plan@.should;
    assert(found.contains(word));
    let k = choose|k: int| 0 <= k < found.len() && found[k] == word;
    law_plan_words_are_positive(query@, known, now_year as int, k);
    lemma_joined_is_not_empty(found, k);
}

proof fn lemma_joined_is_not_empty(words: Seq<Seq<char>>, at: int)
    requires
        0 <= at < words.len(),
        words[at].len() > 0,
    ensures
        joined(words, " "@).len() > 0,
    decreases words.len(),
{
    if words.len() > 1 && at < words.len() - 1 {
        lemma_joined_is_not_empty(words.drop_last(), at);
    }
}

/// A plain word of what is left of a query is one of those that count.
proof fn lemma_word_counts(around: Surroundings, word: Seq<char>, text: Seq<char>)
    requires
        around.hold(word, text),
        word.len() > 0,
        forall|i: int| 0 <= i < word.len() ==> !ends_word(#[trigger] word[i]),
        !holds_negation(word),
        word != "無"@,
        !is_filler(word),
    ensures
        positive_words(words_of(extractions(text, exclusion_markers()).text)).contains(word),
{
    lemma_exclusion_markers_are_unbroken();
    let markers = exclusion_markers();
    assert forall|k: int| 0 <= k < markers.len() implies !holds_text(word, #[trigger] markers[k]) by {
        assert(markers[k] == "不要"@ || markers[k] == "不含"@ || markers[k] == "排除"@ || markers[k] == "沒有"@);
    }
    let there = lemma_alone_after_extractions(around, word, text, markers);
    let rest = extractions(text, markers).text;
    assert(white_space(' '));
    assert forall|i: int| 0 <= i < word.len() implies !word_separator()(#[trigger] word[i]) by {
        assert(!ends_word(word[i]));
    }
    lemma_alone_is_a_piece(there, word, rest, word_separator());
    let all = pieces(rest, word_separator());
    let keep = |one: Seq<char>| one.len() > 0 && !stop_words().contains(one);
    assert(stop_words().contains(word) == is_filler(word));
    let k = choose|k: int| 0 <= k < all.len() && all[k] == word;
    all.lemma_filter_contains(keep, k);
    let words = words_of(rest);
    assert(words.contains(word));
    lemma_no_negation(word);
    let positive = |one: Seq<char>| !negations().contains(one);
    let n = choose|n: int| 0 <= n < words.len() && words[n] == word;
    words.lemma_filter_contains(positive, n);
}

proof fn lemma_no_negation(word: Seq<char>)
    requires
        !holds_negation(word),
        word != "無"@,
    ensures
        !negations().contains(word),
{
    let all = negations();
    if all.contains(word) {
        let k = choose|k: int| 0 <= k < all.len() && all[k] == word;
        assert(word.subrange(0, word.len() as int) =~= word);
        assert(occurs_at(word, word, 0));
        assert(all[k] == "不要"@ || all[k] == "不含"@ || all[k] == "排除"@ || all[k] == "沒有"@ || all[k] == "無"@);
    }
}

/// A word that stands right behind a word of negation in a query, the two by themselves, rules
/// pictures out, whatever else the query asks for.
pub proof fn law_excluded_words_are_understood(
    query: &str,
    known_people: &Vec<String>,
    now_year: i32,
    plan: QueryPlan,
    before: Seq<char>,
    marker: Seq<char>,
    word: Seq<char>,
    behind: Seq<char>,
)
    requires
        i32::MIN + 2 <= now_year < i32::MAX,
        call_ensures(parse_normalized_query, (query, known_people, now_year), plan),
        query@ == before + (marker + word) + behind,
        stands_alone(before, behind),
        marker == "不要"@ || marker == "不含"@ || marker == "排除"@ || marker == "沒有"@,
        word.len() > 0,
        forall|i: int| 0 <= i < word.len() ==> !ends_excluded_word(#[trigger] word[i]),
        forall|i: int| 0 <= i < word.len() ==> #[trigger] word[i] != '不' && word[i] != '排' && word[i] != '沒',
        holds_nothing_special(marker + word),
        !is_filler(word),
        forall|k: int|
            0 <= k < known_people@.len() ==> leaves_alone(query@, marker + word, (#[trigger] known_people@[k])@),
    ensures
        texts(plan.text.must_not@).contains(word),
{
    let known = texts(known_people@);
    let around = Surroundings { before, behind };
    let token = marker + word;
    assert forall|k: int| 0 <= k < known.len() implies leaves_alone(query@, token, #[trigger] known[k]) by {
        assert(known[k] == known_people@[k]@);
    }
    lemma_marker_starts_no_blank(marker);
    assert(token[0] == marker[0]);
    let there = lemma_alone_in_wording(around, token, query@, known);
    lemma_word_rules_out(there, marker, word, wording(query@, known));
}

proof fn lemma_marker_starts_no_blank(marker: Seq<char>)
    requires
        marker == "不要"@ || marker == "不含"@ || marker == "排除"@ || marker == "沒有"@,
    ensures
        marker.len() == 2,
        !white_space(marker[0]),
{
    reveal_strlit("不要");
    reveal_strlit("不含");
    reveal_strlit("排除");
    reveal_strlit("沒有");
}

/// The place of a marker among those that rule a word out, none of the others before which
/// stands in it and its word.
proof fn lemma_marker_place(marker: Seq<char>, word: Seq<char>) -> (at: int)
    requires
        marker == "不要"@ || marker == "不含"@ || marker == "排除"@ || marker == "沒有"@,
        forall|i: int| 0 <= i < word.len() ==> #[trigger] word[i] != '不' && word[i] != '排' && word[i] != '沒',
    ensures
        0 <= at < exclusion_markers().len(),
        exclusion_markers()[at] == marker,
        forall|k: int| 0 <= k < at ==> !holds_text(marker + word, #[trigger] exclusion_markers()[k]),
{
    reveal_strlit("不要");
    reveal_strlit("不含");
    reveal_strlit("排除");
    reveal_strlit("沒有");
    let all = exclusion_markers();
    let token = marker + word;
    let at: int = if marker == "不要"@ {
        0
    } else if marker == "不含"@ {
        1
    } else if marker == "排除"@ {
        2
    } else {
        3
    };
    assert forall|k: int| 0 <= k < at implies !holds_text(token, #[trigger] all[k]) by {
        if holds_text(token, all[k]) {
            let place = choose|place: int| occurs_at(token, all[k], place);
            let part = token.subrange(place, place + 2);
            assert(all[k].len() == 2);
            assert(part[0] == token[place] && part[1] == token[place + 1]);
            if place >= 2 {
                assert(token[place] == word[place - 2]);
            } else if place == 1 {
                assert(token[1] == marker[1]);
            } else {
                assert(token[0] == marker[0] && token[1] == marker[1]);
            }
        }
    }
    at
}

proof fn lemma_word_rules_out(around: Surroundings, marker: Seq<char>, word: Seq<char>, text: Seq<char>)
    requires
        around.hold(marker + word, text),
        marker == "不要"@ || marker == "不含"@ || marker == "排除"@ || marker == "沒有"@,
        word.len() > 0,
        forall|i: int| 0 <= i < word.len() ==> !ends_excluded_word(#[trigger] word[i]),
        forall|i: int| 0 <= i < word.len() ==> #[trigger] word[i] != '不' && word[i] != '排' && word[i] != '沒',
        !is_filler(word),
    ensures
        extractions(text, exclusion_markers()).terms.contains(word),
{
    lemma_exclusion_markers_are_unbroken();
    let at = lemma_marker_place(marker, word);
    assert(stop_words().contains(word) == is_filler(word));
    assert forall|i: int| 0 <= i < word.len() implies term_character()(#[trigger] word[i]) by {
        assert(!ends_excluded_word(word[i]));
    }
    lemma_marked_word_is_among(around, exclusion_markers(), at, word, text);
}

/// A word behind a word of negation is taken out of a text and returned, wherever the two stand by
/// themselves.
pub proof fn law_excluded_words_are_taken_out(
    value: &mut String,
    terms: Vec<String>,
    before: Seq<char>,
    marker: Seq<char>,
    word: Seq<char>,
    behind: Seq<char>,
)
    requires
        call_ensures(extract_negative_terms, (value,), terms),
        old(value)@ == before + (marker + word) + behind,
        stands_alone(before, behind),
        marker == "不要"@ || marker == "不含"@ || marker == "排除"@ || marker == "沒有"@,
        word.len() > 0,
        forall|i: int| 0 <= i < word.len() ==> !ends_excluded_word(#[trigger] word[i]),
        forall|i: int| 0 <= i < word.len() ==> #[trigger] word[i] != '不' && word[i] != '排' && word[i] != '沒',
        !is_filler(word),
    ensures
        texts(terms@).contains(word),
{
    lemma_word_rules_out(Surroundings { before, behind }, marker, word, old(value)@);
}

/// A text is split into the words that stand by themselves in it, fillers aside.
pub proof fn law_texts_are_split_into_words(
    value: &str,
    words: Vec<String>,
    before: Seq<char>,
    word: Seq<char>,
    behind: Seq<char>,
)
    requires
        call_ensures(tokenize_query, (value,), words),
        value@ == before + word + behind,
        stands_alone(before, behind),
        word.len() > 0,
        forall|i: int| 0 <= i < word.len() ==> !ends_word(#[trigger] word[i]),
    ensures
        texts(words@).contains(word) <==> !is_filler(word),
{
    let around = Surroundings { before, behind };
    assert(white_space(' '));
    assert forall|i: int| 0 <= i < word.len() implies !word_separator()(#[trigger] word[i]) by {
        assert(!ends_word(word[i]));
    }
    lemma_alone_is_a_piece(around, word, value@, word_separator());
    let all = pieces(value@, word_separator());
    let keep = |one: Seq<char>| one.len() > 0 && !stop_words().contains(one);
    assert(stop_words().contains(word) == is_filler(word));
    if !is_filler(word) {
        let k = choose|k: int| 0 <= k < all.len() && all[k] == word;
        all.lemma_filter_contains(keep, k);
    }
    if words_of(value@).contains(word) {
        let k = choose|k: int| 0 <= k < words_of(value@).len() && words_of(value@)[k] == word;
        law_words_hold_no_separator(value@, k);
    }
}

/// Each piece of a text stands in it.
proof fn lemma_pieces_are_held(text: Seq<char>, separates: spec_fn(char) -> bool)
    ensures
        pieces(text, separates).len() > 0,
        pieces(text, separates).last().len() <= text.len(),
        text.skip(text.len() - pieces(text, separates).last().len()) == pieces(text, separates).last(),
        forall|k: int| 0 <= k < pieces(text, separates).len() ==> holds_text(text, #[trigger] pieces(text, separates)[k]),
    decreases text.len(),
{
    if text.len() == 0 {
        assert(text.skip(0) =~= text);
        assert(text.subrange(0, 0) =~= text);
        assert(occurs_at(text, text, 0));
    } else {
        let shorter = text.drop_last();
        lemma_pieces_are_held(shorter, separates);
        let before = pieces(shorter, separates);
        let after = pieces(text, separates);
        let tail = after.last();
        if separates(text.last()) {
            assert(text.skip(text.len() as int) =~= tail);
        } else {
            assert(text.skip(text.len() - tail.len()) =~= tail);
        }
        assert forall|k: int| 0 <= k < after.len() implies holds_text(text, #[trigger] after[k]) by {
            if k == after.len() - 1 {
                assert(text.subrange(text.len() - tail.len(), text.len() as int) =~= tail);
                assert(occurs_at(text, tail, text.len() - tail.len()));
            } else {
                assert(after[k] == before[k]);
                lemma_part_is_held(Seq::<char>::empty(), shorter, seq![text.last()], before[k]);
                assert(Seq::<char>::empty() + shorter + seq![text.last()] =~= text);
            }
        }
    }
}

/// Each word that pictures are searched for, and each that rules pictures out, stood in the query.
pub proof fn law_words_stood_in_the_query(
    query: &str,
    known_people: &Vec<String>,
    now_year: i32,
    plan: QueryPlan,
    at: int,
)
    requires
        i32::MIN + 2 <= now_year < i32::MAX,
        call_ensures(parse_normalized_query, (query, known_people, now_year), plan),
    ensures
        0 <= at < plan.text.should@.len() ==> holds_text(query@, plan.text.should@[at]@),
        0 <= at < plan.text.must_not@.len() ==> holds_text(query@, plan.text.must_not@[at]@),
{
    let known = texts(known_people@);
    let text = wording(query@, known);
    let rest = extractions(text, exclusion_markers());
    law_dates_are_gone(query@);
    lemma_wording_is_left(query@, known);
    lemma_left_of_left(query@, undated(query@), text);
    law_exclusions_are_gone(text);
    lemma_left_of_left(query@, text, rest.text);
    assert(white_space(' '));
    if 0 <= at < plan.text.should@.len() {
        let word = plan.text.should@[at]@;
        assert(plan@.should[at] == word);
        lemma_counted_word_stood(rest.text, at);
        lemma_left_words_stand(query@, rest.text, word);
    }
    if 0 <= at < plan.text.must_not@.len() {
        let word = plan.text.must_not@[at]@;
        assert(plan@.must_not[at] == word);
        law_excluded_words_stood_in_the_text(text, at);
        lemma_left_words_stand(query@, text, word);
    }
}

proof fn lemma_counted_word_stood(text: Seq<char>, at: int)
    requires
        0 <= at < positive_words(words_of(text)).len(),
    ensures
        holds_text(text, positive_words(words_of(text))[at]),
        is_unbroken(positive_words(words_of(text))[at]),
        positive_words(words_of(text))[at].len() > 0,
{
    let words = words_of(text);
    let word = positive_words(words)[at];
    let positive = |one: Seq<char>| !negations().contains(one);
    assert(words.filter(positive).contains(word));
    words.lemma_filter_contains_rev(positive, word);
    let n = choose|n: int| 0 <= n < words.len() && words[n] == word;
    law_words_hold_no_separator(text, n);
    let all = pieces(text, word_separator());
    let keep = |one: Seq<char>| one.len() > 0 && !stop_words().contains(one);
    assert(all.filter(keep).contains(word));
    all.lemma_filter_contains_rev(keep, word);
    lemma_pieces_are_held(text, word_separator());
    let k = choose|k: int| 0 <= k < all.len() && all[k] == word;
    assert(holds_text(text, all[k]));
    assert(white_space(' '));
    assert forall|i: int| 0 <= i < word.len() implies #[trigger] word[i] != ' ' by {
        assert(!word_separator()(words_of(text)[n][i]));
    }
}

/// A query of plain words alone, in which no word of the query language and no known name stands,
/// asks for exactly these words, in their order, and for nothing else.
pub proof fn law_plain_queries_ask_for_their_words(
    query: &str,
    known_people: &Vec<String>,
    now_year: i32,
    plan: QueryPlan,
    words: Seq<Seq<char>>,
)
    requires
        i32::MIN + 2 <= now_year < i32::MAX,
        call_ensures(parse_normalized_query, (query, known_people, now_year), plan),
        query@ == joined(words, " "@),
        forall|k: int|
            0 <= k < words.len() ==> (#[trigger] words[k]).len() > 0 && !is_filler(words[k]) && words[k] != "無"@,
        forall|k: int, i: int| 0 <= k < words.len() && 0 <= i < words[k].len() ==> !ends_word(#[trigger] words[k][i]),
        holds_nothing_special(query@),
        !holds_negation(query@),
        forall|k: int|
            0 <= k < known_people@.len() ==> trimmed((#[trigger] known_people@[k])@, blank()).len() == 0 || !holds_text(
                query@,
                lowercase(trimmed(known_people@[k]@, blank())),
            ),
    ensures
        texts(plan.text.should@) == words,
        plan.semantic_query@ == query@,
        plan.text.must@.len() == 0,
        plan.text.must_not@.len() == 0,
        plan.people_include@.len() == 0,
        plan.people_exclude@.len() == 0,
        plan.face_presence == FacePresence::Any,
        plan.date.from is None,
        plan.date.to is None,
        plan.extensions@.len() == 0,
        plan.limit is None,
{
    let text = query@;
    let known = texts(known_people@);
    lemma_plain_wording(text, known, known_people@);
    lemma_plain_words_are_kept(words, text);
    lemma_nothing_else(text, now_year as int);
    assert(plan@.should == words);
    assert(plan@.must_not.len() == 0);
    assert(plan@.people_include.len() == 0);
    assert(plan@.people_exclude.len() == 0);
    assert(plan@.extensions.len() == 0);
}

/// Nothing is taken out of a text that holds nothing special.
proof fn lemma_plain_wording(text: Seq<char>, known: Seq<Seq<char>>, people: Seq<String>)
    requires
        holds_nothing_special(text),
        known == texts(people),
        forall|k: int|
            0 <= k < people.len() ==> trimmed((#[trigger] people[k])@, blank()).len() == 0 || !holds_text(
                text,
                lowercase(trimmed(people[k]@, blank())),
            ),
    ensures
        wording(text, known) == text,
        people_of(text, without_face_phrases(text), known).wanted.len() == 0,
        people_of(text, without_face_phrases(text), known).exclude.len() == 0,
{
    lemma_special_words(text);
    lemma_phrases_are_unbroken();
    lemma_date_words_are_unbroken();
    lemma_nothing_struck(text, date_words());
    assert(without_digits(text) =~= text);
    lemma_no_limits(text, limit_markers());
    lemma_nothing_struck_held(text, text, faceless_phrases());
    lemma_first_held(text, face_phrases());
    assert(!any_held(text, face_phrases()));
    assert(without_face_phrases(text) == text);
    assert forall|k: int| 0 <= k < known.len() implies trimmed(#[trigger] known[k], blank()).len() == 0 || !holds_text(
        text,
        lowercase(trimmed(known[k], blank())),
    ) by {
        assert(known[k] == people[k]@);
    }
    lemma_nobody_is_named(text, text, known);
    lemma_nothing_struck_held(text, text, image_extensions());
}

proof fn lemma_no_limits(text: Seq<char>, markers: Seq<Seq<char>>)
    requires
        forall|k: int| 0 <= k < markers.len() ==> !holds_text(text, #[trigger] markers[k]),
    ensures
        without_limits(text, markers) == text,
        first_limit(text, markers) is None,
    decreases markers.len(),
{
    if markers.len() > 0 {
        let shorter = markers.drop_last();
        assert forall|k: int| 0 <= k < shorter.len() implies !holds_text(text, #[trigger] shorter[k]) by {
            assert(shorter[k] == markers[k]);
        }
        lemma_no_limits(text, shorter);
        assert(!holds_text(text, markers[markers.len() - 1]));
    }
}

proof fn lemma_nothing_struck_held(text: Seq<char>, query: Seq<char>, phrases: Seq<Seq<char>>)
    requires
        forall|k: int| 0 <= k < phrases.len() ==> !holds_text(query, #[trigger] phrases[k]),
    ensures
        struck_held(text, query, phrases) == text,
    decreases phrases.len(),
{
    if phrases.len() > 0 {
        let shorter = phrases.drop_last();
        assert forall|k: int| 0 <= k < shorter.len() implies !holds_text(query, #[trigger] shorter[k]) by {
            assert(shorter[k] == phrases[k]);
        }
        lemma_nothing_struck_held(text, query, shorter);
        assert(!holds_text(query, phrases[phrases.len() - 1]));
    }
}

proof fn lemma_nobody_is_named(query: Seq<char>, text: Seq<char>, known: Seq<Seq<char>>)
    requires
        forall|k: int|
            0 <= k < known.len() ==> trimmed(#[trigger] known[k], blank()).len() == 0 || !holds_text(
                query,
                lowercase(trimmed(known[k], blank())),
            ),
    ensures
        people_of(query, text, known).text == text,
        people_of(query, text, known).wanted.len() == 0,
        people_of(query, text, known).exclude.len() == 0,
    decreases known.len(),
{
    if known.len() > 0 {
        let shorter = known.drop_last();
        assert forall|k: int| 0 <= k < shorter.len() implies trimmed(#[trigger] shorter[k], blank()).len() == 0
            || !holds_text(query, lowercase(trimmed(shorter[k], blank()))) by {
            assert(shorter[k] == known[k]);
        }
        lemma_nobody_is_named(query, text, shorter);
        assert(trimmed(known[known.len() - 1], blank()).len() == 0 || !holds_text(
            query,
            lowercase(trimmed(known[known.len() - 1], blank())),
        ));
    }
}

/// The words of a plain text are all kept.
proof fn lemma_plain_words_are_kept(words: Seq<Seq<char>>, text: Seq<char>)
    requires
        text == joined(words, " "@),
        forall|k: int|
            0 <= k < words.len() ==> (#[trigger] words[k]).len() > 0 && !is_filler(words[k]) && words[k] != "無"@,
        forall|k: int, i: int| 0 <= k < words.len() && 0 <= i < words[k].len() ==> !ends_word(#[trigger] words[k][i]),
        !holds_negation(text),
    ensures
        extractions(text, exclusion_markers()).text == text,
        extractions(text, exclusion_markers()).terms.len() == 0,
        positive_words(words_of(text)) == words,
{
    let markers = exclusion_markers();
    assert forall|k: int| 0 <= k < markers.len() implies !holds_text(text, #[trigger] markers[k]) by {
        assert(markers[k] == "不要"@ || markers[k] == "不含"@ || markers[k] == "排除"@ || markers[k] == "沒有"@);
    }
    law_exclusions_are_gone(text);
    assert forall|k: int| 0 <= k < words.len() implies (#[trigger] words[k]).len() > 0 && !stop_words().contains(words[k])
        && is_clear_of(words[k], word_separator()) by {
        assert(stop_words().contains(words[k]) == is_filler(words[k]));
        assert forall|i: int| 0 <= i < words[k].len() implies !word_separator()(#[trigger] words[k][i]) by {
            assert(!ends_word(words[k][i]));
        }
    }
    law_words_survive_being_joined(words);
    let positive = |one: Seq<char>| !negations().contains(one);
    assert forall|k: int| 0 <= k < words.len() implies positive(#[trigger] words[k]) by {
        if holds_negation(words[k]) {
            lemma_joined_holds_negation(words, k);
        }
        lemma_no_negation(words[k]);
    }
    lemma_all_are_kept(words, positive);
}

/// A joined text holds the words of negation that its words hold.
proof fn lemma_joined_holds_negation(words: Seq<Seq<char>>, at: int)
    requires
        0 <= at < words.len(),
        holds_negation(words[at]),
    ensures
        holds_negation(joined(words, " "@)),
    decreases words.len(),
{
    if words.len() > 1 {
        let before = joined(words.drop_last(), " "@);
        let whole = joined(words, " "@);
        let nothing = Seq::<char>::empty();
        if at < words.len() - 1 {
            lemma_joined_holds_negation(words.drop_last(), at);
            lemma_negation_in_part(nothing, before, " "@ + words.last());
            assert(nothing + before + (" "@ + words.last()) =~= whole);
        } else {
            lemma_negation_in_part(before + " "@, words.last(), nothing);
            assert(before + " "@ + words.last() + nothing =~= whole);
        }
    }
}

proof fn lemma_negation_in_part(before: Seq<char>, part: Seq<char>, behind: Seq<char>)
    requires
        holds_negation(part),
    ensures
        holds_negation(before + part + behind),
{
    if holds_text(part, "不要"@) {
        lemma_part_is_held(before, part, behind, "不要"@);
    } else if holds_text(part, "不含"@) {
        lemma_part_is_held(before, part, behind, "不含"@);
    } else if holds_text(part, "排除"@) {
        lemma_part_is_held(before, part, behind, "排除"@);
    } else {
        lemma_part_is_held(before, part, behind, "沒有"@);
    }
}

/// A text that holds nothing special asks neither for dates nor for faces, file types or a limit.
proof fn lemma_nothing_else(text: Seq<char>, now_year: int)
    requires
        holds_nothing_special(text),
    ensures
        crate::query::date_range_of(text, now_year) == crate::calendar::open_range(),
        limit_of(text) is None,
        crate::query::extensions_of(text).len() == 0,
        crate::query::presence_of(text, Seq::empty()) == FacePresence::Any,
{
    lemma_special_words(text);
    let dates = date_words();
    assert(dates[0] == "去年夏天"@ && dates[1] == "今年夏天"@ && dates[2] == "前年"@ && dates[3] == "去年"@ && dates[4]
        == "今年"@ && dates[5] == "明年"@ && dates[7] == "年"@);
    assert(!holds_text(text, dates[0]) && !holds_text(text, dates[1]) && !holds_text(text, dates[2]) && !holds_text(
        text,
        dates[3],
    ) && !holds_text(text, dates[4]) && !holds_text(text, dates[5]) && !holds_text(text, dates[7]));
    lemma_no_limits(text, limit_markers());
    lemma_first_held(text, face_phrases());
    assert(!any_held(text, face_phrases()));
    assert(!any_held(text, faceless_phrases()));
    let all = image_extensions();
    let keep = |one: Seq<char>| holds_text(text, one);
    let found = all.filter(keep);
    if found.len() > 0 {
        all.lemma_filter_pred(keep, 0);
        assert(found.contains(found[0]));
        all.lemma_filter_contains_rev(keep, found[0]);
        let k = choose|k: int| 0 <= k < all.len() && all[k] == found[0];
        assert(!holds_text(text, all[k]));
    }
}

/// The words and numbers of dates are taken out: no digit is left, and what holds neither stays.
pub proof fn law_dates_are_taken_out(value: &str, result: String)
    requires
        call_ensures(remove_date_words, (value,), result),
    ensures
        forall|i: int| 0 <= i < result@.len() ==> !('0' <= #[trigger] result@[i] <= '9'),
        forall|i: int|
            0 <= i < result@.len() ==> #[trigger] result@[i] != '年' && result@[i] != '月' && result@[i] != '日',
        !holds_text(result@, "夏天"@),
        is_clear_of(value@, date_character()) && !holds_text(value@, "夏天"@) ==> result@ == value@,
        forall|i: int|
            0 <= i < result@.len() && #[trigger] result@[i] != ' ' ==> value@.contains(result@[i]),
{
    law_dates_are_gone(value@);
    lemma_clear_before(result@);
    let middle = struck(value@, date_words());
    assert forall|i: int| 0 <= i < result@.len() implies !('0' <= #[trigger] result@[i] <= '9') by {
        assert(result@[i] == if is_digit(middle[i]) { ' ' } else { middle[i] });
    }
    if is_clear_of(value@, date_character()) && !holds_text(value@, "夏天"@) {
        lemma_dateless_text_stays(value@);
    }
    lemma_date_words_are_unbroken();
    lemma_struck(value@, date_words());
    assert forall|i: int| 0 <= i < result@.len() && #[trigger] result@[i] != ' ' implies value@.contains(result@[i]) by {
        assert(result@[i] == if is_digit(middle[i]) { ' ' } else { middle[i] });
        let bad = |character: char| character == result@[i];
        if !value@.contains(result@[i]) {
            assert forall|k: int| 0 <= k < value@.len() implies !bad(#[trigger] value@[k]) by {
            }
            lemma_left_stays_clear(value@, middle, bad);
            assert(!bad(middle[i]));
        }
    }
}

/// What a query asks for in a year is the plan.
pub open spec fn is_plan_of_year(query: &str, known_people: &Vec<String>, year: i32, plan: QueryPlan) -> bool {
    forall|other: QueryPlan| #[trigger]
        call_ensures(parse_query_in, (query, known_people, year), other) ==> other@ == plan@
}

/// The dates that a query asks for in a year are the range.
pub open spec fn is_range_of_year(query: &str, year: i32, range: DateRange) -> bool {
    forall|other: DateRange| #[trigger] call_ensures(parse_date_range_in, (query, year), other) ==> other@ == range@
}

/// A query is read in the year of the clock: it asks for what it asks for in some year.
pub proof fn law_queries_are_read_this_year(query: &str, known_people: &Vec<String>, plan: QueryPlan, range: DateRange)
    requires
        call_ensures(parse_query, (query, known_people), plan),
        call_ensures(parse_date_range, (query,), range),
    ensures
        exists|year: i32| -9999 <= year <= 9999 && #[trigger] is_plan_of_year(query, known_people, year, plan),
        exists|year: i32| -9999 <= year <= 9999 && #[trigger] is_range_of_year(query, year, range),
{
    let year = choose|year: int| #[trigger] clock_year(year) && plan@ == plan_of(query@, texts(known_people@), year);
    assert(is_plan_of_year(query, known_people, year as i32, plan));
    let year = choose|year: int| #[trigger] clock_year(year) && range@ == date_range_of(query@, year);
    assert(is_range_of_year(query, year as i32, range));
}

/// The number before a place of a text is that of the digits that end there.
pub proof fn law_numbers_are_read_before_a_place(
    value: &str,
    end: usize,
    found: Option<i32>,
    before: Seq<char>,
    written: Seq<char>,
    number: nat,
)
    requires
        is_char_boundary(encode_utf8(value@), end as int),
        call_ensures(digits_before, (value, end), found),
        byte_prefix(value@, end as int) == before + written,
        is_numeral(written, number),
        before.len() > 0 ==> !is_digit(before.last()),
    ensures
        number <= i32::MAX ==> found is Some && found->0 == number,
        number > i32::MAX ==> found is None,
{
    lemma_numeral(written, number);
    let text = before + written;
    assert forall|i: int| text.len() - written.len() <= i < text.len() implies digit()(#[trigger] text[i]) by {
        assert(text[i] == written[i - before.len()]);
    }
    lemma_tail_length(text, digit(), written.len() as int);
    assert(text.skip(before.len() as int) =~= written);
}

/// A text holds what a part of it holds.
proof fn lemma_held_by_part(text: Seq<char>, part: Seq<char>, word: Seq<char>)
    requires
        holds_text(text, part),
        holds_text(part, word),
    ensures
        holds_text(text, word),
{
    let at = choose|at: int| occurs_at(text, part, at);
    lemma_part_is_held(text.take(at), part, text.skip(at + part.len()), word);
    assert(text.take(at) + part + text.skip(at + part.len()) =~= text);
}

/// A phrase that a query holds is gone once the phrases that it holds are taken out.
proof fn lemma_struck_held_is_gone(text: Seq<char>, query: Seq<char>, phrases: Seq<Seq<char>>, k: int)
    requires
        are_unbroken(phrases),
        0 <= k < phrases.len(),
        holds_text(query, phrases[k]),
    ensures
        !holds_text(struck_held(text, query, phrases), phrases[k]),
    decreases phrases.len(),
{
    lemma_blank_text();
    let shorter = phrases.drop_last();
    let before = struck_held(text, query, shorter);
    if k == phrases.len() - 1 {
        lemma_replaced_is_gone(before, phrases[k]);
    } else {
        assert forall|n: int| 0 <= n < shorter.len() implies (#[trigger] shorter[n]).len() > 0 && is_unbroken(
            shorter[n],
        ) by {
            assert(shorter[n] == phrases[n]);
        }
        lemma_struck_held_is_gone(text, query, shorter, k);
        lemma_replaced_is_left(before, phrases.last());
        if holds_text(query, phrases.last()) && holds_text(struck_held(text, query, phrases), phrases[k]) {
            lemma_left_words_stand(before, struck_held(text, query, phrases), phrases[k]);
        }
    }
}

/// The first of the phrases that a query holds.
proof fn lemma_first_held_at(query: Seq<char>, phrases: Seq<Seq<char>>, k: int)
    requires
        0 <= k < phrases.len(),
        holds_text(query, phrases[k]),
        forall|n: int| 0 <= n < k ==> !holds_text(query, #[trigger] phrases[n]),
    ensures
        first_held(query, phrases) == Some(phrases[k]),
    decreases phrases.len(),
{
    let shorter = phrases.drop_last();
    if k == phrases.len() - 1 {
        lemma_first_held(query, shorter);
        if any_held(query, shorter) {
            let n = choose|n: int| 0 <= n < shorter.len() && holds_text(query, #[trigger] shorter[n]);
            assert(phrases[n] == shorter[n]);
        }
    } else {
        assert forall|n: int| 0 <= n < k implies !holds_text(query, #[trigger] shorter[n]) by {
            assert(shorter[n] == phrases[n]);
        }
        assert(shorter[k] == phrases[k]);
        lemma_first_held_at(query, shorter, k);
    }
}

/// The name of a known person that a query mentions is gone once the names are taken out.
proof fn lemma_name_is_gone(query: Seq<char>, text: Seq<char>, known: Seq<Seq<char>>, k: int)
    requires
        0 <= k < known.len(),
        ({
            let name = trimmed(known[k], blank());
            mentions(query, name) && lowercase(name).len() > 0 && is_unbroken(lowercase(name))
        }),
    ensures
        !holds_text(people_of(query, text, known).text, lowercase(trimmed(known[k], blank()))),
    decreases known.len(),
{
    lemma_blank_text();
    let shorter = known.drop_last();
    let before = people_of(query, text, shorter).text;
    let last = trimmed(known.last(), blank());
    let word = lowercase(trimmed(known[k], blank()));
    if k == known.len() - 1 {
        lemma_replaced_is_gone(before, word);
    } else {
        assert(shorter[k] == known[k]);
        lemma_name_is_gone(query, text, shorter, k);
        lemma_replaced_is_left(before, lowercase(last));
        if mentions(query, last) && holds_text(people_of(query, text, known).text, word) {
            lemma_left_words_stand(before, people_of(query, text, known).text, word);
        }
    }
}

/// What is searched for by words is left of the text at every stage of taking things out.
proof fn lemma_stages(query: Seq<char>, known: Seq<Seq<char>>)
    ensures
        ({
            let rest = extractions(wording(query, known), exclusion_markers()).text;
            &&& is_left_of(rest, query)
            &&& is_left_of(rest, struck_held(undated_unlimited(query), query, faceless_phrases()))
            &&& is_left_of(rest, without_face_phrases(query))
            &&& is_left_of(rest, people_of(query, without_face_phrases(query), known).text)
            &&& is_left_of(rest, wording(query, known))
        }),
{
    lemma_blank_text();
    let text = wording(query, known);
    let rest = extractions(text, exclusion_markers()).text;
    law_dates_are_gone(query);
    lemma_wording_is_left(query, known);
    lemma_left_of_left(query, undated(query), text);
    law_exclusions_are_gone(text);
    lemma_left_of_left(query, text, rest);
    let phraseless = without_face_phrases(query);
    let nameless = people_of(query, phraseless, known).text;
    lemma_struck_held_is_left(nameless, query, image_extensions());
    lemma_left_of_left(nameless, text, rest);
    lemma_people_text_is_left(query, phraseless, known);
    lemma_left_of_left(phraseless, nameless, rest);
    let faceless = struck_held(undated_unlimited(query), query, faceless_phrases());
    match first_held(query, face_phrases()) {
        Some(phrase) if !any_held(query, faceless_phrases()) => {
            lemma_replaced_is_left(faceless, phrase);
        },
        _ => {
            lemma_left_of_itself(faceless);
        },
    }
    lemma_left_of_left(faceless, phraseless, rest);
}

/// What a query is understood by otherwise is not searched for: no word that is holds a digit or a
/// word of a date, a file type, a phrase that rules faces out or the first one that calls for them, the
/// name of a known person, or a word that rules others out.
pub proof fn law_what_is_understood_is_not_searched_for(
    query: &str,
    known_people: &Vec<String>,
    now_year: i32,
    plan: QueryPlan,
    at: int,
    phrase: int,
    person: int,
)
    requires
        i32::MIN + 2 <= now_year < i32::MAX,
        call_ensures(parse_normalized_query, (query, known_people, now_year), plan),
        0 <= at < plan.text.should@.len(),
    ensures
        ({
            let word = plan.text.should@[at]@;
            let types = seq!["jpg"@, "jpeg"@, "png"@, "webp"@, "gif"@, "bmp"@];
            let faceless = seq!["不要有人"@, "沒有人的"@, "沒有臉"@, "無人臉"@, "無人物"@, "不要人"@];
            let faces = seq!["有人臉"@, "有人"@, "人物"@, "人像"@, "合照"@];
            &&& forall|i: int|
                0 <= i < word.len() ==> !is_digit(#[trigger] word[i]) && word[i] != '年' && word[i] != '月' && word[i]
                    != '日' && !white_space(word[i])
            &&& 0 <= phrase < 6 ==> !holds_text(word, types[phrase]) && !holds_text(word, faceless[phrase])
            &&& 0 <= phrase < 5 && !rules_faces_out(query@) && holds_text(query@, faces[phrase]) && (forall|n: int|
                0 <= n < phrase ==> !holds_text(query@, #[trigger] faces[n])) ==> !holds_text(word, faces[phrase])
            &&& 0 <= person < known_people@.len() ==> ({
                let name = trimmed(known_people@[person]@, blank());
                name.len() > 0 && lowercase(name).len() > 0 && is_unbroken(lowercase(name)) ==> !holds_text(
                    word,
                    lowercase(name),
                )
            })
            &&& !holds_negation(word)
        }),
        plan.semantic_query@ == joined(texts(plan.text.should@), " "@),
        plan.text.must@.len() == 0,
{
    let known = texts(known_people@);
    let word = plan.text.should@[at]@;
    let text = wording(query@, known);
    let rest = extractions(text, exclusion_markers()).text;
    assert(plan@.should[at] == word);
    assert(plan@.must.len() == plan.text.must@.len());
    law_plan_words(query@, known, now_year as int);
    lemma_counted_word_stood(rest, at);
    assert(is_plan_word(plan@.should[at]));
    lemma_clear_before(word);
    assert forall|i: int| 0 <= i < word.len() implies !white_space(#[trigger] word[i]) by {
        assert(!blank()(word[i]));
    }
    lemma_stages(query@, known);
    lemma_phrases_are_unbroken();
    let phraseless = without_face_phrases(query@);
    let nameless = people_of(query@, phraseless, known).text;
    if 0 <= phrase < 6 {
        let one = image_extensions()[phrase];
        if holds_text(word, one) {
            lemma_held_by_part(rest, word, one);
            lemma_left_words_stand(query@, rest, one);
            lemma_left_words_stand(text, rest, one);
            lemma_struck_held_is_gone(nameless, query@, image_extensions(), phrase);
        }
        let one = faceless_phrases()[phrase];
        if holds_text(word, one) {
            let faceless = struck_held(undated_unlimited(query@), query@, faceless_phrases());
            lemma_held_by_part(rest, word, one);
            lemma_left_words_stand(query@, rest, one);
            lemma_left_words_stand(faceless, rest, one);
            lemma_struck_held_is_gone(undated_unlimited(query@), query@, faceless_phrases(), phrase);
        }
    }
    let faces = seq!["有人臉"@, "有人"@, "人物"@, "人像"@, "合照"@];
    if 0 <= phrase < 5 && !rules_faces_out(query@) && holds_text(query@, faces[phrase]) && (forall|n: int|
        0 <= n < phrase ==> !holds_text(query@, #[trigger] faces[n])) {
        assert(faces == face_phrases());
        lemma_first_held_at(query@, face_phrases(), phrase);
        lemma_faces_ruled_out(query@);
        lemma_blank_text();
        let one = face_phrases()[phrase];
        lemma_replaced_is_gone(struck_held(undated_unlimited(query@), query@, faceless_phrases()), one);
        if holds_text(word, one) {
            lemma_held_by_part(rest, word, one);
            lemma_left_words_stand(phraseless, rest, one);
        }
    }
    if 0 <= person < known_people@.len() {
        let name = trimmed(known_people@[person]@, blank());
        assert(known[person] == known_people@[person]@);
        if name.len() > 0 && lowercase(name).len() > 0 && is_unbroken(lowercase(name)) && holds_text(
            word,
            lowercase(name),
        ) {
            lemma_held_by_part(rest, word, lowercase(name));
            lemma_left_words_stand(query@, rest, lowercase(name));
            lemma_left_words_stand(nameless, rest, lowercase(name));
            lemma_name_is_gone(query@, phraseless, known, person);
        }
    }
    law_exclusions_are_gone(text);
    let markers = exclusion_markers();
    assert(markers[0] == "不要"@);
    assert(markers[1] == "不含"@);
    assert(markers[2] == "排除"@);
    assert(markers[3] == "沒有"@);
    if holds_negation(word) {
        let one = if holds_text(word, "不要"@) {
            "不要"@
        } else if holds_text(word, "不含"@) {
            "不含"@
        } else if holds_text(word, "排除"@) {
            "排除"@
        } else {
            "沒有"@
        };
        lemma_held_by_part(rest, word, one);
    }
}

/// A text has none of the signs for a year, a month and a day.
pub open spec fn has_no_date_mark(text: Seq<char>) -> bool {
    forall|i: int| 0 <= i < text.len() ==> #[trigger] text[i] != '年' && text[i] != '月' && text[i] != '日'
}

/// Without the signs of dates and the word for summer only the digits are taken out of a text.
proof fn lemma_only_digits_are_taken_out(text: Seq<char>)
    requires
        has_no_date_mark(text),
        !holds_text(text, "夏天"@),
    ensures
        undated(text) == without_digits(text),
{
    let mark = |character: char| character == '年' || character == '月' || character == '日';
    assert(is_clear_of(text, mark));
    lemma_date_words_are_unbroken();
    reveal_strlit("去年夏天");
    reveal_strlit("今年夏天");
    reveal_strlit("前年");
    reveal_strlit("去年");
    reveal_strlit("今年");
    reveal_strlit("明年");
    reveal_strlit("年");
    reveal_strlit("月");
    reveal_strlit("日");
    assert forall|k: int| 0 <= k < date_words().len() implies !holds_text(text, #[trigger] date_words()[k]) by {
        if k != 6 && holds_text(text, date_words()[k]) {
            lemma_held_word_is_clear(text, date_words()[k], mark);
            let place: int = if k < 6 { 1 } else { 0 };
            assert(!mark(date_words()[k][place]));
        }
    }
    lemma_nothing_struck(text, date_words());
}

/// A marker of a limit that stands in a text once is gone once its limit is taken out.
proof fn lemma_marker_of_limit_is_gone(text: Seq<char>, marker: Seq<char>)
    requires
        marker.len() > 0,
        is_unbroken(marker),
        forall|a: int, b: int| #[trigger] occurs_at(text, marker, a) && #[trigger] occurs_at(text, marker, b) ==> a == b,
    ensures
        !holds_text(without_limit(text, marker), marker),
{
    if holds_text(text, marker) {
        let at = choose|at: int| occurs_at(text, marker, at);
        assert forall|i: int| i < at implies !occurs_at(text, marker, i) by {}
        lemma_find_text(text, marker, at);
        lemma_blank_text();
        let rest = text.skip(at + marker.len());
        let tail = rest.skip(run_length(rest, blank()) as int);
        lemma_run_bounds(rest, blank());
        lemma_run_bounds(tail, digit());
        let behind = tail.skip(run_length(tail, digit()) as int);
        let from = at + marker.len() + run_length(rest, blank()) + run_length(tail, digit());
        assert(behind =~= text.skip(from));
        let after = text.take(at) + seq![' '] + behind;
        assert(after == without_limit(text, marker));
        if holds_text(after, marker) {
            let n = choose|n: int| occurs_at(after, marker, n);
            let part = after.subrange(n, n + marker.len());
            if n + marker.len() <= at {
                assert(part =~= text.subrange(n, n + marker.len()));
                assert(occurs_at(text, marker, n));
            } else if n <= at {
                assert(part[at - n] == after[at]);
                assert(marker[at - n] == ' ');
            } else {
                let place = n - at - 1 + from;
                assert(part =~= text.subrange(place, place + marker.len()));
                assert(occurs_at(text, marker, place));
            }
        }
    } else {
        assert(without_limit(text, marker) == text);
    }
}

/// A limit is not searched for: where its marker stands in a query once, and no other one and no date
/// does, no word that is searched for holds the marker.
pub proof fn law_limits_are_not_searched_for(
    query: &str,
    known_people: &Vec<String>,
    now_year: i32,
    plan: QueryPlan,
    marker: Seq<char>,
    at: int,
)
    requires
        i32::MIN + 2 <= now_year < i32::MAX,
        call_ensures(parse_normalized_query, (query, known_people, now_year), plan),
        0 <= at < plan.text.should@.len(),
        has_no_date_mark(query@),
        !holds_text(query@, "夏天"@),
        marker == "最多"@ || marker == "前"@ || marker == "取"@,
        marker != "最多"@ ==> !holds_text(query@, "最多"@),
        marker != "前"@ ==> !holds_text(query@, "前"@),
        marker != "取"@ ==> !holds_text(query@, "取"@),
        forall|a: int, b: int| #[trigger]
            occurs_at(query@, marker, a) && #[trigger] occurs_at(query@, marker, b) ==> a == b,
    ensures
        !holds_text(plan.text.should@[at]@, marker),
{
    let known = texts(known_people@);
    let word = plan.text.should@[at]@;
    let rest = extractions(wording(query@, known), exclusion_markers()).text;
    let plain = undated(query@);
    assert(plan@.should[at] == word);
    lemma_counted_word_stood(rest, at);
    lemma_stages(query@, known);
    lemma_phrases_are_unbroken();
    lemma_only_digits_are_taken_out(query@);
    let markers = limit_markers();
    assert(markers[0] == "最多"@);
    assert(markers[1] == "前"@);
    assert(markers[2] == "取"@);
    reveal_strlit("最多");
    reveal_strlit("前");
    reveal_strlit("取");
    assert("最多"@[0] != "前"@[0] && "最多"@[0] != "取"@[0] && "前"@[0] != "取"@[0]);
    lemma_same_places(query@, "最多"@);
    lemma_same_places(query@, "前"@);
    lemma_same_places(query@, "取"@);
    assert forall|a: int, b: int| #[trigger] occurs_at(plain, marker, a) && #[trigger] occurs_at(
        plain,
        marker,
        b,
    ) implies a == b by {
        assert(occurs_at(query@, marker, a) && occurs_at(query@, marker, b));
    }
    lemma_marker_of_limit_is_gone(plain, marker);
    let one = markers.take(1);
    let two = markers.take(2);
    assert(markers.drop_last() =~= two);
    assert(two.drop_last() =~= one);
    assert(one.drop_last() =~= Seq::<Seq<char>>::empty());
    assert(without_limits(plain, one.drop_last()) == plain);
    let unlimited = undated_unlimited(query@);
    let first = without_limit(plain, "最多"@);
    let second = without_limit(first, "前"@);
    assert(without_limits(plain, one) == first);
    assert(without_limits(plain, two) == second);
    assert(unlimited == without_limit(second, "取"@));
    if marker == "最多"@ {
        lemma_still_not_held(plain, first, marker, "前"@);
        lemma_still_not_held(plain, first, marker, "取"@);
    }
    if marker == "前"@ {
        assert(first == plain);
        lemma_still_not_held(plain, second, marker, "取"@);
    }
    assert(!holds_text(unlimited, marker));
    let faceless = struck_held(unlimited, query@, faceless_phrases());
    lemma_struck_held_is_left(unlimited, query@, faceless_phrases());
    lemma_left_of_left(unlimited, faceless, rest);
    if holds_text(word, marker) {
        lemma_held_by_part(rest, word, marker);
        lemma_left_words_stand(unlimited, rest, marker);
    }
}

/// Taking a limit out brings no other marker in.
proof fn lemma_still_not_held(text: Seq<char>, after: Seq<char>, marker: Seq<char>, other: Seq<char>)
    requires
        after == without_limit(text, marker),
        !holds_text(text, other),
        other.len() > 0,
        is_unbroken(other),
    ensures
        !holds_text(after, other),
        without_limit(after, other) == after,
{
    lemma_without_limit_is_left(text, marker);
    if holds_text(after, other) {
        lemma_left_words_stand(text, after, other);
    }
}

/// A word without digits stands where it stood before the digits were taken out.
proof fn lemma_same_places(text: Seq<char>, word: Seq<char>)
    requires
        is_unbroken(word),
        word.len() > 0,
        forall|i: int| 0 <= i < word.len() ==> !is_digit(#[trigger] word[i]),
    ensures
        forall|at: int| #[trigger] occurs_at(without_digits(text), word, at) ==> occurs_at(text, word, at),
        holds_text(without_digits(text), word) ==> holds_text(text, word),
{
    let plain = without_digits(text);
    assert forall|at: int| #[trigger] occurs_at(plain, word, at) implies occurs_at(text, word, at) by {
        let part = plain.subrange(at, at + word.len());
        assert forall|i: int| 0 <= i < word.len() implies text[at + i] == #[trigger] word[i] by {
            assert(part[i] == plain[at + i]);
            assert(word[i] != ' ');
        }
        assert(text.subrange(at, at + word.len()) =~= word);
    }
}

} // verus!
