//! Search: which records a query finds, in which order, and which page of them is shown.
//!
//! The full-text index and the vector index answer with rows; this module turns rows
//! into scores by path, scores every record against a plan, selects and ranks what is
//! found, and cuts pages out of it.

use vstd::hash_map::StringHashMap;
use vstd::prelude::*;
use vstd::set_lib::{lemma_int_range, lemma_set_subset_finite, lemma_subset_equality, set_int_range};

use crate::indexer::{are_list_places, is_part_of_list, stands_at};
use crate::names::{law_name_list_is_unique, lists_names, sort_names};
use crate::path::{may_have_extension, path_extension};
use crate::query::{parse_query, clock_year, plan_of, PlanText, QueryPlan, TextQueryPlan};
use crate::query_laws::is_plan_of_year;
use crate::ranking::{law_ranking_repeats_nothing, listed_before, rank, Ranked};
use crate::record::{admitted, images, is_admitted, ImageRecord, ImageText};
use crate::score::Score;
use crate::text::{
    append_chars, blank, chars_of, comes_before, compact, compacted, contains, copy_strings, holds_text, join, joined,
    lemma_compacted, lemma_compacted_parts, lemma_part_is_held, lemma_text_is_held, lemma_text_order_total,
    lemma_text_order_transitive, lowercase, occurs_at, optional_text, replace, replaced, string_of, text_before, texts,
    to_lowercase, trim, trimmed, white_space,
};

verus! {

/// How many results a search without paging shows at most.
pub const DEFAULT_RESULT_PAGE_SIZE: usize = 60;

/// How many results a search for words has at most that found none of them.
pub const MAX_SEARCH_RESULTS: usize = 60;

/// How many results a page shows at most.
pub const MAX_RESULT_PAGE_SIZE: usize = 200;

/// The length of the vectors that pictures and faces are searched by.
pub const VECTOR_DIMENSION: usize = 512;

/// Up to which number the rows of a path are counted.
pub const MAX_COUNTED_ROWS: u32 = 16_777_216;

// ---------------------------------------------------------------------------
// Rows of the full-text index
// ---------------------------------------------------------------------------

/// A word as a phrase of the full-text query language: in quotation marks, with those
/// inside it doubled.
pub open spec fn phrase_of(word: Seq<char>) -> Seq<char> {
    "\""@ + replaced(word, "\""@, "\"\""@) + "\""@
}

/// The phrases of words.
pub open spec fn phrases_of(words: Seq<Seq<char>>) -> Seq<Seq<char>> {
    words.map_values(|word: Seq<char>| phrase_of(word))
}

fn phrase(word: &str) -> (result: String)
    ensures
        result@ == phrase_of(word@),
{
    let mark: Vec<char> = chars_of("\"");
    let mut chars: Vec<char> = chars_of("\"");
    append_chars(&mut chars, &replace(&chars_of(word), &mark, &chars_of("\"\"")));
    append_chars(&mut chars, &mark);
    string_of(&chars)
}

fn push_phrases(list: &mut Vec<String>, words: &Vec<String>)
    ensures
        texts(final(list)@) == texts(old(list)@) + phrases_of(texts(words@)),
{
    let ghost before = texts(list@);
    let ghost all = phrases_of(texts(words@));
    for i in 0..words.len()
        invariant
            all == phrases_of(texts(words@)),
            texts(list@) == before + all.take(i as int),
    {
        let ghost current = texts(list@);
        list.push(phrase(words[i].as_str()));
        assert(texts(list@) =~= current.push(phrase_of(words@[i as int]@)));
        assert(all.take(i + 1) =~= all.take(i as int).push(all[i as int]));
    }
    assert(all.take(all.len() as int) =~= all);
}

/// What the full-text index is asked: for each word that counts for a picture, and for
/// each word that rules one out.
pub struct TextQuestions {
    pub wanted: Vec<String>,
    pub unwanted: Vec<String>,
}

/// The phrases that the full-text index is asked for.
pub fn match_queries(text: &TextQueryPlan) -> (questions: TextQuestions)
    ensures
        texts(questions.wanted@) == phrases_of(texts(text.should@) + texts(text.must@)),
        texts(questions.unwanted@) == phrases_of(texts(text.must_not@)),
{
    let mut wanted: Vec<String> = Vec::new();
    push_phrases(&mut wanted, &text.should);
    push_phrases(&mut wanted, &text.must);
    let mut unwanted: Vec<String> = Vec::new();
    push_phrases(&mut unwanted, &text.must_not);
    assert(texts(wanted@) =~= phrases_of(texts(text.should@) + texts(text.must@)));
    assert(texts(unwanted@) =~= phrases_of(texts(text.must_not@)));
    TextQuestions { wanted, unwanted }
}

/// The rows of all answers, one answer after the other.
pub open spec fn all_rows(answers: Seq<Vec<String>>) -> Seq<Seq<char>>
    decreases answers.len(),
{
    if answers.len() == 0 {
        Seq::empty()
    } else {
        all_rows(answers.drop_last()) + texts(answers.last()@)
    }
}

/// How often a path occurs among rows.
pub open spec fn occurrences(rows: Seq<Seq<char>>, path: Seq<char>) -> nat
    decreases rows.len(),
{
    if rows.len() == 0 {
        0
    } else {
        occurrences(rows.drop_last(), path) + if rows.last() == path {
            1nat
        } else {
            0nat
        }
    }
}

/// What occurs is there, and what is there occurs.
pub proof fn lemma_occurrences(rows: Seq<Seq<char>>, path: Seq<char>)
    ensures
        (occurrences(rows, path) > 0) == rows.contains(path),
    decreases rows.len(),
{
    if rows.len() > 0 {
        lemma_occurrences(rows.drop_last(), path);
        assert(rows =~= rows.drop_last().push(rows.last()));
        if rows.last() == path {
            assert(rows[rows.len() - 1] == path);
        }
        if rows.drop_last().contains(path) {
            let k = choose|k: int| 0 <= k < rows.drop_last().len() && rows.drop_last()[k] == path;
            assert(rows[k] == path);
        }
        if rows.contains(path) && rows.last() != path {
            let k = choose|k: int| 0 <= k < rows.len() && rows[k] == path;
            assert(rows.drop_last()[k] == path);
        }
    }
}

/// How often a path occurs is how often the rows hold it as a multiset.
pub proof fn lemma_occurrences_are_counted(rows: Seq<Seq<char>>, path: Seq<char>)
    ensures
        occurrences(rows, path) == rows.to_multiset().count(path),
    decreases rows.len(),
{
    rows.to_multiset_ensures();
    if rows.len() > 0 {
        let before = rows.drop_last();
        lemma_occurrences_are_counted(before, path);
        before.to_multiset_ensures();
        assert(rows =~= before.push(rows.last()));
        assert(rows.to_multiset() =~= before.to_multiset().insert(rows.last()));
    } else {
        assert(!rows.contains(path));
    }
}

/// A count of rows, cut off at the highest number that is counted to.
pub open spec fn row_count(rows: Seq<Seq<char>>, path: Seq<char>) -> u32 {
    if occurrences(rows, path) <= MAX_COUNTED_ROWS {
        occurrences(rows, path) as u32
    } else {
        MAX_COUNTED_ROWS
    }
}

/// The table of rows counted by path.
pub open spec fn counts_rows(table: Map<Seq<char>, u32>, rows: Seq<Seq<char>>) -> bool {
    &&& forall|path: Seq<char>| #[trigger] table.contains_key(path) <==> occurrences(rows, path) > 0
    &&& forall|path: Seq<char>| #[trigger] table.contains_key(path) ==> table[path] == row_count(rows, path)
}

/// How often each path was found by words.
pub struct TextScores {
    counts: StringHashMap<u32>,
}

impl View for TextScores {
    type V = Map<Seq<char>, u32>;

    closed spec fn view(&self) -> Map<Seq<char>, u32> {
        self.counts@
    }
}

impl TextScores {
    /// How often a path was found, 0 if it was not.
    pub fn count(&self, path: &str) -> (count: u32)
        ensures
            count == hits_of(Some(self@), path@),
    {
        match self.counts.get(path) {
            Some(count) => *count,
            None => 0,
        }
    }
}

/// The count of a path in a table, 0 where there is none.
pub open spec fn hits_of(table: Option<Map<Seq<char>, u32>>, path: Seq<char>) -> u32 {
    match table {
        Some(table) if table.contains_key(path) => table[path],
        _ => 0,
    }
}

/// `table` says how often each path occurs among the rows for the words that count,
/// without the paths that occur among the rows for the words that rule out.
pub open spec fn text_table(table: Map<Seq<char>, u32>, wanted: Seq<Seq<char>>, unwanted: Seq<Seq<char>>) -> bool {
    &&& forall|path: Seq<char>| #[trigger]
        table.contains_key(path) <==> wanted.contains(path) && !unwanted.contains(path)
    &&& forall|path: Seq<char>| #[trigger] table.contains_key(path) ==> table[path] == row_count(wanted, path)
}

fn count_row(counts: &mut StringHashMap<u32>, row: &String, Ghost(rows): Ghost<Seq<Seq<char>>>)
    requires
        counts_rows(old(counts)@, rows),
    ensures
        counts_rows(final(counts)@, rows.push(row@)),
{
    let ghost before = counts@;
    let seen: u32 = match counts.get(row.as_str()) {
        Some(count) => *count,
        None => 0,
    };
    let next: u32 = if seen < MAX_COUNTED_ROWS {
        seen + 1
    } else {
        seen
    };
    counts.insert(row.clone(), next);
    proof {
        let longer = rows.push(row@);
        assert(longer.drop_last() =~= rows);
        assert forall|path: Seq<char>| #[trigger] counts@.contains_key(path) implies counts@[path]
            == row_count(longer, path) by {
            if path != row@ {
                assert(before.contains_key(path));
            }
        }
        assert forall|path: Seq<char>| #[trigger]
            counts@.contains_key(path) <==> occurrences(longer, path) > 0 by {
            assert(before.contains_key(path) <==> occurrences(rows, path) > 0);
        }
    }
}

fn count_answers(answers: &Vec<Vec<String>>) -> (counts: StringHashMap<u32>)
    ensures
        counts_rows(counts@, all_rows(answers@)),
{
    let mut counts: StringHashMap<u32> = StringHashMap::new();
    for i in 0..answers.len()
        invariant
            counts_rows(counts@, all_rows(answers@.take(i as int))),
    {
        let ghost before = all_rows(answers@.take(i as int));
        let ghost rows = texts(answers@[i as int]@);
        assert(before + rows.take(0) =~= before);
        let answer: &Vec<String> = &answers[i];
        for j in 0..answer.len()
            invariant
                rows == texts(answer@),
                counts_rows(counts@, before + rows.take(j as int)),
        {
            count_row(&mut counts, &answer[j], Ghost(before + rows.take(j as int)));
            assert((before + rows.take(j as int)).push(rows[j as int]) =~= before + rows.take(j + 1));
        }
        assert(rows.take(rows.len() as int) =~= rows);
        assert(answers@.take(i + 1).drop_last() =~= answers@.take(i as int));
    }
    assert(answers@.take(answers@.len() as int) =~= answers@);
    counts
}

fn drop_rows(counts: &mut StringHashMap<u32>, rows: &Vec<String>)
    ensures
        forall|path: Seq<char>| #[trigger]
            final(counts)@.contains_key(path) <==> old(counts)@.contains_key(path) && !texts(rows@).contains(path),
        forall|path: Seq<char>| #[trigger]
            final(counts)@.contains_key(path) ==> final(counts)@[path] == old(counts)@[path],
{
    let ghost before = counts@;
    let ghost all = texts(rows@);
    for i in 0..rows.len()
        invariant
            all == texts(rows@),
            forall|path: Seq<char>| #[trigger]
                counts@.contains_key(path) <==> before.contains_key(path) && !all.take(i as int).contains(path),
            forall|path: Seq<char>| #[trigger]
                counts@.contains_key(path) ==> counts@[path] == before[path],
    {
        let ghost current = counts@;
        counts.remove(rows[i].as_str());
        proof {
            let row = all[i as int];
            assert(all.take(i + 1) =~= all.take(i as int).push(row));
            assert forall|path: Seq<char>| #[trigger]
                counts@.contains_key(path) <==> before.contains_key(path) && !all.take(i + 1).contains(path) by {
                assert(current.contains_key(path) <==> before.contains_key(path) && !all.take(i as int).contains(path));
                lemma_push_contains(all.take(i as int), row, path);
            }
        }
    }
    assert(all.take(all.len() as int) =~= all);
}

/// A longer sequence holds the new element and what it held before.
proof fn lemma_push_contains(rows: Seq<Seq<char>>, row: Seq<char>, path: Seq<char>)
    ensures
        rows.push(row).contains(path) == (rows.contains(path) || row == path),
{
    let longer = rows.push(row);
    if rows.contains(path) {
        let k = choose|k: int| 0 <= k < rows.len() && rows[k] == path;
        assert(longer[k] == path);
    }
    if row == path {
        assert(longer[rows.len() as int] == path);
    }
    if longer.contains(path) && row != path {
        let k = choose|k: int| 0 <= k < longer.len() && longer[k] == path;
        assert(rows[k] == path);
    }
}

/// A sequence of two parts holds what either part holds.
proof fn lemma_parts_contain(left: Seq<Seq<char>>, right: Seq<Seq<char>>, path: Seq<char>)
    ensures
        (left + right).contains(path) == (left.contains(path) || right.contains(path)),
{
    let all = left + right;
    if left.contains(path) {
        let k = choose|k: int| 0 <= k < left.len() && left[k] == path;
        assert(all[k] == path);
    }
    if right.contains(path) {
        let k = choose|k: int| 0 <= k < right.len() && right[k] == path;
        assert(all[left.len() + k] == path);
    }
    if all.contains(path) {
        let k = choose|k: int| 0 <= k < all.len() && all[k] == path;
        if k < left.len() {
            assert(left[k] == path);
        } else {
            assert(right[k - left.len()] == path);
        }
    }
}

/// Each of the paths is among the others.
pub open spec fn are_all_among(paths: Seq<Seq<char>>, others: Seq<Seq<char>>) -> bool {
    forall|path: Seq<char>| #[trigger] paths.contains(path) ==> others.contains(path)
}

/// Turns the rows of the full-text index into counts by path: `wanted` holds the answer
/// for each word that counts, `unwanted` that for each word that rules a picture out.
/// There is no table where nothing is left.
pub fn fts5_search_scores(wanted: &Vec<Vec<String>>, unwanted: &Vec<Vec<String>>) -> (scores: Option<TextScores>)
    ensures
        match scores {
            Some(scores) => text_table(scores@, all_rows(wanted@), all_rows(unwanted@)) && !scores@.is_empty(),
            None => forall|path: Seq<char>| #[trigger]
                all_rows(wanted@).contains(path) ==> all_rows(unwanted@).contains(path),
        },
        scores is None ==> are_all_among(all_rows(wanted@), all_rows(unwanted@)),
{
    let mut counts: StringHashMap<u32> = count_answers(wanted);
    let ghost start = counts@;
    proof {
        assert forall|path: Seq<char>| #[trigger]
            start.contains_key(path) <==> all_rows(wanted@).contains(path) by {
            lemma_occurrences(all_rows(wanted@), path);
        }
    }
    for i in 0..unwanted.len()
        invariant
            forall|path: Seq<char>| #[trigger]
                counts@.contains_key(path) <==> start.contains_key(path) && !all_rows(
                    unwanted@.take(i as int),
                ).contains(path),
            forall|path: Seq<char>| #[trigger]
                counts@.contains_key(path) ==> counts@[path] == start[path],
    {
        let ghost current = counts@;
        drop_rows(&mut counts, &unwanted[i]);
        proof {
            let before = all_rows(unwanted@.take(i as int));
            assert(unwanted@.take(i + 1).drop_last() =~= unwanted@.take(i as int));
            assert(all_rows(unwanted@.take(i + 1)) == before + texts(unwanted@[i as int]@));
            assert forall|path: Seq<char>| #[trigger]
                counts@.contains_key(path) <==> start.contains_key(path) && !all_rows(
                    unwanted@.take(i + 1),
                ).contains(path) by {
                assert(current.contains_key(path) <==> start.contains_key(path) && !before.contains(path));
                lemma_parts_contain(before, texts(unwanted@[i as int]@), path);
            }
            assert forall|path: Seq<char>| #[trigger] counts@.contains_key(path) implies counts@[path]
                == start[path] by {
                assert(current.contains_key(path));
            }
        }
    }
    assert(unwanted@.take(unwanted@.len() as int) =~= unwanted@);
    proof {
        assert(text_table(counts@, all_rows(wanted@), all_rows(unwanted@)));
    }
    if counts.is_empty() {
        assert forall|path: Seq<char>| #[trigger] all_rows(wanted@).contains(path) implies all_rows(
            unwanted@,
        ).contains(path) by {
            assert(!counts@.contains_key(path));
        }
        None
    } else {
        Some(TextScores { counts })
    }
}

// ---------------------------------------------------------------------------
// Rows of the vector index
// ---------------------------------------------------------------------------

/// How many neighbours the vector index is asked for: the given number, or as many as
/// there are rows where all are wanted; at least one.
pub open spec fn neighbour_limit(limit: usize, rows: Option<i64>) -> int {
    let wanted = if limit == usize::MAX {
        match rows {
            Some(rows) if 0 <= rows <= usize::MAX => rows as int,
            _ => 1,
        }
    } else {
        limit as int
    };
    if wanted < 1 {
        1
    } else {
        wanted
    }
}

/// How many neighbours the vector index is asked for; `rows` is the number of its rows,
/// if it could be found out.
pub fn nearest_limit(limit: usize, rows: Option<i64>) -> (wanted: usize)
    ensures
        wanted == neighbour_limit(limit, rows),
{
    let wanted: usize = if limit == usize::MAX {
        match rows {
            Some(rows) => {
                if rows >= 0 && rows as u64 <= usize::MAX as u64 {
                    rows as usize
                } else {
                    1
                }
            },
            None => 1,
        }
    } else {
        limit
    };
    if wanted < 1 {
        1
    } else {
        wanted
    }
}

/// A row of the vector index: the path that belongs to it, if there is one, and its score.
pub struct VectorRow {
    pub path: Option<String>,
    pub score: Score,
}

/// The greater of two scores; a number where the other one is none.
pub open spec fn greater_score(left: Score, right: Score) -> Score {
    if !left.is_number() {
        right
    } else if !right.is_number() {
        left
    } else if left.key >= right.key {
        left
    } else {
        right
    }
}

/// The best score of each path among rows; rows without a path do not count.
pub open spec fn best_scores(rows: Seq<VectorRow>) -> Map<Seq<char>, Score>
    decreases rows.len(),
{
    if rows.len() == 0 {
        Map::empty()
    } else {
        let before = best_scores(rows.drop_last());
        match optional_text(rows.last().path) {
            Some(path) if path.len() > 0 => if before.contains_key(path) {
                before.insert(path, greater_score(before[path], rows.last().score))
            } else {
                before.insert(path, rows.last().score)
            },
            _ => before,
        }
    }
}

/// The best score of each path.
pub struct VectorScores {
    best: StringHashMap<Score>,
}

impl View for VectorScores {
    type V = Map<Seq<char>, Score>;

    closed spec fn view(&self) -> Map<Seq<char>, Score> {
        self.best@
    }
}

/// The score of a path in a table.
pub open spec fn semantic_of(table: Option<Map<Seq<char>, Score>>, path: Seq<char>) -> Option<Score> {
    match table {
        Some(table) if table.contains_key(path) => Some(table[path]),
        _ => None,
    }
}

impl VectorScores {
    /// The best score of a path.
    pub fn score(&self, path: &str) -> (score: Option<Score>)
        ensures
            score == semantic_of(Some(self@), path@),
    {
        match self.best.get(path) {
            Some(score) => Some(*score),
            None => None,
        }
    }
}

fn greater(left: Score, right: Score) -> (result: Score)
    ensures
        result == greater_score(left, right),
{
    if !left.is_at_least(left) {
        right
    } else if !right.is_at_least(right) {
        left
    } else if left.key >= right.key {
        left
    } else {
        right
    }
}

/// Turns the rows of the vector index, those of all search vectors, into the best score
/// of each path. There is no table where no row has a path.
pub fn sqlite_vec_search_scores(rows: &Vec<VectorRow>) -> (scores: Option<VectorScores>)
    ensures
        match scores {
            Some(scores) => scores@ == best_scores(rows@) && !scores@.is_empty(),
            None => best_scores(rows@).is_empty(),
        },
{
    let mut best: StringHashMap<Score> = StringHashMap::new();
    for i in 0..rows.len()
        invariant
            best@ == best_scores(rows@.take(i as int)),
    {
        assert(rows@.take(i + 1).drop_last() =~= rows@.take(i as int));
        assert(rows@.take(i + 1).last() == rows@[i as int]);
        match &rows[i].path {
            Some(path) => {
                if chars_of(path.as_str()).len() > 0 {
                    let score: Score = match best.get(path.as_str()) {
                        Some(score) => greater(*score, rows[i].score),
                        None => rows[i].score,
                    };
                    best.insert(path.clone(), score);
                }
            },
            None => {},
        }
    }
    assert(rows@.take(rows@.len() as int) =~= rows@);
    if best.is_empty() {
        None
    } else {
        Some(VectorScores { best })
    }
}

/// Where all scores are numbers, the table holds of each path a score that one of its
/// rows has and that no row of it exceeds.
pub proof fn law_best_score_is_greatest(rows: Seq<VectorRow>, at: int)
    requires
        0 <= at < rows.len(),
        rows[at].path is Some,
        rows[at].path->0@.len() > 0,
        forall|k: int| 0 <= k < rows.len() ==> (#[trigger] rows[k]).score.is_number(),
    ensures
        best_scores(rows).contains_key(rows[at].path->0@),
        best_scores(rows)[rows[at].path->0@].key >= rows[at].score.key,
        exists|k: int|
            0 <= k < rows.len() && optional_text((#[trigger] rows[k]).path) == Some(rows[at].path->0@)
                && rows[k].score == best_scores(rows)[rows[at].path->0@],
{
    lemma_best_score(rows, rows[at].path->0@);
}

/// The score of a path in the table is that of one of its rows, and none exceeds it.
proof fn lemma_best_score(rows: Seq<VectorRow>, path: Seq<char>)
    requires
        path.len() > 0,
        forall|k: int| 0 <= k < rows.len() ==> (#[trigger] rows[k]).score.is_number(),
    ensures
        forall|k: int|
            0 <= k < rows.len() && optional_text((#[trigger] rows[k]).path) == Some(path)
                ==> best_scores(rows).contains_key(path) && best_scores(rows)[path].key >= rows[k].score.key,
        best_scores(rows).contains_key(path) ==> exists|k: int|
            0 <= k < rows.len() && optional_text((#[trigger] rows[k]).path) == Some(path) && rows[k].score
                == best_scores(rows)[path],
    decreases rows.len(),
{
    if rows.len() > 0 {
        let before = rows.drop_last();
        assert forall|k: int| 0 <= k < before.len() implies (#[trigger] before[k]).score.is_number() by {
            assert(rows[k].score.is_number());
        }
        lemma_best_score(before, path);
        let last = rows[rows.len() - 1];
        assert(last.score.is_number());
        if best_scores(before).contains_key(path) {
            let k = choose|k: int|
                0 <= k < before.len() && optional_text((#[trigger] before[k]).path) == Some(path)
                    && before[k].score == best_scores(before)[path];
            assert(rows[k] == before[k]);
            assert(best_scores(before)[path].is_number());
        }
        assert forall|k: int|
            0 <= k < rows.len() && optional_text((#[trigger] rows[k]).path) == Some(path) implies best_scores(
            rows,
        ).contains_key(path) && best_scores(rows)[path].key >= rows[k].score.key by {
            if k < before.len() {
                assert(before[k] == rows[k]);
            }
        }
    }
}

// ---------------------------------------------------------------------------
// Scoring a record
// ---------------------------------------------------------------------------

/// The text of a record that words are looked for in.
pub open spec fn searched_text(record: ImageText) -> Seq<char> {
    lowercase(record.filename + " "@ + record.ocr_text + " "@ + joined(record.people, " "@))
}

/// A word stands in a text, or does so once the blanks are taken out of both.
pub open spec fn finds_word(text: Seq<char>, word: Seq<char>) -> bool {
    holds_text(text, word) || holds_text(compacted(text), compacted(word))
}

/// How many of the words stand in a text.
pub open spec fn words_found(text: Seq<char>, words: Seq<Seq<char>>) -> nat
    decreases words.len(),
{
    if words.len() == 0 {
        0
    } else {
        words_found(text, words.drop_last()) + if finds_word(text, words.last()) {
            1nat
        } else {
            0nat
        }
    }
}

/// One of the words stands in a text.
pub open spec fn any_word_found(text: Seq<char>, words: Seq<Seq<char>>) -> bool {
    exists|k: int| 0 <= k < words.len() && finds_word(text, #[trigger] words[k])
}

/// How well a record answers a query: how often the full-text index found it, how many
/// of the words that count stand in its text, whether no word that rules it out does,
/// and its score by the vector index.
#[derive(Debug, Clone, Copy)]
pub struct ScoredCandidate {
    pub index: usize,
    pub hits: u32,
    pub matched: usize,
    pub total: usize,
    pub lexical_allowed: bool,
    pub semantic_score: Option<Score>,
}

impl ScoredCandidate {
    /// A word that counts was found, and none that rules out.
    pub open spec fn lexical_match(self) -> bool {
        self.lexical_allowed && (self.hits > 0 || self.matched > 0)
    }

    /// Whether a word that counts was found, and none that rules out.
    pub fn is_lexical_match(&self) -> (result: bool)
        ensures
            result == self.lexical_match(),
    {
        self.lexical_allowed && (self.hits > 0 || self.matched > 0)
    }
}

/// How well the record at `index` answers a plan that admits it.
pub open spec fn candidate_of(
    index: int,
    record: ImageText,
    plan: PlanText,
    counts: Option<Map<Seq<char>, u32>>,
    scores: Option<Map<Seq<char>, Score>>,
) -> ScoredCandidate {
    let text = searched_text(record);
    ScoredCandidate {
        index: index as usize,
        hits: hits_of(counts, record.path),
        matched: words_found(text, plan.should + plan.must) as usize,
        total: (plan.should.len() + plan.must.len()) as usize,
        lexical_allowed: !any_word_found(text, plan.must_not),
        semantic_score: semantic_of(scores, record.path),
    }
}

/// The words of a plan are few enough to be counted.
pub open spec fn countable(plan: PlanText) -> bool {
    plan.should.len() + plan.must.len() <= usize::MAX
}

/// What an optional table holds of counts.
pub open spec fn count_table(scores: Option<TextScores>) -> Option<Map<Seq<char>, u32>> {
    match scores {
        Some(scores) => Some(scores@),
        None => None,
    }
}

/// What an optional table holds of scores.
pub open spec fn score_table(scores: Option<VectorScores>) -> Option<Map<Seq<char>, Score>> {
    match scores {
        Some(scores) => Some(scores@),
        None => None,
    }
}

fn text_to_search(record: &ImageRecord) -> (text: Vec<char>)
    ensures
        text@ == searched_text(record@),
{
    let blank: Vec<char> = chars_of(" ");
    let mut chars: Vec<char> = chars_of(record.filename.as_str());
    append_chars(&mut chars, &blank);
    append_chars(&mut chars, &chars_of(record.ocr_text.as_str()));
    append_chars(&mut chars, &blank);
    append_chars(&mut chars, &chars_of(join(&record.people, " ").as_str()));
    chars_of(to_lowercase(string_of(&chars).as_str()).as_str())
}

fn is_word_found(text: &Vec<char>, compact_text: &Vec<char>, word: &String) -> (found: bool)
    requires
        compact_text@ == compacted(text@),
    ensures
        found == finds_word(text@, word@),
{
    let word: Vec<char> = chars_of(word.as_str());
    contains(text, &word) || contains(compact_text, &compact(&word))
}

fn count_found(text: &Vec<char>, compact_text: &Vec<char>, words: &Vec<String>) -> (count: usize)
    requires
        compact_text@ == compacted(text@),
    ensures
        count == words_found(text@, texts(words@)),
        count <= words.len(),
{
    let ghost all = texts(words@);
    let mut count: usize = 0;
    for i in 0..words.len()
        invariant
            compact_text@ == compacted(text@),
            all == texts(words@),
            count == words_found(text@, all.take(i as int)),
            count <= i,
    {
        assert(all.take(i + 1).drop_last() =~= all.take(i as int));
        assert(all.take(i + 1).last() == words@[i as int]@);
        if is_word_found(text, compact_text, &words[i]) {
            count = count + 1;
        }
    }
    assert(all.take(all.len() as int) =~= all);
    count
}

/// The words found are those found of either part.
proof fn lemma_words_found_in_parts(text: Seq<char>, left: Seq<Seq<char>>, right: Seq<Seq<char>>)
    ensures
        words_found(text, left + right) == words_found(text, left) + words_found(text, right),
    decreases right.len(),
{
    if right.len() == 0 {
        assert(left + right =~= left);
    } else {
        lemma_words_found_in_parts(text, left, right.drop_last());
        assert((left + right).drop_last() =~= left + right.drop_last());
        assert((left + right).last() == right.last());
    }
}

fn is_any_found(text: &Vec<char>, compact_text: &Vec<char>, words: &Vec<String>) -> (found: bool)
    requires
        compact_text@ == compacted(text@),
    ensures
        found == any_word_found(text@, texts(words@)),
{
    for i in 0..words.len()
        invariant
            compact_text@ == compacted(text@),
            forall|k: int| 0 <= k < i ==> !finds_word(text@, #[trigger] texts(words@)[k]),
    {
        assert(texts(words@)[i as int] == words@[i as int]@);
        if is_word_found(text, compact_text, &words[i]) {
            return true;
        }
    }
    false
}

/// How well a record whose path has the given extension answers a plan, if the plan
/// admits it.
pub fn judge_record(
    index: usize,
    record: &ImageRecord,
    plan: &QueryPlan,
    extension: &Option<String>,
    text_scores: &Option<TextScores>,
    vector_scores: &Option<VectorScores>,
) -> (candidate: Option<ScoredCandidate>)
    requires
        countable(plan@),
    ensures
        candidate == if admitted(record@, plan@, optional_text(*extension)) {
            Some(
                candidate_of(
                    index as int,
                    record@,
                    plan@,
                    count_table(*text_scores),
                    score_table(*vector_scores),
                ),
            )
        } else {
            None
        },
{
    if !is_admitted(record, plan, extension) {
        return None;
    }
    let text: Vec<char> = text_to_search(record);
    let compact_text: Vec<char> = compact(&text);
    let should: usize = count_found(&text, &compact_text, &plan.text.should);
    let must: usize = count_found(&text, &compact_text, &plan.text.must);
    proof {
        lemma_words_found_in_parts(text@, plan@.should, plan@.must);
    }
    let excluded: bool = is_any_found(&text, &compact_text, &plan.text.must_not);
    let hits: u32 = match text_scores {
        Some(scores) => scores.count(record.path.as_str()),
        None => 0,
    };
    let semantic_score: Option<Score> = match vector_scores {
        Some(scores) => scores.score(record.path.as_str()),
        None => None,
    };
    Some(
        ScoredCandidate {
            index,
            hits,
            matched: should + must,
            total: plan.text.should.len() + plan.text.must.len(),
            lexical_allowed: !excluded,
            semantic_score,
        },
    )
}

/// How well a record answers a plan, if the plan admits it.
pub fn score_record(
    index: usize,
    record: &ImageRecord,
    plan: &QueryPlan,
    text_scores: &Option<TextScores>,
    vector_scores: &Option<VectorScores>,
) -> (candidate: Option<ScoredCandidate>)
    requires
        countable(plan@),
    ensures
        exists|extension: Option<Seq<char>>|
            #![trigger may_have_extension(record@.path, extension)]
            may_have_extension(record@.path, extension) && candidate == if admitted(record@, plan@, extension) {
                Some(
                    candidate_of(
                        index as int,
                        record@,
                        plan@,
                        count_table(*text_scores),
                        score_table(*vector_scores),
                    ),
                )
            } else {
                None
            },
{
    let extension: Option<String> = path_extension(record.path.as_str());
    assert(may_have_extension(record@.path, optional_text(extension)));
    judge_record(index, record, plan, &extension, text_scores, vector_scores)
}

// ---------------------------------------------------------------------------
// Scoring all records
// ---------------------------------------------------------------------------

/// The candidates among records whose paths have the given extensions, in the order of
/// the records.
pub open spec fn candidates_of(
    records: Seq<ImageText>,
    extensions: Seq<Option<Seq<char>>>,
    plan: PlanText,
    counts: Option<Map<Seq<char>, u32>>,
    scores: Option<Map<Seq<char>, Score>>,
) -> Seq<ScoredCandidate>
    decreases records.len(),
{
    if records.len() == 0 {
        Seq::empty()
    } else {
        let before = candidates_of(records.drop_last(), extensions, plan, counts, scores);
        let index = records.len() - 1;
        if admitted(records.last(), plan, extensions[index]) {
            before.push(candidate_of(index, records.last(), plan, counts, scores))
        } else {
            before
        }
    }
}

/// Each path may have the extension that is given for it.
pub open spec fn may_have_extensions(records: Seq<ImageText>, extensions: Seq<Option<Seq<char>>>) -> bool {
    &&& extensions.len() == records.len()
    &&& forall|k: int| 0 <= k < records.len() ==> may_have_extension((#[trigger] records[k]).path, extensions[k])
}

/// The texts of optional strings.
pub open spec fn optional_texts(strings: Seq<Option<String>>) -> Seq<Option<Seq<char>>> {
    strings.map_values(|string: Option<String>| optional_text(string))
}

/// The candidates among records whose paths have the given extensions.
pub fn judge_records(
    records: &Vec<ImageRecord>,
    extensions: &Vec<Option<String>>,
    plan: &QueryPlan,
    text_scores: &Option<TextScores>,
    vector_scores: &Option<VectorScores>,
) -> (candidates: Vec<ScoredCandidate>)
    requires
        countable(plan@),
        extensions@.len() == records@.len(),
    ensures
        candidates@ == candidates_of(
            images(records@),
            optional_texts(extensions@),
            plan@,
            count_table(*text_scores),
            score_table(*vector_scores),
        ),
{
    let ghost all = images(records@);
    let mut candidates: Vec<ScoredCandidate> = Vec::new();
    for i in 0..records.len()
        invariant
            countable(plan@),
            extensions@.len() == records@.len(),
            all == images(records@),
            candidates@ == candidates_of(
                all.take(i as int),
                optional_texts(extensions@),
                plan@,
                count_table(*text_scores),
                score_table(*vector_scores),
            ),
    {
        assert(all.take(i + 1).drop_last() =~= all.take(i as int));
        assert(all.take(i + 1).last() == records@[i as int]@);
        assert(optional_texts(extensions@)[i as int] == optional_text(extensions@[i as int]));
        match judge_record(i, &records[i], plan, &extensions[i], text_scores, vector_scores) {
            Some(candidate) => {
                candidates.push(candidate);
            },
            None => {},
        }
    }
    assert(all.take(all.len() as int) =~= all);
    candidates
}

/// The candidates among records.
pub fn score_records(
    records: &Vec<ImageRecord>,
    plan: &QueryPlan,
    text_scores: &Option<TextScores>,
    vector_scores: &Option<VectorScores>,
) -> (candidates: Vec<ScoredCandidate>)
    requires
        countable(plan@),
    ensures
        exists|extensions: Seq<Option<Seq<char>>>| #[trigger]
            may_have_extensions(images(records@), extensions) && candidates@ == candidates_of(
                images(records@),
                extensions,
                plan@,
                count_table(*text_scores),
                score_table(*vector_scores),
            ),
{
    let mut extensions: Vec<Option<String>> = Vec::new();
    for i in 0..records.len()
        invariant
            extensions@.len() == i,
            forall|k: int|
                0 <= k < i ==> may_have_extension((#[trigger] records@[k])@.path, optional_text(extensions@[k])),
    {
        extensions.push(path_extension(records[i].path.as_str()));
    }
    assert(may_have_extensions(images(records@), optional_texts(extensions@))) by {
        assert forall|k: int| 0 <= k < records@.len() implies may_have_extension(
            (#[trigger] images(records@)[k]).path,
            optional_texts(extensions@)[k],
        ) by {
            assert(images(records@)[k] == records@[k]@);
        }
    }
    judge_records(records, &extensions, plan, text_scores, vector_scores)
}

/// Each candidate stands for a record that the plan admits, and there are no others.
pub proof fn law_candidates_are_admitted(
    records: Seq<ImageText>,
    extensions: Seq<Option<Seq<char>>>,
    plan: PlanText,
    counts: Option<Map<Seq<char>, u32>>,
    scores: Option<Map<Seq<char>, Score>>,
)
    requires
        records.len() <= usize::MAX,
    ensures
        forall|k: int|
            0 <= k < candidates_of(records, extensions, plan, counts, scores).len() ==> ({
                let candidate = #[trigger] candidates_of(records, extensions, plan, counts, scores)[k];
                &&& candidate.index < records.len()
                &&& admitted(records[candidate.index as int], plan, extensions[candidate.index as int])
                &&& candidate == candidate_of(
                    candidate.index as int,
                    records[candidate.index as int],
                    plan,
                    counts,
                    scores,
                )
            }),
        forall|i: int|
            0 <= i < records.len() && admitted(#[trigger] records[i], plan, extensions[i]) ==> candidates_of(
                records,
                extensions,
                plan,
                counts,
                scores,
            ).contains(candidate_of(i, records[i], plan, counts, scores)),
    decreases records.len(),
{
    if records.len() > 0 {
        let before = candidates_of(records.drop_last(), extensions, plan, counts, scores);
        let after = candidates_of(records, extensions, plan, counts, scores);
        law_candidates_are_admitted(records.drop_last(), extensions, plan, counts, scores);
        assert forall|k: int| 0 <= k < after.len() implies ({
            let candidate = #[trigger] after[k];
            &&& candidate.index < records.len()
            &&& admitted(records[candidate.index as int], plan, extensions[candidate.index as int])
            &&& candidate == candidate_of(
                candidate.index as int,
                records[candidate.index as int],
                plan,
                counts,
                scores,
            )
        }) by {
            if k < before.len() {
                assert(after[k] == before[k]);
            }
        }
        assert forall|i: int|
            0 <= i < records.len() && admitted(#[trigger] records[i], plan, extensions[i]) implies after.contains(
            candidate_of(i, records[i], plan, counts, scores),
        ) by {
            let wanted = candidate_of(i, records[i], plan, counts, scores);
            if i < records.len() - 1 {
                assert(records.drop_last()[i] == records[i]);
                let k = choose|k: int| 0 <= k < before.len() && before[k] == wanted;
                assert(after[k] == wanted);
            } else {
                assert(after[before.len() as int] == wanted);
            }
        }
    }
}

// ---------------------------------------------------------------------------
// Selecting
// ---------------------------------------------------------------------------

/// The scores that candidates have by the vector index.
pub open spec fn semantic_scores(candidates: Seq<ScoredCandidate>) -> Seq<Score>
    decreases candidates.len(),
{
    if candidates.len() == 0 {
        Seq::empty()
    } else {
        match candidates.last().semantic_score {
            Some(score) => semantic_scores(candidates.drop_last()).push(score),
            None => semantic_scores(candidates.drop_last()),
        }
    }
}

/// `best` is one of the scores, and none has a higher key; it is absent where there are
/// none.
pub open spec fn is_greatest(best: Option<Score>, scores: Seq<Score>) -> bool {
    match best {
        Some(best) => scores.contains(best) && forall|k: int|
            0 <= k < scores.len() ==> (#[trigger] scores[k]).key <= best.key,
        None => scores.len() == 0,
    }
}

/// The greatest score that a candidate has by the vector index.
pub fn best_semantic_score(candidates: &Vec<ScoredCandidate>) -> (best: Option<Score>)
    ensures
        is_greatest(best, semantic_scores(candidates@)),
{
    let mut best: Option<Score> = None;
    for i in 0..candidates.len()
        invariant
            is_greatest(best, semantic_scores(candidates@.take(i as int))),
    {
        let ghost before = semantic_scores(candidates@.take(i as int));
        assert(candidates@.take(i + 1).drop_last() =~= candidates@.take(i as int));
        assert(candidates@.take(i + 1).last() == candidates@[i as int]);
        match candidates[i].semantic_score {
            Some(score) => {
                let higher: bool = match best {
                    Some(best) => score.key >= best.key,
                    None => true,
                };
                proof {
                    let after = before.push(score);
                    assert(after[before.len() as int] == score);
                    if !higher {
                        let k = choose|k: int| 0 <= k < before.len() && before[k] == best->0;
                        assert(after[k] == best->0);
                    }
                    assert forall|k: int| 0 <= k < after.len() && k < before.len() implies #[trigger] after[k]
                        == before[k] by {}
                }
                if higher {
                    best = Some(score);
                }
            },
            None => {},
        }
    }
    assert(candidates@.take(candidates@.len() as int) =~= candidates@);
    best
}

/// The plan has words, or a text, that a picture is to be found by.
pub open spec fn has_positive_query(plan: PlanText) -> bool {
    plan.semantic_query.len() > 0 || plan.should.len() > 0 || plan.must.len() > 0
}

fn asks_for_words(plan: &QueryPlan) -> (asked: bool)
    ensures
        asked == has_positive_query(plan@),
{
    chars_of(plan.semantic_query.as_str()).len() > 0 || plan.text.should.len() > 0 || plan.text.must.len() > 0
}

/// A candidate is found: no word rules it out, and either nothing is asked for that it
/// could be found by, or a word was found, or its score reaches the threshold of a
/// search by vectors.
pub open spec fn selected(
    candidate: ScoredCandidate,
    plan: PlanText,
    semantic_search: bool,
    threshold: Score,
) -> bool {
    candidate.lexical_allowed && (!has_positive_query(plan) || candidate.lexical_match() || (semantic_search && (
    candidate.semantic_score matches Some(score) && score.at_least(threshold))))
}

/// The candidates that are found, in their order.
pub open spec fn selection(
    candidates: Seq<ScoredCandidate>,
    plan: PlanText,
    semantic_search: bool,
    threshold: Score,
) -> Seq<ScoredCandidate> {
    candidates.filter(|candidate: ScoredCandidate| selected(candidate, plan, semantic_search, threshold))
}

/// Keeps the candidates that are found; `semantic_search` tells whether the vector index
/// answered at all.
pub fn select_matches(
    candidates: &Vec<ScoredCandidate>,
    plan: &QueryPlan,
    semantic_search: bool,
    threshold: Score,
) -> (found: Vec<ScoredCandidate>)
    ensures
        found@ == selection(candidates@, plan@, semantic_search, threshold),
{
    let positive: bool = asks_for_words(plan);
    let ghost keep = |candidate: ScoredCandidate| selected(candidate, plan@, semantic_search, threshold);
    let mut found: Vec<ScoredCandidate> = Vec::new();
    assert(candidates@.take(0).filter(keep) =~= found@) by {
        reveal(Seq::filter);
    }
    for i in 0..candidates.len()
        invariant
            positive == has_positive_query(plan@),
            keep == (|candidate: ScoredCandidate| selected(candidate, plan@, semantic_search, threshold)),
            found@ == candidates@.take(i as int).filter(keep),
    {
        proof {
            reveal(Seq::filter);
            assert(candidates@.take(i + 1).drop_last() =~= candidates@.take(i as int));
            assert(candidates@.take(i + 1).last() == candidates@[i as int]);
        }
        let candidate: ScoredCandidate = candidates[i];
        let semantic_match: bool = match candidate.semantic_score {
            Some(score) => semantic_search && score.is_at_least(threshold),
            None => false,
        };
        if candidate.lexical_allowed && (!positive || candidate.is_lexical_match() || semantic_match) {
            found.push(candidate);
        }
    }
    assert(candidates@.take(candidates@.len() as int) =~= candidates@);
    found
}

/// No record in whose text a word stands that rules it out is ever found.
pub proof fn law_excluded_words_are_never_found(
    index: int,
    record: ImageText,
    plan: PlanText,
    counts: Option<Map<Seq<char>, u32>>,
    scores: Option<Map<Seq<char>, Score>>,
    semantic_search: bool,
    threshold: Score,
    word: int,
)
    requires
        0 <= word < plan.must_not.len(),
        finds_word(searched_text(record), plan.must_not[word]),
    ensures
        !selected(candidate_of(index, record, plan, counts, scores), plan, semantic_search, threshold),
{
}

/// A record in whose text a word stands that counts is found whatever the vector index
/// says, unless a word rules it out.
pub proof fn law_word_hits_are_kept(
    index: int,
    record: ImageText,
    plan: PlanText,
    counts: Option<Map<Seq<char>, u32>>,
    scores: Option<Map<Seq<char>, Score>>,
    semantic_search: bool,
    threshold: Score,
    word: int,
)
    requires
        countable(plan),
        0 <= word < (plan.should + plan.must).len(),
        finds_word(searched_text(record), (plan.should + plan.must)[word]),
        !any_word_found(searched_text(record), plan.must_not),
    ensures
        selected(candidate_of(index, record, plan, counts, scores), plan, semantic_search, threshold),
{
    lemma_word_is_counted(searched_text(record), plan.should + plan.must, word);
}

/// A word that is found is counted, and no more words are found than there are.
proof fn lemma_word_is_counted(text: Seq<char>, words: Seq<Seq<char>>, at: int)
    ensures
        words_found(text, words) <= words.len(),
        0 <= at < words.len() && finds_word(text, words[at]) ==> words_found(text, words) > 0,
    decreases words.len(),
{
    if words.len() > 0 {
        lemma_word_is_counted(text, words.drop_last(), at);
    }
}

// ---------------------------------------------------------------------------
// Ranking
// ---------------------------------------------------------------------------

/// A record that was found, by its place among the records, and its score.
#[derive(Debug, Clone, Copy, PartialEq, Eq, Structural)]
pub struct SearchResultRef {
    pub index: usize,
    pub score: Score,
}

/// What a result is ranked by: its score, its file name and its place.
pub struct ResultRank {
    pub key: int,
    pub name: Seq<char>,
    pub index: int,
}

/// A result comes no later than another: it has the higher score, or the same score and
/// the file name that comes first, or the same of both and no higher place.
pub open spec fn rank_at_most(left: ResultRank, right: ResultRank) -> bool {
    ||| left.key > right.key
    ||| left.key == right.key && text_before(left.name, right.name)
    ||| left.key == right.key && left.name == right.name && left.index <= right.index
}

/// What a result is ranked by.
pub open spec fn rank_of(records: Seq<ImageText>, result: SearchResultRef) -> ResultRank {
    ResultRank {
        key: result.score.key as int,
        name: records[result.index as int].filename,
        index: result.index as int,
    }
}

/// A result comes no later than another.
pub open spec fn comes_first(records: Seq<ImageText>, left: SearchResultRef, right: SearchResultRef) -> bool {
    rank_at_most(rank_of(records, left), rank_of(records, right))
}

/// Of two results one comes no later than the other, and both do only for the same one.
proof fn lemma_rank_total(left: ResultRank, right: ResultRank)
    ensures
        rank_at_most(left, right) || rank_at_most(right, left),
        rank_at_most(left, right) && rank_at_most(right, left) ==> left == right,
{
    lemma_text_order_total(left.name, right.name);
}

/// The order of results is transitive.
proof fn lemma_rank_transitive(first: ResultRank, second: ResultRank, third: ResultRank)
    requires
        rank_at_most(first, second),
        rank_at_most(second, third),
    ensures
        rank_at_most(first, third),
{
    if text_before(first.name, second.name) && text_before(second.name, third.name) {
        lemma_text_order_transitive(first.name, second.name, third.name);
    }
}

/// `order` holds each of the numbers below `count` once.
pub open spec fn is_order_of(order: Seq<usize>, count: nat) -> bool {
    &&& order.len() == count
    &&& order.no_duplicates()
    &&& forall|i: int| 0 <= i < order.len() ==> #[trigger] order[i] < count
}

/// Every one of the places stands in an order of them.
pub proof fn lemma_order_is_complete(order: Seq<usize>, count: nat, place: usize)
    requires
        is_order_of(order, count),
        place < count,
    ensures
        order.contains(place),
{
    let places = order.map_values(|at: usize| at as int);
    assert(places.no_duplicates());
    places.unique_seq_to_set();
    lemma_int_range(0, count as int);
    assert forall|at: int| #[trigger] places.to_set().contains(at) implies set_int_range(0, count as int).contains(at) by {
        let k = choose|k: int| 0 <= k < places.len() && places[k] == at;
        assert(order[k] < count);
    }
    lemma_set_subset_finite(set_int_range(0, count as int), places.to_set());
    lemma_subset_equality(places.to_set(), set_int_range(0, count as int));
    assert(places.to_set().contains(place as int));
    let k = choose|k: int| 0 <= k < places.len() && places[k] == place as int;
    assert(order[k] == place);
}

/// The elements of `items` in the given order.
pub open spec fn in_order<T>(items: Seq<T>, order: Seq<usize>) -> Seq<T> {
    order.map_values(|at: usize| items[at as int])
}

/// `ranked` holds the results in rank, each of them.
pub open spec fn ranks_results(
    records: Seq<ImageText>,
    results: Seq<SearchResultRef>,
    ranked: Seq<SearchResultRef>,
) -> bool {
    &&& exists|order: Seq<usize>| #[trigger] is_order_of(order, results.len()) && ranked == in_order(results, order)
    &&& forall|i: int, j: int|
        0 <= i < j < ranked.len() ==> comes_first(records, #[trigger] ranked[i], #[trigger] ranked[j])
}

/// A result with what it is ranked by.
struct RankedResult {
    score: Score,
    filename: Vec<char>,
    index: usize,
}

impl RankedResult {
    spec fn rank(self) -> ResultRank {
        ResultRank { key: self.score.key as int, name: self.filename@, index: self.index as int }
    }
}

impl Ranked for RankedResult {
    closed spec fn at_most(self, other: Self) -> bool {
        rank_at_most(self.rank(), other.rank())
    }

    proof fn total(left: Self, right: Self) {
        lemma_rank_total(left.rank(), right.rank());
    }

    proof fn transitive(first: Self, second: Self, third: Self) {
        lemma_rank_transitive(first.rank(), second.rank(), third.rank());
    }

    fn ranks_at_most(&self, other: &Self) -> (result: bool) {
        if self.score.key != other.score.key {
            return self.score.key > other.score.key;
        }
        proof {
            lemma_text_order_total(self.filename@, other.filename@);
        }
        comes_before(&self.filename, &other.filename) || (!comes_before(&other.filename, &self.filename) && self.index
            <= other.index)
    }
}

/// Ranks the results and keeps the first ones, as many as the limit allows.
pub fn rank_matches(
    records: &Vec<ImageRecord>,
    results: &Vec<SearchResultRef>,
    limit: Option<usize>,
) -> (ranked: Vec<SearchResultRef>)
    requires
        forall|k: int| 0 <= k < results@.len() ==> (#[trigger] results@[k]).index < records@.len(),
    ensures
        exists|all: Seq<SearchResultRef>| #[trigger]
            ranks_results(images(records@), results@, all) && ranked@ == (match limit {
                Some(limit) if limit < all.len() => all.take(limit as int),
                _ => all,
            }),
        forall|k: int| 0 <= k < ranked@.len() ==> (#[trigger] ranked@[k]).index < records@.len(),
{
    let mut keys: Vec<RankedResult> = Vec::new();
    for i in 0..results.len()
        invariant
            forall|k: int| 0 <= k < results@.len() ==> (#[trigger] results@[k]).index < records@.len(),
            keys@.len() == i,
            forall|k: int|
                0 <= k < i ==> (#[trigger] keys@[k]).score == results@[k].score && keys@[k].index
                    == results@[k].index && keys@[k].filename@ == images(
                    records@,
                )[results@[k].index as int].filename,
    {
        let result: SearchResultRef = results[i];
        assert(images(records@)[result.index as int] == records@[result.index as int]@);
        keys.push(
            RankedResult {
                score: result.score,
                filename: chars_of(records[result.index].filename.as_str()),
                index: result.index,
            },
        );
    }
    let order: Vec<usize> = rank(&keys);
    let ghost all = in_order(results@, order@);
    proof {
        law_ranking_repeats_nothing(keys@, order@);
        assert(is_order_of(order@, results@.len()));
        assert forall|i: int, j: int| 0 <= i < j < all.len() implies comes_first(
            images(records@),
            #[trigger] all[i],
            #[trigger] all[j],
        ) by {
            assert(listed_before(keys@, order@[i] as int, order@[j] as int));
            assert(keys@[order@[i] as int].at_most(keys@[order@[j] as int]));
        }
        assert(ranks_results(images(records@), results@, all));
    }
    let count: usize = match limit {
        Some(limit) => if limit < order.len() {
            limit
        } else {
            order.len()
        },
        None => order.len(),
    };
    let mut ranked: Vec<SearchResultRef> = Vec::new();
    for i in 0..count
        invariant
            count <= order@.len(),
            all == in_order(results@, order@),
            is_order_of(order@, results@.len()),
            forall|k: int| 0 <= k < results@.len() ==> (#[trigger] results@[k]).index < records@.len(),
            ranked@ == all.take(i as int),
            forall|k: int| 0 <= k < i ==> (#[trigger] ranked@[k]).index < records@.len(),
    {
        ranked.push(results[order[i]]);
        assert(all.take(i + 1) =~= all.take(i as int).push(all[i as int]));
    }
    assert(all.take(all.len() as int) =~= all);
    ranked
}

/// There is only one way to rank results.
pub proof fn law_ranked_results_are_unique(
    records: Seq<ImageText>,
    left: Seq<SearchResultRef>,
    right: Seq<SearchResultRef>,
)
    requires
        left.to_multiset() == right.to_multiset(),
        forall|i: int, j: int|
            0 <= i < j < left.len() ==> comes_first(records, #[trigger] left[i], #[trigger] left[j]),
        forall|i: int, j: int|
            0 <= i < j < right.len() ==> comes_first(records, #[trigger] right[i], #[trigger] right[j]),
    ensures
        left == right,
{
    let leq = |a: SearchResultRef, b: SearchResultRef| comes_first(records, a, b);
    assert forall|a: SearchResultRef, b: SearchResultRef| #[trigger] leq(a, b) && #[trigger] leq(b, a) implies a
        == b by {
        lemma_rank_total(rank_of(records, a), rank_of(records, b));
    }
    assert forall|a: SearchResultRef, b: SearchResultRef, c: SearchResultRef| #[trigger]
        leq(a, b) && #[trigger] leq(b, c) implies leq(a, c) by {
        lemma_rank_transitive(rank_of(records, a), rank_of(records, b), rank_of(records, c));
    }
    assert forall|a: SearchResultRef, b: SearchResultRef| #[trigger] leq(a, b) || #[trigger] leq(b, a) by {
        lemma_rank_total(rank_of(records, a), rank_of(records, b));
    }
    assert(vstd::relations::total_ordering(leq));
    vstd::seq_lib::lemma_sorted_unique(left, right, leq);
}

// ---------------------------------------------------------------------------
// Results of words and of vectors
// ---------------------------------------------------------------------------

/// What was found, each with its score.
pub open spec fn scored_results(found: Seq<ScoredCandidate>, scores: Seq<Score>) -> Seq<SearchResultRef> {
    Seq::new(found.len(), |k: int| SearchResultRef { index: found[k].index, score: scores[k] })
}

/// One of those found was found by a word.
pub open spec fn any_word_hit(found: Seq<ScoredCandidate>) -> bool {
    exists|k: int| 0 <= k < found.len() && (#[trigger] found[k]).lexical_match()
}

/// The scores lie above 1 exactly for those found by a word.
pub open spec fn scores_tell_words(found: Seq<ScoredCandidate>, scores: Seq<Score>) -> bool {
    forall|k: int|
        0 <= k < found.len() ==> ((#[trigger] found[k]).lexical_match() <==> scores[k].key > Score::one().key)
}

/// The record with the given place was found by a word.
pub open spec fn is_word_hit(found: Seq<ScoredCandidate>, index: usize) -> bool {
    exists|k: int| 0 <= k < found.len() && (#[trigger] found[k]).index == index && found[k].lexical_match()
}

/// No record is among those found twice.
pub open spec fn places_differ(found: Seq<ScoredCandidate>) -> bool {
    forall|i: int, j: int| 0 <= i < j < found.len() ==> (#[trigger] found[i]).index != (#[trigger] found[j]).index
}

/// Of results those found by a word come before all others.
pub open spec fn words_come_first(found: Seq<ScoredCandidate>, results: Seq<SearchResultRef>) -> bool {
    forall|i: int, j: int|
        0 <= i < j < results.len() && is_word_hit(found, (#[trigger] results[j]).index) ==> is_word_hit(
            found,
            (#[trigger] results[i]).index,
        )
}

/// A number, if there is one.
pub open spec fn optional_nat(number: Option<usize>) -> Option<nat> {
    match number {
        Some(number) => Some(number as nat),
        None => None,
    }
}

/// How many results are kept at most: as many as the query allows, and no more than
/// `MAX_SEARCH_RESULTS` unless all of them are wanted.
pub open spec fn result_limit(limit: Option<nat>, all_wanted: bool) -> Option<nat> {
    if all_wanted {
        limit
    } else {
        match limit {
            Some(limit) if limit < MAX_SEARCH_RESULTS => Some(limit),
            _ => Some(MAX_SEARCH_RESULTS as nat),
        }
    }
}

/// All results of a search are wanted: one of them was found by a word, or the query has no
/// words and only filters.
pub open spec fn all_are_wanted(found: Seq<ScoredCandidate>, plan: PlanText) -> bool {
    any_word_hit(found) || !has_positive_query(plan)
}

/// The first of the results, as many as a limit allows.
pub open spec fn cut_to(results: Seq<SearchResultRef>, limit: Option<nat>) -> Seq<SearchResultRef> {
    match limit {
        Some(limit) if limit < results.len() => results.take(limit as int),
        _ => results,
    }
}

/// Where scores lie above 1 exactly for what was found by a word, the results found by a word
/// come first once they are ranked, and are the ones that are kept where a limit cuts.
pub proof fn law_word_hits_come_first(
    records: Seq<ImageText>,
    found: Seq<ScoredCandidate>,
    scores: Seq<Score>,
    ranked: Seq<SearchResultRef>,
    limit: Option<nat>,
)
    requires
        scores.len() == found.len(),
        places_differ(found),
        scores_tell_words(found, scores),
        ranks_results(records, scored_results(found, scores), ranked),
    ensures
        words_come_first(found, ranked),
        words_come_first(found, cut_to(ranked, limit)),
        forall|k: int|
            cut_to(ranked, limit).len() <= k < ranked.len() && is_word_hit(found, (#[trigger] ranked[k]).index)
                ==> forall|i: int|
                0 <= i < cut_to(ranked, limit).len() ==> is_word_hit(
                    found,
                    (#[trigger] cut_to(ranked, limit)[i]).index,
                ),
{
    let results = scored_results(found, scores);
    let order = choose|order: Seq<usize>| #[trigger]
        is_order_of(order, results.len()) && ranked == in_order(results, order);
    assert forall|i: int| 0 <= i < ranked.len() implies is_word_hit(found, (#[trigger] ranked[i]).index) == (
    ranked[i].score.key > Score::one().key) by {
        let at = order[i] as int;
        assert(ranked[i] == results[at]);
        if is_word_hit(found, ranked[i].index) {
            let k = choose|k: int|
                0 <= k < found.len() && (#[trigger] found[k]).index == ranked[i].index && found[k].lexical_match();
            if k < at {
                assert(found[k].index != found[at].index);
            } else if at < k {
                assert(found[at].index != found[k].index);
            }
        }
        assert(found[at].index == ranked[i].index);
    }
    assert forall|i: int, j: int|
        0 <= i < j < ranked.len() && is_word_hit(found, (#[trigger] ranked[j]).index) implies is_word_hit(
        found,
        (#[trigger] ranked[i]).index,
    ) by {
        assert(comes_first(records, ranked[i], ranked[j]));
    }
}

// ---------------------------------------------------------------------------
// Pages
// ---------------------------------------------------------------------------

/// A page of results.
pub struct SearchPage {
    pub images: Vec<ImageRecord>,
    pub total: usize,
    pub has_more: bool,
}

/// How many results a page shows that is to show `wanted`: at least one, and no more
/// than a page can.
pub open spec fn page_length(wanted: int) -> int {
    if wanted < 1 {
        1
    } else if wanted > MAX_RESULT_PAGE_SIZE {
        MAX_RESULT_PAGE_SIZE as int
    } else {
        wanted
    }
}

/// Where the page behind the first `offset` of `total` results starts.
pub open spec fn page_start(total: int, offset: int) -> int {
    if offset < total {
        offset
    } else {
        total
    }
}

/// Where a page of up to `length` results ends.
pub open spec fn page_end(total: int, offset: int, length: int) -> int {
    if page_start(total, offset) + length < total {
        page_start(total, offset) + length
    } else {
        total
    }
}

/// How many results a page shows that is to show `wanted`.
pub fn clamp_page_size(wanted: usize) -> (length: usize)
    ensures
        length == page_length(wanted as int),
{
    if wanted < 1 {
        1
    } else if wanted > MAX_RESULT_PAGE_SIZE {
        MAX_RESULT_PAGE_SIZE
    } else {
        wanted
    }
}

fn page_bounds(total: usize, offset: usize, length: usize) -> (bounds: (usize, usize))
    ensures
        bounds.0 == page_start(total as int, offset as int),
        bounds.1 == page_end(total as int, offset as int, length as int),
        bounds.0 <= bounds.1 <= total,
{
    let start: usize = if offset < total {
        offset
    } else {
        total
    };
    let end: usize = if length < total - start {
        start + length
    } else {
        total
    };
    (start, end)
}

/// A page goes on where the one before it ended, and there are more results exactly
/// where it does not reach the last one: going from page to page shows each result once.
pub proof fn law_pages_follow_each_other(total: int, offset: int, length: int)
    requires
        0 <= offset,
        0 <= total,
        1 <= length,
    ensures
        0 <= page_start(total, offset) <= page_end(total, offset, length) <= total,
        page_end(total, offset, length) == page_start(total, offset + length),
        page_end(total, offset, length) < total <==> offset + length < total,
        page_start(total, 0) == 0,
        page_end(total, offset, length) - page_start(total, offset) <= length,
{
}

/// What the first pages show, one after the other.
pub open spec fn shown_by<T>(results: Seq<T>, length: int, pages: nat) -> Seq<T>
    decreases pages,
{
    if pages == 0 {
        Seq::empty()
    } else {
        let total = results.len() as int;
        let offset = (pages - 1) * length;
        shown_by(results, length, (pages - 1) as nat) + results.subrange(
            page_start(total, offset),
            page_end(total, offset, length),
        )
    }
}

/// Going from page to page shows the results in their order, each of them once: so many
/// pages show the first results, up to where the last one of these pages ends.
pub proof fn law_pages_show_each_result_once<T>(results: Seq<T>, length: int, pages: nat)
    requires
        1 <= length,
    ensures
        shown_by(results, length, pages) == results.take(page_start(results.len() as int, pages * length)),
        results.len() <= pages * length ==> shown_by(results, length, pages) == results,
    decreases pages,
{
    let total = results.len() as int;
    if pages > 0 {
        let before = (pages - 1) as nat;
        law_pages_show_each_result_once(results, length, before);
        assert(pages * length == before * length + length && 0 <= before * length) by (nonlinear_arith)
            requires
                pages == before + 1,
                1 <= length,
        ;
        law_pages_follow_each_other(total, before * length, length);
        assert(shown_by(results, length, pages) =~= results.take(page_start(total, pages * length)));
    } else {
        assert(results.take(0) =~= Seq::empty());
    }
    assert(results.take(total) =~= results);
}

/// The page of all records, as they are listed.
pub fn browse_page(records: &Vec<ImageRecord>, offset: usize, page_size: usize) -> (page: SearchPage)
    ensures
        images(page.images@) == images(records@).subrange(
            page_start(records@.len() as int, offset as int),
            page_end(records@.len() as int, offset as int, page_size as int),
        ),
        page.total == records@.len(),
        page.has_more == (page_end(records@.len() as int, offset as int, page_size as int) < records@.len()),
{
    let total: usize = records.len();
    let (start, end): (usize, usize) = page_bounds(total, offset, page_size);
    let ghost all = images(records@);
    let mut shown: Vec<ImageRecord> = Vec::new();
    assert(images(shown@) =~= all.subrange(start as int, start as int));
    for i in start..end
        invariant
            start <= end <= records@.len(),
            all == images(records@),
            images(shown@) == all.subrange(start as int, i as int),
    {
        let ghost before = images(shown@);
        shown.push(records[i].duplicate());
        assert(images(shown@) =~= before.push(all[i as int]));
        assert(all.subrange(start as int, i + 1) =~= all.subrange(start as int, i as int).push(all[i as int]));
    }
    SearchPage { images: shown, total, has_more: end < total }
}

/// The record of a result, with the score of the result.
pub open spec fn result_image(records: Seq<ImageText>, result: SearchResultRef) -> ImageText {
    ImageText { score: result.score, ..records[result.index as int] }
}

/// The records of results.
pub open spec fn result_images(records: Seq<ImageText>, results: Seq<SearchResultRef>) -> Seq<ImageText> {
    results.map_values(|result: SearchResultRef| result_image(records, result))
}

/// Every result stands for one of `count` records.
pub open spec fn results_fit(results: Seq<SearchResultRef>, count: nat) -> bool {
    forall|k: int| 0 <= k < results.len() ==> (#[trigger] results[k]).index < count
}

/// Whether every result stands for one of `count` records.
pub fn do_results_fit(results: &Vec<SearchResultRef>, count: usize) -> (fit: bool)
    ensures
        fit == results_fit(results@, count as nat),
{
    for i in 0..results.len()
        invariant
            forall|k: int| 0 <= k < i ==> (#[trigger] results@[k]).index < count,
    {
        if results[i].index >= count {
            return false;
        }
    }
    true
}

/// The page of results that were ranked before.
pub fn page_from_result_refs(
    results: &Vec<SearchResultRef>,
    records: &Vec<ImageRecord>,
    offset: usize,
    page_size: usize,
) -> (page: SearchPage)
    requires
        results_fit(results@, records@.len()),
    ensures
        images(page.images@) == result_images(
            images(records@),
            results@.subrange(
                page_start(results@.len() as int, offset as int),
                page_end(results@.len() as int, offset as int, page_size as int),
            ),
        ),
        page.total == results@.len(),
        page.has_more == (page_end(results@.len() as int, offset as int, page_size as int) < results@.len()),
{
    let total: usize = results.len();
    let (start, end): (usize, usize) = page_bounds(total, offset, page_size);
    let ghost all = images(records@);
    let mut shown: Vec<ImageRecord> = Vec::new();
    assert(images(shown@) =~= result_images(all, results@.subrange(start as int, start as int)));
    for i in start..end
        invariant
            start <= end <= results@.len(),
            results_fit(results@, records@.len()),
            all == images(records@),
            images(shown@) == result_images(all, results@.subrange(start as int, i as int)),
    {
        let ghost before = images(shown@);
        let result: SearchResultRef = results[i];
        let mut record: ImageRecord = records[result.index].duplicate();
        record.score = result.score;
        assert(all[result.index as int] == records@[result.index as int]@);
        assert(record@ == result_image(all, result));
        shown.push(record);
        assert(images(shown@) =~= before.push(record@));
        assert(results@.subrange(start as int, i + 1) =~= results@.subrange(start as int, i as int).push(result));
        assert(result_images(all, results@.subrange(start as int, i + 1)) =~= before.push(record@));
    }
    SearchPage { images: shown, total, has_more: end < total }
}

// ---------------------------------------------------------------------------
// A search from its query to its page
// ---------------------------------------------------------------------------

/// The results of the last search, from which further pages are served.
pub struct SearchSessionState {
    pub root: Option<String>,
    pub query: String,
    pub results: Vec<SearchResultRef>,
}

/// The last search was the same: in the same folder, with the same query.
pub open spec fn session_serves(
    session: Option<SearchSessionState>,
    root: Option<Seq<char>>,
    query: Seq<char>,
) -> bool {
    session matches Some(session) && optional_text(session.root) == root && session.query@ == query
}

/// Whether the last search was the same.
pub fn does_session_serve(session: &Option<SearchSessionState>, root: &Option<String>, query: &String) -> (serves: bool)
    ensures
        serves == session_serves(*session, optional_text(*root), query@),
{
    match session {
        Some(session) => {
            let same_root: bool = match (&session.root, root) {
                (Some(left), Some(right)) => *left == *right,
                (None, None) => true,
                _ => false,
            };
            same_root && session.query == *query
        },
        None => false,
    }
}

/// The names on all records.
pub open spec fn all_people(records: Seq<ImageText>) -> Seq<Seq<char>>
    decreases records.len(),
{
    if records.len() == 0 {
        Seq::empty()
    } else {
        all_people(records.drop_last()) + records.last().people
    }
}

/// The names on the records, in order and each of them once.
pub fn known_people(records: &Vec<ImageRecord>) -> (people: Vec<String>)
    ensures
        lists_names(texts(people@), all_people(images(records@))),
{
    let ghost all = images(records@);
    let mut people: Vec<String> = Vec::new();
    assert(texts(people@) =~= all_people(all.take(0)));
    for i in 0..records.len()
        invariant
            all == images(records@),
            texts(people@) == all_people(all.take(i as int)),
    {
        let ghost before = texts(people@);
        let mut more: Vec<String> = copy_strings(&records[i].people);
        let ghost added = texts(more@);
        people.append(&mut more);
        assert(texts(people@) =~= before + added);
        assert(all.take(i + 1).drop_last() =~= all.take(i as int));
        assert(all.take(i + 1).last() == records@[i as int]@);
    }
    assert(all.take(all.len() as int) =~= all);
    sort_names(&people)
}

/// What a query asks for among records in the year `now_year`, given the names on them.
pub open spec fn plan_among(query: Seq<char>, records: Seq<ImageText>, now_year: int, plan: PlanText) -> bool {
    exists|people: Seq<Seq<char>>| #[trigger]
        lists_names(people, all_people(records)) && plan == plan_of(query, people, now_year)
}

/// What a query asks for among records this year.
pub fn plan_search(query: &String, records: &Vec<ImageRecord>) -> (plan: QueryPlan)
    ensures
        exists|year: int| #[trigger] clock_year(year) && plan_among(query@, images(records@), year, plan@),
{
    let people: Vec<String> = known_people(records);
    let plan: QueryPlan = parse_query(query.as_str(), &people);
    proof {
        let year = choose|year: int|
            #[trigger] clock_year(year) && plan@ == plan_of(query@, texts(people@), year);
        assert(plan_among(query@, images(records@), year, plan@));
    }
    plan
}

/// How a search starts: with a page that is at hand, or with a plan to be carried out.
pub enum SearchStart {
    Page(SearchPage),
    Plan(QueryPlan),
}

/// Starts a search: a blank query shows all records, the query of the last search goes
/// on with its results, and any other one is planned.
pub fn begin_search(
    query: &String,
    records: &Vec<ImageRecord>,
    session: &Option<SearchSessionState>,
    root: &Option<String>,
    offset: usize,
    page_size: usize,
) -> (start: SearchStart)
    requires
        session_serves(*session, optional_text(*root), query@) ==> results_fit(
            session->0.results@,
            records@.len(),
        ),
    ensures
        ({
            let length = page_length(page_size as int);
            let total = records@.len() as int;
            if trimmed(query@, blank()).len() == 0 {
                &&& start matches SearchStart::Page(page)
                &&& images(page.images@) == images(records@).subrange(
                    page_start(total, offset as int),
                    page_end(total, offset as int, length),
                )
                &&& page.total == total
                &&& page.has_more == (page_end(total, offset as int, length) < total)
            } else if session_serves(*session, optional_text(*root), query@) {
                let results = session->0.results@;
                &&& start matches SearchStart::Page(page)
                &&& images(page.images@) == result_images(
                    images(records@),
                    results.subrange(
                        page_start(results.len() as int, offset as int),
                        page_end(results.len() as int, offset as int, length),
                    ),
                )
                &&& page.total == results.len()
                &&& page.has_more == (page_end(results.len() as int, offset as int, length) < results.len())
            } else {
                &&& start matches SearchStart::Plan(plan)
                &&& exists|year: int| #[trigger]
                    clock_year(year) && plan_among(query@, images(records@), year, plan@)
            }
        }),
{
    let length: usize = clamp_page_size(page_size);
    if trim(&chars_of(query.as_str())).len() == 0 {
        return SearchStart::Page(browse_page(records, offset, length));
    }
    if does_session_serve(session, root, query) {
        match session {
            Some(session) => {
                return SearchStart::Page(page_from_result_refs(&session.results, records, offset, length));
            },
            None => {},
        }
    }
    SearchStart::Plan(plan_search(query, records))
}

/// Whether a plan is searched for by vectors: it has a text, and there are vectors.
pub fn wants_embeddings(plan: &QueryPlan, vectors_available: bool) -> (wanted: bool)
    ensures
        wanted == (plan@.semantic_query.len() > 0 && vectors_available),
{
    chars_of(plan.semantic_query.as_str()).len() > 0 && vectors_available
}

/// What a search ends with: the page that was asked for, and what further pages are
/// served from.
pub struct SearchEnd {
    pub page: SearchPage,
    pub session: SearchSessionState,
}

fn is_any_word_hit(found: &Vec<ScoredCandidate>) -> (hit: bool)
    ensures
        hit == any_word_hit(found@),
{
    for i in 0..found.len()
        invariant
            forall|k: int| 0 <= k < i ==> !(#[trigger] found@[k]).lexical_match(),
    {
        if found[i].is_lexical_match() {
            return true;
        }
    }
    false
}

fn limit_results(limit: Option<usize>, all_wanted: bool) -> (kept: Option<usize>)
    ensures
        optional_nat(kept) == result_limit(optional_nat(limit), all_wanted),
{
    if all_wanted {
        return limit;
    }
    match limit {
        Some(limit) => if limit < MAX_SEARCH_RESULTS {
            Some(limit)
        } else {
            Some(MAX_SEARCH_RESULTS)
        },
        None => Some(MAX_SEARCH_RESULTS),
    }
}

/// Puts its score to each of those found.
pub fn pair_scores(found: &Vec<ScoredCandidate>, scores: &Vec<Score>) -> (results: Vec<SearchResultRef>)
    requires
        scores@.len() == found@.len(),
    ensures
        results@ == scored_results(found@, scores@),
{
    let mut results: Vec<SearchResultRef> = Vec::new();
    for i in 0..found.len()
        invariant
            scores@.len() == found@.len(),
            results@ == scored_results(found@, scores@).take(i as int),
    {
        results.push(SearchResultRef { index: found[i].index, score: scores[i] });
        assert(results@ =~= scored_results(found@, scores@).take(i + 1));
    }
    assert(scored_results(found@, scores@).take(found@.len() as int) =~= scored_results(found@, scores@));
    results
}

/// Every one of those found stands for one of `count` records.
pub open spec fn candidates_fit(found: Seq<ScoredCandidate>, count: nat) -> bool {
    forall|k: int| 0 <= k < found.len() ==> (#[trigger] found[k]).index < count
}

/// Whether every one of those found stands for one of `count` records.
pub fn do_candidates_fit(found: &Vec<ScoredCandidate>, count: usize) -> (fit: bool)
    ensures
        fit == candidates_fit(found@, count as nat),
{
    for i in 0..found.len()
        invariant
            forall|k: int| 0 <= k < i ==> (#[trigger] found@[k]).index < count,
    {
        if found[i].index >= count {
            return false;
        }
    }
    true
}

/// What a search has found, ranked and cut: all that the query allows, and no more than
/// `MAX_SEARCH_RESULTS` where the query has words and none was found.
pub open spec fn is_outcome(
    records: Seq<ImageText>,
    found: Seq<ScoredCandidate>,
    scores: Seq<Score>,
    plan: PlanText,
    results: Seq<SearchResultRef>,
) -> bool {
    exists|all: Seq<SearchResultRef>| #[trigger]
        ranks_results(records, scored_results(found, scores), all) && results == cut_to(
            all,
            result_limit(plan.limit, all_are_wanted(found, plan)),
        )
}

/// Ends a search: ranks what was found, cuts it, and cuts out the page that was asked for.
/// `scores` holds the score of each of those found.
pub fn finish_search(
    records: &Vec<ImageRecord>,
    found: &Vec<ScoredCandidate>,
    scores: &Vec<Score>,
    plan: &QueryPlan,
    query: String,
    root: Option<String>,
    offset: usize,
    page_size: usize,
) -> (end: SearchEnd)
    requires
        candidates_fit(found@, records@.len()),
        scores@.len() == found@.len(),
    ensures
        is_outcome(images(records@), found@, scores@, plan@, end.session.results@),
        ({
            let results = end.session.results@;
            let length = page_length(page_size as int);
            &&& images(end.page.images@) == result_images(
                images(records@),
                results.subrange(
                    page_start(results.len() as int, offset as int),
                    page_end(results.len() as int, offset as int, length),
                ),
            )
            &&& end.page.total == results.len()
            &&& end.page.has_more == (page_end(results.len() as int, offset as int, length) < results.len())
        }),
        !any_word_hit(found@) && has_positive_query(plan@) ==> end.page.total <= MAX_SEARCH_RESULTS
            && end.page.images@.len() <= MAX_SEARCH_RESULTS,
        all_are_wanted(found@, plan@) && plan.limit is None ==> end.page.total == found@.len(),
        places_differ(found@) && scores_tell_words(found@, scores@) ==> words_come_first(
            found@,
            end.session.results@,
        ),
        end.session.query == query,
        end.session.root == root,
        results_fit(end.session.results@, records@.len()),
        session_serves(Some(end.session), optional_text(root), query@),
{
    let pairs: Vec<SearchResultRef> = pair_scores(found, scores);
    assert forall|k: int| 0 <= k < pairs@.len() implies (#[trigger] pairs@[k]).index < records@.len() by {
        assert(found@[k].index < records@.len());
    }
    let kept: Option<usize> = limit_results(plan.limit, is_any_word_hit(found) || !asks_for_words(plan));
    let results: Vec<SearchResultRef> = rank_matches(records, &pairs, kept);
    proof {
        let all = choose|all: Seq<SearchResultRef>| #[trigger]
            ranks_results(images(records@), pairs@, all) && results@ == cut_to(all, optional_nat(kept));
        assert(ranks_results(images(records@), scored_results(found@, scores@), all));
        if places_differ(found@) && scores_tell_words(found@, scores@) {
            law_word_hits_come_first(images(records@), found@, scores@, all, optional_nat(kept));
        }
        law_search_without_words_is_short(images(records@), found@, scores@, plan@, results@);
    }
    let page: SearchPage = page_from_result_refs(&results, records, offset, clamp_page_size(page_size));
    assert(page.images@.len() == images(page.images@).len());
    SearchEnd { page, session: SearchSessionState { root, query, results } }
}

/// A search for words that found none has at most 60 results, on however many pages. One that
/// found a word has all that it found, unless the query sets a limit, and so has one whose
/// query has no words and only filters.
pub proof fn law_search_without_words_is_short(
    records: Seq<ImageText>,
    found: Seq<ScoredCandidate>,
    scores: Seq<Score>,
    plan: PlanText,
    results: Seq<SearchResultRef>,
)
    requires
        scores.len() == found.len(),
        is_outcome(records, found, scores, plan, results),
    ensures
        !any_word_hit(found) && has_positive_query(plan) ==> results.len() <= 60,
        all_are_wanted(found, plan) && plan.limit is None ==> results.len() == found.len(),
        all_are_wanted(found, plan) ==> (plan.limit matches Some(limit) ==> results.len() == if limit < found.len() {
            limit
        } else {
            found.len()
        }),
        plan.limit matches Some(limit) ==> results.len() <= limit,
{
    let all = choose|all: Seq<SearchResultRef>| #[trigger]
        ranks_results(records, scored_results(found, scores), all) && results == cut_to(
            all,
            result_limit(plan.limit, all_are_wanted(found, plan)),
        );
    let order = choose|order: Seq<usize>| #[trigger]
        is_order_of(order, found.len()) && all == in_order(scored_results(found, scores), order);
    assert(all.len() == found.len());
}

/// What is selected of the candidates of a search stands for different records, each of those
/// that were searched, in their order.
pub proof fn law_selected_candidates_differ(
    records: Seq<ImageText>,
    extensions: Seq<Option<Seq<char>>>,
    plan: PlanText,
    counts: Option<Map<Seq<char>, u32>>,
    scores: Option<Map<Seq<char>, Score>>,
    semantic_search: bool,
    threshold: Score,
)
    requires
        records.len() <= usize::MAX,
    ensures
        ({
            let found = selection(
                candidates_of(records, extensions, plan, counts, scores),
                plan,
                semantic_search,
                threshold,
            );
            places_differ(found) && candidates_fit(found, records.len())
        }),
{
    let candidates = candidates_of(records, extensions, plan, counts, scores);
    lemma_candidates_ascend(records, extensions, plan, counts, scores);
    let keep = |candidate: ScoredCandidate| selected(candidate, plan, semantic_search, threshold);
    lemma_filter_ascends(candidates, keep, records.len());
}

/// The places of those found grow.
spec fn places_ascend(found: Seq<ScoredCandidate>) -> bool {
    forall|i: int, j: int| 0 <= i < j < found.len() ==> (#[trigger] found[i]).index < (#[trigger] found[j]).index
}

proof fn lemma_candidates_ascend(
    records: Seq<ImageText>,
    extensions: Seq<Option<Seq<char>>>,
    plan: PlanText,
    counts: Option<Map<Seq<char>, u32>>,
    scores: Option<Map<Seq<char>, Score>>,
)
    requires
        records.len() <= usize::MAX,
    ensures
        places_ascend(candidates_of(records, extensions, plan, counts, scores)),
        candidates_fit(candidates_of(records, extensions, plan, counts, scores), records.len()),
    decreases records.len(),
{
    if records.len() > 0 {
        lemma_candidates_ascend(records.drop_last(), extensions, plan, counts, scores);
    }
}

proof fn lemma_filter_ascends(candidates: Seq<ScoredCandidate>, keep: spec_fn(ScoredCandidate) -> bool, count: nat)
    requires
        places_ascend(candidates),
        candidates_fit(candidates, count),
    ensures
        places_ascend(candidates.filter(keep)),
        candidates_fit(candidates.filter(keep), count),
        forall|i: int|
            0 <= i < candidates.filter(keep).len() ==> candidates.len() > 0 && (#[trigger] candidates.filter(keep)[i]).index
                <= candidates.last().index,
    decreases candidates.len(),
{
    reveal(Seq::filter);
    if candidates.len() > 0 {
        let shorter = candidates.drop_last();
        assert forall|i: int, j: int| 0 <= i < j < shorter.len() implies (#[trigger] shorter[i]).index < (
        #[trigger] shorter[j]).index by {
            assert(candidates[i].index < candidates[j].index);
        }
        assert forall|k: int| 0 <= k < shorter.len() implies (#[trigger] shorter[k]).index < count by {
            assert(candidates[k].index < count);
        }
        lemma_filter_ascends(shorter, keep, count);
        let before = shorter.filter(keep);
        let after = candidates.filter(keep);
        let last = candidates[candidates.len() - 1];
        assert(last.index < count);
        if shorter.len() > 0 {
            assert(candidates[candidates.len() - 2].index < last.index);
        }
        assert forall|i: int| 0 <= i < before.len() implies (#[trigger] before[i]).index < last.index by {}
    }
}

// ---------------------------------------------------------------------------
// What a search finds
// ---------------------------------------------------------------------------

/// A plan has no words and no text that a picture is to be found by.
pub open spec fn has_no_words(plan: QueryPlan) -> bool {
    plan.semantic_query@.len() == 0 && plan.text.should@.len() == 0 && plan.text.must@.len() == 0
}

/// Which candidates are found. A candidate that no word rules out is found by its meaning in
/// every search by vectors in which its score reaches the threshold, by a word wherever one was
/// found, and in any case by a plan without words; one that a word rules out is never found. What
/// is found are candidates, in their order, and none is found for any other reason.
pub proof fn law_candidates_are_found_by_words_or_meaning(
    candidates: &Vec<ScoredCandidate>,
    plan: &QueryPlan,
    semantic_search: bool,
    threshold: Score,
    found: Vec<ScoredCandidate>,
    at: int,
)
    requires
        call_ensures(select_matches, (candidates, plan, semantic_search, threshold), found),
        0 <= at < candidates@.len(),
    ensures
        ({
            let candidate = candidates@[at];
            let by_meaning = semantic_search && candidate.semantic_score is Some
                && candidate.semantic_score->0.at_least(threshold);
            let by_word = candidate.hits > 0 || candidate.matched > 0;
            &&& candidate.lexical_allowed && by_meaning ==> found@.contains(candidate)
            &&& candidate.lexical_allowed && by_word ==> found@.contains(candidate)
            &&& candidate.lexical_allowed && has_no_words(*plan) ==> found@.contains(candidate)
            &&& !candidate.lexical_allowed ==> !found@.contains(candidate)
            &&& !by_meaning && !by_word && !has_no_words(*plan) ==> !found@.contains(candidate)
        }),
        is_part_of_list(found@, candidates@),
{
    let candidate = candidates@[at];
    let keep = |candidate: ScoredCandidate| selected(candidate, plan@, semantic_search, threshold);
    assert(found@ == candidates@.filter(keep));
    assert(has_positive_query(plan@) == !has_no_words(*plan));
    if keep(candidate) {
        candidates@.lemma_filter_contains(keep, at);
    }
    if found@.contains(candidate) {
        let k = choose|k: int| 0 <= k < found@.len() && found@[k] == candidate;
        candidates@.lemma_filter_pred(keep, k);
    }
    lemma_filter_is_part(candidates@, keep);
}

/// What a filter keeps of a list is part of it.
pub proof fn lemma_filter_is_part<T>(list: Seq<T>, keep: spec_fn(T) -> bool)
    ensures
        is_part_of_list(list.filter(keep), list),
    decreases list.len(),
{
    reveal(Seq::filter);
    if list.len() == 0 {
        assert(are_list_places(list.filter(keep), list, Seq::empty()));
    } else {
        let shorter = list.drop_last();
        lemma_filter_is_part(shorter, keep);
        let before = shorter.filter(keep);
        let after = list.filter(keep);
        let places = choose|places: Seq<int>| are_list_places(before, shorter, places);
        let longer = if keep(list.last()) {
            places.push(list.len() - 1)
        } else {
            places
        };
        assert forall|i: int| 0 <= i < after.len() implies #[trigger] stands_at(after, list, longer, i) by {
            if i < before.len() {
                assert(stands_at(before, shorter, places, i));
            }
        }
        assert forall|i: int, j: int| 0 <= i < j < longer.len() implies #[trigger] longer[i] < #[trigger] longer[j] by {
            assert(stands_at(before, shorter, places, i));
            if j < places.len() {
                assert(places[i] < places[j]);
            }
        }
        assert(are_list_places(after, list, longer));
    }
}

/// A word stands in the file name, the text or the names of a record, whatever the case of their
/// letters and the blanks in either.
pub open spec fn stands_in_record(record: ImageRecord, word: Seq<char>) -> bool {
    let all = lowercase(record.filename@ + " "@ + record.ocr_text@ + " "@ + joined(texts(record.people@), " "@));
    holds_text(all, word) || holds_text(compacted(all), compacted(word))
}

/// How well a record answers a plan. There is an answer exactly where the plan admits the record.
/// It counts each word of the plan that stands in the record, tells whether no word stands in it
/// that rules it out, and holds what the full-text index and the vector index say of its path.
pub proof fn law_candidates_answer_the_plan(
    index: usize,
    record: &ImageRecord,
    plan: &QueryPlan,
    extension: &Option<String>,
    text_scores: &Option<TextScores>,
    vector_scores: &Option<VectorScores>,
    candidate: Option<ScoredCandidate>,
    admitted: bool,
)
    requires
        plan.text.should@.len() + plan.text.must@.len() <= usize::MAX,
        call_ensures(judge_record, (index, record, plan, extension, text_scores, vector_scores), candidate),
        call_ensures(is_admitted, (record, plan, extension), admitted),
    ensures
        candidate is Some <==> admitted,
        candidate is Some ==> ({
            let candidate = candidate->0;
            let words = texts(plan.text.should@) + texts(plan.text.must@);
            &&& candidate.index == index
            &&& candidate.matched == words.filter(|word: Seq<char>| stands_in_record(*record, word)).len()
            &&& candidate.total == words.len()
            &&& candidate.lexical_allowed <==> forall|k: int|
                0 <= k < plan.text.must_not@.len() ==> !stands_in_record(
                    *record,
                    (#[trigger] plan.text.must_not@[k])@,
                )
            &&& text_scores is Some && text_scores->0@.contains_key(record.path@) ==> candidate.hits
                == text_scores->0@[record.path@]
            &&& text_scores is None || !text_scores->0@.contains_key(record.path@) ==> candidate.hits == 0
            &&& vector_scores is Some && vector_scores->0@.contains_key(record.path@) ==> candidate.semantic_score
                == Some(vector_scores->0@[record.path@])
            &&& vector_scores is None || !vector_scores->0@.contains_key(record.path@)
                ==> candidate.semantic_score is None
        }),
{
    if candidate is Some {
        let words = plan@.should + plan@.must;
        let text = searched_text(record@);
        lemma_words_found_are_counted(text, words, *record);
        words.lemma_filter_len(|word: Seq<char>| stands_in_record(*record, word));
        let refused = plan@.must_not;
        assert forall|k: int| 0 <= k < refused.len() implies #[trigger] refused[k] == plan.text.must_not@[k]@ by {}
        if forall|k: int|
            0 <= k < plan.text.must_not@.len() ==> !stands_in_record(*record, (#[trigger] plan.text.must_not@[k])@) {
            assert forall|k: int| 0 <= k < refused.len() implies !finds_word(text, #[trigger] refused[k]) by {
                assert(!stands_in_record(*record, plan.text.must_not@[k]@));
            }
        } else {
            let k = choose|k: int|
                0 <= k < plan.text.must_not@.len() && stands_in_record(*record, (#[trigger] plan.text.must_not@[k])@);
            assert(finds_word(text, refused[k]));
        }
    }
}

/// The words found are those that stand in a record.
proof fn lemma_words_found_are_counted(text: Seq<char>, words: Seq<Seq<char>>, record: ImageRecord)
    requires
        text == searched_text(record@),
    ensures
        words_found(text, words) == words.filter(|word: Seq<char>| stands_in_record(record, word)).len(),
    decreases words.len(),
{
    reveal(Seq::filter);
    if words.len() > 0 {
        lemma_words_found_are_counted(text, words.drop_last(), record);
    }
}

/// Where the texts of a record are in lower case, a word is found that stands in its file name, in
/// the text read from it or in the name of a person on it, and also one that stands there with a
/// blank within.
pub proof fn law_words_are_found_wherever_they_stand(
    record: &ImageRecord,
    first: Seq<char>,
    second: Seq<char>,
    person: int,
)
    requires
        ({
            let all = record.filename@ + " "@ + record.ocr_text@ + " "@ + joined(texts(record.people@), " "@);
            lowercase(all) == all
        }),
    ensures
        holds_text(record.filename@, first) ==> stands_in_record(*record, first),
        holds_text(record.ocr_text@, first) ==> stands_in_record(*record, first),
        0 <= person < record.people@.len() && holds_text(record.people@[person]@, first) ==> stands_in_record(
            *record,
            first,
        ),
        holds_text(record.filename@, first + " "@ + second) ==> stands_in_record(*record, first + second),
        holds_text(record.ocr_text@, first + " "@ + second) ==> stands_in_record(*record, first + second),
{
    let names = texts(record.people@);
    let tail = joined(names, " "@);
    let all = record.filename@ + " "@ + record.ocr_text@ + " "@ + tail;
    let behind = " "@ + record.ocr_text@ + " "@ + tail;
    assert(all =~= Seq::<char>::empty() + record.filename@ + behind);
    let before = record.filename@ + " "@;
    let rest = " "@ + tail;
    assert(all =~= before + record.ocr_text@ + rest);
    let head = record.filename@ + " "@ + record.ocr_text@ + " "@;
    assert(all =~= head + tail + Seq::<char>::empty());
    if holds_text(record.filename@, first) {
        lemma_part_is_held(Seq::<char>::empty(), record.filename@, behind, first);
    }
    if holds_text(record.ocr_text@, first) {
        lemma_part_is_held(before, record.ocr_text@, rest, first);
    }
    if 0 <= person < record.people@.len() && holds_text(record.people@[person]@, first) {
        assert(names[person] == record.people@[person]@);
        lemma_joined_holds(names, " "@, person, first);
        lemma_part_is_held(head, tail, Seq::<char>::empty(), first);
    }
    if holds_text(record.filename@, first + " "@ + second) {
        lemma_part_is_held(Seq::<char>::empty(), record.filename@, behind, first + " "@ + second);
        lemma_blanks_are_overlooked(all, first, second);
    }
    if holds_text(record.ocr_text@, first + " "@ + second) {
        lemma_part_is_held(before, record.ocr_text@, rest, first + " "@ + second);
        lemma_blanks_are_overlooked(all, first, second);
    }
}

/// A joined text holds what its parts hold.
pub proof fn lemma_joined_holds(parts: Seq<Seq<char>>, separator: Seq<char>, at: int, word: Seq<char>)
    requires
        0 <= at < parts.len(),
        holds_text(parts[at], word),
    ensures
        holds_text(joined(parts, separator), word),
    decreases parts.len(),
{
    if parts.len() > 1 {
        let before = joined(parts.drop_last(), separator);
        if at < parts.len() - 1 {
            lemma_joined_holds(parts.drop_last(), separator, at, word);
            lemma_part_is_held(Seq::<char>::empty(), before, separator + parts.last(), word);
            assert(Seq::<char>::empty() + before + (separator + parts.last()) =~= joined(parts, separator));
        } else {
            lemma_part_is_held(before + separator, parts.last(), Seq::<char>::empty(), word);
            assert(before + separator + parts.last() + Seq::<char>::empty() =~= joined(parts, separator));
        }
    }
}

/// A word that stands in a text with a blank within is found once blanks are dropped.
proof fn lemma_blanks_are_overlooked(text: Seq<char>, first: Seq<char>, second: Seq<char>)
    requires
        holds_text(text, first + " "@ + second),
    ensures
        holds_text(compacted(text), compacted(first + second)),
{
    let word = first + " "@ + second;
    let at = choose|at: int| occurs_at(text, word, at);
    let before = text.take(at);
    let behind = text.skip(at + word.len());
    assert(text =~= before + word + behind);
    lemma_compacted_parts(before + word, behind);
    lemma_compacted_parts(before, word);
    lemma_compacted_parts(first + " "@, second);
    lemma_compacted_parts(first, " "@);
    lemma_compacted_parts(first, second);
    reveal_strlit(" ");
    lemma_compacted(" "@);
    assert(white_space(' '));
    assert(compacted(" "@).len() == 0);
    assert(compacted(word) =~= compacted(first + second));
    lemma_text_is_held(compacted(before), compacted(word), compacted(behind));
}

/// Each word that a picture is to be found by is asked for, in order, and so is each word that
/// rules a picture out.
pub proof fn law_each_word_is_asked_for(text: &TextQueryPlan, questions: TextQuestions, at: int)
    requires
        call_ensures(match_queries, (text,), questions),
    ensures
        questions.wanted@.len() == text.should@.len() + text.must@.len(),
        questions.unwanted@.len() == text.must_not@.len(),
        0 <= at < text.should@.len() ==> is_quoted(questions.wanted@[at]@, text.should@[at]@),
        0 <= at < text.must@.len() ==> is_quoted(questions.wanted@[text.should@.len() + at]@, text.must@[at]@),
        0 <= at < text.must_not@.len() ==> is_quoted(questions.unwanted@[at]@, text.must_not@[at]@),
{
    let words = texts(text.should@) + texts(text.must@);
    let refused = texts(text.must_not@);
    assert(texts(questions.wanted@).len() == words.len());
    assert(texts(questions.unwanted@).len() == refused.len());
    if 0 <= at < text.should@.len() {
        lemma_phrase_is_quoted(text.should@[at]@);
        assert(texts(questions.wanted@)[at] == phrase_of(words[at]));
    }
    if 0 <= at < text.must@.len() {
        lemma_phrase_is_quoted(text.must@[at]@);
        assert(texts(questions.wanted@)[text.should@.len() + at] == phrase_of(words[text.should@.len() + at]));
    }
    if 0 <= at < text.must_not@.len() {
        lemma_phrase_is_quoted(text.must_not@[at]@);
        assert(texts(questions.unwanted@)[at] == phrase_of(refused[at]));
    }
}

/// A text with each quotation mark in it written twice.
pub open spec fn doubled(word: Seq<char>) -> Seq<char>
    decreases word.len(),
{
    if word.len() == 0 {
        Seq::empty()
    } else if word.last() == '"' {
        doubled(word.drop_last()).push('"').push('"')
    } else {
        doubled(word.drop_last()).push(word.last())
    }
}

/// A phrase is a word between quotation marks, with each one in it written twice.
pub open spec fn is_quoted(phrase: Seq<char>, word: Seq<char>) -> bool {
    phrase == seq!['"'] + doubled(word) + seq!['"']
}

proof fn lemma_phrase_is_quoted(word: Seq<char>)
    ensures
        is_quoted(phrase_of(word), word),
{
    reveal_strlit("\"");
    reveal_strlit("\"\"");
    assert("\""@ =~= seq!['"']);
    assert("\"\""@ =~= seq!['"', '"']);
    lemma_doubled(word);
}

proof fn lemma_doubled(word: Seq<char>)
    ensures
        replaced(word, seq!['"'], seq!['"', '"']) == doubled(word),
    decreases word.len(),
{
    if word.len() > 0 {
        lemma_doubled(word.drop_last());
        let last = seq![word.last()];
        assert(word =~= word.drop_last() + last);
        lemma_replaced_parts(word.drop_last(), last, '"', seq!['"', '"']);
        assert(last.skip(1) =~= Seq::<char>::empty());
        assert(last.take(1) =~= last);
        assert(occurs_at(last, seq!['"'], 0) <==> word.last() == '"') by {
            assert(last.subrange(0, 1) =~= last);
            assert(last[0] == word.last());
        }
        let tail = replaced(last, seq!['"'], seq!['"', '"']);
        assert(replaced(Seq::<char>::empty(), seq!['"'], seq!['"', '"']) =~= Seq::<char>::empty());
        if word.last() == '"' {
            assert(tail =~= seq!['"', '"']);
        } else {
            assert(tail =~= last);
        }
        assert(replaced(word, seq!['"'], seq!['"', '"']) =~= doubled(word));
    } else {
        assert(doubled(word) =~= word);
    }
}

/// Replacing one character in a text replaces it in the parts of the text.
proof fn lemma_replaced_parts(left: Seq<char>, right: Seq<char>, character: char, to: Seq<char>)
    ensures
        replaced(left + right, seq![character], to) == replaced(left, seq![character], to) + replaced(
            right,
            seq![character],
            to,
        ),
    decreases left.len(),
{
    let from = seq![character];
    let all = left + right;
    if left.len() == 0 {
        assert(all =~= right);
        assert(replaced(left, from, to) =~= Seq::<char>::empty());
        assert(replaced(left, from, to) + replaced(right, from, to) =~= replaced(right, from, to));
    } else {
        assert(all.skip(1) =~= left.skip(1) + right);
        assert(all.take(1) =~= left.take(1));
        lemma_replaced_parts(left.skip(1), right, character, to);
        assert(occurs_at(all, from, 0) == occurs_at(left, from, 0)) by {
            assert(all.subrange(0, 1) =~= left.subrange(0, 1));
        }
        assert(replaced(all, from, to) =~= replaced(left, from, to) + replaced(right, from, to));
    }
}

/// A result comes before another only where it may: it has no lower score, among equal ones no
/// later file name, and among equal names no higher place.
pub open spec fn is_no_worse(records: Seq<ImageRecord>, left: SearchResultRef, right: SearchResultRef) -> bool {
    let name = records[left.index as int].filename@;
    let other = records[right.index as int].filename@;
    &&& left.score.key >= right.score.key
    &&& left.score.key == right.score.key ==> !text_before(other, name)
    &&& left.score.key == right.score.key && name == other ==> left.index <= right.index
}

proof fn lemma_no_worse(records: Seq<ImageRecord>, left: SearchResultRef, right: SearchResultRef)
    requires
        comes_first(images(records), left, right),
        left.index < records.len(),
        right.index < records.len(),
    ensures
        is_no_worse(records, left, right),
{
    lemma_text_order_total(records[left.index as int].filename@, records[right.index as int].filename@);
    assert(images(records)[left.index as int] == records[left.index as int]@);
    assert(images(records)[right.index as int] == records[right.index as int]@);
}

/// Results are ranked by their score, then by the file names of their records, then by their
/// places. Where a limit cuts, it keeps as many as it allows, and none that is left out comes
/// before one that is kept.
pub proof fn law_best_results_come_first(
    records: &Vec<ImageRecord>,
    results: &Vec<SearchResultRef>,
    limit: Option<usize>,
    ranked: Vec<SearchResultRef>,
) -> (order: Seq<usize>)
    requires
        forall|k: int| 0 <= k < results@.len() ==> (#[trigger] results@[k]).index < records@.len(),
        call_ensures(rank_matches, (records, results, limit), ranked),
    ensures
        order.len() == results@.len(),
        forall|k: usize| k < results@.len() ==> #[trigger] order.contains(k),
        limit is None || limit->0 >= results@.len() ==> ranked@.len() == results@.len(),
        limit is Some && limit->0 < results@.len() ==> ranked@.len() == limit->0,
        forall|k: int|
            0 <= k < ranked@.len() ==> order[k] < results@.len() && #[trigger] ranked@[k] == results@[order[k] as int],
        forall|i: int, j: int|
            0 <= i < j < ranked@.len() ==> is_no_worse(records@, #[trigger] ranked@[i], #[trigger] ranked@[j]),
        forall|i: int, j: int|
            0 <= i < ranked@.len() <= j < order.len() ==> is_no_worse(
                records@,
                #[trigger] ranked@[i],
                results@[#[trigger] order[j] as int],
            ),
{
    let all = choose|all: Seq<SearchResultRef>| #[trigger]
        ranks_results(images(records@), results@, all) && ranked@ == (match limit {
            Some(limit) if limit < all.len() => all.take(limit as int),
            _ => all,
        });
    let order = choose|order: Seq<usize>| #[trigger]
        is_order_of(order, results@.len()) && all == in_order(results@, order);
    assert forall|k: usize| k < results@.len() implies #[trigger] order.contains(k) by {
        lemma_order_is_complete(order, results@.len(), k);
    }
    assert forall|k: int| 0 <= k < all.len() implies order[k] < results@.len() && #[trigger] all[k]
        == results@[order[k] as int] && all[k].index < records@.len() by {
        assert(order[k] < results@.len());
        assert(results@[order[k] as int].index < records@.len());
    }
    assert forall|k: int| 0 <= k < ranked@.len() implies order[k] < results@.len() && #[trigger] ranked@[k]
        == results@[order[k] as int] by {
        assert(all[k] == results@[order[k] as int]);
    }
    assert forall|i: int, j: int| 0 <= i < j < ranked@.len() implies is_no_worse(
        records@,
        #[trigger] ranked@[i],
        #[trigger] ranked@[j],
    ) by {
        lemma_no_worse(records@, all[i], all[j]);
    }
    assert forall|i: int, j: int| 0 <= i < ranked@.len() <= j < order.len() implies is_no_worse(
        records@,
        #[trigger] ranked@[i],
        results@[#[trigger] order[j] as int],
    ) by {
        assert(all[j] == results@[order[j] as int]);
        lemma_no_worse(records@, all[i], all[j]);
    }
    order
}

/// A page shows at a place the record that a result stands for, with the score of the result.
pub open spec fn shows_result(image: ImageRecord, records: Seq<ImageRecord>, result: SearchResultRef) -> bool {
    let record = records[result.index as int]@;
    let shown = image@;
    &&& shown.score == result.score
    &&& shown.id == record.id
    &&& shown.path == record.path
    &&& shown.filename == record.filename
    &&& shown.modified_at == record.modified_at
    &&& shown.captured_at == record.captured_at
    &&& shown.width == record.width
    &&& shown.height == record.height
    &&& shown.thumbnail == record.thumbnail
    &&& shown.ocr_text == record.ocr_text
    &&& shown.people == record.people
    &&& shown.face_group_ids == record.face_group_ids
}

/// A page of so many of results, behind the first ones: it shows what comes next as far as there
/// is anything, tells how many results there are, and whether there are more behind it.
pub open spec fn is_page_of(
    page: SearchPage,
    records: Seq<ImageRecord>,
    results: Seq<SearchResultRef>,
    offset: int,
    length: int,
) -> bool {
    &&& page.total == results.len()
    &&& page.images@.len() == (if offset >= results.len() {
        0
    } else if results.len() - offset <= length {
        results.len() - offset
    } else {
        length
    })
    &&& forall|k: int|
        0 <= k < page.images@.len() ==> shows_result(#[trigger] page.images@[k], records, results[offset + k])
    &&& page.has_more <==> offset + length < results.len()
}

proof fn lemma_page(
    page: SearchPage,
    records: Seq<ImageRecord>,
    results: Seq<SearchResultRef>,
    offset: int,
    length: int,
)
    requires
        0 <= offset,
        0 <= length,
        results_fit(results, records.len()),
        images(page.images@) == result_images(
            images(records),
            results.subrange(
                page_start(results.len() as int, offset),
                page_end(results.len() as int, offset, length),
            ),
        ),
        page.total == results.len(),
        page.has_more == (page_end(results.len() as int, offset, length) < results.len()),
    ensures
        is_page_of(page, records, results, offset, length),
{
    let start = page_start(results.len() as int, offset);
    let end = page_end(results.len() as int, offset, length);
    let shown = images(page.images@);
    assert(shown.len() == end - start);
    assert forall|k: int| 0 <= k < page.images@.len() implies shows_result(
        #[trigger] page.images@[k],
        records,
        results[offset + k],
    ) by {
        let result = results[offset + k];
        assert(results.subrange(start, end)[k] == result);
        assert(shown[k] == page.images@[k]@);
        assert(shown[k] == result_image(images(records), result));
        assert(result.index < records.len());
        assert(images(records)[result.index as int] == records[result.index as int]@);
    }
}

/// A page of results shows those behind the first ones, as many as it has room for.
pub proof fn law_a_page_shows_its_results(
    results: &Vec<SearchResultRef>,
    records: &Vec<ImageRecord>,
    offset: usize,
    page_size: usize,
    page: SearchPage,
)
    requires
        results_fit(results@, records@.len()),
        call_ensures(page_from_result_refs, (results, records, offset, page_size), page),
    ensures
        is_page_of(page, records@, results@, offset as int, page_size as int),
{
    lemma_page(page, records@, results@, offset as int, page_size as int);
}

/// The page of all records shows those behind the first ones, as they are listed.
pub proof fn law_browsing_shows_all_records(
    records: &Vec<ImageRecord>,
    offset: usize,
    page_size: usize,
    page: SearchPage,
)
    requires
        call_ensures(browse_page, (records, offset, page_size), page),
    ensures
        page.total == records@.len(),
        page.images@.len() == (if offset >= records@.len() {
            0
        } else if records@.len() - offset <= page_size {
            records@.len() - offset
        } else {
            page_size as int
        }),
        forall|k: int| 0 <= k < page.images@.len() ==> (#[trigger] page.images@[k])@ == records@[offset + k]@,
        page.has_more <==> offset + page_size < records@.len(),
{
    lemma_browsed(page, records@, offset as int, page_size as int);
}

proof fn lemma_browsed(page: SearchPage, records: Seq<ImageRecord>, offset: int, length: int)
    requires
        0 <= offset,
        0 <= length,
        images(page.images@) == images(records).subrange(
            page_start(records.len() as int, offset),
            page_end(records.len() as int, offset, length),
        ),
    ensures
        page.images@.len() == (if offset >= records.len() {
            0
        } else if records.len() - offset <= length {
            records.len() - offset
        } else {
            length
        }),
        forall|k: int| 0 <= k < page.images@.len() ==> (#[trigger] page.images@[k])@ == records[offset + k]@,
{
    let shown = images(page.images@);
    let start = page_start(records.len() as int, offset);
    let end = page_end(records.len() as int, offset, length);
    assert(shown.len() == end - start);
    assert forall|k: int| 0 <= k < page.images@.len() implies (#[trigger] page.images@[k])@ == records[offset + k]@ by {
        assert(shown[k] == page.images@[k]@);
        assert(images(records)[offset + k] == records[offset + k]@);
    }
}

/// A page shows at least one result and at most 200, and otherwise as many as are wanted.
pub proof fn law_page_sizes_are_kept_within_bounds(wanted: usize, length: usize)
    requires
        call_ensures(clamp_page_size, (wanted,), length),
    ensures
        1 <= length <= 200,
        1 <= wanted <= 200 ==> length == wanted,
        wanted > 200 ==> length == 200,
{
}

/// A blank query shows all records, a page at a time; the query of the last search, asked again
/// in the same folder, shows further results of it; every other one is planned anew.
pub proof fn law_a_search_starts_with_its_query(
    query: &String,
    records: &Vec<ImageRecord>,
    session: &Option<SearchSessionState>,
    root: &Option<String>,
    offset: usize,
    page_size: usize,
    start: SearchStart,
)
    requires
        session_serves(*session, optional_text(*root), query@) ==> results_fit(session->0.results@, records@.len()),
        call_ensures(begin_search, (query, records, session, root, offset, page_size), start),
    ensures
        ({
            let length = if page_size < 1 {
                1
            } else if page_size > 200 {
                200
            } else {
                page_size as int
            };
            let is_blank = forall|i: int| 0 <= i < query@.len() ==> white_space(#[trigger] query@[i]);
            let is_same = session matches Some(last) && last.query@ == query@ && optional_text(last.root)
                == optional_text(*root);
            &&& is_blank ==> start is Page && start->Page_0.total == records@.len() && forall|k: int|
                0 <= k < start->Page_0.images@.len() ==> (#[trigger] start->Page_0.images@[k])@ == records@[offset + k]@
            &&& is_blank && offset < records@.len() ==> start->Page_0.images@.len() == (if records@.len() - offset
                <= length {
                records@.len() - offset
            } else {
                length
            })
            &&& !is_blank && is_same ==> start is Page && is_page_of(
                start->Page_0,
                records@,
                session->0.results@,
                offset as int,
                length,
            )
            &&& !is_blank && !is_same ==> start is Plan
        }),
{
    let length = page_length(page_size as int);
    let cut = crate::text::lemma_trimmed_cut(query@, blank());
    let rest = trimmed(query@, blank());
    if rest.len() > 0 {
        assert(rest[0] == query@[cut.0]);
        assert(!white_space(query@[cut.0]));
    } else {
        assert forall|i: int| 0 <= i < query@.len() implies white_space(#[trigger] query@[i]) by {
            assert(blank()(query@[i]));
        }
    }
    if rest.len() == 0 {
        lemma_browsed(start->Page_0, records@, offset as int, length);
    } else if session_serves(*session, optional_text(*root), query@) {
        lemma_page(start->Page_0, records@, session->0.results@, offset as int, length);
    }
}

/// A search ends with the page that was asked for, of results that stand each for one of those
/// found, with the score that was given to it, the best ones first. Where the query has only
/// filters, or a word was found, and no limit is set, each of those found is a result.
pub proof fn law_a_search_ends_with_what_it_found(
    records: &Vec<ImageRecord>,
    found: &Vec<ScoredCandidate>,
    scores: &Vec<Score>,
    plan: &QueryPlan,
    query: String,
    root: Option<String>,
    offset: usize,
    page_size: usize,
    end: SearchEnd,
) -> (order: Seq<usize>)
    requires
        candidates_fit(found@, records@.len()),
        scores@.len() == found@.len(),
        call_ensures(finish_search, (records, found, scores, plan, query, root, offset, page_size), end),
    ensures
        is_page_of(
            end.page,
            records@,
            end.session.results@,
            offset as int,
            if page_size < 1 {
                1
            } else if page_size > 200 {
                200
            } else {
                page_size as int
            },
        ),
        order.len() == found@.len(),
        forall|k: usize| k < found@.len() ==> #[trigger] order.contains(k),
        end.session.results@.len() <= found@.len(),
        forall|k: int|
            0 <= k < end.session.results@.len() ==> order[k] < found@.len() && (
            #[trigger] end.session.results@[k]).index == found@[order[k] as int].index
                && end.session.results@[k].score == scores@[order[k] as int],
        forall|i: int, j: int|
            0 <= i < j < end.session.results@.len() ==> is_no_worse(
                records@,
                #[trigger] end.session.results@[i],
                #[trigger] end.session.results@[j],
            ),
        forall|i: int, j: int|
            0 <= i < end.session.results@.len() <= j < order.len() ==> is_no_worse(
                records@,
                #[trigger] end.session.results@[i],
                (SearchResultRef {
                    index: found@[#[trigger] order[j] as int].index,
                    score: scores@[order[j] as int],
                }),
            ),
        ({
            let is_short = !has_no_words(*plan) && forall|k: int|
                0 <= k < found@.len() ==> !(#[trigger] found@[k]).lexical_allowed || found@[k].hits == 0
                    && found@[k].matched == 0;
            let count = end.session.results@.len();
            &&& plan.limit is Some ==> count <= plan.limit->0
            &&& is_short ==> count <= 60
            &&& count == found@.len() || plan.limit is Some && count == plan.limit->0 || is_short && count == 60
        }),
        plan.limit is None && has_no_words(*plan) ==> end.session.results@.len() == found@.len(),
        plan.limit is None && (exists|k: int|
            0 <= k < found@.len() && (#[trigger] found@[k]).lexical_allowed && (found@[k].hits > 0 || found@[k].matched
                > 0)) ==> end.session.results@.len() == found@.len(),
        plan.limit is Some ==> end.session.results@.len() <= plan.limit->0,
        plan.limit is Some && has_no_words(*plan) && plan.limit->0 <= found@.len() ==> end.session.results@.len()
            == plan.limit->0,
        end.session.query == query,
        end.session.root == root,
{
    let results = end.session.results@;
    let pairs = scored_results(found@, scores@);
    lemma_page(end.page, records@, results, offset as int, page_length(page_size as int));
    let kept = result_limit(plan@.limit, all_are_wanted(found@, plan@));
    let all = choose|all: Seq<SearchResultRef>| #[trigger]
        ranks_results(images(records@), pairs, all) && results == cut_to(all, kept);
    let order = choose|order: Seq<usize>| #[trigger] is_order_of(order, pairs.len()) && all == in_order(pairs, order);
    assert forall|k: usize| k < found@.len() implies #[trigger] order.contains(k) by {
        lemma_order_is_complete(order, found@.len(), k);
    }
    assert forall|k: int| 0 <= k < all.len() implies order[k] < found@.len() && (#[trigger] all[k]).index
        == found@[order[k] as int].index && all[k].score == scores@[order[k] as int] && all[k].index
        < records@.len() by {
        assert(order[k] < found@.len());
        assert(found@[order[k] as int].index < records@.len());
    }
    assert forall|k: int| 0 <= k < results.len() implies order[k] < found@.len() && (#[trigger] results[k]).index
        == found@[order[k] as int].index && results[k].score == scores@[order[k] as int] by {
        assert(results[k] == all[k]);
    }
    assert forall|i: int, j: int| 0 <= i < j < results.len() implies is_no_worse(
        records@,
        #[trigger] results[i],
        #[trigger] results[j],
    ) by {
        assert(results[i] == all[i] && results[j] == all[j]);
        lemma_no_worse(records@, all[i], all[j]);
    }
    assert forall|i: int, j: int| 0 <= i < results.len() <= j < order.len() implies is_no_worse(
        records@,
        #[trigger] results[i],
        (SearchResultRef { index: found@[#[trigger] order[j] as int].index, score: scores@[order[j] as int] }),
    ) by {
        assert(results[i] == all[i]);
        assert(all[j].index < records@.len());
        lemma_no_worse(records@, all[i], all[j]);
    }
    law_search_without_words_is_short(images(records@), found@, scores@, plan@, results);
    assert(has_positive_query(plan@) == !has_no_words(*plan));
    if !any_word_hit(found@) {
        assert forall|k: int| 0 <= k < found@.len() implies !(#[trigger] found@[k]).lexical_allowed || found@[k].hits
            == 0 && found@[k].matched == 0 by {
            assert(!found@[k].lexical_match());
        }
    } else {
        let k = choose|k: int| 0 <= k < found@.len() && (#[trigger] found@[k]).lexical_match();
        assert(found@[k].lexical_allowed && (found@[k].hits > 0 || found@[k].matched > 0));
    }
    if exists|k: int|
        0 <= k < found@.len() && (#[trigger] found@[k]).lexical_allowed && (found@[k].hits > 0 || found@[k].matched
            > 0) {
        let k = choose|k: int|
            0 <= k < found@.len() && (#[trigger] found@[k]).lexical_allowed && (found@[k].hits > 0 || found@[k].matched
                > 0);
        assert(found@[k].lexical_match());
    }
    order
}

/// The names on the records are listed in order, each of them once: exactly those that stand on
/// one of the records.
pub proof fn law_people_on_records_are_known(records: &Vec<ImageRecord>, people: Vec<String>, name: Seq<char>)
    requires
        call_ensures(known_people, (records,), people),
    ensures
        texts(people@).contains(name) <==> exists|k: int|
            0 <= k < records@.len() && texts((#[trigger] records@[k]).people@).contains(name),
        forall|i: int, j: int|
            0 <= i < j < people@.len() ==> text_before((#[trigger] people@[i])@, (#[trigger] people@[j])@),
{
    let all = images(records@);
    lemma_all_people(all, name);
    assert forall|k: int| 0 <= k < records@.len() implies #[trigger] all[k] == records@[k]@ by {}
    if exists|k: int| 0 <= k < all.len() && (#[trigger] all[k]).people.contains(name) {
        let k = choose|k: int| 0 <= k < all.len() && (#[trigger] all[k]).people.contains(name);
        assert(texts(records@[k].people@).contains(name));
    }
    if exists|k: int| 0 <= k < records@.len() && texts((#[trigger] records@[k]).people@).contains(name) {
        let k = choose|k: int| 0 <= k < records@.len() && texts((#[trigger] records@[k]).people@).contains(name);
        assert(all[k].people.contains(name));
    }
    assert forall|i: int, j: int| 0 <= i < j < people@.len() implies text_before(
        (#[trigger] people@[i])@,
        (#[trigger] people@[j])@,
    ) by {
        assert(text_before(texts(people@)[i], texts(people@)[j]));
    }
}

proof fn lemma_all_people(records: Seq<ImageText>, name: Seq<char>)
    ensures
        all_people(records).contains(name) <==> exists|k: int|
            0 <= k < records.len() && (#[trigger] records[k]).people.contains(name),
    decreases records.len(),
{
    if records.len() > 0 {
        let shorter = records.drop_last();
        let last = records[records.len() - 1];
        lemma_all_people(shorter, name);
        lemma_parts_contain(all_people(shorter), last.people, name);
        if exists|k: int| 0 <= k < shorter.len() && (#[trigger] shorter[k]).people.contains(name) {
            let k = choose|k: int| 0 <= k < shorter.len() && (#[trigger] shorter[k]).people.contains(name);
            assert(records[k].people.contains(name));
        }
        if exists|k: int| 0 <= k < records.len() && (#[trigger] records[k]).people.contains(name) {
            let k = choose|k: int| 0 <= k < records.len() && (#[trigger] records[k]).people.contains(name);
            if k < shorter.len() {
                assert(shorter[k].people.contains(name));
            }
        }
    }
}

/// The best score of the candidates is the one of a candidate, and no candidate has a higher one;
/// there is none exactly where no candidate has a score.
pub proof fn law_best_semantic_score_is_greatest(candidates: &Vec<ScoredCandidate>, best: Option<Score>, at: int)
    requires
        call_ensures(best_semantic_score, (candidates,), best),
    ensures
        0 <= at < candidates@.len() && candidates@[at].semantic_score is Some ==> best is Some
            && candidates@[at].semantic_score->0.key <= best->0.key,
        best is Some ==> exists|k: int| 0 <= k < candidates@.len() && (#[trigger] candidates@[k]).semantic_score == best,
{
    lemma_semantic_scores(candidates@);
    let scores = semantic_scores(candidates@);
    if 0 <= at < candidates@.len() && candidates@[at].semantic_score is Some {
        let score = candidates@[at].semantic_score->0;
        assert(scores.contains(score));
        let k = choose|k: int| 0 <= k < scores.len() && scores[k] == score;
        assert(scores[k].key <= best->0.key);
    }
    if best is Some {
        let k = choose|k: int| 0 <= k < scores.len() && scores[k] == best->0;
        assert(is_score_of(candidates@, scores[k]));
    }
}

/// One of the candidates has a score.
spec fn is_score_of(candidates: Seq<ScoredCandidate>, score: Score) -> bool {
    exists|k: int| 0 <= k < candidates.len() && (#[trigger] candidates[k]).semantic_score == Some(score)
}

proof fn lemma_semantic_scores(candidates: Seq<ScoredCandidate>)
    ensures
        forall|k: int|
            0 <= k < candidates.len() && (#[trigger] candidates[k]).semantic_score is Some ==> semantic_scores(
                candidates,
            ).contains(candidates[k].semantic_score->0),
        forall|k: int|
            0 <= k < semantic_scores(candidates).len() ==> is_score_of(
                candidates,
                #[trigger] semantic_scores(candidates)[k],
            ),
    decreases candidates.len(),
{
    if candidates.len() > 0 {
        let shorter = candidates.drop_last();
        let last = candidates[candidates.len() - 1];
        lemma_semantic_scores(shorter);
        let before = semantic_scores(shorter);
        let after = semantic_scores(candidates);
        assert forall|k: int| 0 <= k < candidates.len() && (#[trigger] candidates[k]).semantic_score is Some implies after.contains(
            candidates[k].semantic_score->0,
        ) by {
            if k < shorter.len() {
                assert(shorter[k] == candidates[k]);
                let score = shorter[k].semantic_score->0;
                let n = choose|n: int| 0 <= n < before.len() && before[n] == score;
                assert(after[n] == score);
            } else {
                assert(after[before.len() as int] == last.semantic_score->0);
            }
        }
        assert forall|k: int| 0 <= k < after.len() implies is_score_of(candidates, #[trigger] after[k]) by {
            if k < before.len() {
                assert(is_score_of(shorter, before[k]));
                let n = choose|n: int|
                    0 <= n < shorter.len() && (#[trigger] shorter[n]).semantic_score == Some(before[k]);
                assert(candidates[n].semantic_score == Some(after[k]));
            } else {
                assert(candidates[candidates.len() - 1].semantic_score == Some(after[k]));
            }
        }
    }
}

/// The paths that the answers of the full-text index list, one answer after the other.
pub open spec fn listed_paths(answers: Seq<Vec<String>>) -> Seq<Seq<char>> {
    answers.map_values(|answer: Vec<String>| texts(answer@)).flatten_alt()
}

proof fn lemma_listed_paths(answers: Seq<Vec<String>>)
    ensures
        all_rows(answers) == listed_paths(answers),
    decreases answers.len(),
{
    if answers.len() > 0 {
        lemma_listed_paths(answers.drop_last());
        let all = answers.map_values(|answer: Vec<String>| texts(answer@));
        assert(all.drop_last() =~= answers.drop_last().map_values(|answer: Vec<String>| texts(answer@)));
        assert(all.last() == texts(answers.last()@));
    }
}

/// A path is counted as often as the answers for the words that count list it, up to a bound, and
/// not at all where an answer for a word that rules out lists it.
pub proof fn law_paths_are_counted(
    wanted: &Vec<Vec<String>>,
    unwanted: &Vec<Vec<String>>,
    scores: Option<TextScores>,
    path: &str,
    table: TextScores,
    count: u32,
)
    requires
        call_ensures(fts5_search_scores, (wanted, unwanted), scores),
        scores is Some ==> table == scores->0,
        scores is Some ==> call_ensures(TextScores::count, (&table, path), count),
        scores is None ==> count == 0,
    ensures
        listed_paths(unwanted@).contains(path@) ==> count == 0,
        !listed_paths(unwanted@).contains(path@) && listed_paths(wanted@).to_multiset().count(path@) <= 16_777_216
            ==> count == listed_paths(wanted@).to_multiset().count(path@),
        !listed_paths(unwanted@).contains(path@) && listed_paths(wanted@).to_multiset().count(path@) > 0 ==> count > 0,
{
    lemma_listed_paths(wanted@);
    lemma_listed_paths(unwanted@);
    let rows = all_rows(wanted@);
    lemma_occurrences(rows, path@);
    lemma_occurrences_are_counted(rows, path@);
}

/// A path has a score exactly where a row of the vector index has it: where all scores are
/// numbers, that of one of its rows which no other row of it exceeds.
pub proof fn law_paths_have_their_best_score(
    rows: &Vec<VectorRow>,
    scores: Option<VectorScores>,
    path: &str,
    table: VectorScores,
    score: Option<Score>,
    at: int,
)
    requires
        path@.len() > 0,
        forall|k: int| 0 <= k < rows@.len() ==> (#[trigger] rows@[k]).score.is_number(),
        call_ensures(sqlite_vec_search_scores, (rows,), scores),
        scores is Some ==> table == scores->0,
        scores is Some ==> call_ensures(VectorScores::score, (&table, path), score),
        scores is None ==> score is None,
    ensures
        0 <= at < rows@.len() && optional_text(rows@[at].path) == Some(path@) ==> score is Some && score->0.key
            >= rows@[at].score.key,
        score is Some ==> exists|k: int|
            0 <= k < rows@.len() && optional_text((#[trigger] rows@[k]).path) == Some(path@) && rows@[k].score
                == score->0,
{
    lemma_best_score(rows@, path@);
    if scores is None {
        assert(!best_scores(rows@).contains_key(path@)) by {
            assert(best_scores(rows@).dom() =~= Set::empty());
        }
    }
}

/// Each record that is judged to answer the plan is a candidate, under its own place, and no
/// other record is.
pub proof fn law_each_answer_is_a_candidate(
    records: &Vec<ImageRecord>,
    extensions: &Vec<Option<String>>,
    plan: &QueryPlan,
    text_scores: &Option<TextScores>,
    vector_scores: &Option<VectorScores>,
    candidates: Vec<ScoredCandidate>,
    at: usize,
    answer: Option<ScoredCandidate>,
)
    requires
        plan.text.should@.len() + plan.text.must@.len() <= usize::MAX,
        records@.len() <= usize::MAX,
        extensions@.len() == records@.len(),
        call_ensures(judge_records, (records, extensions, plan, text_scores, vector_scores), candidates),
        at < records@.len(),
        call_ensures(
            judge_record,
            (at, &records@[at as int], plan, &extensions@[at as int], text_scores, vector_scores),
            answer,
        ),
    ensures
        answer is Some ==> candidates@.contains(answer->0),
        answer is None ==> forall|k: int| 0 <= k < candidates@.len() ==> (#[trigger] candidates@[k]).index != at,
{
    let all = images(records@);
    let types = optional_texts(extensions@);
    let counts = count_table(*text_scores);
    let scores = score_table(*vector_scores);
    law_candidates_are_admitted(all, types, plan@, counts, scores);
    assert(all[at as int] == records@[at as int]@);
    assert(types[at as int] == optional_text(extensions@[at as int]));
    let found = candidates_of(all, types, plan@, counts, scores);
    assert(found == candidates@);
    if answer is Some {
        assert(admitted(all[at as int], plan@, types[at as int]));
        assert(found.contains(candidate_of(at as int, all[at as int], plan@, counts, scores)));
    }
}

/// Where a plan asks for no file type, each record that answers it, whatever its extension, is a
/// candidate under its own place, and no other record is.
pub proof fn law_each_answer_counts_whatever_its_type(
    records: &Vec<ImageRecord>,
    plan: &QueryPlan,
    text_scores: &Option<TextScores>,
    vector_scores: &Option<VectorScores>,
    candidates: Vec<ScoredCandidate>,
    at: usize,
    extension: &Option<String>,
    answer: Option<ScoredCandidate>,
)
    requires
        plan.text.should@.len() + plan.text.must@.len() <= usize::MAX,
        records@.len() <= usize::MAX,
        plan.extensions@.len() == 0,
        call_ensures(score_records, (records, plan, text_scores, vector_scores), candidates),
        at < records@.len(),
        call_ensures(
            judge_record,
            (at, &records@[at as int], plan, extension, text_scores, vector_scores),
            answer,
        ),
    ensures
        answer is Some ==> candidates@.contains(answer->0),
        answer is None ==> forall|k: int| 0 <= k < candidates@.len() ==> (#[trigger] candidates@[k]).index != at,
{
    let all = images(records@);
    let counts = count_table(*text_scores);
    let scores = score_table(*vector_scores);
    let types = choose|types: Seq<Option<Seq<char>>>| #[trigger]
        may_have_extensions(all, types) && candidates@ == candidates_of(all, types, plan@, counts, scores);
    law_candidates_are_admitted(all, types, plan@, counts, scores);
    assert(all[at as int] == records@[at as int]@);
    assert(plan@.extensions.len() == 0);
    assert(admitted(all[at as int], plan@, types[at as int]) == admitted(
        all[at as int],
        plan@,
        optional_text(*extension),
    ));
    let found = candidates_of(all, types, plan@, counts, scores);
    if answer is Some {
        assert(found.contains(candidate_of(at as int, all[at as int], plan@, counts, scores)));
    }
}

/// As many neighbours are asked for as are wanted, all rows where all are wanted, and one at least.
pub proof fn law_enough_neighbours_are_asked_for(limit: usize, rows: Option<i64>, wanted: usize)
    requires
        call_ensures(nearest_limit, (limit, rows), wanted),
    ensures
        wanted >= 1,
        1 <= limit < usize::MAX ==> wanted == limit,
        limit == usize::MAX && rows is Some && 1 <= rows->0 <= usize::MAX ==> wanted == rows->0,
        limit == usize::MAX && rows is None ==> wanted == 1,
{
}

/// The results of the last search are used again exactly where it was the same query in the same
/// folder.
pub proof fn law_the_same_search_is_served_again(
    session: &Option<SearchSessionState>,
    root: &Option<String>,
    query: &String,
    serves: bool,
)
    requires
        call_ensures(does_session_serve, (session, root, query), serves),
    ensures
        serves ==> *session is Some && session->0.query@ == query@,
        serves && *root is Some ==> session->0.root is Some && session->0.root->0@ == root->0@,
        serves && *root is None ==> session->0.root is None,
        *session is Some && session->0.query@ == query@ && *root is Some && session->0.root is Some
            && session->0.root->0@ == root->0@ ==> serves,
        *session is Some && session->0.query@ == query@ && *root is None && session->0.root is None ==> serves,
{
}

/// A plan is searched for by meaning exactly where it has a text and there are vectors.
pub proof fn law_texts_are_searched_by_meaning(plan: &QueryPlan, vectors_available: bool, wanted: bool)
    requires
        call_ensures(wants_embeddings, (plan, vectors_available), wanted),
    ensures
        wanted <==> plan.semantic_query@.len() > 0 && vectors_available,
{
}

/// Each of those found has the score that was given to it, under its own place.
pub proof fn law_scores_belong_to_what_was_found(
    found: &Vec<ScoredCandidate>,
    scores: &Vec<Score>,
    results: Vec<SearchResultRef>,
    at: int,
)
    requires
        scores@.len() == found@.len(),
        call_ensures(pair_scores, (found, scores), results),
    ensures
        results@.len() == found@.len(),
        0 <= at < results@.len() ==> results@[at].index == found@[at].index && results@[at].score == scores@[at],
{
}

/// A query that is new is planned with the names on the records, in the year of the clock.
pub proof fn law_new_queries_are_planned(
    query: &String,
    text: &str,
    records: &Vec<ImageRecord>,
    people: Vec<String>,
    plan: QueryPlan,
    session: &Option<SearchSessionState>,
    root: &Option<String>,
    offset: usize,
    page_size: usize,
    start: SearchStart,
)
    requires
        session_serves(*session, optional_text(*root), query@) ==> results_fit(session->0.results@, records@.len()),
        call_ensures(begin_search, (query, records, session, root, offset, page_size), start),
        call_ensures(plan_search, (query, records), plan),
        call_ensures(known_people, (records,), people),
        text@ == query@,
    ensures
        exists|year: i32| -9999 <= year <= 9999 && #[trigger] is_plan_of_year(text, &people, year, plan),
        start is Plan ==> exists|year: i32|
            -9999 <= year <= 9999 && #[trigger] is_plan_of_year(text, &people, year, start->Plan_0),
{
    lemma_plan_of_year(text, records@, &people, plan);
    if start is Plan {
        lemma_plan_of_year(text, records@, &people, start->Plan_0);
    }
}

/// What a query asks for among records is what it asks for with the names on them.
proof fn lemma_plan_of_year(text: &str, records: Seq<ImageRecord>, people: &Vec<String>, plan: QueryPlan)
    requires
        exists|year: int| #[trigger] clock_year(year) && plan_among(text@, images(records), year, plan@),
        lists_names(texts(people@), all_people(images(records))),
    ensures
        exists|year: i32| -9999 <= year <= 9999 && #[trigger] is_plan_of_year(text, people, year, plan),
{
    let year = choose|year: int| #[trigger] clock_year(year) && plan_among(text@, images(records), year, plan@);
    let names = choose|names: Seq<Seq<char>>| #[trigger]
        lists_names(names, all_people(images(records))) && plan@ == plan_of(text@, names, year);
    law_name_list_is_unique(names, texts(people@), all_people(images(records)));
    assert(is_plan_of_year(text, people, year as i32, plan));
}

/// A record is judged by the extension of its path.
pub proof fn law_records_are_judged_by_their_paths(
    index: usize,
    record: &ImageRecord,
    plan: &QueryPlan,
    text_scores: &Option<TextScores>,
    vector_scores: &Option<VectorScores>,
    candidate: Option<ScoredCandidate>,
) -> (extension: Option<Seq<char>>)
    requires
        plan.text.should@.len() + plan.text.must@.len() <= usize::MAX,
        call_ensures(score_record, (index, record, plan, text_scores, vector_scores), candidate),
    ensures
        may_have_extension(record.path@, extension),
        forall|given: &Option<String>, judged: Option<ScoredCandidate>|
            optional_text(*given) == extension && #[trigger] call_ensures(
                judge_record,
                (index, record, plan, given, text_scores, vector_scores),
                judged,
            ) ==> judged == candidate,
{
    choose|extension: Option<Seq<char>>|
        #![trigger may_have_extension(record@.path, extension)]
        may_have_extension(record@.path, extension) && candidate == if admitted(record@, plan@, extension) {
            Some(
                candidate_of(
                    index as int,
                    record@,
                    plan@,
                    count_table(*text_scores),
                    score_table(*vector_scores),
                ),
            )
        } else {
            None
        }
}

/// Results can be shown exactly where each stands for a record, and so can what was found.
pub proof fn law_places_are_held_against_the_records(
    results: &Vec<SearchResultRef>,
    found: &Vec<ScoredCandidate>,
    count: usize,
    fit: bool,
    found_fit: bool,
    at: int,
)
    requires
        call_ensures(do_results_fit, (results, count), fit),
        call_ensures(do_candidates_fit, (found, count), found_fit),
    ensures
        fit && 0 <= at < results@.len() ==> results@[at].index < count,
        found_fit && 0 <= at < found@.len() ==> found@[at].index < count,
        !fit ==> exists|k: int| 0 <= k < results@.len() && (#[trigger] results@[k]).index >= count,
        !found_fit ==> exists|k: int| 0 <= k < found@.len() && (#[trigger] found@[k]).index >= count,
{
}

} // verus!
