//! Text as a sequence of characters: searching, replacing, trimming, splitting
//! and comparing.
//!
//! The functions of this module work on `Vec<char>` and are specified over
//! `Seq<char>`, the view that `str` and `String` share.

use vstd::prelude::*;

verus! {

/// `String::push` appends one character.
pub assume_specification[ String::push ](text: &mut String, character: char)
    ensures
        final(text)@ == old(text)@.push(character),
;

/// The characters that have the Unicode property `White_Space`.
pub open spec fn white_space(character: char) -> bool {
    let code = character as int;
    ||| 0x9 <= code <= 0xd
    ||| code == 0x20
    ||| code == 0x85
    ||| code == 0xa0
    ||| code == 0x1680
    ||| 0x2000 <= code <= 0x200a
    ||| code == 0x2028
    ||| code == 0x2029
    ||| code == 0x202f
    ||| code == 0x205f
    ||| code == 0x3000
}

/// The lowercase form of a text, by the Unicode case mapping.
pub uninterp spec fn lowercase(text: Seq<char>) -> Seq<char>;

/// `char::is_whitespace` tells whether a character has the property `White_Space`.
#[verifier::external_body]
pub(crate) fn is_whitespace(character: char) -> (found: bool)
    ensures
        found == white_space(character),
{
    character.is_whitespace()
}

/// `str::to_lowercase` returns the lowercase form of the text. A lowercase form is its own
/// lowercase form, and no character but a blank has one that starts or ends with a blank.
#[verifier::external_body]
pub(crate) fn to_lowercase(text: &str) -> (lower: String)
    ensures
        lower@ == lowercase(text@),
        lowercase(lower@) == lower@,
        trimmed(text@, blank()) == text@ ==> trimmed(lower@, blank()) == lower@,
{
    text.to_lowercase()
}

// ---------------------------------------------------------------------------
// Conversion
// ---------------------------------------------------------------------------

/// The texts of a sequence of strings.
pub open spec fn texts(strings: Seq<String>) -> Seq<Seq<char>> {
    strings.map_values(|string: String| string@)
}

/// The texts of a sequence of string slices.
pub open spec fn slices(strings: Seq<&str>) -> Seq<Seq<char>> {
    strings.map_values(|string: &str| string@)
}

/// The text of an optional string.
pub open spec fn optional_text(string: Option<String>) -> Option<Seq<char>> {
    match string {
        Some(string) => Some(string@),
        None => None,
    }
}

/// The characters of `text`, in order.
pub fn chars_of(text: &str) -> (chars: Vec<char>)
    ensures
        chars@ == text@,
{
    let mut chars: Vec<char> = Vec::new();
    for character in iter: text.chars()
        invariant
            chars@ == iter.seq().take(iter.index()),
            iter.seq() == text@,
    {
        chars.push(character);
    }
    chars
}

/// The string made of `chars`.
pub fn string_of(chars: &Vec<char>) -> (text: String)
    ensures
        text@ == chars@,
{
    let mut text: String = String::new();
    for i in 0..chars.len()
        invariant
            text@ == chars@.take(i as int),
    {
        text.push(chars[i]);
    }
    text
}

/// The characters from `from` up to, not including, `to`.
pub fn part_of(chars: &Vec<char>, from: usize, to: usize) -> (part: Vec<char>)
    requires
        from <= to <= chars@.len(),
    ensures
        part@ == chars@.subrange(from as int, to as int),
{
    let mut part: Vec<char> = Vec::new();
    for i in from..to
        invariant
            from <= to <= chars@.len(),
            part@ == chars@.subrange(from as int, i as int),
    {
        part.push(chars[i]);
    }
    part
}

/// Appends the characters of `more` to `chars`.
pub fn append_chars(chars: &mut Vec<char>, more: &Vec<char>)
    ensures
        final(chars)@ == old(chars)@ + more@,
{
    let ghost before = chars@;
    for i in 0..more.len()
        invariant
            chars@ == before + more@.take(i as int),
    {
        chars.push(more[i]);
    }
}

/// A copy of each string.
pub fn copy_strings(strings: &Vec<String>) -> (copies: Vec<String>)
    ensures
        texts(copies@) == texts(strings@),
{
    let mut copies: Vec<String> = Vec::new();
    for i in 0..strings.len()
        invariant
            copies@.len() == i,
            forall|k: int| 0 <= k < i ==> #[trigger] copies@[k]@ == strings@[k]@,
    {
        copies.push(strings[i].clone());
    }
    assert(texts(copies@) =~= texts(strings@));
    copies
}

/// A copy of an optional string.
pub fn copy_optional(string: &Option<String>) -> (copy: Option<String>)
    ensures
        optional_text(copy) == optional_text(*string),
{
    match string {
        Some(string) => Some(string.clone()),
        None => None,
    }
}

/// Whether two character vectors hold the same text.
pub fn same_chars(left: &Vec<char>, right: &Vec<char>) -> (same: bool)
    ensures
        same == (left@ == right@),
{
    if left.len() != right.len() {
        return false;
    }
    for i in 0..left.len()
        invariant
            left@.len() == right@.len(),
            left@.take(i as int) == right@.take(i as int),
    {
        if left[i] != right[i] {
            return false;
        }
        assert(left@.take(i + 1) =~= left@.take(i as int).push(left@[i as int]));
        assert(right@.take(i + 1) =~= right@.take(i as int).push(right@[i as int]));
    }
    assert(left@.take(left@.len() as int) =~= left@);
    assert(right@.take(right@.len() as int) =~= right@);
    true
}

/// Whether `strings` holds a string with the given text.
pub fn has_string(strings: &Vec<String>, wanted: &String) -> (found: bool)
    ensures
        found == texts(strings@).contains(wanted@),
{
    for i in 0..strings.len()
        invariant
            forall|k: int| 0 <= k < i ==> #[trigger] strings@[k]@ != wanted@,
    {
        if strings[i] == *wanted {
            assert(texts(strings@)[i as int] == wanted@);
            return true;
        }
    }
    assert forall|k: int| 0 <= k < texts(strings@).len() implies texts(strings@)[k] != wanted@ by {
        assert(strings@[k]@ != wanted@);
    }
    false
}

/// Whether `slices` holds the given text.
pub fn has_text(words: &Vec<&str>, wanted: &Vec<char>) -> (found: bool)
    ensures
        found == slices(words@).contains(wanted@),
{
    for i in 0..words.len()
        invariant
            forall|k: int| 0 <= k < i ==> #[trigger] words@[k]@ != wanted@,
    {
        let word: Vec<char> = chars_of(words[i]);
        if same_chars(&word, wanted) {
            assert(slices(words@)[i as int] == wanted@);
            return true;
        }
    }
    assert forall|k: int| 0 <= k < slices(words@).len() implies slices(words@)[k] != wanted@ by {
        assert(words@[k]@ != wanted@);
    }
    false
}

// ---------------------------------------------------------------------------
// Searching
// ---------------------------------------------------------------------------

/// `needle` stands in `hay` at position `at`.
pub open spec fn occurs_at(hay: Seq<char>, needle: Seq<char>, at: int) -> bool {
    &&& 0 <= at
    &&& at + needle.len() <= hay.len()
    &&& hay.subrange(at, at + needle.len()) == needle
}

/// `needle` stands somewhere in `hay`.
pub open spec fn holds_text(hay: Seq<char>, needle: Seq<char>) -> bool {
    exists|at: int| occurs_at(hay, needle, at)
}

/// `at` is the first position of `needle` in `hay`.
pub open spec fn first_at(hay: Seq<char>, needle: Seq<char>, at: int) -> bool {
    &&& occurs_at(hay, needle, at)
    &&& forall|i: int| i < at ==> !occurs_at(hay, needle, i)
}

/// The first position of `needle` in `hay`, if it stands there at all.
pub open spec fn find_text(hay: Seq<char>, needle: Seq<char>) -> Option<int> {
    if holds_text(hay, needle) {
        Some(choose|at: int| first_at(hay, needle, at))
    } else {
        None
    }
}

/// The first position is what `find_text` gives.
pub proof fn lemma_find_text(hay: Seq<char>, needle: Seq<char>, at: int)
    requires
        first_at(hay, needle, at),
    ensures
        find_text(hay, needle) == Some(at),
{
    let chosen = choose|i: int| first_at(hay, needle, i);
    assert(first_at(hay, needle, chosen));
    if chosen < at {
        assert(!occurs_at(hay, needle, chosen));
    }
    if at < chosen {
        assert(!occurs_at(hay, needle, at));
    }
}

/// Whether `needle` stands in `hay` at position `at`.
pub fn matches_at(hay: &Vec<char>, needle: &Vec<char>, at: usize) -> (found: bool)
    requires
        at <= hay@.len(),
    ensures
        found == occurs_at(hay@, needle@, at as int),
{
    if needle.len() > hay.len() - at {
        return false;
    }
    for i in 0..needle.len()
        invariant
            at + needle.len() <= hay.len(),
            forall|k: int| 0 <= k < i ==> hay@[at + k] == #[trigger] needle@[k],
    {
        if hay[at + i] != needle[i] {
            assert(hay@.subrange(at as int, at + needle@.len())[i as int] != needle@[i as int]);
            return false;
        }
    }
    assert(hay@.subrange(at as int, at + needle@.len()) =~= needle@);
    true
}

/// The first position of `needle` in `hay`.
pub fn find(hay: &Vec<char>, needle: &Vec<char>) -> (found: Option<usize>)
    ensures
        match found {
            Some(at) => first_at(hay@, needle@, at as int) && find_text(hay@, needle@) == Some(at as int)
                && at + needle.len() <= hay.len(),
            None => !holds_text(hay@, needle@) && find_text(hay@, needle@) is None,
        },
{
    let mut at: usize = 0;
    while needle.len() <= hay.len() - at
        invariant
            at <= hay@.len(),
            forall|i: int| i < at ==> !occurs_at(hay@, needle@, i),
        decreases hay@.len() - at,
    {
        if matches_at(hay, needle, at) {
            proof {
                lemma_find_text(hay@, needle@, at as int);
            }
            return Some(at);
        }
        assert(at < hay@.len()) by {
            if at == hay@.len() {
                assert(hay@.subrange(at as int, at as int) =~= needle@);
            }
        }
        at = at + 1;
    }
    assert forall|i: int| !occurs_at(hay@, needle@, i) by {}
    None
}

/// Whether `needle` stands somewhere in `hay`.
pub fn contains(hay: &Vec<char>, needle: &Vec<char>) -> (found: bool)
    ensures
        found == holds_text(hay@, needle@),
{
    find(hay, needle).is_some()
}

// ---------------------------------------------------------------------------
// Replacing
// ---------------------------------------------------------------------------

/// `text` with every occurrence of `from`, taken from the left without overlap,
/// replaced by `to`. An empty `from` stands before and after every character.
pub open spec fn replaced(text: Seq<char>, from: Seq<char>, to: Seq<char>) -> Seq<char>
    decreases text.len(),
{
    if from.len() == 0 {
        if text.len() == 0 {
            to
        } else {
            to + text.take(1) + replaced(text.skip(1), from, to)
        }
    } else if text.len() < from.len() {
        text
    } else if occurs_at(text, from, 0) {
        to + replaced(text.skip(from.len() as int), from, to)
    } else {
        text.take(1) + replaced(text.skip(1), from, to)
    }
}

/// Replaces every occurrence of `from` by `to`.
pub fn replace(text: &Vec<char>, from: &Vec<char>, to: &Vec<char>) -> (result: Vec<char>)
    ensures
        result@ == replaced(text@, from@, to@),
{
    let mut result: Vec<char> = Vec::new();
    let mut at: usize = 0;
    assert(text@.skip(0) =~= text@);
    if from.len() == 0 {
        while at < text.len()
            invariant
                from@.len() == 0,
                at <= text@.len(),
                replaced(text@, from@, to@) =~= result@ + replaced(text@.skip(at as int), from@, to@),
            decreases text@.len() - at,
        {
            let ghost rest = text@.skip(at as int);
            append_chars(&mut result, to);
            result.push(text[at]);
            assert(rest.take(1) =~= seq![text@[at as int]]);
            assert(rest.skip(1) =~= text@.skip(at + 1));
            at = at + 1;
        }
        append_chars(&mut result, to);
        return result;
    }
    while at < text.len()
        invariant
            from@.len() > 0,
            at <= text@.len(),
            replaced(text@, from@, to@) =~= result@ + replaced(text@.skip(at as int), from@, to@),
        decreases text@.len() - at,
    {
        let ghost rest = text@.skip(at as int);
        assert(occurs_at(text@, from@, at as int) <==> occurs_at(rest, from@, 0)) by {
            if at + from@.len() <= text@.len() {
                assert(text@.subrange(at as int, at + from@.len()) =~= rest.subrange(
                    0,
                    from@.len() as int,
                ));
            }
        }
        if matches_at(text, from, at) {
            append_chars(&mut result, to);
            assert(rest.skip(from@.len() as int) =~= text@.skip(at + from@.len()));
            at = at + from.len();
        } else {
            assert(rest.take(1) =~= seq![text@[at as int]]);
            assert(rest.skip(1) =~= text@.skip(at + 1));
            assert(rest =~= rest.take(1) + rest.skip(1));
            result.push(text[at]);
            at = at + 1;
        }
    }
    assert(text@.skip(at as int) =~= Seq::<char>::empty());
    result
}

// ---------------------------------------------------------------------------
// Runs and trimming
// ---------------------------------------------------------------------------

/// How many characters at the start of `text` satisfy `keep`.
pub open spec fn run_length(text: Seq<char>, keep: spec_fn(char) -> bool) -> nat
    decreases text.len(),
{
    if text.len() == 0 || !keep(text[0]) {
        0
    } else {
        1 + run_length(text.skip(1), keep)
    }
}

/// How many characters at the end of `text` satisfy `keep`.
pub open spec fn tail_length(text: Seq<char>, keep: spec_fn(char) -> bool) -> nat
    decreases text.len(),
{
    if text.len() == 0 || !keep(text.last()) {
        0
    } else {
        1 + tail_length(text.drop_last(), keep)
    }
}

/// `text` without the characters at either end that satisfy `drop`.
pub open spec fn trimmed(text: Seq<char>, drop: spec_fn(char) -> bool) -> Seq<char> {
    let rest = text.skip(run_length(text, drop) as int);
    rest.take(rest.len() - tail_length(rest, drop))
}

/// The characters with the property `White_Space`.
pub open spec fn blank() -> spec_fn(char) -> bool {
    |character: char| white_space(character)
}

/// A run ends at the first character that does not satisfy `keep`.
pub proof fn lemma_run_length(text: Seq<char>, keep: spec_fn(char) -> bool, n: int)
    requires
        0 <= n <= text.len(),
        forall|i: int| 0 <= i < n ==> keep(#[trigger] text[i]),
        n < text.len() ==> !keep(text[n]),
    ensures
        run_length(text, keep) == n,
    decreases n,
{
    if n > 0 {
        assert(keep(text[0]));
        assert forall|i: int| 0 <= i < n - 1 implies keep(#[trigger] text.skip(1)[i]) by {
            assert(keep(text[i + 1]));
        }
        lemma_run_length(text.skip(1), keep, n - 1);
    }
}

/// A run holds exactly characters that satisfy `keep`, and stops before one that does not.
pub proof fn lemma_run_bounds(text: Seq<char>, keep: spec_fn(char) -> bool)
    ensures
        run_length(text, keep) <= text.len(),
        forall|i: int| 0 <= i < run_length(text, keep) ==> keep(#[trigger] text[i]),
        run_length(text, keep) < text.len() ==> !keep(text[run_length(text, keep) as int]),
    decreases text.len(),
{
    if text.len() > 0 && keep(text[0]) {
        lemma_run_bounds(text.skip(1), keep);
        assert forall|i: int| 0 <= i < run_length(text, keep) implies keep(#[trigger] text[i]) by {
            if i > 0 {
                assert(keep(text.skip(1)[i - 1]));
            }
        }
    }
}

/// A tail starts after the last character that does not satisfy `keep`.
pub proof fn lemma_tail_length(text: Seq<char>, keep: spec_fn(char) -> bool, n: int)
    requires
        0 <= n <= text.len(),
        forall|i: int| text.len() - n <= i < text.len() ==> keep(#[trigger] text[i]),
        n < text.len() ==> !keep(text[text.len() - n - 1]),
    ensures
        tail_length(text, keep) == n,
    decreases n,
{
    if n > 0 {
        assert(keep(text[text.len() - 1]));
        assert forall|i: int| text.len() - n <= i < text.len() - 1 implies keep(
            #[trigger] text.drop_last()[i],
        ) by {
            assert(keep(text[i]));
        }
        lemma_tail_length(text.drop_last(), keep, n - 1);
    }
}

/// A tail is no longer than its text.
pub proof fn lemma_tail_bounds(text: Seq<char>, keep: spec_fn(char) -> bool)
    ensures
        tail_length(text, keep) <= text.len(),
        forall|i: int| text.len() - tail_length(text, keep) <= i < text.len() ==> keep(#[trigger] text[i]),
        tail_length(text, keep) < text.len() ==> !keep(text[text.len() - tail_length(text, keep) - 1]),
    decreases text.len(),
{
    if text.len() > 0 && keep(text.last()) {
        lemma_tail_bounds(text.drop_last(), keep);
        assert forall|i: int|
            text.len() - tail_length(text, keep) <= i < text.len() implies keep(#[trigger] text[i]) by {
            if i < text.len() - 1 {
                assert(keep(text.drop_last()[i]));
            }
        }
    }
}

/// A trimmed text neither starts nor ends with a character to be dropped.
pub proof fn lemma_trimmed_ends(text: Seq<char>, drop: spec_fn(char) -> bool)
    ensures
        trimmed(text, drop).len() > 0 ==> !drop(trimmed(text, drop)[0]) && !drop(trimmed(text, drop).last()),
{
    lemma_run_bounds(text, drop);
    let rest = text.skip(run_length(text, drop) as int);
    lemma_tail_bounds(rest, drop);
    if rest.len() > 0 {
        assert(rest[0] == text[run_length(text, drop) as int]);
        assert(tail_length(rest, drop) < rest.len());
    }
}

/// A text that neither starts nor ends with a character to be dropped stays as it is.
pub proof fn lemma_nothing_trimmed(text: Seq<char>, drop: spec_fn(char) -> bool)
    requires
        text.len() > 0 ==> !drop(text[0]) && !drop(text.last()),
    ensures
        trimmed(text, drop) == text,
{
    lemma_run_length(text, drop, 0);
    assert(text.skip(0) =~= text);
    lemma_tail_length(text, drop, 0);
    assert(text.take(text.len() as int) =~= text);
}

/// How many blanks stand at the start of `text` from position `from` on.
pub fn blank_run(text: &Vec<char>, from: usize) -> (count: usize)
    requires
        from <= text@.len(),
    ensures
        count == run_length(text@.skip(from as int), blank()),
        from + count <= text.len(),
{
    let mut count: usize = 0;
    while count < text.len() - from && is_whitespace(text[from + count])
        invariant
            from + count <= text@.len(),
            forall|i: int| 0 <= i < count ==> white_space(#[trigger] text@.skip(from as int)[i]),
        decreases text@.len() - from - count,
    {
        assert(text@.skip(from as int)[count as int] == text@[from + count]);
        count = count + 1;
    }
    proof {
        lemma_run_length(text@.skip(from as int), blank(), count as int);
    }
    count
}

/// `text` without the blanks at either end.
pub fn trim(text: &Vec<char>) -> (result: Vec<char>)
    ensures
        result@ == trimmed(text@, blank()),
{
    let start: usize = blank_run(text, 0);
    assert(text@.skip(0) =~= text@);
    let ghost rest = text@.skip(start as int);
    let mut end: usize = text.len();
    while end > start && is_whitespace(text[end - 1])
        invariant
            start <= end <= text@.len(),
            rest == text@.skip(start as int),
            forall|i: int| end - start <= i < rest.len() ==> white_space(#[trigger] rest[i]),
        decreases end - start,
    {
        assert(rest[end - start - 1] == text@[end - 1]);
        end = end - 1;
    }
    proof {
        lemma_tail_length(rest, blank(), text@.len() - end);
        assert(text@.subrange(start as int, end as int) =~= rest.take(end - start));
    }
    part_of(text, start, end)
}

/// `text` without the characters `drop` at either end.
pub fn trim_char(text: &Vec<char>, drop: char) -> (result: Vec<char>)
    ensures
        result@ == trimmed(text@, |character: char| character == drop),
{
    let ghost keep = |character: char| character == drop;
    let mut start: usize = 0;
    while start < text.len() && text[start] == drop
        invariant
            start <= text@.len(),
            forall|i: int| 0 <= i < start ==> #[trigger] text@[i] == drop,
        decreases text@.len() - start,
    {
        start = start + 1;
    }
    let ghost rest = text@.skip(start as int);
    let mut end: usize = text.len();
    while end > start && text[end - 1] == drop
        invariant
            start <= end <= text@.len(),
            rest == text@.skip(start as int),
            forall|i: int| end - start <= i < rest.len() ==> #[trigger] rest[i] == drop,
        decreases end - start,
    {
        assert(rest[end - start - 1] == text@[end - 1]);
        end = end - 1;
    }
    proof {
        lemma_run_length(text@, keep, start as int);
        lemma_tail_length(rest, keep, text@.len() - end);
        assert(text@.subrange(start as int, end as int) =~= rest.take(end - start));
    }
    part_of(text, start, end)
}

/// `text` without its blanks.
pub open spec fn compacted(text: Seq<char>) -> Seq<char>
    decreases text.len(),
{
    if text.len() == 0 {
        text
    } else if white_space(text.last()) {
        compacted(text.drop_last())
    } else {
        compacted(text.drop_last()).push(text.last())
    }
}

/// Drops every blank.
pub fn compact(text: &Vec<char>) -> (result: Vec<char>)
    ensures
        result@ == compacted(text@),
{
    let mut result: Vec<char> = Vec::new();
    for i in 0..text.len()
        invariant
            result@ == compacted(text@.take(i as int)),
    {
        assert(text@.take(i + 1).drop_last() =~= text@.take(i as int));
        assert(text@.take(i + 1).last() == text@[i as int]);
        if !is_whitespace(text[i]) {
            result.push(text[i]);
        }
    }
    assert(text@.take(text@.len() as int) =~= text@);
    result
}

/// The lowercase form of a letter from A to Z; any other character stays.
pub open spec fn ascii_lowered_char(character: char) -> char {
    if 'A' <= character <= 'Z' {
        (character as int + 32) as char
    } else {
        character
    }
}

/// `text` with the letters A to Z in lower case.
pub open spec fn ascii_lowered(text: Seq<char>) -> Seq<char> {
    text.map_values(|character: char| ascii_lowered_char(character))
}

/// Turns the letters A to Z into lower case.
pub fn ascii_lower(text: &Vec<char>) -> (lower: Vec<char>)
    ensures
        lower@ == ascii_lowered(text@),
{
    let mut lower: Vec<char> = Vec::new();
    for i in 0..text.len()
        invariant
            lower@ == ascii_lowered(text@.take(i as int)),
    {
        let character: char = text[i];
        if 'A' <= character && character <= 'Z' {
            lower.push((character as u8 + 32) as char);
        } else {
            lower.push(character);
        }
        assert(lower@ =~= ascii_lowered(text@.take(i + 1)));
    }
    assert(text@.take(text@.len() as int) =~= text@);
    lower
}

// ---------------------------------------------------------------------------
// Splitting and joining
// ---------------------------------------------------------------------------

/// The pieces of `text` between the characters that satisfy `separates`; there is
/// one more of them than there are separators.
pub open spec fn pieces(text: Seq<char>, separates: spec_fn(char) -> bool) -> Seq<Seq<char>>
    decreases text.len(),
{
    if text.len() == 0 {
        seq![text]
    } else {
        let before = pieces(text.drop_last(), separates);
        if separates(text.last()) {
            before.push(Seq::empty())
        } else {
            before.drop_last().push(before.last().push(text.last()))
        }
    }
}

/// The texts of a sequence of character vectors.
pub open spec fn rows(parts: Seq<Vec<char>>) -> Seq<Seq<char>> {
    parts.map_values(|part: Vec<char>| part@)
}

/// There is always at least one piece.
pub proof fn lemma_pieces_nonempty(text: Seq<char>, separates: spec_fn(char) -> bool)
    ensures
        pieces(text, separates).len() > 0,
    decreases text.len(),
{
    if text.len() > 0 {
        lemma_pieces_nonempty(text.drop_last(), separates);
    }
}

/// No piece holds a separator.
pub proof fn lemma_pieces_hold_no_separator(text: Seq<char>, separates: spec_fn(char) -> bool)
    ensures
        forall|k: int, i: int|
            0 <= k < pieces(text, separates).len() && 0 <= i < pieces(text, separates)[k].len()
                ==> !separates(#[trigger] pieces(text, separates)[k][i]),
    decreases text.len(),
{
    if text.len() > 0 {
        lemma_pieces_hold_no_separator(text.drop_last(), separates);
        lemma_pieces_nonempty(text.drop_last(), separates);
        let before = pieces(text.drop_last(), separates);
        let after = pieces(text, separates);
        assert forall|k: int, i: int|
            0 <= k < after.len() && 0 <= i < after[k].len() implies !separates(
            #[trigger] after[k][i],
        ) by {
            if k < before.len() - 1 || separates(text.last()) {
                assert(k < before.len());
                assert(after[k] == before[k]);
                assert(!separates(before[k][i]));
            } else if i < before.last().len() {
                assert(!separates(before[before.len() - 1][i]));
            }
        }
    }
}

/// `text` has none of the characters that satisfy `bad`.
pub open spec fn is_clear_of(text: Seq<char>, bad: spec_fn(char) -> bool) -> bool {
    forall|i: int| 0 <= i < text.len() ==> !bad(#[trigger] text[i])
}

/// The pieces of a text are clear of what the text is clear of.
pub proof fn lemma_pieces_stay_clear(text: Seq<char>, separates: spec_fn(char) -> bool, bad: spec_fn(char) -> bool)
    requires
        is_clear_of(text, bad),
    ensures
        forall|k: int| 0 <= k < pieces(text, separates).len() ==> is_clear_of(#[trigger] pieces(text, separates)[k], bad),
    decreases text.len(),
{
    if text.len() > 0 {
        let shorter = text.drop_last();
        assert forall|i: int| 0 <= i < shorter.len() implies !bad(#[trigger] shorter[i]) by {
            assert(!bad(text[i]));
        }
        lemma_pieces_stay_clear(shorter, separates, bad);
        lemma_pieces_nonempty(shorter, separates);
        let before = pieces(shorter, separates);
        let after = pieces(text, separates);
        assert(!bad(text[text.len() - 1]));
        assert forall|k: int| 0 <= k < after.len() implies is_clear_of(#[trigger] after[k], bad) by {
            if k < before.len() - 1 || (separates(text.last()) && k < before.len()) {
                assert(after[k] == before[k]);
            } else if !separates(text.last()) {
                assert(is_clear_of(before[before.len() - 1], bad));
            }
        }
    }
}

/// A word without a separator behind a text goes on with its last piece.
pub proof fn lemma_pieces_of_longer(text: Seq<char>, word: Seq<char>, separates: spec_fn(char) -> bool)
    requires
        is_clear_of(word, separates),
    ensures
        pieces(text + word, separates) == pieces(text, separates).drop_last().push(pieces(text, separates).last() + word),
    decreases word.len(),
{
    lemma_pieces_nonempty(text, separates);
    let before = pieces(text, separates);
    if word.len() == 0 {
        assert(text + word =~= text);
        assert(before.last() + word =~= before.last());
        assert(before =~= before.drop_last().push(before.last()));
    } else {
        let shorter = word.drop_last();
        assert forall|i: int| 0 <= i < shorter.len() implies !separates(#[trigger] shorter[i]) by {
            assert(!separates(word[i]));
        }
        lemma_pieces_of_longer(text, shorter, separates);
        assert((text + word).drop_last() =~= text + shorter);
        assert(!separates(word[word.len() - 1]));
        let middle = before.drop_last().push(before.last() + shorter);
        assert(middle.drop_last() =~= before.drop_last());
        assert((before.last() + shorter).push(word.last()) =~= before.last() + word);
    }
}

/// A separator and a word without one behind a text are one more piece.
pub proof fn lemma_pieces_of_one_more(
    text: Seq<char>,
    separator: char,
    word: Seq<char>,
    separates: spec_fn(char) -> bool,
)
    requires
        separates(separator),
        is_clear_of(word, separates),
    ensures
        pieces(text + seq![separator] + word, separates) == pieces(text, separates).push(word),
{
    let longer = text + seq![separator];
    assert(longer.drop_last() =~= text);
    assert(pieces(longer, separates) == pieces(text, separates).push(Seq::empty()));
    lemma_pieces_of_longer(longer, word, separates);
    let before = pieces(longer, separates);
    assert(before.drop_last() =~= pieces(text, separates));
    assert(Seq::<char>::empty() + word =~= word);
}

/// A text without a separator is its only piece.
pub proof fn lemma_pieces_of_word(word: Seq<char>, separates: spec_fn(char) -> bool)
    requires
        is_clear_of(word, separates),
    ensures
        pieces(word, separates) == seq![word],
{
    let nothing = Seq::<char>::empty();
    lemma_pieces_of_longer(nothing, word, separates);
    assert(nothing + word =~= word);
    assert(pieces(nothing, separates) =~= seq![nothing]);
    assert(seq![nothing].drop_last().push(word) =~= seq![word]);
}

/// Where all satisfy a condition, all are kept.
pub proof fn lemma_all_are_kept<T>(items: Seq<T>, keep: spec_fn(T) -> bool)
    requires
        forall|k: int| 0 <= k < items.len() ==> keep(#[trigger] items[k]),
    ensures
        items.filter(keep) == items,
    decreases items.len(),
{
    reveal(Seq::filter);
    if items.len() > 0 {
        let shorter = items.drop_last();
        assert forall|k: int| 0 <= k < shorter.len() implies keep(#[trigger] shorter[k]) by {
            assert(keep(items[k]));
        }
        lemma_all_are_kept(shorter, keep);
        assert(keep(items[items.len() - 1]));
        assert(items =~= shorter.push(items.last()));
    }
}

/// Splits `text` at the characters that `marks` marks, those that satisfy `separates`.
pub(crate) fn split_marked(
    text: &Vec<char>,
    marks: &Vec<bool>,
    Ghost(separates): Ghost<spec_fn(char) -> bool>,
) -> (parts: Vec<Vec<char>>)
    requires
        marks@.len() == text@.len(),
        forall|i: int| 0 <= i < text@.len() ==> #[trigger] marks@[i] == separates(text@[i]),
    ensures
        rows(parts@) == pieces(text@, separates),
{
    let mut parts: Vec<Vec<char>> = Vec::new();
    let mut current: Vec<char> = Vec::new();
    assert(current@ =~= text@.take(0));
    assert(rows(parts@).push(current@) =~= pieces(text@.take(0), separates));
    for i in 0..text.len()
        invariant
            marks@.len() == text@.len(),
            forall|k: int| 0 <= k < text@.len() ==> #[trigger] marks@[k] == separates(text@[k]),
            pieces(text@.take(i as int), separates) == rows(parts@).push(current@),
    {
        let ghost before = rows(parts@).push(current@);
        assert(text@.take(i + 1).drop_last() =~= text@.take(i as int));
        assert(text@.take(i + 1).last() == text@[i as int]);
        if marks[i] {
            parts.push(current);
            current = Vec::new();
            assert(rows(parts@) =~= before);
            assert(current@ =~= Seq::<char>::empty());
        } else {
            current.push(text[i]);
            assert(rows(parts@) =~= before.drop_last());
        }
    }
    let ghost before = rows(parts@).push(current@);
    parts.push(current);
    assert(rows(parts@) =~= before);
    assert(text@.take(text@.len() as int) =~= text@);
    parts
}

/// The texts with `separator` between every two of them.
pub open spec fn joined(parts: Seq<Seq<char>>, separator: Seq<char>) -> Seq<char>
    decreases parts.len(),
{
    if parts.len() == 0 {
        Seq::empty()
    } else if parts.len() == 1 {
        parts[0]
    } else {
        joined(parts.drop_last(), separator) + separator + parts.last()
    }
}

/// Joins the strings, with `separator` between every two of them.
pub fn join(parts: &Vec<String>, separator: &str) -> (result: String)
    ensures
        result@ == joined(texts(parts@), separator@),
{
    let mut result: String = String::new();
    let ghost all = texts(parts@);
    for i in 0..parts.len()
        invariant
            all == texts(parts@),
            result@ == joined(all.take(i as int), separator@),
    {
        assert(all.take(i + 1).drop_last() =~= all.take(i as int));
        assert(all.take(i + 1).last() == parts@[i as int]@);
        if i > 0 {
            result.append(separator);
        }
        result.append(parts[i].as_str());
    }
    assert(all.take(all.len() as int) =~= all);
    result
}

// ---------------------------------------------------------------------------
// Order
// ---------------------------------------------------------------------------

/// The dictionary order of texts by code point: `left` comes before `right`.
pub open spec fn text_before(left: Seq<char>, right: Seq<char>) -> bool
    decreases left.len(),
{
    if right.len() == 0 {
        false
    } else if left.len() == 0 {
        true
    } else if left[0] != right[0] {
        left[0] < right[0]
    } else {
        text_before(left.skip(1), right.skip(1))
    }
}

/// Nothing comes before itself, and of two texts that differ one comes before the other.
pub proof fn lemma_text_order_total(left: Seq<char>, right: Seq<char>)
    ensures
        !(text_before(left, right) && text_before(right, left)),
        text_before(left, right) || text_before(right, left) || left == right,
        left == right ==> !text_before(left, right),
    decreases left.len(),
{
    if left.len() > 0 && right.len() > 0 {
        lemma_text_order_total(left.skip(1), right.skip(1));
        if left[0] == right[0] && left.skip(1) == right.skip(1) {
            assert(left =~= seq![left[0]] + left.skip(1));
            assert(right =~= seq![right[0]] + right.skip(1));
        }
    } else if left.len() == 0 && right.len() == 0 {
        assert(left =~= right);
    }
}

/// The dictionary order is transitive.
pub proof fn lemma_text_order_transitive(a: Seq<char>, b: Seq<char>, c: Seq<char>)
    requires
        text_before(a, b),
        text_before(b, c),
    ensures
        text_before(a, c),
    decreases a.len(),
{
    if a.len() > 0 && a[0] == b[0] && b[0] == c[0] {
        lemma_text_order_transitive(a.skip(1), b.skip(1), c.skip(1));
    }
}

/// Texts that start with parts of the same length are ordered by these parts first.
pub proof fn lemma_order_by_parts(a: Seq<char>, b: Seq<char>, c: Seq<char>, d: Seq<char>)
    requires
        a.len() == b.len(),
    ensures
        text_before(a + c, b + d) == (text_before(a, b) || a == b && text_before(c, d)),
        (a + c == b + d) == (a == b && c == d),
    decreases a.len(),
{
    assert((a + c).skip(a.len() as int) =~= c);
    assert((b + d).skip(a.len() as int) =~= d);
    assert((a + c).take(a.len() as int) =~= a);
    assert((b + d).take(a.len() as int) =~= b);
    if a.len() == 0 {
        assert(a + c =~= c);
        assert(b + d =~= d);
        assert(a =~= b);
    } else {
        lemma_order_by_parts(a.skip(1), b.skip(1), c, d);
        assert((a + c).skip(1) =~= a.skip(1) + c);
        assert((b + d).skip(1) =~= b.skip(1) + d);
        assert(a =~= seq![a[0]] + a.skip(1));
        assert(b =~= seq![b[0]] + b.skip(1));
    }
}

/// Whether `left` comes before `right` in the dictionary order.
pub fn comes_before(left: &Vec<char>, right: &Vec<char>) -> (before: bool)
    ensures
        before == text_before(left@, right@),
{
    let mut i: usize = 0;
    assert(left@.skip(0) =~= left@);
    assert(right@.skip(0) =~= right@);
    while i < left.len() && i < right.len()
        invariant
            i <= left@.len(),
            i <= right@.len(),
            text_before(left@, right@) == text_before(left@.skip(i as int), right@.skip(i as int)),
        decreases left@.len() - i,
    {
        if left[i] != right[i] {
            return left[i] < right[i];
        }
        assert(left@.skip(i as int).skip(1) =~= left@.skip(i + 1));
        assert(right@.skip(i as int).skip(1) =~= right@.skip(i + 1));
        i = i + 1;
    }
    i < right.len()
}

// ---------------------------------------------------------------------------
// Parts of texts
// ---------------------------------------------------------------------------

/// What stands in a part of a text stands in the text.
pub proof fn lemma_part_is_held(before: Seq<char>, part: Seq<char>, behind: Seq<char>, word: Seq<char>)
    requires
        holds_text(part, word),
    ensures
        holds_text(before + part + behind, word),
{
    let at = choose|at: int| occurs_at(part, word, at);
    let whole = before + part + behind;
    assert(whole.subrange(before.len() + at, before.len() + at + word.len()) =~= part.subrange(at, at + word.len()));
    assert(occurs_at(whole, word, before.len() + at));
}

/// A text stands in itself, with more on either side.
pub proof fn lemma_text_is_held(before: Seq<char>, word: Seq<char>, behind: Seq<char>)
    ensures
        holds_text(before + word + behind, word),
{
    assert(word.subrange(0, word.len() as int) =~= word);
    assert(occurs_at(word, word, 0));
    lemma_part_is_held(before, word, behind, word);
}

/// Dropping the blanks of a text drops those of its parts.
pub proof fn lemma_compacted_parts(left: Seq<char>, right: Seq<char>)
    ensures
        compacted(left + right) == compacted(left) + compacted(right),
    decreases right.len(),
{
    if right.len() == 0 {
        assert(left + right =~= left);
        assert(compacted(left) + compacted(right) =~= compacted(left));
    } else {
        lemma_compacted_parts(left, right.drop_last());
        assert((left + right).drop_last() =~= left + right.drop_last());
        assert((left + right).last() == right.last());
        assert(compacted(left + right) =~= compacted(left) + compacted(right));
    }
}

/// Dropping its blanks leaves of a text the other characters, in their order: none of them is a
/// blank, a text without one stays, a blank is dropped, and so is each one of its parts.
pub proof fn law_only_blanks_are_dropped(text: &Vec<char>, result: Vec<char>, left: Seq<char>, right: Seq<char>)
    requires
        call_ensures(compact, (text,), result),
    ensures
        forall|i: int| 0 <= i < result@.len() ==> !white_space(#[trigger] result@[i]),
        (forall|i: int| 0 <= i < text@.len() ==> !white_space(#[trigger] text@[i])) ==> result@ == text@,
        (forall|i: int| 0 <= i < text@.len() ==> white_space(#[trigger] text@[i])) ==> result@.len() == 0,
        text@ == left + right ==> result@ == compacted(left) + compacted(right),
{
    lemma_compacted(text@);
    if text@ == left + right {
        lemma_compacted_parts(left, right);
    }
}

/// What is left of a text without its blanks.
pub proof fn lemma_compacted(text: Seq<char>)
    ensures
        forall|i: int| 0 <= i < compacted(text).len() ==> !white_space(#[trigger] compacted(text)[i]),
        (forall|i: int| 0 <= i < text.len() ==> !white_space(#[trigger] text[i])) ==> compacted(text) == text,
        (forall|i: int| 0 <= i < text.len() ==> white_space(#[trigger] text[i])) ==> compacted(text).len() == 0,
    decreases text.len(),
{
    if text.len() > 0 {
        let shorter = text.drop_last();
        lemma_compacted(shorter);
        assert forall|i: int| 0 <= i < shorter.len() implies #[trigger] shorter[i] == text[i] by {}
        assert(text =~= shorter.push(text.last()));
        assert(text.last() == text[text.len() - 1]);
        assert forall|i: int| 0 <= i < compacted(text).len() implies !white_space(#[trigger] compacted(text)[i]) by {
            if i < compacted(shorter).len() {
                assert(compacted(text)[i] == compacted(shorter)[i]);
            }
        }
    }
}

/// Trimming takes blanks away from either end of a text and nothing else: what is left neither
/// starts nor ends with one.
pub proof fn law_only_outer_blanks_are_trimmed(text: &Vec<char>, result: Vec<char>) -> (cut: (int, int))
    requires
        call_ensures(trim, (text,), result),
    ensures
        0 <= cut.0 <= cut.1 <= text@.len(),
        result@ == text@.subrange(cut.0, cut.1),
        forall|i: int| 0 <= i < cut.0 ==> white_space(#[trigger] text@[i]),
        forall|i: int| cut.1 <= i < text@.len() ==> white_space(#[trigger] text@[i]),
        result@.len() > 0 ==> !white_space(result@[0]) && !white_space(result@.last()),
{
    lemma_trimmed_cut(text@, blank())
}

/// Where a text is cut when it is trimmed.
pub proof fn lemma_trimmed_cut(text: Seq<char>, drop: spec_fn(char) -> bool) -> (cut: (int, int))
    ensures
        0 <= cut.0 <= cut.1 <= text.len(),
        trimmed(text, drop) == text.subrange(cut.0, cut.1),
        forall|i: int| 0 <= i < cut.0 ==> drop(#[trigger] text[i]),
        forall|i: int| cut.1 <= i < text.len() ==> drop(#[trigger] text[i]),
        trimmed(text, drop).len() > 0 ==> !drop(trimmed(text, drop)[0]) && !drop(trimmed(text, drop).last()),
{
    lemma_run_bounds(text, drop);
    lemma_trimmed_ends(text, drop);
    let start = run_length(text, drop) as int;
    let rest = text.skip(start);
    lemma_tail_bounds(rest, drop);
    let end = text.len() - tail_length(rest, drop);
    assert(trimmed(text, drop) =~= text.subrange(start, end));
    assert forall|i: int| end <= i < text.len() implies drop(#[trigger] text[i]) by {
        assert(rest[i - start] == text[i]);
    }
    (start, end)
}

/// Of two texts the one comes before the other that has the lower character where they first differ;
/// a text comes before every longer one that starts with it, and none comes before itself.
pub proof fn law_texts_are_ordered_by_their_first_difference(
    left: &Vec<char>,
    right: &Vec<char>,
    before: bool,
    start: Seq<char>,
    rest: Seq<char>,
    other: Seq<char>,
)
    requires
        call_ensures(comes_before, (left, right), before),
    ensures
        left@ == start + rest && right@ == start + other && rest.len() > 0 && other.len() > 0 && rest[0] != other[0]
            ==> before == (rest[0] < other[0]),
        left@ == start && right@ == start + other ==> before == (other.len() > 0),
        left@ == start + rest && right@ == start ==> !before,
{
    lemma_text_order_total(start, start);
    lemma_order_by_parts(start, start, rest, other);
    lemma_order_by_parts(start, start, Seq::empty(), other);
    lemma_order_by_parts(start, start, rest, Seq::empty());
    assert(start + Seq::<char>::empty() =~= start);
}

/// Joining goes on with a separator and the next part; one part alone stays as it is, and nothing
/// joined is nothing.
pub proof fn law_joining_goes_on(
    parts: &Vec<String>,
    separator: &str,
    joined_parts: String,
    more: &Vec<String>,
    joined_more: String,
    last: Seq<char>,
)
    requires
        call_ensures(join, (parts, separator), joined_parts),
        call_ensures(join, (more, separator), joined_more),
        texts(more@) == texts(parts@).push(last),
    ensures
        parts@.len() == 0 ==> joined_parts@.len() == 0 && joined_more@ == last,
        parts@.len() > 0 ==> joined_more@ == joined_parts@ + separator@ + last,
{
    assert(texts(more@).drop_last() =~= texts(parts@));
    assert(texts(more@).last() == last);
}

/// The first place of a text in another one is where it stands and nowhere before; it has none
/// exactly where the text does not stand in the other at all.
pub proof fn law_the_first_place_is_found(
    hay: &Vec<char>,
    needle: &Vec<char>,
    found: Option<usize>,
    before: Seq<char>,
    behind: Seq<char>,
)
    requires
        call_ensures(find, (hay, needle), found),
    ensures
        hay@ == before + needle@ + behind ==> found is Some && found->0 <= before.len(),
        found is Some ==> found->0 + needle@.len() <= hay@.len() && hay@.subrange(
            found->0 as int,
            found->0 + needle@.len(),
        ) == needle@,
{
    if hay@ == before + needle@ + behind {
        assert(hay@.subrange(before.len() as int, (before.len() + needle@.len()) as int) =~= needle@);
        assert(occurs_at(hay@, needle@, before.len() as int));
    }
}

/// Letters from A to Z are turned into those from a to z, and all else stays.
pub proof fn law_only_capitals_are_lowered(text: &Vec<char>, lower: Vec<char>, at: int)
    requires
        call_ensures(ascii_lower, (text,), lower),
    ensures
        lower@.len() == text@.len(),
        0 <= at < text@.len() && 'A' <= text@[at] <= 'Z' ==> lower@[at] as int == text@[at] as int + 32,
        0 <= at < text@.len() && !('A' <= text@[at] <= 'Z') ==> lower@[at] == text@[at],
{
}

/// A text holds another exactly where it is that one with something before and something behind it.
pub proof fn law_held_texts_are_parts(hay: &Vec<char>, needle: &Vec<char>, found: bool, before: Seq<char>, behind: Seq<char>)
    requires
        call_ensures(contains, (hay, needle), found),
    ensures
        hay@ == before + needle@ + behind ==> found,
        found ==> exists|at: int|
            0 <= at <= hay@.len() - needle@.len() && #[trigger] hay@.subrange(at, at + needle@.len()) == needle@,
{
    if hay@ == before + needle@ + behind {
        lemma_text_is_held(before, needle@, behind);
    }
    if found {
        let at = choose|at: int| occurs_at(hay@, needle@, at);
        assert(hay@.subrange(at, at + needle@.len()) == needle@);
    }
}

/// Where a phrase does not start before a place of a text and stands there, what is before it stays,
/// its replacement stands in its place, and the rest is replaced on its own. A text that the phrase
/// does not stand in stays as it is.
pub proof fn law_phrases_are_replaced_from_the_left(
    text: &Vec<char>,
    from: &Vec<char>,
    to: &Vec<char>,
    result: Vec<char>,
    rest: &Vec<char>,
    rest_result: Vec<char>,
    before: Seq<char>,
)
    requires
        call_ensures(replace, (text, from, to), result),
        call_ensures(replace, (rest, from, to), rest_result),
        from@.len() > 0,
    ensures
        !holds_text(text@, from@) ==> result@ == text@,
        text@ == before + from@ + rest@ && (forall|at: int| 0 <= at < before.len() ==> !occurs_at(text@, from@, at))
            ==> result@ == before + to@ + rest_result@,
{
    if !holds_text(text@, from@) {
        lemma_nothing_is_replaced(text@, from@, to@);
    }
    if text@ == before + from@ + rest@ && (forall|at: int|
        0 <= at < before.len() ==> !occurs_at(text@, from@, at)) {
        lemma_replaced_behind(before, from@, to@, rest@);
    }
}

/// A text that a phrase does not stand in stays as it is.
proof fn lemma_nothing_is_replaced(text: Seq<char>, from: Seq<char>, to: Seq<char>)
    requires
        from.len() > 0,
        forall|at: int| !occurs_at(text, from, at),
    ensures
        replaced(text, from, to) == text,
    decreases text.len(),
{
    if text.len() >= from.len() {
        assert(!occurs_at(text, from, 0));
        let rest = text.skip(1);
        assert forall|at: int| !occurs_at(rest, from, at) by {
            if 0 <= at && at + from.len() <= rest.len() {
                assert(rest.subrange(at, at + from.len()) =~= text.subrange(at + 1, at + 1 + from.len()));
                assert(!occurs_at(text, from, at + 1));
            }
        }
        lemma_nothing_is_replaced(rest, from, to);
        assert(text.take(1) + rest =~= text);
    }
}

/// The first occurrence of a phrase is replaced, and then the rest behind it.
proof fn lemma_replaced_behind(before: Seq<char>, from: Seq<char>, to: Seq<char>, rest: Seq<char>)
    requires
        from.len() > 0,
        forall|at: int| 0 <= at < before.len() ==> !occurs_at(before + from + rest, from, at),
    ensures
        replaced(before + from + rest, from, to) == before + to + replaced(rest, from, to),
    decreases before.len(),
{
    let text = before + from + rest;
    if before.len() == 0 {
        assert(text.subrange(0, from.len() as int) =~= from);
        assert(occurs_at(text, from, 0));
        assert(text.skip(from.len() as int) =~= rest);
        assert(to + replaced(rest, from, to) =~= before + to + replaced(rest, from, to));
    } else {
        assert(!occurs_at(text, from, 0));
        let shorter = before.skip(1);
        let behind = shorter + from + rest;
        assert(text.skip(1) =~= behind);
        assert forall|at: int| 0 <= at < shorter.len() implies !occurs_at(behind, from, at) by {
            assert(!occurs_at(text, from, at + 1));
            if at + from.len() <= behind.len() {
                assert(behind.subrange(at, at + from.len()) =~= text.subrange(at + 1, at + 1 + from.len()));
            }
        }
        lemma_replaced_behind(shorter, from, to, rest);
        assert(text.take(1) + (shorter + to + replaced(rest, from, to)) =~= before + to + replaced(rest, from, to));
    }
}

/// What a character is taken off at both ends of a text is cut out of it: only such characters stood
/// outside, and none stands at an end of what is left.
pub proof fn law_only_outer_characters_are_taken_off(text: &Vec<char>, drop: char, result: Vec<char>)
    requires
        call_ensures(trim_char, (text, drop), result),
    ensures
        result@.len() > 0 ==> result@[0] != drop && result@.last() != drop,
        exists|from: int, to: int|
            0 <= from <= to <= text@.len() && result@ == #[trigger] text@.subrange(from, to) && (forall|i: int|
                0 <= i < from || to <= i < text@.len() ==> #[trigger] text@[i] == drop),
{
    let dropped = |character: char| character == drop;
    lemma_trimmed_ends(text@, dropped);
    let cut = lemma_trimmed_cut(text@, dropped);
    assert(result@ == text@.subrange(cut.0, cut.1));
}

/// The blanks from a place on are counted: each of them is one, and none follows.
pub proof fn law_blanks_are_counted(text: &Vec<char>, from: usize, count: usize)
    requires
        from <= text@.len(),
        call_ensures(blank_run, (text, from), count),
    ensures
        from + count <= text@.len(),
        forall|i: int| from <= i < from + count ==> white_space(#[trigger] text@[i]),
        from + count < text@.len() ==> !white_space(text@[from + count]),
{
    let rest = text@.skip(from as int);
    lemma_run_bounds(rest, blank());
    assert forall|i: int| from <= i < from + count implies white_space(#[trigger] text@[i]) by {
        assert(rest[i - from] == text@[i]);
    }
    if from + count < text@.len() {
        assert(rest[count as int] == text@[from + count]);
    }
}

} // verus!
