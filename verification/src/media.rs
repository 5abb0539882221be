//! What is read out of a picture file: when it was taken, and the text on it.

use std::collections::hash_map::DefaultHasher;
use std::hash::Hasher;

use vstd::prelude::*;
use vstd::std_specs::hash::DefaultHasherAdditionalSpecFns;
use vstd::utf8::{decode_utf8, encode_utf8, valid_utf8};

use crate::calendar::{lemma_order_goes_on, moment_string, moment_text};
use crate::number::{
    all_digits, decimal, decimal_string, digits_of, hexadecimal_digits, is_digit, lemma_padded_is_read_back,
    lemma_padded_order, padded, push_digits, push_hexadecimal_digits, read_unsigned, unsigned_value,
};
use crate::score::{is_last_greatest, last_greatest, Score};
use crate::thumbnail::{dimensions_of, fits_square, may_scale_to, picture_size, scale_into};
use crate::text::{
    append_chars, ascii_lower, ascii_lowered, blank, chars_of, contains, holds_text, is_clear_of, join, joined,
    lemma_all_are_kept, lemma_nothing_trimmed, lemma_pieces_nonempty, lemma_pieces_of_one_more, lemma_pieces_of_word,
    lemma_run_length, lemma_tail_length, lemma_text_is_held, part_of, pieces, rows, split_marked, string_of,
    text_before, texts, trim, trim_char, trimmed, white_space,
};

verus! {

/// When a file was changed, as a text: the seconds since the start of 1970, or nothing
/// where it was changed before.
pub fn format_modified(seconds: Option<u64>) -> (text: String)
    ensures
        text@ == match seconds {
            Some(seconds) => digits_of(seconds as nat),
            None => Seq::empty(),
        },
{
    match seconds {
        Some(seconds) => decimal_string(seconds as u128),
        None => {
            let text: String = String::new();
            assert(text@ =~= Seq::<char>::empty());
            text
        },
    }
}

// ---------------------------------------------------------------------------
// When a picture was taken
// ---------------------------------------------------------------------------

/// A date text without blanks, zero characters and quotation marks around it.
pub open spec fn cleaned_date(text: Seq<char>) -> Seq<char> {
    let inner = trimmed(trimmed(text, blank()), |character: char| character == '\0');
    trimmed(trimmed(inner, |character: char| character == '"'), blank())
}

/// The characters between the parts of a date.
pub open spec fn date_separator() -> spec_fn(char) -> bool {
    |character: char| character == ':' || character == '-' || character == ' ' || character == 'T'
}

/// The parts of a date.
pub open spec fn date_parts(text: Seq<char>) -> Seq<Seq<char>> {
    pieces(cleaned_date(text), date_separator()).filter(|part: Seq<char>| part.len() > 0)
}

/// The number that a part of a date stands for.
pub open spec fn part_value(part: Seq<char>) -> Option<nat> {
    unsigned_value(part, u32::MAX as nat)
}

/// The first six parts of a date are numbers in the ranges of a year, a month, a day, an
/// hour, a minute and a second.
pub open spec fn is_exif_date(parts: Seq<Seq<char>>) -> bool {
    &&& parts.len() >= 6
    &&& forall|k: int| 0 <= k < 6 ==> part_value(#[trigger] parts[k]) is Some
    &&& 1900 <= part_value(parts[0])->0 <= 2200
    &&& 1 <= part_value(parts[1])->0 <= 12
    &&& 1 <= part_value(parts[2])->0 <= 31
    &&& part_value(parts[3])->0 <= 23
    &&& part_value(parts[4])->0 <= 59
    &&& part_value(parts[5])->0 <= 60
}

/// The moment that a date text of a picture stands for, in the form that moments are
/// compared in.
pub open spec fn exif_moment(text: Seq<char>) -> Option<Seq<char>> {
    let parts = date_parts(text);
    if is_exif_date(parts) {
        Some(
            moment_text(
                part_value(parts[0])->0 as int,
                part_value(parts[1])->0 as int,
                part_value(parts[2])->0 as int,
                part_value(parts[3])->0 as int,
                part_value(parts[4])->0 as int,
                part_value(parts[5])->0 as int,
            ),
        )
    } else {
        None
    }
}

fn split_date(text: &Vec<char>) -> (parts: Vec<Vec<char>>)
    ensures
        rows(parts@) == pieces(text@, date_separator()).filter(|part: Seq<char>| part.len() > 0),
{
    let mut marks: Vec<bool> = Vec::new();
    for i in 0..text.len()
        invariant
            marks@.len() == i,
            forall|k: int| 0 <= k < i ==> #[trigger] marks@[k] == date_separator()(text@[k]),
    {
        let character: char = text[i];
        marks.push(character == ':' || character == '-' || character == ' ' || character == 'T');
    }
    let all: Vec<Vec<char>> = split_marked(text, &marks, Ghost(date_separator()));
    let ghost keep = |part: Seq<char>| part.len() > 0;
    let mut parts: Vec<Vec<char>> = Vec::new();
    assert(rows(all@).take(0).filter(keep) =~= rows(parts@)) by {
        reveal(Seq::filter);
    }
    for i in 0..all.len()
        invariant
            keep == (|part: Seq<char>| part.len() > 0),
            rows(parts@) == rows(all@).take(i as int).filter(keep),
    {
        let ghost before = rows(parts@);
        proof {
            reveal(Seq::filter);
            assert(rows(all@).take(i + 1).drop_last() =~= rows(all@).take(i as int));
            assert(rows(all@).take(i + 1).last() == all@[i as int]@);
        }
        if all[i].len() > 0 {
            let part: Vec<char> = part_of(&all[i], 0, all[i].len());
            assert(part@ =~= all@[i as int]@);
            parts.push(part);
            assert(rows(parts@) =~= before.push(all@[i as int]@));
        }
    }
    assert(rows(all@).take(rows(all@).len() as int) =~= rows(all@));
    parts
}

/// Turns a date text of a picture into the form that moments are compared in.
pub fn normalize_exif_datetime(value: &str) -> (moment: Option<String>)
    ensures
        match moment {
            Some(moment) => exif_moment(value@) == Some(moment@),
            None => exif_moment(value@) is None,
        },
{
    let inner: Vec<char> = trim_char(&trim(&chars_of(value)), '\0');
    let parts: Vec<Vec<char>> = split_date(&trim(&trim_char(&inner, '"')));
    let ghost all = date_parts(value@);
    assert(rows(parts@) == all);
    if parts.len() < 6 {
        return None;
    }
    let mut numbers: Vec<u32> = Vec::new();
    for i in 0..6
        invariant
            all == date_parts(value@),
            rows(parts@) == all,
            parts@.len() >= 6,
            numbers@.len() == i,
            forall|k: int| 0 <= k < i ==> part_value(all[k]) == Some(#[trigger] numbers@[k] as nat),
    {
        assert(all[i as int] == parts@[i as int]@);
        match read_unsigned(&parts[i], u32::MAX as u128) {
            Some(number) => {
                numbers.push(number as u32);
            },
            None => {
                return None;
            },
        }
    }
    assert forall|k: int| 0 <= k < 6 implies part_value(#[trigger] all[k]) is Some by {
        assert(part_value(all[k]) == Some(numbers@[k] as nat));
    }
    assert(part_value(all[0]) == Some(numbers@[0] as nat));
    assert(part_value(all[1]) == Some(numbers@[1] as nat));
    assert(part_value(all[2]) == Some(numbers@[2] as nat));
    assert(part_value(all[3]) == Some(numbers@[3] as nat));
    assert(part_value(all[4]) == Some(numbers@[4] as nat));
    assert(part_value(all[5]) == Some(numbers@[5] as nat));
    if numbers[0] < 1900 || numbers[0] > 2200 || numbers[1] < 1 || numbers[1] > 12 || numbers[2] < 1
        || numbers[2] > 31 || numbers[3] > 23 || numbers[4] > 59 || numbers[5] > 60 {
        return None;
    }
    Some(
        moment_string(
            numbers[0] as i64,
            numbers[1] as i64,
            numbers[2] as i64,
            numbers[3] as i64,
            numbers[4] as i64,
            numbers[5] as i64,
        ),
    )
}

/// A text of the shape of a moment: digits, with a dash behind the year and the month, a
/// blank behind the day, and a colon behind the hour and the minute.
pub open spec fn is_moment_shape(text: Seq<char>) -> bool {
    &&& text.len() == 19
    &&& forall|i: int|
        0 <= i < 19 ==> if i == 4 || i == 7 {
            #[trigger] text[i] == '-'
        } else if i == 10 {
            text[i] == ' '
        } else if i == 13 || i == 16 {
            text[i] == ':'
        } else {
            is_digit(text[i])
        }
}

/// The numbers of a date text: its year, month, day, hour, minute and second.
pub open spec fn date_numbers(text: Seq<char>) -> Seq<nat> {
    date_parts(text).take(6).map_values(|part: Seq<char>| part_value(part)->0)
}

/// Numbers come before others: the first in which they differ is smaller.
pub open spec fn numbers_before(left: Seq<nat>, right: Seq<nat>) -> bool
    decreases left.len(),
{
    if left.len() == 0 || right.len() == 0 {
        false
    } else {
        let same = left.drop_last() == right.drop_last();
        numbers_before(left.drop_last(), right.drop_last()) || same && left.last() < right.last()
    }
}

/// The parts of a moment are the numbers that it is made of.
proof fn lemma_moment_parts(year: int, month: int, day: int, hour: int, minute: int, second: int)
    requires
        1900 <= year <= 2200,
        1 <= month <= 12,
        1 <= day <= 31,
        0 <= hour <= 23,
        0 <= minute <= 59,
        0 <= second <= 60,
    ensures
        is_moment_shape(moment_text(year, month, day, hour, minute, second)),
        exif_moment(moment_text(year, month, day, hour, minute, second)) == Some(
            moment_text(year, month, day, hour, minute, second),
        ),
{
    let text = moment_text(year, month, day, hour, minute, second);
    let max = u32::MAX as nat;
    let separates = date_separator();
    let p0 = padded(year, 4);
    let p1 = padded(month, 2);
    let p2 = padded(day, 2);
    let p3 = padded(hour, 2);
    let p4 = padded(minute, 2);
    let p5 = padded(second, 2);
    lemma_padded_is_read_back(year, 4, max);
    lemma_padded_is_read_back(month, 2, max);
    lemma_padded_is_read_back(day, 2, max);
    lemma_padded_is_read_back(hour, 2, max);
    lemma_padded_is_read_back(minute, 2, max);
    lemma_padded_is_read_back(second, 2, max);
    lemma_digits_do_not_separate(p0);
    lemma_digits_do_not_separate(p1);
    lemma_digits_do_not_separate(p2);
    lemma_digits_do_not_separate(p3);
    lemma_digits_do_not_separate(p4);
    lemma_digits_do_not_separate(p5);
    lemma_pieces_of_word(p0, separates);
    let t1 = p0 + seq!['-'] + p1;
    lemma_pieces_of_one_more(p0, '-', p1, separates);
    let t2 = t1 + seq!['-'] + p2;
    lemma_pieces_of_one_more(t1, '-', p2, separates);
    let t3 = t2 + seq![' '] + p3;
    lemma_pieces_of_one_more(t2, ' ', p3, separates);
    let t4 = t3 + seq![':'] + p4;
    lemma_pieces_of_one_more(t3, ':', p4, separates);
    lemma_pieces_of_one_more(t4, ':', p5, separates);
    assert(text == t4 + seq![':'] + p5);
    let parts = seq![p0, p1, p2, p3, p4, p5];
    assert(pieces(text, separates) =~= parts);
    let keep = |part: Seq<char>| part.len() > 0;
    lemma_all_are_kept(parts, keep);
    assert(is_moment_shape(text)) by {
        assert(text[0] == p0[0] && text[1] == p0[1] && text[2] == p0[2] && text[3] == p0[3]);
        assert(text[5] == p1[0] && text[6] == p1[1]);
        assert(text[8] == p2[0] && text[9] == p2[1]);
        assert(text[11] == p3[0] && text[12] == p3[1]);
        assert(text[14] == p4[0] && text[15] == p4[1]);
        assert(text[17] == p5[0] && text[18] == p5[1]);
    }
    assert(is_digit(text[0]) && is_digit(text[18]));
    lemma_nothing_trimmed(text, blank());
    lemma_nothing_trimmed(text, |character: char| character == '\0');
    lemma_nothing_trimmed(text, |character: char| character == '"');
    assert(date_parts(text) == parts);
    assert forall|k: int| 0 <= k < 6 implies part_value(#[trigger] parts[k]) is Some by {}
}

/// Digits do not end a part of a date.
proof fn lemma_digits_do_not_separate(text: Seq<char>)
    requires
        all_digits(text),
    ensures
        is_clear_of(text, date_separator()),
{
    assert forall|i: int| 0 <= i < text.len() implies !date_separator()(#[trigger] text[i]) by {
        assert(is_digit(text[i]));
    }
}

/// What a date text is turned into has the shape of a moment, and is turned into itself.
pub proof fn law_normalized_date_is_its_own_form(text: Seq<char>)
    requires
        exif_moment(text) is Some,
    ensures
        is_moment_shape(exif_moment(text)->0),
        exif_moment(exif_moment(text)->0) == exif_moment(text),
{
    let parts = date_parts(text);
    lemma_moment_parts(
        part_value(parts[0])->0 as int,
        part_value(parts[1])->0 as int,
        part_value(parts[2])->0 as int,
        part_value(parts[3])->0 as int,
        part_value(parts[4])->0 as int,
        part_value(parts[5])->0 as int,
    );
}

/// What date texts are turned into is ordered, as texts, as their numbers are, from the year
/// down to the second.
pub proof fn law_normalized_dates_are_ordered(left: Seq<char>, right: Seq<char>)
    requires
        exif_moment(left) is Some,
        exif_moment(right) is Some,
    ensures
        text_before(exif_moment(left)->0, exif_moment(right)->0) == numbers_before(date_numbers(left), date_numbers(right)),
        (exif_moment(left) == exif_moment(right)) == (date_numbers(left) == date_numbers(right)),
{
    let l = date_numbers(left);
    let r = date_numbers(right);
    assert(forall|k: int| 0 <= k < 6 ==> #[trigger] l[k] == part_value(date_parts(left)[k])->0);
    assert(forall|k: int| 0 <= k < 6 ==> #[trigger] r[k] == part_value(date_parts(right)[k])->0);
    lemma_padded_order(l[0] as int, r[0] as int, 4);
    let a = padded(l[0] as int, 4);
    let b = padded(r[0] as int, 4);
    lemma_numbers_go_on(l, r, 0);
    lemma_order_goes_on(a, b, '-', l[1] as int, r[1] as int);
    lemma_numbers_go_on(l, r, 1);
    let a = a + seq!['-'] + padded(l[1] as int, 2);
    let b = b + seq!['-'] + padded(r[1] as int, 2);
    lemma_order_goes_on(a, b, '-', l[2] as int, r[2] as int);
    lemma_numbers_go_on(l, r, 2);
    let a = a + seq!['-'] + padded(l[2] as int, 2);
    let b = b + seq!['-'] + padded(r[2] as int, 2);
    lemma_order_goes_on(a, b, ' ', l[3] as int, r[3] as int);
    lemma_numbers_go_on(l, r, 3);
    let a = a + seq![' '] + padded(l[3] as int, 2);
    let b = b + seq![' '] + padded(r[3] as int, 2);
    lemma_order_goes_on(a, b, ':', l[4] as int, r[4] as int);
    lemma_numbers_go_on(l, r, 4);
    let a = a + seq![':'] + padded(l[4] as int, 2);
    let b = b + seq![':'] + padded(r[4] as int, 2);
    lemma_order_goes_on(a, b, ':', l[5] as int, r[5] as int);
    lemma_numbers_go_on(l, r, 5);
    assert(l.take(6) =~= l);
    assert(r.take(6) =~= r);
}

/// The order of the first numbers goes on with the next one.
proof fn lemma_numbers_go_on(left: Seq<nat>, right: Seq<nat>, n: int)
    requires
        0 <= n < left.len(),
        n < right.len(),
    ensures
        numbers_before(left.take(n + 1), right.take(n + 1)) == (numbers_before(left.take(n), right.take(n)) || left.take(n)
            == right.take(n) && left[n] < right[n]),
        (left.take(n + 1) == right.take(n + 1)) == (left.take(n) == right.take(n) && left[n] == right[n]),
        n == 0 ==> !numbers_before(left.take(n), right.take(n)) && left.take(n) == right.take(n),
{
    assert(left.take(n + 1).drop_last() =~= left.take(n));
    assert(right.take(n + 1).drop_last() =~= right.take(n));
    assert(left.take(n + 1) =~= left.take(n).push(left[n]));
    assert(right.take(n + 1) =~= right.take(n).push(right[n]));
    if left.take(n + 1) == right.take(n + 1) {
        assert(left.take(n + 1).last() == right.take(n + 1).last());
    }
    if n == 0 {
        assert(left.take(0) =~= right.take(0));
    }
}

/// The date fields of a picture file.
#[derive(Debug, Clone, Copy)]
pub enum DateField {
    Taken,
    Digitized,
    Changed,
}

/// The text of a date field in the Exif data of a picture file, if it has one.
pub uninterp spec fn exif_text(file: Seq<u8>, field: DateField) -> Option<Seq<char>>;

/// `exif::Reader::read_from_container` finds the Exif data of a picture file, `get_field`
/// a field of the primary image in it, and `display_value` gives the field as a text.
#[verifier::external_body]
fn read_date_field(file: &Vec<u8>, field: DateField) -> (text: Option<String>)
    ensures
        text is Some <==> exif_text(file@, field) is Some,
        text is Some ==> exif_text(file@, field) == Some(text->0@),
{
    let tag = match field {
        DateField::Taken => exif::Tag::DateTimeOriginal,
        DateField::Digitized => exif::Tag::DateTimeDigitized,
        DateField::Changed => exif::Tag::DateTime,
    };
    let mut reader = std::io::Cursor::new(file);
    let metadata = exif::Reader::new().read_from_container(&mut reader).ok()?;
    metadata.get_field(tag, exif::In::PRIMARY).map(|field| field.display_value().to_string())
}

/// The moment that an optional date text stands for.
pub open spec fn optional_moment(text: Option<Seq<char>>) -> Option<Seq<char>> {
    match text {
        Some(text) => exif_moment(text),
        None => None,
    }
}

/// When a picture was taken, by the texts of its date fields: the first one that is a
/// date counts.
pub open spec fn capture_moment(
    taken: Option<Seq<char>>,
    digitized: Option<Seq<char>>,
    changed: Option<Seq<char>>,
) -> Option<Seq<char>> {
    if optional_moment(taken) is Some {
        optional_moment(taken)
    } else if optional_moment(digitized) is Some {
        optional_moment(digitized)
    } else {
        optional_moment(changed)
    }
}

fn read_moment(file: &Vec<u8>, field: DateField) -> (moment: Option<String>)
    ensures
        match moment {
            Some(moment) => optional_moment(exif_text(file@, field)) == Some(moment@),
            None => optional_moment(exif_text(file@, field)) is None,
        },
{
    match read_date_field(file, field) {
        Some(text) => normalize_exif_datetime(text.as_str()),
        None => None,
    }
}

/// When a picture was taken, by what its file holds.
pub fn extract_exif_capture_time(file: &Vec<u8>) -> (moment: Option<String>)
    ensures
        match moment {
            Some(moment) => capture_moment(
                exif_text(file@, DateField::Taken),
                exif_text(file@, DateField::Digitized),
                exif_text(file@, DateField::Changed),
            ) == Some(moment@),
            None => capture_moment(
                exif_text(file@, DateField::Taken),
                exif_text(file@, DateField::Digitized),
                exif_text(file@, DateField::Changed),
            ) is None,
        },
{
    let taken: Option<String> = read_moment(file, DateField::Taken);
    if taken.is_some() {
        return taken;
    }
    let digitized: Option<String> = read_moment(file, DateField::Digitized);
    if digitized.is_some() {
        return digitized;
    }
    read_moment(file, DateField::Changed)
}

// ---------------------------------------------------------------------------
// The text on a picture
// ---------------------------------------------------------------------------

/// What a program put out.
pub struct ProgramOutput {
    pub success: bool,
    pub stdout: Vec<u8>,
    pub stderr: Vec<u8>,
}

/// Bytes read as UTF-8, with what is none replaced.
pub uninterp spec fn lossy_text(bytes: Seq<u8>) -> Seq<char>;

/// `String::from_utf8_lossy` reads bytes as UTF-8 and puts a replacement character where
/// they are none.
#[verifier::external_body]
fn from_utf8_lossy(bytes: &Vec<u8>) -> (text: String)
    ensures
        text@ == lossy_text(bytes@),
        valid_utf8(bytes@) ==> text@ == decode_utf8(bytes@),
{
    String::from_utf8_lossy(bytes).into_owned()
}

/// The output of a program that tells its version speaks of OpenCL, in any case.
pub open spec fn speaks_of_opencl(stdout: Seq<char>, stderr: Seq<char>) -> bool {
    holds_text(ascii_lowered(stdout + stderr), "opencl"@)
}

/// Whether the OCR program can use OpenCL, by what it put out when asked for its version;
/// there is no output where it could not be run.
pub fn tesseract_opencl_available(output: &Option<ProgramOutput>) -> (available: bool)
    ensures
        available == match *output {
            Some(output) => output.success && speaks_of_opencl(
                lossy_text(output.stdout@),
                lossy_text(output.stderr@),
            ),
            None => false,
        },
{
    match output {
        Some(output) => {
            if !output.success {
                return false;
            }
            let mut details: Vec<char> = chars_of(from_utf8_lossy(&output.stdout).as_str());
            append_chars(&mut details, &chars_of(from_utf8_lossy(&output.stderr).as_str()));
            contains(&ascii_lower(&details), &chars_of("opencl"))
        },
        None => false,
    }
}

/// A line without the carriage return at its end.
pub open spec fn without_return(line: Seq<char>) -> Seq<char> {
    if line.len() > 0 && line.last() == '\r' {
        line.drop_last()
    } else {
        line
    }
}

/// The lines of a text. A carriage return before the end of a line belongs to the end; a
/// last line need not have one.
pub open spec fn lines_of(text: Seq<char>) -> Seq<Seq<char>> {
    let parts = pieces(text, |character: char| character == '\n');
    let ended = parts.drop_last().map_values(|line: Seq<char>| without_return(line));
    if parts.last().len() > 0 {
        ended.push(parts.last())
    } else {
        ended
    }
}

/// A word that the OCR program read, with its confidence as it was written.
pub struct OcrWordText {
    pub word: Seq<char>,
    pub confidence: Seq<char>,
}

/// The fields of a line.
pub open spec fn fields_of(line: Seq<char>) -> Seq<Seq<char>> {
    pieces(line, |character: char| character == '\t')
}

/// The word on a line of the table that the OCR program writes: the twelfth field, with
/// what follows it, and the confidence in the field before it.
pub open spec fn word_of(line: Seq<char>) -> Option<OcrWordText> {
    let fields = fields_of(line);
    let word = trimmed(joined(fields.skip(11), "\t"@), blank());
    if fields.len() >= 12 && word.len() > 0 {
        Some(OcrWordText { word, confidence: fields[10] })
    } else {
        None
    }
}

/// The words on lines.
pub open spec fn words_on(lines: Seq<Seq<char>>) -> Seq<OcrWordText>
    decreases lines.len(),
{
    if lines.len() == 0 {
        Seq::empty()
    } else {
        match word_of(lines.last()) {
            Some(word) => words_on(lines.drop_last()).push(word),
            None => words_on(lines.drop_last()),
        }
    }
}

/// The words of a table; its first line is its head.
pub open spec fn table_words(text: Seq<char>) -> Seq<OcrWordText> {
    let lines = lines_of(text);
    if lines.len() > 0 {
        words_on(lines.skip(1))
    } else {
        Seq::empty()
    }
}

/// A word that the OCR program read, with its confidence as it was written.
pub struct OcrWord {
    pub word: String,
    pub confidence: String,
}

impl View for OcrWord {
    type V = OcrWordText;

    open spec fn view(&self) -> OcrWordText {
        OcrWordText { word: self.word@, confidence: self.confidence@ }
    }
}

/// The texts of a sequence of words.
pub open spec fn ocr_words_of(words: Seq<OcrWord>) -> Seq<OcrWordText> {
    words.map_values(|word: OcrWord| word@)
}

fn split_at(text: &Vec<char>, separator: char) -> (parts: Vec<Vec<char>>)
    ensures
        rows(parts@) == pieces(text@, |character: char| character == separator),
{
    let mut marks: Vec<bool> = Vec::new();
    for i in 0..text.len()
        invariant
            marks@.len() == i,
            forall|k: int| 0 <= k < i ==> #[trigger] marks@[k] == (text@[k] == separator),
    {
        marks.push(text[i] == separator);
    }
    split_marked(text, &marks, Ghost(|character: char| character == separator))
}

fn split_lines(text: &Vec<char>) -> (lines: Vec<Vec<char>>)
    ensures
        rows(lines@) == lines_of(text@),
{
    let parts: Vec<Vec<char>> = split_at(text, '\n');
    let ghost all = rows(parts@);
    proof {
        lemma_pieces_nonempty(text@, |character: char| character == '\n');
    }
    let ghost ended = all.drop_last().map_values(|line: Seq<char>| without_return(line));
    let mut lines: Vec<Vec<char>> = Vec::new();
    let count: usize = parts.len() - 1;
    for i in 0..count
        invariant
            count == parts@.len() - 1,
            all == rows(parts@),
            ended == all.drop_last().map_values(|line: Seq<char>| without_return(line)),
            rows(lines@) == ended.take(i as int),
    {
        let ghost before = rows(lines@);
        let part: &Vec<char> = &parts[i];
        let length: usize = if part.len() > 0 && part[part.len() - 1] == '\r' {
            part.len() - 1
        } else {
            part.len()
        };
        let line: Vec<char> = part_of(part, 0, length);
        assert(line@ =~= without_return(part@));
        lines.push(line);
        assert(rows(lines@) =~= before.push(line@));
        assert(ended[i as int] == without_return(part@));
        assert(ended.take(i + 1) =~= ended.take(i as int).push(ended[i as int]));
    }
    assert(ended.take(count as int) =~= ended);
    let last: &Vec<char> = &parts[count];
    assert(all.last() == last@);
    if last.len() > 0 {
        let line: Vec<char> = part_of(last, 0, last.len());
        assert(line@ =~= last@);
        lines.push(line);
        assert(rows(lines@) =~= ended.push(last@));
    }
    lines
}

fn join_from(parts: &Vec<Vec<char>>, from: usize, separator: char) -> (result: Vec<char>)
    requires
        from <= parts@.len(),
    ensures
        result@ == joined(rows(parts@).skip(from as int), seq![separator]),
{
    let ghost all = rows(parts@).skip(from as int);
    let mut result: Vec<char> = Vec::new();
    assert(result@ =~= joined(all.take(0), seq![separator]));
    for i in from..parts.len()
        invariant
            from <= parts@.len(),
            all == rows(parts@).skip(from as int),
            result@ == joined(all.take(i - from), seq![separator]),
    {
        assert(all.take(i - from + 1).drop_last() =~= all.take(i - from));
        assert(all.take(i - from + 1).last() == parts@[i as int]@);
        if i > from {
            result.push(separator);
        }
        append_chars(&mut result, &parts[i]);
        assert(result@ =~= joined(all.take(i - from + 1), seq![separator]));
    }
    assert(all.take(all.len() as int) =~= all);
    result
}

fn read_word(line: &Vec<char>) -> (word: Option<OcrWord>)
    ensures
        match word {
            Some(word) => word_of(line@) == Some(word@),
            None => word_of(line@) is None,
        },
{
    let fields: Vec<Vec<char>> = split_at(line, '\t');
    if fields.len() < 12 {
        return None;
    }
    proof {
        reveal_strlit("\t");
        assert("\t"@ =~= seq!['\t']);
    }
    let word: Vec<char> = trim(&join_from(&fields, 11, '\t'));
    if word.len() == 0 {
        return None;
    }
    assert(fields_of(line@)[10] == fields@[10]@);
    Some(OcrWord { word: string_of(&word), confidence: string_of(&fields[10]) })
}

/// The words of the table that the OCR program put out.
pub fn read_words(stdout: &Vec<u8>) -> (words: Vec<OcrWord>)
    ensures
        ocr_words_of(words@) == table_words(lossy_text(stdout@)),
{
    read_table(&chars_of(from_utf8_lossy(stdout).as_str()))
}

/// The words of a table.
pub fn read_table(text: &Vec<char>) -> (words: Vec<OcrWord>)
    ensures
        ocr_words_of(words@) == table_words(text@),
{
    let lines: Vec<Vec<char>> = split_lines(text);
    let ghost all = rows(lines@);
    let ghost rest = all.skip(1);
    let mut words: Vec<OcrWord> = Vec::new();
    assert(ocr_words_of(words@) =~= words_on(rest.take(0)));
    if lines.len() > 0 {
        for i in 1..lines.len()
            invariant
                all == rows(lines@),
                rest == all.skip(1),
                1 <= i <= lines@.len(),
                ocr_words_of(words@) == words_on(rest.take(i - 1)),
        {
            let ghost before = ocr_words_of(words@);
            assert(rest.take(i - 1 + 1).drop_last() =~= rest.take(i - 1));
            assert(rest.take(i - 1 + 1).last() == lines@[i as int]@);
            match read_word(&lines[i]) {
                Some(word) => {
                    words.push(word);
                    assert(ocr_words_of(words@) =~= before.push(word@));
                },
                None => {},
            }
        }
        assert(rest.take(rest.len() as int) =~= rest);
    } else {
        assert(ocr_words_of(words@) =~= Seq::<OcrWordText>::empty());
    }
    words
}

/// The key of 20, the least mean confidence of a text that is kept.
pub const LEAST_CONFIDENCE_KEY: i32 = 0x41a0_0000;

/// A text read from a picture, with the mean confidence of its words.
#[derive(Debug, Clone)]
pub struct OcrCandidate {
    pub text: String,
    pub confidence: Score,
}

/// The words of a table as one text.
pub open spec fn text_of_words(words: Seq<OcrWordText>) -> Seq<char> {
    joined(words.map_values(|word: OcrWordText| word.word), " "@)
}

/// A text is kept: it has a word, and the mean confidence of its words is not too low.
/// There is no mean where no word has a confidence.
pub open spec fn is_kept(words: Seq<OcrWordText>, confidence: Option<Score>) -> bool {
    words.len() > 0 && (confidence matches Some(confidence) ==> !(Score { key: LEAST_CONFIDENCE_KEY }).above(
        confidence,
    ))
}

/// Turns the words that the OCR program read into a text, unless it is to be dropped.
pub fn ocr_candidate(words: &Vec<OcrWord>, confidence: Option<Score>) -> (candidate: Option<OcrCandidate>)
    ensures
        candidate is Some <==> is_kept(ocr_words_of(words@), confidence),
        candidate matches Some(candidate) ==> candidate.text@ == text_of_words(ocr_words_of(words@))
            && candidate.confidence == (match confidence {
            Some(confidence) => confidence,
            None => Score { key: 0 },
        }),
{
    if words.len() == 0 {
        return None;
    }
    let mean: Score = match confidence {
        Some(confidence) => {
            if (Score { key: LEAST_CONFIDENCE_KEY }).is_above(confidence) {
                return None;
            }
            confidence
        },
        None => Score { key: 0 },
    };
    let mut parts: Vec<String> = Vec::new();
    for i in 0..words.len()
        invariant
            parts@.len() == i,
            forall|k: int| 0 <= k < i ==> #[trigger] parts@[k]@ == words@[k].word@,
    {
        parts.push(words[i].word.clone());
    }
    assert(texts(parts@) =~= ocr_words_of(words@).map_values(|word: OcrWordText| word.word));
    Some(OcrCandidate { text: join(&parts, " "), confidence: mean })
}

/// How many characters of a text count for it when texts are compared.
pub fn counted_characters(text: &str) -> (count: u32)
    ensures
        count == if text@.len() < 200 {
            text@.len()
        } else {
            200
        },
{
    let length: usize = chars_of(text).len();
    if length < 200 {
        length as u32
    } else {
        200
    }
}

/// Whether a picture is read once more in English: it gave no text in the language that
/// is set, and that is another one.
pub fn reads_again_in_english(first: &Option<OcrCandidate>, language_is_english: bool) -> (again: bool)
    ensures
        again == (first is None && !language_is_english),
{
    first.is_none() && !language_is_english
}

/// The text of a picture: the candidate with the highest score, the last one if there
/// are several, or nothing where there is none.
pub fn extract_ocr_text(candidates: &Vec<OcrCandidate>, scores: &Vec<Score>) -> (text: String)
    requires
        scores@.len() == candidates@.len(),
    ensures
        candidates@.len() == 0 ==> text@.len() == 0,
        candidates@.len() > 0 ==> exists|best: int| #[trigger]
            is_last_greatest(scores@, best) && text@ == candidates@[best].text@,
{
    match last_greatest(scores) {
        Some(best) => {
            assert(is_last_greatest(scores@, best as int));
            candidates[best].text.clone()
        },
        None => String::new(),
    }
}

// ---------------------------------------------------------------------------
// How a picture is read
// ---------------------------------------------------------------------------

/// The longest side that a picture is brought to before it is read: small ones are
/// doubled, up to 2600, and large ones cut down to 3200.
pub open spec fn reading_side(largest: int) -> int {
    if largest < 1800 {
        if 2 * largest < 2600 {
            2 * largest
        } else {
            2600
        }
    } else if largest < 3200 {
        largest
    } else {
        3200
    }
}

/// The longest side that a picture is brought to before it is read.
pub fn ocr_target_side(largest: u32) -> (side: u32)
    ensures
        side == reading_side(largest as int),
{
    if largest < 1800 {
        if 2 * largest < 2600 {
            2 * largest
        } else {
            2600
        }
    } else if largest < 3200 {
        largest
    } else {
        3200
    }
}

/// The longer side of a picture.
pub open spec fn longer_side(size: (u32, u32)) -> u32 {
    if size.0 >= size.1 {
        size.0
    } else {
        size.1
    }
}

/// A picture may be the one that is scaled for reading: the same where its longer side is of
/// the length wanted, else one scaled to it.
pub open spec fn may_be_scaled_for_reading(image: image::DynamicImage, scaled: image::DynamicImage) -> bool {
    let size = picture_size(image);
    let side = reading_side(longer_side(size) as int);
    if side == longer_side(size) {
        scaled == image
    } else {
        may_scale_to(image, side as u32, scaled) && fits_square(size, side as u32, picture_size(scaled))
    }
}

/// The machine can hold what it takes to scale a picture for reading.
pub open spec fn can_be_read(image: image::DynamicImage) -> bool {
    let size = picture_size(image);
    let side = reading_side(longer_side(size) as int);
    side == longer_side(size) || size.0 * side * 16 <= isize::MAX
}

/// The picture that text is read from: one whose longer edge is not of the length wanted
/// for reading is scaled to it. There is none where the machine cannot hold what scaling
/// takes.
pub fn scale_for_reading(image: image::DynamicImage) -> (scaled: Option<image::DynamicImage>)
    ensures
        scaled is Some <==> can_be_read(image),
        scaled matches Some(scaled) ==> may_be_scaled_for_reading(image, scaled),
{
    let size: (u32, u32) = dimensions_of(&image);
    let largest: u32 = if size.0 >= size.1 {
        size.0
    } else {
        size.1
    };
    let side: u32 = ocr_target_side(largest);
    if side == largest {
        return Some(image);
    }
    assert(0 <= size.0 * side * 16 <= 0xffff_ffff * 51200) by (nonlinear_arith)
        requires
            0 <= size.0 <= 0xffff_ffff,
            0 <= side <= 3200,
    ;
    let needed: u64 = size.0 as u64 * side as u64 * 16;
    if needed > isize::MAX as u64 {
        return None;
    }
    Some(scale_into(&image, side))
}

/// A decoded picture in shades of grey.
pub uninterp spec fn grey_picture(image: image::DynamicImage) -> image::DynamicImage;

/// `image::DynamicImage::grayscale` turns each pixel of a picture into a shade of grey, so that
/// the size stays the same.
#[verifier::external_body]
fn to_grey(image: &image::DynamicImage) -> (grey: image::DynamicImage)
    ensures
        grey == grey_picture(*image),
        picture_size(grey) == picture_size(*image),
{
    image.grayscale()
}

/// A picture is another one in shades of grey, of the same size.
pub open spec fn is_grey_copy(image: image::DynamicImage, copy: image::DynamicImage) -> bool {
    copy == grey_picture(image) && picture_size(copy) == picture_size(image)
}

/// The copy of a picture that text is read from, but for its contrast: scaled, and in shades
/// of grey. There is none where the machine cannot hold what scaling takes.
pub fn make_ocr_image(image: image::DynamicImage) -> (copy: Option<image::DynamicImage>)
    ensures
        copy is Some <==> can_be_read(image),
        copy matches Some(copy) ==> exists|scaled: image::DynamicImage| #[trigger]
            may_be_scaled_for_reading(image, scaled) && is_grey_copy(scaled, copy),
{
    match scale_for_reading(image) {
        Some(scaled) => {
            let grey: image::DynamicImage = to_grey(&scaled);
            assert(may_be_scaled_for_reading(image, scaled) && is_grey_copy(scaled, grey));
            Some(grey)
        },
        None => None,
    }
}

/// How a picture is read once: from the copy made for reading or from the picture itself, and
/// in which page segmentation mode.
#[derive(Debug, Clone, Copy, PartialEq, Eq, Structural)]
pub struct Reading {
    pub from_copy: bool,
    pub mode: u8,
}

/// How a picture is read, one time after the other: the copy made for reading, if there is
/// one, as a block of text, and then the picture itself as scattered text.
pub fn readings(has_copy: bool) -> (list: Vec<Reading>)
    ensures
        list@ == seq![Reading { from_copy: has_copy, mode: 6 }, Reading { from_copy: false, mode: 11 }],
{
    let mut list: Vec<Reading> = Vec::new();
    list.push(Reading { from_copy: has_copy, mode: 6 });
    list.push(Reading { from_copy: false, mode: 11 });
    list
}

/// What is hashed of the path of a picture.
pub open spec fn path_bytes(path: Seq<char>) -> Seq<Seq<u8>> {
    seq![encode_utf8(path), seq![255u8]]
}

/// The name of the file that a picture is brought into before it is read.
pub open spec fn reading_name(process: nat, path: Seq<char>) -> Seq<char> {
    "local-lens-ocr-"@ + digits_of(process) + "-"@ + hexadecimal_digits(
        DefaultHasher::spec_finish(path_bytes(path)) as nat,
    ) + ".png"@
}

/// The name of the file that the picture at `path` is brought into before the process
/// with the given number has it read.
pub fn ocr_image_name(process: u32, path: &str) -> (name: String)
    ensures
        name@ == reading_name(process as nat, path@),
{
    let mut hasher: DefaultHasher = DefaultHasher::new();
    let bytes: &[u8] = path.as_bytes();
    hasher.write(bytes);
    let mut end: Vec<u8> = Vec::new();
    end.push(255);
    hasher.write(end.as_slice());
    assert(end@ =~= seq![255u8]);
    assert(hasher@ =~= path_bytes(path@));
    let mut name: Vec<char> = chars_of("local-lens-ocr-");
    push_digits(&mut name, process as u128);
    append_chars(&mut name, &chars_of("-"));
    push_hexadecimal_digits(&mut name, hasher.finish());
    append_chars(&mut name, &chars_of(".png"));
    assert(name@ =~= reading_name(process as nat, path@));
    string_of(&name)
}

/// What the OCR program is called with behind the picture: the arguments before and
/// behind the language.
pub struct ReadingArguments {
    pub before_language: Vec<String>,
    pub after_language: Vec<String>,
}

/// What the OCR program is called with to read a page in the given segmentation mode and
/// write a table.
pub fn tesseract_arguments(mode: u8) -> (arguments: ReadingArguments)
    ensures
        texts(arguments.before_language@) == seq![
            "stdout"@,
            "--oem"@,
            "1"@,
            "--psm"@,
            digits_of(mode as nat),
            "-l"@,
        ],
        texts(arguments.after_language@) == seq![
            "-c"@,
            "user_defined_dpi=300"@,
            "-c"@,
            "preserve_interword_spaces=1"@,
            "tsv"@,
        ],
{
    let mut before_language: Vec<String> = Vec::new();
    before_language.push("stdout".to_owned());
    before_language.push("--oem".to_owned());
    before_language.push("1".to_owned());
    before_language.push("--psm".to_owned());
    before_language.push(decimal_string(mode as u128));
    before_language.push("-l".to_owned());
    let mut after_language: Vec<String> = Vec::new();
    after_language.push("-c".to_owned());
    after_language.push("user_defined_dpi=300".to_owned());
    after_language.push("-c".to_owned());
    after_language.push("preserve_interword_spaces=1".to_owned());
    after_language.push("tsv".to_owned());
    assert(texts(before_language@) =~= seq![
        "stdout"@,
        "--oem"@,
        "1"@,
        "--psm"@,
        digits_of(mode as nat),
        "-l"@,
    ]);
    assert(texts(after_language@) =~= seq![
        "-c"@,
        "user_defined_dpi=300"@,
        "-c"@,
        "preserve_interword_spaces=1"@,
        "tsv"@,
    ]);
    ReadingArguments { before_language, after_language }
}

// ---------------------------------------------------------------------------
// What is read
// ---------------------------------------------------------------------------

/// A date as cameras write it: the numbers of the date and those of the time of day, with colons
/// between them and a blank between the two.
pub open spec fn camera_date(year: int, month: int, day: int, hour: int, minute: int, second: int) -> Seq<char> {
    padded(year, 4) + seq![':'] + padded(month, 2) + seq![':'] + padded(day, 2) + seq![' '] + padded(hour, 2)
        + seq![':'] + padded(minute, 2) + seq![':'] + padded(second, 2)
}

/// A date as cameras write it is understood exactly where there is such a month, day and time of
/// day in the years 1900 to 2200, and stands for that moment.
pub proof fn law_camera_dates_are_understood(
    value: &str,
    moment: Option<String>,
    year: int,
    month: int,
    day: int,
    hour: int,
    minute: int,
    second: int,
)
    requires
        call_ensures(normalize_exif_datetime, (value,), moment),
        value@ == camera_date(year, month, day, hour, minute, second),
        0 <= year <= 9999,
        0 <= month <= 99,
        0 <= day <= 99,
        0 <= hour <= 99,
        0 <= minute <= 99,
        0 <= second <= 99,
    ensures
        moment is Some <==> 1900 <= year <= 2200 && 1 <= month <= 12 && 1 <= day <= 31 && hour <= 23 && minute <= 59
            && second <= 60,
        moment is Some ==> moment->0@ == moment_text(year, month, day, hour, minute, second),
{
    lemma_camera_date_parts(year, month, day, hour, minute, second);
}

proof fn lemma_camera_date_parts(year: int, month: int, day: int, hour: int, minute: int, second: int)
    requires
        0 <= year <= 9999,
        0 <= month <= 99,
        0 <= day <= 99,
        0 <= hour <= 99,
        0 <= minute <= 99,
        0 <= second <= 99,
    ensures
        ({
            let parts = date_parts(camera_date(year, month, day, hour, minute, second));
            &&& parts.len() == 6
            &&& part_value(parts[0]) == Some(year as nat)
            &&& part_value(parts[1]) == Some(month as nat)
            &&& part_value(parts[2]) == Some(day as nat)
            &&& part_value(parts[3]) == Some(hour as nat)
            &&& part_value(parts[4]) == Some(minute as nat)
            &&& part_value(parts[5]) == Some(second as nat)
            &&& forall|k: int| 0 <= k < 6 ==> part_value(#[trigger] parts[k]) is Some
        }),
{
    let text = camera_date(year, month, day, hour, minute, second);
    let max = u32::MAX as nat;
    let separates = date_separator();
    let p0 = padded(year, 4);
    let p1 = padded(month, 2);
    let p2 = padded(day, 2);
    let p3 = padded(hour, 2);
    let p4 = padded(minute, 2);
    let p5 = padded(second, 2);
    lemma_padded_is_read_back(year, 4, max);
    lemma_padded_is_read_back(month, 2, max);
    lemma_padded_is_read_back(day, 2, max);
    lemma_padded_is_read_back(hour, 2, max);
    lemma_padded_is_read_back(minute, 2, max);
    lemma_padded_is_read_back(second, 2, max);
    lemma_digits_do_not_separate(p0);
    lemma_digits_do_not_separate(p1);
    lemma_digits_do_not_separate(p2);
    lemma_digits_do_not_separate(p3);
    lemma_digits_do_not_separate(p4);
    lemma_digits_do_not_separate(p5);
    lemma_pieces_of_word(p0, separates);
    let t1 = p0 + seq![':'] + p1;
    lemma_pieces_of_one_more(p0, ':', p1, separates);
    let t2 = t1 + seq![':'] + p2;
    lemma_pieces_of_one_more(t1, ':', p2, separates);
    let t3 = t2 + seq![' '] + p3;
    lemma_pieces_of_one_more(t2, ' ', p3, separates);
    let t4 = t3 + seq![':'] + p4;
    lemma_pieces_of_one_more(t3, ':', p4, separates);
    lemma_pieces_of_one_more(t4, ':', p5, separates);
    assert(text == t4 + seq![':'] + p5);
    let parts = seq![p0, p1, p2, p3, p4, p5];
    assert(pieces(text, separates) =~= parts);
    let keep = |part: Seq<char>| part.len() > 0;
    lemma_all_are_kept(parts, keep);
    assert(text[0] == p0[0] && text[text.len() - 1] == p5[1]);
    assert(is_digit(p0[0]) && is_digit(p5[1]));
    lemma_nothing_trimmed(text, blank());
    lemma_nothing_trimmed(text, |character: char| character == '\0');
    lemma_nothing_trimmed(text, |character: char| character == '"');
    assert(date_parts(text) == parts);
    assert forall|k: int| 0 <= k < 6 implies part_value(#[trigger] parts[k]) is Some by {}
}

/// A picture was taken when its own date field says so, wherever that is a date; else when the
/// field of its digitization says so, else when the one of its last change does. There is no
/// capture time where none of them is a date.
pub proof fn law_the_date_taken_comes_first(
    file: &Vec<u8>,
    moment: Option<String>,
    taken: &str,
    by_taken: Option<String>,
    digitized: &str,
    by_digitized: Option<String>,
    changed: &str,
    by_changed: Option<String>,
)
    requires
        call_ensures(extract_exif_capture_time, (file,), moment),
        call_ensures(normalize_exif_datetime, (taken,), by_taken),
        call_ensures(normalize_exif_datetime, (digitized,), by_digitized),
        call_ensures(normalize_exif_datetime, (changed,), by_changed),
    ensures
        ({
            let has_taken = exif_text(file@, DateField::Taken) == Some(taken@) && by_taken is Some;
            let no_taken = exif_text(file@, DateField::Taken) is None || exif_text(file@, DateField::Taken) == Some(taken@)
                && by_taken is None;
            let has_digitized = exif_text(file@, DateField::Digitized) == Some(digitized@) && by_digitized is Some;
            let no_digitized = exif_text(file@, DateField::Digitized) is None || exif_text(file@, DateField::Digitized)
                == Some(digitized@) && by_digitized is None;
            let has_changed = exif_text(file@, DateField::Changed) == Some(changed@) && by_changed is Some;
            let no_changed = exif_text(file@, DateField::Changed) is None || exif_text(file@, DateField::Changed) == Some(
                changed@,
            ) && by_changed is None;
            &&& has_taken ==> moment is Some && moment->0@ == by_taken->0@
            &&& no_taken && has_digitized ==> moment is Some && moment->0@ == by_digitized->0@
            &&& no_taken && no_digitized && has_changed ==> moment is Some && moment->0@ == by_changed->0@
            &&& no_taken && no_digitized && no_changed ==> moment is None
        }),
{
}

/// Parts without a separator, joined by it, are the pieces of what they make.
proof fn lemma_joined_parts_are_pieces(parts: Seq<Seq<char>>, separator: char)
    requires
        parts.len() > 0,
        forall|k: int, i: int| 0 <= k < parts.len() && 0 <= i < parts[k].len() ==> #[trigger] parts[k][i] != separator,
    ensures
        pieces(joined(parts, seq![separator]), |character: char| character == separator) == parts,
    decreases parts.len(),
{
    let separates = |character: char| character == separator;
    let last = parts.last();
    assert forall|i: int| 0 <= i < last.len() implies !separates(#[trigger] last[i]) by {
        assert(parts[parts.len() - 1][i] != separator);
    }
    if parts.len() == 1 {
        lemma_pieces_of_word(last, separates);
        assert(parts =~= seq![last]);
    } else {
        let shorter = parts.drop_last();
        assert forall|k: int, i: int| 0 <= k < shorter.len() && 0 <= i < shorter[k].len() implies #[trigger] shorter[k][i]
            != separator by {
            assert(parts[k][i] != separator);
        }
        lemma_joined_parts_are_pieces(shorter, separator);
        lemma_pieces_of_one_more(joined(shorter, seq![separator]), separator, last, separates);
        assert(parts =~= shorter.push(last));
    }
}

/// A line of the table that the OCR program writes holds a word: twelve fields, with the
/// confidence in the last but one and a word that is not blank in the last one.
pub open spec fn is_word_row(line: Seq<char>, fields: Seq<Seq<char>>) -> bool {
    &&& fields.len() == 12
    &&& line == joined(fields, seq!['\t'])
    &&& forall|k: int, i: int| 0 <= k < 12 && 0 <= i < fields[k].len() ==> #[trigger] fields[k][i] != '\t'
    &&& trimmed(fields[11], blank()).len() > 0
}

proof fn lemma_word_row(line: Seq<char>, fields: Seq<Seq<char>>)
    requires
        is_word_row(line, fields),
    ensures
        word_of(line) == Some(OcrWordText { word: trimmed(fields[11], blank()), confidence: fields[10] }),
{
    lemma_joined_parts_are_pieces(fields, '\t');
    assert(fields.skip(11) =~= seq![fields[11]]);
    reveal_strlit("\t");
    assert("\t"@ =~= seq!['\t']);
    assert(joined(seq![fields[11]], "\t"@) == fields[11]);
}

/// The lines of a text that is made of lines.
proof fn lemma_lines_of_joined(lines: Seq<Seq<char>>)
    requires
        lines.len() > 0,
        lines.last().len() > 0,
        forall|k: int, i: int|
            0 <= k < lines.len() && 0 <= i < lines[k].len() ==> #[trigger] lines[k][i] != '\n' && lines[k][i] != '\r',
    ensures
        lines_of(joined(lines, seq!['\n'])) == lines,
{
    assert forall|k: int, i: int| 0 <= k < lines.len() && 0 <= i < lines[k].len() implies #[trigger] lines[k][i]
        != '\n' by {}
    lemma_joined_parts_are_pieces(lines, '\n');
    let parts = pieces(joined(lines, seq!['\n']), |character: char| character == '\n');
    let ended = parts.drop_last().map_values(|line: Seq<char>| without_return(line));
    assert forall|k: int| 0 <= k < ended.len() implies #[trigger] ended[k] == lines[k] by {
        if lines[k].len() > 0 {
            assert(lines[k][lines[k].len() - 1] != '\r');
        }
    }
    assert(ended.push(parts.last()) =~= lines);
}

/// From a table with a head, each of whose other lines holds a word, the words are read in their
/// order, without surrounding blanks, each with its confidence.
pub proof fn law_words_of_a_table_are_read(
    text: &Vec<char>,
    words: Vec<OcrWord>,
    head: Seq<char>,
    table: Seq<Seq<Seq<char>>>,
    lines: Seq<Seq<char>>,
)
    requires
        call_ensures(read_table, (text,), words),
        lines.len() == table.len() + 1,
        table.len() > 0,
        lines[0] == head,
        forall|k: int| 0 <= k < table.len() ==> is_word_row(lines[k + 1], #[trigger] table[k]),
        forall|k: int, i: int|
            0 <= k < lines.len() && 0 <= i < lines[k].len() ==> #[trigger] lines[k][i] != '\n' && lines[k][i] != '\r',
        text@ == joined(lines, seq!['\n']),
    ensures
        words@.len() == table.len(),
        forall|k: int|
            0 <= k < words@.len() ==> (#[trigger] words@[k]).word@ == trimmed(table[k][11], blank())
                && words@[k].confidence@ == table[k][10],
{
    let last = table.len() - 1;
    assert(is_word_row(lines[last + 1], table[last]));
    lemma_row_is_not_empty(lines[last + 1], table[last]);
    assert(lines.last() == lines[last + 1]);
    lemma_lines_of_joined(lines);
    let rest = lines.skip(1);
    assert forall|k: int| 0 <= k < table.len() implies is_word_row(rest[k], #[trigger] table[k]) by {
        assert(rest[k] == lines[k + 1]);
    }
    lemma_words_on_rows(rest, table);
    let found = ocr_words_of(words@);
    assert(found == words_on(rest));
    assert forall|k: int| 0 <= k < words@.len() implies (#[trigger] words@[k]).word@ == trimmed(table[k][11], blank())
        && words@[k].confidence@ == table[k][10] by {
        assert(found[k] == words@[k]@);
    }
}

proof fn lemma_row_is_not_empty(line: Seq<char>, fields: Seq<Seq<char>>)
    requires
        is_word_row(line, fields),
    ensures
        line.len() > 0,
{
    lemma_joined_parts_are_pieces(fields, '\t');
    if line.len() == 0 {
        assert(pieces(line, |character: char| character == '\t').len() == 1);
    }
}

proof fn lemma_words_on_rows(lines: Seq<Seq<char>>, table: Seq<Seq<Seq<char>>>)
    requires
        lines.len() == table.len(),
        forall|k: int| 0 <= k < table.len() ==> is_word_row(lines[k], #[trigger] table[k]),
    ensures
        words_on(lines).len() == lines.len(),
        forall|k: int|
            0 <= k < lines.len() ==> #[trigger] words_on(lines)[k] == (OcrWordText {
                word: trimmed(table[k][11], blank()),
                confidence: table[k][10],
            }),
    decreases lines.len(),
{
    if lines.len() > 0 {
        let shorter = lines.drop_last();
        let fewer = table.drop_last();
        assert forall|k: int| 0 <= k < fewer.len() implies is_word_row(shorter[k], #[trigger] fewer[k]) by {
            assert(is_word_row(lines[k], table[k]));
        }
        lemma_words_on_rows(shorter, fewer);
        let last = lines.len() - 1;
        assert(is_word_row(lines[last], table[last]));
        lemma_word_row(lines[last], table[last]);
        assert forall|k: int| 0 <= k < lines.len() implies #[trigger] words_on(lines)[k] == (OcrWordText {
            word: trimmed(table[k][11], blank()),
            confidence: table[k][10],
        }) by {
            if k < last {
                assert(words_on(shorter)[k] == words_on(lines)[k]);
            }
        }
    }
}

/// In any table, a line behind the head that holds a word has its word read, whatever the others
/// hold.
pub proof fn law_each_word_of_a_table_is_read(
    text: &Vec<char>,
    words: Vec<OcrWord>,
    lines: Seq<Seq<char>>,
    at: int,
    fields: Seq<Seq<char>>,
) -> (found: int)
    requires
        call_ensures(read_table, (text,), words),
        1 <= at < lines.len(),
        is_word_row(lines[at], fields),
        lines.last().len() > 0,
        forall|k: int, i: int|
            0 <= k < lines.len() && 0 <= i < lines[k].len() ==> #[trigger] lines[k][i] != '\n' && lines[k][i] != '\r',
        text@ == joined(lines, seq!['\n']),
    ensures
        0 <= found < words@.len(),
        words@[found].word@ == trimmed(fields[11], blank()),
        words@[found].confidence@ == fields[10],
{
    lemma_lines_of_joined(lines);
    let rest = lines.skip(1);
    assert(rest[at - 1] == lines[at]);
    lemma_word_row(lines[at], fields);
    let found = lemma_word_is_among(rest, at - 1);
    let all = ocr_words_of(words@);
    assert(all == words_on(rest));
    assert(all[found] == words@[found]@);
    found
}

proof fn lemma_word_is_among(lines: Seq<Seq<char>>, at: int) -> (found: int)
    requires
        0 <= at < lines.len(),
        word_of(lines[at]) is Some,
    ensures
        0 <= found < words_on(lines).len(),
        words_on(lines)[found] == word_of(lines[at])->0,
    decreases lines.len(),
{
    let shorter = lines.drop_last();
    if at < shorter.len() {
        assert(shorter[at] == lines[at]);
        let found = lemma_word_is_among(shorter, at);
        assert(words_on(lines)[found] == words_on(shorter)[found]);
        found
    } else {
        words_on(shorter).len() as int
    }
}

/// What was read counts as a text unless there is no word or their mean confidence is known and
/// lies below 20. It holds the words in their order, with a blank between every two of them.
pub proof fn law_confident_words_make_a_text(
    words: &Vec<OcrWord>,
    confidence: Option<Score>,
    candidate: Option<OcrCandidate>,
)
    requires
        call_ensures(ocr_candidate, (words, confidence), candidate),
    ensures
        words@.len() == 0 ==> candidate is None,
        words@.len() > 0 && confidence is None ==> candidate is Some,
        words@.len() > 0 && confidence is Some && confidence->0.key >= 0x41a0_0000 ==> candidate is Some,
        words@.len() > 0 && confidence is Some && 0 <= confidence->0.key < 0x41a0_0000 ==> candidate is None,
        words@.len() > 0 && confidence is Some && -0x7f80_0001 <= confidence->0.key < 0 ==> candidate is None,
        words@.len() > 0 && confidence is Some && confidence->0.key < -0x7f80_0001 ==> candidate is Some,
        candidate is Some && confidence is Some ==> candidate->0.confidence == confidence->0,
        candidate is Some && confidence is None ==> candidate->0.confidence.key == 0,
        candidate is Some && words@.len() == 1 ==> candidate->0.text@ == words@[0].word@,
        candidate is Some && words@.len() == 2 ==> candidate->0.text@ == words@[0].word@ + " "@ + words@[1].word@,
        candidate is Some ==> candidate->0.text@ == joined(
            Seq::new(words@.len(), |k: int| words@[k].word@),
            " "@,
        ),
{
    let list = ocr_words_of(words@).map_values(|word: OcrWordText| word.word);
    assert(list =~= Seq::new(words@.len(), |k: int| words@[k].word@));
    if words@.len() == 2 {
        assert(list.drop_last() =~= seq![list[0]]);
        assert(joined(seq![list[0]], " "@) == list[0]);
    }
}

/// The text of a picture is the one with the highest score.
pub proof fn law_the_best_text_is_taken(candidates: &Vec<OcrCandidate>, scores: &Vec<Score>, text: String, at: int)
    requires
        scores@.len() == candidates@.len(),
        call_ensures(extract_ocr_text, (candidates, scores), text),
    ensures
        candidates@.len() == 0 ==> text@.len() == 0,
        0 <= at < candidates@.len() && (forall|k: int|
            0 <= k < scores@.len() && k != at ==> (#[trigger] scores@[k]).key < scores@[at].key || k < at
                && scores@[k].key == scores@[at].key) ==> text@
            == candidates@[at].text@,
        0 <= at < candidates@.len() ==> exists|k: int|
            0 <= k < candidates@.len() && text@ == (#[trigger] candidates@[k]).text@ && scores@[at].key
                <= scores@[k].key,
{
    if candidates@.len() > 0 {
        let best = choose|best: int| #[trigger]
            is_last_greatest(scores@, best) && text@ == candidates@[best].text@;
        assert(text@ == candidates@[best].text@);
        if 0 <= at < candidates@.len() {
            assert(scores@[at].key <= scores@[best].key);
        }
    }
}

/// A small picture is doubled for reading, up to a side of 2600, a large one is cut down to 3200,
/// and one between is left as it is.
pub proof fn law_pictures_are_brought_to_reading_size(largest: u32, side: u32)
    requires
        call_ensures(ocr_target_side, (largest,), side),
    ensures
        largest <= 1300 ==> side == 2 * largest,
        1300 <= largest < 1800 ==> side == 2600,
        1800 <= largest <= 3200 ==> side == largest,
        largest >= 3200 ==> side == 3200,
{
}

/// A picture is read twice: first its copy, where there is one, as a block of text, then the
/// picture itself as scattered text.
pub proof fn law_a_picture_is_read_twice(has_copy: bool, list: Vec<Reading>)
    requires
        call_ensures(readings, (has_copy,), list),
    ensures
        list@.len() == 2,
        list@[0].mode == 6,
        list@[0].from_copy == has_copy,
        list@[1].mode == 11,
        !list@[1].from_copy,
{
}

/// A picture is read again in English exactly where it gave no text in another language.
pub proof fn law_english_is_tried_last(first: &Option<OcrCandidate>, language_is_english: bool, again: bool)
    requires
        call_ensures(reads_again_in_english, (first, language_is_english), again),
    ensures
        first is Some ==> !again,
        language_is_english ==> !again,
        first is None && !language_is_english ==> again,
{
}

/// The OCR program is asked for the mode that is wanted, and to write a table.
pub proof fn law_the_mode_is_asked_for(mode: u8, arguments: ReadingArguments)
    requires
        call_ensures(tesseract_arguments, (mode,), arguments),
    ensures
        arguments.before_language@.len() == 6,
        arguments.before_language@[0]@ == "stdout"@,
        arguments.before_language@[1]@ == "--oem"@,
        arguments.before_language@[2]@ == "1"@,
        arguments.before_language@[3]@ == "--psm"@,
        unsigned_value(arguments.before_language@[4]@, 255) == Some(mode as nat),
        arguments.before_language@[5]@ == "-l"@,
        arguments.after_language@.len() == 5,
        arguments.after_language@[0]@ == "-c"@,
        arguments.after_language@[1]@ == "user_defined_dpi=300"@,
        arguments.after_language@[2]@ == "-c"@,
        arguments.after_language@[3]@ == "preserve_interword_spaces=1"@,
        arguments.after_language@[4]@ == "tsv"@,
{
    let list = texts(arguments.before_language@);
    let more = texts(arguments.after_language@);
    crate::number::law_written_number_is_read_back(mode as nat, 255);
    assert(list.len() == 6 && more.len() == 5);
    assert(list[0] == arguments.before_language@[0]@);
    assert(list[1] == arguments.before_language@[1]@);
    assert(list[2] == arguments.before_language@[2]@);
    assert(list[3] == arguments.before_language@[3]@);
    assert(list[4] == arguments.before_language@[4]@);
    assert(list[5] == arguments.before_language@[5]@);
    assert(more[0] == arguments.after_language@[0]@);
    assert(more[1] == arguments.after_language@[1]@);
    assert(more[2] == arguments.after_language@[2]@);
    assert(more[3] == arguments.after_language@[3]@);
    assert(more[4] == arguments.after_language@[4]@);
}

/// The time of a change is read back from its text, and there is none where it is not known.
pub proof fn law_times_of_change_are_read_back(seconds: Option<u64>, text: String, number: String)
    requires
        seconds is Some ==> call_ensures(decimal_string, (seconds->0 as u128,), number),
        call_ensures(format_modified, (seconds,), text),
    ensures
        seconds is Some ==> unsigned_value(text@, u64::MAX as nat) == Some(seconds->0 as nat),
        seconds is Some ==> text@ == number@,
        seconds is None ==> text@.len() == 0,
{
    if seconds is Some {
        crate::number::law_written_number_is_read_back(seconds->0 as nat, u64::MAX as nat);
    }
}

/// The OCR program can use OpenCL exactly where it could be run and one of its outputs speaks of it,
/// however the letters are written.
pub proof fn law_opencl_is_told_of(
    output: &Option<ProgramOutput>,
    available: bool,
    before: Seq<char>,
    word: Seq<char>,
    behind: Seq<char>,
)
    requires
        call_ensures(tesseract_opencl_available, (output,), available),
        word.len() == 6,
        forall|i: int| 0 <= i < 6 ==> (#[trigger] word[i] == "opencl"@[i] || word[i] == "OPENCL"@[i]),
    ensures
        *output is None ==> !available,
        *output is Some && !output->0.success ==> !available,
        *output is Some && output->0.success && lossy_text(output->0.stdout@) == before + word + behind ==> available,
        *output is Some && output->0.success && lossy_text(output->0.stderr@) == before + word + behind ==> available,
{
    if *output is Some {
        let stdout = lossy_text(output->0.stdout@);
        let stderr = lossy_text(output->0.stderr@);
        reveal_strlit("opencl");
        reveal_strlit("OPENCL");
        assert(ascii_lowered(word) =~= "opencl"@);
        if stdout == before + word + behind {
            let all = stdout + stderr;
            assert(all =~= before + word + (behind + stderr));
            assert(ascii_lowered(all) =~= ascii_lowered(before) + ascii_lowered(word) + ascii_lowered(behind + stderr));
            lemma_text_is_held(ascii_lowered(before), "opencl"@, ascii_lowered(behind + stderr));
        }
        if stderr == before + word + behind {
            let all = stdout + stderr;
            assert(all =~= (stdout + before) + word + behind);
            assert(ascii_lowered(all) =~= ascii_lowered(stdout + before) + ascii_lowered(word) + ascii_lowered(behind));
            lemma_text_is_held(ascii_lowered(stdout + before), "opencl"@, ascii_lowered(behind));
        }
    }
}

/// The characters of a text count up to two hundred of them.
pub proof fn law_two_hundred_characters_count(text: &str, count: u32)
    requires
        call_ensures(counted_characters, (text,), count),
    ensures
        text@.len() <= 200 ==> count == text@.len(),
        text@.len() > 200 ==> count == 200,
{
}

/// A picture whose longer edge has from 1800 to 3200 pixels is read as it is, and where the machine
/// can hold it a smaller one is read at twice its size, up to 2600, and a larger one at 3200. Both
/// edges are scaled alike, to the nearest pixel.
pub proof fn law_pictures_are_scaled_for_reading(image: image::DynamicImage, scaled: Option<image::DynamicImage>)
    requires
        call_ensures(scale_for_reading, (image,), scaled),
    ensures
        ({
            let size = picture_size(image);
            let longest = if size.0 >= size.1 { size.0 } else { size.1 };
            &&& 1800 <= longest <= 3200 ==> scaled == Some(image)
            &&& size.0 * 6400 * 16 <= isize::MAX ==> scaled is Some
            &&& scaled is Some && 1 <= size.0 && 1 <= size.1 ==> ({
                let new = picture_size(scaled->0);
                let side = if new.0 >= new.1 { new.0 } else { new.1 };
                &&& longest <= 1300 ==> side == 2 * longest
                &&& 1300 <= longest < 1800 ==> side == 2600
                &&& longest > 3200 ==> side == 3200
                &&& size.1 <= size.0 ==> -size.0 <= new.1 * size.0 - size.1 * new.0 <= size.0
                &&& size.0 <= size.1 ==> -size.1 <= new.0 * size.1 - size.0 * new.1 <= size.1
            })
        }),
{
    let size = picture_size(image);
    let side = reading_side(longer_side(size) as int);
    assert(0 <= side <= 3200);
    assert(size.0 * side * 16 <= size.0 * 6400 * 16) by (nonlinear_arith)
        requires
            0 <= side <= 3200,
            0 <= size.0,
    ;
    if scaled == Some(image) && size.1 <= size.0 {
        assert(size.1 * size.0 - size.1 * size.0 == 0);
    }
}

/// The name of the file that a picture is brought into tells the process and the path.
pub proof fn law_reading_names_tell_the_process(
    process: u32,
    path: &str,
    name: String,
    number: String,
    digits: &mut Vec<char>,
    hash: u64,
)
    requires
        call_ensures(ocr_image_name, (process, path), name),
        call_ensures(decimal_string, (process as u128,), number),
        old(digits)@.len() == 0,
        call_ensures(push_hexadecimal_digits, (digits, hash), ()),
        hash == DefaultHasher::spec_finish(seq![encode_utf8(path@), seq![255u8]]),
    ensures
        name@ == "local-lens-ocr-"@ + number@ + "-"@ + final(digits)@ + ".png"@,
{
    assert(final(digits)@ =~= hexadecimal_digits(hash as nat));
}

/// A text is made of nothing but the characters that part a date: colons, dashes, blanks and the
/// letter T.
pub open spec fn is_date_gap(text: Seq<char>) -> bool {
    forall|i: int|
        0 <= i < text.len() ==> (#[trigger] text[i] == ':' || text[i] == '-' || text[i] == ' ' || text[i] == 'T')
}

/// A text is nothing but one character, as often as it may be.
pub open spec fn is_run_of(text: Seq<char>, character: char) -> bool {
    forall|i: int| 0 <= i < text.len() ==> #[trigger] text[i] == character
}

/// A text is nothing but blanks.
pub open spec fn is_blank_run(text: Seq<char>) -> bool {
    forall|i: int| 0 <= i < text.len() ==> white_space(#[trigger] text[i])
}

/// The parts of a date are found whatever gaps are between them, and so is nothing in a gap.
proof fn lemma_gap_parts_nothing(text: Seq<char>, gap: Seq<char>)
    requires
        is_date_gap(gap),
    ensures
        pieces(text + gap, date_separator()).filter(|part: Seq<char>| part.len() > 0) == pieces(
            text,
            date_separator(),
        ).filter(|part: Seq<char>| part.len() > 0),
    decreases gap.len(),
{
    let keep = |part: Seq<char>| part.len() > 0;
    let nothing = Seq::<char>::empty();
    if gap.len() == 0 {
        assert(text + gap =~= text);
    } else {
        let shorter = gap.drop_last();
        assert forall|i: int| 0 <= i < shorter.len() implies (#[trigger] shorter[i] == ':' || shorter[i] == '-'
            || shorter[i] == ' ' || shorter[i] == 'T') by {
            assert(shorter[i] == gap[i]);
        }
        lemma_gap_parts_nothing(text, shorter);
        let before = text + shorter;
        assert(gap[gap.len() - 1] == gap.last());
        lemma_pieces_of_one_more(before, gap.last(), nothing, date_separator());
        assert(before + seq![gap.last()] + nothing =~= text + gap);
        let parts = pieces(before, date_separator());
        reveal(Seq::filter);
        assert(parts.push(nothing).drop_last() =~= parts);
    }
}

/// A part behind a gap is one more.
proof fn lemma_part_behind_gap(text: Seq<char>, gap: Seq<char>, part: Seq<char>)
    requires
        is_date_gap(gap),
        gap.len() > 0,
        part.len() > 0,
        is_clear_of(part, date_separator()),
    ensures
        pieces(text + gap + part, date_separator()).filter(|part: Seq<char>| part.len() > 0) == pieces(
            text,
            date_separator(),
        ).filter(|part: Seq<char>| part.len() > 0).push(part),
{
    let keep = |part: Seq<char>| part.len() > 0;
    let shorter = gap.drop_last();
    assert forall|i: int| 0 <= i < shorter.len() implies (#[trigger] shorter[i] == ':' || shorter[i] == '-'
        || shorter[i] == ' ' || shorter[i] == 'T') by {
        assert(shorter[i] == gap[i]);
    }
    lemma_gap_parts_nothing(text, shorter);
    assert(gap[gap.len() - 1] == gap.last());
    let before = text + shorter;
    lemma_pieces_of_one_more(before, gap.last(), part, date_separator());
    assert(before + seq![gap.last()] + part =~= text + gap + part);
    let parts = pieces(before, date_separator());
    reveal(Seq::filter);
    assert(parts.push(part).drop_last() =~= parts);
}

/// What is dropped around a text that neither starts nor ends with it leaves the text.
proof fn lemma_surroundings_are_trimmed(before: Seq<char>, core: Seq<char>, behind: Seq<char>, drop: spec_fn(char) -> bool)
    requires
        core.len() > 0,
        !drop(core[0]),
        !drop(core.last()),
        forall|i: int| 0 <= i < before.len() ==> drop(#[trigger] before[i]),
        forall|i: int| 0 <= i < behind.len() ==> drop(#[trigger] behind[i]),
    ensures
        trimmed(before + core + behind, drop) == core,
{
    let text = before + core + behind;
    assert forall|i: int| 0 <= i < before.len() implies drop(#[trigger] text[i]) by {
        assert(text[i] == before[i]);
    }
    assert(text[before.len() as int] == core[0]);
    lemma_run_length(text, drop, before.len() as int);
    let rest = text.skip(before.len() as int);
    assert(rest =~= core + behind);
    assert forall|i: int| rest.len() - behind.len() <= i < rest.len() implies drop(#[trigger] rest[i]) by {
        assert(rest[i] == behind[i - core.len()]);
    }
    assert(rest[core.len() - 1] == core.last());
    lemma_tail_length(rest, drop, behind.len() as int);
    assert(rest.take(core.len() as int) =~= core);
}

/// A date of a camera is understood whatever gaps part its six numbers, whatever digits they are
/// written with, and whatever blanks, zero characters and quotation marks are around it. It is the
/// moment of these numbers where they are a year from 1900 to 2200, a month, a day, an hour, a minute
/// and a second, and none where one of them is not.
pub proof fn law_dates_are_understood_in_any_form(
    value: &str,
    moment: Option<String>,
    parts: Seq<Seq<char>>,
    numbers: Seq<nat>,
    gaps: Seq<Seq<char>>,
    before: (Seq<char>, Seq<char>, Seq<char>, Seq<char>),
    behind: (Seq<char>, Seq<char>, Seq<char>, Seq<char>),
)
    requires
        call_ensures(normalize_exif_datetime, (value,), moment),
        parts.len() == 6,
        numbers.len() == 6,
        gaps.len() == 5,
        forall|k: int|
            0 <= k < 6 ==> (#[trigger] parts[k]).len() > 0 && all_digits(parts[k]) && decimal(parts[k]) == numbers[k],
        forall|k: int| 0 <= k < 5 ==> (#[trigger] gaps[k]).len() > 0 && is_date_gap(gaps[k]),
        is_blank_run(before.0) && is_run_of(before.1, '\0') && is_run_of(before.2, '"') && is_blank_run(before.3),
        is_blank_run(behind.0) && is_run_of(behind.1, '"') && is_run_of(behind.2, '\0') && is_blank_run(behind.3),
        before.3.len() > 0 ==> before.2.len() > 0,
        behind.0.len() > 0 ==> behind.1.len() > 0,
        value@ == before.0 + (before.1 + (before.2 + (before.3 + (parts[0] + gaps[0] + parts[1] + gaps[1] + parts[2]
            + gaps[2] + parts[3] + gaps[3] + parts[4] + gaps[4] + parts[5]) + behind.0) + behind.1) + behind.2) + behind.3,
    ensures
        moment is Some <==> 1900 <= numbers[0] <= 2200 && 1 <= numbers[1] <= 12 && 1 <= numbers[2] <= 31 && numbers[3]
            <= 23 && numbers[4] <= 59 && numbers[5] <= 60,
        moment is Some ==> moment->0@ == moment_text(
            numbers[0] as int,
            numbers[1] as int,
            numbers[2] as int,
            numbers[3] as int,
            numbers[4] as int,
            numbers[5] as int,
        ),
{
    let core = parts[0] + gaps[0] + parts[1] + gaps[1] + parts[2] + gaps[2] + parts[3] + gaps[3] + parts[4] + gaps[4]
        + parts[5];
    lemma_six_parts(parts, gaps);
    assert(core[0] == parts[0][0]);
    assert(core.last() == parts[5].last());
    assert(is_digit(parts[0][0]));
    assert(is_digit(parts[5][parts[5].len() - 1]));
    lemma_cleaned(core, before, behind);
    assert(date_parts(value@) == parts);
    assert forall|k: int| 0 <= k < 6 implies (#[trigger] part_value(parts[k])) == (if numbers[k] <= u32::MAX {
        Some(numbers[k])
    } else {
        None
    }) by {
        assert(is_digit(parts[k][0]));
    }
    assert(part_value(parts[0]) is Some || numbers[0] > u32::MAX);
    assert(part_value(parts[1]) is Some || numbers[1] > u32::MAX);
    assert(part_value(parts[2]) is Some || numbers[2] > u32::MAX);
    assert(part_value(parts[3]) is Some || numbers[3] > u32::MAX);
    assert(part_value(parts[4]) is Some || numbers[4] > u32::MAX);
    assert(part_value(parts[5]) is Some || numbers[5] > u32::MAX);
}

/// The parts of a date with gaps between them.
proof fn lemma_six_parts(parts: Seq<Seq<char>>, gaps: Seq<Seq<char>>)
    requires
        parts.len() == 6,
        gaps.len() == 5,
        forall|k: int| 0 <= k < 6 ==> (#[trigger] parts[k]).len() > 0 && all_digits(parts[k]),
        forall|k: int| 0 <= k < 5 ==> (#[trigger] gaps[k]).len() > 0 && is_date_gap(gaps[k]),
    ensures
        pieces(
            parts[0] + gaps[0] + parts[1] + gaps[1] + parts[2] + gaps[2] + parts[3] + gaps[3] + parts[4] + gaps[4]
                + parts[5],
            date_separator(),
        ).filter(|part: Seq<char>| part.len() > 0) == parts,
{
    let keep = |part: Seq<char>| part.len() > 0;
    assert forall|k: int| 0 <= k < 6 implies is_clear_of(#[trigger] parts[k], date_separator()) by {
        lemma_digits_do_not_separate(parts[k]);
    }
    lemma_pieces_of_word(parts[0], date_separator());
    lemma_all_are_kept(seq![parts[0]], keep);
    let t1 = parts[0] + gaps[0] + parts[1];
    lemma_part_behind_gap(parts[0], gaps[0], parts[1]);
    let t2 = t1 + gaps[1] + parts[2];
    lemma_part_behind_gap(t1, gaps[1], parts[2]);
    let t3 = t2 + gaps[2] + parts[3];
    lemma_part_behind_gap(t2, gaps[2], parts[3]);
    let t4 = t3 + gaps[3] + parts[4];
    lemma_part_behind_gap(t3, gaps[3], parts[4]);
    lemma_part_behind_gap(t4, gaps[4], parts[5]);
    assert(seq![parts[0]].push(parts[1]).push(parts[2]).push(parts[3]).push(parts[4]).push(parts[5]) =~= parts);
}

/// What is around a date is taken off.
proof fn lemma_cleaned(
    core: Seq<char>,
    before: (Seq<char>, Seq<char>, Seq<char>, Seq<char>),
    behind: (Seq<char>, Seq<char>, Seq<char>, Seq<char>),
)
    requires
        core.len() > 0,
        is_digit(core[0]),
        is_digit(core.last()),
        is_blank_run(before.0) && is_run_of(before.1, '\0') && is_run_of(before.2, '"') && is_blank_run(before.3),
        is_blank_run(behind.0) && is_run_of(behind.1, '"') && is_run_of(behind.2, '\0') && is_blank_run(behind.3),
        before.3.len() > 0 ==> before.2.len() > 0,
        behind.0.len() > 0 ==> behind.1.len() > 0,
    ensures
        cleaned_date(
            before.0 + (before.1 + (before.2 + (before.3 + core + behind.0) + behind.1) + behind.2) + behind.3,
        ) == core,
{
    let zero = |character: char| character == '\0';
    let quote = |character: char| character == '"';
    let inner = before.3 + core + behind.0;
    let quoted = before.2 + inner + behind.1;
    let all = before.1 + quoted + behind.2;
    lemma_ends(before.3, core, behind.0);
    lemma_ends(before.2, inner, behind.1);
    lemma_ends(before.1, quoted, behind.2);
    lemma_surroundings_are_trimmed(before.0, all, behind.3, blank());
    lemma_surroundings_are_trimmed(before.1, quoted, behind.2, zero);
    lemma_surroundings_are_trimmed(before.2, inner, behind.1, quote);
    lemma_surroundings_are_trimmed(before.3, core, behind.0, blank());
}

/// What a text starts and ends with once something is put around it.
proof fn lemma_ends(before: Seq<char>, core: Seq<char>, behind: Seq<char>)
    requires
        core.len() > 0,
    ensures
        ({
            let text = before + core + behind;
            &&& text.len() > 0
            &&& text[0] == if before.len() > 0 { before[0] } else { core[0] }
            &&& text.last() == if behind.len() > 0 { behind[behind.len() - 1] } else { core.last() }
        }),
{
}

/// The copy of a picture that text is read from is a grey one of the picture as it is scaled for
/// reading; there is one exactly where scaling gives one.
pub proof fn law_text_is_read_from_a_grey_copy(
    image: image::DynamicImage,
    copy: Option<image::DynamicImage>,
    scaled: Option<image::DynamicImage>,
)
    requires
        call_ensures(make_ocr_image, (image,), copy),
        call_ensures(scale_for_reading, (image,), scaled),
    ensures
        copy is Some <==> scaled is Some,
        copy is Some ==> exists|source: image::DynamicImage| #[trigger]
            may_be_scaled_for_reading(image, source) && copy->0 == grey_picture(source) && picture_size(copy->0)
                == picture_size(source),
{
    if copy is Some {
        let source = choose|source: image::DynamicImage| #[trigger]
            may_be_scaled_for_reading(image, source) && is_grey_copy(source, copy->0);
        assert(may_be_scaled_for_reading(image, source));
    }
}

/// The words of what the program printed are those of the table that its bytes are a text of.
pub proof fn law_printed_words_are_read(stdout: &Vec<u8>, words: Vec<OcrWord>, text: &Vec<char>, read: Vec<OcrWord>)
    requires
        call_ensures(read_words, (stdout,), words),
        call_ensures(read_table, (text,), read),
        text@ == lossy_text(stdout@),
    ensures
        words@.len() == read@.len(),
        forall|k: int|
            0 <= k < words@.len() ==> (#[trigger] words@[k]).word@ == read@[k].word@ && words@[k].confidence@
                == read@[k].confidence@,
{
    let left = ocr_words_of(words@);
    let right = ocr_words_of(read@);
    assert(left.len() == right.len());
    assert forall|k: int| 0 <= k < words@.len() implies (#[trigger] words@[k]).word@ == read@[k].word@
        && words@[k].confidence@ == read@[k].confidence@ by {
        assert(left[k] == right[k]);
    }
}

} // verus!
