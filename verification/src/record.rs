//! Records of pictures: what the index knows of a file, what of it is kept on disk, and
//! whether it is what a query asks for.

use vstd::prelude::*;

use crate::calendar::{
    day_range, law_later_moments_have_more_seconds, law_moments_are_ordered_as_texts, moment_string, month_length,
    named_range, CivilTime, DateRangeText,
};
use crate::number::{
    all_digits, digits_of, is_digit, law_written_number_is_read_back, lemma_digits_of, read_i64, signed_value,
};
use crate::path::{may_have_extension, path_extension};
use crate::query::{summer, FacePresence, PlanText, QueryPlan};
use crate::score::{Score, ONE_KEY};
use crate::text::{
    chars_of, comes_before, copy_optional, copy_strings, has_string, lowercase, optional_text, text_before, texts,
    to_lowercase,
};

verus! {

/// What the index knows of a picture.
#[derive(Debug, Clone)]
pub struct ImageRecord {
    pub id: String,
    pub path: String,
    pub filename: String,
    pub modified_at: String,
    pub captured_at: Option<String>,
    pub width: Option<u32>,
    pub height: Option<u32>,
    pub thumbnail: String,
    pub ocr_text: String,
    pub people: Vec<String>,
    pub score: Score,
    pub face_group_ids: Vec<String>,
}

/// The texts of an `ImageRecord`.
pub struct ImageText {
    pub id: Seq<char>,
    pub path: Seq<char>,
    pub filename: Seq<char>,
    pub modified_at: Seq<char>,
    pub captured_at: Option<Seq<char>>,
    pub width: Option<u32>,
    pub height: Option<u32>,
    pub thumbnail: Seq<char>,
    pub ocr_text: Seq<char>,
    pub people: Seq<Seq<char>>,
    pub score: Score,
    pub face_group_ids: Seq<Seq<char>>,
}

impl View for ImageRecord {
    type V = ImageText;

    open spec fn view(&self) -> ImageText {
        ImageText {
            id: self.id@,
            path: self.path@,
            filename: self.filename@,
            modified_at: self.modified_at@,
            captured_at: optional_text(self.captured_at),
            width: self.width,
            height: self.height,
            thumbnail: self.thumbnail@,
            ocr_text: self.ocr_text@,
            people: texts(self.people@),
            score: self.score,
            face_group_ids: texts(self.face_group_ids@),
        }
    }
}

/// The texts of a sequence of records.
pub open spec fn images(records: Seq<ImageRecord>) -> Seq<ImageText> {
    records.map_values(|record: ImageRecord| record@)
}

impl ImageRecord {
    /// A copy of the record.
    pub fn duplicate(&self) -> (copy: ImageRecord)
        ensures
            copy@ == self@,
    {
        ImageRecord {
            id: self.id.clone(),
            path: self.path.clone(),
            filename: self.filename.clone(),
            modified_at: self.modified_at.clone(),
            captured_at: copy_optional(&self.captured_at),
            width: self.width,
            height: self.height,
            thumbnail: self.thumbnail.clone(),
            ocr_text: self.ocr_text.clone(),
            people: copy_strings(&self.people),
            score: self.score,
            face_group_ids: copy_strings(&self.face_group_ids),
        }
    }
}

// ---------------------------------------------------------------------------
// What is kept on disk
// ---------------------------------------------------------------------------

/// What is kept of a picture on disk: neither the thumbnail nor a search vector.
#[derive(Debug, Clone)]
pub struct CachedImageRecord {
    pub filename: String,
    pub modified_at: String,
    pub captured_at: Option<String>,
    pub width: Option<u32>,
    pub height: Option<u32>,
    pub ocr_text: String,
    pub people: Vec<String>,
    pub face_group_ids: Vec<String>,
}

/// The texts of a `CachedImageRecord`.
pub struct CachedText {
    pub filename: Seq<char>,
    pub modified_at: Seq<char>,
    pub captured_at: Option<Seq<char>>,
    pub width: Option<u32>,
    pub height: Option<u32>,
    pub ocr_text: Seq<char>,
    pub people: Seq<Seq<char>>,
    pub face_group_ids: Seq<Seq<char>>,
}

impl View for CachedImageRecord {
    type V = CachedText;

    open spec fn view(&self) -> CachedText {
        CachedText {
            filename: self.filename@,
            modified_at: self.modified_at@,
            captured_at: optional_text(self.captured_at),
            width: self.width,
            height: self.height,
            ocr_text: self.ocr_text@,
            people: texts(self.people@),
            face_group_ids: texts(self.face_group_ids@),
        }
    }
}

/// What is kept of a record.
pub open spec fn cached_of(record: ImageText) -> CachedText {
    CachedText {
        filename: record.filename,
        modified_at: record.modified_at,
        captured_at: record.captured_at,
        width: record.width,
        height: record.height,
        ocr_text: record.ocr_text,
        people: record.people,
        face_group_ids: record.face_group_ids,
    }
}

/// The record of the file at `path` made of what was kept of it; its thumbnail is left
/// to be fetched when it is shown.
pub open spec fn record_of(cached: CachedText, path: Seq<char>) -> ImageText {
    ImageText {
        id: path,
        path,
        filename: cached.filename,
        modified_at: cached.modified_at,
        captured_at: cached.captured_at,
        width: cached.width,
        height: cached.height,
        thumbnail: Seq::empty(),
        ocr_text: cached.ocr_text,
        people: cached.people,
        score: Score::one(),
        face_group_ids: cached.face_group_ids,
    }
}

impl CachedImageRecord {
    /// What is kept of a record.
    pub fn from_record(record: &ImageRecord) -> (cached: CachedImageRecord)
        ensures
            cached@ == cached_of(record@),
    {
        CachedImageRecord {
            filename: record.filename.clone(),
            modified_at: record.modified_at.clone(),
            captured_at: copy_optional(&record.captured_at),
            width: record.width,
            height: record.height,
            ocr_text: record.ocr_text.clone(),
            people: copy_strings(&record.people),
            face_group_ids: copy_strings(&record.face_group_ids),
        }
    }

    /// The record of the file at `path`.
    pub fn into_record(self, path: String) -> (record: ImageRecord)
        ensures
            record@ == record_of(self@, path@),
    {
        let thumbnail: String = String::new();
        assert(thumbnail@ =~= Seq::<char>::empty());
        ImageRecord {
            id: path.clone(),
            path,
            filename: self.filename,
            modified_at: self.modified_at,
            captured_at: self.captured_at,
            width: self.width,
            height: self.height,
            thumbnail,
            ocr_text: self.ocr_text,
            people: self.people,
            score: Score { key: ONE_KEY },
            face_group_ids: self.face_group_ids,
        }
    }
}

/// A record comes back from what was kept of it, but for its thumbnail, its score and
/// an identifier other than the path; and what is kept of such a record is the same.
pub proof fn law_kept_record_comes_back(record: ImageText, cached: CachedText, path: Seq<char>)
    ensures
        record_of(cached_of(record), record.path) == (ImageText {
            id: record.path,
            thumbnail: Seq::empty(),
            score: Score::one(),
            ..record
        }),
        cached_of(record_of(cached, path)) == cached,
{
}

/// What tells one version of a file from another.
#[derive(Debug, Clone, Copy, PartialEq, Eq, Structural)]
pub struct FileFingerprint {
    pub bytes: u64,
    pub modified_ns: u128,
}

/// The fingerprint of a file of the given length, last changed the given number of
/// nanoseconds after the start of 1970: there is none where either is not known.
pub fn file_fingerprint(length: Option<u64>, modified_ns: Option<u128>) -> (fingerprint: Option<FileFingerprint>)
    ensures
        match (length, modified_ns) {
            (Some(bytes), Some(modified_ns)) => fingerprint == Some(FileFingerprint { bytes, modified_ns }),
            _ => fingerprint is None,
        },
{
    match (length, modified_ns) {
        (Some(bytes), Some(modified_ns)) => Some(FileFingerprint { bytes, modified_ns }),
        _ => None,
    }
}

/// What was kept of a file, and of which version of it.
#[derive(Debug, Clone)]
pub struct CachedImage {
    pub fingerprint: FileFingerprint,
    pub record: CachedImageRecord,
    pub thumbnail_available: bool,
}

// ---------------------------------------------------------------------------
// Dates
// ---------------------------------------------------------------------------

/// The first moment of the calendar.
pub open spec fn first_moment() -> CivilTime {
    CivilTime { year: -9999i32, month: 1, day: 1, hour: 0, minute: 0, second: 0 }
}

/// The last second of the calendar.
pub open spec fn last_moment() -> CivilTime {
    CivilTime { year: 9999, month: 12, day: 31, hour: 23, minute: 59, second: 59 }
}

/// A time stamp of the years -9999 to 9999.
pub open spec fn in_calendar(timestamp: int) -> bool {
    first_moment().unix_seconds() <= timestamp <= last_moment().unix_seconds()
}

/// `time::OffsetDateTime::from_unix_timestamp` gives the date and time of day, in UTC,
/// of a number of seconds since the start of 1970. Its calendar, built without large
/// dates, holds the years -9999 to 9999; it is an error to ask for a moment outside.
#[verifier::external_body]
fn civil_time(timestamp: i64) -> (moment: Option<CivilTime>)
    ensures
        match moment {
            Some(moment) => in_calendar(timestamp as int) && moment.valid() && moment.unix_seconds()
                == timestamp,
            None => !in_calendar(timestamp as int),
        },
{
    let moment = time::OffsetDateTime::from_unix_timestamp(timestamp).ok()?;
    Some(CivilTime {
        year: moment.year(),
        month: moment.month() as u8,
        day: moment.day(),
        hour: moment.hour(),
        minute: moment.minute(),
        second: moment.second(),
    })
}

/// A moment that lies `timestamp` seconds after the start of 1970.
pub open spec fn moment_of(timestamp: int) -> CivilTime {
    choose|moment: CivilTime| moment.valid() && #[trigger] moment.unix_seconds() == timestamp
}

/// The moment that a record is searched by: when the picture was taken, else when the
/// file was changed, which is written as a time stamp.
pub open spec fn date_key(record: ImageText) -> Option<Seq<char>> {
    match record.captured_at {
        Some(captured_at) => Some(captured_at),
        None => match signed_value(record.modified_at, i64::MAX as nat) {
            Some(timestamp) if in_calendar(timestamp) => Some(moment_of(timestamp).text()),
            _ => None,
        },
    }
}

/// The moment that a record is searched by.
pub fn record_date_key(record: &ImageRecord) -> (key: Option<String>)
    ensures
        optional_text(key) == date_key(record@),
{
    match &record.captured_at {
        Some(captured_at) => {
            return Some(captured_at.clone());
        },
        None => {},
    }
    match read_i64(&chars_of(record.modified_at.as_str())) {
        Some(timestamp) => match civil_time(timestamp) {
            Some(moment) => {
                proof {
                    let chosen = moment_of(timestamp as int);
                    assert(moment.unix_seconds() == timestamp);
                    assert(chosen.valid() && chosen.unix_seconds() == timestamp);
                    law_later_moments_have_more_seconds(moment, chosen);
                }
                Some(
                    moment_string(
                        moment.year as i64,
                        moment.month as i64,
                        moment.day as i64,
                        moment.hour as i64,
                        moment.minute as i64,
                        moment.second as i64,
                    ),
                )
            },
            None => None,
        },
        None => None,
    }
}

/// A moment lies in a range, both ends included, in the dictionary order of texts.
pub open spec fn in_range(moment: Seq<char>, range: DateRangeText) -> bool {
    &&& range.from matches Some(from) ==> !text_before(moment, from)
    &&& range.to matches Some(to) ==> !text_before(to, moment)
}

// ---------------------------------------------------------------------------
// What a query asks for
// ---------------------------------------------------------------------------

/// The names in lower case.
pub open spec fn folded(names: Seq<Seq<char>>) -> Seq<Seq<char>> {
    names.map_values(|name: Seq<char>| lowercase(name))
}

/// The record shows whom a plan asks for and nobody whom it rules out.
pub open spec fn people_admitted(people: Seq<Seq<char>>, plan: PlanText) -> bool {
    &&& forall|k: int|
        0 <= k < plan.people_include.len() ==> folded(people).contains(
            lowercase(#[trigger] plan.people_include[k]),
        )
    &&& forall|k: int|
        0 <= k < plan.people_exclude.len() ==> !folded(people).contains(
            lowercase(#[trigger] plan.people_exclude[k]),
        )
}

/// The record has a face if a plan wants one, and none if it wants none.
pub open spec fn faces_admitted(face_group_ids: Seq<Seq<char>>, plan: PlanText) -> bool {
    match plan.face_presence {
        FacePresence::Any => true,
        FacePresence::Required => face_group_ids.len() > 0,
        FacePresence::Forbidden => face_group_ids.len() == 0,
    }
}

/// The record is of a time that a plan asks for.
pub open spec fn date_admitted(record: ImageText, plan: PlanText) -> bool {
    plan.date.from is Some || plan.date.to is Some ==> {
        match date_key(record) {
            Some(moment) => in_range(moment, plan.date),
            None => false,
        }
    }
}

/// The record is of a file type that a plan asks for.
pub open spec fn extension_admitted(extension: Option<Seq<char>>, plan: PlanText) -> bool {
    plan.extensions.len() > 0 ==> {
        match extension {
            Some(extension) => plan.extensions.contains(lowercase(extension)),
            None => false,
        }
    }
}

/// A record whose path has the given extension is one that a plan asks for, as far as
/// its words are left aside.
pub open spec fn admitted(record: ImageText, plan: PlanText, extension: Option<Seq<char>>) -> bool {
    &&& extension_admitted(extension, plan)
    &&& faces_admitted(record.face_group_ids, plan)
    &&& people_admitted(record.people, plan)
    &&& date_admitted(record, plan)
}

fn fold_names(names: &Vec<String>) -> (lower: Vec<String>)
    ensures
        texts(lower@) == folded(texts(names@)),
{
    let mut lower: Vec<String> = Vec::new();
    for i in 0..names.len()
        invariant
            lower@.len() == i,
            forall|k: int| 0 <= k < i ==> #[trigger] lower@[k]@ == lowercase(names@[k]@),
    {
        lower.push(to_lowercase(names[i].as_str()));
    }
    assert(texts(lower@) =~= folded(texts(names@)));
    lower
}

fn are_people_admitted(people: &Vec<String>, plan: &QueryPlan) -> (result: bool)
    ensures
        result == people_admitted(texts(people@), plan@),
{
    let known: Vec<String> = fold_names(people);
    for i in 0..plan.people_include.len()
        invariant
            texts(known@) == folded(texts(people@)),
            forall|k: int|
                0 <= k < i ==> texts(known@).contains(lowercase(#[trigger] plan@.people_include[k])),
    {
        assert(plan@.people_include[i as int] == plan.people_include@[i as int]@);
        if !has_string(&known, &to_lowercase(plan.people_include[i].as_str())) {
            return false;
        }
    }
    for i in 0..plan.people_exclude.len()
        invariant
            texts(known@) == folded(texts(people@)),
            forall|k: int|
                0 <= k < i ==> !texts(known@).contains(lowercase(#[trigger] plan@.people_exclude[k])),
    {
        assert(plan@.people_exclude[i as int] == plan.people_exclude@[i as int]@);
        if has_string(&known, &to_lowercase(plan.people_exclude[i].as_str())) {
            return false;
        }
    }
    true
}

fn is_date_admitted(record: &ImageRecord, plan: &QueryPlan) -> (result: bool)
    ensures
        result == date_admitted(record@, plan@),
{
    if plan.date.from.is_none() && plan.date.to.is_none() {
        return true;
    }
    match record_date_key(record) {
        Some(moment) => {
            let moment: Vec<char> = chars_of(moment.as_str());
            match &plan.date.from {
                Some(from) => {
                    if comes_before(&moment, &chars_of(from.as_str())) {
                        return false;
                    }
                },
                None => {},
            }
            match &plan.date.to {
                Some(to) => !comes_before(&chars_of(to.as_str()), &moment),
                None => true,
            }
        },
        None => false,
    }
}

/// Whether a record whose path has the given extension is one that a plan asks for.
pub fn is_admitted(record: &ImageRecord, plan: &QueryPlan, extension: &Option<String>) -> (result: bool)
    ensures
        result == admitted(record@, plan@, optional_text(*extension)),
{
    if plan.extensions.len() > 0 {
        match extension {
            Some(extension) => {
                if !has_string(&plan.extensions, &to_lowercase(extension.as_str())) {
                    return false;
                }
            },
            None => {
                return false;
            },
        }
    }
    if plan.face_presence == FacePresence::Required && record.face_group_ids.len() == 0 {
        return false;
    }
    if plan.face_presence == FacePresence::Forbidden && record.face_group_ids.len() > 0 {
        return false;
    }
    are_people_admitted(&record.people, plan) && is_date_admitted(record, plan)
}

/// Whether a record is one that a plan asks for.
pub fn record_matches_plan(record: &ImageRecord, plan: &QueryPlan) -> (result: bool)
    ensures
        exists|extension: Option<Seq<char>>| #[trigger]
            may_have_extension(record@.path, extension) && result == admitted(record@, plan@, extension),
{
    let extension: Option<String> = path_extension(record.path.as_str());
    assert(may_have_extension(record@.path, optional_text(extension)));
    is_admitted(record, plan, &extension)
}

// ---------------------------------------------------------------------------
// Which pictures a date finds
// ---------------------------------------------------------------------------

/// A moment lies in the range of two days exactly where it is neither before the first
/// one nor behind the last one.
proof fn lemma_day_range(moment: CivilTime, year: i32, month: u8, first: u8, last_month: u8, last: u8)
    requires
        moment.valid(),
        0 <= moment.year <= 9999,
        0 <= year <= 9999,
        1 <= month <= 12,
        1 <= last_month <= 12,
        1 <= first <= month_length(year as int, month as int),
        1 <= last <= month_length(year as int, last_month as int),
    ensures
        in_range(
            moment.text(),
            day_range(year as int, month as int, first as int, last_month as int, last as int),
        ) == (!moment.earlier(CivilTime { year, month, day: first, hour: 0, minute: 0, second: 0 })
            && !(CivilTime { year, month: last_month, day: last, hour: 23, minute: 59, second: 59 }).earlier(moment)),
{
    let from = CivilTime { year, month, day: first, hour: 0, minute: 0, second: 0 };
    let to = CivilTime { year, month: last_month, day: last, hour: 23, minute: 59, second: 59 };
    law_moments_are_ordered_as_texts(moment, from);
    law_moments_are_ordered_as_texts(to, moment);
}

/// A query for a day finds exactly the moments of that day.
pub proof fn law_day_finds_its_moments(moment: CivilTime, year: int, month: int, day: int)
    requires
        moment.valid(),
        0 <= moment.year <= 9999,
        named_range(year, Some(month), Some(day)) is Some,
    ensures
        in_range(moment.text(), named_range(year, Some(month), Some(day))->0) == (moment.year == year && moment.month
            == month && moment.day == day),
{
    lemma_day_range(moment, year as i32, month as u8, day as u8, month as u8, day as u8);
}

/// A query for a month finds exactly the moments of that month.
pub proof fn law_month_finds_its_moments(moment: CivilTime, year: int, month: int)
    requires
        moment.valid(),
        0 <= moment.year <= 9999,
        named_range(year, Some(month), None) is Some,
    ensures
        in_range(moment.text(), named_range(year, Some(month), None)->0) == (moment.year == year && moment.month
            == month),
{
    lemma_day_range(moment, year as i32, month as u8, 1, month as u8, month_length(year, month) as u8);
}

/// A query for the summer of a year finds exactly the moments from June to August.
pub proof fn law_summer_finds_its_moments(moment: CivilTime, year: int)
    requires
        moment.valid(),
        0 <= moment.year <= 9999,
        0 <= year <= 9999,
    ensures
        in_range(moment.text(), summer(year)) == (moment.year == year && 6 <= moment.month <= 8),
{
    lemma_day_range(moment, year as i32, 6, 1, 8, 31);
}

// ---------------------------------------------------------------------------
// What each part of a plan decides
// ---------------------------------------------------------------------------

/// A plan asks neither for people nor for file types, and lets faces be.
pub open spec fn asks_for_dates_alone(plan: QueryPlan) -> bool {
    &&& plan.people_include@.len() == 0
    &&& plan.people_exclude@.len() == 0
    &&& plan.extensions@.len() == 0
    &&& plan.face_presence == FacePresence::Any
}

/// A moment lies between two others where they are given, both included.
pub open spec fn lies_between(moment: Seq<char>, from: Option<String>, to: Option<String>) -> bool {
    &&& from is None || !text_before(moment, from->0@)
    &&& to is None || !text_before(to->0@, moment)
}

/// A picture with a capture time is admitted by a plan that asks for a range of dates and nothing
/// else exactly where that capture time lies in the range, whatever its time of change and its
/// path.
pub proof fn law_capture_time_decides(record: &ImageRecord, plan: &QueryPlan, result: bool)
    requires
        call_ensures(record_matches_plan, (record, plan), result),
        asks_for_dates_alone(*plan),
        record.captured_at is Some,
    ensures
        result == lies_between(record.captured_at->0@, plan.date.from, plan.date.to),
{
    assert(plan@.extensions.len() == 0);
}

/// A picture without a capture time, whose file was changed at a moment from 1970 on, is admitted
/// by a plan that asks for a range of dates and nothing else exactly where that moment lies in
/// the range.
pub proof fn law_time_of_change_stands_in(
    record: &ImageRecord,
    plan: &QueryPlan,
    result: bool,
    changed: CivilTime,
)
    requires
        call_ensures(record_matches_plan, (record, plan), result),
        asks_for_dates_alone(*plan),
        plan.date.from is Some || plan.date.to is Some,
        record.captured_at is None,
        changed.valid(),
        1970 <= changed.year <= 9999,
        changed.unix_seconds() >= 0,
        record.modified_at@ == digits_of(changed.unix_seconds() as nat),
    ensures
        result == lies_between(changed.text(), plan.date.from, plan.date.to),
{
    assert(plan@.extensions.len() == 0);
    let timestamp = changed.unix_seconds();
    law_later_moments_have_more_seconds(changed, last_moment());
    law_later_moments_have_more_seconds(first_moment(), changed);
    assert(last_moment().unix_seconds() <= i64::MAX) by {
        reveal_with_fuel(crate::calendar::days_before_month, 13);
    }
    assert(in_calendar(timestamp));
    law_written_number_is_read_back(timestamp as nat, i64::MAX as nat);
    let chosen = moment_of(timestamp);
    assert(changed.unix_seconds() == timestamp);
    assert(chosen.valid() && chosen.unix_seconds() == timestamp);
    law_later_moments_have_more_seconds(changed, chosen);
}

/// A picture without any time is admitted by no plan that asks for dates, and every picture by a
/// plan that asks for nothing.
pub proof fn law_undated_pictures_have_no_date(record: &ImageRecord, plan: &QueryPlan, result: bool)
    requires
        call_ensures(record_matches_plan, (record, plan), result),
        asks_for_dates_alone(*plan),
    ensures
        record.captured_at is None && record.modified_at@.len() == 0 && (plan.date.from is Some || plan.date.to is Some)
            ==> !result,
        plan.date.from is None && plan.date.to is None ==> result,
{
    assert(plan@.extensions.len() == 0);
}

/// The moment that a record is searched by is its capture time wherever there is one, else the
/// moment that the time stamp of its change stands for.
pub proof fn law_date_key_is_the_capture_time(record: &ImageRecord, key: Option<String>, changed: CivilTime)
    requires
        call_ensures(record_date_key, (record,), key),
    ensures
        record.captured_at is Some ==> key is Some && key->0@ == record.captured_at->0@,
        record.captured_at is None && changed.valid() && 1970 <= changed.year <= 9999 && changed.unix_seconds() >= 0
            && record.modified_at@ == digits_of(changed.unix_seconds() as nat) ==> key is Some && key->0@
            == changed.text(),
        record.captured_at is None && changed.valid() && -9999 <= changed.year < 1970 && changed.unix_seconds() < 0
            && record.modified_at@ == "-"@ + digits_of((-changed.unix_seconds()) as nat) ==> key is Some && key->0@
            == changed.text(),
        record.captured_at is None && (record.modified_at@.len() == 0 || exists|i: int|
            0 <= i < record.modified_at@.len() && !('0' <= #[trigger] record.modified_at@[i] <= '9') && record.modified_at@[i]
                != '+' && record.modified_at@[i] != '-') ==> key is None,
{
    lemma_unread_time(record@.modified_at);
    if record.captured_at is None && changed.valid() && -9999 <= changed.year < 1970 && changed.unix_seconds() < 0
        && record.modified_at@ == "-"@ + digits_of((-changed.unix_seconds()) as nat) {
        let timestamp = changed.unix_seconds();
        law_later_moments_have_more_seconds(changed, last_moment());
        law_later_moments_have_more_seconds(first_moment(), changed);
        assert(first_moment().unix_seconds() >= i64::MIN) by {
            reveal_with_fuel(crate::calendar::days_before_month, 13);
        }
        reveal_strlit("-");
        lemma_digits_of((-timestamp) as nat);
        assert(record.modified_at@[0] == '-');
        assert(record.modified_at@.skip(1) =~= digits_of((-timestamp) as nat));
        let chosen = moment_of(timestamp);
        assert(changed.unix_seconds() == timestamp);
        assert(chosen.valid() && chosen.unix_seconds() == timestamp);
        law_later_moments_have_more_seconds(changed, chosen);
    }
    if record.captured_at is None && changed.valid() && 1970 <= changed.year <= 9999 && changed.unix_seconds() >= 0
        && record.modified_at@ == digits_of(changed.unix_seconds() as nat) {
        let timestamp = changed.unix_seconds();
        law_later_moments_have_more_seconds(changed, last_moment());
        law_later_moments_have_more_seconds(first_moment(), changed);
        assert(last_moment().unix_seconds() <= i64::MAX) by {
            reveal_with_fuel(crate::calendar::days_before_month, 13);
        }
        law_written_number_is_read_back(timestamp as nat, i64::MAX as nat);
        let chosen = moment_of(timestamp);
        assert(changed.unix_seconds() == timestamp);
        assert(chosen.valid() && chosen.unix_seconds() == timestamp);
        law_later_moments_have_more_seconds(changed, chosen);
    }
}

/// Two plans ask for the same dates.
pub open spec fn same_dates(left: QueryPlan, right: QueryPlan) -> bool {
    &&& optional_text(left.date.from) == optional_text(right.date.from)
    &&& optional_text(left.date.to) == optional_text(right.date.to)
}

/// A picture is admitted exactly where each part of the plan admits it for itself: its dates, its
/// people, its faces and its file types.
pub proof fn law_each_part_must_admit(
    record: &ImageRecord,
    extension: &Option<String>,
    plan: &QueryPlan,
    result: bool,
    dates: &QueryPlan,
    by_dates: bool,
    people: &QueryPlan,
    by_people: bool,
    faces: &QueryPlan,
    by_faces: bool,
    types: &QueryPlan,
    by_types: bool,
)
    requires
        call_ensures(is_admitted, (record, plan, extension), result),
        call_ensures(is_admitted, (record, dates, extension), by_dates),
        call_ensures(is_admitted, (record, people, extension), by_people),
        call_ensures(is_admitted, (record, faces, extension), by_faces),
        call_ensures(is_admitted, (record, types, extension), by_types),
        same_dates(*dates, *plan),
        asks_for_dates_alone(*dates),
        people.date.from is None,
        people.date.to is None,
        texts(people.people_include@) == texts(plan.people_include@),
        texts(people.people_exclude@) == texts(plan.people_exclude@),
        people.extensions@.len() == 0,
        people.face_presence == FacePresence::Any,
        faces.date.from is None,
        faces.date.to is None,
        faces.people_include@.len() == 0,
        faces.people_exclude@.len() == 0,
        faces.extensions@.len() == 0,
        faces.face_presence == plan.face_presence,
        types.date.from is None,
        types.date.to is None,
        types.people_include@.len() == 0,
        types.people_exclude@.len() == 0,
        texts(types.extensions@) == texts(plan.extensions@),
        types.face_presence == FacePresence::Any,
    ensures
        result == (by_dates && by_people && by_faces && by_types),
{
    assert(plan@.date == dates@.date);
    assert(plan@.people_include == people@.people_include);
    assert(plan@.people_exclude == people@.people_exclude);
    assert(people_admitted(record@.people, plan@) == people_admitted(record@.people, people@));
    assert(people_admitted(record@.people, dates@));
    assert(people_admitted(record@.people, faces@));
    assert(people_admitted(record@.people, types@));
    assert(date_admitted(record@, plan@) == date_admitted(record@, dates@));
}

/// A plan that asks for faces and nothing else admits exactly the pictures with a face; one that
/// rules faces out admits exactly those without.
pub proof fn law_faces_decide(record: &ImageRecord, plan: &QueryPlan, result: bool)
    requires
        call_ensures(record_matches_plan, (record, plan), result),
        plan.date.from is None,
        plan.date.to is None,
        plan.people_include@.len() == 0,
        plan.people_exclude@.len() == 0,
        plan.extensions@.len() == 0,
    ensures
        plan.face_presence == FacePresence::Required ==> result == (record.face_group_ids@.len() > 0),
        plan.face_presence == FacePresence::Forbidden ==> result == (record.face_group_ids@.len() == 0),
        plan.face_presence == FacePresence::Any ==> result,
{
    assert(plan@.extensions.len() == 0);
}

/// A name stands on a record, whatever the case of its letters.
pub open spec fn shows_person(record: ImageRecord, name: Seq<char>) -> bool {
    exists|k: int| 0 <= k < record.people@.len() && lowercase((#[trigger] record.people@[k])@) == lowercase(name)
}

/// A plan that asks for people and nothing else admits exactly the pictures that show each person
/// that it wants, and none that it rules out.
pub proof fn law_people_decide(record: &ImageRecord, plan: &QueryPlan, result: bool)
    requires
        call_ensures(record_matches_plan, (record, plan), result),
        plan.date.from is None,
        plan.date.to is None,
        plan.extensions@.len() == 0,
        plan.face_presence == FacePresence::Any,
    ensures
        result <==> (forall|k: int|
            0 <= k < plan.people_include@.len() ==> shows_person(*record, (#[trigger] plan.people_include@[k])@)) && (
        forall|k: int|
            0 <= k < plan.people_exclude@.len() ==> !shows_person(*record, (#[trigger] plan.people_exclude@[k])@)),
{
    assert(plan@.extensions.len() == 0);
    let people = record@.people;
    assert forall|name: Seq<char>| folded(people).contains(lowercase(name)) == #[trigger] shows_person(
        *record,
        name,
    ) by {
        if folded(people).contains(lowercase(name)) {
            let k = choose|k: int| 0 <= k < folded(people).len() && folded(people)[k] == lowercase(name);
            assert(lowercase(record.people@[k]@) == lowercase(name));
        }
        if shows_person(*record, name) {
            let k = choose|k: int|
                0 <= k < record.people@.len() && lowercase((#[trigger] record.people@[k])@) == lowercase(name);
            assert(folded(people)[k] == lowercase(name));
        }
    }
    assert forall|k: int| 0 <= k < plan@.people_include.len() implies #[trigger] plan@.people_include[k]
        == plan.people_include@[k]@ by {}
    assert forall|k: int| 0 <= k < plan@.people_exclude.len() implies #[trigger] plan@.people_exclude[k]
        == plan.people_exclude@[k]@ by {}
    if people_admitted(people, plan@) {
        assert forall|k: int| 0 <= k < plan.people_include@.len() implies shows_person(
            *record,
            (#[trigger] plan.people_include@[k])@,
        ) by {
            assert(folded(people).contains(lowercase(plan@.people_include[k])));
        }
        assert forall|k: int| 0 <= k < plan.people_exclude@.len() implies !shows_person(
            *record,
            (#[trigger] plan.people_exclude@[k])@,
        ) by {
            assert(!folded(people).contains(lowercase(plan@.people_exclude[k])));
        }
    }
}

/// A plan that asks for file types and nothing else admits exactly the pictures whose path has
/// one of them as its extension, whatever the case of its letters.
pub proof fn law_file_types_decide(record: &ImageRecord, plan: &QueryPlan, extension: &Option<String>, result: bool)
    requires
        call_ensures(is_admitted, (record, plan, extension), result),
        plan.date.from is None,
        plan.date.to is None,
        plan.people_include@.len() == 0,
        plan.people_exclude@.len() == 0,
        plan.face_presence == FacePresence::Any,
    ensures
        plan.extensions@.len() == 0 ==> result,
        plan.extensions@.len() > 0 ==> result == (extension is Some && exists|k: int|
            0 <= k < plan.extensions@.len() && (#[trigger] plan.extensions@[k])@ == lowercase(extension->0@)),
{
    let wanted = plan@.extensions;
    if extension is Some {
        let lower = lowercase(extension->0@);
        if wanted.contains(lower) {
            let k = choose|k: int| 0 <= k < wanted.len() && wanted[k] == lower;
            assert(plan.extensions@[k]@ == lower);
        }
        if exists|k: int| 0 <= k < plan.extensions@.len() && (#[trigger] plan.extensions@[k])@ == lower {
            let k = choose|k: int| 0 <= k < plan.extensions@.len() && (#[trigger] plan.extensions@[k])@ == lower;
            assert(wanted[k] == lower);
        }
    }
}

/// What is kept of a record holds its file name, its times, its dimensions, its text, its people
/// and its groups of faces, and gives each of them back at any path.
pub proof fn law_kept_records_lose_nothing_read(
    record: &ImageRecord,
    cached: CachedImageRecord,
    path: String,
    back: ImageRecord,
)
    requires
        call_ensures(CachedImageRecord::from_record, (record,), cached),
        call_ensures(CachedImageRecord::into_record, (cached, path), back),
    ensures
        back.id@ == path@,
        back.path@ == path@,
        back.filename@ == record.filename@,
        back.modified_at@ == record.modified_at@,
        optional_text(back.captured_at) == optional_text(record.captured_at),
        back.width == record.width,
        back.height == record.height,
        back.ocr_text@ == record.ocr_text@,
        texts(back.people@) == texts(record.people@),
        texts(back.face_group_ids@) == texts(record.face_group_ids@),
        back.thumbnail@.len() == 0,
        back.score.key == 0x3f80_0000,
        cached.ocr_text@ == record.ocr_text@,
        texts(cached.people@) == texts(record.people@),
{
}

/// A copy of a record holds all that the record holds.
pub proof fn law_copied_records_are_the_same(record: &ImageRecord, copy: ImageRecord)
    requires
        call_ensures(ImageRecord::duplicate, (record,), copy),
    ensures
        copy.id@ == record.id@,
        copy.path@ == record.path@,
        copy.filename@ == record.filename@,
        copy.modified_at@ == record.modified_at@,
        copy.captured_at is Some == record.captured_at is Some,
        record.captured_at is Some ==> copy.captured_at->0@ == record.captured_at->0@,
        copy.width == record.width,
        copy.height == record.height,
        copy.thumbnail@ == record.thumbnail@,
        copy.ocr_text@ == record.ocr_text@,
        texts(copy.people@) == texts(record.people@),
        copy.score == record.score,
        texts(copy.face_group_ids@) == texts(record.face_group_ids@),
{
    assert(copy@.captured_at == record@.captured_at);
    assert(copy@.id == record@.id);
}

/// Two versions of a file have the same fingerprint exactly where they have the same length and the
/// same time of change; where either is not known there is none.
pub proof fn law_fingerprints_tell_versions_apart(
    length: Option<u64>,
    modified_ns: Option<u128>,
    other_length: Option<u64>,
    other_modified_ns: Option<u128>,
    fingerprint: Option<FileFingerprint>,
    other: Option<FileFingerprint>,
)
    requires
        call_ensures(file_fingerprint, (length, modified_ns), fingerprint),
        call_ensures(file_fingerprint, (other_length, other_modified_ns), other),
    ensures
        fingerprint is Some <==> length is Some && modified_ns is Some,
        fingerprint is Some && other is Some ==> (fingerprint == other) == (length == other_length && modified_ns
            == other_modified_ns),
        fingerprint is Some ==> fingerprint->0.bytes == length->0 && fingerprint->0.modified_ns == modified_ns->0,
{
}

/// A text that holds anything but digits and signs is no number.
proof fn lemma_unread_time(text: Seq<char>)
    ensures
        text.len() == 0 || (exists|i: int|
            0 <= i < text.len() && !('0' <= #[trigger] text[i] <= '9') && text[i] != '+' && text[i] != '-')
            ==> signed_value(text, i64::MAX as nat) is None,
{
    if signed_value(text, i64::MAX as nat) is Some {
        let start: int = if text[0] == '-' || text[0] == '+' { 1 } else { 0 };
        assert(text.skip(0) =~= text);
        let digits = text.skip(start);
        assert(all_digits(digits));
        assert forall|i: int| 0 <= i < text.len() implies '0' <= #[trigger] text[i] <= '9' || text[i] == '+' || text[i]
            == '-' by {
            if i >= start {
                assert(is_digit(digits[i - start]));
            }
        }
    }
}

} // verus!
