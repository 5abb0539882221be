use local_lens::calendar::DateRange;
use local_lens::path::{is_picture_extension, is_supported_image};
use local_lens::query::{FacePresence, QueryPlan, TextQueryPlan};
use local_lens::record::{
    file_fingerprint, is_admitted, record_date_key, record_matches_plan, CachedImageRecord, FileFingerprint,
    ImageRecord,
};
use local_lens::score::Score;

fn one() -> Score {
    Score::from_bits(1.0f32.to_bits())
}

fn record() -> ImageRecord {
    ImageRecord {
        id: "id".to_owned(),
        path: "/photos/Sea.JPG".to_owned(),
        filename: "Sea.JPG".to_owned(),
        modified_at: "1700000000".to_owned(),
        captured_at: None,
        width: Some(1200),
        height: Some(800),
        thumbnail: "data:image/jpeg;base64,AA==".to_owned(),
        ocr_text: "receipt".to_owned(),
        people: vec!["Tony".to_owned()],
        score: Score::from_bits(0.5f32.to_bits()),
        face_group_ids: vec!["face-1".to_owned()],
    }
}

fn open_plan() -> QueryPlan {
    QueryPlan {
        semantic_query: String::new(),
        text: TextQueryPlan { should: vec![], must: vec![], must_not: vec![] },
        people_include: vec![],
        people_exclude: vec![],
        face_presence: FacePresence::Any,
        date: DateRange { from: None, to: None },
        extensions: vec![],
        limit: None,
    }
}

#[test]
fn pictures_are_told_by_their_extension() {
    for name in ["a.jpg", "a.JPEG", "/x/b.Png", "C:\\Photos\\c.webp", "d.gif", "e.bmp", "x.tar.jpg", "/a/..jpg", "//server/share/x.jpg"] {
        assert!(is_supported_image(name), "{name}");
    }
    for name in ["a.txt", "jpg", "a.jpg.txt", "", "/dir.jpg/name", "ａ.ｊｐｇ", ".jpg", "/a/.jpg", "//server/share/.jpg", "a."] {
        assert!(!is_supported_image(name), "{name}");
    }
    for name in ["/photos.2024/notes", "C:\\Photos.d\\notes", "/photos.jpg/notes", "a.jpg\\b", "//server.jpg/share/x", "a/..", ".."] {
        assert!(!is_supported_image(name), "{name}");
    }
    for name in ["/photos.2024/a.jpg", "C:/Photos.d/a.PNG", "a.jpg/", "a.jpg/.", "./a.jpg", "../a.jpg"] {
        assert!(is_supported_image(name), "{name}");
    }
    assert!(is_picture_extension(&Some("GIF".to_owned())));
    assert!(!is_picture_extension(&Some("tiff".to_owned())));
    assert!(!is_picture_extension(&None));
}

#[test]
fn a_kept_record_comes_back() {
    let original = record();
    let cached = CachedImageRecord::from_record(&original);
    assert_eq!(cached.filename, "Sea.JPG");
    assert_eq!(cached.people, vec!["Tony"]);
    let back = cached.into_record("/photos/Sea.JPG".to_owned());
    assert_eq!(back.id, "/photos/Sea.JPG");
    assert_eq!(back.path, "/photos/Sea.JPG");
    assert_eq!(back.modified_at, original.modified_at);
    assert_eq!(back.captured_at, original.captured_at);
    assert_eq!((back.width, back.height), (Some(1200), Some(800)));
    assert_eq!(back.thumbnail, "");
    assert_eq!(back.ocr_text, "receipt");
    assert_eq!(back.face_group_ids, vec!["face-1"]);
    assert_eq!(back.score, one());
}

#[test]
fn a_fingerprint_needs_both_parts() {
    assert_eq!(file_fingerprint(Some(42), Some(123)), Some(FileFingerprint { bytes: 42, modified_ns: 123 }));
    assert_eq!(file_fingerprint(None, Some(123)), None);
    assert_eq!(file_fingerprint(Some(42), None), None);
}

#[test]
fn the_date_key_is_the_time_of_taking_or_of_change() {
    let mut image = record();
    assert_eq!(record_date_key(&image), Some("2023-11-14 22:13:20".to_owned()));
    image.captured_at = Some("2020-01-02 03:04:05".to_owned());
    assert_eq!(record_date_key(&image), Some("2020-01-02 03:04:05".to_owned()));
    image.captured_at = None;
    image.modified_at = "0".to_owned();
    assert_eq!(record_date_key(&image), Some("1970-01-01 00:00:00".to_owned()));
    image.modified_at = "-1".to_owned();
    assert_eq!(record_date_key(&image), Some("1969-12-31 23:59:59".to_owned()));
    image.modified_at = "253402300799".to_owned();
    assert_eq!(record_date_key(&image), Some("9999-12-31 23:59:59".to_owned()));
    image.modified_at = "253402300800".to_owned();
    assert_eq!(record_date_key(&image), None);
    image.modified_at = "-377705116800".to_owned();
    assert_eq!(record_date_key(&image), Some("-9999-01-01 00:00:00".to_owned()));
    image.modified_at = "-377705116801".to_owned();
    assert_eq!(record_date_key(&image), None);
    image.modified_at = "951782400".to_owned();
    assert_eq!(record_date_key(&image), Some("2000-02-29 00:00:00".to_owned()));
    image.modified_at = "yesterday".to_owned();
    assert_eq!(record_date_key(&image), None);
    image.modified_at = String::new();
    assert_eq!(record_date_key(&image), None);
}

#[test]
fn a_plan_that_asks_for_nothing_admits_every_record() {
    assert!(record_matches_plan(&record(), &open_plan()));
}

#[test]
fn file_types_are_matched_in_any_case() {
    let mut plan = open_plan();
    plan.extensions = vec!["jpg".to_owned()];
    assert!(record_matches_plan(&record(), &plan));
    plan.extensions = vec!["png".to_owned()];
    assert!(!record_matches_plan(&record(), &plan));
    let mut image = record();
    image.path = "noextension".to_owned();
    assert!(!record_matches_plan(&image, &plan));
    assert!(is_admitted(&image, &plan, &Some("PNG".to_owned())));
    assert!(!is_admitted(&image, &plan, &None));
}

#[test]
fn faces_are_asked_for_or_ruled_out() {
    let mut plan = open_plan();
    let mut faceless = record();
    faceless.face_group_ids = vec![];
    plan.face_presence = FacePresence::Required;
    assert!(record_matches_plan(&record(), &plan));
    assert!(!record_matches_plan(&faceless, &plan));
    plan.face_presence = FacePresence::Forbidden;
    assert!(!record_matches_plan(&record(), &plan));
    assert!(record_matches_plan(&faceless, &plan));
}

#[test]
fn people_are_asked_for_or_ruled_out_in_any_case() {
    let mut plan = open_plan();
    plan.people_include = vec!["TONY".to_owned()];
    assert!(record_matches_plan(&record(), &plan));
    plan.people_include = vec!["tony".to_owned(), "amy".to_owned()];
    assert!(!record_matches_plan(&record(), &plan));
    plan.people_include = vec![];
    plan.people_exclude = vec!["tOnY".to_owned()];
    assert!(!record_matches_plan(&record(), &plan));
    plan.people_exclude = vec!["amy".to_owned()];
    assert!(record_matches_plan(&record(), &plan));
}

#[test]
fn dates_hold_both_ends() {
    let mut plan = open_plan();
    plan.date = DateRange {
        from: Some("2023-11-14 22:13:20".to_owned()),
        to: Some("2023-11-14 22:13:20".to_owned()),
    };
    assert!(record_matches_plan(&record(), &plan));
    plan.date.from = Some("2023-11-14 22:13:21".to_owned());
    assert!(!record_matches_plan(&record(), &plan));
    plan.date = DateRange { from: None, to: Some("2023-11-14 22:13:19".to_owned()) };
    assert!(!record_matches_plan(&record(), &plan));
    let mut undated = record();
    undated.modified_at = String::new();
    assert!(!record_matches_plan(&undated, &plan));
    assert!(record_matches_plan(&undated, &open_plan()));
}
