use local_lens::calendar::{date_bounds, days_in_month, DateRange};
use local_lens::query::{
    digits_before, extract_negative_terms, parse_date_range, parse_date_range_in, parse_limit, parse_normalized_query,
    parse_query, parse_query_in, remove_date_words, tokenize_query, FacePresence, QueryPlan,
};
use local_lens::text::{compact, trim};

fn words(list: &[&str]) -> Vec<String> {
    list.iter().map(|word| word.to_string()).collect()
}

fn bounds(range: &DateRange) -> (Option<&str>, Option<&str>) {
    (range.from.as_deref(), range.to.as_deref())
}

#[test]
fn rule_query_parser_extracts_date_person_and_semantic_terms() {
    let plan = parse_query("去年夏天在海邊的小明照片", &vec!["小明".to_owned()]);
    let previous_year = time::OffsetDateTime::now_utc().year() - 1;
    assert_eq!(plan.semantic_query, "海邊");
    assert_eq!(plan.people_include, vec!["小明"]);
    assert_eq!(plan.face_presence, FacePresence::Required);
    assert_eq!(plan.date.from, Some(format!("{previous_year:04}-06-01 00:00:00")));
    assert_eq!(plan.date.to, Some(format!("{previous_year:04}-08-31 23:59:59")));
}

#[test]
fn rule_query_parser_extracts_negative_face_extension_and_limit() {
    let plan = parse_query("沒有人的 jpg 照片 最多 20 張", &vec![]);
    assert_eq!(plan.face_presence, FacePresence::Forbidden);
    assert_eq!(plan.extensions, vec!["jpg"]);
    assert_eq!(plan.limit, Some(20));
    assert!(plan.semantic_query.is_empty());

    let negative = parse_query("不要狗", &vec![]);
    assert_eq!(negative.text.must_not, vec!["狗"]);
    assert!(negative.semantic_query.is_empty());
    let negative_without = parse_query("沒有狗", &vec![]);
    assert_eq!(negative_without.text.must_not, vec!["狗"]);
}

#[test]
fn months_have_their_lengths() {
    assert_eq!(days_in_month(2024, 2), 29);
    assert_eq!(days_in_month(2023, 2), 28);
    assert_eq!(days_in_month(1900, 2), 28);
    assert_eq!(days_in_month(2000, 2), 29);
    assert_eq!(days_in_month(-4, 2), 29);
    assert_eq!(days_in_month(2025, 4), 30);
    assert_eq!(days_in_month(2025, 12), 31);
    assert_eq!(days_in_month(2025, 13), 31);
}

#[test]
fn date_bounds_name_a_day_or_a_month() {
    let day = date_bounds(2024, Some(2), Some(29)).unwrap();
    assert_eq!(bounds(&day), (Some("2024-02-29 00:00:00"), Some("2024-02-29 23:59:59")));
    let month = date_bounds(2024, Some(2), None).unwrap();
    assert_eq!(bounds(&month), (Some("2024-02-01 00:00:00"), Some("2024-02-29 23:59:59")));
    let january = date_bounds(2024, None, None).unwrap();
    assert_eq!(bounds(&january), (Some("2024-01-01 00:00:00"), Some("2024-01-31 23:59:59")));
    assert!(date_bounds(1899, None, None).is_none());
    assert!(date_bounds(2201, None, None).is_none());
    assert!(date_bounds(2024, Some(0), None).is_none());
    assert!(date_bounds(2024, Some(13), None).is_none());
    assert!(date_bounds(2023, Some(2), Some(29)).is_none());
    assert!(date_bounds(2023, Some(2), Some(0)).is_none());
}

#[test]
fn digits_are_read_backwards_from_a_position() {
    let text = "拍攝於2025年";
    let end = text.find('年').unwrap();
    assert_eq!(digits_before(text, end), Some(2025));
    assert_eq!(digits_before("12", 2), Some(12));
    assert_eq!(digits_before("12", 1), Some(1));
    assert_eq!(digits_before("年", 0), None);
    assert_eq!(digits_before("99999999999", 11), None);
    assert_eq!(digits_before("2147483647", 10), Some(2147483647));
    assert_eq!(digits_before("2147483648", 10), None);
}

#[test]
fn date_phrases_are_read_relative_to_a_year() {
    let range = |query: &str| parse_date_range_in(query, 2025);
    assert_eq!(
        bounds(&range("去年夏天")),
        (Some("2024-06-01 00:00:00"), Some("2024-08-31 23:59:59"))
    );
    assert_eq!(
        bounds(&range("今年夏天的海邊")),
        (Some("2025-06-01 00:00:00"), Some("2025-08-31 23:59:59"))
    );
    assert_eq!(bounds(&range("前年")).0, Some("2023-01-01 00:00:00"));
    assert_eq!(bounds(&range("去年")).0, Some("2024-01-01 00:00:00"));
    assert_eq!(bounds(&range("今年")).1, Some("2025-01-31 23:59:59"));
    assert_eq!(bounds(&range("明年")).0, Some("2026-01-01 00:00:00"));
    assert_eq!(
        bounds(&range("2019年3月5日")),
        (Some("2019-03-05 00:00:00"), Some("2019-03-05 23:59:59"))
    );
    assert_eq!(bounds(&range("2019年2月")).1, Some("2019-02-28 23:59:59"));
    assert_eq!(bounds(&range("2019年2月30日")), (None, None));
    assert_eq!(bounds(&range("年")), (None, None));
    assert_eq!(bounds(&range("海邊")), (None, None));
}

#[test]
fn the_clock_gives_the_year() {
    let year = time::OffsetDateTime::now_utc().year();
    let range = parse_date_range("今年");
    let expected = parse_date_range_in("今年", year);
    assert_eq!(bounds(&range), bounds(&expected));
}

#[test]
fn date_words_become_blanks() {
    assert_eq!(remove_date_words("去年夏天海邊"), " 海邊");
    assert_eq!(remove_date_words("2025年7月海邊"), "       海邊");
    assert_eq!(remove_date_words("海邊"), "海邊");
}

#[test]
fn limits_follow_a_marker() {
    assert_eq!(parse_limit("最多20張"), Some(20));
    assert_eq!(parse_limit("最多   20張"), Some(20));
    assert_eq!(parse_limit("前 5 張"), Some(5));
    assert_eq!(parse_limit("取3"), Some(3));
    assert_eq!(parse_limit("最多0張"), None);
    assert_eq!(parse_limit("最多張 前7"), Some(7));
    assert_eq!(parse_limit("最多"), None);
    assert_eq!(parse_limit("99999999999999999999999999"), None);
    assert_eq!(parse_limit("最多99999999999999999999999999"), None);
}

#[test]
fn words_are_split_and_stop_words_dropped() {
    assert_eq!(tokenize_query("海邊的狗，照片 Cat!"), words(&["海邊", "狗", "Cat"]));
    assert_eq!(tokenize_query("請 幫我 找出 相片"), Vec::<String>::new());
    assert_eq!(tokenize_query(""), Vec::<String>::new());
    assert_eq!(tokenize_query("一張照片"), words(&["一張照片"]));
}

#[test]
fn negative_terms_are_taken_out() {
    let mut text = "海邊不要狗 不含貓，排除的車".to_owned();
    let terms = extract_negative_terms(&mut text);
    assert_eq!(terms, words(&["狗", "貓"]));
    assert_eq!(text, "海邊   ， 的車");
    let mut nothing = "海邊".to_owned();
    assert!(extract_negative_terms(&mut nothing).is_empty());
    assert_eq!(nothing, "海邊");
    let mut stop = "不要照片".to_owned();
    assert!(extract_negative_terms(&mut stop).is_empty());
    assert_eq!(stop, " 照片");
}

#[test]
fn a_plan_names_people_types_and_words() {
    let known = words(&[" Tony ", "Amy", ""]);
    let plan = parse_query_in("  TONY 不要amy 合照 PNG 前 3 海灘 ", &known, 2025);
    assert_eq!(plan.people_include, words(&["Tony"]));
    assert_eq!(plan.people_exclude, words(&["Amy"]));
    assert_eq!(plan.face_presence, FacePresence::Required);
    assert_eq!(plan.extensions, words(&["png"]));
    assert_eq!(plan.limit, Some(3));
    assert_eq!(plan.text.should, words(&["海灘"]));
    assert_eq!(plan.semantic_query, "海灘");
    assert!(plan.text.must.is_empty());
    assert!(plan.text.must_not.is_empty());
    assert_eq!(bounds(&plan.date), (None, None));
}

#[test]
fn a_query_is_taken_in_lower_case() {
    let plan: QueryPlan = parse_query_in(" ÄPFEL Cat ", &vec![], 2025);
    assert_eq!(plan.text.should, words(&["äpfel", "cat"]));
    let raw = parse_normalized_query("Cat", &vec![], 2025);
    assert_eq!(raw.text.should, words(&["Cat"]));
}

#[test]
fn people_call_for_faces_unless_they_are_ruled_out() {
    let known = words(&["小明"]);
    assert_eq!(parse_query_in("小明", &known, 2025).face_presence, FacePresence::Required);
    assert_eq!(parse_query_in("小明 沒有人的", &known, 2025).face_presence, FacePresence::Forbidden);
    assert_eq!(parse_query_in("有人 無人臉", &known, 2025).face_presence, FacePresence::Forbidden);
    assert_eq!(parse_query_in("海邊", &known, 2025).face_presence, FacePresence::Any);
    assert_eq!(FacePresence::default(), FacePresence::Any);
}

#[test]
fn words_of_negation_do_not_count() {
    let plan = parse_query_in("無 海邊", &vec![], 2025);
    assert_eq!(plan.text.should, words(&["海邊"]));
    let open = DateRange::default();
    assert_eq!(bounds(&open), (None, None));
}

#[test]
fn dates_are_taken_out_once_and_for_all() {
    for text in ["2025年7月1日 海邊", "去年 7月 cat 12", "2025-07-01 a1b2", "今年2日", "上個月 2024/2/29"] {
        let rest = remove_date_words(text);
        assert_eq!(remove_date_words(&rest), rest);
        assert!(rest.chars().all(|c| !c.is_ascii_digit() && c != '年' && c != '月' && c != '日'), "{rest}");
    }
}

#[test]
fn exclusions_are_taken_out_once_and_for_all() {
    for text in ["不要狗 不要 貓", "sea -dog 沒有車", "不含a不含b c", "not x"] {
        let mut rest = text.to_owned();
        extract_negative_terms(&mut rest);
        let mut again = rest.clone();
        assert_eq!(extract_negative_terms(&mut again), Vec::<String>::new(), "{rest}");
    }
}

#[test]
fn the_words_of_a_plan_survive_being_joined() {
    let people = words(&["小明", "Tony"]);
    for query in ["去年夏天在海邊的小明照片", "red car 2024 不要狗", "tony beach 最多 5 張", "2025年 receipt -cat", ""] {
        let plan = parse_query_in(query, &people, 2026);
        assert_eq!(tokenize_query(&plan.semantic_query), plan.text.should);
        for word in plan.text.should.iter().chain(plan.text.must_not.iter()) {
            assert!(!word.chars().any(|c| c.is_ascii_digit()), "{word}");
        }
    }
}

#[test]
fn case_and_blanks_around_a_query_do_not_matter() {
    let people = words(&["Tony"]);
    let plain = parse_query_in("tony red car jpg 不要dog", &people, 2026);
    let loud = parse_query_in(" \t\u{3000}TONY Red CAR JPG 不要DOG\n", &people, 2026);
    assert_eq!(loud.semantic_query, plain.semantic_query);
    assert_eq!(loud.text.should, plain.text.should);
    assert_eq!(loud.text.must_not, plain.text.must_not);
    assert_eq!(loud.people_include, plain.people_include);
    assert_eq!(loud.extensions, plain.extensions);
    assert_eq!(loud.limit, plain.limit);
    assert_eq!(bounds(&loud.date), bounds(&plain.date));
}

#[test]
fn blanks_are_those_of_unicode() {
    for c in (0..=0x10ffffu32).filter_map(char::from_u32) {
        assert_eq!(compact(&vec![c]).is_empty(), c.is_whitespace(), "{c:?}");
        assert_eq!(trim(&vec![c]).is_empty(), c.is_whitespace(), "{c:?}");
        let lower: String = c.to_lowercase().collect();
        assert_eq!(lower.to_lowercase(), lower);
        assert!(c.is_whitespace() || lower.trim() == lower, "{c:?}");
    }
}
