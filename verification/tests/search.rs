use local_lens::query::{parse_query_in, QueryPlan, TextQueryPlan};
use local_lens::record::ImageRecord;
use local_lens::score::Score;
use local_lens::search::{
    begin_search, best_semantic_score, browse_page, clamp_page_size, do_candidates_fit, do_results_fit,
    does_session_serve, finish_search, fts5_search_scores, judge_record, judge_records, known_people, match_queries,
    nearest_limit, page_from_result_refs, pair_scores, plan_search, rank_matches, score_record, score_records,
    select_matches, sqlite_vec_search_scores, wants_embeddings, ScoredCandidate, SearchResultRef, SearchSessionState,
    SearchStart, TextScores, VectorRow, VectorScores, DEFAULT_RESULT_PAGE_SIZE, MAX_RESULT_PAGE_SIZE,
    MAX_SEARCH_RESULTS,
};

fn score(value: f32) -> Score {
    Score::from_bits(value.to_bits())
}

fn record(filename: &str, ocr_text: &str, people: &[&str]) -> ImageRecord {
    ImageRecord {
        id: filename.to_owned(),
        path: format!("/photos/{filename}"),
        filename: filename.to_owned(),
        modified_at: "0".to_owned(),
        captured_at: None,
        width: None,
        height: None,
        thumbnail: String::new(),
        ocr_text: ocr_text.to_owned(),
        people: people.iter().map(|name| name.to_string()).collect(),
        score: score(1.0),
        face_group_ids: vec![],
    }
}

fn strings(list: &[&str]) -> Vec<String> {
    list.iter().map(|text| text.to_string()).collect()
}

#[test]
fn words_become_quoted_phrases() {
    let text = TextQueryPlan {
        should: strings(&["receipt", "a \"b\""]),
        must: strings(&["c"]),
        must_not: strings(&["\""]),
    };
    let questions = match_queries(&text);
    assert_eq!(questions.wanted, strings(&["\"receipt\"", "\"a \"\"b\"\"\"", "\"c\""]));
    assert_eq!(questions.unwanted, strings(&["\"\"\"\""]));
}

#[test]
fn rows_are_counted_by_path() {
    let scores = fts5_search_scores(
        &vec![strings(&["a", "b", "a"]), strings(&["a", "c"])],
        &vec![strings(&["c", "x"])],
    )
    .unwrap();
    assert_eq!(scores.count("a"), 3);
    assert_eq!(scores.count("b"), 1);
    assert_eq!(scores.count("c"), 0);
    assert_eq!(scores.count("x"), 0);
    assert!(fts5_search_scores(&vec![], &vec![]).is_none());
    assert!(fts5_search_scores(&vec![strings(&["a"])], &vec![strings(&["a"])]).is_none());
}

fn row(path: Option<&str>, value: f32) -> VectorRow {
    VectorRow { path: path.map(|path| path.to_owned()), score: score(value) }
}

#[test]
fn the_best_row_of_a_path_counts() {
    let rows = vec![
        row(Some("a"), 0.2),
        row(Some("a"), 0.9),
        row(Some("a"), 0.5),
        row(Some(""), 1.0),
        row(None, 1.0),
        row(Some("b"), -0.5),
    ];
    let scores = sqlite_vec_search_scores(&rows).unwrap();
    assert_eq!(scores.score("a"), Some(score(0.9)));
    assert_eq!(scores.score("b"), Some(score(-0.5)));
    assert_eq!(scores.score(""), None);
    assert!(sqlite_vec_search_scores(&vec![row(None, 1.0)]).is_none());
    let odd = sqlite_vec_search_scores(&vec![row(Some("a"), f32::NAN), row(Some("a"), 0.1)]).unwrap();
    assert_eq!(odd.score("a"), Some(score(0.1)));
}

#[test]
fn the_vector_index_is_asked_for_at_least_one() {
    assert_eq!(nearest_limit(10, Some(3)), 10);
    assert_eq!(nearest_limit(0, None), 1);
    assert_eq!(nearest_limit(usize::MAX, Some(7)), 7);
    assert_eq!(nearest_limit(usize::MAX, Some(0)), 1);
    assert_eq!(nearest_limit(usize::MAX, Some(-5)), 1);
    assert_eq!(nearest_limit(usize::MAX, None), 1);
}

fn no_text() -> Option<TextScores> {
    None
}

fn no_vectors() -> Option<VectorScores> {
    None
}

#[test]
fn a_record_is_scored_by_words_rows_and_vectors() {
    let plan = parse_query_in("beach dog", &vec![], 2025);
    let image = record("Beach.jpg", "hot D O G stand", &["Tony"]);
    let text = fts5_search_scores(&vec![strings(&["/photos/Beach.jpg"])], &vec![]);
    let vectors = sqlite_vec_search_scores(&vec![row(Some("/photos/Beach.jpg"), 0.4)]);
    let candidate = score_record(7, &image, &plan, &text, &vectors).unwrap();
    assert_eq!(candidate.index, 7);
    assert_eq!(candidate.hits, 1);
    assert_eq!(candidate.matched, 2);
    assert_eq!(candidate.total, 2);
    assert!(candidate.lexical_allowed);
    assert_eq!(candidate.semantic_score, Some(score(0.4)));
    assert!(candidate.is_lexical_match());
    let plain = score_record(0, &record("x.jpg", "", &[]), &plan, &no_text(), &no_vectors()).unwrap();
    assert_eq!((plain.hits, plain.matched, plain.semantic_score), (0, 0, None));
    assert!(!plain.is_lexical_match());
}

#[test]
fn people_are_part_of_the_searched_text() {
    let plan = parse_query_in("tony", &vec![], 2025);
    let candidate = score_record(0, &record("x.jpg", "", &["Amy", "Tony"]), &plan, &no_text(), &no_vectors());
    assert_eq!(candidate.unwrap().matched, 1);
}

#[test]
fn a_word_that_rules_out_counts_before_all_others() {
    let plan = parse_query_in("海邊 不要狗", &vec![], 2025);
    assert_eq!(plan.text.must_not, strings(&["狗"]));
    let candidate = score_record(0, &record("海邊.jpg", "一隻狗", &[]), &plan, &no_text(), &no_vectors()).unwrap();
    assert_eq!(candidate.matched, 1);
    assert!(!candidate.lexical_allowed);
    assert!(!candidate.is_lexical_match());
    assert!(select_matches(&vec![candidate], &plan, true, score(0.0)).is_empty());
}

#[test]
fn records_that_the_plan_does_not_admit_are_no_candidates() {
    let plan = parse_query_in("png sea", &vec![], 2025);
    let records = vec![record("sea.jpg", "", &[]), record("sea.png", "", &[])];
    assert!(judge_record(0, &records[0], &plan, &Some("jpg".to_owned()), &no_text(), &no_vectors()).is_none());
    let candidates = score_records(&records, &plan, &no_text(), &no_vectors());
    assert_eq!(candidates.len(), 1);
    assert_eq!(candidates[0].index, 1);
    let judged = judge_records(&records, &vec![Some("png".to_owned()), None], &plan, &no_text(), &no_vectors());
    assert_eq!(judged.len(), 1);
    assert_eq!(judged[0].index, 0);
}

#[test]
fn candidates_are_selected_by_word_or_by_vector() {
    let plan = parse_query_in("sea", &vec![], 2025);
    let records = vec![record("sea.jpg", "", &[]), record("b.jpg", "", &[]), record("c.jpg", "", &[])];
    let vectors = sqlite_vec_search_scores(&vec![
        row(Some("/photos/b.jpg"), 0.30),
        row(Some("/photos/c.jpg"), 0.21),
    ]);
    let candidates = score_records(&records, &plan, &no_text(), &vectors);
    assert_eq!(best_semantic_score(&candidates), Some(score(0.30)));
    let found = select_matches(&candidates, &plan, true, score(0.23));
    assert_eq!(found.iter().map(|candidate| candidate.index).collect::<Vec<_>>(), vec![0, 1]);
    let lexical = select_matches(&candidates, &plan, false, score(0.0));
    assert_eq!(lexical.iter().map(|candidate| candidate.index).collect::<Vec<_>>(), vec![0]);
    let open = parse_query_in("照片", &vec![], 2025);
    assert_eq!(select_matches(&candidates, &open, false, score(0.0)).len(), 3);
    assert_eq!(best_semantic_score(&vec![]), None);
}

#[test]
fn results_are_ranked_by_score_name_and_place() {
    let records = vec![record("b", "", &[]), record("a", "", &[]), record("a", "", &[]), record("c", "", &[])];
    let found = vec![
        SearchResultRef { index: 0, score: score(1.5) },
        SearchResultRef { index: 1, score: score(1.5) },
        SearchResultRef { index: 2, score: score(1.5) },
        SearchResultRef { index: 3, score: score(2.0) },
    ];
    let order = |limit| -> Vec<usize> {
        rank_matches(&records, &found, limit).iter().map(|result| result.index).collect()
    };
    assert_eq!(order(None), vec![3, 1, 2, 0]);
    assert_eq!(order(Some(2)), vec![3, 1]);
    assert_eq!(order(Some(9)), vec![3, 1, 2, 0]);
}

#[test]
fn pages_follow_each_other() {
    let records: Vec<ImageRecord> = (0..7).map(|n| record(&format!("{n}.jpg"), "", &[])).collect();
    let mut seen = Vec::new();
    let mut offset = 0;
    let mut more = true;
    while more {
        let page = browse_page(&records, offset, 3);
        assert_eq!(page.total, 7);
        seen.extend(page.images.iter().map(|image| image.filename.clone()));
        more = page.has_more;
        offset += 3;
    }
    assert_eq!(seen, records.iter().map(|image| image.filename.clone()).collect::<Vec<_>>());
    assert!(browse_page(&records, 100, 3).images.is_empty());
    assert_eq!(browse_page(&records, 5, usize::MAX).images.len(), 2);
    assert_eq!(clamp_page_size(0), 1);
    assert_eq!(clamp_page_size(1000), MAX_RESULT_PAGE_SIZE);
    assert_eq!(clamp_page_size(DEFAULT_RESULT_PAGE_SIZE), 60);
}

#[test]
fn a_page_of_results_carries_their_scores() {
    let records = vec![record("a", "", &[]), record("b", "", &[])];
    let results = vec![
        SearchResultRef { index: 1, score: score(1.7) },
        SearchResultRef { index: 0, score: score(0.3) },
    ];
    assert!(do_results_fit(&results, 2));
    assert!(!do_results_fit(&results, 1));
    let page = page_from_result_refs(&results, &records, 0, 1);
    assert_eq!(page.images[0].filename, "b");
    assert_eq!(page.images[0].score, score(1.7));
    assert_eq!(page.total, 2);
    assert!(page.has_more);
}

#[test]
fn names_on_records_are_known() {
    let records = vec![record("a", "", &["Tony", "Amy"]), record("b", "", &["Tony"])];
    assert_eq!(known_people(&records), strings(&["Amy", "Tony"]));
    let plan = plan_search(&"TONY at sea".to_owned(), &records);
    assert_eq!(plan.people_include, strings(&["Tony"]));
    assert!(wants_embeddings(&plan, true));
    assert!(!wants_embeddings(&plan, false));
}

fn candidate(index: usize, by_word: bool) -> ScoredCandidate {
    ScoredCandidate {
        index,
        hits: 0,
        matched: by_word as usize,
        total: 1,
        lexical_allowed: true,
        semantic_score: Some(score(0.5)),
    }
}

fn limited(query: &str, limit: Option<usize>) -> QueryPlan {
    let mut plan = parse_query_in(query, &vec![], 2026);
    plan.limit = limit;
    plan
}

#[test]
fn a_search_that_found_no_word_has_at_most_sixty_results() {
    let records: Vec<ImageRecord> = (0..150).map(|n| record(&format!("{n:03}.jpg"), "", &[])).collect();
    let found: Vec<ScoredCandidate> = (0..150).map(|index| candidate(index, false)).collect();
    let scores: Vec<Score> = (0..150).map(|n| score(0.3 + n as f32 * 0.001)).collect();
    let search = |limit, offset, size| {
        finish_search(&records, &found, &scores, &limited("sea", limit), "sea".to_owned(), None, offset, size)
    };
    let end = search(None, 0, 200);
    assert_eq!(MAX_SEARCH_RESULTS, 60);
    assert_eq!(end.page.total, 60);
    assert_eq!(end.page.images.len(), 60);
    assert!(!end.page.has_more);
    assert_eq!(end.page.images[0].filename, "149.jpg");
    assert_eq!(end.page.images[59].filename, "090.jpg");
    assert_eq!(search(None, 50, 200).page.images.len(), 10);
    assert_eq!(search(Some(100), 0, 200).page.total, 60);
    assert_eq!(search(Some(7), 0, 200).page.total, 7);
}

#[test]
fn a_search_that_found_a_word_has_all_results() {
    let records: Vec<ImageRecord> = (0..150).map(|n| record(&format!("{n:03}.jpg"), "", &[])).collect();
    let found: Vec<ScoredCandidate> = (0..150).map(|index| candidate(index, index == 3 || index == 140)).collect();
    let scores: Vec<Score> = (0..150).map(|n| score(if n == 3 || n == 140 { 2.0 } else { 0.5 })).collect();
    let end = finish_search(&records, &found, &scores, &limited("sea", None), "sea".to_owned(), None, 0, 200);
    assert_eq!(end.page.total, 150);
    let names: Vec<&str> = end.page.images.iter().take(3).map(|image| image.filename.as_str()).collect();
    assert_eq!(names, vec!["003.jpg", "140.jpg", "000.jpg"]);
    let short = finish_search(&records, &found, &scores, &limited("sea", Some(1)), "sea".to_owned(), None, 0, 200);
    assert_eq!(short.page.images[0].filename, "003.jpg");
    assert_eq!(short.page.total, 1);
}

#[test]
fn a_search_by_filters_alone_has_all_results() {
    let records: Vec<ImageRecord> = (0..150)
        .map(|n| {
            let mut one = record(&format!("{n:03}.{}", if n < 110 { "jpg" } else { "png" }), "", &["Amy"]);
            one.face_group_ids = strings(&["g"]);
            one
        })
        .collect();
    let total = |query: &str| {
        let plan = parse_query_in(query, &strings(&["Amy"]), 2026);
        assert!(plan.semantic_query.is_empty(), "{query}");
        let candidates = score_records(&records, &plan, &None, &None);
        let found = select_matches(&candidates, &plan, false, score(0.5));
        let scores: Vec<Score> = found.iter().map(|_| score(1.0)).collect();
        finish_search(&records, &found, &scores, &plan, query.to_owned(), None, 0, 50).page.total
    };
    assert_eq!(total("Amy"), 150);
    assert_eq!(total("jpg"), 110);
    assert_eq!(total("最多 100 張 jpg"), 100);
    assert_eq!(total("最多 5 張 png"), 5);
    assert_eq!(total("沒有人的 jpg"), 0);
}

#[test]
fn scores_are_put_to_what_was_found() {
    let found = vec![candidate(4, true), candidate(2, false)];
    let results = pair_scores(&found, &vec![score(1.5), score(0.25)]);
    assert_eq!(
        results,
        vec![
            SearchResultRef { index: 4, score: score(1.5) },
            SearchResultRef { index: 2, score: score(0.25) },
        ]
    );
    assert!(do_candidates_fit(&found, 5));
    assert!(!do_candidates_fit(&found, 4));
}

#[test]
fn a_search_goes_on_with_its_results() {
    let records = vec![record("a", "", &[]), record("b", "", &[]), record("c", "", &[])];
    let root = Some("/photos".to_owned());
    let query = "sea".to_owned();
    let found: Vec<ScoredCandidate> = (0..3).map(|index| candidate(index, true)).collect();
    let scores: Vec<Score> = (0..3).map(|index| score(1.5 + index as f32)).collect();
    let end = finish_search(&records, &found, &scores, &limited("sea", Some(2)), query.clone(), root.clone(), 0, 1);
    assert_eq!(end.page.images[0].filename, "c");
    assert_eq!(end.page.total, 2);
    assert!(end.page.has_more);
    let session: Option<SearchSessionState> = Some(end.session);
    assert!(does_session_serve(&session, &root, &query));
    assert!(!does_session_serve(&session, &None, &query));
    assert!(!does_session_serve(&session, &root, &"other".to_owned()));
    match begin_search(&query, &records, &session, &root, 1, 1) {
        SearchStart::Page(page) => {
            assert_eq!(page.images[0].filename, "b");
            assert!(!page.has_more);
        }
        SearchStart::Plan(_) => panic!("the session serves this query"),
    }
    match begin_search(&" \u{3000} ".to_owned(), &records, &session, &root, 0, 2) {
        SearchStart::Page(page) => {
            assert_eq!(page.total, 3);
            assert_eq!(page.images.len(), 2);
        }
        SearchStart::Plan(_) => panic!("a blank query shows all"),
    }
    assert!(matches!(
        begin_search(&"other".to_owned(), &records, &session, &root, 0, 2),
        SearchStart::Plan(_)
    ));
}
