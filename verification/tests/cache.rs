use std::collections::{BTreeMap, BTreeSet};

use local_lens::cache::{
    append_index_cache, begin_scan_cache, cleanup_stale_cache, cleanup_stale_clip_vectors, cleanup_stale_thumbnails,
    closing_changes, delete_vector_entry, has_clip_vectors, is_searchable, needs_migration, read_cached_image, register_sqlite_vec,
    release_written, save_index_cache_state, sync_face_vectors, upsert_vector_entry, CacheOp, LegacyMigration,
    PendingWrites, VectorStep, MAX_PENDING_EMBEDDINGS,
};
use local_lens::people::{embedding_blob, FaceCluster};
use local_lens::query::TextQueryPlan;
use local_lens::record::{CachedImageRecord, FileFingerprint, ImageRecord};
use local_lens::score::Score;
use local_lens::search::{
    fts5_search_scores, match_queries, nearest_limit, sqlite_vec_search_scores, TextScores, VectorRow, VectorScores,
    VECTOR_DIMENSION,
};
use local_lens::thumbnail::hydrate_thumbnails;

fn record(path: &str, thumbnail: &str) -> ImageRecord {
    ImageRecord {
        id: path.to_owned(),
        path: path.to_owned(),
        filename: "sample.jpg".to_owned(),
        modified_at: "2026-08-19".to_owned(),
        captured_at: Some("2025-07-01 12:34:56".to_owned()),
        width: Some(1200),
        height: Some(800),
        thumbnail: thumbnail.to_owned(),
        ocr_text: "receipt".to_owned(),
        people: vec!["Tony".to_owned(), "Amy".to_owned()],
        score: Score::from_bits(1.0f32.to_bits()),
        face_group_ids: vec!["face-1".to_owned()],
    }
}

fn kind(op: &CacheOp) -> &'static str {
    match op {
        CacheOp::ClearSeen { .. } => "clear seen",
        CacheOp::ClearState { .. } => "clear state",
        CacheOp::PutText { .. } => "text",
        CacheOp::PutRecord { .. } => "record",
        CacheOp::MarkSeen { .. } => "seen",
        CacheOp::PutThumbnail { .. } => "thumbnail",
        CacheOp::PutVector { .. } => "vector",
        CacheOp::DropVector { .. } => "drop vector",
        CacheOp::DropUnseenTexts { .. } => "drop texts",
        CacheOp::DropUnseenRecords { .. } => "drop records",
        CacheOp::DropOrphanThumbnails { .. } => "drop thumbnails",
        CacheOp::DropOrphanVectors { .. } => "drop vectors",
        CacheOp::DropFaceVectors { .. } => "drop faces",
        CacheOp::PutState { .. } => "state",
        CacheOp::MarkMigrated { .. } => "migrated",
    }
}

fn kinds(ops: &[CacheOp]) -> Vec<&'static str> {
    ops.iter().map(kind).collect()
}

const ROOT: &str = "C:\\Photos";

#[test]
fn a_batch_is_written_with_its_vectors() {
    let root = ROOT.to_owned();
    let records = vec![
        record("written before", ""),
        record("a", "data:image/jpeg;base64,AA=="),
        record("unknown", ""),
        record("b", ""),
    ];
    let mut pending = PendingWrites::new();
    pending.add_fingerprint("a".to_owned(), FileFingerprint { bytes: 42, modified_ns: u128::MAX });
    pending.add_fingerprint("b".to_owned(), FileFingerprint { bytes: 1, modified_ns: 2 });
    pending.set_embedding("a".to_owned(), None);
    pending.set_embedding("b".to_owned(), Some(vec![1; 512]));
    pending.set_embedding("a".to_owned(), Some(vec![1; 3]));
    assert_eq!(pending.vector_count(), 2);
    let ops = append_index_cache(&root, &records, 1, &pending);
    assert_eq!(
        kinds(&ops),
        vec!["text", "record", "seen", "thumbnail", "text", "record", "seen", "drop vector", "vector"]
    );
    match &ops[0] {
        CacheOp::PutText { path, root, filename, ocr_text, people } => {
            assert_eq!((path.as_str(), root.as_str()), ("a", ROOT));
            assert_eq!((filename.as_str(), ocr_text.as_str()), ("sample.jpg", "receipt"));
            assert_eq!(people, "Tony Amy");
        }
        _ => panic!("a text comes first"),
    }
    match &ops[1] {
        CacheOp::PutRecord { path, bytes, modified_ns, captured_at, record, .. } => {
            assert_eq!(path, "a");
            assert_eq!(*bytes, 42);
            assert_eq!(modified_ns, &u128::MAX.to_string());
            assert_eq!(captured_at.as_deref(), Some("2025-07-01 12:34:56"));
            assert_eq!(record.ocr_text, "receipt");
        }
        _ => panic!("a record comes second"),
    }
    match &ops[3] {
        CacheOp::PutThumbnail { jpeg, .. } => assert_eq!(jpeg, &vec![0u8]),
        _ => panic!("a thumbnail comes last"),
    }
    match &ops[8] {
        CacheOp::PutVector { kind, path, group_id, blob, .. } => {
            assert_eq!((kind.as_str(), path.as_str(), group_id.as_str()), ("clip", "b", ""));
            assert_eq!(blob.len(), 2048);
        }
        _ => panic!("a vector comes at the end"),
    }
}

#[test]
fn what_was_written_is_released() {
    let mut records = vec![record("old", "x"), record("a", "y"), record("b", "z")];
    let mut pending = PendingWrites::new();
    pending.add_fingerprint("old".to_owned(), FileFingerprint { bytes: 1, modified_ns: 1 });
    pending.add_fingerprint("a".to_owned(), FileFingerprint { bytes: 1, modified_ns: 1 });
    pending.set_embedding("a".to_owned(), None);
    release_written(&mut records, 1, &mut pending, false);
    assert_eq!(records[1].thumbnail, "y");
    assert_eq!(pending.vector_count(), 1);
    release_written(&mut records, 1, &mut pending, true);
    assert_eq!(records[0].thumbnail, "x");
    assert_eq!(records[1].thumbnail, "");
    assert_eq!(records[2].thumbnail, "z");
    assert_eq!(pending.vector_count(), 0);
    assert!(append_index_cache(&ROOT.to_owned(), &records, 0, &pending).is_empty());
}

#[test]
fn a_scan_begins_and_ends_with_its_own_changes() {
    let root = ROOT.to_owned();
    assert_eq!(kinds(&begin_scan_cache(&root)), vec!["clear seen", "clear state"]);
    assert_eq!(kinds(&cleanup_stale_cache(&root)), vec!["drop texts", "drop records", "clear seen"]);
    assert_eq!(kinds(&cleanup_stale_thumbnails(&root)), vec!["drop thumbnails"]);
    assert_eq!(kinds(&cleanup_stale_clip_vectors(&root)), vec!["drop vectors"]);
    let group = FaceCluster {
        id: "face-1".to_owned(),
        name: None,
        centroid: vec![1; 512],
        face_count: 1,
        image_ids: vec![],
        preview: String::new(),
    };
    let mut short = group.clone();
    short.centroid = vec![1; 2];
    assert_eq!(
        kinds(&sync_face_vectors(&root, &vec![group.clone(), short])),
        vec!["drop faces", "vector", "drop vector"]
    );
    assert_eq!(kinds(&save_index_cache_state(&root, vec![group])), vec!["state"]);
}

#[test]
fn pictures_stay_where_not_all_was_written() {
    let root = ROOT.to_owned();
    let list = |all_written| -> Vec<Vec<&'static str>> {
        closing_changes(&root, all_written, &vec![]).iter().map(|change| kinds(change)).collect()
    };
    let rest = vec![vec!["drop thumbnails"], vec!["drop vectors"], vec!["drop faces"], vec!["state"]];
    assert_eq!(list(false), rest);
    let mut all = vec![vec!["drop texts", "drop records", "clear seen"]];
    all.extend(rest);
    assert_eq!(list(true), all);
}

#[test]
fn a_row_is_read_back() {
    let cached = CachedImageRecord::from_record(&record("a", ""));
    let image = read_cached_image(42, "123", Some(cached), true).unwrap();
    assert_eq!(image.fingerprint, FileFingerprint { bytes: 42, modified_ns: 123 });
    assert_eq!(image.record.ocr_text, "receipt");
    assert!(image.thumbnail_available);
    let again = CachedImageRecord::from_record(&record("a", ""));
    assert!(read_cached_image(42, "soon", Some(again), true).is_none());
    assert!(read_cached_image(42, "123", None, true).is_none());
}

#[test]
fn answers_of_the_database_are_read() {
    let root = Some("/x".to_owned());
    assert!(has_clip_vectors(true, &root, Some(1)));
    assert!(!has_clip_vectors(true, &root, Some(0)));
    assert!(!has_clip_vectors(true, &root, None));
    assert!(!has_clip_vectors(false, &root, Some(1)));
    assert!(!has_clip_vectors(true, &None, Some(1)));
    assert!(is_searchable(512));
    assert!(!is_searchable(511));
    assert!(needs_migration(0));
    assert!(!needs_migration(1));
    assert_eq!(register_sqlite_vec(0), Ok(()));
    assert_eq!(
        register_sqlite_vec(-7),
        Err("無法註冊 sqlite-vec SQLite 擴充功能（錯誤碼 -7）。".to_owned())
    );
}

fn steps(list: &[VectorStep]) -> Vec<String> {
    list.iter()
        .map(|step| match step {
            VectorStep::DeleteVector { row } => format!("delete vector {row}"),
            VectorStep::DeleteEntry { row } => format!("delete entry {row}"),
            VectorStep::InsertVector { at, blob } => format!("insert vector {at:?} {}", blob.len()),
            VectorStep::InsertEntry { at } => format!("insert entry {at:?}"),
        })
        .collect()
}

#[test]
fn a_vector_takes_the_row_of_the_one_before() {
    assert!(delete_vector_entry(None).is_empty());
    assert_eq!(steps(&delete_vector_entry(Some(5))), vec!["delete vector 5", "delete entry 5"]);
    assert_eq!(
        steps(&upsert_vector_entry(None, &vec![0; 512])),
        vec!["insert vector None 2048", "insert entry None"]
    );
    assert_eq!(
        steps(&upsert_vector_entry(Some(5), &vec![0; 512])),
        vec!["delete vector 5", "delete entry 5", "insert vector Some(5) 2048", "insert entry Some(5)"]
    );
    assert_eq!(
        steps(&upsert_vector_entry(Some(5), &vec![0; 511])),
        vec!["delete vector 5", "delete entry 5"]
    );
}

#[test]
fn old_vectors_are_moved_in_batches() {
    let root = ROOT.to_owned();
    let mut migration = LegacyMigration::new();
    let mut moved = Vec::new();
    let mut batches = Vec::new();
    for number in 0..120 {
        let vector = match number % 10 {
            8 => None,
            9 => Some(vec![0; 3]),
            _ => Some(vec![number; 512]),
        };
        let ops = migration.offer(&root, format!("{number}"), vector);
        if !ops.is_empty() {
            batches.push(ops.len());
        }
        moved.extend(ops);
    }
    assert_eq!(batches, vec![MAX_PENDING_EMBEDDINGS]);
    let rest = migration.finish(&root);
    assert_eq!(rest.len(), 96 - 50 + 1);
    assert_eq!(kind(rest.last().unwrap()), "migrated");
    moved.extend(rest);
    let paths: Vec<String> = moved
        .iter()
        .filter_map(|op| match op {
            CacheOp::PutVector { path, .. } => Some(path.clone()),
            _ => None,
        })
        .collect();
    let expected: Vec<String> =
        (0..120).filter(|number| number % 10 < 8).map(|number| format!("{number}")).collect();
    assert_eq!(paths, expected);
}

fn numbers_in(blob: &[u8]) -> Vec<f32> {
    blob.chunks(4).map(|bytes| f32::from_le_bytes([bytes[0], bytes[1], bytes[2], bytes[3]])).collect()
}

fn cosine(left: &[f32], right: &[f32]) -> f32 {
    let dot: f32 = left.iter().zip(right).map(|(left, right)| left * right).sum();
    let norm = |values: &[f32]| values.iter().map(|value| value * value).sum::<f32>().sqrt();
    dot / (norm(left) * norm(right))
}

fn bits(values: &[f32]) -> Vec<u32> {
    values.iter().map(|value| value.to_bits()).collect()
}

/// The tables of the cache, held in memory.
#[derive(Default)]
struct Tables {
    images: BTreeMap<String, (String, u64, String, CachedImageRecord)>,
    texts: BTreeMap<String, (String, String)>,
    thumbnails: BTreeMap<String, (String, Vec<u8>)>,
    vectors: BTreeMap<(String, String, String, String), Vec<u8>>,
    seen: BTreeSet<(String, String)>,
}

impl Tables {
    fn has(&self, root: &str, path: &str) -> bool {
        self.images.get(path).is_some_and(|row| row.0 == root)
    }

    fn perform(&mut self, ops: Vec<CacheOp>) {
        for op in ops {
            match op {
                CacheOp::ClearSeen { root } => self.seen.retain(|key| key.0 != root),
                CacheOp::PutText { path, root, ocr_text, .. } => {
                    self.texts.insert(path, (root, ocr_text));
                }
                CacheOp::PutRecord { path, root, bytes, modified_ns, record, .. } => {
                    self.images.insert(path, (root, bytes, modified_ns, record));
                }
                CacheOp::MarkSeen { root, path } => {
                    self.seen.insert((root, path));
                }
                CacheOp::PutThumbnail { path, root, jpeg } => {
                    self.thumbnails.insert(path, (root, jpeg));
                }
                CacheOp::PutVector { kind, root, path, group_id, blob } => {
                    self.vectors.insert((kind, root, path, group_id), blob);
                }
                CacheOp::DropVector { kind, root, path, group_id } => {
                    self.vectors.remove(&(kind, root, path, group_id));
                }
                CacheOp::DropUnseenTexts { root } => {
                    let seen = &self.seen;
                    self.texts.retain(|path, row| row.0 != root || seen.contains(&(root.clone(), path.clone())));
                }
                CacheOp::DropUnseenRecords { root } => {
                    let seen = &self.seen;
                    self.images.retain(|path, row| row.0 != root || seen.contains(&(root.clone(), path.clone())));
                }
                CacheOp::DropOrphanThumbnails { root } => {
                    let kept: Vec<String> =
                        self.thumbnails.keys().filter(|path| self.has(&root, path)).cloned().collect();
                    self.thumbnails.retain(|path, row| row.0 != root || kept.contains(path));
                }
                CacheOp::DropOrphanVectors { root } => {
                    let kept: Vec<String> =
                        self.vectors.keys().map(|key| key.2.clone()).filter(|path| self.has(&root, path)).collect();
                    self.vectors.retain(|key, _| key.0 != "clip" || key.1 != root || kept.contains(&key.2));
                }
                CacheOp::DropFaceVectors { root } => {
                    self.vectors.retain(|key, _| key.0 != "face" || key.1 != root);
                }
                CacheOp::ClearState { .. } | CacheOp::PutState { .. } | CacheOp::MarkMigrated { .. } => {}
            }
        }
    }

    /// What the full-text index finds: the rows of a folder with a phrase among their words.
    fn rows_with(&self, root: &str, phrase: &str) -> Vec<String> {
        let word = phrase.trim_matches('"');
        self.texts
            .iter()
            .filter(|(_, row)| row.0 == root && row.1.split(' ').any(|held| held == word))
            .map(|(path, _)| path.clone())
            .collect()
    }

    fn text_scores(&self, root: &str, text: &TextQueryPlan) -> Option<TextScores> {
        let questions = match_queries(text);
        let answers = |phrases: &Vec<String>| -> Vec<Vec<String>> {
            phrases.iter().map(|phrase| self.rows_with(root, phrase)).collect()
        };
        fts5_search_scores(&answers(&questions.wanted), &answers(&questions.unwanted))
    }

    /// What the vector index finds: the nearest rows of a folder by their cosine.
    fn vector_scores(&self, root: &str, kind: &str, embeddings: &[Vec<f32>], limit: usize) -> Option<VectorScores> {
        let nearest = nearest_limit(limit, Some(self.vectors.len() as i64));
        let mut found = Vec::new();
        for embedding in embeddings.iter().filter(|embedding| is_searchable(embedding.len())) {
            let mut rows: Vec<(f32, String)> = self
                .vectors
                .iter()
                .filter(|(key, _)| key.0 == kind && key.1 == root)
                .map(|(key, blob)| (cosine(embedding, &numbers_in(blob)), key.2.clone()))
                .collect();
            rows.sort_by(|left, right| right.0.total_cmp(&left.0));
            rows.truncate(nearest);
            found.extend(rows.into_iter().map(|(value, path)| VectorRow {
                path: Some(path),
                score: Score::from_bits(value.to_bits()),
            }));
        }
        sqlite_vec_search_scores(&found)
    }

    fn write(&mut self, root: &String, path: &str, vector: Option<Vec<u32>>) {
        let mut pending = PendingWrites::new();
        pending.add_fingerprint(path.to_owned(), FileFingerprint { bytes: 42, modified_ns: 123 });
        pending.set_embedding(path.to_owned(), vector);
        let records = vec![record(path, "data:image/jpeg;base64,AA==")];
        self.perform(append_index_cache(root, &records, 0, &pending));
    }
}

#[test]
fn a_written_picture_is_read_back() {
    let root = ROOT.to_owned();
    let mut tables = Tables::default();
    tables.write(&root, "a", None);
    tables.write(&root, "b", None);
    let (kept_root, bytes, modified_ns, kept) = tables.images.remove("a").unwrap();
    assert_eq!(kept_root, ROOT);
    let image = read_cached_image(bytes, &modified_ns, Some(kept), tables.thumbnails.contains_key("a")).unwrap();
    assert_eq!(image.fingerprint, FileFingerprint { bytes: 42, modified_ns: 123 });
    assert!(image.thumbnail_available);
    assert_eq!(image.record.captured_at.as_deref(), Some("2025-07-01 12:34:56"));
    let again = image.record.into_record("a".to_owned());
    assert_eq!(again.ocr_text, "receipt");
    assert_eq!(again.people, vec!["Tony", "Amy"]);
    assert!(again.thumbnail.is_empty());
    assert_eq!(tables.thumbnails["a"], (ROOT.to_owned(), vec![0u8]));
}

#[test]
fn a_scan_leaves_what_it_saw() {
    let root = ROOT.to_owned();
    let other = "D:\\Other".to_owned();
    let mut tables = Tables::default();
    tables.write(&root, "stale", Some(vec![1; 512]));
    tables.write(&root, "kept", Some(vec![2; 512]));
    tables.write(&other, "elsewhere", Some(vec![3; 512]));
    tables.perform(begin_scan_cache(&root));
    assert!(tables.has(ROOT, "stale"));
    tables.write(&root, "kept", Some(vec![4; 512]));
    tables.write(&root, "new", Some(vec![5; 512]));
    tables.perform(cleanup_stale_cache(&root));
    tables.perform(cleanup_stale_thumbnails(&root));
    tables.perform(cleanup_stale_clip_vectors(&root));
    let paths: Vec<&String> = tables.images.keys().collect();
    assert_eq!(paths, vec!["elsewhere", "kept", "new"]);
    assert_eq!(tables.texts.len(), 3);
    assert_eq!(tables.thumbnails.len(), 3);
    assert_eq!(tables.vectors.len(), 3);
    assert!(!tables.seen.iter().any(|key| key.0 == ROOT));
}

#[test]
fn a_written_vector_is_found_until_it_is_replaced() {
    let root = ROOT.to_owned();
    let key = ("clip".to_owned(), root.clone(), "a".to_owned(), String::new());
    let mut tables = Tables::default();
    tables.write(&root, "a", Some(vec![7; 512]));
    assert_eq!(tables.vectors[&key], embedding_blob(&vec![7; 512]));
    tables.write(&root, "a", Some(vec![8; 512]));
    assert_eq!(tables.vectors[&key], embedding_blob(&vec![8; 512]));
    tables.write(&root, "a", Some(vec![8; 100]));
    assert!(!tables.vectors.contains_key(&key));
}

#[test]
fn sqlite_index_cache_round_trip() {
    let root = "C:\\Photos".to_owned();
    let path = "C:\\Photos\\sample.jpg".to_owned();
    let record = ImageRecord {
        id: path.clone(),
        path: path.clone(),
        filename: "sample.jpg".to_owned(),
        modified_at: "2026-08-19".to_owned(),
        captured_at: Some("2025-07-01 12:34:56".to_owned()),
        width: Some(1200),
        height: Some(800),
        thumbnail: "data:image/jpeg;base64,AA==".to_owned(),
        ocr_text: "receipt".to_owned(),
        people: vec!["Tony".to_owned()],
        score: Score::from_bits(1.0f32.to_bits()),
        face_group_ids: vec!["face-1".to_owned()],
    };
    let mut pending = PendingWrites::new();
    pending.add_fingerprint(path.clone(), FileFingerprint { bytes: 42, modified_ns: 123 });
    let mut tables = Tables::default();
    tables.perform(begin_scan_cache(&root));
    tables.perform(append_index_cache(&root, &vec![record], 0, &pending));
    tables.perform(save_index_cache_state(&root, vec![]));
    let (_, bytes, modified_ns, payload) = tables.images.get(&path).cloned().unwrap();
    assert!(!format!("{payload:?}").contains("embedding"));
    let cached = read_cached_image(bytes, &modified_ns, Some(payload), tables.thumbnails.contains_key(&path)).unwrap();
    assert_eq!(cached.fingerprint.bytes, 42);
    assert_eq!(cached.record.captured_at.as_deref(), Some("2025-07-01 12:34:56"));
    assert_eq!(cached.record.ocr_text, "receipt");
    assert!(cached.thumbnail_available);
    assert!(cached.record.clone().into_record(path.clone()).thumbnail.is_empty());
    let mut hydrated = vec![cached.record.clone().into_record(path.clone())];
    let jpeg = tables.thumbnails.get(&path).map(|row| row.1.clone());
    hydrate_thumbnails(&mut hydrated, &vec![jpeg]);
    assert_eq!(hydrated[0].thumbnail, "data:image/jpeg;base64,AA==");
}

#[test]
fn legacy_json_embeddings_are_migrated_to_sqlite_vec() {
    let root = "C:\\Photos".to_owned();
    let path = "C:\\Photos\\legacy.jpg";
    let mut tables = Tables::default();
    let mut migration = LegacyMigration::new();
    assert!(needs_migration(0));
    tables.perform(migration.offer(&root, path.to_owned(), Some(bits(&vec![1.0; VECTOR_DIMENSION]))));
    tables.perform(migration.finish(&root));
    let answer = tables.vectors.keys().any(|key| key.0 == "clip" && key.1 == root) as i64;
    assert!(has_clip_vectors(true, &Some(root.to_owned()), Some(answer)));
    let scores = tables.vector_scores(&root, "clip", &[vec![1.0; VECTOR_DIMENSION]], 1).unwrap();
    assert!(scores.score(path).is_some_and(|score| f32::from_bits(score.bits()) > 0.99));
}

#[test]
fn sqlite_fts5_and_vec_indexes_round_trip() {
    let root = "C:\\Photos".to_owned();
    let path = "C:\\Photos\\receipt.jpg".to_owned();
    let record = ImageRecord {
        id: path.clone(),
        path: path.clone(),
        filename: "receipt.jpg".to_owned(),
        modified_at: "2026-08-19".to_owned(),
        captured_at: None,
        width: Some(1200),
        height: Some(800),
        thumbnail: String::new(),
        ocr_text: "receipt invoice".to_owned(),
        people: vec!["Tony".to_owned()],
        score: Score::from_bits(1.0f32.to_bits()),
        face_group_ids: Vec::new(),
    };
    let mut pending = PendingWrites::new();
    pending.add_fingerprint(path.clone(), FileFingerprint { bytes: 42, modified_ns: 123 });
    pending.set_embedding(path.clone(), Some(bits(&vec![1.0; VECTOR_DIMENSION])));
    let mut tables = Tables::default();
    tables.perform(append_index_cache(&root, &vec![record], 0, &pending));
    let text = TextQueryPlan {
        should: vec!["receipt".to_owned()],
        must: Vec::new(),
        must_not: Vec::new(),
    };
    let text_scores = tables.text_scores(&root, &text).unwrap();
    assert_eq!(text_scores.count(&path) as f32, 1.0);

    let vector_scores = tables.vector_scores(&root, "clip", &[vec![1.0; VECTOR_DIMENSION]], 10).unwrap();
    assert!(vector_scores.score(&path).is_some_and(|score| f32::from_bits(score.bits()) > 0.99));
}
