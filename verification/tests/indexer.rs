use local_lens::indexer::{
    estimate_remaining_seconds, gpu_warning, limit_candidates, make_record, needs_processing, plan_models,
    scan_abilities, set_scan_paused, sort_by_filename, wait_for_scan_resume, EmbeddingOutcome, FoundFaces, ModelPlan,
    NewPicture, PictureAction, PictureOutcome, Scan, ScanAbilities, ScanCandidate, ScanControl, ScanFindings,
};
use local_lens::record::{CachedImage, CachedImageRecord, FileFingerprint};
use local_lens::runtime::{DirectmlProbe, LoadOutcome};
use local_lens::settings::ModelSettings;

fn fingerprint(bytes: u64) -> FileFingerprint {
    FileFingerprint { bytes, modified_ns: 7 }
}

fn picture(filename: &str, thumbnail: &str) -> NewPicture {
    NewPicture {
        filename: Some(filename.to_owned()),
        modified_at: "1".to_owned(),
        captured_at: None,
        width: 10,
        height: 20,
        thumbnail: thumbnail.to_owned(),
        ocr_text: "text".to_owned(),
        faces: FoundFaces::new(),
    }
}

fn kept(thumbnail_available: bool) -> CachedImage {
    CachedImage {
        fingerprint: fingerprint(1),
        record: CachedImageRecord::from_record(&make_record("kept".to_owned(), picture("kept", ""))),
        thumbnail_available,
    }
}

fn abilities() -> ScanAbilities {
    ScanAbilities {
        ocr_available: true,
        semantic_available: false,
        face_available: true,
        clip_gpu_active: false,
        face_gpu_active: true,
        thumbnail_gpu_requested: true,
        ocr_gpu_requested: false,
        ocr_gpu_active: false,
        gpu_warning: Some("warning".to_owned()),
    }
}

fn paths(list: &[&str]) -> Vec<String> {
    list.iter().map(|path| path.to_string()).collect()
}

fn start(list: &[&str], batch_size: usize, has_cache: bool) -> Scan {
    Scan::start("/x".to_owned(), paths(list), batch_size, has_cache, true, true, abilities())
}

fn made(length: usize) -> EmbeddingOutcome {
    EmbeddingOutcome::Made(Some(vec![0; length]))
}

#[test]
fn a_scan_waits_while_it_is_paused() {
    let mut control = ScanControl { paused: false };
    assert!(!wait_for_scan_resume(&control));
    assert!(!set_scan_paused(&mut control, true));
    assert!(wait_for_scan_resume(&control));
    assert!(set_scan_paused(&mut control, false));
    assert!(!wait_for_scan_resume(&control));
}

#[test]
fn the_rest_of_a_scan_is_estimated() {
    assert_eq!(estimate_remaining_seconds(0, 0, Some(9)), None);
    assert_eq!(estimate_remaining_seconds(0, 5, Some(9)), None);
    assert_eq!(estimate_remaining_seconds(5, 5, Some(9)), Some(0));
    assert_eq!(estimate_remaining_seconds(6, 5, None), Some(0));
    assert_eq!(estimate_remaining_seconds(2, 5, Some(9)), Some(9));
    assert_eq!(estimate_remaining_seconds(2, 5, None), None);
    assert_eq!(estimate_remaining_seconds(3, 0, Some(9)), None);
}

#[test]
fn candidates_are_limited() {
    let paths: Vec<String> = ["a", "b", "c"].iter().map(|path| path.to_string()).collect();
    assert_eq!(limit_candidates(paths.clone(), Some(2)), vec!["a", "b"]);
    assert_eq!(limit_candidates(paths.clone(), Some(5)), paths);
    assert_eq!(limit_candidates(paths.clone(), None), paths);
}

#[test]
fn models_are_needed_where_a_file_has_changed() {
    let same = || ScanCandidate { current: Some(fingerprint(1)), kept: Some(fingerprint(1)) };
    assert!(!needs_processing(&vec![]));
    assert!(!needs_processing(&vec![same(), same()]));
    assert!(needs_processing(&vec![
        same(),
        ScanCandidate { current: Some(fingerprint(1)), kept: Some(fingerprint(2)) }
    ]));
    assert!(needs_processing(&vec![ScanCandidate { current: Some(fingerprint(1)), kept: None }]));
    assert!(needs_processing(&vec![ScanCandidate { current: None, kept: None }]));
    let later = FileFingerprint { bytes: 1, modified_ns: 8 };
    assert!(needs_processing(&vec![ScanCandidate { current: Some(later), kept: Some(fingerprint(1)) }]));
}

#[test]
fn what_does_not_run_on_the_gpu_is_warned_of() {
    let settings = ModelSettings {
        thumbnail_gpu: true,
        ocr_gpu: true,
        clip_gpu: true,
        face_gpu: true,
        ..ModelSettings::default()
    };
    let clip = Some("clip failed".to_owned());
    let warning = gpu_warning(&settings, false, &DirectmlProbe::Unsupported, &clip, &None).unwrap();
    let parts: Vec<&str> = warning.split('；').collect();
    assert_eq!(
        parts,
        vec![
            "縮圖 GPU：目前影像解碼、縮放與 JPEG 編碼仍由 CPU 執行",
            "此選項尚無可用的 GPU 後端",
            "OCR GPU：目前 Tesseract 未回報 OpenCL 支援，已使用 CPU",
            "CLIP GPU：DirectML 僅支援 Windows，已使用 CPU",
            "Face GPU：DirectML 僅支援 Windows，已使用 CPU",
            "clip failed",
        ]
    );
    let plain = ModelSettings::default();
    assert_eq!(gpu_warning(&plain, false, &DirectmlProbe::Unsupported, &None, &None), None);
    let face = Some("face failed".to_owned());
    assert_eq!(
        gpu_warning(&plain, false, &DirectmlProbe::Listed(true), &None, &face).as_deref(),
        Some("face failed")
    );
    let quiet = ModelSettings { ocr_gpu: true, clip_gpu: true, ..plain };
    assert_eq!(gpu_warning(&quiet, true, &DirectmlProbe::Listed(true), &None, &None), None);
}

#[test]
fn faces_are_collected_without_repetition() {
    let mut faces = FoundFaces::new();
    faces.add_face("a".to_owned(), Some("Amy".to_owned()));
    faces.add_face("b".to_owned(), None);
    faces.add_face("a".to_owned(), Some("Amy".to_owned()));
    assert_eq!(faces.count, 3);
    assert_eq!(faces.group_ids, vec!["a", "b"]);
    assert_eq!(faces.people, vec!["Amy"]);
}

#[test]
fn a_new_picture_has_a_record() {
    let mut nameless = picture("a.jpg", "t");
    nameless.filename = None;
    nameless.faces.add_face("g".to_owned(), Some("Amy".to_owned()));
    let record = make_record("/x/a.jpg".to_owned(), nameless);
    assert_eq!(record.filename, "圖片");
    assert_eq!(record.id, "/x/a.jpg");
    assert_eq!(record.path, "/x/a.jpg");
    assert_eq!((record.width, record.height), (Some(10), Some(20)));
    assert_eq!(record.people, vec!["Amy"]);
    assert_eq!(record.face_group_ids, vec!["g"]);
    assert_eq!(record.score.key, local_lens::score::ONE_KEY);
}

#[test]
fn a_scan_keeps_count_of_its_pictures() {
    let mut scan = start(&["/x/a", "/x/b", "/x/bad", "/x/c"], 0, true);
    assert_eq!(scan.batch_size, 1);
    assert!(!scan.flush_due());
    assert!(scan.progress_due());
    scan.reuse(fingerprint(1), kept(true), Some("unused".to_owned()));
    assert_eq!(scan.records[0].thumbnail, "");
    assert_eq!((scan.processed, scan.reused, scan.pending_thumbnails), (1, 1, 0));
    assert!(scan.flush_due());
    assert!(!scan.progress_due());
    assert_eq!(scan.flush_ops().len(), 3);
    scan.note_flushed();
    assert!(!scan.flush_due());
    scan.reuse(fingerprint(1), kept(false), Some("made".to_owned()));
    assert_eq!(scan.records[1].thumbnail, "made");
    assert_eq!(scan.pending_thumbnails, 1);
    scan.note_flushed();
    assert_eq!(scan.records[1].thumbnail, "");
    scan.skip();
    assert!(!scan.is_done());
    scan.add_new(picture("c", "thumb"), Some(fingerprint(2)), made(512));
    assert!(scan.is_done());
    assert_eq!((scan.processed, scan.reused, scan.skipped), (4, 2, 1));
    assert_eq!(scan.pending.vector_count(), 1);
    assert_eq!(scan.pending_thumbnails, 1);
    assert!(scan.progress_due());
    let progress = scan.progress(Some(3));
    assert_eq!(progress.eta_seconds, Some(0));
    assert_eq!(progress.indexed, 3);
    assert!(!progress.thumbnail_gpu_active);
    assert_eq!(progress.abilities.gpu_warning.as_deref(), Some("warning"));
    assert!(!progress.abilities.semantic_available);
    assert_eq!((progress.processed, progress.total), (4, 4));
    let (data, result) = scan.finish(vec![], true);
    assert_eq!(data.images.len(), 3);
    let mut found: Vec<&str> = data.images.iter().map(|image| image.path.as_str()).collect();
    found.sort();
    assert_eq!(found, vec!["/x/a", "/x/b", "/x/c"]);
    assert!(result.abilities.semantic_available);
    assert!(result.abilities.face_available);
    assert_eq!((result.indexed, result.reused, result.skipped, result.face_groups), (3, 2, 1, 0));
    assert_eq!(result.root, "/x");
}

#[test]
fn thumbnails_and_vectors_are_written_before_there_are_too_many() {
    let names: Vec<String> = (0..100).map(|number| format!("{number}")).collect();
    let mut scan = Scan::start("/x".to_owned(), names, 1000, true, false, false, abilities());
    let mut flushes = Vec::new();
    for number in 0..100 {
        scan.add_new(picture(&format!("{number}"), "thumb"), Some(fingerprint(number)), EmbeddingOutcome::NotTried);
        assert!(scan.pending_thumbnails <= 50);
        assert!(scan.pending.vector_count() <= 50);
        if scan.flush_due() {
            flushes.push(scan.flush_ops().len());
            scan.note_flushed();
        }
    }
    assert_eq!(flushes, vec![50 * 3 + 50, 50 * 3 + 50]);
}

#[test]
fn without_a_cache_nothing_is_held_for_it() {
    let mut scan = start(&["a", "b"], 1, false);
    scan.add_new(picture("a", "thumb"), None, made(512));
    assert_eq!(scan.pending.vector_count(), 0);
    assert_eq!(scan.pending_thumbnails, 0);
    scan.note_flushed();
    assert_eq!(scan.records[0].thumbnail, "thumb");
    assert_eq!(scan.written, 1);
}

#[test]
fn faces_are_counted_over_a_scan() {
    let mut scan = start(&["a", "b"], 1, false);
    let mut with_faces = picture("a", "");
    with_faces.faces.add_face("g".to_owned(), None);
    with_faces.faces.add_face("g".to_owned(), None);
    scan.add_new(with_faces, None, EmbeddingOutcome::Made(None));
    let mut known = picture("b", "");
    known.faces.add_face("g".to_owned(), None);
    let cached = CachedImage {
        fingerprint: fingerprint(1),
        record: CachedImageRecord::from_record(&make_record("b".to_owned(), known)),
        thumbnail_available: true,
    };
    scan.reuse(fingerprint(1), cached, None);
    assert_eq!(scan.faces_detected, 3);
}

#[test]
fn records_are_listed_by_name_in_any_case() {
    let records: Vec<_> = ["b", "A", "a", "C"]
        .iter()
        .enumerate()
        .map(|(number, name)| {
            make_record(format!("{number}"), picture(name, ""))
        })
        .collect();
    let sorted = sort_by_filename(&records);
    let paths: Vec<&str> = sorted.iter().map(|record| record.path.as_str()).collect();
    assert_eq!(paths, vec!["1", "2", "0", "3"]);
}

#[test]
fn a_file_that_has_not_changed_is_not_read_again() {
    let mut scan = start(&["/x/a", "/x/b", "/x/c"], 10, true);
    let same = Some(kept(true));
    assert_eq!(scan.next_action(Some(fingerprint(1)), &same), PictureAction::Reuse { makes_thumbnail: false });
    scan.settle(Some(fingerprint(1)), same, PictureOutcome::Thumbnail(None));
    let bare = Some(kept(false));
    assert_eq!(scan.next_action(Some(fingerprint(1)), &bare), PictureAction::Reuse { makes_thumbnail: true });
    scan.settle(Some(fingerprint(1)), bare, PictureOutcome::Thumbnail(Some("made".to_owned())));
    assert_eq!((scan.processed, scan.reused, scan.pending_thumbnails), (2, 2, 1));
    assert_eq!(scan.records[0].path, "/x/a");
    assert_eq!((scan.records[1].path.as_str(), scan.records[1].thumbnail.as_str()), ("/x/b", "made"));
    let read = PictureAction::Read { embeds: true, finds_faces: true, reads_text: true };
    assert_eq!(scan.next_action(Some(fingerprint(2)), &Some(kept(true))), read);
    assert_eq!(scan.next_action(None, &Some(kept(true))), read);
    assert_eq!(scan.next_action(Some(fingerprint(1)), &None), read);
}

#[test]
fn a_picture_that_cannot_be_read_is_skipped() {
    let mut scan = start(&["/x/a", "/x/b"], 10, true);
    scan.settle(Some(fingerprint(1)), None, PictureOutcome::Unreadable);
    scan.settle(Some(fingerprint(2)), Some(kept(true)), PictureOutcome::Read(picture("b", ""), made(512)));
    assert_eq!((scan.processed, scan.reused, scan.skipped), (2, 0, 1));
    assert_eq!(scan.records.len(), 1);
    assert_eq!(scan.records[0].path, "/x/b");
    assert!(scan.is_done());
}

#[test]
fn a_model_that_failed_is_not_asked_again() {
    let mut able = abilities();
    able.semantic_available = true;
    let mut scan = Scan::start("/x".to_owned(), paths(&["/x/a", "/x/b", "/x/c"]), 10, true, true, false, able);
    scan.settle(None, None, PictureOutcome::Read(picture("a", ""), EmbeddingOutcome::Made(None)));
    assert!(scan.progress(None).abilities.semantic_available);
    scan.settle(None, None, PictureOutcome::Read(picture("b", ""), EmbeddingOutcome::Failed));
    assert!(!scan.progress(None).abilities.semantic_available);
    let read = PictureAction::Read { embeds: false, finds_faces: false, reads_text: true };
    assert_eq!(scan.next_action(None, &None), read);
    scan.settle(None, None, PictureOutcome::Read(picture("c", ""), EmbeddingOutcome::NotTried));
    assert_eq!(scan.records.len(), 3);
    assert_eq!(scan.pending.vector_count(), 3);
}

#[test]
fn pictures_are_indexed_without_any_model() {
    let mut none = abilities();
    none.ocr_available = false;
    let mut scan = Scan::start("/x".to_owned(), paths(&["/x/a.jpg"]), 10, false, false, false, none);
    let read = PictureAction::Read { embeds: false, finds_faces: false, reads_text: false };
    assert_eq!(scan.next_action(Some(fingerprint(1)), &None), read);
    let mut plain = picture("a.jpg", "thumb");
    plain.ocr_text = String::new();
    scan.settle(Some(fingerprint(1)), None, PictureOutcome::Read(plain, EmbeddingOutcome::NotTried));
    let (data, result) = scan.finish(vec![], false);
    assert_eq!(data.images[0].filename, "a.jpg");
    assert_eq!(data.images[0].thumbnail, "thumb");
    assert_eq!((result.indexed, result.skipped), (1, 0));
    assert!(!result.abilities.semantic_available);
}

#[test]
fn models_are_loaded_where_they_are_needed() {
    let settings = ModelSettings { clip_gpu: true, ..ModelSettings::default() };
    let listed = DirectmlProbe::Listed(true);
    assert_eq!(plan_models(false, &settings, &listed), ModelPlan { clip: None, face: None });
    assert_eq!(plan_models(true, &settings, &listed), ModelPlan { clip: Some(true), face: Some(false) });
    assert_eq!(
        plan_models(true, &settings, &DirectmlProbe::Unsupported),
        ModelPlan { clip: Some(false), face: Some(false) }
    );
}

#[test]
fn what_a_scan_can_use_follows_what_was_found() {
    let loaded = |loaded, gpu_active| LoadOutcome { loaded, gpu_active, warning: None };
    let findings = |clip, has_vectors, has_groups, ocr_available| ScanFindings {
        ocr_available,
        ocr_opencl: true,
        clip: loaded(clip, clip),
        face: loaded(false, false),
        has_vectors,
        has_groups,
    };
    let settings = ModelSettings { ocr_gpu: true, ..ModelSettings::default() };
    let listed = DirectmlProbe::Listed(true);
    let rich = scan_abilities(&settings, &listed, &findings(true, false, true, true));
    assert!(rich.ocr_available && rich.semantic_available && rich.face_available);
    assert!(rich.clip_gpu_active && !rich.face_gpu_active);
    assert!(rich.ocr_gpu_requested && rich.ocr_gpu_active);
    assert_eq!(rich.gpu_warning, None);
    let kept = scan_abilities(&settings, &listed, &findings(false, true, false, false));
    assert!(!kept.ocr_available && kept.semantic_available && !kept.face_available);
    assert!(!kept.ocr_gpu_active);
    assert_eq!(
        kept.gpu_warning.as_deref(),
        Some("OCR GPU：目前 Tesseract 未回報 OpenCL 支援，已使用 CPU")
    );
    let poor = scan_abilities(&ModelSettings::default(), &listed, &findings(false, false, false, true));
    assert!(!poor.semantic_available && !poor.face_available && !poor.ocr_gpu_active);
}
