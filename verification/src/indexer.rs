//! Building the index: what is done with each picture of a folder, when what was found is
//! written, and what is reported on the way.
//!
//! Reading pictures, running models and writing to disk are left to the caller. A `Scan`
//! is told what came of each picture and says what is due.

use vstd::prelude::*;

use crate::cache::{
    append_index_cache, apply_all, keeps_record, lemma_batch_is_kept, paths_differ, release_written, released,
    with_batch, with_vector, Batch, CacheOp, CacheTables, EmbeddingText, PendingWrites, MAX_PENDING_EMBEDDINGS,
};
use crate::names::{text_at_most, Name};
use crate::people::{as_count, FaceCluster, IndexData};
use crate::ranking::{law_ranking_repeats_nothing, listed_before, rank};
use crate::record::{images, record_of, CachedImage, FileFingerprint, ImageRecord, ImageText};
use crate::runtime::{directml_available, directml_error, directml_problem, DirectmlProbe, LoadOutcome};
use crate::score::{Score, ONE_KEY};
use crate::search::{in_order, is_order_of, lemma_joined_holds, lemma_order_is_complete};
use crate::settings::ModelSettings;
use crate::text::{
    append_chars, chars_of, copy_optional, has_string, holds_text, join, joined, lemma_text_is_held,
    lemma_text_order_total, lowercase, optional_text, string_of, text_before, texts, to_lowercase,
};

verus! {

/// How many thumbnails are held at most before they are written.
pub const MAX_PENDING_THUMBNAILS: usize = 50;

// ---------------------------------------------------------------------------
// Pausing
// ---------------------------------------------------------------------------

/// Whether a scan is to pause.
pub struct ScanControl {
    pub paused: bool,
}

/// Pauses a scan or lets it go on; tells whether a scan that waits is to be woken.
pub fn set_scan_paused(control: &mut ScanControl, paused: bool) -> (wakes: bool)
    ensures
        final(control).paused == paused,
        wakes == !paused,
{
    control.paused = paused;
    !paused
}

/// Whether a scan waits before it goes on.
pub fn wait_for_scan_resume(control: &ScanControl) -> (waits: bool)
    ensures
        waits == control.paused,
{
    control.paused
}

// ---------------------------------------------------------------------------
// Progress
// ---------------------------------------------------------------------------

/// How many seconds a scan will still take: none once it is done, and unknown before its
/// first picture. In between it is what was measured, if enough time has passed for it.
pub fn estimate_remaining_seconds(processed: usize, total: usize, measured: Option<u64>) -> (seconds: Option<u64>)
    ensures
        seconds == if total == 0 {
            None
        } else if processed >= total {
            Some(0u64)
        } else if processed == 0 {
            None
        } else {
            measured
        },
{
    if processed == 0 || total == 0 || processed >= total {
        if processed >= total && total > 0 {
            return Some(0);
        }
        return None;
    }
    measured
}

/// The first of the paths, as many as the limit allows.
pub fn limit_candidates(paths: Vec<String>, limit: Option<usize>) -> (kept: Vec<String>)
    ensures
        kept@ == match limit {
            Some(limit) if limit < paths@.len() => paths@.take(limit as int),
            _ => paths@,
        },
{
    let mut kept: Vec<String> = paths;
    match limit {
        Some(limit) => {
            if limit < kept.len() {
                kept.truncate(limit);
            }
        },
        None => {},
    }
    kept
}

/// A file that is to be indexed: its fingerprint, and the one that is kept of it.
pub struct ScanCandidate {
    pub current: Option<FileFingerprint>,
    pub kept: Option<FileFingerprint>,
}

impl ScanCandidate {
    /// The file is the one of which a record is kept.
    pub open spec fn unchanged(&self) -> bool {
        self.current is Some && self.kept is Some && self.current->0 == self.kept->0
    }

    /// Whether the file is the one of which a record is kept.
    pub fn is_unchanged(&self) -> (result: bool)
        ensures
            result == self.unchanged(),
    {
        match (self.current, self.kept) {
            (Some(current), Some(kept)) => current.bytes == kept.bytes && current.modified_ns == kept.modified_ns,
            _ => false,
        }
    }
}

/// None of the files is new or has changed.
pub open spec fn all_unchanged(candidates: Seq<ScanCandidate>) -> bool {
    forall|k: int| 0 <= k < candidates.len() ==> (#[trigger] candidates[k]).unchanged()
}

/// Whether the models are needed: one of the files is new or has changed.
pub fn needs_processing(candidates: &Vec<ScanCandidate>) -> (needed: bool)
    ensures
        needed == exists|k: int| 0 <= k < candidates@.len() && !(#[trigger] candidates@[k]).unchanged(),
        needed == !all_unchanged(candidates@),
{
    for i in 0..candidates.len()
        invariant
            forall|k: int| 0 <= k < i ==> (#[trigger] candidates@[k]).unchanged(),
    {
        if !candidates[i].is_unchanged() {
            return true;
        }
    }
    false
}

// ---------------------------------------------------------------------------
// Warnings about the GPU
// ---------------------------------------------------------------------------

/// A text in a list, if it is there.
pub open spec fn if_there(text: Option<Seq<char>>) -> Seq<Seq<char>> {
    match text {
        Some(text) => seq![text],
        None => Seq::empty(),
    }
}

/// A text in a list, on a condition.
pub open spec fn on_condition(condition: bool, text: Seq<char>) -> Seq<Seq<char>> {
    if condition {
        seq![text]
    } else {
        Seq::empty()
    }
}

/// Why a model that is set to the GPU runs on the CPU.
pub open spec fn fallback(model: Seq<char>, reason: Seq<char>) -> Seq<char> {
    model + " GPU："@ + reason + "，已使用 CPU"@
}

/// The warnings about what is set to the GPU and does not run on it.
pub open spec fn warnings(
    settings: ModelSettings,
    ocr_gpu_active: bool,
    problem: Option<Seq<char>>,
    clip_warning: Option<Seq<char>>,
    face_warning: Option<Seq<char>>,
) -> Seq<Seq<char>> {
    on_condition(
        settings.thumbnail_gpu,
        "縮圖 GPU：目前影像解碼、縮放與 JPEG 編碼仍由 CPU 執行；此選項尚無可用的 GPU 後端"@,
    ) + on_condition(
        settings.ocr_gpu && !ocr_gpu_active,
        "OCR GPU：目前 Tesseract 未回報 OpenCL 支援，已使用 CPU"@,
    ) + (match problem {
        Some(reason) => on_condition(settings.clip_gpu, fallback("CLIP"@, reason)) + on_condition(
            settings.face_gpu,
            fallback("Face"@, reason),
        ),
        None => Seq::empty(),
    }) + if_there(clip_warning) + if_there(face_warning)
}

fn fallback_text(model: &str, reason: &str) -> (text: String)
    ensures
        text@ == fallback(model@, reason@),
{
    let mut chars: Vec<char> = chars_of(model);
    append_chars(&mut chars, &chars_of(" GPU："));
    append_chars(&mut chars, &chars_of(reason));
    append_chars(&mut chars, &chars_of("，已使用 CPU"));
    string_of(&chars)
}

fn push_text(list: &mut Vec<String>, text: String)
    ensures
        texts(final(list)@) == texts(old(list)@) + seq![text@],
{
    let ghost before = texts(list@);
    list.push(text);
    assert(texts(list@) =~= before + seq![text@]);
}

/// The warning about what is set to the GPU and does not run on it, if there is anything
/// to warn of: `clip_warning` and `face_warning` say what came up when models were loaded.
pub fn gpu_warning(
    settings: &ModelSettings,
    ocr_gpu_active: bool,
    probe: &DirectmlProbe,
    clip_warning: &Option<String>,
    face_warning: &Option<String>,
) -> (warning: Option<String>)
    ensures
        ({
            let all = warnings(
                *settings,
                ocr_gpu_active,
                directml_problem(*probe),
                optional_text(*clip_warning),
                optional_text(*face_warning),
            );
            &&& warning is Some <==> all.len() > 0
            &&& warning matches Some(warning) ==> warning@ == joined(all, "；"@)
        }),
{
    let mut list: Vec<String> = Vec::new();
    let ghost mut done = Seq::<Seq<char>>::empty();
    assert(texts(list@) =~= done);
    if settings.thumbnail_gpu {
        push_text(
            &mut list,
            "縮圖 GPU：目前影像解碼、縮放與 JPEG 編碼仍由 CPU 執行；此選項尚無可用的 GPU 後端".to_owned(),
        );
    }
    proof {
        done = on_condition(
            settings.thumbnail_gpu,
            "縮圖 GPU：目前影像解碼、縮放與 JPEG 編碼仍由 CPU 執行；此選項尚無可用的 GPU 後端"@,
        );
        assert(texts(list@) =~= done);
    }
    if settings.ocr_gpu && !ocr_gpu_active {
        push_text(&mut list, "OCR GPU：目前 Tesseract 未回報 OpenCL 支援，已使用 CPU".to_owned());
    }
    proof {
        done = done + on_condition(
            settings.ocr_gpu && !ocr_gpu_active,
            "OCR GPU：目前 Tesseract 未回報 OpenCL 支援，已使用 CPU"@,
        );
        assert(texts(list@) =~= done);
    }
    match directml_error(probe) {
        Some(reason) => {
            if settings.clip_gpu {
                push_text(&mut list, fallback_text("CLIP", reason.as_str()));
            }
            if settings.face_gpu {
                push_text(&mut list, fallback_text("Face", reason.as_str()));
            }
            proof {
                done = done + (on_condition(settings.clip_gpu, fallback("CLIP"@, reason@)) + on_condition(
                    settings.face_gpu,
                    fallback("Face"@, reason@),
                ));
                assert(texts(list@) =~= done);
            }
        },
        None => {
            proof {
                done = done + Seq::<Seq<char>>::empty();
                assert(texts(list@) =~= done);
            }
        },
    }
    match clip_warning {
        Some(text) => {
            push_text(&mut list, text.clone());
        },
        None => {},
    }
    proof {
        done = done + if_there(optional_text(*clip_warning));
        assert(texts(list@) =~= done);
    }
    match face_warning {
        Some(text) => {
            push_text(&mut list, text.clone());
        },
        None => {},
    }
    proof {
        done = done + if_there(optional_text(*face_warning));
        assert(texts(list@) =~= done);
    }
    if list.len() > 0 {
        Some(join(&list, "；"))
    } else {
        None
    }
}

// ---------------------------------------------------------------------------
// The faces on a picture
// ---------------------------------------------------------------------------

/// The faces that were found on a picture: how many, the groups that they belong to, and
/// the names of those that have one.
pub struct FoundFaces {
    pub count: usize,
    pub group_ids: Vec<String>,
    pub people: Vec<String>,
}

/// A list with one more text, if it is not yet there.
pub open spec fn with_new(list: Seq<Seq<char>>, text: Seq<char>) -> Seq<Seq<char>> {
    if list.contains(text) {
        list
    } else {
        list.push(text)
    }
}

fn push_new(list: &mut Vec<String>, text: String)
    ensures
        texts(final(list)@) == with_new(texts(old(list)@), text@),
{
    let ghost before = texts(list@);
    if !has_string(list, &text) {
        list.push(text);
        assert(texts(list@) =~= before.push(text@));
    }
}

impl FoundFaces {
    /// No group and no name is listed twice.
    pub open spec fn well_formed(&self) -> bool {
        texts(self.group_ids@).no_duplicates() && texts(self.people@).no_duplicates()
    }

    /// No face.
    pub fn new() -> (faces: FoundFaces)
        ensures
            faces.count == 0,
            texts(faces.group_ids@) == Seq::<Seq<char>>::empty(),
            texts(faces.people@) == Seq::<Seq<char>>::empty(),
            faces.well_formed(),
    {
        let faces: FoundFaces = FoundFaces { count: 0, group_ids: Vec::new(), people: Vec::new() };
        assert(texts(faces.group_ids@) =~= Seq::<Seq<char>>::empty());
        assert(texts(faces.people@) =~= Seq::<Seq<char>>::empty());
        faces
    }

    /// Takes a face in: the group that it belongs to, and the name of the group if it has one.
    pub fn add_face(&mut self, group_id: String, name: Option<String>)
        requires
            old(self).well_formed(),
        ensures
            final(self).well_formed(),
            final(self).count == as_count((old(self).count + 1) as nat),
            texts(final(self).group_ids@) == with_new(texts(old(self).group_ids@), group_id@),
            texts(final(self).people@) == match name {
                Some(name) => with_new(texts(old(self).people@), name@),
                None => texts(old(self).people@),
            },
    {
        let ghost groups = texts(self.group_ids@);
        let ghost people = texts(self.people@);
        if self.count < usize::MAX {
            self.count = self.count + 1;
        }
        push_new(&mut self.group_ids, group_id);
        proof {
            lemma_with_new(groups, group_id@);
        }
        match name {
            Some(name) => {
                push_new(&mut self.people, name);
                proof {
                    lemma_with_new(people, name@);
                }
            },
            None => {},
        }
    }
}

/// A list without repetitions stays so.
proof fn lemma_with_new(list: Seq<Seq<char>>, text: Seq<char>)
    requires
        list.no_duplicates(),
    ensures
        with_new(list, text).no_duplicates(),
{
    let after = with_new(list, text);
    if !list.contains(text) {
        assert forall|i: int, j: int| 0 <= i < after.len() && 0 <= j < after.len() && i != j implies after[i]
            != after[j] by {
            if i == list.len() {
                assert(list.contains(list[j]));
            } else if j == list.len() {
                assert(list.contains(list[i]));
            }
        }
    }
}

/// What was found out about a new picture.
pub struct NewPicture {
    pub filename: Option<String>,
    pub modified_at: String,
    pub captured_at: Option<String>,
    pub width: u32,
    pub height: u32,
    pub thumbnail: String,
    pub ocr_text: String,
    pub faces: FoundFaces,
}

/// The record of a new picture at a path; one whose file name cannot be read has a name all
/// the same.
pub open spec fn new_record(path: Seq<char>, picture: NewPicture) -> ImageText {
    ImageText {
        id: path,
        path,
        filename: match picture.filename {
            Some(filename) => filename@,
            None => "圖片"@,
        },
        modified_at: picture.modified_at@,
        captured_at: optional_text(picture.captured_at),
        width: Some(picture.width),
        height: Some(picture.height),
        thumbnail: picture.thumbnail@,
        ocr_text: picture.ocr_text@,
        people: texts(picture.faces.people@),
        score: Score::one(),
        face_group_ids: texts(picture.faces.group_ids@),
    }
}

/// Makes the record of a new picture at a path.
pub fn make_record(path: String, picture: NewPicture) -> (record: ImageRecord)
    ensures
        record@ == new_record(path@, picture),
{
    ImageRecord {
        id: path.clone(),
        path,
        filename: match picture.filename {
            Some(filename) => filename,
            None => "圖片".to_owned(),
        },
        modified_at: picture.modified_at,
        captured_at: picture.captured_at,
        width: Some(picture.width),
        height: Some(picture.height),
        thumbnail: picture.thumbnail,
        ocr_text: picture.ocr_text,
        people: picture.faces.people,
        score: Score { key: ONE_KEY },
        face_group_ids: picture.faces.group_ids,
    }
}

// ---------------------------------------------------------------------------
// What a scan can use
// ---------------------------------------------------------------------------

/// Which models a scan loads: none where it is absent, else whether on the GPU.
#[derive(Debug, Clone, Copy, PartialEq, Eq, Structural)]
pub struct ModelPlan {
    pub clip: Option<bool>,
    pub face: Option<bool>,
}

/// Which models a scan loads: both where a file is new or has changed, each on the GPU where
/// it is set to and DirectML can be used.
pub fn plan_models(needed: bool, settings: &ModelSettings, probe: &DirectmlProbe) -> (plan: ModelPlan)
    ensures
        plan == if needed {
            ModelPlan {
                clip: Some(settings.clip_gpu && directml_problem(*probe) is None),
                face: Some(settings.face_gpu && directml_problem(*probe) is None),
            }
        } else {
            ModelPlan { clip: None, face: None }
        },
{
    if !needed {
        return ModelPlan { clip: None, face: None };
    }
    let available: bool = directml_available(probe);
    ModelPlan { clip: Some(settings.clip_gpu && available), face: Some(settings.face_gpu && available) }
}

/// What can be used in a scan, and what runs on the GPU.
#[derive(Debug, Clone)]
pub struct ScanAbilities {
    pub ocr_available: bool,
    pub semantic_available: bool,
    pub face_available: bool,
    pub clip_gpu_active: bool,
    pub face_gpu_active: bool,
    pub thumbnail_gpu_requested: bool,
    pub ocr_gpu_requested: bool,
    pub ocr_gpu_active: bool,
    pub gpu_warning: Option<String>,
}

/// What a `ScanAbilities` says.
pub struct AbilitiesText {
    pub ocr_available: bool,
    pub semantic_available: bool,
    pub face_available: bool,
    pub clip_gpu_active: bool,
    pub face_gpu_active: bool,
    pub thumbnail_gpu_requested: bool,
    pub ocr_gpu_requested: bool,
    pub ocr_gpu_active: bool,
    pub gpu_warning: Option<Seq<char>>,
}

impl View for ScanAbilities {
    type V = AbilitiesText;

    open spec fn view(&self) -> AbilitiesText {
        AbilitiesText {
            ocr_available: self.ocr_available,
            semantic_available: self.semantic_available,
            face_available: self.face_available,
            clip_gpu_active: self.clip_gpu_active,
            face_gpu_active: self.face_gpu_active,
            thumbnail_gpu_requested: self.thumbnail_gpu_requested,
            ocr_gpu_requested: self.ocr_gpu_requested,
            ocr_gpu_active: self.ocr_gpu_active,
            gpu_warning: optional_text(self.gpu_warning),
        }
    }
}

impl ScanAbilities {
    /// A copy.
    pub fn duplicate(&self) -> (copy: ScanAbilities)
        ensures
            copy@ == self@,
    {
        ScanAbilities {
            ocr_available: self.ocr_available,
            semantic_available: self.semantic_available,
            face_available: self.face_available,
            clip_gpu_active: self.clip_gpu_active,
            face_gpu_active: self.face_gpu_active,
            thumbnail_gpu_requested: self.thumbnail_gpu_requested,
            ocr_gpu_requested: self.ocr_gpu_requested,
            ocr_gpu_active: self.ocr_gpu_active,
            gpu_warning: copy_optional(&self.gpu_warning),
        }
    }
}

/// What was found out before a scan: whether the OCR program is there and speaks of OpenCL,
/// what came of loading the models, and whether the cache has vectors of pictures and groups
/// of faces of the folder.
pub struct ScanFindings {
    pub ocr_available: bool,
    pub ocr_opencl: bool,
    pub clip: LoadOutcome,
    pub face: LoadOutcome,
    pub has_vectors: bool,
    pub has_groups: bool,
}

/// Text is read on the GPU: it is set to, and the OCR program is there and speaks of OpenCL.
pub open spec fn reads_on_gpu(settings: ModelSettings, findings: ScanFindings) -> bool {
    settings.ocr_gpu && findings.ocr_available && findings.ocr_opencl
}

/// What can be used in a scan: pictures are searched by vectors where the model is at hand or
/// there are vectors, and by faces where the models are or there are groups.
pub fn scan_abilities(settings: &ModelSettings, probe: &DirectmlProbe, findings: &ScanFindings) -> (abilities: ScanAbilities)
    ensures
        abilities.ocr_available == findings.ocr_available,
        abilities.semantic_available == (findings.clip.loaded || findings.has_vectors),
        abilities.face_available == (findings.face.loaded || findings.has_groups),
        abilities.clip_gpu_active == findings.clip.gpu_active,
        abilities.face_gpu_active == findings.face.gpu_active,
        abilities.thumbnail_gpu_requested == settings.thumbnail_gpu,
        abilities.ocr_gpu_requested == settings.ocr_gpu,
        abilities.ocr_gpu_active == reads_on_gpu(*settings, *findings),
        ({
            let all = warnings(
                *settings,
                reads_on_gpu(*settings, *findings),
                directml_problem(*probe),
                optional_text(findings.clip.warning),
                optional_text(findings.face.warning),
            );
            &&& abilities.gpu_warning is Some <==> all.len() > 0
            &&& abilities.gpu_warning matches Some(warning) ==> warning@ == joined(all, "；"@)
        }),
{
    let ocr_gpu_active: bool = settings.ocr_gpu && findings.ocr_available && findings.ocr_opencl;
    ScanAbilities {
        ocr_available: findings.ocr_available,
        semantic_available: findings.clip.loaded || findings.has_vectors,
        face_available: findings.face.loaded || findings.has_groups,
        clip_gpu_active: findings.clip.gpu_active,
        face_gpu_active: findings.face.gpu_active,
        thumbnail_gpu_requested: settings.thumbnail_gpu,
        ocr_gpu_requested: settings.ocr_gpu,
        ocr_gpu_active,
        gpu_warning: gpu_warning(settings, ocr_gpu_active, probe, &findings.clip.warning, &findings.face.warning),
    }
}

// ---------------------------------------------------------------------------
// The scan
// ---------------------------------------------------------------------------

/// A scan of a folder on its way: `paths` are those of its pictures, and `image_model` and
/// `face_engine` tell whether these models are at hand.
pub struct Scan {
    pub root: String,
    pub paths: Vec<String>,
    pub batch_size: usize,
    pub has_cache: bool,
    pub image_model: bool,
    pub face_engine: bool,
    pub abilities: ScanAbilities,
    pub records: Vec<ImageRecord>,
    pub written: usize,
    pub pending_thumbnails: usize,
    pub pending: PendingWrites,
    pub processed: usize,
    pub reused: usize,
    pub skipped: usize,
    pub faces_detected: usize,
}

/// What a `Scan` holds.
pub struct ScanText {
    pub root: Seq<char>,
    pub paths: Seq<Seq<char>>,
    pub batch_size: nat,
    pub has_cache: bool,
    pub image_model: bool,
    pub face_engine: bool,
    pub abilities: AbilitiesText,
    pub records: Seq<ImageText>,
    pub written: nat,
    pub pending_thumbnails: nat,
    pub known: Map<Seq<char>, FileFingerprint>,
    pub vectors: Seq<EmbeddingText>,
    pub processed: nat,
    pub reused: nat,
    pub skipped: nat,
    pub faces_detected: nat,
}

impl View for Scan {
    type V = ScanText;

    open spec fn view(&self) -> ScanText {
        ScanText {
            root: self.root@,
            paths: texts(self.paths@),
            batch_size: self.batch_size as nat,
            has_cache: self.has_cache,
            image_model: self.image_model,
            face_engine: self.face_engine,
            abilities: self.abilities@,
            records: images(self.records@),
            written: self.written as nat,
            pending_thumbnails: self.pending_thumbnails as nat,
            known: self.pending.known(),
            vectors: self.pending.vectors(),
            processed: self.processed as nat,
            reused: self.reused as nat,
            skipped: self.skipped as nat,
            faces_detected: self.faces_detected as nat,
        }
    }
}

/// An item of a list stands in another one at the place that is given for it.
pub open spec fn stands_at<T>(part: Seq<T>, whole: Seq<T>, places: Seq<int>, i: int) -> bool {
    0 <= places[i] < whole.len() && whole[places[i]] == part[i]
}

/// `places` says where the items of a list stand in another one, in the same order.
pub open spec fn are_list_places<T>(part: Seq<T>, whole: Seq<T>, places: Seq<int>) -> bool {
    &&& places.len() == part.len()
    &&& forall|i: int| 0 <= i < part.len() ==> #[trigger] stands_at(part, whole, places, i)
    &&& forall|i: int, j: int| 0 <= i < j < places.len() ==> #[trigger] places[i] < #[trigger] places[j]
}

/// A list is another one, some of whose items have been left out.
pub open spec fn is_part_of_list<T>(part: Seq<T>, whole: Seq<T>) -> bool {
    exists|places: Seq<int>| are_list_places(part, whole, places)
}

/// The paths of records.
pub open spec fn paths_of(records: Seq<ImageText>) -> Seq<Seq<char>> {
    records.map_values(|record: ImageText| record.path)
}

/// A list goes on with its next item taken or left out.
proof fn lemma_list_goes_on<T>(part: Seq<T>, whole: Seq<T>, n: int)
    requires
        0 <= n < whole.len(),
        is_part_of_list(part, whole.take(n)),
    ensures
        is_part_of_list(part, whole.take(n + 1)),
        is_part_of_list(part.push(whole[n]), whole.take(n + 1)),
{
    let places = choose|places: Seq<int>| are_list_places(part, whole.take(n), places);
    assert forall|i: int| 0 <= i < part.len() implies #[trigger] stands_at(part, whole.take(n + 1), places, i) by {
        assert(stands_at(part, whole.take(n), places, i));
    }
    assert(are_list_places(part, whole.take(n + 1), places));
    let longer = places.push(n);
    let list = part.push(whole[n]);
    assert forall|i: int| 0 <= i < list.len() implies #[trigger] stands_at(list, whole.take(n + 1), longer, i) by {
        if i < part.len() {
            assert(stands_at(part, whole.take(n), places, i));
        }
    }
    assert forall|i: int, j: int| 0 <= i < j < longer.len() implies #[trigger] longer[i] < #[trigger] longer[j] by {
        if j == places.len() {
            assert(stands_at(part, whole.take(n), places, i));
        }
    }
    assert(are_list_places(list, whole.take(n + 1), longer));
}

impl ScanText {
    /// Every picture that was processed has a record or was skipped: the records have the
    /// paths of the pictures, in their order. The records that were reused are among them, and
    /// those that were written come first.
    pub open spec fn well_formed(self) -> bool {
        &&& self.processed <= self.paths.len()
        &&& self.records.len() + self.skipped == self.processed
        &&& is_part_of_list(paths_of(self.records), self.paths.take(self.processed as int))
        &&& self.reused <= self.records.len()
        &&& self.written <= self.records.len()
        &&& self.batch_size >= 1
        &&& self.pending_thumbnails <= self.records.len()
        &&& paths_differ(self.vectors)
    }

    /// What was found is to be written: a batch is full, or too much is held.
    pub open spec fn is_flush_due(self) -> bool {
        ||| self.records.len() - self.written >= self.batch_size
        ||| self.pending_thumbnails >= MAX_PENDING_THUMBNAILS
        ||| self.vectors.len() >= MAX_PENDING_EMBEDDINGS
    }

    /// No more is held than a full batch.
    pub open spec fn within_bounds(self) -> bool {
        &&& self.records.len() - self.written <= self.batch_size
        &&& self.pending_thumbnails <= MAX_PENDING_THUMBNAILS
        &&& self.vectors.len() <= MAX_PENDING_EMBEDDINGS
    }

    /// The path of the picture that is next.
    pub open spec fn next_path(self) -> Seq<char> {
        self.paths[self.processed as int]
    }

    /// What was found and is not yet written.
    pub open spec fn unwritten(self) -> Batch {
        Batch { records: self.records.skip(self.written as int), known: self.known, embeddings: self.vectors }
    }
}

/// The records of a scan with that of the next picture have the paths of the pictures.
proof fn lemma_record_goes_on(scan: ScanText, record: ImageText)
    requires
        scan.well_formed(),
        scan.processed < scan.paths.len(),
        record.path == scan.next_path(),
    ensures
        is_part_of_list(paths_of(scan.records.push(record)), scan.paths.take((scan.processed + 1) as int)),
{
    lemma_list_goes_on(paths_of(scan.records), scan.paths, scan.processed as int);
    assert(paths_of(scan.records.push(record)) =~= paths_of(scan.records).push(scan.next_path()));
}

/// What is done with a picture.
#[derive(Debug, Clone, Copy, PartialEq, Eq, Structural)]
pub enum PictureAction {
    /// Go on with what is kept of it; make a thumbnail first where none is kept.
    Reuse { makes_thumbnail: bool },
    /// Read it: with its vector, its faces and its text as far as they can be had.
    Read { embeds: bool, finds_faces: bool, reads_text: bool },
}

/// What came of making the vector of a picture.
pub enum EmbeddingOutcome {
    /// There is no model.
    NotTried,
    /// The model failed.
    Failed,
    /// The model gave a vector, or none.
    Made(Option<Vec<u32>>),
}

/// What came of what was done with a picture.
pub enum PictureOutcome {
    /// It was not read, but a thumbnail of it was made, if one could be.
    Thumbnail(Option<String>),
    /// It could not be read.
    Unreadable,
    /// It was read.
    Read(NewPicture, EmbeddingOutcome),
}

/// The vector of a picture, if one was made.
pub open spec fn made_vector(outcome: EmbeddingOutcome) -> Option<Seq<u32>> {
    match outcome {
        EmbeddingOutcome::Made(Some(vector)) => Some(vector@),
        _ => None,
    }
}

/// What is done with the next picture: a file of which the same version is kept is not read
/// again. A picture is read with the models and the program that are at hand.
pub open spec fn due_action(scan: ScanText, current: Option<FileFingerprint>, kept: Option<CachedImage>) -> PictureAction {
    if current is Some && kept is Some && current->0 == kept->0.fingerprint {
        PictureAction::Reuse { makes_thumbnail: !kept->0.thumbnail_available }
    } else {
        PictureAction::Read {
            embeds: scan.image_model,
            finds_faces: scan.face_engine,
            reads_text: scan.abilities.ocr_available,
        }
    }
}

/// The record of a picture that is kept, with a new thumbnail where none was kept.
pub open spec fn reused_record(kept: CachedImage, path: Seq<char>, thumbnail: Option<Seq<char>>) -> ImageText {
    match thumbnail {
        Some(thumbnail) if !kept.thumbnail_available => ImageText { thumbnail, ..record_of(kept.record@, path) },
        _ => record_of(kept.record@, path),
    }
}

/// A scan that has gone on with what is kept of a picture.
pub open spec fn after_reuse(
    scan: ScanText,
    fingerprint: FileFingerprint,
    kept: CachedImage,
    thumbnail: Option<Seq<char>>,
) -> ScanText {
    ScanText {
        records: scan.records.push(reused_record(kept, scan.next_path(), thumbnail)),
        known: scan.known.insert(scan.next_path(), fingerprint),
        pending_thumbnails: if !kept.thumbnail_available && thumbnail is Some {
            scan.pending_thumbnails + 1
        } else {
            scan.pending_thumbnails
        },
        faces_detected: as_count(scan.faces_detected + kept.record.face_group_ids@.len()) as nat,
        processed: scan.processed + 1,
        reused: scan.reused + 1,
        ..scan
    }
}

/// A scan that has taken note of what came of making the vector of a picture. A model that
/// failed is not asked again, and no search by vectors is promised.
pub open spec fn after_embedding(scan: ScanText, path: Seq<char>, embedding: EmbeddingOutcome) -> ScanText {
    ScanText {
        vectors: if scan.has_cache {
            with_vector(scan.vectors, EmbeddingText { path, vector: made_vector(embedding) })
        } else {
            scan.vectors
        },
        image_model: scan.image_model && !(embedding is Failed),
        abilities: AbilitiesText {
            semantic_available: scan.abilities.semantic_available && !(embedding is Failed),
            ..scan.abilities
        },
        ..scan
    }
}

/// A scan that has taken in a record, with the fingerprint of its file, if it has one.
pub open spec fn after_record(
    scan: ScanText,
    record: ImageText,
    fingerprint: Option<FileFingerprint>,
    faces: nat,
) -> ScanText {
    ScanText {
        records: scan.records.push(record),
        known: match fingerprint {
            Some(fingerprint) => scan.known.insert(record.path, fingerprint),
            None => scan.known,
        },
        pending_thumbnails: if scan.has_cache && record.thumbnail.len() > 0 {
            scan.pending_thumbnails + 1
        } else {
            scan.pending_thumbnails
        },
        faces_detected: as_count(scan.faces_detected + faces) as nat,
        processed: scan.processed + 1,
        ..scan
    }
}

/// A scan that has taken in the record of a picture that was read: with the fingerprint of its
/// file, if it has one, and its vector, or that it has none.
pub open spec fn after_new(
    scan: ScanText,
    picture: NewPicture,
    fingerprint: Option<FileFingerprint>,
    embedding: EmbeddingOutcome,
) -> ScanText {
    let path = scan.next_path();
    let record = new_record(path, picture);
    after_embedding(after_record(scan, record, fingerprint, picture.faces.count as nat), path, embedding)
}

/// A scan that has gone on without a picture.
pub open spec fn after_skip(scan: ScanText) -> ScanText {
    ScanText { processed: scan.processed + 1, skipped: scan.skipped + 1, ..scan }
}

/// A scan behind the next picture: what is kept of it is reused where its file has not
/// changed, else it is taken in where it could be read, and skipped where it could not.
pub open spec fn settled(
    scan: ScanText,
    current: Option<FileFingerprint>,
    kept: Option<CachedImage>,
    outcome: PictureOutcome,
) -> ScanText {
    match due_action(scan, current, kept) {
        PictureAction::Reuse { .. } => after_reuse(
            scan,
            current->0,
            kept->0,
            match outcome {
                PictureOutcome::Thumbnail(thumbnail) => optional_text(thumbnail),
                _ => None,
            },
        ),
        PictureAction::Read { .. } => match outcome {
            PictureOutcome::Read(picture, embedding) => after_new(scan, picture, current, embedding),
            _ => after_skip(scan),
        },
    }
}

/// A scan of which all that was found has been written.
pub open spec fn after_flush(scan: ScanText) -> ScanText {
    if scan.has_cache {
        ScanText {
            records: Seq::new(
                scan.records.len(),
                |k: int|
                    if k >= scan.written {
                        released(scan.records[k], scan.known)
                    } else {
                        scan.records[k]
                    },
            ),
            written: scan.records.len(),
            pending_thumbnails: 0,
            known: Map::empty(),
            vectors: Seq::empty(),
            ..scan
        }
    } else {
        ScanText { written: scan.records.len(), pending_thumbnails: 0, ..scan }
    }
}

impl Scan {
    /// Starts a scan of the pictures of a folder.
    pub fn start(
        root: String,
        paths: Vec<String>,
        batch_size: usize,
        has_cache: bool,
        image_model: bool,
        face_engine: bool,
        abilities: ScanAbilities,
    ) -> (scan: Scan)
        ensures
            scan@.well_formed(),
            scan@ == (ScanText {
                root: root@,
                paths: texts(paths@),
                batch_size: if batch_size < 1 {
                    1
                } else {
                    batch_size as nat
                },
                has_cache,
                image_model,
                face_engine,
                abilities: abilities@,
                records: Seq::empty(),
                written: 0,
                pending_thumbnails: 0,
                known: Map::empty(),
                vectors: Seq::empty(),
                processed: 0,
                reused: 0,
                skipped: 0,
                faces_detected: 0,
            }),
    {
        let scan: Scan = Scan {
            root,
            paths,
            batch_size: if batch_size < 1 {
                1
            } else {
                batch_size
            },
            has_cache,
            image_model,
            face_engine,
            abilities,
            records: Vec::new(),
            written: 0,
            pending_thumbnails: 0,
            pending: PendingWrites::new(),
            processed: 0,
            reused: 0,
            skipped: 0,
            faces_detected: 0,
        };
        assert(scan@.records =~= Seq::<ImageText>::empty());
        assert(are_list_places(paths_of(scan@.records), scan@.paths.take(0), Seq::empty()));
        scan
    }

    /// What is done with the next picture, given the fingerprint of its file and what is kept
    /// of it.
    pub fn next_action(&self, current: Option<FileFingerprint>, kept: &Option<CachedImage>) -> (action: PictureAction)
        ensures
            action == due_action(self@, current, *kept),
    {
        match (current, kept) {
            (Some(current), Some(kept)) => {
                if current.bytes == kept.fingerprint.bytes && current.modified_ns == kept.fingerprint.modified_ns {
                    return PictureAction::Reuse { makes_thumbnail: !kept.thumbnail_available };
                }
            },
            _ => {},
        }
        PictureAction::Read {
            embeds: self.image_model,
            finds_faces: self.face_engine,
            reads_text: self.abilities.ocr_available,
        }
    }

    /// Goes on behind the next picture, given what came of what was done with it.
    pub fn settle(&mut self, current: Option<FileFingerprint>, kept: Option<CachedImage>, outcome: PictureOutcome)
        requires
            old(self)@.well_formed(),
            old(self)@.processed < old(self)@.paths.len(),
        ensures
            final(self)@.well_formed(),
            final(self)@ == settled(old(self)@, current, kept, outcome),
            !old(self)@.is_flush_due() ==> final(self)@.within_bounds(),
    {
        match self.next_action(current, &kept) {
            PictureAction::Reuse { makes_thumbnail: _ } => {
                let thumbnail: Option<String> = match outcome {
                    PictureOutcome::Thumbnail(thumbnail) => thumbnail,
                    _ => None,
                };
                match (current, kept) {
                    (Some(current), Some(kept)) => {
                        self.reuse(current, kept, thumbnail);
                    },
                    _ => {},
                }
            },
            PictureAction::Read { embeds: _, finds_faces: _, reads_text: _ } => {
                match outcome {
                    PictureOutcome::Read(picture, embedding) => {
                        self.add_new(picture, current, embedding);
                    },
                    _ => {
                        self.skip();
                    },
                }
            },
        }
    }

    /// Goes on with what is kept of a picture whose file has not changed. `thumbnail` is
    /// a new one, where none was kept and one could be made.
    pub fn reuse(&mut self, fingerprint: FileFingerprint, kept: CachedImage, thumbnail: Option<String>)
        requires
            old(self)@.well_formed(),
            old(self)@.processed < old(self)@.paths.len(),
        ensures
            final(self)@.well_formed(),
            final(self)@ == after_reuse(old(self)@, fingerprint, kept, optional_text(thumbnail)),
            !old(self)@.is_flush_due() ==> final(self)@.within_bounds(),
    {
        let ghost before = self@;
        let total: usize = self.paths.len();
        assert(before.paths.len() == total);
        let path: String = self.paths[self.processed].clone();
        assert(path@ == before.next_path());
        let faces: usize = kept.record.face_group_ids.len();
        self.faces_detected = if faces <= usize::MAX - self.faces_detected {
            self.faces_detected + faces
        } else {
            usize::MAX
        };
        self.pending.add_fingerprint(path.clone(), fingerprint);
        let mut record: ImageRecord = kept.record.into_record(path);
        if !kept.thumbnail_available {
            match thumbnail {
                Some(thumbnail) => {
                    record.thumbnail = thumbnail;
                    self.pending_thumbnails = self.pending_thumbnails + 1;
                },
                None => {},
            }
        }
        self.records.push(record);
        self.reused = self.reused + 1;
        self.processed = self.processed + 1;
        proof {
            assert(images(self.records@) =~= before.records.push(record@));
            lemma_record_goes_on(before, record@);
        }
    }

    /// Takes note of what came of making the vector of a picture.
    fn note_embedding(&mut self, path: &String, embedding: EmbeddingOutcome)
        requires
            paths_differ(old(self)@.vectors),
        ensures
            paths_differ(final(self)@.vectors),
            final(self)@ == after_embedding(old(self)@, path@, embedding),
            final(self)@.vectors.len() <= old(self)@.vectors.len() + 1,
    {
        let failed: bool = match &embedding {
            EmbeddingOutcome::Failed => true,
            _ => false,
        };
        if failed {
            self.image_model = false;
            self.abilities.semantic_available = false;
        }
        if self.has_cache {
            let vector: Option<Vec<u32>> = match embedding {
                EmbeddingOutcome::Made(vector) => vector,
                _ => None,
            };
            self.pending.set_embedding(path.clone(), vector);
        }
    }

    /// Takes the record of the next picture in, with the fingerprint of its file, if it has one.
    fn add_record(&mut self, record: ImageRecord, fingerprint: Option<FileFingerprint>, faces: usize)
        requires
            old(self)@.well_formed(),
            old(self)@.processed < old(self)@.paths.len(),
            record@.path == old(self)@.next_path(),
        ensures
            final(self)@.well_formed(),
            final(self)@ == after_record(old(self)@, record@, fingerprint, faces as nat),
    {
        let ghost before = self@;
        let total: usize = self.paths.len();
        assert(before.paths.len() == total);
        self.faces_detected = if faces <= usize::MAX - self.faces_detected {
            self.faces_detected + faces
        } else {
            usize::MAX
        };
        match fingerprint {
            Some(fingerprint) => {
                self.pending.add_fingerprint(record.path.clone(), fingerprint);
            },
            None => {},
        }
        if self.has_cache && chars_of(record.thumbnail.as_str()).len() > 0 {
            self.pending_thumbnails = self.pending_thumbnails + 1;
        }
        self.records.push(record);
        self.processed = self.processed + 1;
        proof {
            assert(images(self.records@) =~= before.records.push(record@));
            lemma_record_goes_on(before, record@);
        }
    }

    /// Takes the record of a picture that was read in, with the fingerprint of its file, if it
    /// has one, and what came of making its vector.
    pub fn add_new(
        &mut self,
        picture: NewPicture,
        fingerprint: Option<FileFingerprint>,
        embedding: EmbeddingOutcome,
    )
        requires
            old(self)@.well_formed(),
            old(self)@.processed < old(self)@.paths.len(),
        ensures
            final(self)@.well_formed(),
            final(self)@ == after_new(old(self)@, picture, fingerprint, embedding),
            !old(self)@.is_flush_due() ==> final(self)@.within_bounds(),
    {
        let path: String = self.paths[self.processed].clone();
        assert(path@ == self@.next_path());
        let faces: usize = picture.faces.count;
        let record: ImageRecord = make_record(path.clone(), picture);
        self.add_record(record, fingerprint, faces);
        self.note_embedding(&path, embedding);
    }

    /// Goes on without a picture that cannot be read.
    pub fn skip(&mut self)
        requires
            old(self)@.well_formed(),
            old(self)@.processed < old(self)@.paths.len(),
        ensures
            final(self)@.well_formed(),
            final(self)@ == after_skip(old(self)@),
            !old(self)@.is_flush_due() ==> final(self)@.within_bounds(),
    {
        let total: usize = self.paths.len();
        proof {
            assert(self@.paths.len() == total);
            lemma_list_goes_on(paths_of(self@.records), self@.paths, self@.processed as int);
        }
        self.skipped = self.skipped + 1;
        self.processed = self.processed + 1;
    }

    /// Whether what was found is to be written.
    pub fn flush_due(&self) -> (due: bool)
        requires
            self@.well_formed(),
        ensures
            due == self@.is_flush_due(),
    {
        self.records.len() - self.written >= self.batch_size || self.pending_thumbnails >= MAX_PENDING_THUMBNAILS
            || self.pending.vector_count() >= MAX_PENDING_EMBEDDINGS
    }

    /// The changes that write what was found and is not yet written.
    pub fn flush_ops(&self) -> (ops: Vec<CacheOp>)
        requires
            self@.well_formed(),
        ensures
            forall|tables: CacheTables| #[trigger]
                apply_all(tables, ops@) == with_batch(tables, self@.root, self@.unwritten()),
    {
        append_index_cache(&self.root, &self.records, self.written, &self.pending)
    }

    /// Takes note that what was found has been written: it need no longer be held.
    pub fn note_flushed(&mut self)
        requires
            old(self)@.well_formed(),
        ensures
            final(self)@.well_formed(),
            final(self)@ == after_flush(old(self)@),
            !final(self)@.is_flush_due() || !old(self)@.has_cache,
    {
        let ghost before = self@;
        let has_cache: bool = self.has_cache;
        let from: usize = self.written;
        release_written(&mut self.records, from, &mut self.pending, has_cache);
        self.written = self.records.len();
        self.pending_thumbnails = 0;
        proof {
            let after = after_flush(before);
            assert forall|k: int| 0 <= k < self.records@.len() implies images(self.records@)[k] == after.records[k] by {
                assert(images(self.records@)[k] == self.records@[k]@);
            }
            assert(images(self.records@) =~= after.records);
            assert(paths_of(after.records) =~= paths_of(before.records));
            assert(self@ == after);
        }
    }

    /// Whether every picture has been processed.
    pub fn is_done(&self) -> (done: bool)
        ensures
            done == (self@.processed >= self@.paths.len()),
    {
        self.processed >= self.paths.len()
    }

    /// Whether progress is reported: after every fifth picture, and after the last one.
    pub fn progress_due(&self) -> (due: bool)
        ensures
            due == (self@.processed == self@.paths.len() || self@.processed % 5 == 0),
    {
        self.processed == self.paths.len() || self.processed % 5 == 0
    }
}

/// What is reported on the way of a scan. Thumbnails never run on the GPU.
pub struct ScanProgress {
    pub processed: usize,
    pub total: usize,
    pub eta_seconds: Option<u64>,
    pub indexed: usize,
    pub reused: usize,
    pub skipped: usize,
    pub faces_detected: usize,
    pub thumbnail_gpu_active: bool,
    pub abilities: ScanAbilities,
}

/// What is reported at the end of a scan. Thumbnails never run on the GPU.
pub struct ScanResult {
    pub root: String,
    pub indexed: usize,
    pub reused: usize,
    pub skipped: usize,
    pub faces_detected: usize,
    pub face_groups: usize,
    pub thumbnail_gpu_active: bool,
    pub abilities: ScanAbilities,
}

/// A file name comes no later than another, whatever the case of their letters.
pub open spec fn filename_at_most(left: ImageText, right: ImageText) -> bool {
    text_at_most(lowercase(left.filename), lowercase(right.filename))
}

/// `order` lists the records by file name, and those with the same name as they came.
pub open spec fn lists_by_filename(records: Seq<ImageText>, order: Seq<usize>) -> bool {
    &&& is_order_of(order, records.len())
    &&& forall|i: int, j: int|
        0 <= i < j < order.len() ==> ({
            let left = #[trigger] order[i] as int;
            let right = #[trigger] order[j] as int;
            filename_at_most(records[left], records[right]) && (filename_at_most(records[right], records[left])
                ==> left < right)
        })
}

/// Lists the records by file name, whatever the case of its letters; those with the same
/// name stay as they came.
pub fn sort_by_filename(records: &Vec<ImageRecord>) -> (sorted: Vec<ImageRecord>)
    ensures
        exists|order: Seq<usize>| #[trigger]
            lists_by_filename(images(records@), order) && images(sorted@) == in_order(images(records@), order),
{
    let ghost all = images(records@);
    let mut keys: Vec<Name> = Vec::new();
    for i in 0..records.len()
        invariant
            keys@.len() == i,
            forall|k: int| 0 <= k < i ==> (#[trigger] keys@[k]).chars@ == lowercase(records@[k].filename@),
    {
        keys.push(Name { chars: chars_of(to_lowercase(records[i].filename.as_str()).as_str()) });
    }
    let order: Vec<usize> = rank(&keys);
    proof {
        law_ranking_repeats_nothing(keys@, order@);
        assert forall|i: int, j: int| 0 <= i < j < order@.len() implies ({
            let left = #[trigger] order@[i] as int;
            let right = #[trigger] order@[j] as int;
            filename_at_most(all[left], all[right]) && (filename_at_most(all[right], all[left]) ==> left < right)
        }) by {
            let left = order@[i] as int;
            let right = order@[j] as int;
            assert(listed_before(keys@, left, right));
            assert(keys@[left].chars@ == lowercase(all[left].filename));
            assert(keys@[right].chars@ == lowercase(all[right].filename));
        }
        assert(lists_by_filename(all, order@));
    }
    let mut sorted: Vec<ImageRecord> = Vec::new();
    assert(images(sorted@) =~= in_order(all, order@.take(0)));
    for i in 0..order.len()
        invariant
            all == images(records@),
            is_order_of(order@, records@.len()),
            images(sorted@) == in_order(all, order@.take(i as int)),
    {
        let ghost before = images(sorted@);
        let at: usize = order[i];
        sorted.push(records[at].duplicate());
        assert(images(sorted@) =~= before.push(all[at as int]));
        assert(order@.take(i + 1) =~= order@.take(i as int).push(at));
        assert(in_order(all, order@.take(i + 1)) =~= before.push(all[at as int]));
    }
    assert(order@.take(order@.len() as int) =~= order@);
    sorted
}

impl Scan {
    /// What is reported on the way.
    pub fn progress(&self, measured: Option<u64>) -> (progress: ScanProgress)
        ensures
            progress.processed == self@.processed,
            progress.total == self@.paths.len(),
            progress.eta_seconds == if self@.paths.len() == 0 {
                None
            } else if self@.processed >= self@.paths.len() {
                Some(0u64)
            } else if self@.processed == 0 {
                None
            } else {
                measured
            },
            progress.indexed == self@.records.len(),
            progress.reused == self@.reused,
            progress.skipped == self@.skipped,
            progress.faces_detected == self@.faces_detected,
            !progress.thumbnail_gpu_active,
            progress.abilities@ == self@.abilities,
    {
        ScanProgress {
            processed: self.processed,
            total: self.paths.len(),
            eta_seconds: estimate_remaining_seconds(self.processed, self.paths.len(), measured),
            indexed: self.records.len(),
            reused: self.reused,
            skipped: self.skipped,
            faces_detected: self.faces_detected,
            thumbnail_gpu_active: false,
            abilities: self.abilities.duplicate(),
        }
    }

    /// Ends the scan: the index with its records by file name, and what is reported.
    /// `has_vectors` tells whether the cache now has vectors of pictures of the folder.
    pub fn finish(self, face_groups: Vec<FaceCluster>, has_vectors: bool) -> (end: (IndexData, ScanResult))
        ensures
            exists|order: Seq<usize>| #[trigger]
                lists_by_filename(self@.records, order) && images(end.0.images@) == in_order(self@.records, order),
            end.0.face_groups == face_groups,
            end.1.root@ == self@.root,
            end.1.indexed == self@.records.len(),
            end.1.reused == self@.reused,
            end.1.skipped == self@.skipped,
            end.1.faces_detected == self@.faces_detected,
            end.1.face_groups == face_groups@.len(),
            !end.1.thumbnail_gpu_active,
            end.1.abilities@ == (AbilitiesText { semantic_available: has_vectors, ..self@.abilities }),
    {
        let sorted: Vec<ImageRecord> = sort_by_filename(&self.records);
        proof {
            let order = choose|order: Seq<usize>| #[trigger]
                lists_by_filename(images(self.records@), order) && images(sorted@) == in_order(
                    images(self.records@),
                    order,
                );
            assert(lists_by_filename(self@.records, order));
        }
        let mut abilities: ScanAbilities = self.abilities;
        abilities.semantic_available = has_vectors;
        let result: ScanResult = ScanResult {
            root: self.root,
            indexed: self.records.len(),
            reused: self.reused,
            skipped: self.skipped,
            faces_detected: self.faces_detected,
            face_groups: face_groups.len(),
            thumbnail_gpu_active: false,
            abilities,
        };
        (IndexData { images: sorted, face_groups }, result)
    }
}

// ---------------------------------------------------------------------------
// What holds of every scan
// ---------------------------------------------------------------------------

/// Once every picture has been processed, each has a record or was skipped.
pub proof fn law_every_picture_is_accounted_for(scan: ScanText)
    requires
        scan.well_formed(),
        scan.processed == scan.paths.len(),
    ensures
        scan.records.len() + scan.skipped == scan.paths.len(),
        scan.reused <= scan.records.len(),
{
}

/// At every point of a scan each record is that of a picture of the folder, and where the
/// paths of the pictures differ, those of the records do.
pub proof fn law_records_are_of_the_folder(scan: ScanText)
    requires
        scan.well_formed(),
    ensures
        forall|k: int| 0 <= k < scan.records.len() ==> scan.paths.contains((#[trigger] scan.records[k]).path),
        scan.paths.no_duplicates() ==> paths_of(scan.records).no_duplicates(),
{
    let part = paths_of(scan.records);
    let whole = scan.paths.take(scan.processed as int);
    let places = choose|places: Seq<int>| are_list_places(part, whole, places);
    assert forall|k: int| 0 <= k < scan.records.len() implies scan.paths.contains(
        (#[trigger] scan.records[k]).path,
    ) by {
        assert(stands_at(part, whole, places, k));
        assert(scan.paths[places[k]] == scan.records[k].path);
    }
    if scan.paths.no_duplicates() {
        assert forall|i: int, j: int| 0 <= i < part.len() && 0 <= j < part.len() && i != j implies part[i] != part[j] by {
            assert(stands_at(part, whole, places, i));
            assert(stands_at(part, whole, places, j));
            if i < j {
                assert(places[i] < places[j]);
            } else {
                assert(places[j] < places[i]);
            }
            assert(scan.paths[places[i]] != scan.paths[places[j]]);
        }
    }
}

/// A picture that could be read is indexed, whatever models and programs are at hand and
/// whatever came of asking them: its record holds its file name and what was read of it.
/// Without a vector it is noted that it has none.
pub proof fn law_pictures_are_indexed_without_models(
    scan: ScanText,
    current: Option<FileFingerprint>,
    kept: Option<CachedImage>,
    picture: NewPicture,
    embedding: EmbeddingOutcome,
)
    requires
        scan.well_formed(),
        scan.processed < scan.paths.len(),
        due_action(scan, current, kept) is Read,
    ensures
        ({
            let after = settled(scan, current, kept, PictureOutcome::Read(picture, embedding));
            &&& after.records == scan.records.push(new_record(scan.next_path(), picture))
            &&& after.processed == scan.processed + 1
            &&& after.skipped == scan.skipped
            &&& embedding is Failed ==> !after.image_model && !after.abilities.semantic_available
            &&& !(embedding is Failed) ==> after.image_model == scan.image_model && after.abilities == scan.abilities
        }),
{
}

/// A model that is not at hand, as one that failed, is not asked for the vector of any later
/// picture.
pub proof fn law_a_failed_model_stays_away(
    scan: ScanText,
    current: Option<FileFingerprint>,
    kept: Option<CachedImage>,
    outcome: PictureOutcome,
    next_current: Option<FileFingerprint>,
    next_kept: Option<CachedImage>,
)
    requires
        !scan.image_model,
    ensures
        !settled(scan, current, kept, outcome).image_model,
        due_action(settled(scan, current, kept, outcome), next_current, next_kept) matches PictureAction::Read {
            embeds,
            ..
        } ==> !embeds,
{
}

/// A picture on its way through a scan: its fingerprint, what is kept of it, and what came of
/// what was done with it.
pub struct PictureStory {
    pub current: Option<FileFingerprint>,
    pub kept: Option<CachedImage>,
    pub outcome: PictureOutcome,
}

/// A scan behind a number of pictures.
pub open spec fn scanned(scan: ScanText, stories: Seq<PictureStory>) -> ScanText
    decreases stories.len(),
{
    if stories.len() == 0 {
        scan
    } else {
        let last = stories.last();
        settled(scanned(scan, stories.drop_last()), last.current, last.kept, last.outcome)
    }
}

/// A scan ends, whatever comes of its pictures: one step takes it behind each of them, and
/// once it is behind the last one each has a record or was skipped.
pub proof fn law_every_scan_ends(scan: ScanText, stories: Seq<PictureStory>)
    requires
        scan.well_formed(),
        scan.processed + stories.len() <= scan.paths.len(),
    ensures
        scanned(scan, stories).processed == scan.processed + stories.len(),
        scanned(scan, stories).paths == scan.paths,
        scanned(scan, stories).records.len() + scanned(scan, stories).skipped == scan.processed + stories.len(),
    decreases stories.len(),
{
    if stories.len() > 0 {
        law_every_scan_ends(scan, stories.drop_last());
    }
}

// ---------------------------------------------------------------------------
// What a scan makes of a picture
// ---------------------------------------------------------------------------

/// A record holds what was read from a picture at a path: its times, its dimensions, its
/// thumbnail, its text, and the people and groups of the faces on it.
pub open spec fn holds_picture(record: ImageRecord, path: Seq<char>, picture: NewPicture) -> bool {
    &&& record.id@ == path
    &&& record.path@ == path
    &&& picture.filename is Some ==> record.filename@ == picture.filename->0@
    &&& picture.filename is None ==> record.filename@ == "圖片"@
    &&& record.modified_at@ == picture.modified_at@
    &&& picture.captured_at is Some ==> record.captured_at is Some && record.captured_at->0@
        == picture.captured_at->0@
    &&& picture.captured_at is None ==> record.captured_at is None
    &&& record.width == Some(picture.width)
    &&& record.height == Some(picture.height)
    &&& record.thumbnail@ == picture.thumbnail@
    &&& record.ocr_text@ == picture.ocr_text@
    &&& texts(record.people@) == texts(picture.faces.people@)
    &&& texts(record.face_group_ids@) == texts(picture.faces.group_ids@)
    &&& record.score.key == 0x3f80_0000
}

/// The record of a new picture holds all that was read from it.
pub proof fn law_a_record_holds_what_was_read(path: String, picture: NewPicture, record: ImageRecord)
    requires
        call_ensures(make_record, (path, picture), record),
    ensures
        holds_picture(record, path@, picture),
{
    assert(record@.id == path@);
}

/// The file of a picture is the one that a record is kept of: of the same length, and changed at
/// the same time.
pub open spec fn is_kept_version(current: Option<FileFingerprint>, kept: Option<CachedImage>) -> bool {
    &&& current is Some
    &&& kept is Some
    &&& current->0.bytes == kept->0.fingerprint.bytes
    &&& current->0.modified_ns == kept->0.fingerprint.modified_ns
}

/// A record stands behind those that were there, which stay as they are.
pub open spec fn is_one_more(before: Seq<ImageRecord>, after: Seq<ImageRecord>) -> bool {
    &&& after.len() == before.len() + 1
    &&& forall|k: int| 0 <= k < before.len() ==> (#[trigger] after[k])@ == before[k]@
}

/// A new or changed picture that was read adds one record, at its own path, that holds all that
/// was read from it. Its faces are added to those counted, its vector is kept to be written, and
/// so is the fingerprint of its file, if it has one.
pub proof fn law_read_pictures_are_indexed(
    scan: &mut Scan,
    current: Option<FileFingerprint>,
    kept: Option<CachedImage>,
    picture: NewPicture,
    embedding: EmbeddingOutcome,
)
    requires
        old(scan)@.well_formed(),
        old(scan)@.processed < old(scan)@.paths.len(),
        call_ensures(Scan::settle, (scan, current, kept, PictureOutcome::Read(picture, embedding)), ()),
        !is_kept_version(current, kept),
    ensures
        is_one_more(old(scan).records@, final(scan).records@),
        holds_picture(
            final(scan).records@[old(scan).records@.len() as int],
            old(scan).paths@[old(scan).processed as int]@,
            picture,
        ),
        final(scan).processed == old(scan).processed + 1,
        final(scan).reused == old(scan).reused,
        final(scan).skipped == old(scan).skipped,
        old(scan).faces_detected + picture.faces.count <= usize::MAX ==> final(scan).faces_detected
            == old(scan).faces_detected + picture.faces.count,
        current is Some ==> final(scan).pending.known().contains_key(old(scan).paths@[old(scan).processed as int]@)
            && final(scan).pending.known()[old(scan).paths@[old(scan).processed as int]@] == current->0,
        current is None ==> final(scan).pending.known() == old(scan).pending.known(),
        old(scan).has_cache ==> (embedding matches EmbeddingOutcome::Made(Some(vector)) ==> final(
            scan).pending.vectors().contains(
            (EmbeddingText { path: old(scan).paths@[old(scan).processed as int]@, vector: Some(vector@) }),
        )),
        old(scan).has_cache && !(embedding matches EmbeddingOutcome::Made(Some(_))) ==> final(scan).pending.vectors().contains(
            (EmbeddingText { path: old(scan).paths@[old(scan).processed as int]@, vector: None }),
        ),
        !old(scan).has_cache ==> final(scan).pending.vectors() == old(scan).pending.vectors(),
        old(scan).has_cache && picture.thumbnail@.len() > 0 ==> final(scan).pending_thumbnails
            == old(scan).pending_thumbnails + 1,
{
    let path = old(scan).paths@[old(scan).processed as int]@;
    assert(old(scan)@.next_path() == path);
    assert(due_action(old(scan)@, current, kept) is Read);
    let before = images(old(scan).records@);
    let after = images(final(scan).records@);
    let record = new_record(path, picture);
    assert(after == before.push(record));
    lemma_records_go_on(old(scan).records@, final(scan).records@, record);
    if old(scan).has_cache {
        let added = EmbeddingText { path, vector: made_vector(embedding) };
        lemma_vector_is_held(old(scan).pending.vectors(), added);
    }
}

/// A list of records that has grown by one.
proof fn lemma_records_go_on(before: Seq<ImageRecord>, after: Seq<ImageRecord>, record: ImageText)
    requires
        images(after) == images(before).push(record),
    ensures
        is_one_more(before, after),
        after[before.len() as int]@ == record,
{
    assert(images(after).len() == before.len() + 1);
    assert forall|k: int| 0 <= k < before.len() implies (#[trigger] after[k])@ == before[k]@ by {
        assert(images(after)[k] == images(before)[k]);
    }
    assert(images(after)[before.len() as int] == record);
}

/// A vector that was put in is there.
proof fn lemma_vector_is_held(vectors: Seq<EmbeddingText>, added: EmbeddingText)
    ensures
        with_vector(vectors, added).contains(added),
{
    let after = with_vector(vectors, added);
    if exists|k: int| 0 <= k < vectors.len() && (#[trigger] vectors[k]).path == added.path {
        let k = choose|k: int| 0 <= k < vectors.len() && (#[trigger] vectors[k]).path == added.path;
        assert(after[k] == added);
    } else {
        assert(after[vectors.len() as int] == added);
    }
}

/// A picture whose file is the one that a record is kept of adds one record, at its own path,
/// with all that is kept of it, whatever else came of it; its thumbnail is a new one only where
/// none was kept and one was made. It counts as reused.
pub proof fn law_unchanged_pictures_are_reused(
    scan: &mut Scan,
    current: Option<FileFingerprint>,
    kept: Option<CachedImage>,
    outcome: PictureOutcome,
)
    requires
        old(scan)@.well_formed(),
        old(scan)@.processed < old(scan)@.paths.len(),
        call_ensures(Scan::settle, (scan, current, kept, outcome), ()),
        is_kept_version(current, kept),
    ensures
        is_one_more(old(scan).records@, final(scan).records@),
        ({
            let path = old(scan).paths@[old(scan).processed as int]@;
            let record = final(scan).records@[old(scan).records@.len() as int];
            let cached = kept->0.record;
            &&& record.id@ == path
            &&& record.path@ == path
            &&& record.filename@ == cached.filename@
            &&& record.modified_at@ == cached.modified_at@
            &&& optional_text(record.captured_at) == optional_text(cached.captured_at)
            &&& record.width == cached.width
            &&& record.height == cached.height
            &&& record.ocr_text@ == cached.ocr_text@
            &&& texts(record.people@) == texts(cached.people@)
            &&& texts(record.face_group_ids@) == texts(cached.face_group_ids@)
            &&& kept->0.thumbnail_available ==> record.thumbnail@.len() == 0
            &&& !kept->0.thumbnail_available ==> (outcome matches PictureOutcome::Thumbnail(Some(made))
                ==> record.thumbnail@ == made@)
            &&& !(outcome matches PictureOutcome::Thumbnail(Some(_))) ==> record.thumbnail@.len() == 0
            &&& final(scan).pending.known().contains_key(path)
            &&& final(scan).pending.known()[path] == current->0
        }),
        final(scan).processed == old(scan).processed + 1,
        final(scan).reused == old(scan).reused + 1,
        final(scan).skipped == old(scan).skipped,
        final(scan).pending.vectors() == old(scan).pending.vectors(),
        old(scan).faces_detected + kept->0.record.face_group_ids@.len() <= usize::MAX ==> final(scan).faces_detected
            == old(scan).faces_detected + kept->0.record.face_group_ids@.len(),
{
    let path = old(scan).paths@[old(scan).processed as int]@;
    assert(old(scan)@.next_path() == path);
    assert(current->0 == kept->0.fingerprint);
    let thumbnail = match outcome {
        PictureOutcome::Thumbnail(thumbnail) => optional_text(thumbnail),
        _ => None,
    };
    let record = reused_record(kept->0, path, thumbnail);
    assert(images(final(scan).records@) == images(old(scan).records@).push(record));
    lemma_records_go_on(old(scan).records@, final(scan).records@, record);
}

/// A new or changed picture that could not be read is skipped: it adds no record, and nothing is
/// kept of it to be written.
pub proof fn law_unreadable_pictures_are_skipped(
    scan: &mut Scan,
    current: Option<FileFingerprint>,
    kept: Option<CachedImage>,
    outcome: PictureOutcome,
)
    requires
        old(scan)@.well_formed(),
        old(scan)@.processed < old(scan)@.paths.len(),
        call_ensures(Scan::settle, (scan, current, kept, outcome), ()),
        !is_kept_version(current, kept),
        !(outcome is Read),
    ensures
        images(final(scan).records@) == images(old(scan).records@),
        final(scan).processed == old(scan).processed + 1,
        final(scan).reused == old(scan).reused,
        final(scan).skipped == old(scan).skipped + 1,
        final(scan).faces_detected == old(scan).faces_detected,
        final(scan).pending.known() == old(scan).pending.known(),
        final(scan).pending.vectors() == old(scan).pending.vectors(),
{
    assert(due_action(old(scan)@, current, kept) is Read);
    assert(final(scan)@ == after_skip(old(scan)@));
}

/// A picture is read again exactly where its file is not the one that a record is kept of; it is
/// then asked for its vector, its faces and its text exactly as far as the models and the program
/// are at hand. One that is not read again needs a thumbnail only where none is kept.
pub proof fn law_changed_pictures_are_read(
    scan: &Scan,
    current: Option<FileFingerprint>,
    kept: &Option<CachedImage>,
    action: PictureAction,
)
    requires
        call_ensures(Scan::next_action, (scan, current, kept), action),
    ensures
        action is Reuse <==> is_kept_version(current, *kept),
        action matches PictureAction::Reuse { makes_thumbnail } ==> makes_thumbnail == !kept->0.thumbnail_available,
        action matches PictureAction::Read { embeds, finds_faces, reads_text } ==> embeds == scan.image_model
            && finds_faces == scan.face_engine && reads_text == scan.abilities.ocr_available,
{
    if is_kept_version(current, *kept) {
        assert(current->0 == kept->0.fingerprint);
    }
}

/// Taking note of what was written keeps every record with all that is known of it but for its
/// thumbnail, which is let go only of a record that was written to a cache; nothing is left to
/// be written then.
pub proof fn law_writing_loses_no_record(scan: &mut Scan, at: int)
    requires
        old(scan)@.well_formed(),
        call_ensures(Scan::note_flushed, (scan,), ()),
        0 <= at < old(scan).records@.len(),
    ensures
        final(scan).records@.len() == old(scan).records@.len(),
        ({
            let before = old(scan).records@[at]@;
            let after = final(scan).records@[at]@;
            &&& after.id == before.id
            &&& after.path == before.path
            &&& after.filename == before.filename
            &&& after.modified_at == before.modified_at
            &&& after.captured_at == before.captured_at
            &&& after.width == before.width
            &&& after.height == before.height
            &&& after.ocr_text == before.ocr_text
            &&& after.people == before.people
            &&& after.face_group_ids == before.face_group_ids
            &&& after.score == before.score
            &&& after.thumbnail == before.thumbnail || after.thumbnail.len() == 0
            &&& !old(scan).has_cache || at < old(scan).written ==> after.thumbnail == before.thumbnail
            &&& !old(scan).pending.known().contains_key(before.path) ==> after.thumbnail == before.thumbnail
        }),
        final(scan).written == old(scan).records@.len(),
        final(scan).pending_thumbnails == 0,
        old(scan).has_cache ==> final(scan).pending.vectors().len() == 0,
        final(scan).processed == old(scan).processed,
        final(scan).reused == old(scan).reused,
        final(scan).skipped == old(scan).skipped,
        final(scan).faces_detected == old(scan).faces_detected,
{
    let before = images(old(scan).records@);
    let after = images(final(scan).records@);
    assert(after.len() == before.len());
    assert(after[at] == final(scan).records@[at]@);
    assert(before[at] == old(scan).records@[at]@);
    assert(final(scan)@.records[at] == after_flush(old(scan)@).records[at]);
}

/// A scan ends with an index of each of its records once, listed by file name whatever the case
/// of its letters, with the groups of faces as they are given, and reports what it counted.
pub proof fn law_a_scan_ends_with_all_records(
    scan: Scan,
    face_groups: Vec<FaceCluster>,
    has_vectors: bool,
    end: (IndexData, ScanResult),
) -> (order: Seq<usize>)
    requires
        call_ensures(Scan::finish, (scan, face_groups, has_vectors), end),
    ensures
        end.0.images@.len() == scan.records@.len(),
        order.len() == scan.records@.len(),
        forall|k: usize| k < scan.records@.len() ==> #[trigger] order.contains(k),
        forall|k: int|
            0 <= k < end.0.images@.len() ==> order[k] < scan.records@.len() && (#[trigger] end.0.images@[k])@
                == scan.records@[order[k] as int]@,
        forall|i: int, j: int|
            0 <= i < j < end.0.images@.len() ==> !text_before(
                lowercase((#[trigger] end.0.images@[j]).filename@),
                lowercase((#[trigger] end.0.images@[i]).filename@),
            ),
        end.0.face_groups == face_groups,
        end.1.indexed == scan.records@.len(),
        end.1.reused == scan.reused,
        end.1.skipped == scan.skipped,
        end.1.faces_detected == scan.faces_detected,
        end.1.face_groups == face_groups@.len(),
        end.1.root@ == scan.root@,
        end.1.abilities.semantic_available == has_vectors,
        end.1.abilities.ocr_available == scan.abilities.ocr_available,
        end.1.abilities.face_available == scan.abilities.face_available,
        end.1.abilities.clip_gpu_active == scan.abilities.clip_gpu_active,
        end.1.abilities.face_gpu_active == scan.abilities.face_gpu_active,
        end.1.abilities.thumbnail_gpu_requested == scan.abilities.thumbnail_gpu_requested,
        end.1.abilities.ocr_gpu_requested == scan.abilities.ocr_gpu_requested,
        end.1.abilities.ocr_gpu_active == scan.abilities.ocr_gpu_active,
        optional_text(end.1.abilities.gpu_warning) == optional_text(scan.abilities.gpu_warning),
        !end.1.thumbnail_gpu_active,
{
    let records = images(scan.records@);
    let listed = images(end.0.images@);
    let order = choose|order: Seq<usize>| #[trigger]
        lists_by_filename(scan@.records, order) && listed == in_order(scan@.records, order);
    assert(scan@.records == records);
    assert(listed.len() == order.len());
    assert forall|k: usize| k < scan.records@.len() implies #[trigger] order.contains(k) by {
        lemma_order_is_complete(order, records.len(), k);
    }
    assert forall|k: int| 0 <= k < end.0.images@.len() implies order[k] < scan.records@.len() && (
    #[trigger] end.0.images@[k])@ == scan.records@[order[k] as int]@ by {
        assert(order[k] < records.len());
        assert(listed[k] == end.0.images@[k]@);
        assert(records[order[k] as int] == scan.records@[order[k] as int]@);
    }
    assert forall|i: int, j: int| 0 <= i < j < end.0.images@.len() implies !text_before(
        lowercase((#[trigger] end.0.images@[j]).filename@),
        lowercase((#[trigger] end.0.images@[i]).filename@),
    ) by {
        assert(end.0.images@[i]@ == scan.records@[order[i] as int]@);
        assert(end.0.images@[j]@ == scan.records@[order[j] as int]@);
        assert(filename_at_most(records[order[i] as int], records[order[j] as int]));
    }
    order
}

/// What is written is due as soon as a batch is full or too much is held, and not before.
pub proof fn law_full_batches_are_written(scan: &Scan, due: bool)
    requires
        scan@.well_formed(),
        call_ensures(Scan::flush_due, (scan,), due),
    ensures
        scan.records@.len() - scan.written >= scan.batch_size ==> due,
        scan.pending_thumbnails >= 50 ==> due,
        scan.pending.vectors().len() >= 50 ==> due,
        due ==> scan.records@.len() - scan.written >= scan.batch_size || scan.pending_thumbnails >= 50
            || scan.pending.vectors().len() >= 50,
{
    assert(scan@.records.len() == scan.records@.len());
}

/// A face that is taken in adds one to the count, and its group and the name of the group, if it
/// has one, to those listed, unless they are already; nothing that was listed is lost.
pub proof fn law_faces_are_taken_in(
    faces: &mut FoundFaces,
    group_id: String,
    name: Option<String>,
    id: Seq<char>,
    person: Seq<char>,
)
    requires
        old(faces).well_formed(),
        call_ensures(FoundFaces::add_face, (faces, group_id, name), ()),
    ensures
        old(faces).count < usize::MAX ==> final(faces).count == old(faces).count + 1,
        texts(final(faces).group_ids@).contains(id) <==> texts(old(faces).group_ids@).contains(id) || id == group_id@,
        texts(final(faces).people@).contains(person) <==> texts(old(faces).people@).contains(person) || (name is Some
            && name->0@ == person),
        texts(final(faces).group_ids@).no_duplicates(),
        texts(final(faces).people@).no_duplicates(),
{
    lemma_with_new_holds(texts(old(faces).group_ids@), group_id@, id);
    if name is Some {
        lemma_with_new_holds(texts(old(faces).people@), name->0@, person);
    }
}

proof fn lemma_with_new_holds(list: Seq<Seq<char>>, text: Seq<char>, wanted: Seq<char>)
    ensures
        with_new(list, text).contains(wanted) <==> list.contains(wanted) || text == wanted,
{
    let after = with_new(list, text);
    if !list.contains(text) {
        assert(after[list.len() as int] == text);
        if list.contains(wanted) {
            let k = choose|k: int| 0 <= k < list.len() && list[k] == wanted;
            assert(after[k] == wanted);
        }
        if after.contains(wanted) && text != wanted {
            let k = choose|k: int| 0 <= k < after.len() && after[k] == wanted;
            assert(list[k] == wanted);
        }
    }
}

/// A file is new, has changed or has no fingerprint.
pub open spec fn is_changed(candidate: ScanCandidate) -> bool {
    ||| candidate.current is None
    ||| candidate.kept is None
    ||| candidate.current->0.bytes != candidate.kept->0.bytes
    ||| candidate.current->0.modified_ns != candidate.kept->0.modified_ns
}

/// The models are needed exactly where a file is new, has changed or has no fingerprint.
pub proof fn law_models_are_needed_for_changes(candidates: &Vec<ScanCandidate>, needed: bool)
    requires
        call_ensures(needs_processing, (candidates,), needed),
    ensures
        needed <==> exists|k: int| 0 <= k < candidates@.len() && is_changed(#[trigger] candidates@[k]),
{
    assert forall|k: int| 0 <= k < candidates@.len() implies is_changed(#[trigger] candidates@[k])
        == !candidates@[k].unchanged() by {
        let one = candidates@[k];
        if !is_changed(one) {
            assert(one.current->0 == one.kept->0);
        }
    }
}

/// Nothing is warned of where nothing is set to the GPU and no model complained; each setting
/// that does not run on the GPU, and each complaint, is warned of.
pub proof fn law_what_runs_on_the_cpu_is_warned_of(
    settings: &ModelSettings,
    ocr_gpu_active: bool,
    probe: &DirectmlProbe,
    clip_warning: &Option<String>,
    face_warning: &Option<String>,
    warning: Option<String>,
)
    requires
        call_ensures(gpu_warning, (settings, ocr_gpu_active, probe, clip_warning, face_warning), warning),
    ensures
        warning is Some <==> settings.thumbnail_gpu || (settings.ocr_gpu && !ocr_gpu_active) || (!(probe matches DirectmlProbe::Listed(
            true,
        )) && (settings.clip_gpu || settings.face_gpu)) || *clip_warning is Some || *face_warning is Some,
        clip_warning is Some && face_warning is None && !settings.thumbnail_gpu && !settings.ocr_gpu
            && !settings.clip_gpu && !settings.face_gpu ==> warning->0@ == clip_warning->0@,
        face_warning is Some && clip_warning is None && !settings.thumbnail_gpu && !settings.ocr_gpu
            && !settings.clip_gpu && !settings.face_gpu ==> warning->0@ == face_warning->0@,
{
    let all = warnings(
        *settings,
        ocr_gpu_active,
        directml_problem(*probe),
        optional_text(*clip_warning),
        optional_text(*face_warning),
    );
    assert(directml_problem(*probe) is None <==> probe matches DirectmlProbe::Listed(true));
    if all.len() == 1 {
        assert(all.drop_last() =~= Seq::<Seq<char>>::empty());
        assert(joined(all, "；"@) =~= all[0]);
    }
}

/// A scan starts with all pictures of the folder before it and none behind it, and knows the
/// folder, the models and the abilities that it was given.
pub proof fn law_a_scan_starts_with_nothing_done(
    root: String,
    paths: Vec<String>,
    batch_size: usize,
    has_cache: bool,
    image_model: bool,
    face_engine: bool,
    abilities: ScanAbilities,
    scan: Scan,
)
    requires
        call_ensures(
            Scan::start,
            (root, paths, batch_size, has_cache, image_model, face_engine, abilities),
            scan,
        ),
    ensures
        scan.root@ == root@,
        texts(scan.paths@) == texts(paths@),
        batch_size > 0 ==> scan.batch_size == batch_size,
        batch_size == 0 ==> scan.batch_size == 1,
        scan.has_cache == has_cache,
        scan.image_model == image_model,
        scan.face_engine == face_engine,
        scan.abilities@ == abilities@,
        scan.records@.len() == 0,
        scan.written == 0,
        scan.processed == 0,
        scan.reused == 0,
        scan.skipped == 0,
        scan.faces_detected == 0,
        scan.pending_thumbnails == 0,
        scan.pending.vectors().len() == 0,
{
    assert(scan@.records.len() == scan.records@.len());
    assert(scan@.root == root@);
    assert(scan@.batch_size == scan.batch_size);
}

/// What is reported on the way tells how far the scan is and what it found so far; it is reported
/// after every fifth picture and after the last one, and the scan is done once all are behind it.
pub proof fn law_progress_tells_how_far_a_scan_is(
    scan: &Scan,
    measured: Option<u64>,
    progress: ScanProgress,
    due: bool,
    done: bool,
)
    requires
        call_ensures(Scan::progress, (scan, measured), progress),
        call_ensures(Scan::progress_due, (scan,), due),
        call_ensures(Scan::is_done, (scan,), done),
    ensures
        progress.processed == scan.processed,
        progress.total == scan.paths@.len(),
        progress.indexed == scan.records@.len(),
        progress.reused == scan.reused,
        progress.skipped == scan.skipped,
        progress.faces_detected == scan.faces_detected,
        progress.abilities.ocr_available == scan.abilities.ocr_available,
        progress.abilities.semantic_available == scan.abilities.semantic_available,
        progress.abilities.face_available == scan.abilities.face_available,
        done && scan.paths@.len() > 0 ==> progress.eta_seconds == Some(0u64),
        0 < scan.processed < scan.paths@.len() ==> progress.eta_seconds == measured,
        scan.processed == 0 ==> progress.eta_seconds is None,
        scan.processed % 5 == 0 ==> due,
        scan.processed == scan.paths@.len() ==> due,
        due ==> scan.processed % 5 == 0 || scan.processed == scan.paths@.len(),
        done <==> scan.processed >= scan.paths@.len(),
{
    assert(scan@.paths.len() == scan.paths@.len());
    assert(scan@.records.len() == scan.records@.len());
}

/// Of the paths of pictures the first ones are kept, as many as the limit allows, and all of them
/// without one.
pub proof fn law_the_first_pictures_are_indexed(paths: Vec<String>, limit: Option<usize>, kept: Vec<String>, at: int)
    requires
        call_ensures(limit_candidates, (paths, limit), kept),
    ensures
        limit is None ==> kept@.len() == paths@.len(),
        limit is Some && limit->0 >= paths@.len() ==> kept@.len() == paths@.len(),
        limit is Some && limit->0 < paths@.len() ==> kept@.len() == limit->0,
        0 <= at < kept@.len() ==> kept@[at] == paths@[at],
{
}

/// Models are loaded exactly where they are needed, each on the GPU exactly where it is set to and
/// DirectML can be used.
pub proof fn law_models_are_loaded_where_needed(
    needed: bool,
    settings: &ModelSettings,
    probe: &DirectmlProbe,
    plan: ModelPlan,
)
    requires
        call_ensures(plan_models, (needed, settings, probe), plan),
    ensures
        plan.clip is Some <==> needed,
        plan.face is Some <==> needed,
        needed ==> plan.clip->0 == (settings.clip_gpu && (probe matches DirectmlProbe::Listed(true))),
        needed ==> plan.face->0 == (settings.face_gpu && (probe matches DirectmlProbe::Listed(true))),
{
}

/// A scan can read text where the program is there, search by meaning where the model is or the
/// cache has vectors, and tell faces where the models are or the cache has groups.
pub proof fn law_abilities_follow_what_was_found(
    settings: &ModelSettings,
    probe: &DirectmlProbe,
    findings: &ScanFindings,
    abilities: ScanAbilities,
)
    requires
        call_ensures(scan_abilities, (settings, probe, findings), abilities),
    ensures
        abilities.ocr_available <==> findings.ocr_available,
        abilities.semantic_available <==> findings.clip.loaded || findings.has_vectors,
        abilities.face_available <==> findings.face.loaded || findings.has_groups,
        abilities.clip_gpu_active <==> findings.clip.gpu_active,
        abilities.face_gpu_active <==> findings.face.gpu_active,
        abilities.thumbnail_gpu_requested <==> settings.thumbnail_gpu,
        abilities.ocr_gpu_requested <==> settings.ocr_gpu,
        abilities.ocr_gpu_active <==> settings.ocr_gpu && findings.ocr_available && findings.ocr_opencl,
{
}

/// A scan waits exactly while it is paused, and is woken exactly when it is let go on.
pub proof fn law_a_paused_scan_waits(
    control: &mut ScanControl,
    paused: bool,
    wakes: bool,
    after: &ScanControl,
    waits: bool,
)
    requires
        call_ensures(set_scan_paused, (control, paused), wakes),
        *after == *final(control),
        call_ensures(wait_for_scan_resume, (after,), waits),
    ensures
        waits == paused,
        wakes == !paused,
{
}

/// Writing what a scan has found so far puts each record that was not yet written, and whose file
/// has a fingerprint, on disk, the last one of those with the same path.
pub proof fn law_what_was_found_is_written(
    scan: &Scan,
    ops: Vec<CacheOp>,
    tables: CacheTables,
    at: int,
)
    requires
        scan@.well_formed(),
        call_ensures(Scan::flush_ops, (scan,), ops),
        scan.written <= at < scan.records@.len(),
        scan.pending.known().contains_key(scan.records@[at].path@),
        forall|k: int| at < k < scan.records@.len() ==> (#[trigger] scan.records@[k]).path@ != scan.records@[at].path@,
    ensures
        keeps_record(
            apply_all(tables, ops@),
            scan.root@,
            scan.records@[at],
            scan.pending.known()[scan.records@[at].path@],
        ),
{
    let part = scan.records@.skip(scan.written as int);
    assert(images(scan.records@).skip(scan.written as int) =~= images(part));
    assert(part[at - scan.written] == scan.records@[at]);
    assert forall|k: int| at - scan.written < k < part.len() implies (#[trigger] part[k]).path@ != part[at
        - scan.written].path@ by {
        assert(scan.records@[scan.written + k].path@ != scan.records@[at].path@);
    }
    assert(apply_all(tables, ops@) == with_batch(tables, scan@.root, scan@.unwritten()));
    lemma_batch_is_kept(tables, scan.root@, part, scan.pending.known(), scan.pending.vectors(), at - scan.written);
}

/// At the end of a scan all records are listed, by their names whatever the case of the letters.
pub proof fn law_records_are_listed_by_name(
    records: &Vec<ImageRecord>,
    sorted: Vec<ImageRecord>,
    first: int,
    second: int,
    at: int,
)
    requires
        records@.len() <= usize::MAX,
        call_ensures(sort_by_filename, (records,), sorted),
    ensures
        sorted@.len() == records@.len(),
        0 <= first < second < sorted@.len() ==> !text_before(
            lowercase(sorted@[second].filename@),
            lowercase(sorted@[first].filename@),
        ),
        0 <= at < records@.len() ==> exists|k: int| 0 <= k < sorted@.len() && (#[trigger] sorted@[k])@ == records@[at]@,
{
    let all = images(records@);
    let order = choose|order: Seq<usize>| #[trigger]
        lists_by_filename(all, order) && images(sorted@) == in_order(all, order);
    assert(images(sorted@).len() == sorted@.len());
    if 0 <= first < second < sorted@.len() {
        assert(images(sorted@)[first] == all[order[first] as int]);
        assert(images(sorted@)[second] == all[order[second] as int]);
        assert(filename_at_most(all[order[first] as int], all[order[second] as int]));
        lemma_text_order_total(lowercase(sorted@[second].filename@), lowercase(sorted@[first].filename@));
    }
    if 0 <= at < records@.len() {
        lemma_order_is_complete(order, all.len(), at as usize);
        let k = choose|k: int| 0 <= k < order.len() && order[k] == at as usize;
        assert(images(sorted@)[k] == all[at]);
        assert(sorted@[k]@ == records@[at]@);
    }
}

/// A copy of what a scan can do holds all of it.
pub proof fn law_copied_abilities_are_the_same(abilities: &ScanAbilities, copy: ScanAbilities)
    requires
        call_ensures(ScanAbilities::duplicate, (abilities,), copy),
    ensures
        copy.ocr_available == abilities.ocr_available,
        copy.semantic_available == abilities.semantic_available,
        copy.face_available == abilities.face_available,
        copy.clip_gpu_active == abilities.clip_gpu_active,
        copy.face_gpu_active == abilities.face_gpu_active,
        copy.thumbnail_gpu_requested == abilities.thumbnail_gpu_requested,
        copy.ocr_gpu_requested == abilities.ocr_gpu_requested,
        copy.ocr_gpu_active == abilities.ocr_gpu_active,
        copy.gpu_warning is Some == abilities.gpu_warning is Some,
        abilities.gpu_warning is Some ==> copy.gpu_warning->0@ == abilities.gpu_warning->0@,
{
    assert(copy@.gpu_warning == abilities@.gpu_warning);
    assert(copy@.ocr_available == abilities@.ocr_available);
}

/// How long a scan will take is known while it is under way, as far as it was measured; nothing is
/// left of one that is done, and nothing is known of one that has not begun.
pub proof fn law_the_time_left_is_what_was_measured(
    processed: usize,
    total: usize,
    measured: Option<u64>,
    seconds: Option<u64>,
)
    requires
        call_ensures(estimate_remaining_seconds, (processed, total, measured), seconds),
    ensures
        0 < processed < total ==> seconds == measured,
        0 < total <= processed ==> seconds == Some(0u64),
        total == 0 ==> seconds is None,
        processed == 0 ==> seconds is None,
{
}

/// Going on to the next picture changes nothing of what the scan is about. A model for pictures that
/// failed on one is not asked again, and nothing is promised of it; otherwise it stays as it was.
pub proof fn law_a_scan_goes_on_as_it_began(
    scan: &mut Scan,
    current: Option<FileFingerprint>,
    kept: Option<CachedImage>,
    outcome: PictureOutcome,
)
    requires
        old(scan)@.well_formed(),
        old(scan)@.processed < old(scan)@.paths.len(),
        call_ensures(Scan::settle, (scan, current, kept, outcome), ()),
    ensures
        final(scan).root@ == old(scan).root@,
        texts(final(scan).paths@) == texts(old(scan).paths@),
        final(scan).batch_size == old(scan).batch_size,
        final(scan).has_cache == old(scan).has_cache,
        final(scan).face_engine == old(scan).face_engine,
        final(scan).written == old(scan).written,
        final(scan).abilities.ocr_available == old(scan).abilities.ocr_available,
        final(scan).abilities.face_available == old(scan).abilities.face_available,
        final(scan).abilities.clip_gpu_active == old(scan).abilities.clip_gpu_active,
        final(scan).abilities.face_gpu_active == old(scan).abilities.face_gpu_active,
        !is_kept_version(current, kept) && (outcome matches PictureOutcome::Read(_, EmbeddingOutcome::Failed))
            ==> !final(scan).image_model && !final(scan).abilities.semantic_available,
        is_kept_version(current, kept) || !(outcome matches PictureOutcome::Read(_, EmbeddingOutcome::Failed))
            ==> final(scan).image_model == old(scan).image_model && final(scan).abilities.semantic_available
            == old(scan).abilities.semantic_available,
        is_kept_version(current, kept) && !kept->0.thumbnail_available && (outcome matches PictureOutcome::Thumbnail(
            Some(_),
        )) ==> final(scan).pending_thumbnails == old(scan).pending_thumbnails + 1,
        is_kept_version(current, kept) && (kept->0.thumbnail_available || !(
        outcome matches PictureOutcome::Thumbnail(Some(_)))) ==> final(scan).pending_thumbnails
            == old(scan).pending_thumbnails,
        !is_kept_version(current, kept) && !(outcome is Read) ==> final(scan).pending_thumbnails
            == old(scan).pending_thumbnails,
{
    if is_kept_version(current, kept) {
        assert(current->0 == kept->0.fingerprint);
    }
    assert(final(scan)@.root == old(scan)@.root);
    assert(final(scan)@.abilities.ocr_available == final(scan).abilities.ocr_available);
    assert(final(scan)@.pending_thumbnails == final(scan).pending_thumbnails);
}

/// Everything that is set to the GPU and does not run on it is told of, with the reason; what the
/// models warned of follows, that of the model for pictures before that of the models for faces.
pub proof fn law_every_warning_is_told(
    settings: &ModelSettings,
    ocr_gpu_active: bool,
    probe: &DirectmlProbe,
    reason: Option<String>,
    nothing: &Option<String>,
    clip_warning: &Option<String>,
    face_warning: &Option<String>,
    first: Option<String>,
    second: Option<String>,
    warning: Option<String>,
)
    requires
        *nothing is None,
        call_ensures(directml_error, (probe,), reason),
        call_ensures(gpu_warning, (settings, ocr_gpu_active, probe, nothing, nothing), first),
        call_ensures(gpu_warning, (settings, ocr_gpu_active, probe, clip_warning, nothing), second),
        call_ensures(gpu_warning, (settings, ocr_gpu_active, probe, clip_warning, face_warning), warning),
    ensures
        settings.thumbnail_gpu ==> first is Some && holds_text(
            first->0@,
            "縮圖 GPU：目前影像解碼、縮放與 JPEG 編碼仍由 CPU 執行；此選項尚無可用的 GPU 後端"@,
        ),
        settings.ocr_gpu && !ocr_gpu_active ==> first is Some && holds_text(
            first->0@,
            "OCR GPU：目前 Tesseract 未回報 OpenCL 支援，已使用 CPU"@,
        ),
        settings.clip_gpu && reason is Some ==> first is Some && holds_text(
            first->0@,
            "CLIP"@ + " GPU："@ + reason->0@ + "，已使用 CPU"@,
        ),
        settings.face_gpu && reason is Some ==> first is Some && holds_text(
            first->0@,
            "Face"@ + " GPU："@ + reason->0@ + "，已使用 CPU"@,
        ),
        first is Some ==> settings.thumbnail_gpu || settings.ocr_gpu && !ocr_gpu_active || reason is Some && (
        settings.clip_gpu || settings.face_gpu),
        clip_warning is None ==> optional_text(second) == optional_text(first),
        clip_warning is Some ==> second is Some && second->0@ == (if first is Some {
            first->0@ + "；"@ + clip_warning->0@
        } else {
            clip_warning->0@
        }),
        face_warning is None ==> optional_text(warning) == optional_text(second),
        face_warning is Some ==> warning is Some && warning->0@ == (if second is Some {
            second->0@ + "；"@ + face_warning->0@
        } else {
            face_warning->0@
        }),
{
    let problem = directml_problem(*probe);
    let base = warnings(*settings, ocr_gpu_active, problem, None, None);
    let with_clip = warnings(*settings, ocr_gpu_active, problem, optional_text(*clip_warning), None);
    let all = warnings(*settings, ocr_gpu_active, problem, optional_text(*clip_warning), optional_text(*face_warning));
    assert(with_clip =~= base + if_there(optional_text(*clip_warning)));
    assert(all =~= with_clip + if_there(optional_text(*face_warning)));
    lemma_one_more_is_joined(base, optional_text(*clip_warning));
    lemma_one_more_is_joined(with_clip, optional_text(*face_warning));
    let second_place: int = if settings.thumbnail_gpu { 1 } else { 0 };
    let third_place: int = second_place + if settings.ocr_gpu && !ocr_gpu_active { 1int } else { 0 };
    let fourth_place: int = third_place + if settings.clip_gpu { 1int } else { 0 };
    if settings.thumbnail_gpu {
        lemma_joined_tells(base, 0);
    }
    if settings.ocr_gpu && !ocr_gpu_active {
        lemma_joined_tells(base, second_place);
    }
    if settings.clip_gpu && reason is Some {
        lemma_joined_tells(base, third_place);
    }
    if settings.face_gpu && reason is Some {
        lemma_joined_tells(base, fourth_place);
    }
}

/// A joined list of warnings holds each of them.
proof fn lemma_joined_tells(parts: Seq<Seq<char>>, at: int)
    requires
        0 <= at < parts.len(),
    ensures
        holds_text(joined(parts, "；"@), parts[at]),
{
    let nothing = Seq::<char>::empty();
    lemma_text_is_held(nothing, parts[at], nothing);
    assert(nothing + parts[at] + nothing =~= parts[at]);
    lemma_joined_holds(parts, "；"@, at, parts[at]);
}

/// One more warning stands behind the others.
proof fn lemma_one_more_is_joined(parts: Seq<Seq<char>>, more: Option<Seq<char>>)
    ensures
        ({
            let all = parts + if_there(more);
            &&& more is None ==> all == parts
            &&& more is Some && parts.len() > 0 ==> joined(all, "；"@) == joined(parts, "；"@) + "；"@ + more->0
            &&& more is Some && parts.len() == 0 ==> joined(all, "；"@) == more->0
        }),
{
    let all = parts + if_there(more);
    if more is None {
        assert(all =~= parts);
    } else {
        assert(all.drop_last() =~= parts);
        assert(all.last() == more->0);
        if parts.len() == 0 {
            assert(joined(all, "；"@) =~= more->0);
        }
    }
}

} // verus!
