//! Settings: how many pictures are indexed, how they are written, and what runs on the GPU.

use vstd::prelude::*;

verus! {

/// How many pictures are indexed at most, unless it is set.
pub const DEFAULT_MAX_INDEXED_IMAGES: usize = 3_000;

/// How many pictures are written at a time, unless it is set.
pub const DEFAULT_INDEX_BATCH_SIZE: usize = 50;

/// The settings.
#[derive(Debug, Clone, Copy, PartialEq, Eq, Structural)]
pub struct ModelSettings {
    pub max_indexed_images: Option<usize>,
    pub index_batch_size: usize,
    pub thumbnail_gpu: bool,
    pub ocr_gpu: bool,
    pub clip_gpu: bool,
    pub face_gpu: bool,
}

/// The settings that nothing has changed.
pub open spec fn default_settings() -> ModelSettings {
    ModelSettings {
        max_indexed_images: Some(DEFAULT_MAX_INDEXED_IMAGES),
        index_batch_size: DEFAULT_INDEX_BATCH_SIZE,
        thumbnail_gpu: false,
        ocr_gpu: false,
        clip_gpu: false,
        face_gpu: false,
    }
}

impl Default for ModelSettings {
    fn default() -> (settings: Self)
        ensures
            settings == default_settings(),
    {
        ModelSettings {
            max_indexed_images: Some(DEFAULT_MAX_INDEXED_IMAGES),
            index_batch_size: DEFAULT_INDEX_BATCH_SIZE,
            thumbnail_gpu: false,
            ocr_gpu: false,
            clip_gpu: false,
            face_gpu: false,
        }
    }
}

/// Settings as they were saved, perhaps by a version that knew fewer of them: what is
/// absent was not saved.
#[derive(Debug, Clone, Copy)]
pub struct SavedSettings {
    pub max_indexed_images: Option<Option<usize>>,
    pub index_batch_size: Option<usize>,
    pub thumbnail_gpu: Option<bool>,
    pub ocr_gpu: Option<bool>,
    pub clip_gpu: Option<bool>,
    pub face_gpu: Option<bool>,
}

/// What was saved, or else a default.
pub open spec fn saved_or<T>(saved: Option<T>, default_value: T) -> T {
    match saved {
        Some(value) => value,
        None => default_value,
    }
}

/// The settings that were saved, with the defaults for those that were not.
pub open spec fn completed(saved: SavedSettings) -> ModelSettings {
    ModelSettings {
        max_indexed_images: saved_or(saved.max_indexed_images, default_settings().max_indexed_images),
        index_batch_size: saved_or(saved.index_batch_size, default_settings().index_batch_size),
        thumbnail_gpu: saved_or(saved.thumbnail_gpu, default_settings().thumbnail_gpu),
        ocr_gpu: saved_or(saved.ocr_gpu, default_settings().ocr_gpu),
        clip_gpu: saved_or(saved.clip_gpu, default_settings().clip_gpu),
        face_gpu: saved_or(saved.face_gpu, default_settings().face_gpu),
    }
}

fn take_or<T>(saved: Option<T>, default_value: T) -> (value: T)
    ensures
        value == saved_or(saved, default_value),
{
    match saved {
        Some(value) => value,
        None => default_value,
    }
}

/// The settings that were saved, or the defaults where nothing was or it cannot be read.
pub fn load_settings(saved: Option<SavedSettings>) -> (settings: ModelSettings)
    ensures
        settings == match saved {
            Some(saved) => completed(saved),
            None => default_settings(),
        },
{
    let defaults: ModelSettings = ModelSettings::default();
    match saved {
        Some(saved) => ModelSettings {
            max_indexed_images: take_or(saved.max_indexed_images, defaults.max_indexed_images),
            index_batch_size: take_or(saved.index_batch_size, defaults.index_batch_size),
            thumbnail_gpu: take_or(saved.thumbnail_gpu, defaults.thumbnail_gpu),
            ocr_gpu: take_or(saved.ocr_gpu, defaults.ocr_gpu),
            clip_gpu: take_or(saved.clip_gpu, defaults.clip_gpu),
            face_gpu: take_or(saved.face_gpu, defaults.face_gpu),
        },
        None => defaults,
    }
}

/// Settings that are saved whole come back as they were.
pub proof fn law_saved_settings_come_back(settings: ModelSettings)
    ensures
        completed(
            SavedSettings {
                max_indexed_images: Some(settings.max_indexed_images),
                index_batch_size: Some(settings.index_batch_size),
                thumbnail_gpu: Some(settings.thumbnail_gpu),
                ocr_gpu: Some(settings.ocr_gpu),
                clip_gpu: Some(settings.clip_gpu),
                face_gpu: Some(settings.face_gpu),
            },
        ) == settings,
{
}

/// Checks new settings: at least one picture is indexed and written at a time.
pub fn check_settings(settings: &ModelSettings) -> (result: Result<(), String>)
    ensures
        match result {
            Ok(()) => settings.max_indexed_images != Some(0usize) && settings.index_batch_size > 0,
            Err(message) => if settings.max_indexed_images == Some(0usize) {
                message@ == "圖片上限至少必須是 1，或選擇無上限。"@
            } else {
                settings.index_batch_size == 0 && message@ == "SQLite 每批寫入張數至少必須是 1。"@
            },
        },
{
    let none: bool = match settings.max_indexed_images {
        Some(limit) => limit == 0,
        None => false,
    };
    if none {
        return Err("圖片上限至少必須是 1，或選擇無上限。".to_owned());
    }
    if settings.index_batch_size == 0 {
        return Err("SQLite 每批寫入張數至少必須是 1。".to_owned());
    }
    Ok(())
}

/// What comes of new settings.
pub struct SettingsChange {
    pub settings: ModelSettings,
    pub drops_text_model: bool,
}

/// Takes new settings in: the model for search texts is dropped where it is to run
/// elsewhere than before. Settings that do not pass the check change nothing.
pub fn update_model_settings(current: &ModelSettings, settings: ModelSettings) -> (result: Result<SettingsChange, String>)
    ensures
        match result {
            Ok(change) => {
                &&& settings.max_indexed_images != Some(0usize)
                &&& settings.index_batch_size > 0
                &&& change.settings == settings
                &&& change.drops_text_model == (current.clip_gpu != settings.clip_gpu)
            },
            Err(message) => if settings.max_indexed_images == Some(0usize) {
                message@ == "圖片上限至少必須是 1，或選擇無上限。"@
            } else {
                settings.index_batch_size == 0 && message@ == "SQLite 每批寫入張數至少必須是 1。"@
            },
        },
{
    match check_settings(&settings) {
        Ok(()) => Ok(
            SettingsChange { settings, drops_text_model: current.clip_gpu != settings.clip_gpu },
        ),
        Err(message) => Err(message),
    }
}

/// What is shown of the settings.
pub struct SettingsInfo {
    pub settings: ModelSettings,
    pub directml_available: bool,
    pub directml_error: Option<String>,
    pub thumbnail_gpu_available: bool,
    pub ocr_gpu_experimental: bool,
}

/// What is shown of the settings, given why DirectML cannot be used, if it cannot.
pub fn settings_info(settings: ModelSettings, directml_error: Option<String>) -> (info: SettingsInfo)
    ensures
        info.settings == settings,
        info.directml_available == (directml_error is None),
        info.directml_error == directml_error,
        !info.thumbnail_gpu_available,
        info.ocr_gpu_experimental,
{
    SettingsInfo {
        settings,
        directml_available: directml_error.is_none(),
        directml_error,
        thumbnail_gpu_available: false,
        ocr_gpu_experimental: true,
    }
}

/// Each setting that was saved is loaded as it was saved, and each that was not has its default:
/// 3000 pictures, 50 of them written at a time, and nothing on the GPU.
pub proof fn law_saved_settings_are_loaded(saved: Option<SavedSettings>, settings: ModelSettings)
    requires
        call_ensures(load_settings, (saved,), settings),
    ensures
        saved is Some && saved->0.max_indexed_images is Some ==> settings.max_indexed_images
            == saved->0.max_indexed_images->0,
        saved is Some && saved->0.index_batch_size is Some ==> settings.index_batch_size == saved->0.index_batch_size->0,
        saved is Some && saved->0.thumbnail_gpu is Some ==> settings.thumbnail_gpu == saved->0.thumbnail_gpu->0,
        saved is Some && saved->0.ocr_gpu is Some ==> settings.ocr_gpu == saved->0.ocr_gpu->0,
        saved is Some && saved->0.clip_gpu is Some ==> settings.clip_gpu == saved->0.clip_gpu->0,
        saved is Some && saved->0.face_gpu is Some ==> settings.face_gpu == saved->0.face_gpu->0,
        saved is None || saved->0.max_indexed_images is None ==> settings.max_indexed_images == Some(3000usize),
        saved is None || saved->0.index_batch_size is None ==> settings.index_batch_size == 50,
        saved is None || saved->0.thumbnail_gpu is None ==> !settings.thumbnail_gpu,
        saved is None || saved->0.ocr_gpu is None ==> !settings.ocr_gpu,
        saved is None || saved->0.clip_gpu is None ==> !settings.clip_gpu,
        saved is None || saved->0.face_gpu is None ==> !settings.face_gpu,
{
}

/// New settings are taken exactly where at least one picture is indexed and written at a time; they
/// are then the settings, field by field. The model for search texts is dropped exactly where it is
/// to run elsewhere.
pub proof fn law_sound_settings_are_taken(
    current: &ModelSettings,
    settings: ModelSettings,
    result: Result<SettingsChange, String>,
    given: &ModelSettings,
    checked: Result<(), String>,
)
    requires
        call_ensures(update_model_settings, (current, settings), result),
        *given == settings,
        call_ensures(check_settings, (given,), checked),
    ensures
        result is Ok <==> settings.max_indexed_images != Some(0usize) && settings.index_batch_size != 0,
        checked is Ok <==> result is Ok,
        checked is Err ==> result->Err_0@ == checked->Err_0@,
        settings.max_indexed_images == Some(0usize) ==> result->Err_0@ == "圖片上限至少必須是 1，或選擇無上限。"@,
        settings.max_indexed_images != Some(0usize) && settings.index_batch_size == 0 ==> result->Err_0@
            == "SQLite 每批寫入張數至少必須是 1。"@,
        result is Ok ==> ({
            let taken = result->Ok_0.settings;
            &&& taken.max_indexed_images == settings.max_indexed_images
            &&& taken.index_batch_size == settings.index_batch_size
            &&& taken.thumbnail_gpu == settings.thumbnail_gpu
            &&& taken.ocr_gpu == settings.ocr_gpu
            &&& taken.clip_gpu == settings.clip_gpu
            &&& taken.face_gpu == settings.face_gpu
            &&& result->Ok_0.drops_text_model <==> current.clip_gpu != settings.clip_gpu
        }),
{
}

/// What is shown of the settings are the settings, and whether DirectML can be used.
pub proof fn law_settings_are_shown(settings: ModelSettings, directml_error: Option<String>, info: SettingsInfo)
    requires
        call_ensures(settings_info, (settings, directml_error), info),
    ensures
        info.settings == settings,
        info.directml_available <==> directml_error is None,
        info.directml_error == directml_error,
        !info.thumbnail_gpu_available,
        info.ocr_gpu_experimental,
{
}

} // verus!
