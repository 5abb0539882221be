use local_lens::runtime::{
    directml_available, directml_error, directml_status, embed_queries, face_engine_outcome, face_model_source,
    image_model_outcome, keeps_text_model, load_face_engine, load_image_embedding, tries_text_model_on_gpu,
    DirectmlProbe, FaceModelSource, LoadAttempts, LoadStep,
};
use local_lens::settings::{
    check_settings, load_settings, settings_info, update_model_settings, ModelSettings, SavedSettings,
    DEFAULT_INDEX_BATCH_SIZE, DEFAULT_MAX_INDEXED_IMAGES,
};

fn saved(text: &str) -> SavedSettings {
    let value: serde_json::Value = serde_json::from_str(text).unwrap();
    let flag = |name: &str| value.get(name).and_then(|value| value.as_bool());
    SavedSettings {
        max_indexed_images: value.get("max_indexed_images").map(|value| value.as_u64().map(|value| value as usize)),
        index_batch_size: value.get("index_batch_size").and_then(|value| value.as_u64()).map(|value| value as usize),
        thumbnail_gpu: flag("thumbnail_gpu"),
        ocr_gpu: flag("ocr_gpu"),
        clip_gpu: flag("clip_gpu"),
        face_gpu: flag("face_gpu"),
    }
}

#[test]
fn model_settings_are_backward_compatible() {
    let settings: ModelSettings = load_settings(Some(saved(r#"{"clip_gpu":true}"#)));
    assert!(settings.clip_gpu);
    assert_eq!(settings.max_indexed_images, Some(DEFAULT_MAX_INDEXED_IMAGES));
    assert_eq!(settings.index_batch_size, DEFAULT_INDEX_BATCH_SIZE);
    assert!(!settings.thumbnail_gpu);
    assert!(!settings.face_gpu);
    assert!(!settings.ocr_gpu);
}

#[test]
fn settings_that_cannot_be_read_are_the_defaults() {
    assert_eq!(load_settings(None), ModelSettings::default());
    assert_eq!(DEFAULT_MAX_INDEXED_IMAGES, 3000);
    assert_eq!(DEFAULT_INDEX_BATCH_SIZE, 50);
}

#[test]
fn settings_saved_whole_come_back() {
    let settings = load_settings(Some(saved(
        r#"{"max_indexed_images":null,"index_batch_size":7,"thumbnail_gpu":true,"ocr_gpu":true,"clip_gpu":false,"face_gpu":true}"#,
    )));
    assert_eq!(
        settings,
        ModelSettings {
            max_indexed_images: None,
            index_batch_size: 7,
            thumbnail_gpu: true,
            ocr_gpu: true,
            clip_gpu: false,
            face_gpu: true,
        }
    );
}

#[test]
fn settings_of_nothing_are_refused() {
    let mut settings = ModelSettings::default();
    assert!(check_settings(&settings).is_ok());
    settings.index_batch_size = 0;
    assert_eq!(check_settings(&settings), Err("SQLite 每批寫入張數至少必須是 1。".to_owned()));
    settings.max_indexed_images = Some(0);
    assert_eq!(check_settings(&settings), Err("圖片上限至少必須是 1，或選擇無上限。".to_owned()));
    settings = ModelSettings { max_indexed_images: None, ..ModelSettings::default() };
    assert!(check_settings(&settings).is_ok());
}

#[test]
fn the_text_model_is_dropped_when_its_backend_changes() {
    let current = ModelSettings::default();
    let mut next = current;
    next.clip_gpu = true;
    let change = update_model_settings(&current, next).ok().unwrap();
    assert!(change.drops_text_model);
    assert_eq!(change.settings, next);
    next.clip_gpu = false;
    next.face_gpu = true;
    assert!(!update_model_settings(&current, next).ok().unwrap().drops_text_model);
    next.index_batch_size = 0;
    assert!(update_model_settings(&current, next).is_err());
}

#[test]
fn settings_are_shown_with_what_the_machine_can_do() {
    let info = settings_info(ModelSettings::default(), Some("reason".to_owned()));
    assert!(!info.directml_available);
    assert_eq!(info.directml_error.as_deref(), Some("reason"));
    assert!(!info.thumbnail_gpu_available);
    assert!(info.ocr_gpu_experimental);
    assert!(settings_info(ModelSettings::default(), None).directml_available);
}

#[test]
fn directml_capability_probe_is_safe() {
    let _ = directml_available(&DirectmlProbe::Unsupported);
    let _ = directml_available(&DirectmlProbe::Listed(true));
    let _ = directml_available(&DirectmlProbe::Listed(false));
    let _ = directml_available(&DirectmlProbe::Failed(String::new()));
}

#[test]
fn directml_tells_why_it_cannot_be_used() {
    assert!(directml_available(&DirectmlProbe::Listed(true)));
    assert_eq!(directml_status(&DirectmlProbe::Listed(true)), Ok(()));
    assert_eq!(directml_error(&DirectmlProbe::Listed(true)), None);
    assert_eq!(directml_error(&DirectmlProbe::Unsupported).as_deref(), Some("DirectML 僅支援 Windows"));
    assert_eq!(
        directml_status(&DirectmlProbe::Failed("x".to_owned())),
        Err("無法列舉 ONNX Runtime 執行後端：x".to_owned())
    );
    assert_eq!(
        directml_error(&DirectmlProbe::Listed(false)).as_deref(),
        Some("目前載入的 ONNX Runtime 沒有 DirectML 執行後端")
    );
}

#[test]
fn models_fall_back_to_the_cpu() {
    let mut attempts = LoadAttempts { gpu: None, cpu: None };
    assert!(matches!(load_image_embedding(true, &attempts), LoadStep::TryGpu));
    assert!(matches!(load_image_embedding(false, &attempts), LoadStep::TryCpu));
    attempts.gpu = Some(Err("no device".to_owned()));
    assert!(matches!(load_image_embedding(true, &attempts), LoadStep::TryCpu));
    attempts.cpu = Some(Ok(()));
    let outcome = image_model_outcome(load_image_embedding(true, &attempts));
    assert!(outcome.loaded && !outcome.gpu_active);
    assert_eq!(outcome.warning.as_deref(), Some("CLIP GPU 初始化失敗：no device"));
    attempts.cpu = Some(Err("no file".to_owned()));
    let lost = image_model_outcome(load_image_embedding(true, &attempts));
    assert!(!lost.loaded);
    assert_eq!(lost.warning.as_deref(), Some("CLIP GPU 初始化失敗：no device"));
    let faces = face_engine_outcome(load_face_engine(true, &attempts));
    assert!(!faces.loaded);
    assert_eq!(faces.warning.as_deref(), Some("無法載入人臉模型：no file"));
    attempts.gpu = Some(Ok(()));
    let fast = face_engine_outcome(load_face_engine(true, &attempts));
    assert!(fast.loaded && fast.gpu_active);
    assert_eq!(fast.warning, None);
    let plain = face_engine_outcome(load_face_engine(false, &LoadAttempts { gpu: None, cpu: Some(Ok(())) }));
    assert!(plain.loaded && !plain.gpu_active);
    assert_eq!(plain.warning, None);
}

#[test]
fn face_models_come_from_the_environment_only_in_pairs() {
    assert_eq!(face_model_source(Some(true), Some(true)), FaceModelSource::Environment);
    assert_eq!(face_model_source(Some(true), Some(false)), FaceModelSource::Repository);
    assert_eq!(face_model_source(Some(true), None), FaceModelSource::Repository);
    assert_eq!(face_model_source(None, None), FaceModelSource::Repository);
}

#[test]
fn the_text_model_is_kept_for_its_backend() {
    assert!(keeps_text_model(Some(true), true));
    assert!(!keeps_text_model(Some(true), false));
    assert!(!keeps_text_model(None, false));
    assert!(tries_text_model_on_gpu(true, &DirectmlProbe::Listed(true)));
    assert!(!tries_text_model_on_gpu(true, &DirectmlProbe::Unsupported));
    assert!(!tries_text_model_on_gpu(false, &DirectmlProbe::Listed(true)));
    assert_eq!(embed_queries("beach"), vec!["beach", "a photo of beach"]);
}
