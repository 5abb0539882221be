//! Which models are loaded, and on which backend they run.
//!
//! Loading a model is left to the caller: the functions of this module say what to try
//! next, given what has been tried.

use vstd::prelude::*;

use crate::text::{append_chars, chars_of, string_of, texts};

verus! {

// ---------------------------------------------------------------------------
// DirectML
// ---------------------------------------------------------------------------

/// What was found out about DirectML.
#[derive(Debug, Clone)]
pub enum DirectmlProbe {
    /// The platform is not Windows.
    Unsupported,
    /// The backends could not be listed.
    Failed(String),
    /// They could, and it is among them or not.
    Listed(bool),
}

/// Why DirectML cannot be used, if it cannot.
pub open spec fn directml_problem(probe: DirectmlProbe) -> Option<Seq<char>> {
    match probe {
        DirectmlProbe::Unsupported => Some("DirectML 僅支援 Windows"@),
        DirectmlProbe::Failed(reason) => Some("無法列舉 ONNX Runtime 執行後端："@ + reason@),
        DirectmlProbe::Listed(true) => None,
        DirectmlProbe::Listed(false) => Some("目前載入的 ONNX Runtime 沒有 DirectML 執行後端"@),
    }
}

/// Two texts, one after the other.
fn concatenate(left: &str, right: &str) -> (text: String)
    ensures
        text@ == left@ + right@,
{
    let mut chars: Vec<char> = chars_of(left);
    append_chars(&mut chars, &chars_of(right));
    string_of(&chars)
}

/// Whether DirectML can be used, and why not.
pub fn directml_status(probe: &DirectmlProbe) -> (status: Result<(), String>)
    ensures
        match status {
            Ok(()) => directml_problem(*probe) is None,
            Err(reason) => directml_problem(*probe) == Some(reason@),
        },
{
    match probe {
        DirectmlProbe::Unsupported => Err("DirectML 僅支援 Windows".to_owned()),
        DirectmlProbe::Failed(reason) => Err(concatenate("無法列舉 ONNX Runtime 執行後端：", reason.as_str())),
        DirectmlProbe::Listed(listed) => {
            if *listed {
                Ok(())
            } else {
                Err("目前載入的 ONNX Runtime 沒有 DirectML 執行後端".to_owned())
            }
        },
    }
}

/// Whether DirectML can be used.
pub fn directml_available(probe: &DirectmlProbe) -> (available: bool)
    ensures
        available == (directml_problem(*probe) is None),
{
    directml_status(probe).is_ok()
}

/// Why DirectML cannot be used, if it cannot.
pub fn directml_error(probe: &DirectmlProbe) -> (reason: Option<String>)
    ensures
        match reason {
            Some(reason) => directml_problem(*probe) == Some(reason@),
            None => directml_problem(*probe) is None,
        },
{
    match directml_status(probe) {
        Ok(()) => None,
        Err(reason) => Some(reason),
    }
}

// ---------------------------------------------------------------------------
// Loading models
// ---------------------------------------------------------------------------

/// What has been tried to load a model: on the GPU and on the CPU, each with its outcome.
#[derive(Debug, Clone)]
pub struct LoadAttempts {
    pub gpu: Option<Result<(), String>>,
    pub cpu: Option<Result<(), String>>,
}

/// What to do next to load a model.
#[derive(Debug, Clone)]
pub enum LoadStep {
    /// Load it on the GPU.
    TryGpu,
    /// Load it on the CPU.
    TryCpu,
    /// Go on with the model of the GPU.
    UseGpu,
    /// Go on with the model of the CPU; the text says why it is not that of the GPU,
    /// where that was tried.
    UseCpu(Option<String>),
    /// Go on without a model: why not on the GPU, where that was tried, and why not on
    /// the CPU.
    Give(Option<String>, String),
}

/// Why a model does not run on the GPU, where that was tried.
pub open spec fn gpu_failure(attempts: LoadAttempts, complaint: Seq<char>) -> Option<Seq<char>> {
    match attempts.gpu {
        Some(Err(reason)) => Some(complaint + reason@),
        _ => None,
    }
}

/// An optional string holds the reason that is given, or none where none is.
pub open spec fn same_reason(text: Option<String>, reason: Option<Seq<char>>) -> bool {
    match text {
        Some(text) => reason == Some(text@),
        None => reason is None,
    }
}

/// A step is the one that is due: the GPU first, if it is asked for, and the CPU where
/// it fails or is not.
pub open spec fn is_due(
    step: LoadStep,
    use_gpu: bool,
    attempts: LoadAttempts,
    complaint: Seq<char>,
    cpu_complaint: Seq<char>,
) -> bool {
    if use_gpu && attempts.gpu is None {
        step is TryGpu
    } else if use_gpu && attempts.gpu->0 is Ok {
        step is UseGpu
    } else {
        let failure = if use_gpu {
            gpu_failure(attempts, complaint)
        } else {
            None
        };
        match attempts.cpu {
            None => step is TryCpu,
            Some(Ok(())) => step matches LoadStep::UseCpu(reason) && same_reason(reason, failure),
            Some(Err(problem)) => step matches LoadStep::Give(reason, message) && same_reason(reason, failure)
                && message@ == cpu_complaint + problem@,
        }
    }
}

fn next_step(use_gpu: bool, attempts: &LoadAttempts, complaint: &str, cpu_complaint: &str) -> (step: LoadStep)
    ensures
        is_due(step, use_gpu, *attempts, complaint@, cpu_complaint@),
{
    let mut failure: Option<String> = None;
    if use_gpu {
        match &attempts.gpu {
            None => {
                return LoadStep::TryGpu;
            },
            Some(Ok(())) => {
                return LoadStep::UseGpu;
            },
            Some(Err(reason)) => {
                failure = Some(concatenate(complaint, reason.as_str()));
            },
        }
    }
    match &attempts.cpu {
        None => LoadStep::TryCpu,
        Some(Ok(())) => LoadStep::UseCpu(failure),
        Some(Err(problem)) => LoadStep::Give(failure, concatenate(cpu_complaint, problem.as_str())),
    }
}

/// What to do next to load the model for pictures.
pub fn load_image_embedding(use_gpu: bool, attempts: &LoadAttempts) -> (step: LoadStep)
    ensures
        is_due(step, use_gpu, *attempts, "CLIP GPU 初始化失敗："@, "無法載入 CLIP 模型："@),
{
    next_step(use_gpu, attempts, "CLIP GPU 初始化失敗：", "無法載入 CLIP 模型：")
}

/// What to do next to load the models for faces.
pub fn load_face_engine(use_gpu: bool, attempts: &LoadAttempts) -> (step: LoadStep)
    ensures
        is_due(step, use_gpu, *attempts, "Face GPU 初始化失敗："@, "無法載入人臉模型："@),
{
    next_step(use_gpu, attempts, "Face GPU 初始化失敗：", "無法載入人臉模型：")
}

/// A failure on the GPU leads to the CPU, and nothing is tried twice.
pub proof fn law_loading_falls_back_to_the_cpu(
    step: LoadStep,
    use_gpu: bool,
    attempts: LoadAttempts,
    complaint: Seq<char>,
    cpu_complaint: Seq<char>,
)
    requires
        is_due(step, use_gpu, attempts, complaint, cpu_complaint),
    ensures
        step is TryGpu ==> attempts.gpu is None,
        step is TryCpu ==> attempts.cpu is None,
        use_gpu && attempts.gpu is Some && attempts.gpu->0 is Err && attempts.cpu is None ==> step is TryCpu,
        !use_gpu ==> !(step is TryGpu) && !(step is UseGpu),
        attempts.gpu is Some && attempts.cpu is Some ==> step is UseGpu || step is UseCpu || step is Give,
{
}

/// What came of loading a model.
#[derive(Debug, Clone)]
pub struct LoadOutcome {
    pub loaded: bool,
    pub gpu_active: bool,
    pub warning: Option<String>,
}

/// What came of loading the model for pictures: a failure on the GPU is a warning, one on
/// the CPU leaves the search without it.
pub fn image_model_outcome(step: LoadStep) -> (outcome: LoadOutcome)
    ensures
        outcome == (match step {
            LoadStep::UseGpu => LoadOutcome { loaded: true, gpu_active: true, warning: None },
            LoadStep::UseCpu(warning) => LoadOutcome { loaded: true, gpu_active: false, warning },
            LoadStep::Give(warning, _) => LoadOutcome { loaded: false, gpu_active: false, warning },
            _ => LoadOutcome { loaded: false, gpu_active: false, warning: None },
        }),
{
    match step {
        LoadStep::UseGpu => LoadOutcome { loaded: true, gpu_active: true, warning: None },
        LoadStep::UseCpu(warning) => LoadOutcome { loaded: true, gpu_active: false, warning },
        LoadStep::Give(warning, _) => LoadOutcome { loaded: false, gpu_active: false, warning },
        _ => LoadOutcome { loaded: false, gpu_active: false, warning: None },
    }
}

/// What came of loading the models for faces: a failure on either is a warning, that on
/// the CPU before that on the GPU.
pub fn face_engine_outcome(step: LoadStep) -> (outcome: LoadOutcome)
    ensures
        outcome == (match step {
            LoadStep::UseGpu => LoadOutcome { loaded: true, gpu_active: true, warning: None },
            LoadStep::UseCpu(warning) => LoadOutcome { loaded: true, gpu_active: false, warning },
            LoadStep::Give(_, message) => LoadOutcome { loaded: false, gpu_active: false, warning: Some(message) },
            _ => LoadOutcome { loaded: false, gpu_active: false, warning: None },
        }),
{
    match step {
        LoadStep::UseGpu => LoadOutcome { loaded: true, gpu_active: true, warning: None },
        LoadStep::UseCpu(warning) => LoadOutcome { loaded: true, gpu_active: false, warning },
        LoadStep::Give(_, message) => LoadOutcome { loaded: false, gpu_active: false, warning: Some(message) },
        _ => LoadOutcome { loaded: false, gpu_active: false, warning: None },
    }
}

/// Where the models for faces come from.
#[derive(Debug, Clone, Copy, PartialEq, Eq, Structural)]
pub enum FaceModelSource {
    /// From the two files that the environment names.
    Environment,
    /// From the repository.
    Repository,
}

/// Where the models for faces come from: the environment counts if it names both files
/// and both are there. Each argument tells, of a name that is set, whether there is such
/// a file.
pub fn face_model_source(detector: Option<bool>, recognizer: Option<bool>) -> (source: FaceModelSource)
    ensures
        source == if detector == Some(true) && recognizer == Some(true) {
            FaceModelSource::Environment
        } else {
            FaceModelSource::Repository
        },
{
    match (detector, recognizer) {
        (Some(detector), Some(recognizer)) => {
            if detector && recognizer {
                FaceModelSource::Environment
            } else {
                FaceModelSource::Repository
            }
        },
        _ => FaceModelSource::Repository,
    }
}

// ---------------------------------------------------------------------------
// The model for search texts
// ---------------------------------------------------------------------------

/// Whether the model for search texts that is at hand is kept: there is one, and it was
/// loaded for the same backend. `loaded_for_gpu` tells for which one, if there is one.
pub fn keeps_text_model(loaded_for_gpu: Option<bool>, use_gpu: bool) -> (kept: bool)
    ensures
        kept == (loaded_for_gpu == Some(use_gpu)),
{
    match loaded_for_gpu {
        Some(loaded_for_gpu) => loaded_for_gpu == use_gpu,
        None => false,
    }
}

/// Whether the model for search texts is first tried on the GPU.
pub fn tries_text_model_on_gpu(use_gpu: bool, probe: &DirectmlProbe) -> (tried: bool)
    ensures
        tried == (use_gpu && directml_problem(*probe) is None),
{
    use_gpu && directml_available(probe)
}

/// The texts that a picture is compared with: the search text, and the same as a caption.
pub fn embed_queries(query: &str) -> (prompts: Vec<String>)
    ensures
        texts(prompts@) == seq![query@, "a photo of "@ + query@],
{
    let mut prompts: Vec<String> = Vec::new();
    prompts.push(query.to_owned());
    prompts.push(concatenate("a photo of ", query));
    assert(texts(prompts@) =~= seq![query@, "a photo of "@ + query@]);
    prompts
}

// ---------------------------------------------------------------------------
// What comes of trying
// ---------------------------------------------------------------------------

/// A model is tried on the GPU first, where that is asked for, then on the CPU, each once, and used
/// where it was loaded. Why it does not run on the GPU is kept with the model of the CPU, and both
/// reasons are given where neither works. This holds of either kind of model.
pub proof fn law_models_are_loaded_where_they_can(
    use_gpu: bool,
    attempts: &LoadAttempts,
    image_step: LoadStep,
    face_step: LoadStep,
)
    requires
        call_ensures(load_image_embedding, (use_gpu, attempts), image_step),
        call_ensures(load_face_engine, (use_gpu, attempts), face_step),
    ensures
        use_gpu && attempts.gpu is None ==> image_step is TryGpu && face_step is TryGpu,
        use_gpu && attempts.gpu is Some && attempts.gpu->0 is Ok ==> image_step is UseGpu && face_step is UseGpu,
        (!use_gpu || attempts.gpu is Some && attempts.gpu->0 is Err) && attempts.cpu is None ==> image_step is TryCpu
            && face_step is TryCpu,
        (!use_gpu || attempts.gpu is Some && attempts.gpu->0 is Err) && attempts.cpu is Some && attempts.cpu->0 is Ok
            ==> image_step is UseCpu && face_step is UseCpu,
        (!use_gpu || attempts.gpu is Some && attempts.gpu->0 is Err) && attempts.cpu is Some && attempts.cpu->0 is Err
            ==> image_step is Give && face_step is Give,
        !use_gpu && attempts.cpu is Some && attempts.cpu->0 is Ok ==> image_step->UseCpu_0 is None
            && face_step->UseCpu_0 is None,
        use_gpu && attempts.gpu is Some && attempts.gpu->0 is Err && attempts.cpu is Some && attempts.cpu->0 is Ok
            ==> image_step->UseCpu_0 is Some && image_step->UseCpu_0->0@ == "CLIP GPU 初始化失敗："@
            + attempts.gpu->0->Err_0@ && face_step->UseCpu_0 is Some && face_step->UseCpu_0->0@
            == "Face GPU 初始化失敗："@ + attempts.gpu->0->Err_0@,
        image_step matches LoadStep::Give(reason, message) ==> message@ == "無法載入 CLIP 模型："@
            + attempts.cpu->0->Err_0@ && (reason is Some <==> use_gpu) && (reason is Some ==> reason->0@
            == "CLIP GPU 初始化失敗："@ + attempts.gpu->0->Err_0@),
        face_step matches LoadStep::Give(reason, message) ==> message@ == "無法載入人臉模型："@
            + attempts.cpu->0->Err_0@ && (reason is Some <==> use_gpu) && (reason is Some ==> reason->0@
            == "Face GPU 初始化失敗："@ + attempts.gpu->0->Err_0@),
{
}

/// A model counts as loaded exactly where it is used, and as running on the GPU exactly where it is
/// used there. What was wrong is passed on: with a model for faces why it does not run at all.
pub proof fn law_outcomes_follow_the_last_step(step: LoadStep, image: LoadOutcome, face: LoadOutcome)
    requires
        call_ensures(image_model_outcome, (step,), image),
        call_ensures(face_engine_outcome, (step,), face),
    ensures
        image.loaded == (step is UseGpu || step is UseCpu),
        face.loaded == (step is UseGpu || step is UseCpu),
        image.gpu_active == step is UseGpu,
        face.gpu_active == step is UseGpu,
        step is UseGpu ==> image.warning is None && face.warning is None,
        step matches LoadStep::UseCpu(reason) ==> image.warning == reason && face.warning == reason,
        step matches LoadStep::Give(reason, message) ==> image.warning == reason && face.warning == Some(message),
{
}

/// DirectML can be used exactly where it is among the backends that could be listed, and there is
/// a reason exactly where it cannot.
pub proof fn law_directml_is_used_where_it_is_listed(
    probe: &DirectmlProbe,
    status: Result<(), String>,
    available: bool,
    reason: Option<String>,
)
    requires
        call_ensures(directml_status, (probe,), status),
        call_ensures(directml_available, (probe,), available),
        call_ensures(directml_error, (probe,), reason),
    ensures
        available <==> probe matches DirectmlProbe::Listed(true),
        status is Ok <==> available,
        reason is None <==> available,
        status is Err ==> reason is Some && reason->0@ == status->Err_0@,
        probe is Unsupported ==> reason is Some && reason->0@ == "DirectML 僅支援 Windows"@,
        probe matches DirectmlProbe::Failed(problem) ==> reason is Some && reason->0@
            == "無法列舉 ONNX Runtime 執行後端："@ + problem@,
        probe matches DirectmlProbe::Listed(false) ==> reason is Some && reason->0@
            == "目前載入的 ONNX Runtime 沒有 DirectML 執行後端"@,
{
}

/// The models for faces come from the environment exactly where it names two files and both are
/// there.
pub proof fn law_both_model_files_must_be_there(
    detector: Option<bool>,
    recognizer: Option<bool>,
    source: FaceModelSource,
)
    requires
        call_ensures(face_model_source, (detector, recognizer), source),
    ensures
        source is Environment <==> detector == Some(true) && recognizer == Some(true),
{
}

/// The model for search texts is kept exactly where it was loaded for the backend that is wanted,
/// and tried on the GPU exactly where that is wanted and can be used.
pub proof fn law_the_text_model_follows_the_settings(
    loaded_for_gpu: Option<bool>,
    use_gpu: bool,
    kept: bool,
    probe: &DirectmlProbe,
    tried: bool,
)
    requires
        call_ensures(keeps_text_model, (loaded_for_gpu, use_gpu), kept),
        call_ensures(tries_text_model_on_gpu, (use_gpu, probe), tried),
    ensures
        kept <==> loaded_for_gpu is Some && loaded_for_gpu->0 == use_gpu,
        tried <==> use_gpu && (probe matches DirectmlProbe::Listed(true)),
{
}

/// A picture is compared with the search text itself and with the same text as a caption.
pub proof fn law_search_texts_are_asked_twice(query: &str, prompts: Vec<String>)
    requires
        call_ensures(embed_queries, (query,), prompts),
    ensures
        prompts@.len() == 2,
        prompts@[0]@ == query@,
        prompts@[1]@ == "a photo of "@ + query@,
{
    let list = texts(prompts@);
    assert(list.len() == 2);
    assert(list[0] == prompts@[0]@);
    assert(list[1] == prompts@[1]@);
}

} // verus!
