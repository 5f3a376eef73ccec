//! The OCR worker of a run: whether it runs the native engine, stands in with
//! the compatibility adapter, or only reports why it cannot run; and what it
//! needs to start.

use vstd::prelude::*;
use crate::catalog::{find_model, find_profile, find_profile_spec, model_catalog_spec, model_index, SHARED_MMPROJ_FILE};
use crate::config::{join_path, joined};
use crate::runtime::{RuntimeVariant, RuntimeVariantView};
use crate::text::str_eq;
use crate::workbench::{
    adapter_worker_reason, compatibility_adapter_text_spec, ocr_adapter_result, ocr_failure, OcrResult,
};

verus! {

/// The state of an OCR worker.
pub enum OcrWorkerState {
    /// A worker thread runs the native engine.
    Ready,
    /// The compatibility adapter answers, for the given reason.
    Adapter(String),
    /// No engine can run, for the given reason.
    Fallback(String),
}

impl OcrWorkerState {
    /// A worker that cannot run, for `reason`.
    pub fn fallback(reason: String) -> (w: OcrWorkerState)
        ensures
            w == OcrWorkerState::Fallback(reason),
    {
        OcrWorkerState::Fallback(reason)
    }

    /// A worker answered by the compatibility adapter, for `reason`.
    pub fn adapter(reason: String) -> (w: OcrWorkerState)
        ensures
            w == OcrWorkerState::Adapter(reason),
    {
        OcrWorkerState::Adapter(reason)
    }

    /// Whether the native engine runs.
    pub fn is_ready(&self) -> (b: bool)
        ensures
            b == (*self is Ready),
    {
        match self {
            OcrWorkerState::Ready => true,
            _ => false,
        }
    }

    /// Why the native engine does not run, or that it runs.
    pub fn fallback_reason(&self) -> (s: String)
        ensures
            s@ == match self {
                OcrWorkerState::Ready => "OCR worker is running"@,
                OcrWorkerState::Adapter(r) => r@,
                OcrWorkerState::Fallback(r) => r@,
            },
    {
        match self {
            OcrWorkerState::Ready => "OCR worker is running".to_owned(),
            OcrWorkerState::Adapter(r) => r.clone(),
            OcrWorkerState::Fallback(r) => r.clone(),
        }
    }

    /// The error of a worker that cannot run.
    pub fn fallback_error(&self) -> (e: Option<String>)
        ensures
            match self {
                OcrWorkerState::Fallback(r) => e matches Some(x) && x@ == r@,
                _ => e is None,
            },
    {
        match self {
            OcrWorkerState::Fallback(r) => Some(r.clone()),
            _ => None,
        }
    }
}

/// What recognizing one page image takes.
pub enum RecognizeStep {
    /// Hand the image to the worker thread and wait for its result.
    SendToWorker,
    /// The result, known without the worker thread.
    Done(OcrResult),
}

/// Recognizing the page image `image_file_name` for the engine `engine_id`:
/// a running worker gets the image; a stand-in worker answers with the
/// adapter's text; a worker that cannot run fails with its reason.
pub fn recognize_step(worker: &OcrWorkerState, image_file_name: &str, engine_id: &str) -> (r: RecognizeStep)
    ensures
        match worker {
            OcrWorkerState::Ready => r is SendToWorker,
            OcrWorkerState::Adapter(reason) => r matches RecognizeStep::Done(res) && res.ok && res.error is None
                && res.text@ == compatibility_adapter_text_spec(image_file_name@, engine_id@, reason@),
            OcrWorkerState::Fallback(reason) => r matches RecognizeStep::Done(res) && !res.ok && res.text@.len() == 0
                && res.error == Some(*reason),
        },
{
    match worker {
        OcrWorkerState::Ready => RecognizeStep::SendToWorker,
        OcrWorkerState::Adapter(reason) => RecognizeStep::Done(ocr_adapter_result(image_file_name, engine_id, reason.as_str())),
        OcrWorkerState::Fallback(reason) => RecognizeStep::Done(ocr_failure(reason.clone())),
    }
}

/// The adapter worker for `engine_id`: the native worker when it runs, else
/// the compatibility adapter, giving why the native one does not.
pub fn adapter_worker(engine_id: &str, native: OcrWorkerState) -> (w: OcrWorkerState)
    ensures
        native is Ready ==> w is Ready,
        !(native is Ready) ==> (w matches OcrWorkerState::Adapter(r) && r@ == engine_id@
            + " compatibility adapter active; "@ + match native {
                OcrWorkerState::Adapter(x) => x@,
                OcrWorkerState::Fallback(x) => x@,
                OcrWorkerState::Ready => Seq::<char>::empty(),
            }),
{
    if native.is_ready() {
        return native;
    }
    let reason = native.fallback_reason();
    OcrWorkerState::Adapter(adapter_worker_reason(engine_id, reason.as_str()))
}

/// The runtime an adapter worker asks for: the one given, or the selected one.
pub fn adapter_runtime_id(runtime_id: &str, selected_runtime_id: &str) -> (r: String)
    ensures
        r@ == if runtime_id@.len() > 0 { runtime_id@ } else { selected_runtime_id@ },
{
    if runtime_id.unicode_len() > 0 {
        runtime_id.to_owned()
    } else {
        selected_runtime_id.to_owned()
    }
}

/// The files the native engine loads: the runtime library, the model file
/// and the shared projector, with the runtime's number of GPU layers.
pub struct OcrRuntimePaths {
    pub ffi_library: String,
    pub model: String,
    pub mmproj: String,
    pub n_gpu_layers: i32,
}

/// The files of `model_file` on `runtime`, under `app_root/models`.
pub fn runtime_paths(app_root: &str, runtime: &RuntimeVariant, model_file: &str, sep: char) -> (p: OcrRuntimePaths)
    ensures
        p.ffi_library@ == runtime.ffi_library@,
        p.model@ == joined(joined(app_root@, "models"@, sep), model_file@, sep),
        p.mmproj@ == joined(joined(app_root@, "models"@, sep), SHARED_MMPROJ_FILE@, sep),
        p.n_gpu_layers == runtime.n_gpu_layers,
{
    let models = join_path(app_root, "models", sep);
    OcrRuntimePaths {
        ffi_library: runtime.ffi_library.clone(),
        model: join_path(models.as_str(), model_file, sep),
        mmproj: join_path(models.as_str(), SHARED_MMPROJ_FILE, sep),
        n_gpu_layers: runtime.n_gpu_layers,
    }
}

/// The first runtime variant with id `runtime_id`.
pub open spec fn variant_index(variants: Seq<RuntimeVariantView>, runtime_id: Seq<char>, i: int) -> Option<int>
    decreases variants.len() - i,
{
    if i < 0 || i >= variants.len() {
        None
    } else if variants[i].runtime_id == runtime_id {
        Some(i)
    } else {
        variant_index(variants, runtime_id, i + 1)
    }
}

pub open spec fn variants_view(v: Seq<RuntimeVariant>) -> Seq<RuntimeVariantView> {
    v.map_values(|x: RuntimeVariant| x@)
}

/// Where the first runtime variant with id `runtime_id` stands.
fn find_variant(variants: &[RuntimeVariant], runtime_id: &str) -> (r: Option<usize>)
    ensures
        match r {
            Some(i) => variant_index(variants_view(variants@), runtime_id@, 0) == Some(i as int) && i < variants@.len(),
            None => variant_index(variants_view(variants@), runtime_id@, 0) is None,
        },
{
    let ghost vs = variants_view(variants@);
    let mut i: usize = 0;
    while i < variants.len()
        invariant
            i <= variants@.len(),
            vs == variants_view(variants@),
            variant_index(vs, runtime_id@, 0) == variant_index(vs, runtime_id@, i as int),
        decreases variants@.len() - i,
    {
        assert(vs[i as int] == variants@[i as int]@);
        if str_eq(variants[i].runtime_id.as_str(), runtime_id) {
            return Some(i);
        }
        i = i + 1;
    }
    None
}

/// What starting the native engine for a run needs, or why it cannot start:
/// its runtime must be known and selectable, and its profile and model known.
pub enum WorkerPlan {
    Start { runtime_index: usize, paths: OcrRuntimePaths },
    Fallback(String),
}

/// Plans the native OCR worker for `runtime_id`, `profile_id` and
/// `model_id`; whether its files are installed is checked before it starts.
pub fn plan_unlimited_worker(
    app_root: &str,
    variants: &[RuntimeVariant],
    runtime_id: &str,
    profile_id: &str,
    model_id: &str,
    sep: char,
) -> (r: WorkerPlan)
    ensures
        ({
            let vs = variants_view(variants@);
            match variant_index(vs, runtime_id@, 0) {
                Some(i) if vs[i].selectable => match find_profile_spec(profile_id@) {
                    Some(_) => match model_index(model_catalog_spec(), model_id@, 0) {
                        Some(m) => r matches WorkerPlan::Start { runtime_index, paths } && runtime_index == i
                            && paths.ffi_library@ == vs[i].ffi_library && paths.n_gpu_layers == vs[i].n_gpu_layers
                            && paths.model@ == joined(
                            joined(app_root@, "models"@, sep),
                            model_catalog_spec()[m].model_file,
                            sep,
                        ) && paths.mmproj@ == joined(joined(app_root@, "models"@, sep), SHARED_MMPROJ_FILE@, sep),
                        None => r matches WorkerPlan::Fallback(x) && x@ == "model was not found"@,
                    },
                    None => r matches WorkerPlan::Fallback(x) && x@ == "OCR profile was not found"@,
                },
                _ => r matches WorkerPlan::Fallback(x) && x@ == "runtime is not selectable"@,
            }
        }),
{
    let idx = match find_variant(variants, runtime_id) {
        Some(i) => i,
        None => {
            return WorkerPlan::Fallback("runtime is not selectable".to_owned());
        },
    };
    if !variants[idx].selectable {
        return WorkerPlan::Fallback("runtime is not selectable".to_owned());
    }
    if find_profile(profile_id).is_none() {
        return WorkerPlan::Fallback("OCR profile was not found".to_owned());
    }
    let entry = match find_model(model_id) {
        Some(e) => e,
        None => {
            return WorkerPlan::Fallback("model was not found".to_owned());
        },
    };
    WorkerPlan::Start { runtime_index: idx, paths: runtime_paths(app_root, &variants[idx], entry.model_file, sep) }
}

} // verus!
