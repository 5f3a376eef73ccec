use trapo_server::catalog::{DEFAULT_MODEL_ID, DEFAULT_PROFILE_ID};
use trapo_server::ocr_worker::{
    adapter_runtime_id, adapter_worker, plan_unlimited_worker, recognize_step, OcrWorkerState, RecognizeStep, WorkerPlan,
};
use trapo_server::runtime::{runtime_variants, HardwareProbe, RuntimeLibrary, TargetPlatform};

const ENGINE_ID: &str = "unlimited-ocr";

#[test]
fn fallback_worker_returns_failure_result() {
    let worker = OcrWorkerState::fallback("native OCR assets are not installed".to_string());
    let result = match recognize_step(&worker, "missing.png", ENGINE_ID) {
        RecognizeStep::Done(result) => result,
        RecognizeStep::SendToWorker => panic!("a fallback worker answers by itself"),
    };

    assert!(!result.ok);
    assert_eq!(result.error.as_deref(), Some("native OCR assets are not installed"));
}

#[test]
fn adapter_worker_returns_successful_compatibility_output() {
    let worker = OcrWorkerState::adapter("tesseract-rs compatibility adapter active; native runtime not installed".to_string());
    let result = match recognize_step(&worker, "page-1.png", "tesseract-rs") {
        RecognizeStep::Done(result) => result,
        RecognizeStep::SendToWorker => panic!("an adapter worker answers by itself"),
    };

    assert!(result.ok);
    assert!(worker.fallback_error().is_none());
    assert!(result.text.contains("Compatibility adapter output"));
    assert!(result.text.contains("tesseract-rs"));
}

#[test]
fn a_running_worker_gets_the_image() {
    assert!(matches!(recognize_step(&OcrWorkerState::Ready, "page-1.png", ENGINE_ID), RecognizeStep::SendToWorker));
    assert!(OcrWorkerState::Ready.is_ready());
    assert_eq!(OcrWorkerState::Ready.fallback_reason(), "OCR worker is running");
    assert_eq!(OcrWorkerState::fallback("gone".to_string()).fallback_error().as_deref(), Some("gone"));
}

#[test]
fn adapter_stands_in_for_a_native_worker_that_cannot_run() {
    let native = OcrWorkerState::fallback("runtime is not selectable".to_string());
    match adapter_worker("tesseract-rs", native) {
        OcrWorkerState::Adapter(reason) => {
            assert_eq!(reason, "tesseract-rs compatibility adapter active; runtime is not selectable")
        }
        _ => panic!("expected the adapter"),
    }
    assert!(adapter_worker("tesseract-rs", OcrWorkerState::Ready).is_ready());
    assert_eq!(adapter_runtime_id("", "linux-x86_64-cpu"), "linux-x86_64-cpu");
    assert_eq!(adapter_runtime_id("linux-x86_64-cuda13", "linux-x86_64-cpu"), "linux-x86_64-cuda13");
}

#[test]
fn native_worker_plan_checks_runtime_profile_and_model() {
    let variants = runtime_variants(
        TargetPlatform::LinuxX64,
        &HardwareProbe { cuda: false, rocm: false, metal: false },
        &[
            RuntimeLibrary { path: "/app/cuda.so".to_string(), installed: true },
            RuntimeLibrary { path: "/app/rocm.so".to_string(), installed: false },
            RuntimeLibrary { path: "/app/cpu.so".to_string(), installed: true },
        ],
    );
    match plan_unlimited_worker("/app", &variants, "linux-x86_64-cpu", DEFAULT_PROFILE_ID, DEFAULT_MODEL_ID, '/') {
        WorkerPlan::Start { runtime_index, paths } => {
            assert_eq!(runtime_index, 2);
            assert_eq!(paths.ffi_library, "/app/cpu.so");
            assert_eq!(paths.model, "/app/models/Unlimited-OCR-Q4_K_M.gguf");
            assert_eq!(paths.mmproj, "/app/models/mmproj-Unlimited-OCR-F16.gguf");
        }
        WorkerPlan::Fallback(reason) => panic!("unexpected fallback: {reason}"),
    }
    let reason = |plan: WorkerPlan| match plan {
        WorkerPlan::Fallback(reason) => reason,
        WorkerPlan::Start { .. } => panic!("expected a fallback"),
    };
    assert_eq!(
        reason(plan_unlimited_worker("/app", &variants, "linux-x86_64-cuda13", DEFAULT_PROFILE_ID, DEFAULT_MODEL_ID, '/')),
        "runtime is not selectable"
    );
    assert_eq!(
        reason(plan_unlimited_worker("/app", &variants, "nope", DEFAULT_PROFILE_ID, DEFAULT_MODEL_ID, '/')),
        "runtime is not selectable"
    );
    assert_eq!(
        reason(plan_unlimited_worker("/app", &variants, "linux-x86_64-cpu", "nope", DEFAULT_MODEL_ID, '/')),
        "OCR profile was not found"
    );
    assert_eq!(
        reason(plan_unlimited_worker("/app", &variants, "linux-x86_64-cpu", DEFAULT_PROFILE_ID, "nope", '/')),
        "model was not found"
    );
}
