use trapo_server::native::llama_runtime_search_order;
use trapo_server::search::{combined_source_label, next_source_rank, source_family, source_label_rank, SourceRanks};
use trapo_server::catalog::{find_model, find_profile, model_catalog, ocr_profiles, DEFAULT_MODEL_ID, DEFAULT_PROFILE_ID, RETRY_PROFILE_ID};
use trapo_server::runtime::{
    choose_runtime_id, packaged_runtime_variants, runtime_library_paths, runtime_record, runtime_specs, runtime_variants, selected_runtime, support_detail, HardwareProbe,
    RuntimeLibrary, RuntimeVariant, TargetPlatform,
};

#[test]
fn windows_arm64_uses_native_cpu_runtime() {
    let specs = runtime_specs(TargetPlatform::WindowsArm64);

    assert_eq!(specs.len(), 1);
    assert_eq!(specs[0].platform, "windows-arm64-cpu");
    assert_eq!(specs[0].library_name, "uocr-ffi.dll");
}

#[test]
fn windows_x64_keeps_cuda_and_cpu_runtimes() {
    let platforms: Vec<_> = runtime_specs(TargetPlatform::WindowsX64)
        .into_iter()
        .map(|spec| spec.platform)
        .collect();

    assert!(platforms.contains(&"windows-x86_64-cuda13"));
    assert!(platforms.contains(&"windows-x86_64-cpu"));
    assert!(!platforms.contains(&"windows-arm64-cpu"));
}

#[test]
fn linux_and_macos_runtime_lists() {
    let linux: Vec<_> = runtime_specs(TargetPlatform::LinuxX64).into_iter().map(|s| (s.platform, s.priority)).collect();
    assert_eq!(
        linux,
        vec![("linux-x86_64-cuda13", 300), ("linux-x86_64-rocm6", 200), ("linux-x86_64-cpu", 100)]
    );
    let mac = runtime_specs(TargetPlatform::MacOs);
    assert_eq!(mac[0].accelerator, "metal");
    assert_eq!(mac[0].n_gpu_layers, -2);
    assert_eq!(runtime_specs(TargetPlatform::LinuxArm64)[0].library_name, "libuocr-ffi.so");
}

#[test]
fn profiles_are_found_by_key() {
    let profiles = ocr_profiles();
    assert_eq!(profiles.len(), 2);
    assert_eq!(profiles[0].key, RETRY_PROFILE_ID);
    assert!(profiles[0].force_prompt_eos);
    let default = find_profile(DEFAULT_PROFILE_ID).expect("default profile");
    assert_eq!(default.label, "Experimental exact-prefill Q4");
    assert!(default.no_image_end);
    assert_eq!(default.pdf_ngram_window, 1024);
    assert!(find_profile("missing").is_none());
}

#[test]
fn models_are_found_by_id() {
    assert_eq!(model_catalog().len(), 13);
    let model = find_model(DEFAULT_MODEL_ID).expect("default model");
    assert_eq!(model.model_file, "Unlimited-OCR-Q4_K_M.gguf");
    assert!(model.recommended);
    assert_eq!(model.model_size_bytes, 1_950_326_784);
    assert_eq!(find_model("unlimited-ocr-iq2-m").map(|m| m.bits), Some(2));
    assert!(find_model("nope").is_none());
}

fn library(path: &str, installed: bool) -> RuntimeLibrary {
    RuntimeLibrary { path: path.to_string(), installed }
}

fn linux_variants(cuda: bool, installed: [bool; 3]) -> Vec<RuntimeVariant> {
    runtime_variants(
        TargetPlatform::LinuxX64,
        &HardwareProbe { cuda, rocm: false, metal: false },
        &[library("a/cuda.so", installed[0]), library("a/rocm.so", installed[1]), library("a/cpu.so", installed[2])],
    )
}

#[test]
fn variants_combine_install_state_and_hardware() {
    let variants = linux_variants(false, [true, true, true]);
    assert_eq!(variants.len(), 3);
    assert_eq!(variants[0].runtime_id, "linux-x86_64-cuda13");
    assert_eq!(variants[0].ffi_library, "a/cuda.so");
    assert!(variants[0].installed);
    assert!(!variants[0].hardware_supported);
    assert!(!variants[0].selectable);
    assert_eq!(variants[0].support_detail, "nvidia-smi was not found");
    assert_eq!(variants[1].support_detail, "rocminfo/hipinfo was not found");
    assert!(variants[2].selectable);
    assert_eq!(variants[2].support_detail, "CPU runtime is always supported");
}

#[test]
fn preferred_runtime_wins_when_selectable_else_highest_priority() {
    let variants = linux_variants(true, [true, false, true]);
    assert_eq!(choose_runtime_id(&variants, "linux-x86_64-cpu"), "linux-x86_64-cpu");
    assert_eq!(choose_runtime_id(&variants, "linux-x86_64-rocm6"), "linux-x86_64-cuda13");
    assert_eq!(choose_runtime_id(&variants, ""), "linux-x86_64-cuda13");
    let none_selectable = linux_variants(false, [false, false, false]);
    assert_eq!(choose_runtime_id(&none_selectable, "x"), "linux-x86_64-cuda13");
    assert_eq!(choose_runtime_id(&[], "x"), "");
}

#[test]
fn equal_priorities_pick_the_last_selectable() {
    let mut variants = linux_variants(true, [true, true, true]);
    variants[1].priority = 300;
    variants[1].hardware_supported = true;
    variants[1].selectable = true;
    assert_eq!(choose_runtime_id(&variants, ""), "linux-x86_64-rocm6");
}

#[test]
fn runtime_records_mark_the_selected_one() {
    let variants = linux_variants(true, [true, false, true]);
    let record = runtime_record(&variants[0], "linux-x86_64-cuda13");
    assert!(record.selected);
    assert_eq!(record.support_detail, "NVIDIA CUDA probe found");
    assert!(!runtime_record(&variants[2], "linux-x86_64-cuda13").selected);
    assert_eq!(selected_runtime(&variants, "linux-x86_64-cpu").map(|v| v.priority), Some(100));
    assert!(selected_runtime(&variants, "missing").is_none());
}

#[test]
fn support_details_for_each_accelerator() {
    let yes = HardwareProbe { cuda: true, rocm: true, metal: true };
    let no = HardwareProbe::default();
    assert_eq!(support_detail(&yes, "rocm"), "AMD ROCm/HIP probe found");
    assert_eq!(support_detail(&yes, "metal"), "Apple Metal runtime is available");
    assert_eq!(support_detail(&no, "metal"), "Apple Metal runtime is unavailable");
    assert_eq!(support_detail(&no, "vulkan"), "CPU runtime is always supported");
}

#[test]
fn llama_runtimes_are_searched_preferred_then_cpu() {
    let ids: Vec<String> = ["windows-x86_64-cuda13", "windows-x86_64-cpu", "windows-x86_64-rocm6", "linux-arm64-cpu"]
        .iter()
        .map(|s| s.to_string())
        .collect();
    assert_eq!(
        llama_runtime_search_order(ids.clone(), Some("windows-x86_64-rocm6")),
        vec!["windows-x86_64-rocm6", "linux-arm64-cpu", "windows-x86_64-cpu", "windows-x86_64-cuda13"]
    );
    assert_eq!(
        llama_runtime_search_order(ids, None),
        vec!["linux-arm64-cpu", "windows-x86_64-cpu", "windows-x86_64-cuda13", "windows-x86_64-rocm6"]
    );
}

#[test]
fn search_sources_are_labelled_and_ranked() {
    assert_eq!(source_family("vss-cosine"), "vss");
    assert_eq!(source_family("fts"), "fts");
    assert_eq!(source_family("other"), "other");
    assert_eq!(source_label_rank("fts"), 0);
    assert_eq!(source_label_rank("vss"), 1);
    assert_eq!(source_label_rank("x"), 2);
    let labels: Vec<String> = ["vss", "x", "fts"].iter().map(|s| s.to_string()).collect();
    assert_eq!(combined_source_label(&labels), "fts+vss+x");
    assert_eq!(combined_source_label(&[]), "");
    let mut ranks = SourceRanks { vss: 0, fts: 0, other: 0 };
    assert_eq!(next_source_rank(&mut ranks, "fts"), 1);
    assert_eq!(next_source_rank(&mut ranks, "fts"), 2);
    assert_eq!(next_source_rank(&mut ranks, "vss"), 1);
    assert_eq!(ranks.other, 0);
}

#[test]
fn runtime_libraries_live_in_packaged_runtime_bins() {
    assert_eq!(
        trapo_server::runtime::runtime_library_path("/app", "linux-x86_64-cpu", "libuocr_ffi.so", '/'),
        "/app/thirdparty/uocr-runtime/linux-x86_64-cpu/bin/libuocr_ffi.so"
    );
    assert_eq!(
        trapo_server::runtime::runtime_library_path("C:\\Trapo\\", "windows-x86_64-cuda13", "uocr_ffi.dll", '\\'),
        "C:\\Trapo\\thirdparty\\uocr-runtime\\windows-x86_64-cuda13\\bin\\uocr_ffi.dll"
    );
}

#[test]
fn combined_label_ignores_the_order_sources_were_found_in() {
    let a = vec!["vss-a".to_string(), "fts".to_string(), "other".to_string(), "fts".to_string()];
    let b = vec!["fts".to_string(), "other".to_string(), "fts".to_string(), "vss-a".to_string()];
    assert_eq!(combined_source_label(&a), "fts+fts+vss-a+other");
    assert_eq!(combined_source_label(&a), combined_source_label(&b));
    assert_eq!(combined_source_label(&["vss".to_string(), "fts".to_string()]), "fts+vss");
}

#[test]
fn packaged_variants_take_their_library_from_the_app_root() {
    let paths = runtime_library_paths(TargetPlatform::LinuxX64, "/app", '/');
    let specs = runtime_specs(TargetPlatform::LinuxX64);
    assert_eq!(paths.len(), specs.len());
    for (path, spec) in paths.iter().zip(specs.iter()) {
        assert_eq!(path, &format!("/app/thirdparty/uocr-runtime/{}/bin/{}", spec.platform, spec.library_name));
    }
    let variants = packaged_runtime_variants(
        TargetPlatform::LinuxX64,
        &HardwareProbe { cuda: false, rocm: false, metal: false },
        "/app",
        '/',
        &[false, false, true],
    );
    assert_eq!(variants.len(), 3);
    assert_eq!(variants[2].ffi_library, paths[2]);
    assert!(variants[2].installed && variants[2].selectable);
    assert!(!variants[0].installed);
}
