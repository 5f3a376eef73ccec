use trapo_server::native::{document_part_decision, embedding_input, too_many_tokens_message, EmbeddingPurpose, PartDecision};
use trapo_server::native::{profile_from_model_row, EmbeddingModelRow, LlamaParams};
use trapo_server::native::llama_library_candidates;
use trapo_server::native::{required_ffi_symbols, validate_ffi_library, validate_llama_library, FfiLibraryProbe, LlamaLibraryProbe};
use trapo_server::workbench::{document_complete_for_run, page_output_kind, CompletedRunPage};
use trapo_server::native::{check_model_file_inside, check_model_file_name, is_path_within};
use trapo_server::config::{
    apply_server_args, first_existing, is_cargo_target_dir, network_settings, parse_port, pdfium_library_name, ServerEnv,
};
use trapo_server::dialog::{
    command_failure_detail, command_output_to_dialog_result, folder_dialog_response, graphical_session_available,
    is_cancelled_command, linux_dialog_backend, platform_preflight_error, CommandOutput, DialogOutcome,
    LinuxDialogBackend,
};
use trapo_server::ids::{is_uuid_v7, now_id};
use trapo_server::native::{
    format_prompt, llama_library_name, runtime_rank, split_text_near_middle, u32_to_i32_saturating, PoolingType,
};
use trapo_server::runtime::TargetPlatform;
use trapo_server::workbench::{
    apply_workbench_patch, document_is_active, mark_download_progress_published, queued_page_state,
    rendered_page_record, request_download_cancel, run_is_active, should_publish_download_progress, AppError,
    DownloadState, RenderedPage, StoredPage, WorkbenchUiSettings, WorkbenchUiSettingsPatch,
    MODEL_DOWNLOAD_PROGRESS_FLUSH_BYTES, MODEL_DOWNLOAD_PROGRESS_FLUSH_MS, PDF_DPI,
};
use trapo_server::catalog::DEFAULT_MODEL_ID;

#[test]
fn rendered_page_record_marks_preview_ready() {
    let record = rendered_page_record(&StoredPage {
        cleaned_text: String::new(),
        error: None,
        file_hash: "file-a".to_string(),
        height_px: 200,
        page_no: 1,
        preview_path: Some("page-1.png".to_string()),
        raw_text: String::new(),
        render_dpi: 200,
        run_id: None,
        status: "queued".to_string(),
        width_px: 100,
    });

    assert_eq!(record.file_hash, "file-a");
    assert_eq!(record.page_no, 1);
    assert_eq!(record.preview_available, true);
    assert_eq!(record.dpi, 200);
}

#[test]
fn applies_workbench_patch() -> Result<(), String> {
    let mut settings = WorkbenchUiSettings::default();
    apply_workbench_patch(
        &mut settings,
        WorkbenchUiSettingsPatch {
            theme: Some("light".to_string()),
            overlay_visible: Some(false),
            ..Default::default()
        },
    )
    .map_err(|error| error.message())?;
    assert_eq!(settings.theme, "light");
    assert!(!settings.overlay_visible);
    Ok(())
}

#[test]
fn unknown_theme_is_refused_and_nothing_changes() {
    let mut settings = WorkbenchUiSettings::default();
    let result = apply_workbench_patch(
        &mut settings,
        WorkbenchUiSettingsPatch {
            theme: Some("blue".to_string()),
            labels_visible: Some(false),
            ..Default::default()
        },
    );
    match result {
        Err(AppError::BadRequest(message)) => assert_eq!(message, "theme must be dark or light"),
        _ => panic!("expected a bad request"),
    }
    assert_eq!(settings.theme, "dark");
    assert!(settings.labels_visible);
    assert_eq!(AppError::BadRequest(String::new()).status_code(), 400);
    assert_eq!(AppError::Conflict(String::new()).status_code(), 409);
    assert_eq!(AppError::Io("disk".to_string()).message(), "io error: disk");
}

fn download() -> DownloadState {
    DownloadState {
        download_id: "download-a".to_string(),
        download_key: "model:model-a:model".to_string(),
        owner_kind: "model".to_string(),
        owner_id: DEFAULT_MODEL_ID.to_string(),
        file_id: "model".to_string(),
        file_name: "model.gguf".to_string(),
        source_url: "https://example.test/model.gguf".to_string(),
        target_path: "model.gguf".to_string(),
        force: false,
        status: "downloading".to_string(),
        downloaded_bytes: 0,
        total_bytes: Some(10 * 1024 * 1024),
        error: None,
        started_at_ms: Some(5_000),
        last_progress_publish_at_ms: None,
        last_progress_publish_bytes: 0,
        cancel_requested: false,
        last_event_at: None,
    }
}

#[test]
fn download_progress_publication_is_coalesced_by_time_and_size() {
    let mut download = download();
    let now: u64 = 5_000;

    assert!(should_publish_download_progress(&download, 1024, now));
    mark_download_progress_published(&mut download, 1024, now, "now".to_string());
    assert!(!should_publish_download_progress(&download, 512 * 1024, now + 100));
    assert!(should_publish_download_progress(
        &download,
        MODEL_DOWNLOAD_PROGRESS_FLUSH_BYTES + 1024,
        now + 100
    ));
    mark_download_progress_published(
        &mut download,
        MODEL_DOWNLOAD_PROGRESS_FLUSH_BYTES + 1024,
        now + 100,
        "later".to_string(),
    );
    assert!(should_publish_download_progress(
        &download,
        MODEL_DOWNLOAD_PROGRESS_FLUSH_BYTES + 2048,
        now + MODEL_DOWNLOAD_PROGRESS_FLUSH_MS + 100
    ));
}

#[test]
fn shutdown_cancels_queued_and_asks_running_downloads_to_stop() {
    let mut queued = download();
    queued.status = "queued".to_string();
    request_download_cancel(&mut queued, "t".to_string());
    assert_eq!(queued.status, "cancelled");
    assert!(queued.cancel_requested);
    assert_eq!(queued.last_event_at.as_deref(), Some("t"));
    let mut running = download();
    request_download_cancel(&mut running, "t".to_string());
    assert_eq!(running.status, "cancelling");
}

#[test]
fn active_statuses() {
    assert!(run_is_active("queued") && run_is_active("running"));
    assert!(!run_is_active("rendering"));
    assert!(document_is_active("rendering"));
    assert!(!document_is_active("completed"));
}

#[test]
fn queued_pages_start_empty_at_the_render_dpi() {
    let state = queued_page_state(&RenderedPage {
        page_no: 3,
        image_path: "p3.png".to_string(),
        width_px: 10,
        height_px: 20,
    });
    assert_eq!(state.status, "queued");
    assert_eq!(state.render_dpi, PDF_DPI);
    assert_eq!(state.image_path, "p3.png");
    assert!(state.raw_text.is_empty() && state.error.is_none());
}

#[test]
fn detects_cargo_target_directories() {
    let target: Vec<String> = vec!["debug".to_string(), "target".to_string(), "repo".to_string()];
    assert!(is_cargo_target_dir(&target));
    assert!(!is_cargo_target_dir(&["package".to_string()]));
}

#[test]
fn ports_parse_like_u16() {
    assert_eq!(parse_port("8080"), Some(8080));
    assert_eq!(parse_port("+1"), Some(1));
    assert_eq!(parse_port("65535"), Some(65535));
    assert_eq!(parse_port("65536"), None);
    assert_eq!(parse_port(""), None);
    assert_eq!(parse_port("+"), None);
    assert_eq!(parse_port("-1"), None);
    assert_eq!(parse_port(" 1"), None);
    assert_eq!(parse_port("0009"), Some(9));
}

#[test]
fn command_line_overrides_port_and_browser() {
    let args: Vec<String> = ["trapo", "--port", "9000", "--no-browser"].iter().map(|s| s.to_string()).collect();
    assert_eq!(apply_server_args(&args, 8765, true), (9000, false));
    let args: Vec<String> = ["trapo", "--port=bad", "--port=7000", "--port"].iter().map(|s| s.to_string()).collect();
    assert_eq!(apply_server_args(&args, 8765, true), (7000, true));
    let args: Vec<String> = ["--no-browser"].iter().map(|s| s.to_string()).collect();
    assert_eq!(apply_server_args(&args, 1, true), (1, true));
    let env = ServerEnv {
        app_root: None,
        host: None,
        port: Some("abc".to_string()),
        no_browser: true,
        log_dir: None,
        client_dist: None,
        pdfium_dir: None,
    };
    let (host, port, open) = network_settings(&env, &[]);
    assert_eq!((host.as_str(), port, open), ("127.0.0.1", 8765, false));
}

#[test]
fn library_names_per_platform() {
    assert_eq!(pdfium_library_name(TargetPlatform::WindowsX64), "pdfium.dll");
    assert_eq!(pdfium_library_name(TargetPlatform::MacOs), "libpdfium.dylib");
    assert_eq!(pdfium_library_name(TargetPlatform::LinuxArm64), "libpdfium.so");
    assert_eq!(llama_library_name(TargetPlatform::WindowsArm64), "llama.dll");
    assert_eq!(llama_library_name(TargetPlatform::LinuxX64), "libllama.so");
    assert_eq!(first_existing(&[false, true, true]), Some(1));
    assert_eq!(first_existing(&[false]), None);
}

#[test]
fn linux_prefers_zenity_over_kdialog() {
    assert_eq!(linux_dialog_backend(true, true), Some(LinuxDialogBackend::Zenity));
    assert_eq!(linux_dialog_backend(false, true), Some(LinuxDialogBackend::Kdialog));
    assert_eq!(linux_dialog_backend(false, false), None);
}

#[test]
fn exit_code_one_without_stderr_is_cancelled() {
    assert!(is_cancelled_command(Some(1), ""));
}

#[test]
fn failed_dialog_is_not_cancelled_when_stderr_has_error() {
    assert!(!is_cancelled_command(Some(1), "cannot open display"));
    assert_eq!(
        command_failure_detail(Some(7), "cannot open display"),
        " with exit code 7: cannot open display"
    );
}

#[test]
fn linux_graphical_session_requires_x11_or_wayland_socket() {
    assert!(graphical_session_available(Some(":0"), None, None, false));
    assert!(!graphical_session_available(None, None, None, false));
    assert!(!graphical_session_available(None, Some("wayland-0"), None, false));
}

#[test]
fn dialog_outcomes_from_command_output() {
    let out = |stdout: &str, stderr: &str, code: Option<i32>, success: bool| CommandOutput {
        stdout: stdout.to_string(),
        stderr: stderr.to_string(),
        code,
        success,
    };
    match command_output_to_dialog_result(&out(" /home/a \n", "", Some(0), true), "zenity folder picker") {
        DialogOutcome::Selected(path) => assert_eq!(path, "/home/a"),
        _ => panic!("expected a selection"),
    }
    assert!(matches!(
        command_output_to_dialog_result(&out("", "User CANCELED", Some(1), false), "p"),
        DialogOutcome::Cancelled
    ));
    match command_output_to_dialog_result(&out("", "", Some(0), true), "kdialog folder picker") {
        DialogOutcome::Failed(m) => assert_eq!(m, "kdialog folder picker returned an empty path"),
        _ => panic!("expected a failure"),
    }
    match command_output_to_dialog_result(&out("", " boom ", Some(-3), false), "p") {
        DialogOutcome::Failed(m) => assert_eq!(m, "p failed with exit code -3: boom"),
        _ => panic!("expected a failure"),
    }
    assert_eq!(command_failure_detail(None, ""), " without an exit code");
    let response = folder_dialog_response(DialogOutcome::Failed("x".to_string()));
    assert!(response.cancelled && response.manual_path_supported);
    assert_eq!(response.error.as_deref(), Some("x"));
    assert!(platform_preflight_error(true, false, true).is_none());
    assert!(platform_preflight_error(false, true, true).is_some());
}

#[test]
fn split_text_near_middle_handles_cjk_without_whitespace() -> Result<(), String> {
    let text = "饮用水卫生标准".repeat(10);
    let split = split_text_near_middle(&text).ok_or_else(|| "missing split point".to_string())?;
    assert!(split > 0);
    assert!(split < text.len());
    assert!(text.is_char_boundary(split));
    Ok(())
}

#[test]
fn split_prefers_punctuation_nearest_the_middle() {
    assert_eq!(split_text_near_middle("ab. cdefgh"), Some(4));
    assert_eq!(split_text_near_middle("abcdef"), Some(4));
    assert_eq!(split_text_near_middle("a"), None);
    assert_eq!(split_text_near_middle("ab"), Some(1));
}

#[test]
fn persistence_ids_are_uuid_v7() {
    let id = now_id();

    assert!(is_uuid_v7(&id));
    assert_eq!(id.len(), 36);
}

#[test]
fn uuid_parsing_checks_the_version() {
    assert!(!is_uuid_v7("not a uuid"));
    assert!(!is_uuid_v7("6ba7b810-9dad-11d1-80b4-00c04fd430c8"));
    assert!(is_uuid_v7("018f7a9b-10a0-7aa0-8f00-100000000001"));
}

#[test]
fn small_native_rules() {
    assert_eq!(u32_to_i32_saturating(5), 5);
    assert_eq!(u32_to_i32_saturating(u32::MAX), i32::MAX);
    assert_eq!(runtime_rank("linux-x86_64-cpu", Some("linux-x86_64-cpu")).0, 0);
    assert_eq!(runtime_rank("linux-x86_64-cpu", None).0, 1);
    assert_eq!(runtime_rank("linux-x86_64-cuda13", Some("x")).0, 2);
    assert_eq!(PoolingType::from_catalog("cls").ok().map(PoolingType::ffi_value), Some(2));
    assert!(PoolingType::from_catalog("max").is_err());
    assert_eq!(format_prompt("Read <image> now", "prefix-tight"), "Read <image> now");
    assert_eq!(format_prompt("Read", "prefix-tight"), "<image>Read");
    assert_eq!(format_prompt("Read", "suffix-newline"), "Read\n<image>");
    assert_eq!(format_prompt("Read", "other"), "<image>\nRead");
}

#[test]
fn runtime_libraries_are_checked_in_order() {
    let probe = |load_error: Option<&str>, abi_version: Option<u32>, present: [bool; 4]| FfiLibraryProbe {
        path: "/x/libuocr-ffi.so".to_string(),
        load_error: load_error.map(str::to_string),
        abi_version,
        symbols_present: present.to_vec(),
    };
    let message = |r: Result<(), AppError>| r.err().map(|e| e.message());
    assert_eq!(required_ffi_symbols().len(), 4);
    assert_eq!(message(validate_ffi_library(&probe(None, Some(1), [true; 4]))), None);
    assert_eq!(
        message(validate_ffi_library(&probe(Some("no such file"), None, [false; 4]))),
        Some("failed to load uocr-ffi from /x/libuocr-ffi.so: no such file".to_string())
    );
    assert_eq!(
        message(validate_ffi_library(&probe(None, None, [true; 4]))),
        Some("uocr-ffi is missing symbol: uocr_ffi_abi_version".to_string())
    );
    assert_eq!(
        message(validate_ffi_library(&probe(None, Some(2), [true; 4]))),
        Some("unsupported uocr-ffi ABI version".to_string())
    );
    assert_eq!(
        message(validate_ffi_library(&probe(None, Some(1), [true, true, false, false]))),
        Some("uocr-ffi is missing symbol: uocr_ffi_run_image".to_string())
    );
    let llama = validate_llama_library(&LlamaLibraryProbe { load_error: None, missing_symbol_error: Some("llama_decode".to_string()) });
    assert_eq!(message(llama), Some("llama.cpp library is missing an embedding symbol: llama_decode".to_string()));
    assert!(validate_llama_library(&LlamaLibraryProbe { load_error: None, missing_symbol_error: None }).is_ok());
}

#[test]
fn documents_are_complete_when_every_page_is_done() {
    let done = |hash: &str, page_no: u32| CompletedRunPage { file_hash: hash.to_string(), page_no };
    let pages = vec![done("a", 1), done("a", 2), done("b", 3)];
    assert!(document_complete_for_run("a", 2, &pages));
    assert!(!document_complete_for_run("a", 3, &pages));
    assert!(document_complete_for_run("a", 0, &pages));
    assert!(!document_complete_for_run("c", 0, &pages));
}

#[test]
fn resolves_selected_packaged_runtime_before_cpu_fallback() {
    let runtimes = vec!["windows-x86_64-cpu".to_string(), "windows-x86_64-cuda13".to_string()];
    let lib = llama_library_name(TargetPlatform::WindowsX64);
    let preferred = llama_library_candidates("/app", runtimes.clone(), Some("windows-x86_64-cuda13"), lib, '/');
    assert_eq!(preferred[0], "/app/thirdparty/uocr-runtime/windows-x86_64-cuda13/bin/llama.dll");
    let fallback = llama_library_candidates("/app", runtimes, None, lib, '/');
    assert_eq!(fallback[0], "/app/thirdparty/uocr-runtime/windows-x86_64-cpu/bin/llama.dll");
}

#[test]
fn llama_candidates_end_with_the_fixed_places() {
    let candidates = llama_library_candidates(
        "/app",
        vec!["linux-x86_64-cuda12".to_string(), "linux-x86_64-cpu".to_string(), "linux-x86_64-cpu".to_string()],
        None,
        "libllama.so",
        '/',
    );
    assert_eq!(
        candidates,
        vec![
            "/app/thirdparty/uocr-runtime/linux-x86_64-cpu/bin/libllama.so".to_string(),
            "/app/thirdparty/uocr-runtime/linux-x86_64-cuda12/bin/libllama.so".to_string(),
            "/app/thirdparty/llama.cpp/build/bin/Release/libllama.so".to_string(),
            "/app/thirdparty/llama.cpp/build/bin/libllama.so".to_string(),
            "/app/thirdparty/llama/bin/libllama.so".to_string(),
            "/app/libllama.so".to_string(),
        ]
    );
}

fn nomic_row(pooling: &str, llama_params: LlamaParams) -> EmbeddingModelRow {
    EmbeddingModelRow {
        model_id: "nomic".to_string(),
        filename: "model.gguf".to_string(),
        dimension: 768,
        context_tokens: 8192,
        pooling: pooling.to_string(),
        normalize: true,
        query_prefix: "search_query: ".to_string(),
        document_prefix: "search_document: ".to_string(),
        llama_params,
    }
}

#[test]
fn profile_uses_catalog_tuned_parameters() {
    let row = nomic_row("mean", LlamaParams { n_gpu_layers: Some(12), n_batch: Some(1024), n_ubatch: Some(512) });
    let profile = profile_from_model_row(
        &row,
        Ok("/models/model.gguf".to_string()),
        Some("/app/thirdparty/llama.cpp/build/bin/Release/libllama.so".to_string()),
    )
    .unwrap();
    assert_eq!(profile.dimension, 768);
    assert_eq!(profile.context_tokens, 8192);
    assert_eq!(profile.n_gpu_layers, 12);
    assert_eq!(profile.n_batch, 1024);
    assert_eq!(profile.n_ubatch, 512);
    assert!(matches!(profile.pooling, PoolingType::Mean));
    assert_eq!(profile.model_path, "/models/model.gguf");
    assert_eq!(profile.query_prefix, "search_query: ");
}

#[test]
fn profile_settings_fall_back_when_missing_or_out_of_range() {
    let row = nomic_row("cls", LlamaParams { n_gpu_layers: Some(1 << 40), n_batch: None, n_ubatch: Some(1 << 33) });
    let profile = profile_from_model_row(&row, Ok("m".to_string()), Some("l".to_string())).unwrap();
    assert_eq!(profile.n_gpu_layers, 99);
    assert_eq!(profile.n_batch, 512);
    assert_eq!(profile.n_ubatch, 256);
    let row = nomic_row("cls", LlamaParams { n_gpu_layers: Some(-1), n_batch: None, n_ubatch: None });
    assert_eq!(profile_from_model_row(&row, Ok("m".to_string()), Some("l".to_string())).unwrap().n_gpu_layers, -1);
}

#[test]
fn profile_errors_come_in_order() {
    let row = nomic_row("max", LlamaParams { n_gpu_layers: None, n_batch: None, n_ubatch: None });
    let err = profile_from_model_row(&row, Err(AppError::BadRequest("embedding model file is missing".to_string())), None)
        .err()
        .unwrap();
    assert_eq!(err.message(), "embedding model file is missing");
    let err = profile_from_model_row(&row, Ok("m".to_string()), None).err().unwrap();
    assert_eq!(err.message(), "llama.cpp runtime library was not found");
    let err = profile_from_model_row(&row, Ok("m".to_string()), Some("l".to_string())).err().unwrap();
    assert_eq!(err.message(), "unsupported llama.cpp embedding pooling type: max");
}

#[test]
fn long_document_parts_split_near_the_middle() {
    assert!(matches!(document_part_decision("one two three four", 3, 4), PartDecision::Keep));
    match document_part_decision("alpha beta. gamma delta", 9, 4) {
        PartDecision::Split(left, right) => {
            assert!(!left.is_empty() && !right.is_empty());
            assert_eq!(left, left.trim());
            assert_eq!(right, right.trim());
            assert_eq!(format!("{left}{right}").replace(' ', ""), "alphabeta.gammadelta");
        }
        _ => panic!("expected a split"),
    }
    assert!(matches!(document_part_decision("x", 9, 4), PartDecision::TooManyTokens));
}

#[test]
fn embedding_text_messages_and_prefixes() {
    assert_eq!(
        too_many_tokens_message("nomic", 900, 512),
        "embedding text for nomic produced 900 tokens, above the safe llama.cpp encoder batch limit of 512"
    );
    let profile = trapo_server::native::LlamaEmbeddingProfile {
        model_id: "nomic".to_string(),
        model_path: "m".to_string(),
        library_path: "l".to_string(),
        dimension: 768,
        context_tokens: 8192,
        pooling: PoolingType::Mean,
        normalize: true,
        query_prefix: "search_query: ".to_string(),
        document_prefix: "search_document: ".to_string(),
        n_gpu_layers: 99,
        n_batch: 512,
        n_ubatch: 512,
    };
    assert_eq!(embedding_input(&profile, "cats", EmbeddingPurpose::Query), "search_query: cats");
    assert_eq!(embedding_input(&profile, "cats", EmbeddingPurpose::Document), "search_document: cats");
}

#[test]
fn document_understanding_pages_are_stored_as_markdown() {
    assert_eq!(page_output_kind("document_understanding"), "markdown");
    assert_eq!(page_output_kind("ocr"), "ocr");
    assert_eq!(page_output_kind(""), "ocr");
}

#[test]
fn model_file_names_stay_inside_the_model_directory() {
    assert!(check_model_file_name("model.gguf", '/').is_ok());
    assert!(check_model_file_name("a\\b.gguf", '/').is_ok());
    for bad in ["", ".", "..", "../model.gguf", "sub/model.gguf", "model.gguf/"] {
        let err = check_model_file_name(bad, '/').unwrap_err();
        assert_eq!(err.status_code(), 400);
        assert_eq!(err.message(), format!("embedding model filename must not contain path separators: {bad}"));
    }
    assert!(check_model_file_name("a\\b.gguf", '\\').is_err());
    assert!(check_model_file_name("C:model.gguf", '\\').is_err());
    assert!(check_model_file_name("C:model.gguf", '/').is_ok());
}

#[test]
fn model_files_must_resolve_inside_the_model_directory() {
    use_inside_checks();
}

fn use_inside_checks() {
    use_check("/models/a.gguf", "/models", true);
    use_check("/models/sub/a.gguf", "/models/", true);
    use_check("/models", "/models", true);
    use_check("/modelsx/a.gguf", "/models", false);
    use_check("/other/a.gguf", "/models", false);
    use_check("models/a.gguf", "/models", false);
    use_check("/models//./a.gguf", "/models", true);
}

fn use_check(path: &str, root: &str, inside: bool) {
    assert_eq!(is_path_within(path, root, '/'), inside);
    match check_model_file_inside(path, root, '/') {
        Ok(()) => assert!(inside),
        Err(err) => {
            assert!(!inside);
            assert_eq!(err.status_code(), 400);
            assert_eq!(err.message(), "embedding model file must stay inside the configured model directory");
        }
    }
}
