use trapo_server::ingest::{
    cancel_for_shutdown, completed_page_set, ensure_no_active_ingest, finish_document, increment_run_page,
    attach_completion_manifest, attach_run_document, completion_manifest, listed_documents, mark_document_rendering,
    mark_run_status, preview_image_path, preview_images, run_cancelled, run_has_errors, shutdown_payload,
    ensure_not_shutting_down, get_document, get_run, listed_runs, SHUTDOWN_GRACE_MS, complete_page_state,
    document_region_boxes, has_image_region, pending_pages, mark_engine_status, mark_page_started,
    prepare_resume_run, read_source, request_shutdown, request_signal_shutdown, stop_run, ShutdownState, DocumentState, ReadSource,
    IngestState, RunEngineConfig, RunState,
};
use trapo_server::workbench::{queued_page_state, AppError, CompletedRunPage, RenderedPage};
use trapo_server::ocr_page::{parse_ocr_markers, ParseContext};
use trapo_server::regions::region_snippet_path;

fn run(run_id: &str, status: &str, hashes: &[&str]) -> RunState {
    RunState {
        run_id: run_id.to_string(),
        root_path: "/docs".to_string(),
        engine_id: "unlimited-ocr".to_string(),
        model_id: "unlimited-ocr-q4-k-m".to_string(),
        profile_id: "balanced".to_string(),
        queued_files: hashes.len() as u32,
        status: status.to_string(),
        cancel_requested: false,
        error: Some("earlier failure".to_string()),
        processed_pages: 0,
        total_pages: 0,
        current_page: None,
        runtime_id: String::new(),
        file_hashes: hashes.iter().map(|h| h.to_string()).collect(),
        engine_configs: Vec::new(),
        has_completion_manifest: false,
    }
}

fn document(file_hash: &str, status: &str, page_count: u32) -> DocumentState {
    DocumentState {
        file_hash: file_hash.to_string(),
        status: status.to_string(),
        error: Some("render failed".to_string()),
        page_count,
        absolute_path: format!("/docs/{file_hash}.pdf"),
        relative_path: format!("{file_hash}.pdf"),
        size_bytes: 1024,
        pages: Vec::new(),
    }
}

fn page(file_hash: &str, page_no: u32) -> CompletedRunPage {
    CompletedRunPage { file_hash: file_hash.to_string(), page_no }
}

fn state(runs: Vec<RunState>, documents: Vec<DocumentState>) -> IngestState {
    IngestState { active_run_id: None, runs, documents, selected_runtime_id: "cpu-x64".to_string() }
}

fn conflict_message(error: AppError) -> String {
    match error {
        AppError::Conflict(message) => message,
        _ => panic!("expected a conflict"),
    }
}

#[test]
fn no_active_ingest_when_all_runs_are_finished() {
    let s = state(vec![run("r1", "completed", &["a"]), run("r2", "cancelled", &["b"])], vec![]);
    assert!(ensure_no_active_ingest(&s).is_ok());
}

#[test]
fn a_queued_run_or_an_active_id_blocks_new_ingest() {
    let s = state(vec![run("r1", "queued", &["a"])], vec![]);
    let err = ensure_no_active_ingest(&s).unwrap_err();
    assert_eq!(err.status_code(), 409);
    assert_eq!(conflict_message(err), "an ingest run is already queued or running");

    let mut s = state(vec![run("r1", "failed", &["a"])], vec![]);
    s.active_run_id = Some("r1".to_string());
    assert!(ensure_no_active_ingest(&s).is_err());
}

#[test]
fn stop_cancels_the_run_and_its_active_documents() {
    let mut s = state(
        vec![run("r1", "running", &["a", "b", "missing", "c"])],
        vec![document("a", "rendering", 2), document("b", "completed", 1), document("c", "queued", 3)],
    );
    let outcome = stop_run(&mut s, "r1").unwrap();
    assert_eq!(outcome.run_index, 0);
    assert!(outcome.stopped);
    assert_eq!(outcome.documents, vec![0, 1, 2]);
    assert_eq!(s.runs[0].status, "cancelled");
    assert!(s.runs[0].cancel_requested);
    assert_eq!(s.documents[0].status, "cancelled");
    assert_eq!(s.documents[1].status, "completed");
    assert_eq!(s.documents[2].status, "cancelled");
}

#[test]
fn stopping_twice_changes_nothing_more() {
    let mut s = state(vec![run("r1", "queued", &["a"])], vec![document("a", "queued", 1)]);
    assert!(stop_run(&mut s, "r1").unwrap().stopped);
    let again = stop_run(&mut s, "r1").unwrap();
    assert!(!again.stopped);
    assert!(again.documents.is_empty());
    assert_eq!(s.runs[0].status, "cancelled");
    assert_eq!(s.documents[0].status, "cancelled");
}

#[test]
fn stop_refuses_unknown_and_completed_runs() {
    let mut s = state(vec![run("r1", "completed", &["a"])], vec![document("a", "completed", 1)]);
    s.runs[0].has_completion_manifest = true;
    let err = stop_run(&mut s, "nope").err().unwrap();
    assert_eq!(err.status_code(), 404);
    assert_eq!(err.message(), "run not found");
    let err = stop_run(&mut s, "r1").err().unwrap();
    assert_eq!(conflict_message(err), "completed runs cannot be stopped; restart from the ingest start page");
    assert_eq!(s.runs[0].status, "completed");
}

#[test]
fn resume_requeues_unfinished_documents() {
    let mut s = state(
        vec![run("r1", "cancelled", &["a", "b"])],
        vec![document("a", "cancelled", 2), document("b", "failed", 0)],
    );
    let pages = vec![page("a", 1), page("a", 2)];
    let plan = prepare_resume_run(&mut s, "r1", &pages).unwrap();
    assert_eq!(plan.run_index, 0);
    assert_eq!(plan.documents, vec![0, 1]);
    assert_eq!(plan.queued, vec![1]);
    assert_eq!(s.documents[0].status, "completed");
    assert_eq!(s.documents[0].error.as_deref(), Some("render failed"));
    assert_eq!(s.documents[1].status, "queued");
    assert_eq!(s.documents[1].error, None);
    let r = &s.runs[0];
    assert_eq!(r.status, "queued");
    assert!(!r.cancel_requested);
    assert_eq!(r.error, None);
    assert_eq!(r.total_pages, 3);
    assert_eq!(r.processed_pages, 2);
    assert_eq!(r.current_page, Some(2));
    assert_eq!(r.runtime_id, "cpu-x64");
    assert_eq!(s.active_run_id.as_deref(), Some("r1"));
}

#[test]
fn resumed_run_blocks_a_second_resume() {
    let mut s = state(vec![run("r1", "failed", &["a"])], vec![document("a", "failed", 1)]);
    prepare_resume_run(&mut s, "r1", &[]).unwrap();
    assert_eq!(s.runs[0].current_page, None);
    assert_eq!(s.runs[0].processed_pages, 0);
    let err = prepare_resume_run(&mut s, "r1", &[]).err().unwrap();
    assert_eq!(conflict_message(err), "an ingest run is already queued or running");
    assert!(ensure_no_active_ingest(&s).is_err());
}

#[test]
fn resume_keeps_a_chosen_runtime_and_caps_finished_pages() {
    let mut s = state(vec![run("r1", "cancelled", &["a"])], vec![document("a", "cancelled", 1)]);
    s.runs[0].runtime_id = "cuda-12".to_string();
    let pages = vec![page("a", 1), page("other", 7)];
    prepare_resume_run(&mut s, "r1", &pages).unwrap();
    assert_eq!(s.runs[0].runtime_id, "cuda-12");
    assert_eq!(s.runs[0].total_pages, 1);
    assert_eq!(s.runs[0].processed_pages, 1);
}

#[test]
fn resume_refusals() {
    let mut s = state(vec![run("done", "completed", &["a"]), run("empty", "failed", &[])], vec![]);
    s.runs[0].has_completion_manifest = true;
    assert_eq!(prepare_resume_run(&mut s, "ghost", &[]).err().unwrap().message(), "run not found");
    assert_eq!(
        conflict_message(prepare_resume_run(&mut s, "done", &[]).err().unwrap()),
        "completed runs cannot be resumed; restart from the ingest start page"
    );
    assert_eq!(
        conflict_message(prepare_resume_run(&mut s, "empty", &[]).err().unwrap()),
        "run has no persisted document membership to resume"
    );
    assert_eq!(s.active_run_id, None);
}

#[test]
fn resume_reports_the_first_missing_document() {
    let mut s = state(vec![run("r1", "failed", &["a", "gone", "b"])], vec![document("a", "failed", 1), document("b", "failed", 1)]);
    let err = prepare_resume_run(&mut s, "r1", &[]).err().unwrap();
    assert_eq!(conflict_message(err), "run document is missing from local persistence: gone");
    assert_eq!(s.documents[0].status, "queued");
    assert_eq!(s.documents[1].status, "failed");
    assert_eq!(s.runs[0].status, "failed");
    assert_eq!(s.active_run_id, None);
}

#[test]
fn page_progress_and_document_outcomes() {
    let mut s = state(vec![run("r1", "running", &["a"])], vec![document("a", "running", 2)]);
    increment_run_page(&mut s, "r1").unwrap();
    increment_run_page(&mut s, "r1").unwrap();
    assert_eq!(s.runs[0].processed_pages, 2);
    assert_eq!(s.runs[0].current_page, Some(2));
    s.runs[0].processed_pages = u32::MAX;
    increment_run_page(&mut s, "r1").unwrap();
    assert_eq!(s.runs[0].processed_pages, u32::MAX);
    assert_eq!(increment_run_page(&mut s, "r2").err().unwrap().message(), "run not found");

    finish_document(&mut s, "a", "failed", Some("page 2 failed".to_string())).unwrap();
    assert_eq!(s.documents[0].status, "failed");
    assert_eq!(s.documents[0].error.as_deref(), Some("page 2 failed"));
    assert_eq!(finish_document(&mut s, "z", "completed", None).err().unwrap().message(), "document not found");
}

#[test]
fn shutdown_cancels_every_active_run() {
    let mut s = state(
        vec![run("r1", "running", &["a"]), run("r2", "completed", &["b"]), run("r3", "queued", &["c", "a"])],
        vec![document("a", "running", 1), document("b", "queued", 1), document("c", "completed", 1)],
    );
    s.active_run_id = Some("r1".to_string());
    let cancelled = cancel_for_shutdown(&mut s);
    assert_eq!(cancelled.runs, vec![0, 2]);
    assert_eq!(cancelled.run_ids, vec!["r1".to_string(), "r3".to_string()]);
    assert_eq!(cancelled.documents, vec![0, 2, 0]);
    assert_eq!(s.active_run_id, None);
    assert_eq!(s.runs[0].status, "cancelled");
    assert_eq!(s.runs[1].status, "completed");
    assert_eq!(s.runs[2].status, "cancelled");
    assert_eq!(s.documents[0].status, "cancelled");
    assert_eq!(s.documents[1].status, "queued");
    assert_eq!(s.documents[2].status, "completed");

    let again = cancel_for_shutdown(&mut s);
    assert!(again.runs.is_empty());
    assert!(again.documents.is_empty());
}

#[test]
fn shutdown_keeps_an_active_id_whose_run_is_not_active() {
    let mut s = state(vec![run("r1", "failed", &[])], vec![]);
    s.active_run_id = Some("r1".to_string());
    cancel_for_shutdown(&mut s);
    assert_eq!(s.active_run_id.as_deref(), Some("r1"));
}

#[test]
fn completed_pages_form_a_set() {
    let set = completed_page_set(vec![page("a", 1), page("b", 1), page("a", 1), page("a", 2)]);
    let pairs: Vec<(String, u32)> = set.into_iter().map(|p| (p.file_hash, p.page_no)).collect();
    assert_eq!(pairs, vec![("a".to_string(), 1), ("b".to_string(), 1), ("a".to_string(), 2)]);
}

fn engine(run_engine_id: &str, engine_id: &str) -> RunEngineConfig {
    RunEngineConfig {
        run_engine_id: run_engine_id.to_string(),
        engine_id: engine_id.to_string(),
        status: "queued".to_string(),
        error: None,
        usable_output_count: 0,
    }
}

#[test]
fn rendering_a_document_gives_its_path() {
    let mut s = state(vec![], vec![document("a", "queued", 1)]);
    assert_eq!(mark_document_rendering(&mut s, "a").unwrap(), "/docs/a.pdf");
    assert_eq!(s.documents[0].status, "rendering");
    assert_eq!(mark_document_rendering(&mut s, "b").err().unwrap().message(), "document not found");
}

#[test]
fn starting_a_page_marks_the_first_with_that_number() {
    let mut doc = document("a", "running", 2);
    for page_no in [1, 2, 2] {
        doc.pages.push(queued_page_state(&RenderedPage {
            page_no,
            image_path: format!("/cache/a/{page_no}.png"),
            width_px: 100,
            height_px: 200,
        }));
    }
    let mut s = state(vec![], vec![doc]);
    mark_page_started(&mut s, "a", 2).unwrap();
    assert_eq!(s.documents[0].pages[0].status, "queued");
    assert_eq!(s.documents[0].pages[1].status, "running");
    assert_eq!(s.documents[0].pages[2].status, "queued");
    assert_eq!(mark_page_started(&mut s, "a", 9).err().unwrap().message(), "page not found");
    assert_eq!(mark_page_started(&mut s, "z", 1).err().unwrap().message(), "document not found");
}

#[test]
fn engine_status_goes_to_the_first_run_with_that_engine() {
    let mut r1 = run("r1", "running", &[]);
    r1.engine_configs = vec![engine("e-1", "unlimited-ocr"), engine("e-2", "tesseract-rs")];
    let mut r2 = run("r2", "running", &[]);
    r2.engine_configs = vec![engine("e-2", "tesseract-rs")];
    let mut s = state(vec![r1, r2], vec![]);
    assert_eq!(mark_engine_status(&mut s, "e-2", "completed", Some("3 pages skipped"), 7), Some((0, 1)));
    let c = &s.runs[0].engine_configs[1];
    assert_eq!(c.status, "completed");
    assert_eq!(c.error.as_deref(), Some("3 pages skipped"));
    assert_eq!(c.usable_output_count, 7);
    assert_eq!(c.engine_id, "tesseract-rs");
    assert_eq!(s.runs[1].engine_configs[0].status, "queued");
    assert_eq!(s.runs[0].engine_configs[0].status, "queued");
    assert_eq!(mark_engine_status(&mut s, "e-9", "failed", None, 0), None);
}

#[test]
fn completion_manifest_copies_the_run() {
    let mut r1 = run("r1", "completed", &["a", "b"]);
    r1.processed_pages = 5;
    r1.total_pages = 6;
    r1.runtime_id = "cpu-x64".to_string();
    let s = state(vec![r1], vec![]);
    let m = completion_manifest(&s, "r1", "2025-01-02T03:04:05+00:00".to_string()).unwrap();
    assert_eq!(m.completed_at, "2025-01-02T03:04:05+00:00");
    assert_eq!(m.run_id, "r1");
    assert_eq!(m.root_path, "/docs");
    assert_eq!(m.engine_id, "unlimited-ocr");
    assert_eq!(m.status, "completed");
    assert_eq!(m.file_hashes, vec!["a".to_string(), "b".to_string()]);
    assert_eq!(m.file_count, 2);
    assert_eq!(m.queued_files, 2);
    assert_eq!((m.page_count, m.processed_pages, m.total_pages), (6, 5, 6));
    assert_eq!(completion_manifest(&s, "r2", String::new()).err().unwrap().message(), "run not found");
}

#[test]
fn a_run_with_its_manifest_can_be_neither_stopped_nor_resumed() {
    let mut s = state(vec![run("r1", "running", &["a"])], vec![document("a", "running", 1)]);
    attach_completion_manifest(&mut s, "r1").unwrap();
    assert!(s.runs[0].has_completion_manifest);
    assert_eq!(
        conflict_message(stop_run(&mut s, "r1").err().unwrap()),
        "completed runs cannot be stopped; restart from the ingest start page"
    );
    assert_eq!(s.runs[0].status, "running");
    s.runs[0].status = "completed".to_string();
    assert_eq!(
        conflict_message(prepare_resume_run(&mut s, "r1", &[]).err().unwrap()),
        "completed runs cannot be resumed; restart from the ingest start page"
    );
    assert_eq!(attach_completion_manifest(&mut s, "r9").err().unwrap().message(), "run not found");
}

#[test]
fn cancelled_and_failed_runs() {
    let mut r2 = run("r2", "running", &["a", "b"]);
    r2.cancel_requested = true;
    let s = state(
        vec![run("r1", "running", &["a", "b"]), r2, run("r3", "cancelled", &["missing"])],
        vec![document("a", "completed", 1), document("b", "failed", 1)],
    );
    assert!(!run_cancelled(&s, "r1"));
    assert!(run_cancelled(&s, "r2"));
    assert!(run_cancelled(&s, "r3"));
    assert!(run_cancelled(&s, "nope"));
    assert!(run_has_errors(&s, "r1"));
    assert!(!run_has_errors(&s, "r3"));
    assert!(!run_has_errors(&s, "nope"));
}

#[test]
fn run_status_keeps_an_error_unless_a_new_one_comes() {
    let mut s = state(vec![run("r1", "running", &[])], vec![]);
    assert!(mark_run_status(&mut s, "r1", "completed", None));
    assert_eq!(s.runs[0].status, "completed");
    assert_eq!(s.runs[0].error.as_deref(), Some("earlier failure"));
    assert!(mark_run_status(&mut s, "r1", "failed", Some("disk full".to_string())));
    assert_eq!(s.runs[0].error.as_deref(), Some("disk full"));
    assert!(!mark_run_status(&mut s, "r9", "failed", None));
}

#[test]
fn listing_follows_search_order() {
    let s = state(vec![], vec![document("a", "queued", 1), document("b", "queued", 1), document("c", "queued", 1)]);
    assert_eq!(listed_documents(&s, None), vec![0, 1, 2]);
    let found = vec!["c".to_string(), "zzz".to_string(), "a".to_string()];
    assert_eq!(listed_documents(&s, Some(&found)), vec![2, 0]);
}

#[test]
fn stored_memberships_go_to_their_ordinal() {
    let mut s = state(vec![run("r1", "completed", &["a", "c"])], vec![]);
    assert!(attach_run_document(&mut s, "r1", 1, "b".to_string()));
    assert!(attach_run_document(&mut s, "r1", 99, "d".to_string()));
    assert!(attach_run_document(&mut s, "r1", -1, "e".to_string()));
    assert_eq!(s.runs[0].file_hashes, vec!["a", "b", "c", "d", "e"]);
    assert!(!attach_run_document(&mut s, "r2", 0, "x".to_string()));
}

#[test]
fn previews_list_pages_and_find_their_images() {
    let mut doc = document("a", "completed", 2);
    for page_no in [1, 2] {
        doc.pages.push(queued_page_state(&RenderedPage {
            page_no,
            image_path: format!("/cache/a/{page_no}.png"),
            width_px: 100,
            height_px: 200,
        }));
    }
    let s = state(vec![], vec![doc, document("b", "queued", 0)]);
    let previews = preview_images(&s, "a");
    assert_eq!(previews.pages, vec![1, 2]);
    assert_eq!(previews.variants, vec!["source".to_string()]);
    let none = preview_images(&s, "b");
    assert!(none.pages.is_empty());
    assert!(none.variants.is_empty());
    assert!(preview_images(&s, "zzz").pages.is_empty());

    assert_eq!(preview_image_path(&s, "a", "source", 2).as_deref(), Some("/cache/a/2.png"));
    assert_eq!(preview_image_path(&s, "a", "thumbnail", 2), None);
    assert_eq!(preview_image_path(&s, "a", "source", 3), None);
    assert_eq!(preview_image_path(&s, "b", "source", 1), None);
}

#[test]
fn shutdown_answer_names_what_was_cancelled() {
    let payload = shutdown_payload(2, vec!["r1".to_string()], "ctrl_c".to_string());
    assert_eq!(payload.active_download_count, 2);
    assert_eq!(payload.active_run_ids, vec!["r1".to_string()]);
    assert_eq!(payload.grace_ms, SHUTDOWN_GRACE_MS);
    assert_eq!(payload.grace_ms, 5000);
    assert_eq!(payload.message, "Trapo is shutting down. Restart the server when you are ready.");
    assert_eq!(payload.source, "ctrl_c");
    assert_eq!(payload.state, "shutting_down");
}

#[test]
fn no_new_work_during_shutdown() {
    let mut shutdown = ShutdownState::new();
    assert!(ensure_not_shutting_down(&shutdown).is_ok());
    let mut s = state(vec![run("r1", "completed", &[]), run("r2", "running", &["a"])], vec![document("a", "running", 1)]);
    request_signal_shutdown(&mut s, &mut shutdown, "ctrl_c");
    assert!(shutdown.is_requested());
    assert_eq!(
        conflict_message(ensure_not_shutting_down(&shutdown).unwrap_err()),
        "trapo-server is shutting down and cannot start new work"
    );
    assert_eq!(s.runs[0].status, "completed");
    assert_eq!(s.runs[1].status, "cancelled");
    assert!(s.runs[1].cancel_requested);
    assert_eq!(s.documents[0].status, "cancelled");
}

#[test]
fn the_first_shutdown_request_stands() {
    let mut shutdown = ShutdownState::new();
    let mut s = state(vec![run("r1", "queued", &[])], vec![]);
    let first = request_shutdown(&mut s, &mut shutdown, "api", 3);
    assert_eq!(first.source, "api");
    assert_eq!(first.active_download_count, 3);
    assert_eq!(first.active_run_ids, vec!["r1".to_string()]);
    assert_eq!(first.state, "shutting_down");
    let record = shutdown.record.as_ref().map(|r| (r.source.clone(), r.requested_at.clone())).unwrap();
    assert!(chrono::DateTime::parse_from_rfc3339(&record.1).is_ok());
    let second = request_shutdown(&mut s, &mut shutdown, "ctrl_c", 0);
    assert_eq!(second.source, "api");
    assert!(second.active_run_ids.is_empty());
    assert_eq!(shutdown.record.as_ref().map(|r| r.requested_at.clone()), Some(record.1));
}

#[test]
fn runs_list_newest_key_first_and_lookups_report_missing_items() {
    let s = state(vec![run("r1", "completed", &[]), run("r2", "running", &[]), run("r3", "queued", &[])], vec![document("a", "queued", 1)]);
    assert_eq!(listed_runs(&s), vec![2, 1, 0]);
    assert_eq!(listed_runs(&state(vec![], vec![])), Vec::<usize>::new());
    assert_eq!(get_run(&s, "r2").unwrap(), 1);
    assert_eq!(get_run(&s, "r9").unwrap_err().message(), "run not found");
    assert_eq!(get_document(&s, "a").unwrap(), 0);
    assert_eq!(get_document(&s, "b").unwrap_err().status_code(), 404);
}

fn two_page_document() -> DocumentState {
    let mut doc = document("a", "running", 2);
    for page_no in [1, 2] {
        doc.pages.push(queued_page_state(&RenderedPage {
            page_no,
            image_path: format!("/cache/a/{page_no}.png"),
            width_px: 100,
            height_px: 200,
        }));
    }
    doc
}

fn parsed_page(page_no: u32, raw: &str) -> trapo_server::ocr_page::ParsedOcrPage {
    parse_ocr_markers(
        raw,
        &ParseContext {
            file_hash: "a".to_string(),
            page_no,
            engine_id: "unlimited-ocr".to_string(),
            profile_id: "balanced".to_string(),
        },
    )
}

#[test]
fn completing_a_page_stores_its_parse() {
    let mut s = state(vec![], vec![two_page_document()]);
    let parsed = parsed_page(2, "<|ref|>Figure<|/ref|><|det|>[[10,20,110,60]]<|/det|> a bar chart");
    let cleaned = parsed.cleaned_text.clone();
    assert_eq!(complete_page_state(&mut s, "a", 2, parsed).unwrap(), (0, 1));
    let page = &s.documents[0].pages[1];
    assert_eq!(page.status, "completed");
    assert_eq!(page.cleaned_text, cleaned);
    assert_eq!(page.boxes.len(), 1);
    assert_eq!(s.documents[0].pages[0].status, "queued");

    let boxes = document_region_boxes(&s, "a");
    assert_eq!(boxes.len(), 1);
    assert_eq!(boxes[0].label, "Figure");
    assert!(document_region_boxes(&s, "zzz").is_empty());

    let region_id = boxes[0].region_id.clone();
    assert!(has_image_region(&s, "a", &region_id));
    assert!(!has_image_region(&s, "a", "other"));
    assert!(!has_image_region(&s, "b", &region_id));

    assert_eq!(
        complete_page_state(&mut s, "a", 7, parsed_page(7, "x")).unwrap_err().message(),
        "page not found"
    );
    assert_eq!(
        complete_page_state(&mut s, "q", 1, parsed_page(1, "x")).unwrap_err().message(),
        "document not found"
    );
}

#[test]
fn region_snippets_live_under_the_cache() {
    assert_eq!(region_snippet_path("/app/cache", "abc", "r-1", '/'), "/app/cache/region-snippets/abc/r-1.png");
}

#[test]
fn only_unfinished_pages_are_recognized_again() {
    let done = vec![page("a", 2), page("b", 1), page("a", 4)];
    assert_eq!(pending_pages("a", &[1, 2, 3, 4], &done), vec![0, 2]);
    assert_eq!(pending_pages("c", &[1, 2], &done), vec![0, 1]);
    assert!(pending_pages("a", &[], &done).is_empty());
}

#[test]
fn region_and_text_reads_prefer_the_engine_then_the_run() {
    match read_source(Some("run-1"), Some("eng-1")) {
        ReadSource::RunEngine { run_id, run_engine_id } => {
            assert_eq!(run_id.as_deref(), Some("run-1"));
            assert_eq!(run_engine_id, "eng-1");
        }
        _ => panic!("engine output expected"),
    }
    match read_source(None, Some("eng-1")) {
        ReadSource::RunEngine { run_id, .. } => assert!(run_id.is_none()),
        _ => panic!("engine output expected"),
    }
    match read_source(Some("run-1"), Some("")) {
        ReadSource::Run { run_id } => assert_eq!(run_id, "run-1"),
        _ => panic!("run output expected"),
    }
    assert!(matches!(read_source(Some(""), None), ReadSource::Memory));
    assert!(matches!(read_source(None, None), ReadSource::Memory));
}
