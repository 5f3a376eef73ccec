//! Workbench state rules: errors, UI settings patches, page and run records,
//! model download progress, and the OCR compatibility adapter's answers.

use vstd::prelude::*;
use crate::logs::opt_view;
use crate::ocr_page::{boxes_view, spans_view, OverlayBox, OverlayBoxView, TextRegionSpan, TextRegionSpanView};
use crate::text::{append_str, str_eq};

verus! {

// ---------------------------------------------------------------------------
// Errors

/// What went wrong while serving a request.
#[derive(Debug)]
pub enum AppError {
    BadRequest(String),
    NotFound(String),
    Conflict(String),
    Database(String),
    Io(String),
    Json(String),
    Internal(String),
}

impl AppError {
    /// The HTTP status code a response with this error carries.
    pub fn status_code(&self) -> (code: u16)
        ensures
            code == match self {
                AppError::BadRequest(_) => 400u16,
                AppError::NotFound(_) => 404u16,
                AppError::Conflict(_) => 409u16,
                _ => 500u16,
            },
    {
        match self {
            AppError::BadRequest(_) => 400,
            AppError::NotFound(_) => 404,
            AppError::Conflict(_) => 409,
            AppError::Database(_) | AppError::Io(_) | AppError::Json(_) | AppError::Internal(_) => 500,
        }
    }

    /// The message shown to the client.
    pub fn message(&self) -> (s: String)
        ensures
            s@ == match self {
                AppError::Database(m) => "database error: "@ + m@,
                AppError::Io(m) => "io error: "@ + m@,
                AppError::Json(m) => "json error: "@ + m@,
                AppError::BadRequest(m) => m@,
                AppError::NotFound(m) => m@,
                AppError::Conflict(m) => m@,
                AppError::Internal(m) => m@,
            },
    {
        match self {
            AppError::Database(m) => {
                let mut s = "database error: ".to_owned();
                append_str(&mut s, m.as_str());
                s
            },
            AppError::Io(m) => {
                let mut s = "io error: ".to_owned();
                append_str(&mut s, m.as_str());
                s
            },
            AppError::Json(m) => {
                let mut s = "json error: ".to_owned();
                append_str(&mut s, m.as_str());
                s
            },
            AppError::BadRequest(m) => m.clone(),
            AppError::NotFound(m) => m.clone(),
            AppError::Conflict(m) => m.clone(),
            AppError::Internal(m) => m.clone(),
        }
    }
}

// ---------------------------------------------------------------------------
// Workbench UI settings

/// Which side panes are collapsed.
#[derive(Clone, Copy, PartialEq, Eq, Structural)]
pub struct PanesCollapsed {
    pub details: bool,
    pub diagnostics: bool,
    pub explorer: bool,
}

/// The workbench's view settings.
pub struct WorkbenchUiSettings {
    pub theme: String,
    pub auto_follow_regions: bool,
    pub labels_visible: bool,
    pub overlay_visible: bool,
    pub panes_collapsed: PanesCollapsed,
}

impl Default for WorkbenchUiSettings {
    fn default() -> (r: Self)
        ensures
            r.theme@ == "dark"@,
            r.auto_follow_regions,
            r.labels_visible,
            r.overlay_visible,
            r.panes_collapsed == (PanesCollapsed { details: false, diagnostics: false, explorer: false }),
    {
        WorkbenchUiSettings {
            theme: "dark".to_owned(),
            auto_follow_regions: true,
            labels_visible: true,
            overlay_visible: true,
            panes_collapsed: PanesCollapsed { details: false, diagnostics: false, explorer: false },
        }
    }
}

/// Changes to some of the pane settings.
#[derive(Clone, Copy, Default)]
pub struct PanesCollapsedPatch {
    pub details: Option<bool>,
    pub diagnostics: Option<bool>,
    pub explorer: Option<bool>,
}

/// Changes to some of the view settings; a field left out keeps its value.
#[derive(Default)]
pub struct WorkbenchUiSettingsPatch {
    pub theme: Option<String>,
    pub auto_follow_regions: Option<bool>,
    pub labels_visible: Option<bool>,
    pub overlay_visible: Option<bool>,
    pub panes_collapsed: Option<PanesCollapsedPatch>,
}

pub open spec fn patched(old: bool, p: Option<bool>) -> bool {
    match p {
        Some(v) => v,
        None => old,
    }
}

pub open spec fn patched_panes(old: PanesCollapsed, p: Option<PanesCollapsedPatch>) -> PanesCollapsed {
    match p {
        Some(q) => PanesCollapsed {
            details: patched(old.details, q.details),
            diagnostics: patched(old.diagnostics, q.diagnostics),
            explorer: patched(old.explorer, q.explorer),
        },
        None => old,
    }
}

/// A theme the workbench knows.
pub open spec fn valid_theme(t: Seq<char>) -> bool {
    t == "dark"@ || t == "light"@
}

fn is_valid_theme(t: &str) -> (b: bool)
    ensures
        b == valid_theme(t@),
{
    str_eq(t, "dark") || str_eq(t, "light")
}

fn apply_panes(panes: &mut PanesCollapsed, patch: Option<PanesCollapsedPatch>)
    ensures
        *final(panes) == patched_panes(*old(panes), patch),
{
    if let Some(p) = patch {
        if let Some(value) = p.details {
            panes.details = value;
        }
        if let Some(value) = p.diagnostics {
            panes.diagnostics = value;
        }
        if let Some(value) = p.explorer {
            panes.explorer = value;
        }
    }
}

/// Applies a settings patch. A theme other than `dark` or `light` is refused
/// and leaves the settings as they were.
pub fn apply_workbench_patch(settings: &mut WorkbenchUiSettings, patch: WorkbenchUiSettingsPatch) -> (r: Result<(), AppError>)
    ensures
        (patch.theme matches Some(t) && !valid_theme(t@)) ==> {
            &&& r matches Err(AppError::BadRequest(m)) && m@ == "theme must be dark or light"@
            &&& *final(settings) == *old(settings)
        },
        !(patch.theme matches Some(t) && !valid_theme(t@)) ==> {
            &&& r is Ok
            &&& final(settings).theme@ == match patch.theme {
                Some(t) => t@,
                None => old(settings).theme@,
            }
            &&& final(settings).auto_follow_regions == patched(old(settings).auto_follow_regions, patch.auto_follow_regions)
            &&& final(settings).labels_visible == patched(old(settings).labels_visible, patch.labels_visible)
            &&& final(settings).overlay_visible == patched(old(settings).overlay_visible, patch.overlay_visible)
            &&& final(settings).panes_collapsed == patched_panes(old(settings).panes_collapsed, patch.panes_collapsed)
        },
{
    let WorkbenchUiSettingsPatch { theme, auto_follow_regions, labels_visible, overlay_visible, panes_collapsed } = patch;
    match theme {
        Some(t) => {
            if !is_valid_theme(t.as_str()) {
                return Err(AppError::BadRequest("theme must be dark or light".to_owned()));
            }
            settings.theme = t;
        },
        None => {},
    }
    settings.auto_follow_regions = match auto_follow_regions {
        Some(v) => v,
        None => settings.auto_follow_regions,
    };
    settings.labels_visible = match labels_visible {
        Some(v) => v,
        None => settings.labels_visible,
    };
    settings.overlay_visible = match overlay_visible {
        Some(v) => v,
        None => settings.overlay_visible,
    };
    apply_panes(&mut settings.panes_collapsed, panes_collapsed);
    Ok(())
}

// ---------------------------------------------------------------------------
// Runs and documents

/// A run that still has work: queued or running.
pub fn run_is_active(status: &str) -> (b: bool)
    ensures
        b == (status@ == "queued"@ || status@ == "running"@),
{
    str_eq(status, "queued") || str_eq(status, "running")
}

/// A document that still has work: queued, running or rendering.
pub fn document_is_active(status: &str) -> (b: bool)
    ensures
        b == (status@ == "queued"@ || status@ == "running"@ || status@ == "rendering"@),
{
    str_eq(status, "queued") || str_eq(status, "running") || str_eq(status, "rendering")
}

/// Applying the same settings patch twice gives what applying it once gave.
pub proof fn law_settings_patch_idempotent(flag: bool, p: Option<bool>, panes: PanesCollapsed, q: Option<PanesCollapsedPatch>)
    ensures
        patched(patched(flag, p), p) == patched(flag, p),
        patched_panes(patched_panes(panes, q), q) == patched_panes(panes, q),
{
}

// ---------------------------------------------------------------------------
// Page records

/// The DPI at which PDF pages are rendered.
pub const PDF_DPI: u32 = 200;

/// A page as stored after rendering.
pub struct StoredPage {
    pub file_hash: String,
    pub page_no: u32,
    pub run_id: Option<String>,
    pub status: String,
    pub width_px: u32,
    pub height_px: u32,
    pub render_dpi: u32,
    pub preview_path: Option<String>,
    pub raw_text: String,
    pub cleaned_text: String,
    pub error: Option<String>,
}

/// The record announced for a rendered page.
pub struct RenderedPageRecord {
    pub file_hash: String,
    pub page_no: u32,
    pub status: String,
    pub width_px: u32,
    pub height_px: u32,
    pub dpi: u32,
    pub preview_available: bool,
    pub run_id: Option<String>,
}

/// The record of a rendered page: its identity, size and DPI, the run it
/// belongs to when there is one, and that its preview can be shown.
pub fn rendered_page_record(page: &StoredPage) -> (r: RenderedPageRecord)
    ensures
        r.file_hash@ == page.file_hash@,
        r.page_no == page.page_no,
        r.status@ == page.status@,
        r.width_px == page.width_px,
        r.height_px == page.height_px,
        r.dpi == page.render_dpi,
        r.preview_available,
        crate::logs::opt_view(r.run_id) == crate::logs::opt_view(page.run_id),
{
    RenderedPageRecord {
        file_hash: page.file_hash.clone(),
        page_no: page.page_no,
        status: page.status.clone(),
        width_px: page.width_px,
        height_px: page.height_px,
        dpi: page.render_dpi,
        preview_available: true,
        run_id: match &page.run_id {
            Some(id) => Some(id.clone()),
            None => None,
        },
    }
}

/// The record announced when a run finishes a page.
pub fn completed_page_record(run_id: &str, file_hash: &str, page_no: u32, width_px: u32, height_px: u32) -> (r: RenderedPageRecord)
    ensures
        r.file_hash@ == file_hash@,
        r.page_no == page_no,
        r.status@ == "completed"@,
        r.width_px == width_px,
        r.height_px == height_px,
        r.dpi == PDF_DPI,
        r.preview_available,
        crate::logs::opt_view(r.run_id) == Some(run_id@),
{
    RenderedPageRecord {
        file_hash: file_hash.to_owned(),
        page_no,
        status: "completed".to_owned(),
        width_px,
        height_px,
        dpi: PDF_DPI,
        preview_available: true,
        run_id: Some(run_id.to_owned()),
    }
}

/// The kind under which a finished page's output is stored: engines that
/// understand whole documents write markdown, the others OCR text.
pub fn page_output_kind(engine_kind: &str) -> (r: String)
    ensures
        engine_kind@ == "document_understanding"@ ==> r@ == "markdown"@,
        engine_kind@ != "document_understanding"@ ==> r@ == "ocr"@,
{
    if crate::text::str_eq(engine_kind, "document_understanding") {
        "markdown".to_owned()
    } else {
        "ocr".to_owned()
    }
}

/// A page image produced by rendering.
pub struct RenderedPage {
    pub page_no: u32,
    pub image_path: String,
    pub width_px: u32,
    pub height_px: u32,
}

/// A page of a document as the workbench tracks it.
pub struct PageState {
    pub page_no: u32,
    pub image_path: String,
    pub width_px: u32,
    pub height_px: u32,
    pub render_dpi: u32,
    pub status: String,
    pub raw_text: String,
    pub cleaned_text: String,
    pub boxes: Vec<OverlayBox>,
    pub spans: Vec<TextRegionSpan>,
    pub error: Option<String>,
}

pub struct PageView {
    pub page_no: u32,
    pub image_path: Seq<char>,
    pub width_px: u32,
    pub height_px: u32,
    pub render_dpi: u32,
    pub status: Seq<char>,
    pub raw_text: Seq<char>,
    pub cleaned_text: Seq<char>,
    pub boxes: Seq<OverlayBoxView>,
    pub spans: Seq<TextRegionSpanView>,
    pub error: Option<Seq<char>>,
}

impl View for PageState {
    type V = PageView;

    open spec fn view(&self) -> PageView {
        PageView {
            page_no: self.page_no,
            image_path: self.image_path@,
            width_px: self.width_px,
            height_px: self.height_px,
            render_dpi: self.render_dpi,
            status: self.status@,
            raw_text: self.raw_text@,
            cleaned_text: self.cleaned_text@,
            boxes: boxes_view(self.boxes@),
            spans: spans_view(self.spans@),
            error: opt_view(self.error),
        }
    }
}

/// A freshly rendered page, queued for OCR with no text or regions yet.
pub fn queued_page_state(page: &RenderedPage) -> (r: PageState)
    ensures
        r.page_no == page.page_no,
        r.image_path@ == page.image_path@,
        r.width_px == page.width_px,
        r.height_px == page.height_px,
        r.render_dpi == PDF_DPI,
        r.status@ == "queued"@,
        r.raw_text@.len() == 0,
        r.cleaned_text@.len() == 0,
        r.boxes@.len() == 0,
        r.spans@.len() == 0,
        r.error is None,
{
    PageState {
        page_no: page.page_no,
        image_path: page.image_path.clone(),
        width_px: page.width_px,
        height_px: page.height_px,
        render_dpi: PDF_DPI,
        status: "queued".to_owned(),
        raw_text: String::new(),
        cleaned_text: String::new(),
        boxes: Vec::new(),
        spans: Vec::new(),
        error: None,
    }
}

// ---------------------------------------------------------------------------
// Model downloads

/// Progress is published again after this many more bytes ...
pub const MODEL_DOWNLOAD_PROGRESS_FLUSH_BYTES: u64 = 1_048_576;
/// ... or after this many milliseconds.
pub const MODEL_DOWNLOAD_PROGRESS_FLUSH_MS: u64 = 250;

/// A model file download; times are milliseconds on a monotonic clock.
pub struct DownloadState {
    pub download_id: String,
    pub download_key: String,
    pub owner_kind: String,
    pub owner_id: String,
    pub file_id: String,
    pub file_name: String,
    pub source_url: String,
    pub target_path: String,
    pub force: bool,
    pub status: String,
    pub downloaded_bytes: u64,
    pub total_bytes: Option<u64>,
    pub error: Option<String>,
    pub started_at_ms: Option<u64>,
    pub last_progress_publish_at_ms: Option<u64>,
    pub last_progress_publish_bytes: u64,
    pub cancel_requested: bool,
    pub last_event_at: Option<String>,
}

/// Progress is worth publishing when none was published yet, or when enough
/// bytes or enough time have passed since the last publication.
pub open spec fn should_publish_spec(last_at: Option<u64>, last_bytes: u64, downloaded_bytes: u64, now_ms: u64) -> bool {
    match last_at {
        None => true,
        Some(t) => {
            (downloaded_bytes >= last_bytes && downloaded_bytes - last_bytes >= MODEL_DOWNLOAD_PROGRESS_FLUSH_BYTES)
                || (now_ms >= t && now_ms - t >= MODEL_DOWNLOAD_PROGRESS_FLUSH_MS)
        },
    }
}

/// Whether progress at `downloaded_bytes`, at time `now_ms`, should be published.
pub fn should_publish_download_progress(download: &DownloadState, downloaded_bytes: u64, now_ms: u64) -> (b: bool)
    ensures
        b == should_publish_spec(download.last_progress_publish_at_ms, download.last_progress_publish_bytes,
            downloaded_bytes, now_ms),
{
    match download.last_progress_publish_at_ms {
        None => true,
        Some(t) => {
            let bytes_due = downloaded_bytes >= download.last_progress_publish_bytes
                && downloaded_bytes - download.last_progress_publish_bytes >= MODEL_DOWNLOAD_PROGRESS_FLUSH_BYTES;
            let time_due = now_ms >= t && now_ms - t >= MODEL_DOWNLOAD_PROGRESS_FLUSH_MS;
            bytes_due || time_due
        },
    }
}

/// Records that progress at `downloaded_bytes` was published at `now_ms`,
/// stamped `event_at`.
pub fn mark_download_progress_published(download: &mut DownloadState, downloaded_bytes: u64, now_ms: u64, event_at: String)
    ensures
        final(download).last_progress_publish_at_ms == Some(now_ms),
        final(download).last_progress_publish_bytes == downloaded_bytes,
        final(download).last_event_at == Some(event_at),
        final(download).downloaded_bytes == old(download).downloaded_bytes,
        final(download).status == old(download).status,
        final(download).cancel_requested == old(download).cancel_requested,
        final(download).download_id == old(download).download_id,
{
    download.last_progress_publish_at_ms = Some(now_ms);
    download.last_progress_publish_bytes = downloaded_bytes;
    download.last_event_at = Some(event_at);
}

/// Right after a publication, progress is not published again until the
/// byte or time threshold is reached.
pub proof fn law_publication_is_coalesced(bytes: u64, at: u64, later_bytes: u64, later_at: u64)
    requires
        bytes <= later_bytes,
        at <= later_at,
    ensures
        should_publish_spec(Some(at), bytes, later_bytes, later_at) <==> (later_bytes - bytes
            >= MODEL_DOWNLOAD_PROGRESS_FLUSH_BYTES || later_at - at >= MODEL_DOWNLOAD_PROGRESS_FLUSH_MS),
        should_publish_spec(None, bytes, later_bytes, later_at),
{
}

/// A download being shut down: a queued one is cancelled outright, one in
/// flight is asked to cancel.
pub fn request_download_cancel(download: &mut DownloadState, event_at: String)
    ensures
        final(download).cancel_requested,
        final(download).status@ == if old(download).status@ == "queued"@ { "cancelled"@ } else { "cancelling"@ },
        final(download).last_event_at == Some(event_at),
        final(download).downloaded_bytes == old(download).downloaded_bytes,
        final(download).download_id == old(download).download_id,
{
    download.cancel_requested = true;
    download.status = if str_eq(download.status.as_str(), "queued") {
        "cancelled".to_owned()
    } else {
        "cancelling".to_owned()
    };
    download.last_event_at = Some(event_at);
}

/// Cancels a download at shutdown, stamping the event with the current time.
pub fn collect_download_update(download: &mut DownloadState)
    ensures
        final(download).cancel_requested,
        final(download).status@ == if old(download).status@ == "queued"@ { "cancelled"@ } else { "cancelling"@ },
        final(download).last_event_at is Some,
{
    let now = crate::logs::utc_now_rfc3339();
    request_download_cancel(download, now);
}

// ---------------------------------------------------------------------------
// OCR results

/// What an OCR pass produced.
pub struct OcrResult {
    pub ok: bool,
    pub text: String,
    pub error: Option<String>,
}

/// A failed OCR pass with `message`.
pub fn ocr_failure(message: String) -> (r: OcrResult)
    ensures
        !r.ok,
        r.text@.len() == 0,
        r.error == Some(message),
{
    OcrResult { ok: false, text: String::new(), error: Some(message) }
}

/// A failed native OCR call with `message`.
pub fn ocr_error(message: String) -> (r: OcrResult)
    ensures
        !r.ok,
        r.text@.len() == 0,
        r.error == Some(message),
{
    OcrResult { ok: false, text: String::new(), error: Some(message) }
}

/// The text the compatibility adapter returns for a page image.
pub open spec fn compatibility_adapter_text_spec(file_name: Seq<char>, engine_id: Seq<char>, reason: Seq<char>) -> Seq<char> {
    "Compatibility adapter output for "@ + file_name + " using "@ + engine_id + ". Native runner status: "@ + reason + "."@
}

/// Describes what the adapter did in place of native OCR.
pub fn compatibility_adapter_text(file_name: &str, engine_id: &str, reason: &str) -> (s: String)
    ensures
        s@ == compatibility_adapter_text_spec(file_name@, engine_id@, reason@),
{
    let mut s = "Compatibility adapter output for ".to_owned();
    append_str(&mut s, file_name);
    append_str(&mut s, " using ");
    append_str(&mut s, engine_id);
    append_str(&mut s, ". Native runner status: ");
    append_str(&mut s, reason);
    append_str(&mut s, ".");
    s
}

/// A successful adapter result for a page image.
pub fn ocr_adapter_result(file_name: &str, engine_id: &str, reason: &str) -> (r: OcrResult)
    ensures
        r.ok,
        r.text@ == compatibility_adapter_text_spec(file_name@, engine_id@, reason@),
        r.error is None,
{
    OcrResult { ok: true, text: compatibility_adapter_text(file_name, engine_id, reason), error: None }
}

/// Why the adapter runs in place of the native engine.
pub fn adapter_worker_reason(engine_id: &str, fallback_reason: &str) -> (s: String)
    ensures
        s@ == engine_id@ + " compatibility adapter active; "@ + fallback_reason@,
{
    let mut s = engine_id.to_owned();
    append_str(&mut s, " compatibility adapter active; ");
    append_str(&mut s, fallback_reason);
    s
}

/// A page a run has finished.
pub struct CompletedRunPage {
    pub file_hash: String,
    pub page_no: u32,
}

/// Some finished page is page `page_no` of the document `file_hash`.
pub open spec fn page_completed(pages: Seq<CompletedRunPage>, file_hash: Seq<char>, page_no: u32) -> bool {
    exists|k: int| 0 <= k < pages.len() && (#[trigger] pages[k]).file_hash@ == file_hash && pages[k].page_no == page_no
}

/// A document is complete for a run when each of its pages, counting at
/// least one, is among the run's finished pages.
pub fn document_complete_for_run(file_hash: &str, page_count: u32, completed_pages: &[CompletedRunPage]) -> (b: bool)
    ensures
        b == forall|p: u32| 1 <= p <= (if page_count >= 1 { page_count } else { 1 }) ==> page_completed(
            completed_pages@,
            file_hash@,
            p,
        ),
{
    let last: u32 = if page_count >= 1 { page_count } else { 1 };
    let mut p: u32 = 1;
    while p <= last
        invariant
            1 <= p,
            p <= last + 1,
            last == (if page_count >= 1 { page_count } else { 1 }),
            forall|q: u32| 1 <= q < p ==> page_completed(completed_pages@, file_hash@, q),
        decreases last + 1 - p,
    {
        let mut found = false;
        let mut k: usize = 0;
        while k < completed_pages.len()
            invariant
                k <= completed_pages@.len(),
                found ==> page_completed(completed_pages@, file_hash@, p),
                !found ==> forall|j: int| 0 <= j < k ==> !((#[trigger] completed_pages@[j]).file_hash@ == file_hash@
                    && completed_pages@[j].page_no == p),
            decreases completed_pages@.len() - k,
        {
            if completed_pages[k].page_no == p && str_eq(completed_pages[k].file_hash.as_str(), file_hash) {
                assert(completed_pages@[k as int].file_hash@ == file_hash@);
                found = true;
            }
            k = k + 1;
        }
        if !found {
            assert(!page_completed(completed_pages@, file_hash@, p));
            return false;
        }
        if p == u32::MAX {
            return true;
        }
        p = p + 1;
    }
    true
}

// ---------------------------------------------------------------------------
// Settings

/// The settings the workbench shows.
pub struct SettingsPayload {
    pub pdf_dpi: u32,
    pub ocr_concurrency: u32,
    pub default_profile: String,
    pub retry_profile: String,
    pub cache_path: String,
    pub database_path: String,
    pub selected_runtime_id: String,
    pub selected_accelerator: String,
    pub selected_model_id: String,
    pub runtime_variants: Vec<crate::runtime::RuntimeVariantRecord>,
    pub workbench_ui: WorkbenchUiSettings,
}

/// The settings payload: the selected profile, model and runtime, the
/// accelerator of the selected runtime (the CPU when none is selected), and
/// every runtime variant as a settings record.
pub fn settings_payload(
    selected_profile_id: &str,
    selected_model_id: &str,
    selected_runtime_id: &str,
    runtime_variants: &[crate::runtime::RuntimeVariant],
    cache_path: &str,
    database_path: &str,
    workbench_ui: &WorkbenchUiSettings,
) -> (r: SettingsPayload)
    ensures
        r.workbench_ui.theme@ == workbench_ui.theme@,
        r.workbench_ui.auto_follow_regions == workbench_ui.auto_follow_regions,
        r.workbench_ui.labels_visible == workbench_ui.labels_visible,
        r.workbench_ui.overlay_visible == workbench_ui.overlay_visible,
        r.workbench_ui.panes_collapsed == workbench_ui.panes_collapsed,
        r.pdf_dpi == PDF_DPI,
        r.ocr_concurrency == 1,
        r.default_profile@ == selected_profile_id@,
        r.retry_profile@ == crate::catalog::RETRY_PROFILE_ID@,
        r.cache_path@ == cache_path@,
        r.database_path@ == database_path@,
        r.selected_runtime_id@ == selected_runtime_id@,
        r.selected_model_id@ == selected_model_id@,
        (exists|k: int| 0 <= k < runtime_variants@.len() && (#[trigger] runtime_variants@[k]).runtime_id@ == selected_runtime_id@)
            ==> exists|k: int| 0 <= k < runtime_variants@.len() && (#[trigger] runtime_variants@[k]).runtime_id@ == selected_runtime_id@
            && r.selected_accelerator@ == runtime_variants@[k].accelerator@,
        !(exists|k: int| 0 <= k < runtime_variants@.len() && (#[trigger] runtime_variants@[k]).runtime_id@ == selected_runtime_id@)
            ==> r.selected_accelerator@ == "cpu"@,
        r.runtime_variants@.len() == runtime_variants@.len(),
        forall|k: int| 0 <= k < runtime_variants@.len() ==> (#[trigger] r.runtime_variants@[k]).runtime_id@
            == runtime_variants@[k].runtime_id@ && r.runtime_variants@[k].selected == (runtime_variants@[k].runtime_id@
            == selected_runtime_id@) && r.runtime_variants@[k].selectable == runtime_variants@[k].selectable,
{
    let accelerator = match crate::runtime::selected_runtime(runtime_variants, selected_runtime_id) {
        Some(v) => v.accelerator.clone(),
        None => "cpu".to_owned(),
    };
    let mut records: Vec<crate::runtime::RuntimeVariantRecord> = Vec::new();
    let mut i: usize = 0;
    while i < runtime_variants.len()
        invariant
            i <= runtime_variants@.len(),
            records@.len() == i,
            forall|k: int| 0 <= k < i ==> (#[trigger] records@[k]).runtime_id@ == runtime_variants@[k].runtime_id@
                && records@[k].selected == (runtime_variants@[k].runtime_id@ == selected_runtime_id@)
                && records@[k].selectable == runtime_variants@[k].selectable,
        decreases runtime_variants@.len() - i,
    {
        records.push(crate::runtime::runtime_record(&runtime_variants[i], selected_runtime_id));
        i = i + 1;
    }
    SettingsPayload {
        pdf_dpi: PDF_DPI,
        ocr_concurrency: 1,
        default_profile: selected_profile_id.to_owned(),
        retry_profile: crate::catalog::RETRY_PROFILE_ID.to_owned(),
        cache_path: cache_path.to_owned(),
        database_path: database_path.to_owned(),
        selected_runtime_id: selected_runtime_id.to_owned(),
        selected_accelerator: accelerator,
        selected_model_id: selected_model_id.to_owned(),
        runtime_variants: records,
        workbench_ui: WorkbenchUiSettings {
            theme: workbench_ui.theme.clone(),
            auto_follow_regions: workbench_ui.auto_follow_regions,
            labels_visible: workbench_ui.labels_visible,
            overlay_visible: workbench_ui.overlay_visible,
            panes_collapsed: workbench_ui.panes_collapsed,
        },
    }
}

} // verus!
