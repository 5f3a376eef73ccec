//! The in-memory ingest state of the workbench: runs, the documents they
//! process, and the transitions that stop, resume, advance and finish them.
//!
//! Runs and documents are keyed by their ids and kept in ascending key order,
//! each key once, as an ordered map keeps them.

use vstd::prelude::*;
use crate::logs::{opt_view, rfc3339_accepts, utc_now_rfc3339};
use crate::ocr_page::{boxes_view, copy_overlay_box, spans_view, OverlayBox, OverlayBoxView, ParsedOcrPage};
use crate::regions::{image_region, is_image_region};
use crate::native::opt_str_view;
use crate::order::{lex_le, texts_view};
use crate::text::{append_str, str_eq};
use crate::workbench::{
    AppError, CompletedRunPage, PageState, PageView, document_complete_for_run, document_is_active, page_completed, run_is_active,
};

verus! {

// ---------------------------------------------------------------------------
// Runs and documents

/// An ingest run.
pub struct RunState {
    pub run_id: String,
    pub root_path: String,
    pub engine_id: String,
    pub model_id: String,
    pub profile_id: String,
    pub queued_files: u32,
    pub status: String,
    pub cancel_requested: bool,
    pub error: Option<String>,
    pub processed_pages: u32,
    pub total_pages: u32,
    pub current_page: Option<u32>,
    pub runtime_id: String,
    pub file_hashes: Vec<String>,
    pub engine_configs: Vec<RunEngineConfig>,
    pub has_completion_manifest: bool,
}

pub struct RunView {
    pub run_id: Seq<char>,
    pub root_path: Seq<char>,
    pub engine_id: Seq<char>,
    pub model_id: Seq<char>,
    pub profile_id: Seq<char>,
    pub queued_files: u32,
    pub status: Seq<char>,
    pub cancel_requested: bool,
    pub error: Option<Seq<char>>,
    pub processed_pages: u32,
    pub total_pages: u32,
    pub current_page: Option<u32>,
    pub runtime_id: Seq<char>,
    pub file_hashes: Seq<Seq<char>>,
    pub engine_configs: Seq<EngineConfigView>,
    pub has_completion_manifest: bool,
}

impl View for RunState {
    type V = RunView;

    open spec fn view(&self) -> RunView {
        RunView {
            run_id: self.run_id@,
            root_path: self.root_path@,
            engine_id: self.engine_id@,
            model_id: self.model_id@,
            profile_id: self.profile_id@,
            queued_files: self.queued_files,
            status: self.status@,
            cancel_requested: self.cancel_requested,
            error: opt_view(self.error),
            processed_pages: self.processed_pages,
            total_pages: self.total_pages,
            current_page: self.current_page,
            runtime_id: self.runtime_id@,
            file_hashes: texts_view(self.file_hashes@),
            engine_configs: self.engine_configs@.map_values(|c: RunEngineConfig| c@),
            has_completion_manifest: self.has_completion_manifest,
        }
    }
}

/// One OCR engine taking part in a run.
pub struct RunEngineConfig {
    pub run_engine_id: String,
    pub engine_id: String,
    pub status: String,
    pub error: Option<String>,
    pub usable_output_count: u32,
}

pub struct EngineConfigView {
    pub run_engine_id: Seq<char>,
    pub engine_id: Seq<char>,
    pub status: Seq<char>,
    pub error: Option<Seq<char>>,
    pub usable_output_count: u32,
}

impl View for RunEngineConfig {
    type V = EngineConfigView;

    open spec fn view(&self) -> EngineConfigView {
        EngineConfigView {
            run_engine_id: self.run_engine_id@,
            engine_id: self.engine_id@,
            status: self.status@,
            error: opt_view(self.error),
            usable_output_count: self.usable_output_count,
        }
    }
}

/// A document that runs process, with where it lies on disk and its pages.
pub struct DocumentState {
    pub file_hash: String,
    pub status: String,
    pub error: Option<String>,
    pub page_count: u32,
    pub absolute_path: String,
    pub relative_path: String,
    pub size_bytes: u64,
    pub pages: Vec<PageState>,
}

pub struct DocumentView {
    pub file_hash: Seq<char>,
    pub status: Seq<char>,
    pub error: Option<Seq<char>>,
    pub page_count: u32,
    pub absolute_path: Seq<char>,
    pub relative_path: Seq<char>,
    pub size_bytes: u64,
    pub pages: Seq<PageView>,
}

impl View for DocumentState {
    type V = DocumentView;

    open spec fn view(&self) -> DocumentView {
        DocumentView {
            file_hash: self.file_hash@,
            status: self.status@,
            error: opt_view(self.error),
            page_count: self.page_count,
            absolute_path: self.absolute_path@,
            relative_path: self.relative_path@,
            size_bytes: self.size_bytes,
            pages: self.pages@.map_values(|p: PageState| p@),
        }
    }
}

/// The runs and documents the workbench holds, the run it is working on, and
/// the runtime chosen for new runs.
pub struct IngestState {
    pub active_run_id: Option<String>,
    pub runs: Vec<RunState>,
    pub documents: Vec<DocumentState>,
    pub selected_runtime_id: String,
}

pub struct IngestView {
    pub active_run_id: Option<Seq<char>>,
    pub runs: Seq<RunView>,
    pub documents: Seq<DocumentView>,
    pub selected_runtime_id: Seq<char>,
}

impl View for IngestState {
    type V = IngestView;

    open spec fn view(&self) -> IngestView {
        IngestView {
            active_run_id: opt_view(self.active_run_id),
            runs: runs_view(self.runs@),
            documents: documents_view(self.documents@),
            selected_runtime_id: self.selected_runtime_id@,
        }
    }
}

// ---------------------------------------------------------------------------
// Keys

/// Run ids in strictly ascending order.
pub open spec fn runs_keyed(runs: Seq<RunView>) -> bool {
    forall|i: int, j: int|
        0 <= i < j < runs.len() ==> lex_le(#[trigger] runs[i].run_id, #[trigger] runs[j].run_id) && runs[i].run_id
            != runs[j].run_id
}

/// Document hashes in strictly ascending order.
pub open spec fn documents_keyed(docs: Seq<DocumentView>) -> bool {
    forall|i: int, j: int|
        0 <= i < j < docs.len() ==> lex_le(#[trigger] docs[i].file_hash, #[trigger] docs[j].file_hash)
            && docs[i].file_hash != docs[j].file_hash
}

impl IngestView {
    /// Each run and each document is held once, in key order.
    pub open spec fn well_formed(self) -> bool {
        runs_keyed(self.runs) && documents_keyed(self.documents)
    }
}

pub open spec fn has_run(runs: Seq<RunView>, run_id: Seq<char>) -> bool {
    exists|i: int| 0 <= i < runs.len() && (#[trigger] runs[i]).run_id == run_id
}

/// The position of the run `run_id`.
pub open spec fn run_position(runs: Seq<RunView>, run_id: Seq<char>) -> int {
    choose|i: int| 0 <= i < runs.len() && (#[trigger] runs[i]).run_id == run_id
}

pub open spec fn has_document(docs: Seq<DocumentView>, file_hash: Seq<char>) -> bool {
    exists|i: int| 0 <= i < docs.len() && (#[trigger] docs[i]).file_hash == file_hash
}

/// The position of the document `file_hash`.
pub open spec fn document_position(docs: Seq<DocumentView>, file_hash: Seq<char>) -> int {
    choose|i: int| 0 <= i < docs.len() && (#[trigger] docs[i]).file_hash == file_hash
}

/// In a keyed list the run at `i` is found at `i`.
pub proof fn lemma_run_position(runs: Seq<RunView>, i: int)
    requires
        runs_keyed(runs),
        0 <= i < runs.len(),
    ensures
        has_run(runs, runs[i].run_id),
        run_position(runs, runs[i].run_id) == i,
{
    let p = run_position(runs, runs[i].run_id);
    assert(0 <= p < runs.len() && runs[p].run_id == runs[i].run_id);
    if p < i {
        assert(runs[p].run_id != runs[i].run_id);
    } else if i < p {
        assert(runs[i].run_id != runs[p].run_id);
    }
}

/// In a keyed list the document at `i` is found at `i`.
pub proof fn lemma_document_position(docs: Seq<DocumentView>, i: int)
    requires
        documents_keyed(docs),
        0 <= i < docs.len(),
    ensures
        has_document(docs, docs[i].file_hash),
        document_position(docs, docs[i].file_hash) == i,
{
    let p = document_position(docs, docs[i].file_hash);
    assert(0 <= p < docs.len() && docs[p].file_hash == docs[i].file_hash);
    if p < i {
        assert(docs[p].file_hash != docs[i].file_hash);
    } else if i < p {
        assert(docs[i].file_hash != docs[p].file_hash);
    }
}

/// Where the run `run_id` stands, if it is held.
pub fn find_run(runs: &Vec<RunState>, run_id: &str) -> (r: Option<usize>)
    ensures
        match r {
            Some(i) => i < runs@.len() && runs@[i as int].run_id@ == run_id@,
            None => forall|i: int| 0 <= i < runs@.len() ==> (#[trigger] runs@[i]).run_id@ != run_id@,
        },
{
    let mut i: usize = 0;
    while i < runs.len()
        invariant
            i <= runs@.len(),
            forall|k: int| 0 <= k < i ==> (#[trigger] runs@[k]).run_id@ != run_id@,
        decreases runs@.len() - i,
    {
        if str_eq(runs[i].run_id.as_str(), run_id) {
            return Some(i);
        }
        i = i + 1;
    }
    None
}

/// Where the document `file_hash` stands, if it is held.
pub fn find_document(docs: &Vec<DocumentState>, file_hash: &str) -> (r: Option<usize>)
    ensures
        match r {
            Some(i) => i < docs@.len() && docs@[i as int].file_hash@ == file_hash@,
            None => forall|i: int| 0 <= i < docs@.len() ==> (#[trigger] docs@[i]).file_hash@ != file_hash@,
        },
{
    let mut i: usize = 0;
    while i < docs.len()
        invariant
            i <= docs@.len(),
            forall|k: int| 0 <= k < i ==> (#[trigger] docs@[k]).file_hash@ != file_hash@,
        decreases docs@.len() - i,
    {
        if str_eq(docs[i].file_hash.as_str(), file_hash) {
            return Some(i);
        }
        i = i + 1;
    }
    None
}

// ---------------------------------------------------------------------------
// Whether an ingest is under way

pub open spec fn run_active(status: Seq<char>) -> bool {
    status == "queued"@ || status == "running"@
}

/// A run is the active one, or some run is queued or running.
pub open spec fn ingest_active(s: IngestView) -> bool {
    s.active_run_id is Some || exists|i: int| 0 <= i < s.runs.len() && run_active(#[trigger] s.runs[i].status)
}

pub open spec fn is_conflict<T>(r: Result<T, AppError>, message: Seq<char>) -> bool {
    r matches Err(AppError::Conflict(m)) && m@ == message
}

/// Refuses to start work while another ingest is queued or running.
pub fn ensure_no_active_ingest(state: &IngestState) -> (r: Result<(), AppError>)
    ensures
        r is Ok <==> !ingest_active(state@),
        r is Err ==> is_conflict(r, "an ingest run is already queued or running"@),
{
    let mut active = state.active_run_id.is_some();
    let mut i: usize = 0;
    while i < state.runs.len()
        invariant
            i <= state.runs@.len(),
            active <==> (state@.active_run_id is Some || exists|k: int|
                0 <= k < i && run_active(#[trigger] state@.runs[k].status)),
        decreases state.runs@.len() - i,
    {
        if run_is_active(state.runs[i].status.as_str()) {
            assert(run_active(state@.runs[i as int].status));
            active = true;
        }
        i = i + 1;
    }
    if active {
        return Err(AppError::Conflict("an ingest run is already queued or running".to_owned()));
    }
    Ok(())
}

// ---------------------------------------------------------------------------
// Page progress and document outcomes

pub open spec fn saturating_inc(n: u32) -> u32 {
    if n == u32::MAX { n } else { (n + 1) as u32 }
}

/// The run after one more of its pages has finished.
pub open spec fn with_page_counted(r: RunView) -> RunView {
    RunView { processed_pages: saturating_inc(r.processed_pages), current_page: Some(saturating_inc(r.processed_pages)), ..r }
}

pub open spec fn is_not_found<T>(r: Result<T, AppError>, message: Seq<char>) -> bool {
    r matches Err(AppError::NotFound(m)) && m@ == message
}

/// Counts one more finished page for the run `run_id`; that count is also the
/// page the run is on.
pub fn increment_run_page(state: &mut IngestState, run_id: &str) -> (r: Result<(), AppError>)
    requires
        old(state)@.well_formed(),
    ensures
        final(state)@.well_formed(),
        !has_run(old(state)@.runs, run_id@) ==> is_not_found(r, "run not found"@) && final(state)@ == old(state)@,
        has_run(old(state)@.runs, run_id@) ==> r is Ok && final(state)@ == (IngestView {
            runs: old(state)@.runs.update(
                run_position(old(state)@.runs, run_id@),
                with_page_counted(old(state)@.runs[run_position(old(state)@.runs, run_id@)]),
            ),
            ..old(state)@
        }),
{
    match find_run(&state.runs, run_id) {
        None => Err(AppError::NotFound("run not found".to_owned())),
        Some(i) => {
            proof {
                lemma_run_position(old(state)@.runs, i as int);
            }
            let p = state.runs[i].processed_pages.saturating_add(1);
            state.runs[i].processed_pages = p;
            state.runs[i].current_page = Some(p);
            proof {
                assert(state@.runs =~= old(state)@.runs.update(i as int, with_page_counted(old(state)@.runs[i as int])));
            }
            Ok(())
        },
    }
}

/// The document after it has finished with `status` and `error`.
pub open spec fn with_outcome(d: DocumentView, status: Seq<char>, error: Option<Seq<char>>) -> DocumentView {
    DocumentView { status: status, error: error, ..d }
}

/// Records how the document `file_hash` finished.
pub fn finish_document(state: &mut IngestState, file_hash: &str, status: &str, error: Option<String>) -> (r: Result<(), AppError>)
    requires
        old(state)@.well_formed(),
    ensures
        final(state)@.well_formed(),
        !has_document(old(state)@.documents, file_hash@) ==> is_not_found(r, "document not found"@) && final(state)@
            == old(state)@,
        has_document(old(state)@.documents, file_hash@) ==> r is Ok && final(state)@ == (IngestView {
            documents: old(state)@.documents.update(
                document_position(old(state)@.documents, file_hash@),
                with_outcome(
                    old(state)@.documents[document_position(old(state)@.documents, file_hash@)],
                    status@,
                    opt_view(error),
                ),
            ),
            ..old(state)@
        }),
{
    match find_document(&state.documents, file_hash) {
        None => Err(AppError::NotFound("document not found".to_owned())),
        Some(i) => {
            proof {
                lemma_document_position(old(state)@.documents, i as int);
            }
            state.documents[i].status = status.to_owned();
            state.documents[i].error = error;
            proof {
                assert(state@.documents =~= old(state)@.documents.update(
                    i as int,
                    with_outcome(old(state)@.documents[i as int], status@, opt_view(error)),
                ));
            }
            Ok(())
        },
    }
}

/// Marks the document `file_hash` as rendering, giving where it lies on disk.
pub fn mark_document_rendering(state: &mut IngestState, file_hash: &str) -> (r: Result<String, AppError>)
    requires
        old(state)@.well_formed(),
    ensures
        final(state)@.well_formed(),
        !has_document(old(state)@.documents, file_hash@) ==> is_not_found(r, "document not found"@) && final(state)@
            == old(state)@,
        has_document(old(state)@.documents, file_hash@) ==> {
            let p = document_position(old(state)@.documents, file_hash@);
            let d = old(state)@.documents[p];
            r matches Ok(path) && path@ == d.absolute_path && final(state)@ == (IngestView {
                documents: old(state)@.documents.update(p, DocumentView { status: "rendering"@, ..d }),
                ..old(state)@
            })
        },
{
    match find_document(&state.documents, file_hash) {
        None => Err(AppError::NotFound("document not found".to_owned())),
        Some(i) => {
            proof {
                lemma_document_position(old(state)@.documents, i as int);
            }
            state.documents[i].status = "rendering".to_owned();
            proof {
                let d = old(state)@.documents[i as int];
                assert(state@.documents =~= old(state)@.documents.update(i as int, DocumentView { status: "rendering"@, ..d }));
            }
            Ok(state.documents[i].absolute_path.clone())
        },
    }
}

/// `k` is the first page of `pages` numbered `page_no`.
pub open spec fn first_page(pages: Seq<PageView>, page_no: u32, k: int) -> bool {
    0 <= k < pages.len() && pages[k].page_no == page_no && forall|j: int| 0 <= j < k ==> (#[trigger] pages[j]).page_no != page_no
}

/// The position of the first page numbered `page_no`.
pub open spec fn first_page_index(pages: Seq<PageView>, page_no: u32) -> int {
    choose|k: int| first_page(pages, page_no, k)
}

proof fn lemma_first_page_index(pages: Seq<PageView>, page_no: u32, k: int)
    requires
        first_page(pages, page_no, k),
    ensures
        first_page_index(pages, page_no) == k,
        has_page(pages, page_no),
{
    let c = first_page_index(pages, page_no);
    assert(first_page(pages, page_no, c));
    if c < k {
        assert(pages[c].page_no != page_no);
    } else if k < c {
        assert(pages[k].page_no != page_no);
    }
}

pub open spec fn has_page(pages: Seq<PageView>, page_no: u32) -> bool {
    exists|k: int| 0 <= k < pages.len() && (#[trigger] pages[k]).page_no == page_no
}

/// Where the first page numbered `page_no` stands, if there is one.
fn find_page(pages: &Vec<PageState>, page_no: u32) -> (r: Option<usize>)
    ensures
        match r {
            Some(k) => first_page(pages@.map_values(|p: PageState| p@), page_no, k as int),
            None => !has_page(pages@.map_values(|p: PageState| p@), page_no),
        },
{
    let ghost v = pages@.map_values(|p: PageState| p@);
    let mut k: usize = 0;
    while k < pages.len()
        invariant
            k <= pages@.len(),
            v == pages@.map_values(|p: PageState| p@),
            forall|j: int| 0 <= j < k ==> (#[trigger] v[j]).page_no != page_no,
        decreases pages@.len() - k,
    {
        if pages[k].page_no == page_no {
            return Some(k);
        }
        k = k + 1;
    }
    None
}

/// Marks page `page_no` of the document `file_hash` as being recognized.
pub fn mark_page_started(state: &mut IngestState, file_hash: &str, page_no: u32) -> (r: Result<(), AppError>)
    requires
        old(state)@.well_formed(),
    ensures
        final(state)@.well_formed(),
        !has_document(old(state)@.documents, file_hash@) ==> is_not_found(r, "document not found"@) && final(state)@
            == old(state)@,
        has_document(old(state)@.documents, file_hash@) ==> {
            let p = document_position(old(state)@.documents, file_hash@);
            let d = old(state)@.documents[p];
            if !has_page(d.pages, page_no) {
                is_not_found(r, "page not found"@) && final(state)@ == old(state)@
            } else {
                r is Ok && exists|k: int|
                    #[trigger] first_page(d.pages, page_no, k) && final(state)@ == (IngestView {
                        documents: old(state)@.documents.update(
                            p,
                            DocumentView { pages: d.pages.update(k, PageView { status: "running"@, ..d.pages[k] }), ..d },
                        ),
                        ..old(state)@
                    })
            }
        },
{
    let i = match find_document(&state.documents, file_hash) {
        None => {
            return Err(AppError::NotFound("document not found".to_owned()));
        },
        Some(i) => i,
    };
    proof {
        lemma_document_position(old(state)@.documents, i as int);
    }
    let k = match find_page(&state.documents[i].pages, page_no) {
        None => {
            return Err(AppError::NotFound("page not found".to_owned()));
        },
        Some(k) => k,
    };
    state.documents[i].pages[k].status = "running".to_owned();
    proof {
        let d = old(state)@.documents[i as int];
        let nd = DocumentView { pages: d.pages.update(k as int, PageView { status: "running"@, ..d.pages[k as int] }), ..d };
        assert(state@.documents[i as int].pages =~= nd.pages);
        assert(state@.documents =~= old(state)@.documents.update(i as int, nd));
        assert(first_page(d.pages, page_no, k as int));
    }
    Ok(())
}

/// The page once its recognition completed with the parse `parsed`.
pub open spec fn completed_page(p: PageView, parsed: crate::ocr_page::ParsedOcrPageView) -> PageView {
    PageView {
        status: "completed"@,
        raw_text: parsed.raw_text,
        cleaned_text: parsed.cleaned_text,
        boxes: parsed.boxes,
        spans: parsed.spans,
        ..p
    }
}

/// Stores the recognition of page `page_no` of the document `file_hash`: the
/// first page with that number takes the parse's text, regions and spans and
/// is completed. Gives the positions of the document and of the page.
pub fn complete_page_state(state: &mut IngestState, file_hash: &str, page_no: u32, parsed: ParsedOcrPage) -> (r: Result<(usize, usize), AppError>)
    requires
        old(state)@.well_formed(),
    ensures
        final(state)@.well_formed(),
        !has_document(old(state)@.documents, file_hash@) ==> is_not_found(r, "document not found"@) && final(state)@
            == old(state)@,
        has_document(old(state)@.documents, file_hash@) ==> {
            let p = document_position(old(state)@.documents, file_hash@);
            let d = old(state)@.documents[p];
            if !has_page(d.pages, page_no) {
                is_not_found(r, "page not found"@) && final(state)@ == old(state)@
            } else {
                let k = first_page_index(d.pages, page_no);
                r == Ok::<(usize, usize), AppError>((p as usize, k as usize)) && final(state)@ == (IngestView {
                    documents: old(state)@.documents.update(
                        p,
                        DocumentView { pages: d.pages.update(k, completed_page(d.pages[k], parsed@)), ..d },
                    ),
                    ..old(state)@
                })
            }
        },
{
    let i = match find_document(&state.documents, file_hash) {
        None => {
            return Err(AppError::NotFound("document not found".to_owned()));
        },
        Some(i) => i,
    };
    proof {
        lemma_document_position(old(state)@.documents, i as int);
    }
    let k = match find_page(&state.documents[i].pages, page_no) {
        None => {
            return Err(AppError::NotFound("page not found".to_owned()));
        },
        Some(k) => k,
    };
    let ghost pv = parsed@;
    proof {
        lemma_first_page_index(old(state)@.documents[i as int].pages, page_no, k as int);
    }
    let ParsedOcrPage { raw_text, cleaned_text, boxes, spans } = parsed;
    state.documents[i].pages[k].status = "completed".to_owned();
    state.documents[i].pages[k].raw_text = raw_text;
    state.documents[i].pages[k].cleaned_text = cleaned_text;
    state.documents[i].pages[k].boxes = boxes;
    state.documents[i].pages[k].spans = spans;
    proof {
        let d = old(state)@.documents[i as int];
        let nd = DocumentView { pages: d.pages.update(k as int, completed_page(d.pages[k as int], pv)), ..d };
        assert(state@.documents[i as int].pages =~= nd.pages);
        assert(state@.documents =~= old(state)@.documents.update(i as int, nd));
        lemma_document_keys_kept(old(state)@.documents, state@.documents);
    }
    Ok((i, k))
}

/// `(i, k)` is the first run, and within it the first engine, that carries the
/// engine id `run_engine_id`.
pub open spec fn first_engine(runs: Seq<RunView>, run_engine_id: Seq<char>, i: int, k: int) -> bool {
    &&& 0 <= i < runs.len()
    &&& 0 <= k < runs[i].engine_configs.len()
    &&& runs[i].engine_configs[k].run_engine_id == run_engine_id
    &&& forall|j: int| 0 <= j < k ==> (#[trigger] runs[i].engine_configs[j]).run_engine_id != run_engine_id
    &&& forall|t: int| 0 <= t < i ==> !run_has_engine(#[trigger] runs[t], run_engine_id)
}

pub open spec fn run_has_engine(r: RunView, run_engine_id: Seq<char>) -> bool {
    exists|k: int| 0 <= k < r.engine_configs.len() && (#[trigger] r.engine_configs[k]).run_engine_id == run_engine_id
}

/// The state with engine `k` of run `i` given a new status, error and count of
/// usable outputs.
pub open spec fn engine_marked(s: IngestView, i: int, k: int, status: Seq<char>, error: Option<Seq<char>>, usable_output_count: u32) -> IngestView {
    let run = s.runs[i];
    let c = run.engine_configs[k];
    IngestView {
        runs: s.runs.update(
            i,
            RunView {
                engine_configs: run.engine_configs.update(
                    k,
                    EngineConfigView { status: status, error: error, usable_output_count: usable_output_count, ..c },
                ),
                ..run
            },
        ),
        ..s
    }
}

/// The first run, and within it the first engine, carrying `run_engine_id`.
fn find_engine(runs: &Vec<RunState>, run_engine_id: &str) -> (r: Option<(usize, usize)>)
    ensures
        match r {
            None => forall|t: int|
                0 <= t < runs@.len() ==> !run_has_engine(#[trigger] runs_view(runs@)[t], run_engine_id@),
            Some((i, k)) => first_engine(runs_view(runs@), run_engine_id@, i as int, k as int),
        },
{
    let ghost v = runs_view(runs@);
    let mut i: usize = 0;
    while i < runs.len()
        invariant
            i <= runs@.len(),
            v == runs_view(runs@),
            forall|t: int| 0 <= t < i ==> !run_has_engine(#[trigger] v[t], run_engine_id@),
        decreases runs@.len() - i,
    {
        let mut k: usize = 0;
        while k < runs[i].engine_configs.len()
            invariant
                i < runs@.len(),
                v == runs_view(runs@),
                k <= v[i as int].engine_configs.len(),
                forall|t: int| 0 <= t < i ==> !run_has_engine(#[trigger] v[t], run_engine_id@),
                forall|j: int| 0 <= j < k ==> (#[trigger] v[i as int].engine_configs[j]).run_engine_id != run_engine_id@,
            decreases v[i as int].engine_configs.len() - k,
        {
            if str_eq(runs[i].engine_configs[k].run_engine_id.as_str(), run_engine_id) {
                return Some((i, k));
            }
            k = k + 1;
        }
        proof {
            assert(!run_has_engine(v[i as int], run_engine_id@));
        }
        i = i + 1;
    }
    None
}

/// Records the status of the run engine `run_engine_id`, in the first run that
/// has it, and gives the positions of that run and of the engine in it; when no
/// run has it, nothing changes.
pub fn mark_engine_status(
    state: &mut IngestState,
    run_engine_id: &str,
    status: &str,
    error: Option<&str>,
    usable_output_count: u32,
) -> (r: Option<(usize, usize)>)
    requires
        old(state)@.well_formed(),
    ensures
        final(state)@.well_formed(),
        match r {
            None => final(state)@ == old(state)@ && forall|t: int|
                0 <= t < old(state)@.runs.len() ==> !run_has_engine(#[trigger] old(state)@.runs[t], run_engine_id@),
            Some((i, k)) => first_engine(old(state)@.runs, run_engine_id@, i as int, k as int) && final(state)@
                == engine_marked(old(state)@, i as int, k as int, status@, opt_str_view(error), usable_output_count),
        },
{
    match find_engine(&state.runs, run_engine_id) {
        None => None,
        Some((i, k)) => {
            let ghost run = old(state)@.runs[i as int];
            let config = RunEngineConfig {
                run_engine_id: state.runs[i].engine_configs[k].run_engine_id.clone(),
                engine_id: state.runs[i].engine_configs[k].engine_id.clone(),
                status: status.to_owned(),
                error: match error {
                    Some(e) => Some(e.to_owned()),
                    None => None,
                },
                usable_output_count,
            };
            state.runs[i].engine_configs.set(k, config);
            proof {
                let c = run.engine_configs[k as int];
                let nc = EngineConfigView { status: status@, error: opt_str_view(error), usable_output_count, ..c };
                assert(state@.runs[i as int].engine_configs =~= run.engine_configs.update(k as int, nc));
                assert(state@.runs =~= old(state)@.runs.update(
                    i as int,
                    RunView { engine_configs: run.engine_configs.update(k as int, nc), ..run },
                ));
                lemma_run_keys_kept(old(state)@.runs, state@.runs);
                assert(state@ == engine_marked(old(state)@, i as int, k as int, status@, opt_str_view(error), usable_output_count));
            }
            Some((i, k))
        },
    }
}

// ---------------------------------------------------------------------------
// Run status queries and updates

/// Whether the run `run_id` is to stop: it is not held, its stop was
/// requested, or it is cancelled.
pub fn run_cancelled(state: &IngestState, run_id: &str) -> (b: bool)
    requires
        state@.well_formed(),
    ensures
        b == (!has_run(state@.runs, run_id@) || {
            let run = state@.runs[run_position(state@.runs, run_id@)];
            run.cancel_requested || run.status == "cancelled"@
        }),
{
    match find_run(&state.runs, run_id) {
        None => true,
        Some(i) => {
            proof {
                lemma_run_position(state@.runs, i as int);
            }
            state.runs[i].cancel_requested || str_eq(state.runs[i].status.as_str(), "cancelled")
        },
    }
}

/// Some held document of the run failed.
pub open spec fn run_failed_somewhere(s: IngestView, run: RunView) -> bool {
    exists|k: int|
        0 <= k < run.file_hashes.len() && has_document(s.documents, #[trigger] run.file_hashes[k])
            && s.documents[document_position(s.documents, run.file_hashes[k])].status == "failed"@
}

/// Whether one of the documents of the run `run_id` failed.
pub fn run_has_errors(state: &IngestState, run_id: &str) -> (b: bool)
    requires
        state@.well_formed(),
    ensures
        b == (has_run(state@.runs, run_id@) && run_failed_somewhere(
            state@,
            state@.runs[run_position(state@.runs, run_id@)],
        )),
{
    let i = match find_run(&state.runs, run_id) {
        None => {
            return false;
        },
        Some(i) => i,
    };
    proof {
        lemma_run_position(state@.runs, i as int);
    }
    let ghost run = state@.runs[i as int];
    let hashes = &state.runs[i].file_hashes;
    let mut k: usize = 0;
    while k < hashes.len()
        invariant
            i < state@.runs.len(),
            run == state@.runs[i as int],
            has_run(state@.runs, run_id@),
            run_position(state@.runs, run_id@) == i,
            hashes@ == state.runs@[i as int].file_hashes@,
            documents_keyed(state@.documents),
            k <= hashes@.len(),
            forall|t: int|
                0 <= t < k ==> !(has_document(state@.documents, #[trigger] run.file_hashes[t])
                    && state@.documents[document_position(state@.documents, run.file_hashes[t])].status == "failed"@),
        decreases hashes@.len() - k,
    {
        proof {
            assert(run.file_hashes[k as int] == hashes@[k as int]@);
        }
        match find_document(&state.documents, hashes[k].as_str()) {
            Some(j) => {
                proof {
                    lemma_document_position(state@.documents, j as int);
                }
                if str_eq(state.documents[j].status.as_str(), "failed") {
                    proof {
                        assert(state@.documents[j as int].file_hash == run.file_hashes[k as int]);
                        assert(has_document(state@.documents, run.file_hashes[k as int]));
                        assert(run_failed_somewhere(state@, run));
                    }
                    return true;
                }
            },
            None => {
                proof {
                    assert(!has_document(state@.documents, run.file_hashes[k as int])) by {
                        if has_document(state@.documents, run.file_hashes[k as int]) {
                            let t = choose|t: int|
                                0 <= t < state@.documents.len() && (#[trigger] state@.documents[t]).file_hash
                                    == run.file_hashes[k as int];
                            assert(state.documents@[t].file_hash@ == hashes@[k as int]@);
                        }
                    }
                }
            },
        }
        k = k + 1;
    }
    false
}

/// The run after its status becomes `status`; a given error replaces the
/// run's error, none leaves it.
pub open spec fn with_status(r: RunView, status: Seq<char>, error: Option<Seq<char>>) -> RunView {
    RunView { status: status, error: if error is Some { error } else { r.error }, ..r }
}

/// Sets the status of the run `run_id`; nothing changes when it is not held.
pub fn mark_run_status(state: &mut IngestState, run_id: &str, status: &str, error: Option<String>) -> (found: bool)
    requires
        old(state)@.well_formed(),
    ensures
        final(state)@.well_formed(),
        found == has_run(old(state)@.runs, run_id@),
        !found ==> final(state)@ == old(state)@,
        found ==> {
            let p = run_position(old(state)@.runs, run_id@);
            final(state)@ == (IngestView {
                runs: old(state)@.runs.update(p, with_status(old(state)@.runs[p], status@, opt_view(error))),
                ..old(state)@
            })
        },
{
    match find_run(&state.runs, run_id) {
        None => false,
        Some(i) => {
            proof {
                lemma_run_position(old(state)@.runs, i as int);
            }
            let ghost e = opt_view(error);
            state.runs[i].status = status.to_owned();
            if error.is_some() {
                state.runs[i].error = error;
            }
            proof {
                let r = old(state)@.runs[i as int];
                assert(state@.runs =~= old(state)@.runs.update(i as int, with_status(r, status@, e)));
                lemma_run_keys_kept(old(state)@.runs, state@.runs);
            }
            true
        },
    }
}

/// The positions of the held documents named in `hashes`, in that order.
pub fn found_positions(docs: &Vec<DocumentState>, hashes: &[String]) -> (r: Vec<usize>)
    requires
        documents_keyed(documents_view(docs@)),
    ensures
        positions_view(r@) == found_documents(documents_view(docs@), texts_view(hashes@)),
{
    let ghost dv = documents_view(docs@);
    let ghost hs = texts_view(hashes@);
    let mut out: Vec<usize> = Vec::new();
    let mut k: usize = 0;
    proof {
        assert(positions_view(out@) =~= found_documents(dv, hs.take(0)));
    }
    while k < hashes.len()
        invariant
            k <= hashes@.len(),
            dv == documents_view(docs@),
            hs == texts_view(hashes@),
            documents_keyed(dv),
            positions_view(out@) == found_documents(dv, hs.take(k as int)),
        decreases hashes@.len() - k,
    {
        let ghost h = hs[k as int];
        let ghost before = positions_view(out@);
        proof {
            assert(hs.take(k as int + 1).drop_last() =~= hs.take(k as int));
            assert(hs.take(k as int + 1).last() == h);
        }
        match find_document(docs, hashes[k].as_str()) {
            Some(j) => {
                proof {
                    lemma_document_position(dv, j as int);
                }
                out.push(j);
                proof {
                    assert(positions_view(out@) =~= before.push(j as int));
                }
            },
            None => {
                proof {
                    assert(!has_document(dv, h)) by {
                        if has_document(dv, h) {
                            let t = choose|t: int| 0 <= t < dv.len() && (#[trigger] dv[t]).file_hash == h;
                            assert(docs@[t].file_hash@ == h);
                        }
                    }
                }
            },
        }
        k = k + 1;
    }
    proof {
        assert(hs.take(hs.len() as int) =~= hs);
    }
    out
}

/// The documents a listing shows: all held ones in order, or, for a search,
/// the held ones among the hashes it found, in the order found.
pub fn listed_documents(state: &IngestState, found_hashes: Option<&[String]>) -> (r: Vec<usize>)
    requires
        state@.well_formed(),
    ensures
        match found_hashes {
            None => positions_view(r@) == Seq::new(state@.documents.len(), |i: int| i),
            Some(h) => positions_view(r@) == found_documents(state@.documents, texts_view(h@)),
        },
{
    match found_hashes {
        Some(h) => found_positions(&state.documents, h),
        None => {
            let mut out: Vec<usize> = Vec::new();
            let mut i: usize = 0;
            while i < state.documents.len()
                invariant
                    i <= state.documents@.len(),
                    positions_view(out@) == Seq::new(i as nat, |t: int| t),
                decreases state.documents@.len() - i,
            {
                let ghost before = positions_view(out@);
                out.push(i);
                proof {
                    assert(positions_view(out@) =~= before.push(i as int));
                    assert(positions_view(out@) =~= Seq::new((i + 1) as nat, |t: int| t));
                }
                i = i + 1;
            }
            proof {
                assert(positions_view(out@) =~= Seq::new(state@.documents.len(), |t: int| t));
            }
            out
        },
    }
}

/// Where a stored document membership goes in its run's list: at its ordinal,
/// or at the end when the ordinal lies past it or is negative.
pub open spec fn membership_slot(ordinal: i64, len: nat) -> int {
    if ordinal < 0 || ordinal > len { len as int } else { ordinal as int }
}

/// Restores a stored membership of the document `file_hash` in the run
/// `run_id` at position `ordinal`; nothing changes when the run is not held.
pub fn attach_run_document(state: &mut IngestState, run_id: &str, ordinal: i64, file_hash: String) -> (found: bool)
    requires
        old(state)@.well_formed(),
    ensures
        final(state)@.well_formed(),
        found == has_run(old(state)@.runs, run_id@),
        !found ==> final(state)@ == old(state)@,
        found ==> {
            let p = run_position(old(state)@.runs, run_id@);
            let r = old(state)@.runs[p];
            final(state)@ == (IngestView {
                runs: old(state)@.runs.update(
                    p,
                    RunView {
                        file_hashes: r.file_hashes.insert(membership_slot(ordinal, r.file_hashes.len()), file_hash@),
                        ..r
                    },
                ),
                ..old(state)@
            })
        },
{
    match find_run(&state.runs, run_id) {
        None => false,
        Some(i) => {
            proof {
                lemma_run_position(old(state)@.runs, i as int);
            }
            let len = state.runs[i].file_hashes.len();
            let at: usize = if ordinal < 0 {
                len
            } else if ordinal as u64 > len as u64 {
                len
            } else {
                ordinal as usize
            };
            let ghost h = file_hash@;
            state.runs[i].file_hashes.insert(at, file_hash);
            proof {
                let r = old(state)@.runs[i as int];
                assert(at as int == membership_slot(ordinal, r.file_hashes.len()));
                assert(state@.runs[i as int].file_hashes =~= r.file_hashes.insert(at as int, h));
                assert(state@.runs =~= old(state)@.runs.update(
                    i as int,
                    RunView { file_hashes: r.file_hashes.insert(at as int, h), ..r },
                ));
                lemma_run_keys_kept(old(state)@.runs, state@.runs);
            }
            true
        },
    }
}

/// The runs a listing shows: all of them, the last key first.
pub fn listed_runs(state: &IngestState) -> (r: Vec<usize>)
    ensures
        positions_view(r@) == Seq::new(state@.runs.len(), |i: int| state@.runs.len() - 1 - i),
{
    let n = state.runs.len();
    let mut out: Vec<usize> = Vec::new();
    let mut k: usize = 0;
    while k < n
        invariant
            n == state@.runs.len(),
            k <= n,
            positions_view(out@) == Seq::new(k as nat, |i: int| n - 1 - i),
        decreases n - k,
    {
        let ghost before = positions_view(out@);
        out.push(n - 1 - k);
        proof {
            assert(positions_view(out@) =~= before.push(n - 1 - k));
            assert(positions_view(out@) =~= Seq::new((k + 1) as nat, |i: int| n - 1 - i));
        }
        k = k + 1;
    }
    out
}

/// Where the run `run_id` stands; not found when it is not held.
pub fn get_run(state: &IngestState, run_id: &str) -> (r: Result<usize, AppError>)
    requires
        state@.well_formed(),
    ensures
        has_run(state@.runs, run_id@) ==> r == Ok::<usize, AppError>(run_position(state@.runs, run_id@) as usize),
        !has_run(state@.runs, run_id@) ==> is_not_found(r, "run not found"@),
{
    match find_run(&state.runs, run_id) {
        None => Err(AppError::NotFound("run not found".to_owned())),
        Some(i) => {
            proof {
                lemma_run_position(state@.runs, i as int);
            }
            Ok(i)
        },
    }
}

/// Where the document `file_hash` stands; not found when it is not held.
pub fn get_document(state: &IngestState, file_hash: &str) -> (r: Result<usize, AppError>)
    requires
        state@.well_formed(),
    ensures
        has_document(state@.documents, file_hash@) ==> r == Ok::<usize, AppError>(
            document_position(state@.documents, file_hash@) as usize,
        ),
        !has_document(state@.documents, file_hash@) ==> is_not_found(r, "document not found"@),
{
    match find_document(&state.documents, file_hash) {
        None => Err(AppError::NotFound("document not found".to_owned())),
        Some(i) => {
            proof {
                lemma_document_position(state@.documents, i as int);
            }
            Ok(i)
        },
    }
}

// ---------------------------------------------------------------------------
// Where a document's regions and text are read from

/// The store that a request for a document's regions or text is answered
/// from, with the ids the answer carries.
pub enum ReadSource {
    /// The stored output of one engine of a run; the answer carries the run
    /// id as the request gave it.
    RunEngine { run_id: Option<String>, run_engine_id: String },
    /// The stored output of a run.
    Run { run_id: String },
    /// The pages held in memory; the answer carries no run ids.
    Memory,
}

/// An id that the request gives and that is not empty.
pub open spec fn given_id(o: Option<&str>) -> bool {
    o matches Some(v) && v@.len() > 0
}

/// A request naming a run engine is answered from that engine's stored
/// output; otherwise one naming a run from the run's; otherwise from memory.
/// An empty id counts as none.
pub fn read_source(run_id: Option<&str>, run_engine_id: Option<&str>) -> (r: ReadSource)
    ensures
        given_id(run_engine_id) ==> (r matches ReadSource::RunEngine { run_id: rid, run_engine_id: eid }
            && eid@ == run_engine_id->0@ && opt_view(rid) == opt_str_view(run_id)),
        !given_id(run_engine_id) && given_id(run_id) ==> (r matches ReadSource::Run { run_id: rid }
            && rid@ == run_id->0@),
        !given_id(run_engine_id) && !given_id(run_id) ==> r is Memory,
{
    if let Some(engine) = run_engine_id {
        if !engine.is_empty() {
            let rid = match run_id {
                Some(v) => Some(v.to_owned()),
                None => None,
            };
            return ReadSource::RunEngine { run_id: rid, run_engine_id: engine.to_owned() };
        }
    }
    if let Some(v) = run_id {
        if !v.is_empty() {
            return ReadSource::Run { run_id: v.to_owned() };
        }
    }
    ReadSource::Memory
}

// ---------------------------------------------------------------------------
// Regions

/// The regions of the pages, page after page.
pub open spec fn page_boxes(pages: Seq<PageView>) -> Seq<OverlayBoxView>
    decreases pages.len(),
{
    if pages.len() == 0 {
        seq![]
    } else {
        page_boxes(pages.drop_last()) + pages.last().boxes
    }
}

/// The regions of the document `file_hash`, page after page; none when it is
/// not held.
pub fn document_region_boxes(state: &IngestState, file_hash: &str) -> (r: Vec<OverlayBox>)
    requires
        state@.well_formed(),
    ensures
        boxes_view(r@) == (if has_document(state@.documents, file_hash@) {
            page_boxes(state@.documents[document_position(state@.documents, file_hash@)].pages)
        } else {
            Seq::<OverlayBoxView>::empty()
        }),
{
    let mut out: Vec<OverlayBox> = Vec::new();
    let j = match find_document(&state.documents, file_hash) {
        None => {
            return out;
        },
        Some(j) => j,
    };
    proof {
        lemma_document_position(state@.documents, j as int);
    }
    let pages = &state.documents[j].pages;
    let ghost pv = state@.documents[j as int].pages;
    let mut k: usize = 0;
    proof {
        assert(pv.take(0) =~= Seq::<PageView>::empty());
        assert(boxes_view(out@) =~= Seq::<OverlayBoxView>::empty());
    }
    while k < pages.len()
        invariant
            k <= pages@.len(),
            pv == pages@.map_values(|p: PageState| p@),
            boxes_view(out@) == page_boxes(pv.take(k as int)),
        decreases pages@.len() - k,
    {
        let boxes = &pages[k].boxes;
        let ghost before = boxes_view(out@);
        let mut t: usize = 0;
        while t < boxes.len()
            invariant
                t <= boxes@.len(),
                k < pages@.len(),
                boxes@ == pages@[k as int].boxes@,
                boxes_view(out@) == before + boxes_view(boxes@).take(t as int),
            decreases boxes@.len() - t,
        {
            let ghost o = boxes_view(out@);
            out.push(copy_overlay_box(&boxes[t]));
            proof {
                assert(boxes_view(out@) =~= o.push(boxes@[t as int]@));
                assert(boxes_view(boxes@).take(t as int + 1) =~= boxes_view(boxes@).take(t as int).push(boxes@[t as int]@));
            }
            t = t + 1;
        }
        proof {
            assert(boxes_view(boxes@).take(boxes@.len() as int) =~= boxes_view(boxes@));
            assert(pv.take(k as int + 1).drop_last() =~= pv.take(k as int));
            assert(pv.take(k as int + 1).last() == pv[k as int]);
        }
        k = k + 1;
    }
    proof {
        assert(pv.take(pv.len() as int) =~= pv);
    }
    out
}

/// Some page of the document `file_hash` has the picture region `region_id`.
pub open spec fn has_image_region_spec(s: IngestView, file_hash: Seq<char>, region_id: Seq<char>) -> bool {
    has_document(s.documents, file_hash) && {
        let pages = s.documents[document_position(s.documents, file_hash)].pages;
        exists|k: int, t: int|
            0 <= k < pages.len() && 0 <= t < pages[k].boxes.len() && (#[trigger] pages[k].boxes[t]).region_id
                == region_id && image_region(pages[k].boxes[t])
    }
}

/// Whether the document `file_hash` has the picture region `region_id`,
/// whose snippet may then be served.
pub fn has_image_region(state: &IngestState, file_hash: &str, region_id: &str) -> (b: bool)
    requires
        state@.well_formed(),
    ensures
        b == has_image_region_spec(state@, file_hash@, region_id@),
{
    let j = match find_document(&state.documents, file_hash) {
        None => {
            return false;
        },
        Some(j) => j,
    };
    proof {
        lemma_document_position(state@.documents, j as int);
    }
    let pages = &state.documents[j].pages;
    let ghost pv = state@.documents[j as int].pages;
    let mut k: usize = 0;
    while k < pages.len()
        invariant
            k <= pages@.len(),
            pv == pages@.map_values(|p: PageState| p@),
            pv == state@.documents[document_position(state@.documents, file_hash@)].pages,
            has_document(state@.documents, file_hash@),
            forall|a: int, t: int|
                0 <= a < k && 0 <= t < pv[a].boxes.len() ==> !((#[trigger] pv[a].boxes[t]).region_id == region_id@
                    && image_region(pv[a].boxes[t])),
        decreases pages@.len() - k,
    {
        let boxes = &pages[k].boxes;
        let mut t: usize = 0;
        while t < boxes.len()
            invariant
                t <= boxes@.len(),
                k < pages@.len(),
                pv == pages@.map_values(|p: PageState| p@),
                boxes@ == pages@[k as int].boxes@,
                pv == state@.documents[document_position(state@.documents, file_hash@)].pages,
                has_document(state@.documents, file_hash@),
                forall|u: int| 0 <= u < t ==> !((#[trigger] pv[k as int].boxes[u]).region_id == region_id@ && image_region(pv[k as int].boxes[u])),
            decreases boxes@.len() - t,
        {
            proof {
                assert(pv[k as int].boxes[t as int] == boxes@[t as int]@);
            }
            if str_eq(boxes[t].region_id.as_str(), region_id) && is_image_region(&boxes[t]) {
                return true;
            }
            t = t + 1;
        }
        k = k + 1;
    }
    false
}

/// The rendered pages of the document `file_hash` that a run still has to
/// recognize: those, in order, that are not among its finished pages.
pub fn pending_pages(file_hash: &str, rendered_page_nos: &[u32], completed_pages: &[CompletedRunPage]) -> (r: Vec<usize>)
    ensures
        positions_view(r@) == Seq::new(rendered_page_nos@.len(), |i: int| i).filter(
            |i: int| !page_completed(completed_pages@, file_hash@, rendered_page_nos@[i]),
        ),
{
    let ghost keep = |i: int| !page_completed(completed_pages@, file_hash@, rendered_page_nos@[i]);
    let ghost all = Seq::new(rendered_page_nos@.len(), |i: int| i);
    let mut out: Vec<usize> = Vec::new();
    let mut k: usize = 0;
    proof {
        reveal(Seq::filter);
        assert(all.take(0).filter(keep) =~= Seq::<int>::empty());
    }
    while k < rendered_page_nos.len()
        invariant
            k <= rendered_page_nos@.len(),
            all == Seq::new(rendered_page_nos@.len(), |i: int| i),
            keep == (|i: int| !page_completed(completed_pages@, file_hash@, rendered_page_nos@[i])),
            positions_view(out@) == all.take(k as int).filter(keep),
        decreases rendered_page_nos@.len() - k,
    {
        let page_no = rendered_page_nos[k];
        let mut done = false;
        let mut t: usize = 0;
        while t < completed_pages.len()
            invariant
                t <= completed_pages@.len(),
                k < rendered_page_nos@.len(),
                page_no == rendered_page_nos@[k as int],
                done <==> exists|j: int|
                    0 <= j < t && (#[trigger] completed_pages@[j]).file_hash@ == file_hash@ && completed_pages@[j].page_no
                        == page_no,
            decreases completed_pages@.len() - t,
        {
            if completed_pages[t].page_no == page_no && str_eq(completed_pages[t].file_hash.as_str(), file_hash) {
                done = true;
            }
            t = t + 1;
        }
        let ghost before = positions_view(out@);
        proof {
            reveal(Seq::filter);
            assert(all.take(k as int + 1).drop_last() =~= all.take(k as int));
            assert(all.take(k as int + 1).last() == k as int);
            assert(done == page_completed(completed_pages@, file_hash@, page_no));
        }
        if !done {
            out.push(k);
            proof {
                assert(positions_view(out@) =~= before.push(k as int));
            }
        }
        k = k + 1;
    }
    proof {
        assert(all.take(rendered_page_nos@.len() as int) =~= all);
    }
    out
}

// ---------------------------------------------------------------------------
// Page previews

/// The page images a document offers: its page numbers, and the `source`
/// variant when it has any pages.
pub struct PreviewImages {
    pub pages: Vec<u32>,
    pub variants: Vec<String>,
}

pub open spec fn page_numbers(pages: Seq<PageView>) -> Seq<u32> {
    pages.map_values(|p: PageView| p.page_no)
}

/// The page images of the document `file_hash`; none when it is not held.
pub fn preview_images(state: &IngestState, file_hash: &str) -> (r: PreviewImages)
    requires
        state@.well_formed(),
    ensures
        r.pages@ == (if has_document(state@.documents, file_hash@) {
            page_numbers(state@.documents[document_position(state@.documents, file_hash@)].pages)
        } else {
            Seq::<u32>::empty()
        }),
        texts_view(r.variants@) == (if r.pages@.len() > 0 { seq!["source"@] } else { Seq::<Seq<char>>::empty() }),
{
    let mut pages: Vec<u32> = Vec::new();
    match find_document(&state.documents, file_hash) {
        None => {},
        Some(j) => {
            proof {
                lemma_document_position(state@.documents, j as int);
            }
            let doc_pages = &state.documents[j].pages;
            let ghost pv = state@.documents[j as int].pages;
            let mut k: usize = 0;
            while k < doc_pages.len()
                invariant
                    k <= doc_pages@.len(),
                    pv == doc_pages@.map_values(|p: PageState| p@),
                    pages@ == page_numbers(pv).take(k as int),
                decreases doc_pages@.len() - k,
            {
                pages.push(doc_pages[k].page_no);
                proof {
                    assert(page_numbers(pv).take(k as int + 1) =~= page_numbers(pv).take(k as int).push(pv[k as int].page_no));
                }
                k = k + 1;
            }
            proof {
                assert(page_numbers(pv).take(pv.len() as int) =~= page_numbers(pv));
            }
        },
    }
    let variants = if pages.len() > 0 {
        vec!["source".to_owned()]
    } else {
        Vec::new()
    };
    proof {
        if pages@.len() > 0 {
            assert(texts_view(variants@) =~= seq!["source"@]);
        } else {
            assert(texts_view(variants@) =~= Seq::<Seq<char>>::empty());
        }
    }
    PreviewImages { pages, variants }
}

/// The image of page `page_no` of the document `file_hash` in `variant`:
/// only the `source` variant exists; the first page with that number is taken.
pub fn preview_image_path(state: &IngestState, file_hash: &str, variant: &str, page_no: u32) -> (r: Option<String>)
    requires
        state@.well_formed(),
    ensures
        variant@ != "source"@ ==> r is None,
        variant@ == "source"@ ==> match r {
            None => !has_document(state@.documents, file_hash@) || !has_page(
                state@.documents[document_position(state@.documents, file_hash@)].pages,
                page_no,
            ),
            Some(path) => has_document(state@.documents, file_hash@) && {
                let pages = state@.documents[document_position(state@.documents, file_hash@)].pages;
                has_page(pages, page_no) && path@ == pages[first_page_index(pages, page_no)].image_path
            },
        },
{
    if !str_eq(variant, "source") {
        return None;
    }
    match find_document(&state.documents, file_hash) {
        None => None,
        Some(j) => {
            proof {
                lemma_document_position(state@.documents, j as int);
            }
            match find_page(&state.documents[j].pages, page_no) {
                None => None,
                Some(k) => {
                    proof {
                        let pages = state@.documents[j as int].pages;
                        lemma_first_page_index(pages, page_no, k as int);
                    }
                    Some(state.documents[j].pages[k].image_path.clone())
                },
            }
        },
    }
}

// ---------------------------------------------------------------------------
// Completion

/// The record kept of a run once it has completed.
pub struct RunCompletionManifest {
    pub completed_at: String,
    pub run_id: String,
    pub root_path: String,
    pub engine_id: String,
    pub model_id: String,
    pub profile_id: String,
    pub runtime_id: String,
    pub status: String,
    pub file_hashes: Vec<String>,
    pub file_count: u32,
    pub queued_files: u32,
    pub page_count: u32,
    pub processed_pages: u32,
    pub total_pages: u32,
}

/// The manifest of the run `run_id`, completed at `completed_at`: the run's
/// settings and counts as they stand, with its number of documents.
pub fn completion_manifest(state: &IngestState, run_id: &str, completed_at: String) -> (r: Result<RunCompletionManifest, AppError>)
    requires
        state@.well_formed(),
    ensures
        !has_run(state@.runs, run_id@) ==> is_not_found(r, "run not found"@),
        has_run(state@.runs, run_id@) ==> {
            let run = state@.runs[run_position(state@.runs, run_id@)];
            r matches Ok(m) && m.completed_at@ == completed_at@ && m.run_id@ == run.run_id && m.root_path@
                == run.root_path && m.engine_id@ == run.engine_id && m.model_id@ == run.model_id && m.profile_id@
                == run.profile_id && m.runtime_id@ == run.runtime_id && m.status@ == run.status && texts_view(
                m.file_hashes@,
            ) == run.file_hashes && m.file_count == (if run.file_hashes.len() > u32::MAX {
                u32::MAX
            } else {
                run.file_hashes.len() as u32
            }) && m.queued_files == run.queued_files && m.page_count == run.total_pages && m.processed_pages
                == run.processed_pages && m.total_pages == run.total_pages
        },
{
    match find_run(&state.runs, run_id) {
        None => Err(AppError::NotFound("run not found".to_owned())),
        Some(i) => {
            proof {
                lemma_run_position(state@.runs, i as int);
            }
            let run = &state.runs[i];
            let n = run.file_hashes.len();
            let file_count: u32 = if n > 4294967295usize { u32::MAX } else { n as u32 };
            let file_hashes = run.file_hashes.clone();
            proof {
                assert(texts_view(file_hashes@) =~= state@.runs[i as int].file_hashes);
            }
            Ok(RunCompletionManifest {
                completed_at,
                run_id: run.run_id.clone(),
                root_path: run.root_path.clone(),
                engine_id: run.engine_id.clone(),
                model_id: run.model_id.clone(),
                profile_id: run.profile_id.clone(),
                runtime_id: run.runtime_id.clone(),
                status: run.status.clone(),
                file_hashes,
                file_count,
                queued_files: run.queued_files,
                page_count: run.total_pages,
                processed_pages: run.processed_pages,
                total_pages: run.total_pages,
            })
        },
    }
}

/// Records that the run `run_id` has its completion manifest.
pub fn attach_completion_manifest(state: &mut IngestState, run_id: &str) -> (r: Result<(), AppError>)
    requires
        old(state)@.well_formed(),
    ensures
        final(state)@.well_formed(),
        !has_run(old(state)@.runs, run_id@) ==> is_not_found(r, "run not found"@) && final(state)@ == old(state)@,
        has_run(old(state)@.runs, run_id@) ==> r is Ok && final(state)@ == completed_view(old(state)@, run_id@),
{
    match find_run(&state.runs, run_id) {
        None => Err(AppError::NotFound("run not found".to_owned())),
        Some(i) => {
            proof {
                lemma_run_position(old(state)@.runs, i as int);
            }
            state.runs[i].has_completion_manifest = true;
            proof {
                let run = old(state)@.runs[i as int];
                assert(state@.runs =~= old(state)@.runs.update(i as int, RunView { has_completion_manifest: true, ..run }));
                lemma_run_keys_kept(old(state)@.runs, state@.runs);
            }
            Ok(())
        },
    }
}

/// The state once the run `run_id` has its completion manifest.
pub open spec fn completed_view(s: IngestView, run_id: Seq<char>) -> IngestView {
    let p = run_position(s.runs, run_id);
    IngestView { runs: s.runs.update(p, RunView { has_completion_manifest: true, ..s.runs[p] }), ..s }
}

// ---------------------------------------------------------------------------
// Stopping a run

pub open spec fn document_active(status: Seq<char>) -> bool {
    status == "queued"@ || status == "running"@ || status == "rendering"@
}

/// The run after a stop: cancelled, with its cancellation requested.
pub open spec fn cancelled_run(r: RunView) -> RunView {
    RunView { cancel_requested: true, status: "cancelled"@, ..r }
}

/// A document whose work is cancelled; one with no work left stays as it was.
pub open spec fn cancelled_document(d: DocumentView) -> DocumentView {
    if document_active(d.status) {
        DocumentView { status: "cancelled"@, ..d }
    } else {
        d
    }
}

/// The documents, with the work of those named in `hashes` cancelled.
pub open spec fn documents_cancelled(docs: Seq<DocumentView>, hashes: Seq<Seq<char>>) -> Seq<DocumentView> {
    docs.map_values(|d: DocumentView| if hashes.contains(d.file_hash) { cancelled_document(d) } else { d })
}

/// The positions of the documents named in `hashes`, in that order, leaving out
/// hashes of documents that are not held.
pub open spec fn found_documents(docs: Seq<DocumentView>, hashes: Seq<Seq<char>>) -> Seq<int>
    decreases hashes.len(),
{
    if hashes.len() == 0 {
        seq![]
    } else {
        let rest = found_documents(docs, hashes.drop_last());
        if has_document(docs, hashes.last()) {
            rest.push(document_position(docs, hashes.last()))
        } else {
            rest
        }
    }
}

/// The state after the run `run_id` is stopped: a queued or running run that
/// has not completed is cancelled, with the work of its documents; any other
/// state is left as it was.
pub open spec fn stop_view(s: IngestView, run_id: Seq<char>) -> IngestView {
    if has_run(s.runs, run_id) {
        let p = run_position(s.runs, run_id);
        let r = s.runs[p];
        if !r.has_completion_manifest && run_active(r.status) {
            IngestView {
                runs: s.runs.update(p, cancelled_run(r)),
                documents: documents_cancelled(s.documents, r.file_hashes),
                ..s
            }
        } else {
            s
        }
    } else {
        s
    }
}

/// What a stop did: which run it found, whether it cancelled it, and the
/// positions of the run's documents that were held, in the run's order.
#[derive(Debug)]
pub struct StopOutcome {
    pub run_index: usize,
    pub stopped: bool,
    pub documents: Vec<usize>,
}

pub open spec fn positions_view(v: Seq<usize>) -> Seq<int> {
    v.map_values(|j: usize| j as int)
}

proof fn lemma_cancelled_document_idempotent(d: DocumentView)
    ensures
        cancelled_document(cancelled_document(d)) == cancelled_document(d),
{
}

proof fn lemma_take_contains(hs: Seq<Seq<char>>, k: int, x: Seq<char>)
    requires
        0 <= k < hs.len(),
        x != hs[k],
    ensures
        hs.take(k + 1).contains(x) == hs.take(k).contains(x),
{
    if hs.take(k + 1).contains(x) {
        let w = choose|w: int| 0 <= w < hs.take(k + 1).len() && #[trigger] hs.take(k + 1)[w] == x;
        assert(hs.take(k)[w] == x);
    }
    if hs.take(k).contains(x) {
        let w = choose|w: int| 0 <= w < hs.take(k).len() && #[trigger] hs.take(k)[w] == x;
        assert(hs.take(k + 1)[w] == x);
    }
}

proof fn lemma_document_keys_kept(a: Seq<DocumentView>, b: Seq<DocumentView>)
    requires
        documents_keyed(a),
        a.len() == b.len(),
        forall|t: int| 0 <= t < a.len() ==> (#[trigger] a[t]).file_hash == b[t].file_hash,
    ensures
        documents_keyed(b),
{
    assert forall|x: int, y: int| 0 <= x < y < b.len() implies lex_le(#[trigger] b[x].file_hash, #[trigger] b[y].file_hash)
        && b[x].file_hash != b[y].file_hash by {
        assert(a[x].file_hash == b[x].file_hash);
        assert(a[y].file_hash == b[y].file_hash);
    }
}

proof fn lemma_run_keys_kept(a: Seq<RunView>, b: Seq<RunView>)
    requires
        runs_keyed(a),
        a.len() == b.len(),
        forall|t: int| 0 <= t < a.len() ==> (#[trigger] a[t]).run_id == b[t].run_id,
    ensures
        runs_keyed(b),
{
    assert forall|x: int, y: int| 0 <= x < y < b.len() implies lex_le(#[trigger] b[x].run_id, #[trigger] b[y].run_id)
        && b[x].run_id != b[y].run_id by {
        assert(a[x].run_id == b[x].run_id);
        assert(a[y].run_id == b[y].run_id);
    }
}

pub open spec fn runs_view(v: Seq<RunState>) -> Seq<RunView> {
    v.map_values(|r: RunState| r@)
}

pub open spec fn documents_view(v: Seq<DocumentState>) -> Seq<DocumentView> {
    v.map_values(|d: DocumentState| d@)
}

/// Cancels the work of the documents named in `hashes`, and appends the
/// positions of those that are held to `found`, in the order of `hashes`.
fn cancel_documents(docs: &mut Vec<DocumentState>, hashes: &Vec<String>, found: &mut Vec<usize>)
    requires
        documents_keyed(documents_view(old(docs)@)),
    ensures
        documents_view(final(docs)@) == documents_cancelled(documents_view(old(docs)@), texts_view(hashes@)),
        positions_view(final(found)@) == positions_view(old(found)@) + found_documents(
            documents_view(old(docs)@),
            texts_view(hashes@),
        ),
{
    let ghost old_docs = documents_view(old(docs)@);
    let ghost hs = texts_view(hashes@);
    let ghost found0 = positions_view(old(found)@);
    proof {
        assert(documents_view(docs@) =~= documents_cancelled(old_docs, hs.take(0)));
        assert(positions_view(found@) =~= found0 + found_documents(old_docs, hs.take(0)));
    }
    let mut k: usize = 0;
    while k < hashes.len()
        invariant
            k <= hashes@.len(),
            hs == texts_view(hashes@),
            old_docs == documents_view(old(docs)@),
            found0 == positions_view(old(found)@),
            documents_keyed(old_docs),
            documents_view(docs@).len() == old_docs.len(),
            documents_view(docs@) == documents_cancelled(old_docs, hs.take(k as int)),
            positions_view(found@) == found0 + found_documents(old_docs, hs.take(k as int)),
        decreases hashes@.len() - k,
    {
        let ghost before_found = positions_view(found@);
        let ghost h = hs[k as int];
        proof {
            assert(hs.take(k as int + 1).drop_last() =~= hs.take(k as int));
            assert(hs.take(k as int + 1).last() == h);
            assert(hashes@[k as int]@ == h);
        }
        match find_document(docs, hashes[k].as_str()) {
            Some(j) => {
                proof {
                    assert(documents_view(docs@)[j as int] == documents_cancelled(old_docs, hs.take(k as int))[j as int]);
                    assert(old_docs[j as int].file_hash == h);
                    lemma_document_position(old_docs, j as int);
                }
                let ghost mid = documents_view(docs@);
                if document_is_active(docs[j].status.as_str()) {
                    docs[j].status = "cancelled".to_owned();
                    proof {
                        assert(documents_view(docs@) =~= mid.update(j as int, cancelled_document(mid[j as int])));
                    }
                } else {
                    proof {
                        assert(documents_view(docs@) =~= mid.update(j as int, cancelled_document(mid[j as int])));
                    }
                }
                found.push(j);
                proof {
                    assert(documents_view(docs@) =~= documents_cancelled(old_docs, hs.take(k as int + 1))) by {
                        assert forall|t: int| 0 <= t < old_docs.len() implies documents_view(docs@)[t]
                            == documents_cancelled(old_docs, hs.take(k as int + 1))[t] by {
                            let d = old_docs[t];
                            assert(mid[t] == documents_cancelled(old_docs, hs.take(k as int))[t]);
                            if t == j {
                                lemma_cancelled_document_idempotent(d);
                                assert(hs.take(k as int + 1).contains(d.file_hash)) by {
                                    assert(hs.take(k as int + 1)[k as int] == h);
                                }
                            } else {
                                assert(d.file_hash != h) by {
                                    if d.file_hash == h {
                                        lemma_document_position(old_docs, t);
                                    }
                                }
                                lemma_take_contains(hs, k as int, d.file_hash);
                            }
                        }
                    }
                    assert(positions_view(found@) =~= before_found.push(j as int));
                    assert(found0 + found_documents(old_docs, hs.take(k as int + 1)) =~= (found0 + found_documents(
                        old_docs,
                        hs.take(k as int),
                    )).push(j as int));
                }
            },
            None => {
                proof {
                    assert(!has_document(old_docs, h)) by {
                        if has_document(old_docs, h) {
                            let t = choose|t: int| 0 <= t < old_docs.len() && (#[trigger] old_docs[t]).file_hash == h;
                            assert(documents_view(docs@)[t] == documents_cancelled(old_docs, hs.take(k as int))[t]);
                            assert(documents_view(docs@)[t].file_hash == h);
                        }
                    }
                    assert(documents_view(docs@) =~= documents_cancelled(old_docs, hs.take(k as int + 1))) by {
                        assert forall|t: int| 0 <= t < old_docs.len() implies documents_view(docs@)[t]
                            == documents_cancelled(old_docs, hs.take(k as int + 1))[t] by {
                            let d = old_docs[t];
                            assert(d.file_hash != h);
                            lemma_take_contains(hs, k as int, d.file_hash);
                        }
                    }
                }
            },
        }
        k = k + 1;
    }
    proof {
        assert(hs.take(hs.len() as int) =~= hs);
    }
}

/// Stops the run `run_id`.
pub fn stop_run(state: &mut IngestState, run_id: &str) -> (r: Result<StopOutcome, AppError>)
    requires
        old(state)@.well_formed(),
    ensures
        final(state)@.well_formed(),
        final(state)@ == stop_view(old(state)@, run_id@),
        !has_run(old(state)@.runs, run_id@) ==> is_not_found(r, "run not found"@),
        has_run(old(state)@.runs, run_id@) ==> {
            let p = run_position(old(state)@.runs, run_id@);
            let run = old(state)@.runs[p];
            if run.has_completion_manifest {
                is_conflict(r, "completed runs cannot be stopped; restart from the ingest start page"@)
            } else {
                r matches Ok(o) && o.run_index == p && o.stopped == run_active(run.status) && positions_view(o.documents@)
                    == (if run_active(run.status) { found_documents(old(state)@.documents, run.file_hashes) } else { seq![] })
            }
        },
{
    let i = match find_run(&state.runs, run_id) {
        None => {
            return Err(AppError::NotFound("run not found".to_owned()));
        },
        Some(i) => i,
    };
    proof {
        lemma_run_position(old(state)@.runs, i as int);
    }
    if state.runs[i].has_completion_manifest {
        return Err(AppError::Conflict("completed runs cannot be stopped; restart from the ingest start page".to_owned()));
    }
    if !run_is_active(state.runs[i].status.as_str()) {
        return Ok(StopOutcome { run_index: i, stopped: false, documents: Vec::new() });
    }
    state.runs[i].cancel_requested = true;
    state.runs[i].status = "cancelled".to_owned();
    let hashes = state.runs[i].file_hashes.clone();
    proof {
        assert(state@.runs =~= old(state)@.runs.update(i as int, cancelled_run(old(state)@.runs[i as int])));
        assert(texts_view(hashes@) =~= old(state)@.runs[i as int].file_hashes);
        assert(documents_view(state.documents@) == old(state)@.documents);
    }
    let mut documents: Vec<usize> = Vec::new();
    cancel_documents(&mut state.documents, &hashes, &mut documents);
    proof {
        assert(positions_view(documents@) =~= found_documents(
            old(state)@.documents,
            old(state)@.runs[i as int].file_hashes,
        ));
        lemma_run_keys_kept(old(state)@.runs, state@.runs);
        lemma_document_keys_kept(old(state)@.documents, state@.documents);
    }
    Ok(StopOutcome { run_index: i, stopped: true, documents })
}

/// Stopping a run a second time changes nothing more.
pub proof fn law_stop_is_idempotent(s: IngestView, run_id: Seq<char>)
    requires
        s.well_formed(),
    ensures
        stop_view(stop_view(s, run_id), run_id) == stop_view(s, run_id),
{
    let t = stop_view(s, run_id);
    if has_run(s.runs, run_id) {
        let p = run_position(s.runs, run_id);
        let r = s.runs[p];
        if !r.has_completion_manifest && run_active(r.status) {
            assert(runs_keyed(t.runs)) by {
                assert forall|a: int, b: int| 0 <= a < b < t.runs.len() implies lex_le(
                    #[trigger] t.runs[a].run_id,
                    #[trigger] t.runs[b].run_id,
                ) && t.runs[a].run_id != t.runs[b].run_id by {
                    assert(t.runs[a].run_id == s.runs[a].run_id);
                    assert(t.runs[b].run_id == s.runs[b].run_id);
                }
            }
            lemma_run_position(t.runs, p);
            assert(t.runs[p].status == "cancelled"@);
            lemma_cancelled_not_active();
        }
    }
}

// ---------------------------------------------------------------------------
// Resuming a run

/// A page count, counting an empty document as one page.
pub open spec fn at_least_one(n: u32) -> u32 {
    if n >= 1 { n } else { 1 }
}

/// Each page of the document, counting at least one, is among the finished pages.
pub open spec fn document_complete(d: DocumentView, pages: Seq<CompletedRunPage>) -> bool {
    forall|p: u32| 1 <= p <= at_least_one(d.page_count) ==> page_completed(pages, d.file_hash, p)
}

/// The document after its run is resumed: done when all its pages are,
/// else queued again with its error cleared.
pub open spec fn resumed_document(d: DocumentView, pages: Seq<CompletedRunPage>) -> DocumentView {
    if document_complete(d, pages) {
        DocumentView { status: "completed"@, ..d }
    } else {
        DocumentView { status: "queued"@, error: None, ..d }
    }
}

/// The documents, with those named in `hashes` resumed.
pub open spec fn documents_resumed(docs: Seq<DocumentView>, hashes: Seq<Seq<char>>, pages: Seq<CompletedRunPage>) -> Seq<DocumentView> {
    docs.map_values(|d: DocumentView| if hashes.contains(d.file_hash) { resumed_document(d, pages) } else { d })
}

/// The positions of the documents named in `hashes` that still have pages to do.
pub open spec fn queued_documents(docs: Seq<DocumentView>, hashes: Seq<Seq<char>>, pages: Seq<CompletedRunPage>) -> Seq<int>
    decreases hashes.len(),
{
    if hashes.len() == 0 {
        seq![]
    } else {
        let rest = queued_documents(docs, hashes.drop_last(), pages);
        let j = document_position(docs, hashes.last());
        if has_document(docs, hashes.last()) && !document_complete(docs[j], pages) {
            rest.push(j)
        } else {
            rest
        }
    }
}

pub open spec fn saturating_add_u32(a: u32, b: u32) -> u32 {
    if a + b > u32::MAX { u32::MAX } else { (a + b) as u32 }
}

/// The pages of the documents named in `hashes`, each counting at least one,
/// summed without going past the largest `u32`.
pub open spec fn pages_total(docs: Seq<DocumentView>, hashes: Seq<Seq<char>>) -> u32
    decreases hashes.len(),
{
    if hashes.len() == 0 {
        0
    } else {
        saturating_add_u32(
            pages_total(docs, hashes.drop_last()),
            at_least_one(docs[document_position(docs, hashes.last())].page_count),
        )
    }
}

/// Each document named in `hashes` is held.
pub open spec fn all_held(docs: Seq<DocumentView>, hashes: Seq<Seq<char>>) -> bool {
    forall|k: int| 0 <= k < hashes.len() ==> has_document(docs, #[trigger] hashes[k])
}

/// `k` is the first of `hashes` whose document is not held.
pub open spec fn first_missing(docs: Seq<DocumentView>, hashes: Seq<Seq<char>>, k: int) -> bool {
    0 <= k < hashes.len() && !has_document(docs, hashes[k]) && all_held(docs, hashes.take(k))
}

/// The run after it is resumed with `total` pages, `done` of them finished
/// already, taking the selected runtime when it has none.
pub open spec fn resumed_run(r: RunView, total: u32, done: u32, selected_runtime_id: Seq<char>) -> RunView {
    RunView {
        status: "queued"@,
        cancel_requested: false,
        error: None,
        processed_pages: done,
        total_pages: total,
        current_page: if done == 0 { None } else { Some(done) },
        runtime_id: if r.runtime_id.len() == 0 { selected_runtime_id } else { r.runtime_id },
        ..r
    }
}

/// How many pages a resumed run has finished: the finished pages, but no more
/// than the run has.
pub open spec fn resumed_done(n: nat, total: u32) -> u32 {
    let c: u32 = if n > u32::MAX { u32::MAX } else { n as u32 };
    if c < total { c } else { total }
}

/// No page is listed twice.
pub open spec fn pages_distinct(pages: Seq<CompletedRunPage>) -> bool {
    forall|a: int, b: int|
        0 <= a < b < pages.len() ==> !((#[trigger] pages[a]).file_hash@ == (#[trigger] pages[b]).file_hash@
            && pages[a].page_no == pages[b].page_no)
}

/// What a resume prepared: the run, the positions of all its documents and of
/// those with pages left, each in the run's order.
#[derive(Debug)]
pub struct ResumePlan {
    pub run_index: usize,
    pub documents: Vec<usize>,
    pub queued: Vec<usize>,
}

proof fn lemma_resumed_document_idempotent(d: DocumentView, pages: Seq<CompletedRunPage>)
    ensures
        resumed_document(resumed_document(d, pages), pages) == resumed_document(d, pages),
{
}

/// The state after the run at `p` is resumed: its documents resumed, the run
/// queued again and made the active one.
pub open spec fn resumed_view(s: IngestView, p: int, run_id: Seq<char>, pages: Seq<CompletedRunPage>) -> IngestView {
    let r = s.runs[p];
    let total = pages_total(s.documents, r.file_hashes);
    IngestView {
        active_run_id: Some(run_id),
        runs: s.runs.update(p, resumed_run(r, total, resumed_done(pages.len(), total), s.selected_runtime_id)),
        documents: documents_resumed(s.documents, r.file_hashes, pages),
        ..s
    }
}

/// Prepares the run `run_id` to go on from the pages it finished: refused
/// while an ingest is under way, for an unknown or completed run, for a run
/// with no documents, or when one of its documents is no longer held.
pub fn prepare_resume_run(state: &mut IngestState, run_id: &str, completed_pages: &[CompletedRunPage]) -> (r: Result<ResumePlan, AppError>)
    requires
        old(state)@.well_formed(),
        pages_distinct(completed_pages@),
    ensures
        final(state)@.well_formed(),
        ingest_active(old(state)@) ==> is_conflict(r, "an ingest run is already queued or running"@) && final(state)@
            == old(state)@,
        !ingest_active(old(state)@) && !has_run(old(state)@.runs, run_id@) ==> is_not_found(r, "run not found"@)
            && final(state)@ == old(state)@,
        !ingest_active(old(state)@) && has_run(old(state)@.runs, run_id@) ==> {
            let s = old(state)@;
            let p = run_position(s.runs, run_id@);
            let run = s.runs[p];
            if run.has_completion_manifest {
                is_conflict(r, "completed runs cannot be resumed; restart from the ingest start page"@) && final(state)@
                    == s
            } else if run.file_hashes.len() == 0 {
                is_conflict(r, "run has no persisted document membership to resume"@) && final(state)@ == s
            } else if !all_held(s.documents, run.file_hashes) {
                exists|k: int|
                    #[trigger] first_missing(s.documents, run.file_hashes, k) && is_conflict(
                        r,
                        "run document is missing from local persistence: "@ + run.file_hashes[k],
                    ) && final(state)@ == (IngestView {
                        documents: documents_resumed(s.documents, run.file_hashes.take(k), completed_pages@),
                        ..s
                    })
            } else {
                r matches Ok(plan) && plan.run_index == p && final(state)@ == resumed_view(s, p, run_id@, completed_pages@)
                    && positions_view(plan.documents@) == found_documents(s.documents, run.file_hashes)
                    && positions_view(plan.queued@) == queued_documents(s.documents, run.file_hashes, completed_pages@)
            }
        },
        r is Ok ==> ingest_active(final(state)@),
{
    match ensure_no_active_ingest(state) {
        Err(e) => {
            return Err(e);
        },
        Ok(()) => {},
    }
    let i = match find_run(&state.runs, run_id) {
        None => {
            return Err(AppError::NotFound("run not found".to_owned()));
        },
        Some(i) => i,
    };
    proof {
        lemma_run_position(old(state)@.runs, i as int);
    }
    if state.runs[i].has_completion_manifest {
        return Err(AppError::Conflict("completed runs cannot be resumed; restart from the ingest start page".to_owned()));
    }
    if state.runs[i].file_hashes.len() == 0 {
        return Err(AppError::Conflict("run has no persisted document membership to resume".to_owned()));
    }
    let hashes = state.runs[i].file_hashes.clone();
    let ghost old_docs = old(state)@.documents;
    let ghost hs = old(state)@.runs[i as int].file_hashes;
    let ghost pages = completed_pages@;
    proof {
        assert(texts_view(hashes@) =~= hs);
        assert(state@.documents =~= documents_resumed(old_docs, hs.take(0), pages));
        assert(state@.documents == old_docs);
    }
    let mut documents: Vec<usize> = Vec::new();
    let mut queued: Vec<usize> = Vec::new();
    let mut total: u32 = 0;
    let mut k: usize = 0;
    while k < hashes.len()
        invariant
            k <= hashes@.len(),
            i < old(state)@.runs.len(),
            texts_view(hashes@) == hs,
            pages == completed_pages@,
            old_docs == old(state)@.documents,
            hs == old(state)@.runs[i as int].file_hashes,
            !ingest_active(old(state)@),
            runs_keyed(old(state)@.runs),
            run_position(old(state)@.runs, run_id@) == i,
            has_run(old(state)@.runs, run_id@),
            !old(state)@.runs[i as int].has_completion_manifest,
            old(state)@.runs[i as int].file_hashes.len() != 0,
            documents_keyed(state@.documents),
            state@.runs == old(state)@.runs,
            state@.active_run_id == old(state)@.active_run_id,
            state@.selected_runtime_id == old(state)@.selected_runtime_id,
            documents_keyed(old_docs),
            state@.documents.len() == old_docs.len(),
            state@.documents == documents_resumed(old_docs, hs.take(k as int), pages),
            all_held(old_docs, hs.take(k as int)),
            positions_view(documents@) == found_documents(old_docs, hs.take(k as int)),
            positions_view(queued@) == queued_documents(old_docs, hs.take(k as int), pages),
            total == pages_total(old_docs, hs.take(k as int)),
        decreases hashes@.len() - k,
    {
        let ghost h = hs[k as int];
        let ghost before_found = documents@;
        let ghost before_queued = queued@;
        proof {
            assert(hs.take(k as int + 1).drop_last() =~= hs.take(k as int));
            assert(hs.take(k as int + 1).last() == h);
            assert(hashes@[k as int]@ == h);
        }
        match find_document(&state.documents, hashes[k].as_str()) {
            None => {
                proof {
                    assert(!has_document(old_docs, h)) by {
                        if has_document(old_docs, h) {
                            let t = choose|t: int| 0 <= t < old_docs.len() && (#[trigger] old_docs[t]).file_hash == h;
                            assert(state@.documents[t] == documents_resumed(old_docs, hs.take(k as int), pages)[t]);
                            assert(state@.documents[t].file_hash == h);
                        }
                    }
                    assert(first_missing(old_docs, hs, k as int));
                    assert(!all_held(old_docs, hs));
                }
                let mut message = "run document is missing from local persistence: ".to_owned();
                append_str(&mut message, hashes[k].as_str());
                proof {
                    assert(message@ == "run document is missing from local persistence: "@ + hs[k as int]);
                    assert(first_missing(old_docs, hs, k as int));
                    assert(is_conflict(
                        Err::<ResumePlan, AppError>(AppError::Conflict(message)),
                        "run document is missing from local persistence: "@ + hs[k as int],
                    ));
                    assert(state@ == (IngestView {
                        documents: documents_resumed(old_docs, hs.take(k as int), pages),
                        ..old(state)@
                    }));
                }
                return Err(AppError::Conflict(message));
            },
            Some(j) => {
                proof {
                    assert(state@.documents[j as int] == documents_resumed(old_docs, hs.take(k as int), pages)[j as int]);
                    assert(old_docs[j as int].file_hash == h);
                    lemma_document_position(old_docs, j as int);
                }
                let page_count = state.documents[j].page_count;
                total = total.saturating_add(if page_count >= 1 { page_count } else { 1 });
                let ghost mid = state@.documents;
                let complete = document_complete_for_run(hashes[k].as_str(), page_count, completed_pages);
                proof {
                    assert(complete == document_complete(old_docs[j as int], pages));
                }
                if complete {
                    state.documents[j].status = "completed".to_owned();
                } else {
                    state.documents[j].status = "queued".to_owned();
                    state.documents[j].error = None;
                    queued.push(j);
                }
                documents.push(j);
                proof {
                    assert(state@.documents =~= mid.update(j as int, resumed_document(mid[j as int], pages)));
                    assert(state@.documents =~= documents_resumed(old_docs, hs.take(k as int + 1), pages)) by {
                        assert forall|t: int| 0 <= t < old_docs.len() implies state@.documents[t]
                            == documents_resumed(old_docs, hs.take(k as int + 1), pages)[t] by {
                            let d = old_docs[t];
                            assert(mid[t] == documents_resumed(old_docs, hs.take(k as int), pages)[t]);
                            if t == j {
                                lemma_resumed_document_idempotent(d, pages);
                                assert(hs.take(k as int + 1).contains(d.file_hash)) by {
                                    assert(hs.take(k as int + 1)[k as int] == h);
                                }
                            } else {
                                assert(d.file_hash != h) by {
                                    if d.file_hash == h {
                                        lemma_document_position(old_docs, t);
                                    }
                                }
                                lemma_take_contains(hs, k as int, d.file_hash);
                            }
                        }
                    }
                    lemma_document_keys_kept(old_docs, state@.documents);
                    assert(positions_view(documents@) =~= positions_view(before_found).push(j as int));
                    if complete {
                        assert(queued@ == before_queued);
                    } else {
                        assert(positions_view(queued@) =~= positions_view(before_queued).push(j as int));
                    }
                    assert(all_held(old_docs, hs.take(k as int + 1))) by {
                        assert forall|t: int| 0 <= t < hs.take(k as int + 1).len() implies has_document(
                            old_docs,
                            #[trigger] hs.take(k as int + 1)[t],
                        ) by {
                            if t < k {
                                assert(hs.take(k as int + 1)[t] == hs.take(k as int)[t]);
                            }
                        }
                    }
                }
            },
        }
        k = k + 1;
    }
    proof {
        assert(hs.take(hs.len() as int) =~= hs);
    }
    let n = completed_pages.len();
    let all_done: u32 = if n > 4294967295usize { u32::MAX } else { n as u32 };
    let done = if all_done < total { all_done } else { total };
    let ghost runs_before = state@.runs;
    state.runs[i].status = "queued".to_owned();
    state.runs[i].cancel_requested = false;
    state.runs[i].error = None;
    state.runs[i].processed_pages = done;
    state.runs[i].total_pages = total;
    state.runs[i].current_page = if done == 0 { None } else { Some(done) };
    if state.runs[i].runtime_id.as_str().unicode_len() == 0 {
        state.runs[i].runtime_id = state.selected_runtime_id.clone();
    }
    state.active_run_id = Some(run_id.to_owned());
    proof {
        let s = old(state)@;
        assert(done == resumed_done(pages.len(), total));
        assert(state@.runs =~= s.runs.update(
            i as int,
            resumed_run(s.runs[i as int], total, done, s.selected_runtime_id),
        ));
        assert(state@ == resumed_view(s, i as int, run_id@, pages));
        assert forall|a: int, b: int| 0 <= a < b < state@.documents.len() implies lex_le(
            #[trigger] state@.documents[a].file_hash,
            #[trigger] state@.documents[b].file_hash,
        ) && state@.documents[a].file_hash != state@.documents[b].file_hash by {
            assert(old_docs[a].file_hash == state@.documents[a].file_hash);
            assert(old_docs[b].file_hash == state@.documents[b].file_hash);
        }
        assert forall|a: int, b: int| 0 <= a < b < state@.runs.len() implies lex_le(
            #[trigger] state@.runs[a].run_id,
            #[trigger] state@.runs[b].run_id,
        ) && state@.runs[a].run_id != state@.runs[b].run_id by {
            assert(s.runs[a].run_id == state@.runs[a].run_id);
            assert(s.runs[b].run_id == state@.runs[b].run_id);
        }
    }
    Ok(ResumePlan { run_index: i, documents, queued })
}

// ---------------------------------------------------------------------------
// Shutdown

proof fn lemma_found_same_keys(a: Seq<DocumentView>, b: Seq<DocumentView>, hs: Seq<Seq<char>>)
    requires
        documents_keyed(a),
        a.len() == b.len(),
        forall|t: int| 0 <= t < a.len() ==> (#[trigger] a[t]).file_hash == b[t].file_hash,
    ensures
        found_documents(a, hs) == found_documents(b, hs),
    decreases hs.len(),
{
    lemma_document_keys_kept(a, b);
    if hs.len() > 0 {
        lemma_found_same_keys(a, b, hs.drop_last());
        let h = hs.last();
        if has_document(a, h) {
            let p = choose|p: int| 0 <= p < a.len() && (#[trigger] a[p]).file_hash == h;
            lemma_document_position(a, p);
            lemma_document_position(b, p);
        } else {
            assert(!has_document(b, h)) by {
                if has_document(b, h) {
                    let p = choose|p: int| 0 <= p < b.len() && (#[trigger] b[p]).file_hash == h;
                    assert(a[p].file_hash == h);
                }
            }
        }
    }
}

proof fn lemma_found_concat(d: Seq<DocumentView>, x: Seq<Seq<char>>, y: Seq<Seq<char>>)
    ensures
        found_documents(d, x + y) == found_documents(d, x) + found_documents(d, y),
    decreases y.len(),
{
    if y.len() == 0 {
        assert(x + y =~= x);
        assert(found_documents(d, x) + found_documents(d, y) =~= found_documents(d, x));
    } else {
        assert((x + y).drop_last() =~= x + y.drop_last());
        assert((x + y).last() == y.last());
        lemma_found_concat(d, x, y.drop_last());
        if has_document(d, y.last()) {
            assert(found_documents(d, x + y) =~= found_documents(d, x) + found_documents(d, y));
        } else {
            assert(found_documents(d, x + y) =~= found_documents(d, x) + found_documents(d, y));
        }
    }
}

proof fn lemma_cancelled_concat(d: Seq<DocumentView>, x: Seq<Seq<char>>, y: Seq<Seq<char>>)
    ensures
        documents_cancelled(documents_cancelled(d, x), y) == documents_cancelled(d, x + y),
{
    assert forall|t: int| 0 <= t < d.len() implies documents_cancelled(documents_cancelled(d, x), y)[t]
        == documents_cancelled(d, x + y)[t] by {
        let h = d[t].file_hash;
        lemma_cancelled_document_idempotent(d[t]);
        if x.contains(h) {
            let w = choose|w: int| 0 <= w < x.len() && x[w] == h;
            assert((x + y)[w] == h);
        }
        if y.contains(h) {
            let w = choose|w: int| 0 <= w < y.len() && y[w] == h;
            assert((x + y)[x.len() + w] == h);
        }
        if (x + y).contains(h) {
            let w = choose|w: int| 0 <= w < (x + y).len() && (x + y)[w] == h;
            if w < x.len() {
                assert(x[w] == h);
            } else {
                assert(y[w - x.len()] == h);
            }
        }
    }
    assert(documents_cancelled(documents_cancelled(d, x), y) =~= documents_cancelled(d, x + y));
}

/// A run after shutdown: cancelled when it was queued or running.
pub open spec fn cancelled_if_active(r: RunView) -> RunView {
    if run_active(r.status) {
        cancelled_run(r)
    } else {
        r
    }
}

/// The positions of the queued or running runs, in order.
pub open spec fn active_positions(runs: Seq<RunView>) -> Seq<int>
    decreases runs.len(),
{
    if runs.len() == 0 {
        seq![]
    } else {
        let rest = active_positions(runs.drop_last());
        if run_active(runs.last().status) {
            rest.push(runs.len() - 1)
        } else {
            rest
        }
    }
}

/// The ids of the queued or running runs, in order.
pub open spec fn active_ids(runs: Seq<RunView>) -> Seq<Seq<char>>
    decreases runs.len(),
{
    if runs.len() == 0 {
        seq![]
    } else {
        let rest = active_ids(runs.drop_last());
        if run_active(runs.last().status) {
            rest.push(runs.last().run_id)
        } else {
            rest
        }
    }
}

/// The documents of the queued or running runs, run after run.
pub open spec fn active_hashes(runs: Seq<RunView>) -> Seq<Seq<char>>
    decreases runs.len(),
{
    if runs.len() == 0 {
        seq![]
    } else {
        let rest = active_hashes(runs.drop_last());
        if run_active(runs.last().status) {
            rest + runs.last().file_hashes
        } else {
            rest
        }
    }
}

/// The active run is one of those shutdown cancels.
pub open spec fn active_id_cancelled(s: IngestView) -> bool {
    s.active_run_id matches Some(a) && exists|i: int|
        0 <= i < s.runs.len() && run_active(#[trigger] s.runs[i].status) && s.runs[i].run_id == a
}

/// The state after shutdown: every queued or running run cancelled with the
/// work of its documents, and no longer the active run.
pub open spec fn shutdown_view(s: IngestView) -> IngestView {
    IngestView {
        active_run_id: if active_id_cancelled(s) { None } else { s.active_run_id },
        runs: s.runs.map_values(|r: RunView| cancelled_if_active(r)),
        documents: documents_cancelled(s.documents, active_hashes(s.runs)),
        ..s
    }
}

/// What shutdown cancelled: the positions and ids of the runs, and the
/// positions of their documents that are held, run after run.
#[derive(Debug)]
pub struct ShutdownCancellation {
    pub runs: Vec<usize>,
    pub run_ids: Vec<String>,
    pub documents: Vec<usize>,
}

/// Cancels every queued or running run and the work of its documents, so that
/// the server can stop.
pub fn cancel_for_shutdown(state: &mut IngestState) -> (r: ShutdownCancellation)
    requires
        old(state)@.well_formed(),
    ensures
        final(state)@.well_formed(),
        final(state)@ == shutdown_view(old(state)@),
        positions_view(r.runs@) == active_positions(old(state)@.runs),
        texts_view(r.run_ids@) == active_ids(old(state)@.runs),
        positions_view(r.documents@) == found_documents(old(state)@.documents, active_hashes(old(state)@.runs)),
        forall|i: int| 0 <= i < final(state)@.runs.len() ==> !run_active(#[trigger] final(state)@.runs[i].status),
{
    let ghost s = old(state)@;
    let mut runs_out: Vec<usize> = Vec::new();
    let mut ids_out: Vec<String> = Vec::new();
    let mut docs_out: Vec<usize> = Vec::new();
    let mut clear = false;
    let mut i: usize = 0;
    proof {
        assert(s.runs.take(0) =~= Seq::<RunView>::empty());
        assert(texts_view(ids_out@) =~= Seq::<Seq<char>>::empty());
        assert(documents_view(state.documents@) =~= documents_cancelled(s.documents, active_hashes(s.runs.take(0))));
    }
    while i < state.runs.len()
        invariant
            s == old(state)@,
            s.well_formed(),
            i <= state@.runs.len(),
            state@.runs.len() == s.runs.len(),
            forall|t: int| 0 <= t < i ==> (#[trigger] state@.runs[t]) == cancelled_if_active(s.runs[t]),
            forall|t: int| i <= t < s.runs.len() ==> (#[trigger] state@.runs[t]) == s.runs[t],
            state@.active_run_id == s.active_run_id,
            state@.selected_runtime_id == s.selected_runtime_id,
            documents_keyed(state@.documents),
            state@.documents.len() == s.documents.len(),
            forall|t: int| 0 <= t < s.documents.len() ==> (#[trigger] state@.documents[t]).file_hash == s.documents[t].file_hash,
            state@.documents == documents_cancelled(s.documents, active_hashes(s.runs.take(i as int))),
            positions_view(docs_out@) == found_documents(s.documents, active_hashes(s.runs.take(i as int))),
            positions_view(runs_out@) == active_positions(s.runs.take(i as int)),
            texts_view(ids_out@) == active_ids(s.runs.take(i as int)),
            clear <==> (s.active_run_id matches Some(a) && exists|t: int|
                0 <= t < i && run_active(#[trigger] s.runs[t].status) && s.runs[t].run_id == a),
        decreases s.runs.len() - i,
    {
        let ghost ah = active_hashes(s.runs.take(i as int));
        proof {
            assert(s.runs.take(i as int + 1).drop_last() =~= s.runs.take(i as int));
            assert(s.runs.take(i as int + 1).last() == s.runs[i as int]);
        }
        if run_is_active(state.runs[i].status.as_str()) {
            let ghost docs_before = state@.documents;
            let ghost found_before = positions_view(docs_out@);
            let ghost runs_before = state@.runs;
            assert(runs_before[i as int] == s.runs[i as int]);
            match &state.active_run_id {
                Some(a) => {
                    if str_eq(state.runs[i].run_id.as_str(), a.as_str()) {
                        clear = true;
                    }
                },
                None => {},
            }
            state.runs[i].cancel_requested = true;
            state.runs[i].status = "cancelled".to_owned();
            runs_out.push(i);
            let ghost ids_before = texts_view(ids_out@);
            ids_out.push(state.runs[i].run_id.clone());
            proof {
                assert(texts_view(ids_out@) =~= ids_before.push(s.runs[i as int].run_id));
            }
            let hashes = state.runs[i].file_hashes.clone();
            proof {
                assert(state@.runs =~= runs_before.update(i as int, cancelled_run(s.runs[i as int])));
                assert(texts_view(hashes@) =~= s.runs[i as int].file_hashes);
                assert(documents_view(state.documents@) == docs_before);
            }
            cancel_documents(&mut state.documents, &hashes, &mut docs_out);
            proof {
                let hs = s.runs[i as int].file_hashes;
                lemma_cancelled_concat(s.documents, ah, hs);
                lemma_found_same_keys(s.documents, docs_before, hs);
                lemma_found_concat(s.documents, ah, hs);
                assert(active_hashes(s.runs.take(i as int + 1)) == ah + hs);
                assert(positions_view(runs_out@) =~= active_positions(s.runs.take(i as int)).push(i as int));
                assert forall|t: int| 0 <= t < s.documents.len() implies (#[trigger] state@.documents[t]).file_hash
                    == s.documents[t].file_hash by {
                    assert(state@.documents[t] == documents_cancelled(s.documents, ah + hs)[t]);
                }
                lemma_document_keys_kept(s.documents, state@.documents);
            }
        } else {
            proof {
                assert(state@.runs[i as int] == s.runs[i as int]);
                assert(!run_active(s.runs[i as int].status));
                assert(active_hashes(s.runs.take(i as int + 1)) == ah);
                assert(active_positions(s.runs.take(i as int + 1)) == active_positions(s.runs.take(i as int)));
                assert(active_ids(s.runs.take(i as int + 1)) == active_ids(s.runs.take(i as int)));
            }
        }
        i = i + 1;
    }
    if clear {
        state.active_run_id = None;
    }
    proof {
        assert(s.runs.take(s.runs.len() as int) =~= s.runs);
        assert(state@.runs =~= s.runs.map_values(|r: RunView| cancelled_if_active(r)));
        lemma_run_keys_kept(s.runs, state@.runs);
        lemma_cancelled_not_active();
    }
    ShutdownCancellation { runs: runs_out, run_ids: ids_out, documents: docs_out }
}

// ---------------------------------------------------------------------------
// Finished pages

/// Each finished page as its document hash and page number.
pub open spec fn page_keys(pages: Seq<CompletedRunPage>) -> Seq<(Seq<char>, u32)> {
    pages.map_values(|p: CompletedRunPage| (p.file_hash@, p.page_no))
}

/// `s` with each item only where it first occurs.
pub open spec fn first_occurrences(s: Seq<(Seq<char>, u32)>) -> Seq<(Seq<char>, u32)>
    decreases s.len(),
{
    if s.len() == 0 {
        seq![]
    } else if s.drop_last().contains(s.last()) {
        first_occurrences(s.drop_last())
    } else {
        first_occurrences(s.drop_last()).push(s.last())
    }
}

proof fn lemma_first_occurrences_contains(s: Seq<(Seq<char>, u32)>, x: (Seq<char>, u32))
    ensures
        first_occurrences(s).contains(x) == s.contains(x),
    decreases s.len(),
{
    if s.len() > 0 {
        let d = s.drop_last();
        lemma_first_occurrences_contains(d, x);
        if s.contains(x) {
            let w = choose|w: int| 0 <= w < s.len() && s[w] == x;
            if w < d.len() {
                assert(d[w] == x);
            }
        }
        if d.contains(x) {
            let w = choose|w: int| 0 <= w < d.len() && d[w] == x;
            assert(s[w] == x);
        }
        if !d.contains(s.last()) {
            let r = first_occurrences(d).push(s.last());
            if r.contains(x) {
                let w = choose|w: int| 0 <= w < r.len() && r[w] == x;
                if w < r.len() - 1 {
                    assert(first_occurrences(d)[w] == x);
                }
            }
            if first_occurrences(d).contains(x) {
                let w = choose|w: int| 0 <= w < first_occurrences(d).len() && first_occurrences(d)[w] == x;
                assert(r[w] == x);
            }
            assert(r[r.len() - 1] == s.last());
        }
        assert(s[s.len() - 1] == s.last());
    }
}

/// The finished pages of a run as a set: each page once, in the order it was
/// first listed.
pub fn completed_page_set(pages: Vec<CompletedRunPage>) -> (r: Vec<CompletedRunPage>)
    ensures
        page_keys(r@) == first_occurrences(page_keys(pages@)),
        pages_distinct(r@),
        forall|h: Seq<char>, n: u32| #[trigger] page_completed(r@, h, n) <==> page_completed(pages@, h, n),
{
    let mut out: Vec<CompletedRunPage> = Vec::new();
    let mut i: usize = 0;
    while i < pages.len()
        invariant
            i <= pages@.len(),
            pages_distinct(out@),
            page_keys(out@) == first_occurrences(page_keys(pages@.take(i as int))),
            forall|h: Seq<char>, n: u32| #[trigger] page_completed(out@, h, n) <==> page_completed(pages@.take(i as int), h, n),
        decreases pages@.len() - i,
    {
        let mut seen = false;
        let mut k: usize = 0;
        while k < out.len()
            invariant
                k <= out@.len(),
                i < pages@.len(),
                seen <==> exists|j: int|
                    0 <= j < k && (#[trigger] out@[j]).file_hash@ == pages@[i as int].file_hash@ && out@[j].page_no
                        == pages@[i as int].page_no,
            decreases out@.len() - k,
        {
            if out[k].page_no == pages[i].page_no && str_eq(out[k].file_hash.as_str(), pages[i].file_hash.as_str()) {
                seen = true;
            }
            k = k + 1;
        }
        let ghost before = out@;
        let ghost h0 = pages@[i as int].file_hash@;
        let ghost n0 = pages@[i as int].page_no;
        if !seen {
            out.push(CompletedRunPage { file_hash: pages[i].file_hash.clone(), page_no: pages[i].page_no });
        }
        proof {
            let keys = page_keys(pages@.take(i as int + 1));
            let key = (h0, n0);
            assert(page_keys(pages@.take(i as int + 1)).drop_last() =~= page_keys(pages@.take(i as int)));
            assert(keys.last() == key);
            lemma_first_occurrences_contains(page_keys(pages@.take(i as int)), key);
            assert(seen == page_keys(before).contains(key)) by {
                if seen {
                    let v = choose|v: int| 0 <= v < before.len() && (#[trigger] before[v]).file_hash@ == h0 && before[v].page_no == n0;
                    assert(page_keys(before)[v] == key);
                }
                if page_keys(before).contains(key) {
                    let v = choose|v: int| 0 <= v < page_keys(before).len() && page_keys(before)[v] == key;
                    assert(before[v].file_hash@ == h0 && before[v].page_no == n0);
                }
            }
            if seen {
                assert(page_keys(out@) == page_keys(before));
            } else {
                assert(page_keys(out@) =~= page_keys(before).push(key));
            }
            assert(pages@.take(i as int + 1) =~= pages@.take(i as int).push(pages@[i as int]));
            assert forall|h: Seq<char>, n: u32| #[trigger] page_completed(out@, h, n) <==> page_completed(
                pages@.take(i as int + 1),
                h,
                n,
            ) by {
                if page_completed(pages@.take(i as int + 1), h, n) {
                    let w = choose|w: int|
                        0 <= w < pages@.take(i as int + 1).len() && (#[trigger] pages@.take(i as int + 1)[w]).file_hash@
                            == h && pages@.take(i as int + 1)[w].page_no == n;
                    if w < i {
                        assert(pages@.take(i as int)[w] == pages@.take(i as int + 1)[w]);
                        assert(page_completed(pages@.take(i as int), h, n));
                        assert(page_completed(before, h, n));
                        let v = choose|v: int| 0 <= v < before.len() && (#[trigger] before[v]).file_hash@ == h && before[v].page_no == n;
                        assert(out@[v] == before[v]);
                    } else if seen {
                        let v = choose|v: int| 0 <= v < before.len() && (#[trigger] before[v]).file_hash@ == h0 && before[v].page_no == n0;
                        assert(out@[v] == before[v]);
                    } else {
                        assert(out@[before.len() as int].file_hash@ == h0);
                    }
                }
                if page_completed(out@, h, n) {
                    let v = choose|v: int| 0 <= v < out@.len() && (#[trigger] out@[v]).file_hash@ == h && out@[v].page_no == n;
                    if v < before.len() {
                        assert(page_completed(before, h, n));
                        let w = choose|w: int|
                            0 <= w < pages@.take(i as int).len() && (#[trigger] pages@.take(i as int)[w]).file_hash@ == h
                                && pages@.take(i as int)[w].page_no == n;
                        assert(pages@.take(i as int + 1)[w] == pages@.take(i as int)[w]);
                    } else {
                        assert(pages@.take(i as int + 1)[i as int] == pages@[i as int]);
                    }
                }
            }
            if !seen {
                assert forall|a: int, b: int| 0 <= a < b < out@.len() implies !((#[trigger] out@[a]).file_hash@
                    == (#[trigger] out@[b]).file_hash@ && out@[a].page_no == out@[b].page_no) by {
                    if b == before.len() {
                        assert(out@[a] == before[a]);
                    } else {
                        assert(out@[a] == before[a]);
                        assert(out@[b] == before[b]);
                    }
                }
            }
        }
        i = i + 1;
    }
    proof {
        assert(pages@.take(pages@.len() as int) =~= pages@);
    }
    out
}

/// Who asked the server to shut down, and when.
pub struct ShutdownRecord {
    pub source: String,
    pub requested_at: String,
}

/// Whether shutdown has been requested; the first request is kept.
pub struct ShutdownState {
    pub record: Option<ShutdownRecord>,
}

pub struct ShutdownView {
    pub record: Option<(Seq<char>, Seq<char>)>,
}

impl View for ShutdownState {
    type V = ShutdownView;

    open spec fn view(&self) -> ShutdownView {
        ShutdownView {
            record: match self.record {
                Some(r) => Some((r.source@, r.requested_at@)),
                None => None,
            },
        }
    }
}

/// The shutdown state after a request from `source` at `at`: a first request
/// is recorded, a later one leaves the first in place.
pub open spec fn requested(s: ShutdownView, source: Seq<char>, at: Seq<char>) -> ShutdownView {
    if s.record is Some {
        s
    } else {
        ShutdownView { record: Some((source, at)) }
    }
}

/// The refusal that new work gets: none before shutdown is requested.
pub open spec fn refusal(s: ShutdownView) -> Option<Seq<char>> {
    if s.record is Some {
        Some("trapo-server is shutting down and cannot start new work"@)
    } else {
        None
    }
}

impl ShutdownState {
    /// No shutdown requested yet.
    pub fn new() -> (s: ShutdownState)
        ensures
            s@.record is None,
    {
        ShutdownState { record: None }
    }

    /// Whether shutdown has been requested.
    pub fn is_requested(&self) -> (b: bool)
        ensures
            b == (self@.record is Some),
    {
        self.record.is_some()
    }

    /// Records a shutdown request from `source` at the current time, unless
    /// one was recorded already; returns the request that stands.
    pub fn request(&mut self, source: &str) -> (r: ShutdownRecord)
        ensures
            final(self)@ == requested(old(self)@, source@, r.requested_at@),
            final(self)@.record == Some((r.source@, r.requested_at@)),
            old(self)@.record is None ==> rfc3339_accepts(r.requested_at@),
    {
        match &self.record {
            Some(existing) => ShutdownRecord {
                source: existing.source.clone(),
                requested_at: existing.requested_at.clone(),
            },
            None => {
                let at = utc_now_rfc3339();
                self.record = Some(ShutdownRecord { source: source.to_owned(), requested_at: at.clone() });
                ShutdownRecord { source: source.to_owned(), requested_at: at }
            },
        }
    }
}

/// Refuses new work once shutdown has been requested.
pub fn ensure_not_shutting_down(shutdown: &ShutdownState) -> (r: Result<(), AppError>)
    ensures
        r is Ok <==> refusal(shutdown@) is None,
        refusal(shutdown@) matches Some(m) ==> is_conflict(r, m),
{
    if shutdown.is_requested() {
        return Err(AppError::Conflict("trapo-server is shutting down and cannot start new work".to_owned()));
    }
    Ok(())
}

/// Records a shutdown request from `source` and cancels every queued or
/// running run and the work of its documents.
pub fn record_shutdown_request(state: &mut IngestState, shutdown: &mut ShutdownState, source: &str) -> (r: (ShutdownRecord, ShutdownCancellation))
    requires
        old(state)@.well_formed(),
    ensures
        final(shutdown)@ == requested(old(shutdown)@, source@, r.0.requested_at@),
        final(shutdown)@.record == Some((r.0.source@, r.0.requested_at@)),
        final(state)@.well_formed(),
        final(state)@ == shutdown_view(old(state)@),
        texts_view(r.1.run_ids@) == active_ids(old(state)@.runs),
        positions_view(r.1.runs@) == active_positions(old(state)@.runs),
        positions_view(r.1.documents@) == found_documents(old(state)@.documents, active_hashes(old(state)@.runs)),
{
    let record = shutdown.request(source);
    let cancelled = cancel_for_shutdown(state);
    (record, cancelled)
}

/// Answers a shutdown request from `source`: records it, cancels the runs in
/// progress, and reports them with the `active_download_count` downloads that
/// were stopped.
pub fn request_shutdown(state: &mut IngestState, shutdown: &mut ShutdownState, source: &str, active_download_count: u32) -> (p: ShutdownPayload)
    requires
        old(state)@.well_formed(),
    ensures
        final(shutdown)@.record matches Some((src, at)) && final(shutdown)@ == requested(old(shutdown)@, source@, at)
            && p.source@ == src,
        final(state)@.well_formed(),
        final(state)@ == shutdown_view(old(state)@),
        p.active_download_count == active_download_count,
        texts_view(p.active_run_ids@) == active_ids(old(state)@.runs),
        p.grace_ms == SHUTDOWN_GRACE_MS,
        p.message@ == "Trapo is shutting down. Restart the server when you are ready."@,
        p.state@ == "shutting_down"@,
{
    let (record, cancelled) = record_shutdown_request(state, shutdown, source);
    shutdown_payload(active_download_count, cancelled.run_ids, record.source)
}

/// Requests shutdown for an operating-system signal from `source`: the
/// request is recorded and the runs in progress are cancelled.
pub fn request_signal_shutdown(state: &mut IngestState, shutdown: &mut ShutdownState, source: &str)
    requires
        old(state)@.well_formed(),
    ensures
        final(shutdown)@.record is Some,
        exists|at: Seq<char>| final(shutdown)@ == requested(old(shutdown)@, source@, at),
        final(state)@.well_formed(),
        final(state)@ == shutdown_view(old(state)@),
{
    let _ = record_shutdown_request(state, shutdown, source);
}

/// How long background work gets to finish after shutdown is requested.
pub const SHUTDOWN_GRACE_MS: u64 = 5000;
/// How long persistence queues get to drain once serving has stopped.
pub const SHUTDOWN_DRAIN_MS: u64 = 2000;

/// The answer to a shutdown request.
pub struct ShutdownPayload {
    pub active_download_count: u32,
    pub active_run_ids: Vec<String>,
    pub grace_ms: u64,
    pub message: String,
    pub source: String,
    pub state: String,
}

/// The answer to the shutdown request from `source`, with what it cancelled.
pub fn shutdown_payload(active_download_count: u32, active_run_ids: Vec<String>, source: String) -> (p: ShutdownPayload)
    ensures
        p.active_download_count == active_download_count,
        p.active_run_ids@ == active_run_ids@,
        p.grace_ms == SHUTDOWN_GRACE_MS,
        p.message@ == "Trapo is shutting down. Restart the server when you are ready."@,
        p.source@ == source@,
        p.state@ == "shutting_down"@,
{
    ShutdownPayload {
        active_download_count,
        active_run_ids,
        grace_ms: SHUTDOWN_GRACE_MS,
        message: "Trapo is shutting down. Restart the server when you are ready.".to_owned(),
        source,
        state: "shutting_down".to_owned(),
    }
}

// ---------------------------------------------------------------------------
// Laws

proof fn lemma_none_active(runs: Seq<RunView>)
    requires
        forall|i: int| 0 <= i < runs.len() ==> !run_active(#[trigger] runs[i].status),
    ensures
        active_hashes(runs) == Seq::<Seq<char>>::empty(),
        active_positions(runs) == Seq::<int>::empty(),
    decreases runs.len(),
{
    if runs.len() > 0 {
        assert(!run_active(runs[runs.len() - 1].status));
        lemma_none_active(runs.drop_last());
    }
}

proof fn lemma_cancelled_not_active()
    ensures
        !run_active("cancelled"@),
{
    reveal_strlit("cancelled");
    reveal_strlit("queued");
    reveal_strlit("running");
    assert("cancelled"@.len() != "queued"@.len());
    assert("cancelled"@.len() != "running"@.len());
}

proof fn lemma_shutdown_leaves_none_active(s: IngestView)
    ensures
        forall|i: int| 0 <= i < shutdown_view(s).runs.len() ==> !run_active(#[trigger] shutdown_view(s).runs[i].status),
{
    lemma_cancelled_not_active();
}

/// A second shutdown cancels nothing more.
pub proof fn law_shutdown_is_idempotent(s: IngestView)
    ensures
        shutdown_view(shutdown_view(s)) == shutdown_view(s),
{
    let t = shutdown_view(s);
    lemma_shutdown_leaves_none_active(s);
    lemma_none_active(t.runs);
    assert(!active_id_cancelled(t));
    assert(t.runs.map_values(|r: RunView| cancelled_if_active(r)) =~= t.runs);
    assert(documents_cancelled(t.documents, Seq::<Seq<char>>::empty()) =~= t.documents);
}

/// Once the server has begun to shut down, stopping a run changes nothing.
pub proof fn law_stop_after_shutdown_changes_nothing(s: IngestView, run_id: Seq<char>)
    ensures
        stop_view(shutdown_view(s), run_id) == shutdown_view(s),
{
    lemma_shutdown_leaves_none_active(s);
}

/// A resumed run is the active one, so a further ingest or resume is refused
/// until it ends.
pub proof fn law_resumed_run_blocks_ingest(s: IngestView, p: int, run_id: Seq<char>, pages: Seq<CompletedRunPage>)
    ensures
        ingest_active(resumed_view(s, p, run_id, pages)),
        resumed_view(s, p, run_id, pages).active_run_id == Some(run_id),
{
}

/// A run with its completion manifest can no longer be stopped: stopping it
/// leaves the state as it was.
pub proof fn law_completed_run_cannot_be_stopped(s: IngestView, run_id: Seq<char>)
    requires
        s.well_formed(),
        has_run(s.runs, run_id),
    ensures
        stop_view(completed_view(s, run_id), run_id) == completed_view(s, run_id),
{
    let p = run_position(s.runs, run_id);
    let t = completed_view(s, run_id);
    lemma_run_keys_kept(s.runs, t.runs);
    lemma_run_position(t.runs, p);
}

/// After a shutdown request new work is refused, and every run that was
/// queued or running is cancelled, with its cancellation requested, and none
/// is left in progress.
pub proof fn law_shutdown_request_refuses_new_work(s: IngestView, sh: ShutdownView, source: Seq<char>, at: Seq<char>)
    ensures
        refusal(requested(sh, source, at)) == Some("trapo-server is shutting down and cannot start new work"@),
        shutdown_view(s).runs.len() == s.runs.len(),
        forall|i: int| 0 <= i < s.runs.len() && run_active(s.runs[i].status) ==> {
            &&& (#[trigger] shutdown_view(s).runs[i]).status == "cancelled"@
            &&& shutdown_view(s).runs[i].cancel_requested
        },
        forall|i: int| 0 <= i < shutdown_view(s).runs.len() ==> !run_active(#[trigger] shutdown_view(s).runs[i].status),
{
    lemma_shutdown_leaves_none_active(s);
}

} // verus!
