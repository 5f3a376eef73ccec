//! Decisions around the native folder picker: which backend to run, how a
//! picker's exit is read, and what the client is answered.

use vstd::prelude::*;
use crate::logs::{ascii_lower, contains};
use crate::markers::find_from_exec;
use crate::text::{append_str, chars_of, decimal, push_char, push_decimal, string_from_range, trim, trim_range};

verus! {

/// The answer to a folder-picker request.
pub struct FolderDialogResponse {
    pub cancelled: bool,
    pub selected_path: String,
    pub manual_path_supported: bool,
    pub error: Option<String>,
}

/// How a folder picker ended.
pub enum DialogOutcome {
    Selected(String),
    Cancelled,
    Failed(String),
}

/// The answer for a picker that was closed without a choice.
pub fn cancelled() -> (r: FolderDialogResponse)
    ensures
        r.cancelled,
        r.selected_path@ == Seq::<char>::empty(),
        r.manual_path_supported,
        r.error is None,
{
    FolderDialogResponse { cancelled: true, selected_path: String::new(), manual_path_supported: true, error: None }
}

/// The answer for a picker that could not be shown or failed.
pub fn cancelled_with_error(error: String) -> (r: FolderDialogResponse)
    ensures
        r.cancelled,
        r.selected_path@ == Seq::<char>::empty(),
        r.manual_path_supported,
        r.error == Some(error),
{
    FolderDialogResponse { cancelled: true, selected_path: String::new(), manual_path_supported: true, error: Some(error) }
}

/// The answer for each way a picker can end.
pub fn folder_dialog_response(outcome: DialogOutcome) -> (r: FolderDialogResponse)
    ensures
        match outcome {
            DialogOutcome::Selected(path) => !r.cancelled && r.selected_path == path && r.manual_path_supported && r.error is None,
            DialogOutcome::Cancelled => r.cancelled && r.selected_path@.len() == 0 && r.manual_path_supported && r.error is None,
            DialogOutcome::Failed(e) => r.cancelled && r.selected_path@.len() == 0 && r.manual_path_supported && r.error == Some(e),
        },
{
    match outcome {
        DialogOutcome::Selected(path) => FolderDialogResponse {
            cancelled: false,
            selected_path: path,
            manual_path_supported: true,
            error: None,
        },
        DialogOutcome::Cancelled => cancelled(),
        DialogOutcome::Failed(error) => cancelled_with_error(error),
    }
}

/// The Linux picker programs, in order of preference.
#[derive(Clone, Copy, PartialEq, Eq, Structural, Debug)]
pub enum LinuxDialogBackend {
    Zenity,
    Kdialog,
}

/// Picks zenity when it is installed, else kdialog, else none.
pub fn linux_dialog_backend(zenity: bool, kdialog: bool) -> (r: Option<LinuxDialogBackend>)
    ensures
        r == if zenity {
            Some(LinuxDialogBackend::Zenity)
        } else if kdialog {
            Some(LinuxDialogBackend::Kdialog)
        } else {
            None::<LinuxDialogBackend>
        },
{
    if zenity {
        Some(LinuxDialogBackend::Zenity)
    } else if kdialog {
        Some(LinuxDialogBackend::Kdialog)
    } else {
        None
    }
}

pub open spec fn linux_backend_error_text() -> Seq<char> {
    "native Linux folder dialog requires zenity or kdialog; install one or paste a folder path manually"@
}

/// The error shown when neither picker program is installed.
pub fn linux_backend_error() -> (s: String)
    ensures
        s@ == linux_backend_error_text(),
{
    "native Linux folder dialog requires zenity or kdialog; install one or paste a folder path manually".to_owned()
}

pub open spec fn no_session_error_text() -> Seq<char> {
    "native Linux folder dialog is unavailable because no graphical session was detected"@
}

pub open spec fn present(o: Option<&str>) -> bool {
    o matches Some(v) && v@.len() > 0
}

/// A graphical session is there when `DISPLAY` is set, or when
/// `WAYLAND_DISPLAY` and `XDG_RUNTIME_DIR` are both set and the Wayland
/// socket they name exists (`wayland_socket_exists`).
pub fn graphical_session_available(display: Option<&str>, wayland_display: Option<&str>, runtime_dir: Option<&str>,
    wayland_socket_exists: bool) -> (b: bool)
    ensures
        b == (present(display) || (present(wayland_display) && present(runtime_dir) && wayland_socket_exists)),
{
    if let Some(d) = display {
        if !d.is_empty() {
            return true;
        }
    }
    let socket = match wayland_display {
        Some(w) => w,
        None => return false,
    };
    if socket.is_empty() {
        return false;
    }
    let dir = match runtime_dir {
        Some(r) => r,
        None => return false,
    };
    if dir.is_empty() {
        return false;
    }
    wayland_socket_exists
}

/// Why the Linux picker cannot be shown, if it cannot.
pub fn platform_preflight_error(graphical_session: bool, zenity: bool, kdialog: bool) -> (r: Option<String>)
    ensures
        !graphical_session ==> (r matches Some(e) && e@ == no_session_error_text()),
        graphical_session && !zenity && !kdialog ==> (r matches Some(e) && e@ == linux_backend_error_text()),
        graphical_session && (zenity || kdialog) ==> r is None,
{
    if !graphical_session {
        return Some(
            "native Linux folder dialog is unavailable because no graphical session was detected".to_owned(),
        );
    }
    if linux_dialog_backend(zenity, kdialog).is_none() {
        return Some(linux_backend_error());
    }
    None
}

/// A picker that exited with code 1 and printed nothing, or printed a
/// cancellation, was cancelled.
pub open spec fn is_cancelled_spec(code: Option<i32>, stderr: Seq<char>) -> bool {
    code == Some(1i32) && (stderr.len() == 0 || contains(ascii_lower(stderr), "cancel"@) || contains(
        ascii_lower(stderr),
        "canceled"@,
    ))
}

fn lower_contains(hay: &str, needle: &str) -> (b: bool)
    requires
        needle@.len() > 0,
        ascii_lower(needle@) == needle@,
    ensures
        b == contains(ascii_lower(hay@), needle@),
{
    let h = crate::logs::ascii_lower_exec(hay);
    let n = chars_of(needle);
    find_from_exec(&h, 0, &n).is_some()
}

/// Whether a picker's exit code and error output mean the user cancelled.
pub fn is_cancelled_command(code: Option<i32>, stderr: &str) -> (b: bool)
    ensures
        b == is_cancelled_spec(code, stderr@),
{
    proof {
        reveal_strlit("cancel");
        reveal_strlit("canceled");
    }
    assert(ascii_lower("cancel"@) =~= "cancel"@);
    assert(ascii_lower("canceled"@) =~= "canceled"@);
    code == Some(1i32) && (stderr.is_empty() || lower_contains(stderr, "cancel") || lower_contains(stderr, "canceled"))
}

/// The decimal text of a signed exit code.
pub open spec fn code_text(code: i32) -> Seq<char> {
    if code < 0 { seq!['-'] + decimal((-(code as int)) as nat) } else { decimal(code as nat) }
}

/// The tail of a failure message: the exit code, then the error output when
/// there is any.
pub open spec fn failure_detail_spec(code: Option<i32>, stderr: Seq<char>) -> Seq<char> {
    let status = match code {
        Some(c) => " with exit code "@ + code_text(c),
        None => " without an exit code"@,
    };
    if stderr.len() == 0 { status } else { status + ": "@ + stderr }
}

/// Describes how a picker failed.
pub fn command_failure_detail(code: Option<i32>, stderr: &str) -> (s: String)
    ensures
        s@ == failure_detail_spec(code, stderr@),
{
    let mut s = String::new();
    match code {
        Some(c) => {
            append_str(&mut s, " with exit code ");
            if c < 0 {
                push_char(&mut s, '-');
                let m: u64 = (0i64 - c as i64) as u64;
                push_decimal(&mut s, m);
            } else {
                push_decimal(&mut s, c as u64);
            }
        },
        None => {
            append_str(&mut s, " without an exit code");
        },
    }
    if !stderr.is_empty() {
        append_str(&mut s, ": ");
        append_str(&mut s, stderr);
    }
    assert(s@ =~= failure_detail_spec(code, stderr@));
    s
}

/// What a picker that ran printed and how it exited.
pub struct CommandOutput {
    pub stdout: String,
    pub stderr: String,
    pub code: Option<i32>,
    pub success: bool,
}

/// How a picker ended, read from its output: a printed path is the choice;
/// otherwise a cancellation, an empty answer, or a failure.
pub open spec fn dialog_outcome_spec(out_stdout: Seq<char>, out_stderr: Seq<char>, code: Option<i32>, success: bool,
    label: Seq<char>) -> (Option<Seq<char>>, bool, Seq<char>) {
    let path = trim(out_stdout);
    let err = trim(out_stderr);
    if path.len() > 0 {
        (Some(path), false, Seq::empty())
    } else if is_cancelled_spec(code, err) {
        (None, true, Seq::empty())
    } else if success {
        (None, false, label + " returned an empty path"@)
    } else {
        (None, false, label + " failed"@ + failure_detail_spec(code, err))
    }
}

pub open spec fn outcome_view(o: DialogOutcome) -> (Option<Seq<char>>, bool, Seq<char>) {
    match o {
        DialogOutcome::Selected(p) => (Some(p@), false, Seq::empty()),
        DialogOutcome::Cancelled => (None, true, Seq::empty()),
        DialogOutcome::Failed(e) => (None, false, e@),
    }
}

fn trimmed(s: &str) -> (r: String)
    ensures
        r@ == trim(s@),
{
    crate::text::trim_string(s)
}

/// Reads how a picker ended from what it printed.
pub fn command_output_to_dialog_result(output: &CommandOutput, label: &str) -> (r: DialogOutcome)
    ensures
        outcome_view(r) == dialog_outcome_spec(output.stdout@, output.stderr@, output.code, output.success, label@),
{
    let path = trimmed(output.stdout.as_str());
    if !path.as_str().is_empty() {
        return DialogOutcome::Selected(path);
    }
    let err = trimmed(output.stderr.as_str());
    if is_cancelled_command(output.code, err.as_str()) {
        return DialogOutcome::Cancelled;
    }
    let mut msg = String::new();
    append_str(&mut msg, label);
    if output.success {
        append_str(&mut msg, " returned an empty path");
        return DialogOutcome::Failed(msg);
    }
    append_str(&mut msg, " failed");
    let detail = command_failure_detail(output.code, err.as_str());
    append_str(&mut msg, detail.as_str());
    DialogOutcome::Failed(msg)
}

/// The failure for a picker program that could not be started.
pub fn start_failure(label: &str, error: &str) -> (r: DialogOutcome)
    ensures
        outcome_view(r) == (None::<Seq<char>>, false, "could not start "@ + label@ + ": "@ + error@),
{
    let mut msg = String::new();
    append_str(&mut msg, "could not start ");
    append_str(&mut msg, label);
    append_str(&mut msg, ": ");
    append_str(&mut msg, error);
    DialogOutcome::Failed(msg)
}

} // verus!
