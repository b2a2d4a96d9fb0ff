//! Gating, dispatch planning and output shaping for running fenced code from
//! the rendered preview (explicit user action only).
//!
//! Spawning processes, threads and clocks belong to the caller: this module
//! decides whether a Run button shows, which interpreters to try in which
//! order, and how run output and outcomes are presented.
use vstd::prelude::*;
use crate::text::{
    chars_of, string_of, append, trim, trim_of, lower, to_lower, eq, decimal, decimal_exec,
    is_ascii_alpha, is_ascii_alpha_char, find_char_from, find_char_from_exec,
    lemma_find_char_from_props,
};

verus! {

// ─────────────────────────────────────────────────────────────────────────────
// Settings snapshot and Run button gating
// ─────────────────────────────────────────────────────────────────────────────

/// The code-execution preferences a settings file holds.
#[derive(Debug, Clone, PartialEq, Eq, Structural)]
pub struct CodeExecutionSettings {
    pub enable_code_execution: bool,
    pub code_execution_consent_acknowledged: bool,
    pub allow_shell: bool,
    pub allow_python: bool,
    pub code_execution_timeout_secs: u32,
    pub code_execution_show_inline_output: bool,
}

/// Settings snapshot for gating and running fenced code blocks.
#[derive(Debug, Clone)]
pub struct CodeExecutionUi {
    /// Master toggle.
    pub enable: bool,
    /// Whether the user already answered the consent dialog.
    pub consent_acknowledged: bool,
    pub allow_shell: bool,
    pub allow_python: bool,
    pub timeout_secs: u32,
    /// Render output inline below the block rather than as a toast.
    pub show_inline_output: bool,
    /// Working directory for the subprocess (typically the current file's folder).
    pub working_directory: Option<String>,
}

impl CodeExecutionUi {
    /// Everything off, a 30-second timeout, inline output.
    pub fn disabled() -> (r: Self)
        ensures
            !r.enable,
            !r.consent_acknowledged,
            !r.allow_shell,
            !r.allow_python,
            r.timeout_secs == 30,
            r.show_inline_output,
            r.working_directory is None,
    {
        CodeExecutionUi {
            enable: false,
            consent_acknowledged: false,
            allow_shell: false,
            allow_python: false,
            timeout_secs: 30,
            show_inline_output: true,
            working_directory: None,
        }
    }

    /// Snapshot of the settings, with no working directory.
    pub fn from_settings(settings: &CodeExecutionSettings) -> (r: Self)
        ensures
            r.enable == settings.enable_code_execution,
            r.consent_acknowledged == settings.code_execution_consent_acknowledged,
            r.allow_shell == settings.allow_shell,
            r.allow_python == settings.allow_python,
            r.timeout_secs == settings.code_execution_timeout_secs,
            r.show_inline_output == settings.code_execution_show_inline_output,
            r.working_directory is None,
    {
        CodeExecutionUi {
            enable: settings.enable_code_execution,
            consent_acknowledged: settings.code_execution_consent_acknowledged,
            allow_shell: settings.allow_shell,
            allow_python: settings.allow_python,
            timeout_secs: settings.code_execution_timeout_secs,
            show_inline_output: settings.code_execution_show_inline_output,
            working_directory: None,
        }
    }

    /// Snapshot of the settings with the given working directory.
    pub fn from_settings_with_workdir(
        settings: &CodeExecutionSettings,
        working_directory: Option<String>,
    ) -> (r: Self)
        ensures
            r.enable == settings.enable_code_execution,
            r.consent_acknowledged == settings.code_execution_consent_acknowledged,
            r.allow_shell == settings.allow_shell,
            r.allow_python == settings.allow_python,
            r.timeout_secs == settings.code_execution_timeout_secs,
            r.show_inline_output == settings.code_execution_show_inline_output,
            r.working_directory == working_directory,
    {
        let mut s = Self::from_settings(settings);
        s.working_directory = working_directory;
        s
    }
}

#[derive(Clone, Copy, Debug, PartialEq, Eq, Structural)]
pub enum RunnableKind {
    Shell,
    Python,
}

pub open spec fn is_shell_name(t: Seq<char>) -> bool {
    t == "bash"@ || t == "sh"@ || t == "shell"@ || t == "zsh"@ || t == "pwsh"@ || t
        == "powershell"@ || t == "ps1"@ || t == "cmd"@ || t == "bat"@ || t == "batch"@
}

pub open spec fn is_python_name(t: Seq<char>) -> bool {
    t == "python"@ || t == "python3"@ || t == "py"@
}

/// The runnable kind of a fence language, ignoring surrounding whitespace and
/// ASCII case.
pub open spec fn spec_classify_language(lang: Seq<char>) -> Option<RunnableKind> {
    let t = lower(trim(lang));
    if is_shell_name(t) {
        Some(RunnableKind::Shell)
    } else if is_python_name(t) {
        Some(RunnableKind::Python)
    } else {
        None
    }
}

fn is_one_of(t: &[char], names: &[&str]) -> (r: bool)
    ensures
        r == exists|i: int| 0 <= i < names@.len() && t@ == (#[trigger] names@[i])@,
{
    let mut i: usize = 0;
    while i < names.len()
        invariant
            i <= names@.len(),
            forall|j: int| 0 <= j < i ==> t@ != (#[trigger] names@[j])@,
        decreases names@.len() - i,
    {
        if eq(t, &chars_of(names[i])) {
            return true;
        }
        i = i + 1;
    }
    false
}

fn classify_chars(t: &[char]) -> (r: Option<RunnableKind>)
    ensures
        r == (if is_shell_name(t@) {
            Some(RunnableKind::Shell)
        } else if is_python_name(t@) {
            Some(RunnableKind::Python)
        } else {
            None
        }),
{
    let shells: [&str; 10] = [
        "bash",
        "sh",
        "shell",
        "zsh",
        "pwsh",
        "powershell",
        "ps1",
        "cmd",
        "bat",
        "batch",
    ];
    let pythons: [&str; 3] = ["python", "python3", "py"];
    let s = is_one_of(t, &shells);
    let p = is_one_of(t, &pythons);
    proof {
        assert(shells@ =~= seq!["bash", "sh", "shell", "zsh", "pwsh", "powershell", "ps1", "cmd", "bat", "batch"]);
        assert(pythons@ =~= seq!["python", "python3", "py"]);
        if is_shell_name(t@) {
            if t@ == "bash"@ { assert(t@ == shells@[0]@); }
            if t@ == "sh"@ { assert(t@ == shells@[1]@); }
            if t@ == "shell"@ { assert(t@ == shells@[2]@); }
            if t@ == "zsh"@ { assert(t@ == shells@[3]@); }
            if t@ == "pwsh"@ { assert(t@ == shells@[4]@); }
            if t@ == "powershell"@ { assert(t@ == shells@[5]@); }
            if t@ == "ps1"@ { assert(t@ == shells@[6]@); }
            if t@ == "cmd"@ { assert(t@ == shells@[7]@); }
            if t@ == "bat"@ { assert(t@ == shells@[8]@); }
            if t@ == "batch"@ { assert(t@ == shells@[9]@); }
        }
        if is_python_name(t@) {
            if t@ == "python"@ { assert(t@ == pythons@[0]@); }
            if t@ == "python3"@ { assert(t@ == pythons@[1]@); }
            if t@ == "py"@ { assert(t@ == pythons@[2]@); }
        }
    }
    if s {
        Some(RunnableKind::Shell)
    } else if p {
        Some(RunnableKind::Python)
    } else {
        None
    }
}

/// Which fences run: after trimming and ASCII lowercasing, `python`, `python3`
/// and `py` are Python; `bash`, `sh`, `shell`, `zsh`, `pwsh`, `powershell`,
/// `ps1`, `cmd`, `bat` and `batch` are shell; every other language does not run.
pub proof fn law_runnable_languages(lang: Seq<char>)
    ensures
        ({
            let t = lower(trim(lang));
            &&& (t == "python"@ || t == "python3"@ || t == "py"@) ==> spec_classify_language(lang)
                == Some(RunnableKind::Python)
            &&& (t == "bash"@ || t == "sh"@ || t == "shell"@ || t == "zsh"@ || t == "pwsh"@ || t == "powershell"@ || t
                == "ps1"@ || t == "cmd"@ || t == "bat"@ || t == "batch"@) ==> spec_classify_language(lang)
                == Some(RunnableKind::Shell)
            &&& spec_classify_language(lang) == Some(RunnableKind::Python) ==> (t == "python"@ || t == "python3"@ || t
                == "py"@)
            &&& spec_classify_language(lang) is None ==> !(t == "python"@ || t == "python3"@ || t == "py"@ || t
                == "bash"@ || t == "sh"@ || t == "shell"@ || t == "zsh"@ || t == "pwsh"@ || t == "powershell"@ || t
                == "ps1"@ || t == "cmd"@ || t == "bat"@ || t == "batch"@)
        }),
{
    let t = lower(trim(lang));
    reveal_strlit("python");
    reveal_strlit("python3");
    reveal_strlit("py");
    reveal_strlit("bash");
    reveal_strlit("sh");
    reveal_strlit("shell");
    reveal_strlit("zsh");
    reveal_strlit("pwsh");
    reveal_strlit("powershell");
    reveal_strlit("ps1");
    reveal_strlit("cmd");
    reveal_strlit("bat");
    reveal_strlit("batch");
    assert("py"@ != "sh"@) by {
        assert("py"@[0] != "sh"@[0]);
    }
    assert("python"@.len() == 6);
    assert("python3"@.len() == 7);
    assert("py"@.len() == 2);
    assert("bash"@.len() == 4);
    assert("sh"@.len() == 2);
    assert("shell"@.len() == 5);
    assert("zsh"@.len() == 3);
    assert("pwsh"@.len() == 4);
    assert("powershell"@.len() == 10);
    assert("ps1"@.len() == 3);
    assert("cmd"@.len() == 3);
    assert("bat"@.len() == 3);
    assert("batch"@.len() == 5);
    assert(is_python_name(t) ==> !is_shell_name(t));
}

/// Classify a fence language as runnable shell or Python code.
pub fn classify_language(lang: &str) -> (r: Option<RunnableKind>)
    ensures
        r == spec_classify_language(lang@),
{
    let t = to_lower(&trim_of(&chars_of(lang)));
    classify_chars(&t)
}

/// The Run button shows when the language is runnable and allowed, and either
/// execution is enabled or the consent dialog has not been answered yet.
pub open spec fn spec_run_button_visible(ctx: CodeExecutionUi, language: Seq<char>) -> bool {
    match spec_classify_language(language) {
        Some(kind) => {
            let allowed = match kind {
                RunnableKind::Shell => ctx.allow_shell,
                RunnableKind::Python => ctx.allow_python,
            };
            allowed && (ctx.enable || !ctx.consent_acknowledged)
        },
        None => false,
    }
}

pub fn run_button_visible(ctx: &CodeExecutionUi, language: &str) -> (r: bool)
    ensures
        r == spec_run_button_visible(*ctx, language@),
{
    let allowed_lang = match classify_language(language) {
        Some(RunnableKind::Shell) => ctx.allow_shell,
        Some(RunnableKind::Python) => ctx.allow_python,
        None => return false,
    };
    if !allowed_lang {
        return false;
    }
    if ctx.enable {
        return true;
    }
    !ctx.consent_acknowledged
}

// ─────────────────────────────────────────────────────────────────────────────
// Run lifecycle state
// ─────────────────────────────────────────────────────────────────────────────

/// Phosphor "check" icon glyph.
pub const CHECK: &'static str = "\u{E182}";

/// Phosphor "x" icon glyph.
pub const X: &'static str = "\u{E4F6}";

/// High-level lifecycle of a single Run invocation.
#[derive(Clone, Debug, PartialEq, Eq)]
pub enum RunStatus {
    Running,
    Completed { exit_code: Option<i32> },
    Failed { message: String },
    TimedOut,
    /// User cancelled the run via the inline output panel's Stop button.
    Cancelled,
}

impl RunStatus {
    pub fn is_running(&self) -> (r: bool)
        ensures
            r == (*self is Running),
    {
        match self {
            RunStatus::Running => true,
            _ => false,
        }
    }

    /// Status glyph: an ellipsis while running, a check for exit code 0, an X
    /// for every other outcome.
    pub open spec fn spec_glyph(self) -> Seq<char> {
        match self {
            RunStatus::Running => "\u{2026}"@,
            RunStatus::Completed { exit_code: Some(0) } => CHECK@,
            _ => X@,
        }
    }

    pub fn glyph(&self) -> (r: &'static str)
        ensures
            r@ == self.spec_glyph(),
    {
        match self {
            RunStatus::Running => "\u{2026}",
            RunStatus::Completed { exit_code: Some(0) } => CHECK,
            _ => X,
        }
    }
}

/// Live state of a single run, shared between the worker and the UI. Times are
/// milliseconds on the caller's monotonic clock.
pub struct RunState {
    pub status: RunStatus,
    /// Raw stdout bytes received so far.
    pub stdout: Vec<u8>,
    /// Raw stderr bytes received so far.
    pub stderr: Vec<u8>,
    pub started_at_ms: u64,
    pub finished_at_ms: Option<u64>,
    /// Configured timeout for this run.
    pub timeout_secs: u32,
    /// Cooperative cancellation flag polled by the worker.
    pub cancel: bool,
}

impl RunState {
    /// A fresh running state started at `now_ms`.
    pub fn new(timeout_secs: u32, now_ms: u64) -> (r: Self)
        ensures
            r.status == RunStatus::Running,
            r.stdout@.len() == 0,
            r.stderr@.len() == 0,
            r.started_at_ms == now_ms,
            r.finished_at_ms is None,
            r.timeout_secs == timeout_secs,
            !r.cancel,
    {
        RunState {
            status: RunStatus::Running,
            stdout: Vec::new(),
            stderr: Vec::new(),
            started_at_ms: now_ms,
            finished_at_ms: None,
            timeout_secs,
            cancel: false,
        }
    }

    /// Time from start to finish, or to `now_ms` while still running (never
    /// negative).
    pub fn elapsed(&self, now_ms: u64) -> (r: u64)
        ensures
            r == (match self.finished_at_ms {
                Some(f) => if f >= self.started_at_ms { (f - self.started_at_ms) as u64 } else { 0 },
                None => if now_ms >= self.started_at_ms { (now_ms - self.started_at_ms) as u64 } else { 0 },
            }),
    {
        let end = match self.finished_at_ms {
            Some(f) => f,
            None => now_ms,
        };
        end.saturating_sub(self.started_at_ms)
    }

    /// True once cancellation has been requested.
    pub fn cancel_requested(&self) -> (r: bool)
        ensures
            r == self.cancel,
    {
        self.cancel
    }
}

/// Request cancellation of an in-flight run. Idempotent.
pub fn cancel(state: &mut RunState)
    ensures
        final(state).cancel,
        final(state).status == old(state).status,
        final(state).stdout@ == old(state).stdout@,
        final(state).stderr@ == old(state).stderr@,
        final(state).started_at_ms == old(state).started_at_ms,
        final(state).finished_at_ms == old(state).finished_at_ms,
        final(state).timeout_secs == old(state).timeout_secs,
{
    state.cancel = true;
}

/// Append a chunk of child output to the stream it came from.
pub fn push_chunk(state: &mut RunState, bytes: &[u8], is_stderr: bool)
    ensures
        is_stderr ==> final(state).stderr@ == old(state).stderr@ + bytes@ && final(state).stdout@ == old(state).stdout@,
        !is_stderr ==> final(state).stdout@ == old(state).stdout@ + bytes@ && final(state).stderr@ == old(state).stderr@,
        final(state).status == old(state).status,
        final(state).cancel == old(state).cancel,
        final(state).timeout_secs == old(state).timeout_secs,
        final(state).started_at_ms == old(state).started_at_ms,
        final(state).finished_at_ms == old(state).finished_at_ms,
{
    let mut i: usize = 0;
    while i < bytes.len()
        invariant
            i <= bytes@.len(),
            is_stderr ==> state.stderr@ == old(state).stderr@ + bytes@.take(i as int) && state.stdout@ == old(state).stdout@,
            !is_stderr ==> state.stdout@ == old(state).stdout@ + bytes@.take(i as int) && state.stderr@ == old(state).stderr@,
            state.status == old(state).status,
            state.cancel == old(state).cancel,
            state.timeout_secs == old(state).timeout_secs,
            state.started_at_ms == old(state).started_at_ms,
            state.finished_at_ms == old(state).finished_at_ms,
        decreases bytes@.len() - i,
    {
        if is_stderr {
            state.stderr.push(bytes[i]);
            assert(old(state).stderr@ + bytes@.take(i + 1) =~= (old(state).stderr@ + bytes@.take(i as int)).push(bytes@[i as int]));
        } else {
            state.stdout.push(bytes[i]);
            assert(old(state).stdout@ + bytes@.take(i + 1) =~= (old(state).stdout@ + bytes@.take(i as int)).push(bytes@[i as int]));
        }
        i = i + 1;
    }
    assert(bytes@.take(bytes@.len() as int) =~= bytes@);
}

/// Why a run did not finish with an exit code.
#[derive(Debug, Clone, PartialEq, Eq)]
pub enum RunError {
    Spawn(String),
    Io(String),
    TimedOut,
    Cancelled,
}

/// How a run of a fence dispatches: the language trimmed and lowercased
/// (ASCII) with its kind, or, for a language that cannot run, the spawn error
/// "Unsupported language for run.".
pub fn plan_run(fence_lang: &str) -> (r: Result<(String, RunnableKind), RunError>)
    ensures
        match r {
            Ok((l, k)) => l@ == lower(trim(fence_lang@)) && spec_classify_language(fence_lang@) == Some(k),
            Err(e) => spec_classify_language(fence_lang@) is None && (e matches RunError::Spawn(m)
                && m@ == "Unsupported language for run."@),
        },
{
    let l = to_lower(&trim_of(&chars_of(fence_lang)));
    match classify_language(fence_lang) {
        Some(k) => Ok((string_of(&l), k)),
        None => Err(RunError::Spawn("Unsupported language for run.".to_owned())),
    }
}

/// The terminal status a finished run reports.
pub open spec fn spec_run_status_of(result: Result<i32, RunError>) -> RunStatus {
    match result {
        Ok(code) => RunStatus::Completed { exit_code: Some(code) },
        Err(RunError::TimedOut) => RunStatus::TimedOut,
        Err(RunError::Cancelled) => RunStatus::Cancelled,
        Err(RunError::Spawn(msg)) => RunStatus::Failed { message: msg },
        Err(RunError::Io(msg)) => RunStatus::Failed { message: msg },
    }
}

pub fn run_status_of(result: Result<i32, RunError>) -> (r: RunStatus)
    ensures
        r == spec_run_status_of(result),
{
    match result {
        Ok(code) => RunStatus::Completed { exit_code: Some(code) },
        Err(RunError::TimedOut) => RunStatus::TimedOut,
        Err(RunError::Cancelled) => RunStatus::Cancelled,
        Err(RunError::Spawn(msg)) => RunStatus::Failed { message: msg },
        Err(RunError::Io(msg)) => RunStatus::Failed { message: msg },
    }
}

/// Record the end of a run: its finish time and terminal status.
pub fn finish_run(state: &mut RunState, result: Result<i32, RunError>, now_ms: u64)
    ensures
        final(state).status == spec_run_status_of(result),
        final(state).finished_at_ms == Some(now_ms),
        final(state).stdout@ == old(state).stdout@,
        final(state).stderr@ == old(state).stderr@,
        final(state).cancel == old(state).cancel,
        final(state).started_at_ms == old(state).started_at_ms,
        final(state).timeout_secs == old(state).timeout_secs,
{
    state.finished_at_ms = Some(now_ms);
    state.status = run_status_of(result);
}

/// Once a run has finished, its status is terminal.
pub proof fn law_finished_runs_are_not_running(result: Result<i32, RunError>)
    ensures
        !(spec_run_status_of(result) is Running),
{
}

// ─────────────────────────────────────────────────────────────────────────────
// Shell interpreter dispatch
// ─────────────────────────────────────────────────────────────────────────────

/// How a temp script is passed to the child process.
#[derive(Debug, Clone, Copy, PartialEq, Eq, Structural)]
pub enum ShellDispatchKind {
    /// `program script.sh` (POSIX shells).
    PosixScript,
    /// `pwsh|powershell -File script.ps1`
    PowerShellFile,
    /// `cmd /C script.bat`
    CmdBatch,
    /// `wsl.exe bash script.sh` (Windows WSL fallback).
    WslBash,
}

/// Ordered shell interpreter candidate for a fenced language.
#[derive(Debug)]
pub struct ShellDispatch {
    pub program: String,
    pub script_suffix: &'static str,
    pub kind: ShellDispatchKind,
}

/// A dispatch candidate as plain values.
pub struct DispatchView {
    pub program: Seq<char>,
    pub suffix: Seq<char>,
    pub kind: ShellDispatchKind,
}

pub open spec fn dispatch_view(d: ShellDispatch) -> DispatchView {
    DispatchView { program: d.program@, suffix: d.script_suffix@, kind: d.kind }
}

pub open spec fn chain_view(c: Seq<ShellDispatch>) -> Seq<DispatchView> {
    c.map_values(|d: ShellDispatch| dispatch_view(d))
}

pub open spec fn dv(program: Seq<char>, suffix: Seq<char>, kind: ShellDispatchKind) -> DispatchView {
    DispatchView { program, suffix, kind }
}

impl ShellDispatch {
    pub fn new(program: &str, script_suffix: &'static str, kind: ShellDispatchKind) -> (r: Self)
        ensures
            dispatch_view(r) == dv(program@, script_suffix@, kind),
    {
        ShellDispatch { program: program.to_owned(), script_suffix, kind }
    }

    /// An equal, independent copy.
    pub fn duplicate(&self) -> (r: Self)
        ensures
            dispatch_view(r) == dispatch_view(*self),
    {
        ShellDispatch { program: self.program.clone(), script_suffix: self.script_suffix, kind: self.kind }
    }
}

/// Git for Windows `bash.exe` installed under `bin`.
pub const GIT_BASH_BIN: &'static str = "C:\\Program Files\\Git\\bin\\bash.exe";

/// Git for Windows `bash.exe` installed under `usr\bin`.
pub const GIT_BASH_USR_BIN: &'static str = "C:\\Program Files\\Git\\usr\\bin\\bash.exe";

/// Git Bash install locations tried after `bash` on PATH.
pub const GIT_BASH_CANDIDATES: [&'static str; 2] = [GIT_BASH_BIN, GIT_BASH_USR_BIN];

/// The WSL launcher.
pub const WSL_LAUNCHER: &'static str = "C:\\Windows\\System32\\wsl.exe";

/// Windows POSIX chain: `bash` on PATH, the Git Bash installs, then WSL.
pub open spec fn spec_windows_posix_bash_chain() -> Seq<DispatchView> {
    seq![
        dv("bash"@, ".sh"@, ShellDispatchKind::PosixScript),
        dv(GIT_BASH_BIN@, ".sh"@, ShellDispatchKind::PosixScript),
        dv(GIT_BASH_USR_BIN@, ".sh"@, ShellDispatchKind::PosixScript),
        dv(WSL_LAUNCHER@, ".sh"@, ShellDispatchKind::WslBash),
    ]
}

/// Ordered interpreter candidates for a fence language (`windows` selects the
/// Windows dispatch). PowerShell and `cmd` fences use only their own shells;
/// POSIX fences never fall back to PowerShell or `cmd`.
pub open spec fn spec_shell_dispatch_chain_for(lang: Seq<char>, windows: bool) -> Seq<DispatchView> {
    if lang == "pwsh"@ || lang == "powershell"@ || lang == "ps1"@ {
        seq![
            dv("pwsh"@, ".ps1"@, ShellDispatchKind::PowerShellFile),
            dv("powershell"@, ".ps1"@, ShellDispatchKind::PowerShellFile),
        ]
    } else if lang == "cmd"@ || lang == "bat"@ || lang == "batch"@ {
        seq![dv("cmd"@, ".bat"@, ShellDispatchKind::CmdBatch)]
    } else if lang == "zsh"@ {
        if windows {
            seq![dv("zsh"@, ".sh"@, ShellDispatchKind::PosixScript)] + spec_windows_posix_bash_chain()
        } else {
            seq![
                dv("zsh"@, ".sh"@, ShellDispatchKind::PosixScript),
                dv("sh"@, ".sh"@, ShellDispatchKind::PosixScript),
            ]
        }
    } else if lang == "sh"@ {
        if windows {
            seq![dv("sh"@, ".sh"@, ShellDispatchKind::PosixScript)] + spec_windows_posix_bash_chain()
        } else {
            seq![dv("sh"@, ".sh"@, ShellDispatchKind::PosixScript)]
        }
    } else if windows {
        spec_windows_posix_bash_chain()
    } else {
        seq![
            dv("bash"@, ".sh"@, ShellDispatchKind::PosixScript),
            dv("sh"@, ".sh"@, ShellDispatchKind::PosixScript),
        ]
    }
}

pub fn windows_posix_bash_chain() -> (r: Vec<ShellDispatch>)
    ensures
        chain_view(r@) == spec_windows_posix_bash_chain(),
{
    let mut chain: Vec<ShellDispatch> = Vec::new();
    chain.push(ShellDispatch::new("bash", ".sh", ShellDispatchKind::PosixScript));
    chain.push(ShellDispatch::new(GIT_BASH_BIN, ".sh", ShellDispatchKind::PosixScript));
    chain.push(ShellDispatch::new(GIT_BASH_USR_BIN, ".sh", ShellDispatchKind::PosixScript));
    chain.push(ShellDispatch::new(WSL_LAUNCHER, ".sh", ShellDispatchKind::WslBash));
    assert(chain_view(chain@) =~= spec_windows_posix_bash_chain());
    chain
}

fn lang_is(lang: &[char], name: &str) -> (r: bool)
    ensures
        r == (lang@ == name@),
{
    eq(lang, &chars_of(name))
}

fn chain_with_head(head: ShellDispatch) -> (r: Vec<ShellDispatch>)
    ensures
        chain_view(r@) == seq![dispatch_view(head)] + spec_windows_posix_bash_chain(),
{
    let ghost h = dispatch_view(head);
    let mut chain: Vec<ShellDispatch> = Vec::new();
    chain.push(head);
    let mut rest = windows_posix_bash_chain();
    chain.append(&mut rest);
    assert(chain_view(chain@) =~= seq![h] + spec_windows_posix_bash_chain());
    chain
}

/// Platform-parameterized interpreter chain (`windows` simulates Windows dispatch).
pub fn shell_dispatch_chain_for(lang: &str, windows: bool) -> (r: Vec<ShellDispatch>)
    ensures
        chain_view(r@) == spec_shell_dispatch_chain_for(lang@, windows),
{
    let l = chars_of(lang);
    if lang_is(&l, "pwsh") || lang_is(&l, "powershell") || lang_is(&l, "ps1") {
        let mut chain: Vec<ShellDispatch> = Vec::new();
        chain.push(ShellDispatch::new("pwsh", ".ps1", ShellDispatchKind::PowerShellFile));
        chain.push(ShellDispatch::new("powershell", ".ps1", ShellDispatchKind::PowerShellFile));
        assert(chain_view(chain@) =~= spec_shell_dispatch_chain_for(lang@, windows));
        chain
    } else if lang_is(&l, "cmd") || lang_is(&l, "bat") || lang_is(&l, "batch") {
        let mut chain: Vec<ShellDispatch> = Vec::new();
        chain.push(ShellDispatch::new("cmd", ".bat", ShellDispatchKind::CmdBatch));
        assert(chain_view(chain@) =~= spec_shell_dispatch_chain_for(lang@, windows));
        chain
    } else if lang_is(&l, "zsh") {
        if windows {
            chain_with_head(ShellDispatch::new("zsh", ".sh", ShellDispatchKind::PosixScript))
        } else {
            let mut chain: Vec<ShellDispatch> = Vec::new();
            chain.push(ShellDispatch::new("zsh", ".sh", ShellDispatchKind::PosixScript));
            chain.push(ShellDispatch::new("sh", ".sh", ShellDispatchKind::PosixScript));
            assert(chain_view(chain@) =~= spec_shell_dispatch_chain_for(lang@, windows));
            chain
        }
    } else if lang_is(&l, "sh") {
        if windows {
            chain_with_head(ShellDispatch::new("sh", ".sh", ShellDispatchKind::PosixScript))
        } else {
            let mut chain: Vec<ShellDispatch> = Vec::new();
            chain.push(ShellDispatch::new("sh", ".sh", ShellDispatchKind::PosixScript));
            assert(chain_view(chain@) =~= spec_shell_dispatch_chain_for(lang@, windows));
            chain
        }
    } else if windows {
        windows_posix_bash_chain()
    } else {
        let mut chain: Vec<ShellDispatch> = Vec::new();
        chain.push(ShellDispatch::new("bash", ".sh", ShellDispatchKind::PosixScript));
        chain.push(ShellDispatch::new("sh", ".sh", ShellDispatchKind::PosixScript));
        assert(chain_view(chain@) =~= spec_shell_dispatch_chain_for(lang@, windows));
        chain
    }
}

/// The candidates whose program is available, in chain order.
pub open spec fn spec_filter_available(chain: Seq<DispatchView>, available: Seq<bool>) -> Seq<DispatchView>
    decreases chain.len(),
{
    if chain.len() == 0 {
        seq![]
    } else {
        let rest = spec_filter_available(chain.drop_last(), available);
        if available[chain.len() - 1] {
            rest.push(chain.last())
        } else {
            rest
        }
    }
}

/// Candidates whose program is available; `available[i]` answers for
/// `chain[i].program`.
pub fn filter_available_dispatches(chain: &[ShellDispatch], available: &[bool]) -> (r: Vec<ShellDispatch>)
    requires
        available@.len() == chain@.len(),
    ensures
        chain_view(r@) == spec_filter_available(chain_view(chain@), available@),
{
    let mut r: Vec<ShellDispatch> = Vec::new();
    let mut i: usize = 0;
    while i < chain.len()
        invariant
            i <= chain@.len(),
            available@.len() == chain@.len(),
            chain_view(r@) == spec_filter_available(chain_view(chain@.take(i as int)), available@),
        decreases chain@.len() - i,
    {
        assert(chain_view(chain@.take(i + 1)).drop_last() =~= chain_view(chain@.take(i as int)));
        if available[i] {
            let d = chain[i].duplicate();
            r.push(d);
            assert(chain_view(r@) =~= spec_filter_available(chain_view(chain@.take(i as int)), available@).push(dispatch_view(chain@[i as int])));
        }
        i = i + 1;
    }
    assert(chain@.take(chain@.len() as int) =~= chain@);
    r
}

/// Fence languages run by a POSIX shell.
pub open spec fn spec_is_posix_fence(lang: Seq<char>) -> bool {
    lang == "bash"@ || lang == "sh"@ || lang == "shell"@ || lang == "zsh"@
}

pub fn is_posix_fence(lang: &str) -> (r: bool)
    ensures
        r == spec_is_posix_fence(lang@),
{
    let l = chars_of(lang);
    lang_is(&l, "bash") || lang_is(&l, "sh") || lang_is(&l, "shell") || lang_is(&l, "zsh")
}

/// A POSIX fence never runs under PowerShell or `cmd`, on either platform.
pub proof fn law_posix_fences_stay_posix(lang: Seq<char>, windows: bool, i: int)
    requires
        spec_is_posix_fence(lang),
        0 <= i < spec_shell_dispatch_chain_for(lang, windows).len(),
    ensures
        spec_shell_dispatch_chain_for(lang, windows)[i].suffix == ".sh"@,
        spec_shell_dispatch_chain_for(lang, windows)[i].kind != ShellDispatchKind::PowerShellFile,
        spec_shell_dispatch_chain_for(lang, windows)[i].kind != ShellDispatchKind::CmdBatch,
{
    reveal_strlit("bash");
    reveal_strlit("sh");
    reveal_strlit("shell");
    reveal_strlit("zsh");
    reveal_strlit("pwsh");
    reveal_strlit("powershell");
    reveal_strlit("ps1");
    reveal_strlit("cmd");
    reveal_strlit("bat");
    reveal_strlit("batch");
    assert(lang.len() >= 2);
    assert(lang != "pwsh"@ && lang != "powershell"@ && lang != "ps1"@) by {
        if lang == "pwsh"@ || lang == "powershell"@ || lang == "ps1"@ {
            assert(lang[0] == 'p');
        }
    }
    assert(lang != "cmd"@ && lang != "bat"@ && lang != "batch"@) by {
        if lang == "cmd"@ {
            assert(lang[0] == 'c');
        }
        if lang == "bat"@ || lang == "batch"@ {
            assert(lang[0] == 'b' && lang[1] == 'a');
            assert(lang == "bash"@);
            assert(lang[2] == 's');
        }
    }
    let c = spec_shell_dispatch_chain_for(lang, windows);
    let w = spec_windows_posix_bash_chain();
    if lang == "zsh"@ && windows {
        let h = seq![dv("zsh"@, ".sh"@, ShellDispatchKind::PosixScript)];
        assert(c == h + w);
        if i > 0 {
            assert(c[i] == w[i - 1]);
        }
    } else if lang == "sh"@ && windows {
        let h = seq![dv("sh"@, ".sh"@, ShellDispatchKind::PosixScript)];
        assert(c == h + w);
        if i > 0 {
            assert(c[i] == w[i - 1]);
        }
    }
}

/// Filtering keeps a subsequence of the chain: never more candidates, each
/// one from the chain.
pub proof fn law_filter_keeps_subsequence(chain: Seq<DispatchView>, available: Seq<bool>)
    requires
        available.len() == chain.len(),
    ensures
        spec_filter_available(chain, available).len() <= chain.len(),
        forall|k: int| 0 <= k < spec_filter_available(chain, available).len() ==> chain.contains(
            #[trigger] spec_filter_available(chain, available)[k],
        ),
    decreases chain.len(),
{
    if chain.len() > 0 {
        let p = chain.drop_last();
        law_filter_keeps_subsequence(p, available.drop_last());
        assert(spec_filter_available(p, available.drop_last()) =~= spec_filter_available(p, available)) by {
            lemma_filter_prefix(p, available.drop_last(), available);
        }
        let f = spec_filter_available(chain, available);
        assert forall|k: int| 0 <= k < f.len() implies chain.contains(#[trigger] f[k]) by {
            if k < spec_filter_available(p, available).len() {
                let x = f[k];
                assert(p.contains(x));
                let j = choose|j: int| 0 <= j < p.len() && p[j] == x;
                assert(chain[j] == x);
            } else {
                assert(chain[chain.len() - 1] == f[k]);
            }
        }
    }
}

proof fn lemma_filter_prefix(chain: Seq<DispatchView>, a: Seq<bool>, b: Seq<bool>)
    requires
        a.len() >= chain.len(),
        b.len() >= chain.len(),
        forall|i: int| 0 <= i < chain.len() ==> a[i] == b[i],
    ensures
        spec_filter_available(chain, a) == spec_filter_available(chain, b),
    decreases chain.len(),
{
    if chain.len() > 0 {
        lemma_filter_prefix(chain.drop_last(), a, b);
    }
}

// ─────────────────────────────────────────────────────────────────────────────
// Output shaping
// ─────────────────────────────────────────────────────────────────────────────

/// The text `String::from_utf8_lossy` makes of `bytes`.
pub uninterp spec fn spec_utf8_lossy(bytes: Seq<u8>) -> Seq<char>;

/// `String::from_utf8_lossy`: decodes `bytes` as UTF-8, replacing invalid
/// sequences with U+FFFD; a function of the bytes alone, and exactly their
/// decoding when they are valid UTF-8.
#[verifier::external_body]
fn utf8_lossy(bytes: &[u8]) -> (r: String)
    ensures
        r@ == spec_utf8_lossy(bytes@),
        vstd::utf8::valid_utf8(bytes@) ==> r@ == vstd::utf8::decode_utf8(bytes@),
{
    String::from_utf8_lossy(bytes).into_owned()
}

/// The text of captured output: its UTF-8 decoding when it is valid UTF-8,
/// else the lossy decoding.
pub open spec fn lossy_text(bytes: Seq<u8>) -> Seq<char> {
    if vstd::utf8::valid_utf8(bytes) {
        vstd::utf8::decode_utf8(bytes)
    } else {
        spec_utf8_lossy(bytes)
    }
}

/// Index just past the first ASCII letter at or after `j` (a CSI sequence's
/// final byte), or the end of the text.
pub open spec fn csi_end(s: Seq<char>, j: int) -> int
    decreases s.len() - j,
{
    if j < 0 || j >= s.len() {
        s.len() as int
    } else if is_ascii_alpha(s[j]) {
        j + 1
    } else {
        csi_end(s, j + 1)
    }
}

/// Index just past the first BEL at or after `j` (an OSC terminator), or the
/// end of the text.
pub open spec fn osc_end(s: Seq<char>, j: int) -> int {
    match find_char_from(s, '\u{7}', j) {
        Some(k) => k + 1,
        None => s.len() as int,
    }
}

/// Text from index `i` on with ANSI escapes removed: `ESC [` up to and
/// including the next ASCII letter, `ESC ]` up to and including the next BEL,
/// and any other `ESC` alone.
pub open spec fn strip_ansi_from(s: Seq<char>, i: int) -> Seq<char>
    decreases s.len() - i,
{
    if i < 0 || i >= s.len() {
        seq![]
    } else if s[i] == '\u{1b}' {
        if i + 1 < s.len() && s[i + 1] == '[' {
            let e = csi_end(s, i + 2);
            if i < e <= s.len() { strip_ansi_from(s, e) } else { seq![] }
        } else if i + 1 < s.len() && s[i + 1] == ']' {
            let e = osc_end(s, i + 2);
            if i < e <= s.len() { strip_ansi_from(s, e) } else { seq![] }
        } else {
            strip_ansi_from(s, i + 1)
        }
    } else {
        seq![s[i]] + strip_ansi_from(s, i + 1)
    }
}

pub open spec fn spec_strip_ansi(s: Seq<char>) -> Seq<char> {
    strip_ansi_from(s, 0)
}

proof fn lemma_csi_end_bounds(s: Seq<char>, j: int)
    requires
        0 <= j,
    ensures
        j <= csi_end(s, j) <= s.len() || (j > s.len() && csi_end(s, j) == s.len()),
        csi_end(s, j) <= s.len(),
    decreases s.len() - j,
{
    if j < s.len() && !is_ascii_alpha(s[j]) {
        lemma_csi_end_bounds(s, j + 1);
    }
}

fn csi_end_exec(v: &[char], j: usize) -> (r: usize)
    ensures
        r as int == csi_end(v@, j as int),
{
    let mut k = j;
    while k < v.len()
        invariant
            j <= k,
            csi_end(v@, k as int) == csi_end(v@, j as int),
        decreases v@.len() - k,
    {
        if is_ascii_alpha_char(v[k]) {
            return k + 1;
        }
        k = k + 1;
    }
    v.len()
}

fn strip_ansi_chars(v: &[char]) -> (r: Vec<char>)
    ensures
        r@ == spec_strip_ansi(v@),
{
    let mut out: Vec<char> = Vec::new();
    let mut i: usize = 0;
    while i < v.len()
        invariant
            out@ + strip_ansi_from(v@, i as int) == spec_strip_ansi(v@),
        decreases v@.len() - i,
    {
        let c = v[i];
        if c == '\u{1b}' {
            if i + 1 < v.len() && v[i + 1] == '[' {
                let e = csi_end_exec(v, i + 2);
                proof {
                    lemma_csi_end_bounds(v@, i + 2);
                }
                i = e;
            } else if i + 1 < v.len() && v[i + 1] == ']' {
                proof {
                    lemma_find_char_from_props(v@, '\u{7}', i + 2);
                }
                let e = match find_char_from_exec(v, '\u{7}', i + 2) {
                    Some(k) => k + 1,
                    None => v.len(),
                };
                i = e;
            } else {
                i = i + 1;
            }
        } else {
            let ghost before = out@;
            out.push(c);
            assert(before + strip_ansi_from(v@, i as int) =~= out@ + strip_ansi_from(v@, i + 1));
            i = i + 1;
        }
    }
    assert(strip_ansi_from(v@, i as int) =~= seq![]);
    assert(out@ + seq![] =~= out@);
    out
}

/// Best-effort ANSI escape stripping for clipboard / fence insertion.
pub fn strip_ansi_plain(s: &str) -> (r: String)
    ensures
        r@ == spec_strip_ansi(s@),
{
    string_of(&strip_ansi_chars(&chars_of(s)))
}

proof fn lemma_strip_from_clean(s: Seq<char>, i: int)
    requires
        0 <= i,
    ensures
        forall|k: int| 0 <= k < strip_ansi_from(s, i).len() ==> (#[trigger] strip_ansi_from(s, i)[k]) != '\u{1b}',
        i <= s.len() && (forall|k: int| i <= k < s.len() ==> (#[trigger] s[k]) != '\u{1b}') ==> strip_ansi_from(s, i) == s.skip(i),
    decreases s.len() - i,
{
    if i < s.len() {
        if s[i] == '\u{1b}' {
            if i + 1 < s.len() && s[i + 1] == '[' {
                let e = csi_end(s, i + 2);
                if i < e <= s.len() {
                    lemma_strip_from_clean(s, e);
                    assert(strip_ansi_from(s, i) == strip_ansi_from(s, e));
                } else {
                    assert(strip_ansi_from(s, i) == Seq::<char>::empty());
                }
            } else if i + 1 < s.len() && s[i + 1] == ']' {
                let e = osc_end(s, i + 2);
                if i < e <= s.len() {
                    lemma_strip_from_clean(s, e);
                    assert(strip_ansi_from(s, i) == strip_ansi_from(s, e));
                } else {
                    assert(strip_ansi_from(s, i) == Seq::<char>::empty());
                }
            } else {
                lemma_strip_from_clean(s, i + 1);
                assert(strip_ansi_from(s, i) == strip_ansi_from(s, i + 1));
            }
        } else {
            lemma_strip_from_clean(s, i + 1);
            let r = strip_ansi_from(s, i + 1);
            assert(strip_ansi_from(s, i) == seq![s[i]] + r);
            assert forall|k: int| 0 <= k < strip_ansi_from(s, i).len() implies (#[trigger] strip_ansi_from(s, i)[k]) != '\u{1b}' by {
                if k > 0 {
                    assert(strip_ansi_from(s, i)[k] == r[k - 1]);
                }
            }
            if forall|k: int| i <= k < s.len() ==> (#[trigger] s[k]) != '\u{1b}' {
                assert(seq![s[i]] + s.skip(i + 1) =~= s.skip(i));
            }
        }
    } else if i == s.len() {
        assert(s.skip(i) =~= Seq::<char>::empty());
    }
}

/// `a` is `b` with some characters left out: the positions of `b` it keeps,
/// in increasing order.
pub open spec fn kept_positions(a: Seq<char>, b: Seq<char>, idx: Seq<int>) -> bool {
    &&& idx.len() == a.len()
    &&& forall|k: int| 0 <= k < idx.len() ==> 0 <= #[trigger] idx[k] < b.len() && b[idx[k]] == a[k]
    &&& forall|k: int, m: int| 0 <= k < m < idx.len() ==> #[trigger] idx[k] < #[trigger] idx[m]
}

proof fn strip_positions(s: Seq<char>, i: int) -> (idx: Seq<int>)
    requires
        0 <= i,
    ensures
        idx.len() == strip_ansi_from(s, i).len(),
        forall|k: int| 0 <= k < idx.len() ==> i <= #[trigger] idx[k] < s.len() && s[idx[k]] == strip_ansi_from(s, i)[k],
        forall|k: int, m: int| 0 <= k < m < idx.len() ==> #[trigger] idx[k] < #[trigger] idx[m],
    decreases s.len() - i,
{
    if i >= s.len() {
        seq![]
    } else if s[i] == '\u{1b}' {
        if i + 1 < s.len() && s[i + 1] == '[' {
            let e = csi_end(s, i + 2);
            if i < e <= s.len() {
                strip_positions(s, e)
            } else {
                seq![]
            }
        } else if i + 1 < s.len() && s[i + 1] == ']' {
            let e = osc_end(s, i + 2);
            if i < e <= s.len() {
                strip_positions(s, e)
            } else {
                seq![]
            }
        } else {
            strip_positions(s, i + 1)
        }
    } else {
        let rest = strip_positions(s, i + 1);
        let r = strip_ansi_from(s, i + 1);
        let idx = seq![i] + rest;
        assert(strip_ansi_from(s, i) == seq![s[i]] + r);
        assert forall|k: int| 0 <= k < idx.len() implies i <= #[trigger] idx[k] < s.len() && s[idx[k]] == strip_ansi_from(s, i)[k] by {
            if k > 0 {
                assert(idx[k] == rest[k - 1]);
            }
        }
        assert forall|k: int, m: int| 0 <= k < m < idx.len() implies #[trigger] idx[k] < #[trigger] idx[m] by {
            if k > 0 {
                assert(idx[k] == rest[k - 1]);
            }
            assert(idx[m] == rest[m - 1]);
        }
        idx
    }
}

/// Stripping only leaves characters out: the result is the input with some of
/// its characters removed, order kept.
pub proof fn law_strip_ansi_keeps_order(s: Seq<char>)
    ensures
        exists|idx: Seq<int>| kept_positions(spec_strip_ansi(s), s, idx),
{
    let idx = strip_positions(s, 0);
    assert(kept_positions(spec_strip_ansi(s), s, idx));
}

/// Stripping leaves no escape character, and text without one comes back as
/// it is: stripping twice is stripping once.
pub proof fn law_strip_ansi_clean(s: Seq<char>)
    ensures
        forall|k: int| 0 <= k < spec_strip_ansi(s).len() ==> (#[trigger] spec_strip_ansi(s)[k]) != '\u{1b}',
        spec_strip_ansi(spec_strip_ansi(s)) == spec_strip_ansi(s),
        (forall|k: int| 0 <= k < s.len() ==> (#[trigger] s[k]) != '\u{1b}') ==> spec_strip_ansi(s) == s,
{
    lemma_strip_from_clean(s, 0);
    assert(s.skip(0) =~= s);
    let r = spec_strip_ansi(s);
    lemma_strip_from_clean(r, 0);
    assert(r.skip(0) =~= r);
}

/// `a`, then a line break unless `a` is empty or already ends with one.
pub open spec fn break_after(a: Seq<char>) -> Seq<char> {
    if a.len() > 0 && a.last() != '\n' {
        a.push('\n')
    } else {
        a
    }
}

/// Plain-text run output: stdout, then (when there is any) stderr under a
/// `── heading ──` line, both with ANSI escapes stripped.
pub open spec fn spec_format_run_output_plain(stdout: Seq<u8>, stderr: Seq<u8>, heading: Seq<char>) -> Seq<char> {
    let out = if stdout.len() > 0 {
        spec_strip_ansi(lossy_text(stdout))
    } else {
        seq![]
    };
    if stderr.len() > 0 {
        break_after(out) + "\u{2500}\u{2500} "@ + heading + " \u{2500}\u{2500}\n"@ + spec_strip_ansi(lossy_text(stderr))
    } else {
        out
    }
}

fn push_break(out: &mut Vec<char>)
    ensures
        final(out)@ == break_after(old(out)@),
{
    if out.len() > 0 && out[out.len() - 1] != '\n' {
        out.push('\n');
    }
}

/// Plain-text run output for clipboard / fence insertion (ANSI stripped);
/// `stderr_heading` names the stderr section as the output panel does.
pub fn format_run_output_plain(stdout: &[u8], stderr: &[u8], stderr_heading: &str) -> (r: String)
    ensures
        r@ == spec_format_run_output_plain(stdout@, stderr@, stderr_heading@),
{
    let mut out: Vec<char> = Vec::new();
    if stdout.len() > 0 {
        let text = utf8_lossy(stdout);
        out = strip_ansi_chars(&chars_of(text.as_str()));
    }
    if stderr.len() > 0 {
        push_break(&mut out);
        append(&mut out, &chars_of("\u{2500}\u{2500} "));
        append(&mut out, &chars_of(stderr_heading));
        append(&mut out, &chars_of(" \u{2500}\u{2500}\n"));
        let text = utf8_lossy(stderr);
        append(&mut out, &strip_ansi_chars(&chars_of(text.as_str())));
    }
    string_of(&out)
}

/// Decimal text of a signed integer.
pub open spec fn int_decimal(n: int) -> Seq<char> {
    if n < 0 {
        seq!['-'] + decimal((-n) as nat)
    } else {
        decimal(n as nat)
    }
}

fn int_decimal_exec(n: i32) -> (r: Vec<char>)
    ensures
        r@ == int_decimal(n as int),
{
    if n < 0 {
        let m = -(n as i64);
        let mut r = vec!['-'];
        append(&mut r, &decimal_exec(m as u64));
        r
    } else {
        decimal_exec(n as u64)
    }
}

/// The combined output of a run: stdout, then stderr under a `[stderr]` line.
pub open spec fn spec_combined_output(stdout: Seq<u8>, stderr: Seq<u8>) -> Seq<char> {
    let out = if stdout.len() > 0 {
        lossy_text(stdout)
    } else {
        seq![]
    };
    if stderr.len() > 0 {
        break_after(out) + "[stderr]\n"@ + lossy_text(stderr)
    } else {
        out
    }
}

/// What a finished run reports: its output on exit code 0 (or a placeholder
/// when there was none), else an error message.
pub open spec fn spec_run_snippet(outcome: Result<i32, RunError>, stdout: Seq<u8>, stderr: Seq<u8>) -> Result<Seq<char>, Seq<char>> {
    let combined = spec_combined_output(stdout, stderr);
    match outcome {
        Ok(0) => Ok(if combined.len() == 0 { "(no output)"@ } else { combined }),
        Ok(code) => Err(if combined.len() == 0 {
            "Exited with code "@ + int_decimal(code as int) + "."@
        } else {
            "Exited with code "@ + int_decimal(code as int) + ".\n"@ + combined
        }),
        Err(RunError::TimedOut) => Err("Process timed out."@),
        Err(RunError::Cancelled) => Err("Run cancelled by user."@),
        Err(RunError::Spawn(msg)) => Err(msg@),
        Err(RunError::Io(msg)) => Err(msg@),
    }
}

pub open spec fn result_view(r: Result<String, String>) -> Result<Seq<char>, Seq<char>> {
    match r {
        Ok(s) => Ok(s@),
        Err(s) => Err(s@),
    }
}

/// The error [`plan_run`] gives a fence whose language cannot run, reported
/// for a run that captured no output, is "Unsupported language for run.".
pub proof fn law_unsupported_language_report(e: RunError)
    requires
        e matches RunError::Spawn(m) && m@ == "Unsupported language for run."@,
    ensures
        spec_run_snippet(Err(e), seq![], seq![]) == Err::<Seq<char>, Seq<char>>("Unsupported language for run."@),
{
}

/// The report of a finished run, from its outcome and the output it captured.
pub fn run_snippet(outcome: &Result<i32, RunError>, stdout: &[u8], stderr: &[u8]) -> (r: Result<String, String>)
    ensures
        result_view(r) == spec_run_snippet(*outcome, stdout@, stderr@),
{
    let mut combined: Vec<char> = Vec::new();
    if stdout.len() > 0 {
        let text = utf8_lossy(stdout);
        combined = chars_of(text.as_str());
    }
    if stderr.len() > 0 {
        push_break(&mut combined);
        append(&mut combined, &chars_of("[stderr]\n"));
        let text = utf8_lossy(stderr);
        append(&mut combined, &chars_of(text.as_str()));
    }
    match outcome {
        Ok(code) => {
            if *code == 0 {
                if combined.len() == 0 {
                    Ok("(no output)".to_owned())
                } else {
                    Ok(string_of(&combined))
                }
            } else {
                let mut msg = chars_of("Exited with code ");
                append(&mut msg, &int_decimal_exec(*code));
                if combined.len() == 0 {
                    append(&mut msg, &chars_of("."));
                } else {
                    append(&mut msg, &chars_of(".\n"));
                    append(&mut msg, &combined);
                }
                Err(string_of(&msg))
            }
        },
        Err(RunError::TimedOut) => Err("Process timed out.".to_owned()),
        Err(RunError::Cancelled) => Err("Run cancelled by user.".to_owned()),
        Err(RunError::Spawn(msg)) => Err(msg.clone()),
        Err(RunError::Io(msg)) => Err(msg.clone()),
    }
}

// ─────────────────────────────────────────────────────────────────────────────
// Run-state keys and exhausted-dispatch messages
// ─────────────────────────────────────────────────────────────────────────────

/// The bytes a run-state key hashes: the language, a line feed, the code.
pub open spec fn run_key_bytes(code: Seq<char>, language: Seq<char>) -> Seq<u8> {
    vstd::utf8::encode_utf8(language) + seq![10u8] + vstd::utf8::encode_utf8(code)
}

fn push_str_bytes(buf: &mut Vec<u8>, s: &str)
    ensures
        final(buf)@ == old(buf)@ + vstd::utf8::encode_utf8(s@),
{
    let bytes = s.as_bytes();
    let mut b: usize = 0;
    while b < bytes.len()
        invariant
            b <= bytes@.len(),
            bytes@ == vstd::utf8::encode_utf8(s@),
            buf@ == old(buf)@ + bytes@.take(b as int),
        decreases bytes@.len() - b,
    {
        buf.push(bytes[b]);
        assert(old(buf)@ + bytes@.take(b + 1) =~= (old(buf)@ + bytes@.take(b as int)).push(bytes@[b as int]));
        b = b + 1;
    }
    assert(bytes@.take(bytes@.len() as int) =~= bytes@);
}

/// Key of a code block's run state: the BLAKE3 digest of the language, a line
/// feed and the code, so it survives the block moving to other lines and
/// changes with its content or language.
pub fn code_run_state_key(code: &str, language: &str) -> (r: [u8; 32])
    ensures
        r@ == crate::table_guides::spec_blake3(run_key_bytes(code@, language@)),
{
    let mut buf: Vec<u8> = Vec::new();
    push_str_bytes(&mut buf, language);
    buf.push(10u8);
    push_str_bytes(&mut buf, code);
    assert(buf@ =~= run_key_bytes(code@, language@));
    crate::table_guides::blake3_hash(buf.as_slice())
}

/// Translation key of the message shown when no interpreter of a fence's
/// dispatch chain is available.
pub open spec fn spec_exhausted_message_key(lang: Seq<char>, windows: bool) -> Seq<char> {
    if windows && spec_is_posix_fence(lang) {
        "widgets.code_block.run_posix_shell_missing_windows"@
    } else if lang == "zsh"@ {
        "widgets.code_block.run_shell_missing_zsh"@
    } else if lang == "bash"@ || lang == "shell"@ {
        "widgets.code_block.run_shell_missing_bash"@
    } else if lang == "sh"@ {
        "widgets.code_block.run_shell_missing_sh"@
    } else if lang == "pwsh"@ || lang == "powershell"@ || lang == "ps1"@ {
        "widgets.code_block.run_shell_missing_powershell"@
    } else if lang == "cmd"@ || lang == "bat"@ || lang == "batch"@ {
        "widgets.code_block.run_shell_missing_cmd"@
    } else {
        "widgets.code_block.run_shell_missing_generic"@
    }
}

/// The translation key for "no interpreter found" (`windows` selects the
/// Windows wording for POSIX fences).
pub fn shell_dispatch_exhausted_message_key(lang: &str, windows: bool) -> (r: &'static str)
    ensures
        r@ == spec_exhausted_message_key(lang@, windows),
{
    let l = chars_of(lang);
    if windows && is_posix_fence(lang) {
        "widgets.code_block.run_posix_shell_missing_windows"
    } else if lang_is(&l, "zsh") {
        "widgets.code_block.run_shell_missing_zsh"
    } else if lang_is(&l, "bash") || lang_is(&l, "shell") {
        "widgets.code_block.run_shell_missing_bash"
    } else if lang_is(&l, "sh") {
        "widgets.code_block.run_shell_missing_sh"
    } else if lang_is(&l, "pwsh") || lang_is(&l, "powershell") || lang_is(&l, "ps1") {
        "widgets.code_block.run_shell_missing_powershell"
    } else if lang_is(&l, "cmd") || lang_is(&l, "bat") || lang_is(&l, "batch") {
        "widgets.code_block.run_shell_missing_cmd"
    } else {
        "widgets.code_block.run_shell_missing_generic"
    }
}

// ─────────────────────────────────────────────────────────────────────────────
// Waiting for a child process
// ─────────────────────────────────────────────────────────────────────────────

/// Before each poll of a running child: the reason to kill it, if any. A stop
/// request wins over the timeout, which is passed once more time than it
/// allows has elapsed.
pub fn kill_reason(cancel_requested: bool, elapsed_nanos: u128, timeout_nanos: u128) -> (r: Option<RunError>)
    ensures
        r == (if cancel_requested {
            Some(RunError::Cancelled)
        } else if elapsed_nanos > timeout_nanos {
            Some(RunError::TimedOut)
        } else {
            None::<RunError>
        }),
{
    if cancel_requested {
        Some(RunError::Cancelled)
    } else if elapsed_nanos > timeout_nanos {
        Some(RunError::TimedOut)
    } else {
        None
    }
}

/// What polling a child reported.
#[derive(Debug, Clone, PartialEq, Eq)]
pub enum ChildPoll {
    /// It exited, with its exit code when it has one.
    Exited(Option<i32>),
    StillRunning,
    /// Polling failed with this error message.
    Failed(String),
}

/// The run's result after a poll, or `None` to wait and poll again. A child
/// that exited without a code (killed by a signal) reports -1.
pub fn poll_outcome(poll: ChildPoll) -> (r: Option<Result<i32, RunError>>)
    ensures
        r == (match poll {
            ChildPoll::Exited(Some(code)) => Some(Ok::<i32, RunError>(code)),
            ChildPoll::Exited(None) => Some(Ok::<i32, RunError>(-1i32)),
            ChildPoll::StillRunning => None,
            ChildPoll::Failed(msg) => Some(Err::<i32, RunError>(RunError::Io(msg))),
        }),
{
    match poll {
        ChildPoll::Exited(Some(code)) => Some(Ok(code)),
        ChildPoll::Exited(None) => Some(Ok(-1)),
        ChildPoll::StillRunning => None,
        ChildPoll::Failed(msg) => Some(Err(RunError::Io(msg))),
    }
}

/// Python interpreters tried in order.
pub open spec fn spec_python_candidates(windows: bool) -> Seq<Seq<char>> {
    if windows {
        seq!["python"@, "py"@, "python3"@]
    } else {
        seq!["python3"@, "python"@]
    }
}

pub fn python_candidates(windows: bool) -> (r: Vec<&'static str>)
    ensures
        r@.map_values(|s: &'static str| s@) == spec_python_candidates(windows),
{
    let r = if windows {
        vec!["python", "py", "python3"]
    } else {
        vec!["python3", "python"]
    };
    assert(r@.map_values(|s: &'static str| s@) =~= spec_python_candidates(windows));
    r
}

} // verus!
