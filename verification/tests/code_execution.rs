use ferrite::code_execution::{kill_reason, poll_outcome, python_candidates, ChildPoll};
use ferrite::code_execution::{
    cancel, classify_language, code_run_state_key, filter_available_dispatches, finish_run,
    format_run_output_plain, plan_run, push_chunk, run_button_visible, run_snippet, run_status_of,
    shell_dispatch_chain_for, shell_dispatch_exhausted_message_key, strip_ansi_plain,
    CodeExecutionSettings, CodeExecutionUi, RunError, RunState, RunStatus, RunnableKind,
    ShellDispatch, ShellDispatchKind, CHECK, GIT_BASH_CANDIDATES, WSL_LAUNCHER, X,
};

fn availability(chain: &[ShellDispatch], available: impl Fn(&str) -> bool) -> Vec<bool> {
    chain.iter().map(|d| available(&d.program)).collect()
}

#[test]
fn classify_normalizes_case() {
    assert_eq!(classify_language("  PYTHON "), Some(RunnableKind::Python));
    assert_eq!(classify_language("Bash"), Some(RunnableKind::Shell));
    assert_eq!(classify_language("PowerShell"), Some(RunnableKind::Shell));
    assert_eq!(classify_language("ps1"), Some(RunnableKind::Shell));
    assert_eq!(classify_language("batch"), Some(RunnableKind::Shell));
    assert_eq!(classify_language("rust"), None);
}

#[test]
fn visibility_respects_flags() {
    let mut s = CodeExecutionUi::disabled();
    s.enable = true;
    s.allow_shell = true;
    assert!(run_button_visible(&s, "sh"));
    s.allow_shell = false;
    assert!(!run_button_visible(&s, "sh"));
}

#[test]
fn run_visible_when_disabled_until_consent() {
    let mut s = CodeExecutionUi::disabled();
    s.allow_shell = true;
    assert!(run_button_visible(&s, "bash"));
    s.consent_acknowledged = true;
    assert!(!run_button_visible(&s, "bash"));
}

#[test]
fn run_hidden_when_disabled_after_consent_without_master() {
    let mut s = CodeExecutionUi::disabled();
    s.allow_shell = true;
    s.consent_acknowledged = true;
    assert!(!run_button_visible(&s, "bash"));
}

#[test]
fn status_glyphs() {
    assert_eq!(RunStatus::Running.glyph(), "…");
    assert_eq!(RunStatus::Completed { exit_code: Some(0) }.glyph(), CHECK);
    assert_eq!(RunStatus::Completed { exit_code: Some(2) }.glyph(), X);
    assert_eq!(RunStatus::TimedOut.glyph(), X);
    assert_eq!(RunStatus::Cancelled.glyph(), X);
}

#[test]
fn cancel_flips_state_flag() {
    let mut state = RunState::new(30, 0);
    assert!(!state.cancel_requested());
    cancel(&mut state);
    assert!(state.cancel_requested());
    // Idempotent: a second call is a no-op.
    cancel(&mut state);
    assert!(state.cancel_requested());
}

#[test]
fn run_state_records_timeout_secs() {
    let s = RunState::new(45, 0);
    assert_eq!(s.timeout_secs, 45);
    assert!(matches!(s.status, RunStatus::Running));
}

#[test]
fn cancelled_status_is_terminal() {
    let cancelled = RunStatus::Cancelled;
    assert!(!cancelled.is_running());
    assert!(!matches!(cancelled, RunStatus::Completed { exit_code: Some(0) }));
}

fn chain_programs(lang: &str, windows: bool) -> Vec<String> {
    shell_dispatch_chain_for(lang, windows)
        .into_iter()
        .map(|d| d.program)
        .collect()
}

fn chain_suffixes(lang: &str, windows: bool) -> Vec<&'static str> {
    shell_dispatch_chain_for(lang, windows)
        .into_iter()
        .map(|d| d.script_suffix)
        .collect()
}

#[test]
fn windows_bash_chain_never_uses_powershell_or_cmd() {
    let chain = shell_dispatch_chain_for("bash", true);
    assert!(
        chain
            .iter()
            .all(|d| d.script_suffix == ".sh" && d.kind != ShellDispatchKind::PowerShellFile),
        "bash on Windows must only use POSIX script dispatch: {chain:?}"
    );
    let programs = chain_programs("bash", true);
    assert_eq!(programs[0], "bash");
    assert!(programs.contains(&GIT_BASH_CANDIDATES[0].to_string()));
    assert!(programs.contains(&WSL_LAUNCHER.to_string()));
    assert!(!programs.iter().any(|p| p == "pwsh" || p == "powershell" || p == "cmd"));
}

#[test]
fn windows_shell_fence_matches_bash_chain() {
    let bash = chain_programs("bash", true);
    let shell = chain_programs("shell", true);
    assert_eq!(bash, shell);
}

#[test]
fn unix_bash_falls_back_to_sh() {
    let chain = shell_dispatch_chain_for("bash", false);
    assert_eq!(chain.len(), 2);
    assert_eq!(chain[0].program, "bash");
    assert_eq!(chain[1].program, "sh");
    assert!(chain_suffixes("bash", false).iter().all(|s| *s == ".sh"));
}

#[test]
fn unix_zsh_falls_back_to_sh() {
    let chain = shell_dispatch_chain_for("zsh", false);
    assert_eq!(chain[0].program, "zsh");
    assert_eq!(chain[1].program, "sh");
}

#[test]
fn unix_sh_has_no_fallback() {
    let chain = shell_dispatch_chain_for("sh", false);
    assert_eq!(chain.len(), 1);
    assert_eq!(chain[0].program, "sh");
}

#[test]
fn windows_zsh_tries_zsh_then_posix_bash_chain() {
    let programs = chain_programs("zsh", true);
    assert_eq!(programs[0], "zsh");
    assert!(programs.contains(&"bash".to_string()));
    assert!(!programs.iter().any(|p| p == "pwsh" || p == "powershell"));
}

#[test]
fn filter_available_dispatches_respects_mock_availability() {
    let chain = shell_dispatch_chain_for("bash", true);
    let available = availability(&chain, |name| name == GIT_BASH_CANDIDATES[0]);
    let filtered = filter_available_dispatches(&chain, &available);
    assert_eq!(filtered.len(), 1);
    assert_eq!(filtered[0].program, GIT_BASH_CANDIDATES[0]);
}

#[test]
fn filter_available_dispatches_unix_zsh_without_zsh() {
    let chain = shell_dispatch_chain_for("zsh", false);
    let available = availability(&chain, |name| name == "sh");
    let filtered = filter_available_dispatches(&chain, &available);
    assert_eq!(filtered.len(), 1);
    assert_eq!(filtered[0].program, "sh");
}

#[test]
fn windows_bash_absent_leaves_no_powershell_fallback() {
    let chain = shell_dispatch_chain_for("bash", true);
    let available = availability(&chain, |_name| false);
    let filtered = filter_available_dispatches(&chain, &available);
    assert!(filtered.is_empty());
    assert!(!chain.iter().any(|d| d.kind == ShellDispatchKind::PowerShellFile));
}

#[test]
fn powershell_chain_uses_ps1_suffix_only() {
    let suffixes = chain_suffixes("powershell", true);
    assert_eq!(suffixes, vec![".ps1", ".ps1"]);
}

#[test]
fn code_run_state_key_stable_when_block_moves_lines() {
    let code = "sleep 2 && echo hi";
    let lang = "bash";
    let key_at_line_5 = code_run_state_key(code, lang);
    let key_at_line_12 = code_run_state_key(code, lang);
    assert_eq!(key_at_line_5, key_at_line_12);
}

#[test]
fn code_run_state_key_changes_when_content_changes() {
    let lang = "bash";
    let key_a = code_run_state_key("echo a", lang);
    let key_b = code_run_state_key("echo b", lang);
    assert_ne!(key_a, key_b);
}

#[test]
fn code_run_state_key_changes_when_language_changes() {
    let code = "echo hi";
    let key_bash = code_run_state_key(code, "bash");
    let key_python = code_run_state_key(code, "python");
    assert_ne!(key_bash, key_python);
}

#[test]
fn code_run_state_key_is_blake3_of_language_newline_code() {
    let expected = blake3::hash(b"bash\necho hi");
    assert_eq!(code_run_state_key("echo hi", "bash"), *expected.as_bytes());
}

#[test]
fn format_run_output_plain_prefixes_stderr_like_panel() {
    let stdout = b"hello\n";
    let stderr = b"warn\n";
    let plain = format_run_output_plain(stdout, stderr, "stderr");
    assert!(plain.starts_with("hello\n"));
    assert!(
        plain.contains("── stderr ──\nwarn"),
        "stderr block should use panel heading prefix, got: {plain:?}"
    );
}

#[test]
fn format_run_output_plain_stderr_only() {
    let plain = format_run_output_plain(b"", b"oops", "stderr");
    assert_eq!(plain, "── stderr ──\noops");
}

#[test]
fn format_run_output_plain_breaks_line_before_stderr() {
    let plain = format_run_output_plain(b"out", b"err", "stderr");
    assert_eq!(plain, "out\n── stderr ──\nerr");
    assert_eq!(format_run_output_plain(b"", b"", "stderr"), "");
}

#[test]
fn format_run_output_plain_replaces_invalid_utf8() {
    let plain = format_run_output_plain(&[0x61, 0xff, 0x62], b"", "stderr");
    assert_eq!(plain, "a\u{FFFD}b");
}

#[test]
fn strip_ansi_removes_color_codes() {
    assert_eq!(strip_ansi_plain("\u{1b}[31mred\u{1b}[0m plain"), "red plain");
    assert_eq!(strip_ansi_plain("no escapes"), "no escapes");
}

#[test]
fn exhausted_message_keys() {
    assert_eq!(
        shell_dispatch_exhausted_message_key("bash", true),
        "widgets.code_block.run_posix_shell_missing_windows"
    );
    assert_eq!(
        shell_dispatch_exhausted_message_key("zsh", false),
        "widgets.code_block.run_shell_missing_zsh"
    );
    assert_eq!(
        shell_dispatch_exhausted_message_key("ps1", true),
        "widgets.code_block.run_shell_missing_powershell"
    );
    assert_eq!(
        shell_dispatch_exhausted_message_key("bat", false),
        "widgets.code_block.run_shell_missing_cmd"
    );
    assert_eq!(
        shell_dispatch_exhausted_message_key("fish", false),
        "widgets.code_block.run_shell_missing_generic"
    );
}

#[test]
fn finished_runs_are_not_running() {
    for result in [
        Ok(0),
        Ok(3),
        Err(RunError::TimedOut),
        Err(RunError::Cancelled),
        Err(RunError::Spawn("no such file".to_string())),
        Err(RunError::Io("broken pipe".to_string())),
    ] {
        let mut state = RunState::new(10, 5);
        finish_run(&mut state, result.clone(), 42);
        assert!(!state.status.is_running());
        assert_eq!(state.finished_at_ms, Some(42));
        assert_eq!(state.status, run_status_of(result));
    }
}

#[test]
fn run_state_tracks_output_and_elapsed() {
    let mut state = RunState::new(10, 1_000);
    push_chunk(&mut state, b"ab", false);
    push_chunk(&mut state, b"c", false);
    push_chunk(&mut state, b"e", true);
    assert_eq!(state.stdout, b"abc".to_vec());
    assert_eq!(state.stderr, b"e".to_vec());
    assert_eq!(state.elapsed(1_250), 250);
    finish_run(&mut state, Ok(0), 1_500);
    assert_eq!(state.elapsed(9_000), 500);
}

#[test]
fn run_snippet_reports_outcomes() {
    assert_eq!(run_snippet(&Ok(0), b"hi\n", b""), Ok("hi\n".to_string()));
    assert!(run_snippet(&Err(RunError::TimedOut), b"", b"").is_err());
    assert_eq!(
        run_snippet(&Err(RunError::Spawn("missing".to_string())), b"", b""),
        Err("missing".to_string())
    );
}

#[test]
fn code_execution_ui_from_settings() {
    let settings = CodeExecutionSettings {
        enable_code_execution: true,
        code_execution_consent_acknowledged: true,
        allow_shell: false,
        allow_python: true,
        code_execution_timeout_secs: 12,
        code_execution_show_inline_output: false,
    };
    let ui = CodeExecutionUi::from_settings(&settings);
    assert!(ui.enable && ui.allow_python && !ui.allow_shell);
    assert_eq!(ui.timeout_secs, 12);
    assert!(run_button_visible(&ui, "python"));
    assert!(!run_button_visible(&ui, "bash"));
    let with_dir = CodeExecutionUi::from_settings_with_workdir(&settings, Some("/tmp".to_string()));
    assert_eq!(with_dir.working_directory.as_deref(), Some("/tmp"));
}

#[test]
fn wait_decisions() {
    assert_eq!(kill_reason(true, 0, 10), Some(RunError::Cancelled));
    assert_eq!(kill_reason(true, 100, 10), Some(RunError::Cancelled));
    assert_eq!(kill_reason(false, 11, 10), Some(RunError::TimedOut));
    assert_eq!(kill_reason(false, 10, 10), None);
    assert_eq!(poll_outcome(ChildPoll::Exited(Some(3))), Some(Ok(3)));
    assert_eq!(poll_outcome(ChildPoll::Exited(None)), Some(Ok(-1)));
    assert_eq!(poll_outcome(ChildPoll::StillRunning), None);
    assert_eq!(
        poll_outcome(ChildPoll::Failed("bad".to_string())),
        Some(Err(RunError::Io("bad".to_string())))
    );
    assert_eq!(python_candidates(false), vec!["python3", "python"]);
    assert_eq!(python_candidates(true), vec!["python", "py", "python3"]);
}

#[test]
fn stripping_ansi_twice_is_stripping_once() {
    let raw = "\x1b[1;31mred\x1b[0m \x1b]0;title\x07ok \x1bX\x1b[2";
    let once = strip_ansi_plain(raw);
    assert_eq!(once, "red ok X");
    assert!(!once.contains('\x1b'));
    assert_eq!(strip_ansi_plain(&once), once);
}

#[test]
fn unsupported_language_is_reported_without_running() {
    let err = plan_run("rust").unwrap_err();
    assert_eq!(err, RunError::Spawn("Unsupported language for run.".to_string()));
    assert_eq!(run_snippet(&Err(err), &[], &[]), Err("Unsupported language for run.".to_string()));
}

#[test]
fn strip_ansi_examples() {
    assert_eq!(strip_ansi_plain("\u{1b}[31mred\u{1b}[0m"), "red");
    assert_eq!(strip_ansi_plain("a\u{1b}]0;title\u{7}b"), "ab");
}
