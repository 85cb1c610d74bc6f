use hip::mtplx_runner::commits_behind_note;
use hip::mtplx_runner::newest_venv;
use hip::mtplx_runner::{
    config_deltas, is_detached, pid_from_lsof, venv_version_from_lsof, is_running_stale, log_file, optimal_flags, server_verdict, source_switch_needed,
    summarize_running_config, brew_formula_and_version, brew_latest_version, brew_mtplx_latest_available,
    detect_brew_mtplx_version, BrewFormula, ConfigDelta, InstallKind, MtplxState, ServerVerdict,
};
use hip::prune::{estimate_conv_tokens, estimate_tokens, maybe_prune_tool_outputs, PruneOpts};
use hip::schema::ChatMessage;

#[test]
fn config_deltas_flags_missing_pair() {
    let running = "python -m mtplx.server.openai --depth 2 --generation-mode mtp \
         --profile sustained --verify-core linear-gdn-from-conv-tape \
         --draft-lm-head-bits 3 --draft-lm-head-group-size 64 \
         --draft-lm-head-mode affine --draft-temperature 0.7 \
         --draft-top-p 0.95 --draft-top-k 20 --rate-limit 0 \
         --stream-interval 1 --warmup-tokens 16 \
         --no-strict-mlx-fork-assert --no-strict-startup-asserts \
         --temperature 0.6 --top-p 0.95 --reasoning-parser qwen3 \
         --no-stats-footer --context-window 128000";
    let d = config_deltas(running);
    assert!(d.missing_or_wrong.iter().any(|s| s.starts_with("--depth")));
    assert!(!d.is_optimal());
}

#[test]
fn config_deltas_all_present_is_optimal() {
    let flags = optimal_flags();
    let mut parts: Vec<String> = vec!["python".to_string(), "-m".to_string(), "mtplx.server.openai".to_string()];
    let mut i = 0;
    while i < flags.len() {
        let flag = flags[i];
        let next = flags.get(i + 1).copied();
        let is_boolean = next.map(|n| n.starts_with("--")).unwrap_or(true);
        parts.push(flag.to_string());
        if !is_boolean {
            parts.push(next.unwrap().to_string());
            i += 2;
        } else {
            i += 1;
        }
    }
    let running = parts.join(" ");
    let d = config_deltas(&running);
    assert!(d.is_optimal(), "expected optimal, got deltas: {:?}", d.missing_or_wrong);
}

#[test]
fn config_deltas_lists_each_missing_flag_once_in_order() {
    let d = config_deltas("python -m mtplx.server.openai --depth 3");
    assert!(!d.missing_or_wrong.iter().any(|s| s.starts_with("--depth")));
    assert_eq!(d.missing_or_wrong[0], "--generation-mode mtp");
    assert!(d.missing_or_wrong.contains(&"--no-stats-footer".to_string()));
    assert!(d.missing_env.is_empty());
    let empty = ConfigDelta { missing_or_wrong: Vec::new(), missing_env: Vec::new() };
    assert!(empty.is_optimal());
}

#[test]
fn summarize_running_config_extracts_headline_values() {
    let cmd = "python -m mtplx.server.openai --model /m/path --host 127.0.0.1 --port 8088 \
        --depth 3 --generation-mode mtp --profile sustained \
        --verify-core linear-gdn-from-conv-tape --context-window 128000 \
        --temperature 0.6 --top-p 0.95 --reasoning-parser qwen3 \
        --model-id mtplx-qwen36-27b-optimized-speed";
    let rows = summarize_running_config(cmd);
    let map: std::collections::HashMap<_, _> = rows.into_iter().collect();
    assert_eq!(map.get("model id").unwrap(), "mtplx-qwen36-27b-optimized-speed");
    assert_eq!(map.get("server").unwrap(), "127.0.0.1:8088");
    assert_eq!(map.get("decode").unwrap(), "mtp depth=3 profile=sustained");
    assert_eq!(map.get("verify core").unwrap(), "linear-gdn-from-conv-tape");
    assert_eq!(map.get("context").unwrap(), "128000 tokens");
    assert_eq!(map.get("sampling").unwrap(), "temp=0.6 top-p=0.95");
    assert_eq!(map.get("reasoning").unwrap(), "qwen3");
}

#[test]
fn summarize_running_config_shortens_model_path_and_marks_absent_flags() {
    let rows = summarize_running_config("python --model /models/qwen-27b");
    let map: std::collections::HashMap<_, _> = rows.into_iter().collect();
    assert_eq!(map.get("model").unwrap(), "qwen-27b");
    assert_eq!(map.get("model id").unwrap(), "(not set)");
    assert_eq!(map.get("server").unwrap(), "(not set):(not set)");
}

#[test]
fn log_file_ends_in_mlx_code_dir() {
    let p = log_file();
    assert!(p.ends_with("/.mlx-code/mtplx.log"), "{}", p);
    assert!(!p.starts_with('~'), "tilde should be expanded: {}", p);
}

fn make_tool_msg(id: &str, body_chars: usize) -> ChatMessage {
    ChatMessage::tool_result(id, &"x".repeat(body_chars))
}

fn make_user_msg(chars: usize) -> ChatMessage {
    ChatMessage::user(&"u".repeat(chars))
}

#[test]
fn below_trigger_returns_none() {
    let mut conv = vec![ChatMessage::user("hello"), ChatMessage::assistant_text("hi")];
    let opts = PruneOpts {
        trigger_tokens: 100,
        recent_window_tokens: 50,
        min_savings_tokens: 10,
        min_prunable_chars: 10,
    };
    assert!(maybe_prune_tool_outputs(&mut conv, opts).is_none());
}

#[test]
fn prunes_old_large_tool_results() {
    let mut conv = vec![
        make_user_msg(5),
        make_tool_msg("t1", 3000),
        make_user_msg(5),
        make_tool_msg("t2", 300),
        make_user_msg(5),
    ];
    let opts = PruneOpts {
        trigger_tokens: 500,
        recent_window_tokens: 200,
        min_savings_tokens: 100,
        min_prunable_chars: 200,
    };
    let report = maybe_prune_tool_outputs(&mut conv, opts).expect("should have pruned");
    assert_eq!(report.pruned_count, 1);
    assert!(report.savings_tokens > 0);
    let stubbed = conv[1].content.as_deref().unwrap_or("");
    assert!(stubbed.contains("tool output pruned"), "expected stub, got: {stubbed}");
    assert_eq!(conv[3].content.as_deref().unwrap().len(), 300);
}

#[test]
fn savings_below_min_returns_none() {
    let mut conv = vec![make_user_msg(5), make_tool_msg("t1", 250), make_user_msg(5000)];
    let opts = PruneOpts {
        trigger_tokens: 500,
        recent_window_tokens: 1000,
        min_savings_tokens: 5000,
        min_prunable_chars: 200,
    };
    assert!(maybe_prune_tool_outputs(&mut conv, opts).is_none());
    assert_eq!(conv[1].content.as_deref().unwrap().len(), 250);
}

#[test]
fn does_not_touch_user_or_assistant_messages() {
    let mut conv = vec![make_user_msg(3000), make_tool_msg("t1", 3000), make_user_msg(5)];
    let opts = PruneOpts {
        trigger_tokens: 500,
        recent_window_tokens: 200,
        min_savings_tokens: 100,
        min_prunable_chars: 200,
    };
    let _ = maybe_prune_tool_outputs(&mut conv, opts);
    assert_eq!(conv[0].content.as_deref().unwrap().len(), 3000);
}

#[test]
fn token_estimate_is_chars_over_three() {
    assert_eq!(estimate_tokens(""), 0);
    assert_eq!(estimate_tokens("ab"), 0);
    assert_eq!(estimate_tokens("abcdefg"), 2);
    let conv = vec![make_user_msg(9), make_tool_msg("t", 30)];
    assert_eq!(estimate_conv_tokens(&conv), 13);
}

#[test]
fn prune_report_totals_add_up() {
    let mut conv = vec![
        make_user_msg(5),
        make_tool_msg("t1", 3000),
        make_user_msg(5),
        make_tool_msg("t2", 300),
        make_user_msg(5),
    ];
    let before = estimate_conv_tokens(&conv);
    let opts = PruneOpts {
        trigger_tokens: 500,
        recent_window_tokens: 200,
        min_savings_tokens: 100,
        min_prunable_chars: 200,
    };
    let report = maybe_prune_tool_outputs(&mut conv, opts).unwrap();
    assert_eq!(report.total_before_tokens, before);
    assert_eq!(report.savings_tokens, 1000);
    assert_eq!(report.total_after_tokens, before - 1000);
    assert_eq!(conv[1].tool_call_id.as_deref(), Some("t1"));
    assert_eq!(conv[1].role, "tool");
}

#[test]
fn default_opts_match_documented_thresholds() {
    let o = PruneOpts::default();
    assert_eq!(o.trigger_tokens, 20_000);
    assert_eq!(o.recent_window_tokens, 40_000);
    assert_eq!(o.min_savings_tokens, 10_000);
    assert_eq!(o.min_prunable_chars, 200);
}

fn brew_state(pid: Option<u32>, cmd: Option<&str>, running: Option<&str>, installed: &str) -> MtplxState {
    MtplxState {
        kind: InstallKind::Brew { formula: "mtplx".to_string(), installed_version: installed.to_string() },
        python_path: std::path::PathBuf::from("/usr/bin/python3"),
        server_pid: pid,
        running_command: cmd.map(|c| c.to_string()),
        running_venv_version: running.map(|v| v.to_string()),
    }
}

fn optimal_cmd() -> String {
    let mut parts: Vec<String> = vec!["python".to_string()];
    for f in optimal_flags() {
        parts.push(f.to_string());
    }
    parts.join(" ")
}

#[test]
fn server_verdict_prefers_stale_then_flags_then_running() {
    let cmd = optimal_cmd();
    let stale = brew_state(Some(7), Some(&cmd), Some("0.1.0"), "0.2.0");
    assert!(is_running_stale(&stale, false));
    assert!(matches!(server_verdict(&stale, false), ServerVerdict::RestartStale));
    let current = brew_state(Some(7), Some(&cmd), Some("0.2.0"), "0.2.0");
    assert!(matches!(server_verdict(&current, false), ServerVerdict::Current));
    let off = brew_state(Some(7), Some("python --depth 2"), None, "0.2.0");
    match server_verdict(&off, false) {
        ServerVerdict::Suboptimal(d) => assert!(d.missing_or_wrong.iter().any(|m| m.starts_with("--depth"))),
        other => panic!("expected suboptimal, got {:?}", other),
    }
    let none = brew_state(None, None, None, "0.2.0");
    assert!(matches!(server_verdict(&none, true), ServerVerdict::NotRunning));
}

#[test]
fn source_switch_ignores_trailing_slash_and_git_suffix() {
    assert!(!source_switch_needed("https://github.com/a/MTPLX.git", "main", "https://github.com/a/MTPLX/", "main"));
    assert!(source_switch_needed("https://github.com/a/MTPLX.git", "main", "https://github.com/b/MTPLX", "main"));
    assert!(source_switch_needed("https://github.com/a/MTPLX", "main", "https://github.com/a/MTPLX", "dev"));
    assert!(is_detached(""));
    assert!(is_detached("HEAD"));
    assert!(!is_detached("main"));
}

#[test]
fn venv_version_is_read_from_lsof_listing() {
    let listing = "COMMAND PID USER FD TYPE\n\
        python 42 dan txt REG /opt/homebrew/bin/python3\n\
        python 42 dan mem REG /opt/homebrew/var/mtplx/venv-/lib/x.so\n\
        python 42 dan mem REG /opt/homebrew/var/mtplx/venv-0.4.2/lib/python3.12/site.py\n\
        python 42 dan mem REG /opt/homebrew/var/mtplx/venv-0.5.0/lib/other.py\n";
    assert_eq!(venv_version_from_lsof(listing), Some("0.4.2".to_string()));
    assert_eq!(venv_version_from_lsof("nothing here\n"), None);
}

#[test]
fn pid_is_first_line_of_lsof_output() {
    assert_eq!(pid_from_lsof(" 4242 \n99\n"), Some(4242));
    assert_eq!(pid_from_lsof(""), None);
    assert_eq!(pid_from_lsof("abc\n"), None);
}

#[test]
fn pip_show_version_reads_the_version_field() {
    let out = "Name: mtplx\nVersion: 0.4.2\nSummary: server\n";
    assert_eq!(hip::mtplx_runner::pip_show_version(out), Some("0.4.2".to_string()));
    assert_eq!(hip::mtplx_runner::pip_show_version("Name: mtplx\n"), None);
    assert_eq!(hip::mtplx_runner::pip_show_version("Version:0.1\n"), None);
}

#[test]
fn wait_step_and_log_budget() {
    assert_eq!(hip::setup::wait_step(true, 400_000_000_000, 0), hip::setup::WaitStep::Ready);
    assert_eq!(hip::setup::wait_step(false, 300_000_000_001, 0), hip::setup::WaitStep::TimedOut);
    assert_eq!(hip::setup::wait_step(false, 300_000_000_000, 61_000_000_000), hip::setup::WaitStep::Waiting { idle: true });
    assert_eq!(hip::setup::wait_step(false, 80_000_000_000, 61_000_000_000), hip::setup::WaitStep::Waiting { idle: false });
    assert_eq!(hip::setup::log_budget(120, 0), 107);
    assert_eq!(hip::setup::log_budget(120, 20), 87);
    assert_eq!(hip::setup::log_budget(10, 0), 0);
}

#[test]
fn brew_info_json_gives_formula_and_version() {
    let body = r#"{"formulae":[{"name":"mtplx","tap":"youssofal/mtplx","installed":[{"version":"0.4.2"}]}],"casks":[]}"#;
    let (formula, version) = detect_brew_mtplx_version(body);
    assert_eq!(formula, "youssofal/mtplx/mtplx");
    assert_eq!(version, "0.4.2");
    let body = r#"{"formulae":[{"name":"mtplx","tap":"me/fork","installed":[{"version":"1.0"},{"version":"0.9"}]}]}"#;
    assert_eq!(detect_brew_mtplx_version(body), ("me/fork/mtplx".to_string(), "1.0".to_string()));
}

#[test]
fn brew_info_defaults_when_output_does_not_say() {
    let d = ("youssofal/mtplx/mtplx".to_string(), "unknown".to_string());
    assert_eq!(detect_brew_mtplx_version(""), d);
    assert_eq!(detect_brew_mtplx_version("not json"), d);
    assert_eq!(detect_brew_mtplx_version(r#"{"formulae":[]}"#), d);
    assert_eq!(detect_brew_mtplx_version(r#"{"formulae":[{"name":"mtplx","installed":[]}]}"#), d);
    assert_eq!(
        detect_brew_mtplx_version(r#"{"formulae":[{"tap":"a/b","installed":[{"version":"2"}]}]}"#),
        ("youssofal/mtplx/mtplx".to_string(), "2".to_string())
    );
}

#[test]
fn brew_outdated_json_gives_current_version() {
    let body = r#"{"formulae":[{"name":"mtplx","installed_versions":["0.4.1"],"current_version":"0.4.2"}],"casks":[]}"#;
    assert_eq!(brew_mtplx_latest_available(body), Some("0.4.2".to_string()));
    assert_eq!(brew_mtplx_latest_available(r#"{"formulae":[],"casks":[]}"#), None);
    assert_eq!(brew_mtplx_latest_available(""), None);
    assert_eq!(brew_mtplx_latest_available(r#"{"formulae":[{"current_version":7}]}"#), None);
}

#[test]
fn brew_entry_decisions_on_parsed_values() {
    let f = BrewFormula {
        tap: Some("t/u".to_string()),
        name: Some("n".to_string()),
        installed_version: None,
        current_version: Some("9".to_string()),
    };
    assert_eq!(brew_formula_and_version(Some(f)), ("t/u/n".to_string(), "unknown".to_string()));
    assert_eq!(
        brew_formula_and_version(None),
        ("youssofal/mtplx/mtplx".to_string(), "unknown".to_string())
    );
    let g = BrewFormula { tap: None, name: None, installed_version: None, current_version: Some("9".to_string()) };
    assert_eq!(brew_latest_version(Some(g)), Some("9".to_string()));
    assert_eq!(brew_latest_version(None), None);
}

#[test]
fn rev_list_count_gives_behind_note() {
    assert_eq!(commits_behind_note("3\n", "main"), Some("3 commit(s) behind origin/main".to_string()));
    assert_eq!(commits_behind_note("  12 ", "dev"), Some("12 commit(s) behind origin/dev".to_string()));
    assert_eq!(commits_behind_note("0\n", "main"), None);
    assert_eq!(commits_behind_note("", "main"), None);
    assert_eq!(commits_behind_note("fatal: bad revision", "main"), None);
}

#[test]
fn newest_venv_is_greatest_venv_name() {
    let names: Vec<String> = ["venv-0.1.6", "cache", "venv-0.3.3", "venv-0.2.9"].iter().map(|s| s.to_string()).collect();
    assert_eq!(newest_venv(&names), Some("venv-0.3.3".to_string()));
    let none: Vec<String> = ["cache", "logs"].iter().map(|s| s.to_string()).collect();
    assert_eq!(newest_venv(&none), None);
    assert_eq!(newest_venv(&[]), None);
}

#[test]
fn conv_token_estimate_adds_over_concatenation() {
    let a = vec![ChatMessage::user("abcdefghi"), ChatMessage::assistant_text("xy")];
    let b = vec![ChatMessage::user("éééééé")];
    let ab: Vec<ChatMessage> = a.iter().cloned().chain(b.iter().cloned()).collect();
    assert_eq!(estimate_conv_tokens(&ab), estimate_conv_tokens(&a) + estimate_conv_tokens(&b));
    assert_eq!(estimate_conv_tokens(&ab), 5);
    assert_eq!(estimate_conv_tokens(&[]), 0);
}
