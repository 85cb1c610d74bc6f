use hip::chat::{prompt_step, PromptAction, PromptEvent};
use hip::chat::{command_completions, command_hint, commands, parse_command, ChatCommand, DryRunSwitch};

#[test]
fn slash_and_colon_prefixes_mean_the_same() {
    assert_eq!(parse_command("/help"), ChatCommand::Help);
    assert_eq!(parse_command(":help"), ChatCommand::Help);
    assert_eq!(parse_command("  /queue clear  "), ChatCommand::QueueClear);
    assert_eq!(parse_command("/q"), ChatCommand::Quit);
    assert_eq!(parse_command(":exit"), ChatCommand::Quit);
}

#[test]
fn bare_exit_words_ask_for_confirmation() {
    assert_eq!(parse_command("exit"), ChatCommand::ConfirmExit);
    assert_eq!(parse_command("bye"), ChatCommand::ConfirmExit);
    assert_eq!(parse_command("exit now"), ChatCommand::Prompt("exit now".to_string()));
}

#[test]
fn blank_lines_are_ignored_and_text_is_a_prompt() {
    assert_eq!(parse_command("   \t "), ChatCommand::Ignore);
    assert_eq!(parse_command("  explain this  "), ChatCommand::Prompt("explain this".to_string()));
}

#[test]
fn queue_commands() {
    assert_eq!(parse_command("/queue"), ChatCommand::QueueList);
    assert_eq!(parse_command("/queue add   run the tests "), ChatCommand::QueueAdd("run the tests".to_string()));
    assert_eq!(parse_command("/queue add"), ChatCommand::Unknown(":queue add".to_string()));
}

#[test]
fn setting_switches() {
    assert_eq!(parse_command("/show-thinking on"), ChatCommand::ShowThinking(true));
    assert_eq!(parse_command("/show-thinking yes"), ChatCommand::ShowThinking(false));
    assert_eq!(parse_command(":full-output 1"), ChatCommand::FullOutput(true));
    assert_eq!(parse_command("/cwd  ~/src "), ChatCommand::Cwd("~/src".to_string()));
    assert_eq!(parse_command("/smoke"), ChatCommand::Smoke(".".to_string()));
    assert_eq!(parse_command("/smoke web"), ChatCommand::Smoke("web".to_string()));
}

#[test]
fn diff_takes_two_paths() {
    assert_eq!(parse_command("/diff a.txt b.txt"), ChatCommand::Diff("a.txt".to_string(), "b.txt".to_string()));
    assert_eq!(parse_command("/diff a.txt"), ChatCommand::DiffUsage);
}

#[test]
fn tps_count_defaults_and_clamps() {
    assert_eq!(parse_command("/tps"), ChatCommand::Tps(20));
    assert_eq!(parse_command("/tps 7"), ChatCommand::Tps(7));
    assert_eq!(parse_command("/tps 0"), ChatCommand::Tps(1));
    assert_eq!(parse_command("/tps 500"), ChatCommand::Tps(50));
    assert_eq!(parse_command("/tps many"), ChatCommand::Tps(20));
    assert_eq!(parse_command("/tpsx"), ChatCommand::Unknown(":tpsx".to_string()));
}

#[test]
fn theme_and_cache_and_dry_run() {
    assert_eq!(parse_command("/theme"), ChatCommand::Theme(String::new()));
    assert_eq!(parse_command("/theme light"), ChatCommand::Theme("light".to_string()));
    assert_eq!(parse_command("/cache"), ChatCommand::Cache);
    assert_eq!(parse_command("/cache clear"), ChatCommand::CacheClear);
    assert_eq!(parse_command("/dry-run"), ChatCommand::DryRun(DryRunSwitch::Toggle));
    assert_eq!(parse_command("/dry-run on"), ChatCommand::DryRun(DryRunSwitch::On));
    assert_eq!(parse_command("/dry-run false"), ChatCommand::DryRun(DryRunSwitch::Off));
    assert_eq!(parse_command("/dry-run maybe"), ChatCommand::DryRunUsage);
}

#[test]
fn peek_reads_count_and_failed_flag() {
    assert_eq!(parse_command("/peek"), ChatCommand::Peek { n: None, failed: false });
    assert_eq!(parse_command("/peek 5 failed"), ChatCommand::Peek { n: Some(5), failed: true });
    assert_eq!(parse_command("/peek 3 x 9"), ChatCommand::Peek { n: Some(9), failed: false });
}

#[test]
fn unknown_commands_are_reported_as_typed() {
    assert_eq!(parse_command("/frobnicate"), ChatCommand::Unknown(":frobnicate".to_string()));
    assert_eq!(parse_command(":stats"), ChatCommand::Stats);
    assert_eq!(parse_command("/history"), ChatCommand::History);
    assert_eq!(parse_command("/overhead"), ChatCommand::Overhead);
    assert_eq!(parse_command("/tools"), ChatCommand::Tools);
    assert_eq!(parse_command("/new"), ChatCommand::New);
    assert_eq!(parse_command("/reset"), ChatCommand::Reset);
    assert_eq!(parse_command("/context"), ChatCommand::Context);
}

#[test]
fn hints_complete_a_unique_command() {
    assert_eq!(
        command_hint("", true),
        Some(" (try /help · /new starts fresh context · Alt-Enter for newline · Ctrl-C twice exits)".to_string())
    );
    assert_eq!(command_hint("/hi", true), Some("story".to_string()));
    assert_eq!(command_hint("  :sh", true), Some("ow-thinking".to_string()));
    assert_eq!(command_hint("/q", true), None);
    assert_eq!(command_hint("/quit", true), Some(String::new()));
    assert_eq!(command_hint("/qu", false), None);
    assert_eq!(command_hint("/e", true), Some("xit".to_string()));
    assert_eq!(command_hint("/c", true), None);
    assert_eq!(command_hint("hello", true), None);
}

#[test]
fn completions_follow_the_typed_prefix() {
    assert_eq!(command_completions("/th"), Some(vec!["/theme".to_string()]));
    assert_eq!(command_completions(":c"), Some(vec![":context".to_string(), ":cwd".to_string(), ":cache".to_string()]));
    assert_eq!(command_completions("/cwd src"), None);
    assert_eq!(command_completions("src/ma"), None);
    assert_eq!(command_completions("/zz"), Some(vec![]));
    assert_eq!(commands().len(), 22);
}

#[test]
fn ctrl_c_twice_exits_and_a_line_disarms() {
    let (armed, a) = prompt_step(false, PromptEvent::Interrupt);
    assert_eq!((armed, a), (true, PromptAction::WarnExit));
    assert_eq!(prompt_step(armed, PromptEvent::Interrupt), (true, PromptAction::Exit));
    let (armed, a) = prompt_step(true, PromptEvent::Line);
    assert_eq!((armed, a), (false, PromptAction::Handle));
    assert_eq!(prompt_step(armed, PromptEvent::Interrupt).1, PromptAction::WarnExit);
}
