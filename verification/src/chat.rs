//! The commands of the interactive chat: what a line typed at the prompt
//! asks for. A command starts with `/` or `:` (the two prefixes mean the
//! same); `exit`, `quit` and `bye` ask to leave; anything else is a prompt
//! for the model.

use vstd::prelude::*;
use crate::text::{chars_of, chars_eq_str, extend_chars, has_char, is_ws, is_ws_exec, match_at, matches_at, slice_to_vec, split_words, string_of, trim, trim_end, trim_start, trim_chars, trim_start_chars, views, words};
use crate::search::{parse_u64, parse_u64_spec};

verus! {

/// How `/dry-run` sets the dry-run mode.
#[derive(Debug, Clone, Copy, PartialEq, Eq, Structural)]
pub enum DryRunSwitch {
    /// No argument: flip the current mode.
    Toggle,
    On,
    Off,
}

/// What a line typed at the chat prompt asks for.
#[derive(Debug, Clone, PartialEq, Eq)]
pub enum ChatCommand {
    /// A blank line: nothing happens.
    Ignore,
    /// `/quit`, `/exit`, `/q`: leave at once.
    Quit,
    /// A bare `exit`, `quit` or `bye`: leave after confirmation.
    ConfirmExit,
    /// Clear the conversation, keep the session id.
    Reset,
    /// Clear the conversation and start a new session id.
    New,
    /// Show the context usage.
    Context,
    /// List the queued messages.
    QueueList,
    /// Drop the queued messages.
    QueueClear,
    /// Queue a message for the next turn.
    QueueAdd(String),
    /// `/queue add` without a message.
    QueueAddUsage,
    Stats,
    History,
    /// Change the working directory.
    Cwd(String),
    /// Show or hide thinking blocks.
    ShowThinking(bool),
    /// Show tool output in full or shortened.
    FullOutput(bool),
    /// Run the smoke harness on a path.
    Smoke(String),
    Tools,
    Overhead,
    /// Diff two files.
    Diff(String, String),
    /// `/diff` without two paths.
    DiffUsage,
    /// Sparkline of the last `n` decode rates.
    Tps(usize),
    /// Show (empty argument) or set the theme.
    Theme(String),
    Cache,
    CacheClear,
    DryRun(DryRunSwitch),
    /// `/dry-run` with an argument it does not know.
    DryRunUsage,
    /// The last `n` logged runs (the default when `None`), or only failed ones.
    Peek { n: Option<u64>, failed: bool },
    Help,
    /// A command nobody knows, as typed (with the `:` prefix).
    Unknown(String),
    /// Text for the model.
    Prompt(String),
}

/// A chat command as the contracts see it.
pub enum CommandView {
    Ignore,
    Quit,
    ConfirmExit,
    Reset,
    New,
    Context,
    QueueList,
    QueueClear,
    QueueAdd(Seq<char>),
    QueueAddUsage,
    Stats,
    History,
    Cwd(Seq<char>),
    ShowThinking(bool),
    FullOutput(bool),
    Smoke(Seq<char>),
    Tools,
    Overhead,
    Diff(Seq<char>, Seq<char>),
    DiffUsage,
    Tps(usize),
    Theme(Seq<char>),
    Cache,
    CacheClear,
    DryRun(DryRunSwitch),
    DryRunUsage,
    Peek(Option<u64>, bool),
    Help,
    Unknown(Seq<char>),
    Prompt(Seq<char>),
}

/// The view of a command.
pub open spec fn command_view(c: ChatCommand) -> CommandView {
    match c {
        ChatCommand::Ignore => CommandView::Ignore,
        ChatCommand::Quit => CommandView::Quit,
        ChatCommand::ConfirmExit => CommandView::ConfirmExit,
        ChatCommand::Reset => CommandView::Reset,
        ChatCommand::New => CommandView::New,
        ChatCommand::Context => CommandView::Context,
        ChatCommand::QueueList => CommandView::QueueList,
        ChatCommand::QueueClear => CommandView::QueueClear,
        ChatCommand::QueueAdd(m) => CommandView::QueueAdd(m@),
        ChatCommand::QueueAddUsage => CommandView::QueueAddUsage,
        ChatCommand::Stats => CommandView::Stats,
        ChatCommand::History => CommandView::History,
        ChatCommand::Cwd(p) => CommandView::Cwd(p@),
        ChatCommand::ShowThinking(b) => CommandView::ShowThinking(b),
        ChatCommand::FullOutput(b) => CommandView::FullOutput(b),
        ChatCommand::Smoke(p) => CommandView::Smoke(p@),
        ChatCommand::Tools => CommandView::Tools,
        ChatCommand::Overhead => CommandView::Overhead,
        ChatCommand::Diff(a, b) => CommandView::Diff(a@, b@),
        ChatCommand::DiffUsage => CommandView::DiffUsage,
        ChatCommand::Tps(n) => CommandView::Tps(n),
        ChatCommand::Theme(t) => CommandView::Theme(t@),
        ChatCommand::Cache => CommandView::Cache,
        ChatCommand::CacheClear => CommandView::CacheClear,
        ChatCommand::DryRun(s) => CommandView::DryRun(s),
        ChatCommand::DryRunUsage => CommandView::DryRunUsage,
        ChatCommand::Peek { n, failed } => CommandView::Peek(n, failed),
        ChatCommand::Help => CommandView::Help,
        ChatCommand::Unknown(c) => CommandView::Unknown(c@),
        ChatCommand::Prompt(p) => CommandView::Prompt(p@),
    }
}

/// `s` starts with `p`.
pub open spec fn starts_with(s: Seq<char>, p: Seq<char>) -> bool {
    matches_at(s, p, 0)
}

/// `s` with every leading copy of `p` removed (`str::trim_start_matches`).
pub open spec fn strip_all(s: Seq<char>, p: Seq<char>) -> Seq<char>
    decreases s.len(),
{
    if p.len() > 0 && starts_with(s, p) {
        strip_all(s.skip(p.len() as int), p)
    } else {
        s
    }
}

/// A word that switches a setting on.
pub open spec fn switch_word(s: Seq<char>) -> bool {
    s == "on"@ || s == "1"@ || s == "true"@
}

/// The typed line trimmed, with a leading `/` read as `:`.
pub open spec fn canonical(line: Seq<char>) -> Seq<char> {
    let t = trim(line);
    if t.len() > 0 && t[0] == '/' {
        seq![':'] + t.drop_first()
    } else {
        t
    }
}

/// Position of the first white-space character of `s` at or after `i`.
pub open spec fn first_ws(s: Seq<char>, i: nat) -> Option<nat>
    decreases s.len() - i,
{
    if i >= s.len() {
        None
    } else if is_ws(s[i as int]) {
        Some(i)
    } else {
        first_ws(s, i + 1)
    }
}

/// The two paths of `/diff`: `rest` split at its first white space.
pub open spec fn diff_args(rest: Seq<char>) -> Option<(Seq<char>, Seq<char>)> {
    match first_ws(rest, 0) {
        Some(k) => Some((rest.take(k as int), rest.skip(k + 1 as int))),
        None => None,
    }
}

/// What `s.parse::<usize>()` accepts.
pub open spec fn parse_usize_spec(s: Seq<char>) -> Option<usize> {
    match parse_u64_spec(s) {
        Some(v) => if v <= usize::MAX {
            Some(v as usize)
        } else {
            None
        },
        None => None,
    }
}

/// The run count of `/tps`: the number given (20 when none parses),
/// clamped to 1..=50.
pub open spec fn tps_count(arg: Seq<char>) -> usize {
    let v: usize = match parse_usize_spec(arg) {
        Some(n) => n,
        None => 20,
    };
    if v < 1 {
        1
    } else if v > 50 {
        50
    } else {
        v
    }
}

/// The arguments of `/peek` from token `i` on: `failed` selects failed runs,
/// a number sets the count (the last one wins), anything else is ignored.
pub open spec fn peek_from(toks: Seq<Seq<char>>, i: nat, n: Option<u64>, failed: bool) -> (Option<u64>, bool)
    decreases toks.len() - i,
{
    if i >= toks.len() {
        (n, failed)
    } else if toks[i as int] == "failed"@ {
        peek_from(toks, i + 1, n, true)
    } else {
        match parse_u64_spec(toks[i as int]) {
            Some(v) => peek_from(toks, i + 1, Some(v), failed),
            None => peek_from(toks, i + 1, n, failed),
        }
    }
}

/// The switch `/dry-run` asks for.
pub open spec fn dry_run_spec(arg: Seq<char>) -> CommandView {
    if arg.len() == 0 {
        CommandView::DryRun(DryRunSwitch::Toggle)
    } else if arg == "on"@ || arg == "1"@ || arg == "true"@ {
        CommandView::DryRun(DryRunSwitch::On)
    } else if arg == "off"@ || arg == "0"@ || arg == "false"@ {
        CommandView::DryRun(DryRunSwitch::Off)
    } else {
        CommandView::DryRunUsage
    }
}

/// The commands that take no argument.
pub open spec fn plain_command(c: Seq<char>) -> Option<CommandView> {
    if c == ":quit"@ || c == ":exit"@ || c == ":q"@ {
        Some(CommandView::Quit)
    } else if c == "exit"@ || c == "quit"@ || c == "bye"@ {
        Some(CommandView::ConfirmExit)
    } else if c == ":reset"@ {
        Some(CommandView::Reset)
    } else if c == ":new"@ {
        Some(CommandView::New)
    } else if c == ":context"@ {
        Some(CommandView::Context)
    } else if c == ":queue"@ {
        Some(CommandView::QueueList)
    } else if c == ":queue clear"@ {
        Some(CommandView::QueueClear)
    } else {
        None
    }
}

/// The commands checked after the plain ones, in order; `None` when the
/// line is none of them.
pub open spec fn arg_command(c: Seq<char>) -> Option<CommandView> {
    if starts_with(c, ":queue add "@) {
        let m = trim(c.skip(":queue add "@.len() as int));
        Some(if m.len() == 0 {
            CommandView::QueueAddUsage
        } else {
            CommandView::QueueAdd(m)
        })
    } else if c == ":stats"@ {
        Some(CommandView::Stats)
    } else if c == ":history"@ {
        Some(CommandView::History)
    } else if starts_with(c, ":cwd "@) {
        Some(CommandView::Cwd(trim(c.skip(":cwd "@.len() as int))))
    } else if starts_with(c, ":show-thinking "@) {
        Some(CommandView::ShowThinking(switch_word(trim(c.skip(":show-thinking "@.len() as int)))))
    } else if starts_with(c, ":full-output "@) {
        Some(CommandView::FullOutput(switch_word(trim(c.skip(":full-output "@.len() as int)))))
    } else if c == ":smoke"@ {
        Some(CommandView::Smoke("."@))
    } else if starts_with(c, ":smoke "@) {
        Some(CommandView::Smoke(trim(c.skip(":smoke "@.len() as int))))
    } else if c == ":tools"@ {
        Some(CommandView::Tools)
    } else if c == ":overhead"@ {
        Some(CommandView::Overhead)
    } else if starts_with(c, ":diff "@) {
        Some(
            match diff_args(trim(c.skip(":diff "@.len() as int))) {
                Some((a, b)) => CommandView::Diff(a, b),
                None => CommandView::DiffUsage,
            },
        )
    } else {
        None
    }
}

/// The last group of commands, then unknown commands and prompts.
pub open spec fn late_command(c: Seq<char>) -> CommandView {
    if c == ":tps"@ || starts_with(c, ":tps "@) {
        CommandView::Tps(tps_count(trim(strip_all(c, ":tps"@))))
    } else if starts_with(c, ":theme"@) {
        CommandView::Theme(trim(strip_all(c, ":theme"@)))
    } else if c == ":cache"@ {
        CommandView::Cache
    } else if c == ":cache clear"@ {
        CommandView::CacheClear
    } else if starts_with(c, ":dry-run"@) {
        dry_run_spec(trim(strip_all(c, ":dry-run"@)))
    } else if c == ":peek"@ || starts_with(c, ":peek "@) {
        let (n, f) = peek_from(words(trim(strip_all(c, ":peek"@))), 0, None, false);
        CommandView::Peek(n, f)
    } else if c == ":help"@ {
        CommandView::Help
    } else if c[0] == ':' {
        CommandView::Unknown(c)
    } else {
        CommandView::Prompt(c)
    }
}

/// What a typed line asks for.
pub open spec fn command_spec(line: Seq<char>) -> CommandView {
    let c = canonical(line);
    if c.len() == 0 {
        CommandView::Ignore
    } else {
        match plain_command(c) {
            Some(v) => v,
            None => match arg_command(c) {
                Some(v) => v,
                None => late_command(c),
            },
        }
    }
}

proof fn lemma_trim_end_cons(c: char, r: Seq<char>)
    requires
        !is_ws(c),
    ensures
        trim_end(seq![c] + r) == seq![c] + trim_end(r),
    decreases r.len(),
{
    if r.len() > 0 && is_ws(r.last()) {
        assert((seq![c] + r).drop_last() =~= seq![c] + r.drop_last());
        lemma_trim_end_cons(c, r.drop_last());
    } else if r.len() == 0 {
        assert(seq![c] + r =~= seq![c]);
        assert(seq![c].drop_last() =~= Seq::<char>::empty());
    }
}

/// A command typed with `/` means the same as the one typed with `:`.
pub proof fn lemma_slash_is_colon(rest: Seq<char>)
    ensures
        command_spec(seq!['/'] + rest) == command_spec(seq![':'] + rest),
{
    lemma_trim_end_cons('/', rest);
    lemma_trim_end_cons(':', rest);
    assert((seq!['/'] + trim_end(rest)).drop_first() =~= trim_end(rest));
    assert(canonical(seq!['/'] + rest) =~= canonical(seq![':'] + rest));
}

fn starts_with_exec(s: &[char], p: &str) -> (r: bool)
    ensures
        r == starts_with(s@, p@),
{
    let pc = chars_of(p);
    match_at(s, &pc, 0)
}

/// The trimmed text after the prefix `p` of `s`.
fn rest_after(s: &[char], p: &str) -> (r: Vec<char>)
    requires
        starts_with(s@, p@),
    ensures
        r@ == trim(s@.skip(p@.len() as int)),
{
    let pc = chars_of(p);
    let tail = slice_to_vec(s, pc.len(), s.len());
    assert(tail@ =~= s@.skip(p@.len() as int));
    trim_chars(&tail)
}

fn strip_all_exec(s: &[char], p: &str) -> (r: Vec<char>)
    ensures
        r@ == strip_all(s@, p@),
{
    let pc = chars_of(p);
    if pc.len() == 0 {
        return slice_to_vec(s, 0, s.len());
    }
    let mut k: usize = 0;
    assert(s@.skip(0) =~= s@);
    while match_at(s, &pc, k)
        invariant
            k <= s.len(),
            pc@ == p@,
            pc@.len() > 0,
            strip_all(s@.skip(k as int), p@) == strip_all(s@, p@),
        decreases s.len() - k,
    {
        let ghost t = s@.skip(k as int);
        assert(t.subrange(0, pc@.len() as int) =~= s@.subrange(k as int, k + pc@.len()));
        assert(t.skip(pc@.len() as int) =~= s@.skip(k + pc@.len()));
        k = k + pc.len();
    }
    let ghost t = s@.skip(k as int);
    assert(k + pc@.len() <= s@.len() ==> t.subrange(0, pc@.len() as int) =~= s@.subrange(k as int, k + pc@.len()));
    slice_to_vec(s, k, s.len())
}

fn first_ws_exec(s: &[char]) -> (r: Option<usize>)
    ensures
        match r {
            Some(k) => k < s.len() && first_ws(s@, 0) == Some(k as nat),
            None => first_ws(s@, 0) is None,
        },
{
    let mut i: usize = 0;
    while i < s.len()
        invariant
            i <= s.len(),
            first_ws(s@, 0) == first_ws(s@, i as nat),
        decreases s.len() - i,
    {
        if is_ws_exec(s[i]) {
            return Some(i);
        }
        i += 1;
    }
    None
}

fn parse_usize(s: &[char]) -> (r: Option<usize>)
    ensures
        r == parse_usize_spec(s@),
{
    match parse_u64(s) {
        Some(v) => if v <= usize::MAX as u64 {
            Some(v as usize)
        } else {
            None
        },
        None => None,
    }
}

fn peek_args(rest: &[char]) -> (r: (Option<u64>, bool))
    ensures
        r == peek_from(words(rest@), 0, None, false),
{
    let toks = split_words(rest);
    let ghost tv = views(toks@);
    let mut n: Option<u64> = None;
    let mut failed = false;
    let mut i: usize = 0;
    while i < toks.len()
        invariant
            i <= toks@.len(),
            tv == views(toks@),
            tv == words(rest@),
            peek_from(tv, i as nat, n, failed) == peek_from(tv, 0, None, false),
        decreases toks@.len() - i,
    {
        assert(tv[i as int] == toks@[i as int]@);
        if chars_eq_str(&toks[i], "failed") {
            failed = true;
        } else {
            match parse_u64(&toks[i]) {
                Some(v) => {
                    n = Some(v);
                },
                None => {},
            }
        }
        i += 1;
    }
    (n, failed)
}

fn plain_command_exec(c: &[char]) -> (r: Option<ChatCommand>)
    ensures
        match r {
            Some(x) => plain_command(c@) == Some(command_view(x)),
            None => plain_command(c@) is None,
        },
{
    if chars_eq_str(c, ":quit") || chars_eq_str(c, ":exit") || chars_eq_str(c, ":q") {
        Some(ChatCommand::Quit)
    } else if chars_eq_str(c, "exit") || chars_eq_str(c, "quit") || chars_eq_str(c, "bye") {
        Some(ChatCommand::ConfirmExit)
    } else if chars_eq_str(c, ":reset") {
        Some(ChatCommand::Reset)
    } else if chars_eq_str(c, ":new") {
        Some(ChatCommand::New)
    } else if chars_eq_str(c, ":context") {
        Some(ChatCommand::Context)
    } else if chars_eq_str(c, ":queue") {
        Some(ChatCommand::QueueList)
    } else if chars_eq_str(c, ":queue clear") {
        Some(ChatCommand::QueueClear)
    } else {
        None
    }
}

fn switch_word_exec(s: &[char]) -> (r: bool)
    ensures
        r == switch_word(s@),
{
    chars_eq_str(s, "on") || chars_eq_str(s, "1") || chars_eq_str(s, "true")
}

fn arg_command_exec(c: &[char]) -> (r: Option<ChatCommand>)
    ensures
        match r {
            Some(x) => arg_command(c@) == Some(command_view(x)),
            None => arg_command(c@) is None,
        },
{
    if starts_with_exec(c, ":queue add ") {
        let m = rest_after(c, ":queue add ");
        if m.len() == 0 {
            Some(ChatCommand::QueueAddUsage)
        } else {
            Some(ChatCommand::QueueAdd(string_of(&m)))
        }
    } else if chars_eq_str(c, ":stats") {
        Some(ChatCommand::Stats)
    } else if chars_eq_str(c, ":history") {
        Some(ChatCommand::History)
    } else if starts_with_exec(c, ":cwd ") {
        Some(ChatCommand::Cwd(string_of(&rest_after(c, ":cwd "))))
    } else if starts_with_exec(c, ":show-thinking ") {
        Some(ChatCommand::ShowThinking(switch_word_exec(&rest_after(c, ":show-thinking "))))
    } else if starts_with_exec(c, ":full-output ") {
        Some(ChatCommand::FullOutput(switch_word_exec(&rest_after(c, ":full-output "))))
    } else if chars_eq_str(c, ":smoke") {
        Some(ChatCommand::Smoke(".".to_owned()))
    } else if starts_with_exec(c, ":smoke ") {
        Some(ChatCommand::Smoke(string_of(&rest_after(c, ":smoke "))))
    } else if chars_eq_str(c, ":tools") {
        Some(ChatCommand::Tools)
    } else if chars_eq_str(c, ":overhead") {
        Some(ChatCommand::Overhead)
    } else if starts_with_exec(c, ":diff ") {
        let rest = rest_after(c, ":diff ");
        match first_ws_exec(&rest) {
            Some(k) => {
                let a = slice_to_vec(&rest, 0, k);
                let b = slice_to_vec(&rest, k + 1, rest.len());
                assert(a@ =~= rest@.take(k as int));
                assert(b@ =~= rest@.skip(k + 1 as int));
                Some(ChatCommand::Diff(string_of(&a), string_of(&b)))
            },
            None => Some(ChatCommand::DiffUsage),
        }
    } else {
        None
    }
}

fn late_command_exec(c: &[char]) -> (r: ChatCommand)
    requires
        c@.len() > 0,
    ensures
        command_view(r) == late_command(c@),
{
    if chars_eq_str(c, ":tps") || starts_with_exec(c, ":tps ") {
        let arg = trim_chars(&strip_all_exec(c, ":tps"));
        let v = match parse_usize(&arg) {
            Some(n) => n,
            None => 20,
        };
        ChatCommand::Tps(
            if v < 1 {
                1
            } else if v > 50 {
                50
            } else {
                v
            },
        )
    } else if starts_with_exec(c, ":theme") {
        ChatCommand::Theme(string_of(&trim_chars(&strip_all_exec(c, ":theme"))))
    } else if chars_eq_str(c, ":cache") {
        ChatCommand::Cache
    } else if chars_eq_str(c, ":cache clear") {
        ChatCommand::CacheClear
    } else if starts_with_exec(c, ":dry-run") {
        let arg = trim_chars(&strip_all_exec(c, ":dry-run"));
        if arg.len() == 0 {
            ChatCommand::DryRun(DryRunSwitch::Toggle)
        } else if chars_eq_str(&arg, "on") || chars_eq_str(&arg, "1") || chars_eq_str(&arg, "true") {
            ChatCommand::DryRun(DryRunSwitch::On)
        } else if chars_eq_str(&arg, "off") || chars_eq_str(&arg, "0") || chars_eq_str(&arg, "false") {
            ChatCommand::DryRun(DryRunSwitch::Off)
        } else {
            ChatCommand::DryRunUsage
        }
    } else if chars_eq_str(c, ":peek") || starts_with_exec(c, ":peek ") {
        let rest = trim_chars(&strip_all_exec(c, ":peek"));
        let (n, failed) = peek_args(&rest);
        ChatCommand::Peek { n, failed }
    } else if chars_eq_str(c, ":help") {
        ChatCommand::Help
    } else if c[0] == ':' {
        ChatCommand::Unknown(string_of(c))
    } else {
        ChatCommand::Prompt(string_of(c))
    }
}

/// Reads a line typed at the chat prompt.
pub fn parse_command(line: &str) -> (r: ChatCommand)
    ensures
        command_view(r) == command_spec(line@),
{
    let t = trim_chars(&chars_of(line));
    let c = if t.len() > 0 && t[0] == '/' {
        let mut v: Vec<char> = vec![':'];
        let tail = slice_to_vec(&t, 1, t.len());
        crate::text::extend_chars(&mut v, &tail);
        assert(v@ =~= seq![':'] + t@.drop_first());
        v
    } else {
        t
    };
    assert(c@ == canonical(line@));
    if c.len() == 0 {
        return ChatCommand::Ignore;
    }
    match plain_command_exec(&c) {
        Some(x) => x,
        None => match arg_command_exec(&c) {
            Some(x) => x,
            None => late_command_exec(&c),
        },
    }
}

/// The commands the prompt completes, in their `:` form.
pub open spec fn commands_spec() -> Seq<Seq<char>> {
    seq![
        ":help"@, ":new"@, ":reset"@, ":quit"@, ":exit"@, ":q"@, ":stats"@, ":context"@, ":queue"@,
        ":history"@, ":cwd"@, ":show-thinking"@, ":full-output"@, ":smoke"@, ":tools"@, ":overhead"@,
        ":diff"@, ":peek"@, ":dry-run"@, ":cache"@, ":tps"@, ":theme"@,
    ]
}

/// The commands the prompt completes, in their `:` form.
pub fn commands() -> (r: Vec<&'static str>)
    ensures
        r@.map_values(|c: &str| c@) == commands_spec(),
{
    let r = vec![
        ":help", ":new", ":reset", ":quit", ":exit", ":q", ":stats", ":context", ":queue",
        ":history", ":cwd", ":show-thinking", ":full-output", ":smoke", ":tools", ":overhead",
        ":diff", ":peek", ":dry-run", ":cache", ":tps", ":theme",
    ];
    assert(r@.map_values(|c: &str| c@) =~= commands_spec());
    r
}

/// The commands `i..` that start with `canon`.
pub open spec fn matching_from(cmds: Seq<Seq<char>>, canon: Seq<char>, i: nat) -> Seq<Seq<char>>
    decreases cmds.len() - i,
{
    if i >= cmds.len() {
        Seq::empty()
    } else {
        (if starts_with(cmds[i as int], canon) {
            seq![cmds[i as int]]
        } else {
            Seq::empty()
        }) + matching_from(cmds, canon, i + 1)
    }
}

/// A command typed with `/` read as its `:` form.
pub open spec fn colon_form(p: Seq<char>) -> Seq<char> {
    if p.len() > 0 && p[0] == '/' {
        seq![':'] + p.drop_first()
    } else {
        p
    }
}

/// The tip shown at an empty prompt.
pub open spec fn empty_prompt_tip() -> Seq<char> {
    " (try /help · /new starts fresh context · Alt-Enter for newline · Ctrl-C twice exits)"@
}

/// The inline hint for the typed `line`, the cursor being at its end when
/// `at_end`: a tip at an empty prompt, else the rest of the one command
/// the typed command starts.
pub open spec fn hint_spec(line: Seq<char>, at_end: bool) -> Option<Seq<char>> {
    if line.len() == 0 && at_end {
        Some(empty_prompt_tip())
    } else if !at_end {
        None
    } else {
        let p = trim_start(line);
        if p.len() == 0 || (p[0] != ':' && p[0] != '/') {
            None
        } else {
            let canon = colon_form(p);
            let m = matching_from(commands_spec(), canon, 0);
            if m.len() == 1 {
                Some(m[0].skip(canon.len() as int))
            } else {
                None
            }
        }
    }
}

/// The completions of the typed text before the cursor: the commands it
/// starts, in the prefix the user typed; `None` when it is not a command
/// (paths are completed then).
pub open spec fn completions_spec(prefix: Seq<char>) -> Option<Seq<Seq<char>>> {
    if !prefix.contains(' ') && prefix.len() > 0 && (prefix[0] == ':' || prefix[0] == '/') {
        let m = matching_from(commands_spec(), colon_form(prefix), 0);
        Some(
            if prefix[0] == '/' {
                m.map_values(|c: Seq<char>| seq!['/'] + c.drop_first())
            } else {
                m
            },
        )
    } else {
        None
    }
}

proof fn lemma_matching_prefix(cmds: Seq<Seq<char>>, canon: Seq<char>, i: nat)
    ensures
        forall|k: int|
            0 <= k < matching_from(cmds, canon, i).len() ==> starts_with(#[trigger] matching_from(cmds, canon, i)[k], canon),
    decreases cmds.len() - i,
{
    if i < cmds.len() {
        lemma_matching_prefix(cmds, canon, i + 1);
        let head = if starts_with(cmds[i as int], canon) {
            seq![cmds[i as int]]
        } else {
            Seq::empty()
        };
        let rest = matching_from(cmds, canon, i + 1);
        assert forall|k: int| 0 <= k < matching_from(cmds, canon, i).len() implies starts_with(
            #[trigger] matching_from(cmds, canon, i)[k],
            canon,
        ) by {
            assert(matching_from(cmds, canon, i) == head + rest);
            if k >= head.len() {
                assert(matching_from(cmds, canon, i)[k] == rest[k - head.len()]);
            }
        }
    }
}

fn colon_form_exec(p: &[char]) -> (r: Vec<char>)
    ensures
        r@ == colon_form(p@),
{
    if p.len() > 0 && p[0] == '/' {
        let mut v: Vec<char> = vec![':'];
        extend_chars(&mut v, &slice_to_vec(p, 1, p.len()));
        assert(v@ =~= seq![':'] + p@.drop_first());
        v
    } else {
        slice_to_vec(p, 0, p.len())
    }
}

fn matching_commands(canon: &[char]) -> (r: Vec<&'static str>)
    ensures
        r@.map_values(|c: &str| c@) == matching_from(commands_spec(), canon@, 0),
{
    let cmds = commands();
    let ghost cs = commands_spec();
    let mut out: Vec<&'static str> = Vec::new();
    let mut i: usize = 0;
    assert(out@.map_values(|c: &str| c@) =~= Seq::<Seq<char>>::empty());
    while i < cmds.len()
        invariant
            i <= cmds@.len(),
            cmds@.map_values(|c: &str| c@) == cs,
            cs == commands_spec(),
            out@.map_values(|c: &str| c@) + matching_from(cs, canon@, i as nat) == matching_from(cs, canon@, 0),
        decreases cmds@.len() - i,
    {
        let c = cmds[i];
        assert(c@ == cs[i as int]);
        let ghost prev = out@.map_values(|c: &str| c@);
        let cc = chars_of(c);
        if match_at(&cc, canon, 0) {
            out.push(c);
            assert(out@.map_values(|c: &str| c@) =~= prev.push(c@));
            assert(prev + matching_from(cs, canon@, i as nat) =~= out@.map_values(|c: &str| c@) + matching_from(cs, canon@, (i + 1) as nat));
        } else {
            assert(matching_from(cs, canon@, i as nat) =~= matching_from(cs, canon@, (i + 1) as nat));
        }
        i += 1;
    }
    assert(out@.map_values(|c: &str| c@) + Seq::<Seq<char>>::empty() =~= out@.map_values(|c: &str| c@));
    out
}

/// The inline hint for the typed `line` (see `hint_spec`).
pub fn command_hint(line: &str, at_end: bool) -> (r: Option<String>)
    ensures
        match r {
            Some(h) => hint_spec(line@, at_end) == Some(h@),
            None => hint_spec(line@, at_end) is None,
        },
{
    let l = chars_of(line);
    if l.len() == 0 && at_end {
        return Some(" (try /help · /new starts fresh context · Alt-Enter for newline · Ctrl-C twice exits)".to_owned());
    }
    if !at_end {
        return None;
    }
    let p = trim_start_chars(&l);
    if p.len() == 0 || (p[0] != ':' && p[0] != '/') {
        return None;
    }
    let canon = colon_form_exec(&p);
    let m = matching_commands(&canon);
    if m.len() == 1 {
        let ghost mv = m@.map_values(|c: &str| c@);
        assert(mv[0] == m@[0]@);
        proof {
            lemma_matching_prefix(commands_spec(), canon@, 0);
            assert(starts_with(mv[0], canon@));
        }
        let cc = chars_of(m[0]);
        let rest = slice_to_vec(&cc, canon.len(), cc.len());
        assert(rest@ =~= mv[0].skip(canon@.len() as int));
        Some(string_of(&rest))
    } else {
        None
    }
}

/// The completions of the typed text before the cursor (see
/// `completions_spec`); `None` when paths should be completed.
pub fn command_completions(prefix: &str) -> (r: Option<Vec<String>>)
    ensures
        match r {
            Some(v) => completions_spec(prefix@) == Some(v@.map_values(|s: String| s@)),
            None => completions_spec(prefix@) is None,
        },
{
    let p = chars_of(prefix);
    if has_char(&p, ' ') || p.len() == 0 || (p[0] != ':' && p[0] != '/') {
        return None;
    }
    let slash = p[0] == '/';
    let canon = colon_form_exec(&p);
    let m = matching_commands(&canon);
    let ghost mv = m@.map_values(|c: &str| c@);
    proof {
        lemma_matching_prefix(commands_spec(), canon@, 0);
        assert(canon@.len() > 0);
    }
    let ghost want = if slash {
        mv.map_values(|c: Seq<char>| seq!['/'] + c.drop_first())
    } else {
        mv
    };
    let mut out: Vec<String> = Vec::new();
    let mut i: usize = 0;
    while i < m.len()
        invariant
            i <= m@.len(),
            mv == m@.map_values(|c: &str| c@),
            want == if slash {
                mv.map_values(|c: Seq<char>| seq!['/'] + c.drop_first())
            } else {
                mv
            },
            out@.map_values(|s: String| s@) == want.take(i as int),
            canon@.len() > 0,
            forall|k: int| 0 <= k < mv.len() ==> starts_with(#[trigger] mv[k], canon@),
        decreases m@.len() - i,
    {
        let cc = chars_of(m[i]);
        assert(mv[i as int] == m@[i as int]@);
        assert(starts_with(mv[i as int], canon@));
        let item = if slash {
            let mut v: Vec<char> = vec!['/'];
            extend_chars(&mut v, &slice_to_vec(&cc, 1, cc.len()));
            assert(v@ =~= seq!['/'] + cc@.drop_first());
            string_of(&v)
        } else {
            m[i].to_owned()
        };
        let ghost prev = out@.map_values(|s: String| s@);
        out.push(item);
        assert(out@.map_values(|s: String| s@) =~= prev.push(want[i as int]));
        assert(want.take(i + 1) =~= want.take(i as int).push(want[i as int]));
        i += 1;
    }
    assert(want.take(m@.len() as int) =~= want);
    Some(out)
}

// ---------------------------------------------------------------------------
// Leaving the prompt with Ctrl-C
// ---------------------------------------------------------------------------

/// What the prompt reads.
#[derive(Debug, Clone, Copy, PartialEq, Eq, Structural)]
pub enum PromptEvent {
    /// A line was entered.
    Line,
    /// Ctrl-C was pressed at the prompt.
    Interrupt,
}

/// What the prompt does about it.
#[derive(Debug, Clone, Copy, PartialEq, Eq, Structural)]
pub enum PromptAction {
    /// Handle the line.
    Handle,
    /// Tell the user that a second Ctrl-C exits, and read again.
    WarnExit,
    /// Save the history and leave.
    Exit,
}

/// One step of the prompt: `armed` is whether the last thing read was a
/// Ctrl-C. A line disarms; a Ctrl-C arms, and a Ctrl-C while armed exits.
pub open spec fn prompt_step_spec(armed: bool, ev: PromptEvent) -> (bool, PromptAction) {
    match ev {
        PromptEvent::Line => (false, PromptAction::Handle),
        PromptEvent::Interrupt => if armed {
            (true, PromptAction::Exit)
        } else {
            (true, PromptAction::WarnExit)
        },
    }
}

/// The next armed state and the action for one event at the prompt.
pub fn prompt_step(armed: bool, ev: PromptEvent) -> (r: (bool, PromptAction))
    ensures
        r == prompt_step_spec(armed, ev),
{
    match ev {
        PromptEvent::Line => (false, PromptAction::Handle),
        PromptEvent::Interrupt => if armed {
            (true, PromptAction::Exit)
        } else {
            (true, PromptAction::WarnExit)
        },
    }
}

/// Ctrl-C twice in a row exits, whatever came before; a single Ctrl-C
/// after a line only warns.
pub proof fn lemma_double_interrupt_exits(armed: bool)
    ensures
        prompt_step_spec(prompt_step_spec(armed, PromptEvent::Interrupt).0, PromptEvent::Interrupt).1
            == PromptAction::Exit,
        prompt_step_spec(prompt_step_spec(armed, PromptEvent::Line).0, PromptEvent::Interrupt).1
            == PromptAction::WarnExit,
{
}

} // verus!
