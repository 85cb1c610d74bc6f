//! The validated "optimal" model-server configuration and the checks that
//! compare a running server against it.
//!
//! One command line is known to deliver the expected speed and correctness
//! profile; it is pinned here so that drift of the running server can be
//! detected and a restart can reuse the same flags.

use vstd::prelude::*;
use std::path::PathBuf;
use crate::text::{words, words_of_str, views, chars_eq_str, chars_of, extend_chars, extend_str, string_of, lines_of};

verus! {

#[verifier::external_type_specification]
#[verifier::external_body]
pub struct ExPathBuf(std::path::PathBuf);

/// `PathBuf::clone`, which the derived `Clone` impls below call; nothing is
/// stated of the copy, since the path's contents are opaque here.
pub assume_specification[ <std::path::PathBuf as Clone>::clone ](p: &PathBuf) -> PathBuf;

/// Host the optimal server binds.
pub const OPTIMAL_HOST: &'static str = "127.0.0.1";
/// Port the optimal server binds.
pub const OPTIMAL_PORT: u16 = 8088;
/// Hub id of the optimal model.
pub const OPTIMAL_MODEL_HF_ID: &'static str = "Youssofal/Qwen3.6-27B-MTPLX-Optimized-Speed";
/// Model id the optimal server announces.
pub const OPTIMAL_MODEL_ID: &'static str = "mtplx-qwen36-27b-optimized-speed";
/// Where the server's output goes.
pub const LOG_FILE: &'static str = "~/.mlx-code/mtplx.log";

/// The flags the optimal server always carries, `--flag value` pairs and
/// boolean `--flag`s.
pub open spec fn optimal_flags_spec() -> Seq<Seq<char>> {
    seq![
        "--depth"@, "3"@, "--generation-mode"@, "mtp"@, "--profile"@, "sustained"@,
        "--verify-core"@, "linear-gdn-from-conv-tape"@, "--draft-lm-head-bits"@, "3"@,
        "--draft-lm-head-group-size"@, "64"@, "--draft-lm-head-mode"@, "affine"@,
        "--draft-temperature"@, "0.7"@, "--draft-top-p"@, "0.95"@, "--draft-top-k"@, "20"@,
        "--rate-limit"@, "0"@, "--stream-interval"@, "1"@, "--warmup-tokens"@, "16"@,
        "--no-strict-mlx-fork-assert"@, "--no-strict-startup-asserts"@, "--temperature"@,
        "0.6"@, "--top-p"@, "0.95"@, "--reasoning-parser"@, "qwen3"@, "--no-stats-footer"@,
        "--context-window"@, "128000"@,
    ]
}

/// The flags the optimal server always carries.
pub fn optimal_flags() -> (r: Vec<&'static str>)
    ensures
        r@.map_values(|s: &str| s@) == optimal_flags_spec(),
{
    let r = vec![
        "--depth", "3", "--generation-mode", "mtp", "--profile", "sustained",
        "--verify-core", "linear-gdn-from-conv-tape", "--draft-lm-head-bits", "3",
        "--draft-lm-head-group-size", "64", "--draft-lm-head-mode", "affine",
        "--draft-temperature", "0.7", "--draft-top-p", "0.95", "--draft-top-k", "20",
        "--rate-limit", "0", "--stream-interval", "1", "--warmup-tokens", "16",
        "--no-strict-mlx-fork-assert", "--no-strict-startup-asserts", "--temperature",
        "0.6", "--top-p", "0.95", "--reasoning-parser", "qwen3", "--no-stats-footer",
        "--context-window", "128000",
    ];
    assert(r@.map_values(|s: &str| s@) =~= optimal_flags_spec());
    r
}

/// Index of the first token equal to `x` at or after `j`.
pub open spec fn first_from(toks: Seq<Seq<char>>, x: Seq<char>, j: nat) -> Option<nat>
    decreases toks.len() - j,
{
    if j >= toks.len() {
        None
    } else if toks[j as int] == x {
        Some(j)
    } else {
        first_from(toks, x, j + 1)
    }
}

/// Index of the first token equal to `x`.
pub open spec fn first_index(toks: Seq<Seq<char>>, x: Seq<char>) -> Option<nat> {
    first_from(toks, x, 0)
}

proof fn lemma_first_from_found(toks: Seq<Seq<char>>, x: Seq<char>, j: nat)
    ensures
        first_from(toks, x, j) matches Some(k) ==> j <= k < toks.len() && toks[k as int] == x,
        first_from(toks, x, j) is None ==> forall|k: int| j <= k < toks.len() ==> toks[k] != x,
    decreases toks.len() - j,
{
    if j < toks.len() && toks[j as int] != x {
        lemma_first_from_found(toks, x, j + 1);
    }
}

/// Position of the first token spelling `x`.
fn find_token(toks: &Vec<Vec<char>>, x: &str) -> (r: Option<usize>)
    ensures
        match r {
            Some(k) => k < toks.len() && first_index(views(toks@), x@) == Some(k as nat),
            None => first_index(views(toks@), x@) is None,
        },
{
    let ghost v = views(toks@);
    let mut j: usize = 0;
    while j < toks.len()
        invariant
            j <= toks@.len(),
            v == views(toks@),
            first_index(v, x@) == first_from(v, x@, j as nat),
        decreases toks@.len() - j,
    {
        if chars_eq_str(&toks[j], x) {
            return Some(j);
        }
        j += 1;
    }
    None
}

/// A flag's value follows it: boolean flags are those followed by another
/// flag or by nothing.
pub open spec fn starts_with_dashes(s: Seq<char>) -> bool {
    s.len() >= 2 && s[0] == '-' && s[1] == '-'
}

/// Whether the flag at `i` of `f` takes no value.
pub open spec fn is_boolean_at(f: Seq<Seq<char>>, i: int) -> bool {
    i + 1 >= f.len() || starts_with_dashes(f[i + 1])
}

/// The first occurrence of `flag` among the tokens is followed by `value`.
pub open spec fn value_ok(toks: Seq<Seq<char>>, flag: Seq<char>, value: Seq<char>) -> bool {
    match first_index(toks, flag) {
        Some(j) => j + 1 < toks.len() && toks[j + 1 as int] == value,
        None => false,
    }
}

/// The required flags from position `i` on that the tokens lack: a boolean
/// flag missing from the tokens, or `flag value` when the flag's first
/// occurrence is not followed by the value.
pub open spec fn deltas_from(f: Seq<Seq<char>>, toks: Seq<Seq<char>>, i: nat) -> Seq<Seq<char>>
    decreases f.len() - i,
{
    if i >= f.len() {
        Seq::empty()
    } else if is_boolean_at(f, i as int) {
        (if toks.contains(f[i as int]) {
            Seq::<Seq<char>>::empty()
        } else {
            seq![f[i as int]]
        }) + deltas_from(f, toks, i + 1)
    } else {
        (if value_ok(toks, f[i as int], f[i + 1 as int]) {
            Seq::<Seq<char>>::empty()
        } else {
            seq![f[i as int] + " "@ + f[i + 1 as int]]
        }) + deltas_from(f, toks, i + 2)
    }
}

/// Result of comparing a running server's command line with the optimal
/// configuration.
#[derive(Debug)]
pub struct ConfigDelta {
    /// Required flags that are missing or carry another value.
    pub missing_or_wrong: Vec<String>,
    /// Required environment variables the running process lacks (not
    /// observable from outside the process, so always empty here).
    pub missing_env: Vec<String>,
}

/// The texts of a vector of strings.
pub open spec fn string_views(v: Seq<String>) -> Seq<Seq<char>> {
    v.map_values(|s: String| s@)
}

impl ConfigDelta {
    /// Nothing is missing.
    pub fn is_optimal(&self) -> (r: bool)
        ensures
            r == (self.missing_or_wrong@.len() == 0 && self.missing_env@.len() == 0),
    {
        self.missing_or_wrong.len() == 0 && self.missing_env.len() == 0
    }
}

fn starts_with_dashes_exec(s: &str) -> (r: bool)
    ensures
        r == starts_with_dashes(s@),
{
    let c = chars_of(s);
    c.len() >= 2 && c[0] == '-' && c[1] == '-'
}

fn tokens_contain(toks: &Vec<Vec<char>>, x: &str) -> (r: bool)
    ensures
        r == views(toks@).contains(x@),
{
    let ghost v = views(toks@);
    proof {
        lemma_first_from_found(v, x@, 0);
    }
    match find_token(toks, x) {
        Some(k) => {
            assert(v[k as int] == x@);
            true
        },
        None => false,
    }
}

fn value_follows(toks: &Vec<Vec<char>>, flag: &str, value: &str) -> (r: bool)
    ensures
        r == value_ok(views(toks@), flag@, value@),
{
    match find_token(toks, flag) {
        Some(j) => j + 1 < toks.len() && chars_eq_str(&toks[j + 1], value),
        None => false,
    }
}

/// Compares a running command line with the optimal flags: each flag with
/// a value must appear with that value as the next token, each boolean
/// flag must appear.
pub fn config_deltas(running_cmd: &str) -> (r: ConfigDelta)
    ensures
        string_views(r.missing_or_wrong@) == deltas_from(optimal_flags_spec(), words(running_cmd@), 0),
        r.missing_env@.len() == 0,
{
    let toks = words_of_str(running_cmd);
    let flags = optimal_flags();
    let ghost f = optimal_flags_spec();
    let ghost t = words(running_cmd@);
    let mut missing: Vec<String> = Vec::new();
    let mut i: usize = 0;
    assert(string_views(missing@) =~= Seq::<Seq<char>>::empty());
    while i < flags.len()
        invariant
            i <= flags@.len(),
            f == optimal_flags_spec(),
            flags@.map_values(|s: &str| s@) == f,
            t == views(toks@),
            string_views(missing@) + deltas_from(f, t, i as nat) == deltas_from(f, t, 0),
        decreases flags@.len() - i,
    {
        let flag = flags[i];
        assert(flag@ == f[i as int]);
        let is_boolean = if i + 1 < flags.len() {
            assert(flags[i + 1]@ == f[i + 1]);
            starts_with_dashes_exec(flags[i + 1])
        } else {
            true
        };
        let ghost prev = string_views(missing@);
        if is_boolean {
            if !tokens_contain(&toks, flag) {
                missing.push(flag.to_owned());
                assert(string_views(missing@) =~= prev + seq![f[i as int]]);
            } else {
                assert(prev + Seq::<Seq<char>>::empty() =~= prev);
            }
            assert(string_views(missing@) + deltas_from(f, t, (i + 1) as nat) =~= prev + deltas_from(f, t, i as nat));
            i += 1;
        } else {
            let value = flags[i + 1];
            if !value_follows(&toks, flag, value) {
                let mut v = chars_of(flag);
                extend_str(&mut v, " ");
                extend_str(&mut v, value);
                missing.push(string_of(&v));
                assert(string_views(missing@) =~= prev + seq![f[i as int] + " "@ + f[i + 1 as int]]);
            } else {
                assert(prev + Seq::<Seq<char>>::empty() =~= prev);
            }
            assert(string_views(missing@) + deltas_from(f, t, (i + 2) as nat) =~= prev + deltas_from(f, t, i as nat));
            i += 2;
        }
    }
    assert(string_views(missing@) + Seq::<Seq<char>>::empty() =~= string_views(missing@));
    ConfigDelta { missing_or_wrong: missing, missing_env: Vec::new() }
}

/// How the server was installed.
#[derive(Debug, Clone)]
pub enum InstallKind {
    Brew { formula: String, installed_version: String },
    Git { repo_root: PathBuf, remote: String, branch: String, head_sha: String, head_date: String },
}

/// What is known about the local install and the running server.
#[derive(Debug, Clone)]
pub struct MtplxState {
    pub kind: InstallKind,
    /// The interpreter a restart would use.
    pub python_path: PathBuf,
    pub server_pid: Option<u32>,
    pub running_command: Option<String>,
    /// For a Homebrew install: the venv version the running process has
    /// its files mapped from.
    pub running_venv_version: Option<String>,
}

impl MtplxState {
    /// A server is running.
    pub fn is_running(&self) -> (r: bool)
        ensures
            r == self.server_pid is Some,
    {
        self.server_pid.is_some()
    }

    /// The running command line compared with the optimal flags; `None`
    /// when there is no command line to compare.
    pub fn config_status(&self) -> (r: Option<ConfigDelta>)
        ensures
            r is Some == self.running_command is Some,
            r is Some ==> string_views(r->0.missing_or_wrong@) == deltas_from(
                optimal_flags_spec(),
                words(self.running_command->0@),
                0,
            ) && r->0.missing_env@.len() == 0,
    {
        match &self.running_command {
            Some(c) => Some(config_deltas(c.as_str())),
            None => None,
        }
    }
}

/// The running server runs other code than what is installed: for
/// Homebrew, its venv version differs from the installed one; for a git
/// checkout, exactly when the caller has just pulled.
pub open spec fn stale_spec(state: MtplxState, just_pulled: bool) -> bool {
    if state.server_pid is None {
        false
    } else {
        match state.kind {
            InstallKind::Brew { installed_version, .. } => match state.running_venv_version {
                Some(v) => v@ != installed_version@,
                None => false,
            },
            InstallKind::Git { .. } => just_pulled,
        }
    }
}

/// Whether the running server runs out-of-date code.
pub fn is_running_stale(state: &MtplxState, just_pulled: bool) -> (r: bool)
    ensures
        r == stale_spec(*state, just_pulled),
{
    if !state.is_running() {
        return false;
    }
    match &state.kind {
        InstallKind::Brew { installed_version, .. } => match &state.running_venv_version {
            Some(v) => *v != *installed_version,
            None => false,
        },
        InstallKind::Git { .. } => just_pulled,
    }
}

/// The token after the first occurrence of `flag`, or "(not set)".
pub open spec fn flag_value(toks: Seq<Seq<char>>, flag: Seq<char>) -> Seq<char> {
    match first_index(toks, flag) {
        Some(j) => if j + 1 < toks.len() {
            toks[j + 1 as int]
        } else {
            "(not set)"@
        },
        None => "(not set)"@,
    }
}

/// The last component of a path (`Path::file_name`).
pub uninterp spec fn path_file_name(p: Seq<char>) -> Option<Seq<char>>;

/// The last component of `p` (`std::path::Path::file_name`), as text.
#[verifier::external_body]
fn file_name_of(p: &str) -> (r: Option<String>)
    ensures
        match r {
            Some(n) => path_file_name(p@) == Some(n@),
            None => path_file_name(p@) is None,
        },
{
    match std::path::Path::new(p).file_name() {
        Some(n) => Some(n.to_string_lossy().into_owned()),
        None => None,
    }
}

/// The headline rows of a running command line, in display order.
pub open spec fn summary_spec(t: Seq<Seq<char>>) -> Seq<(Seq<char>, Seq<char>)> {
    let model = flag_value(t, "--model"@);
    seq![
        ("model id"@, flag_value(t, "--model-id"@)),
        ("model"@, match path_file_name(model) {
            Some(n) => n,
            None => model,
        }),
        ("server"@, flag_value(t, "--host"@) + ":"@ + flag_value(t, "--port"@)),
        ("decode"@, flag_value(t, "--generation-mode"@) + " depth="@ + flag_value(t, "--depth"@)
            + " profile="@ + flag_value(t, "--profile"@)),
        ("verify core"@, flag_value(t, "--verify-core"@)),
        ("context"@, flag_value(t, "--context-window"@) + " tokens"@),
        ("sampling"@, "temp="@ + flag_value(t, "--temperature"@) + " top-p="@ + flag_value(
            t,
            "--top-p"@,
        )),
        ("reasoning"@, flag_value(t, "--reasoning-parser"@)),
    ]
}

fn get_flag(toks: &Vec<Vec<char>>, flag: &str) -> (r: Vec<char>)
    ensures
        r@ == flag_value(views(toks@), flag@),
{
    match find_token(toks, flag) {
        Some(j) => {
            if j + 1 < toks.len() {
                toks[j + 1].clone()
            } else {
                chars_of("(not set)")
            }
        },
        None => chars_of("(not set)"),
    }
}

/// Rows as the contracts see them.
pub open spec fn row_views(v: Seq<(&'static str, String)>) -> Seq<(Seq<char>, Seq<char>)> {
    v.map_values(|r: (&'static str, String)| (r.0@, r.1@))
}

/// The headline values of a running command line as (label, value) rows;
/// a flag that is absent shows as "(not set)".
pub fn summarize_running_config(running_cmd: &str) -> (r: Vec<(&'static str, String)>)
    ensures
        row_views(r@) == summary_spec(words(running_cmd@)),
{
    let toks = words_of_str(running_cmd);
    let model_path = get_flag(&toks, "--model");
    let model_text = string_of(&model_path);
    let model_short = match file_name_of(model_text.as_str()) {
        Some(n) => n,
        None => model_text,
    };
    let mut server = get_flag(&toks, "--host");
    extend_str(&mut server, ":");
    let port = get_flag(&toks, "--port");
    extend_chars(&mut server, &port);
    let mut decode = get_flag(&toks, "--generation-mode");
    extend_str(&mut decode, " depth=");
    let depth = get_flag(&toks, "--depth");
    extend_chars(&mut decode, &depth);
    extend_str(&mut decode, " profile=");
    let profile = get_flag(&toks, "--profile");
    extend_chars(&mut decode, &profile);
    let mut context = get_flag(&toks, "--context-window");
    extend_str(&mut context, " tokens");
    let mut sampling = chars_of("temp=");
    let temp = get_flag(&toks, "--temperature");
    extend_chars(&mut sampling, &temp);
    extend_str(&mut sampling, " top-p=");
    let top_p = get_flag(&toks, "--top-p");
    extend_chars(&mut sampling, &top_p);
    let r = vec![
        ("model id", string_of(&get_flag(&toks, "--model-id"))),
        ("model", model_short),
        ("server", string_of(&server)),
        ("decode", string_of(&decode)),
        ("verify core", string_of(&get_flag(&toks, "--verify-core"))),
        ("context", string_of(&context)),
        ("sampling", string_of(&sampling)),
        ("reasoning", string_of(&get_flag(&toks, "--reasoning-parser"))),
    ];
    assert(row_views(r@) =~= summary_spec(words(running_cmd@)));
    r
}

/// Expands a leading `~` to the home directory (`shellexpand::tilde`).
/// Text that does not start with `~` or `~/` comes back unchanged; which
/// home directory is used depends on the environment, so of an expanded
/// text only its ending (the part after the `~`) is stated.
#[verifier::external_body]
fn expand_tilde(s: &str) -> (r: String)
    ensures
        !(s@.len() > 0 && s@[0] == '~' && (s@.len() == 1 || s@[1] == '/' || s@[1] == '\\')) ==> r@
            == s@,
        s@.len() > 0 && s@[0] == '~' ==> r@.len() + 1 >= s@.len() && r@.subrange(
            r@.len() - (s@.len() - 1),
            r@.len() as int,
        ) == s@.drop_first(),
{
    shellexpand::tilde(s).into_owned()
}

/// Path of the server's log file, for "tail -f" hints.
pub fn log_file() -> (r: String)
    ensures
        r@.len() >= 20 && r@.subrange(r@.len() - 20, r@.len() as int) == "/.mlx-code/mtplx.log"@,
{
    proof {
        reveal_strlit("~/.mlx-code/mtplx.log");
        reveal_strlit("/.mlx-code/mtplx.log");
        assert(LOG_FILE@.drop_first() =~= "/.mlx-code/mtplx.log"@);
    }
    expand_tilde(LOG_FILE)
}

/// `s` without every trailing copy of `p` (`str::trim_end_matches`).
pub open spec fn strip_suffix_all(s: Seq<char>, p: Seq<char>) -> Seq<char>
    decreases s.len(),
{
    if p.len() > 0 && s.len() >= p.len() && s.subrange(s.len() - p.len(), s.len() as int) == p {
        strip_suffix_all(s.take(s.len() - p.len()), p)
    } else {
        s
    }
}

/// A repository URL compared without trailing slashes and `.git`.
pub open spec fn repo_key(url: Seq<char>) -> Seq<char> {
    strip_suffix_all(strip_suffix_all(url, "/"@), ".git"@)
}

fn strip_suffix_all_exec(s: &[char], p: &str) -> (r: Vec<char>)
    ensures
        r@ == strip_suffix_all(s@, p@),
{
    let pc = chars_of(p);
    let mut end = s.len();
    assert(s@.take(end as int) =~= s@);
    if pc.len() == 0 {
        return crate::text::slice_to_vec(s, 0, end);
    }
    while end >= pc.len() && crate::text::match_at(s, &pc, end - pc.len())
        invariant
            end <= s@.len(),
            pc@ == p@,
            pc@.len() > 0,
            strip_suffix_all(s@.take(end as int), p@) == strip_suffix_all(s@, p@),
        decreases end,
    {
        let ghost t = s@.take(end as int);
        assert(t.subrange(t.len() - pc@.len(), t.len() as int) =~= s@.subrange(end - pc@.len(), end as int));
        assert(t.take(t.len() - pc@.len()) =~= s@.take(end - pc@.len()));
        end = end - pc.len();
    }
    let ghost t = s@.take(end as int);
    assert(end >= pc@.len() ==> t.subrange(t.len() - pc@.len(), t.len() as int) =~= s@.subrange(end - pc@.len(), end as int));
    let r = crate::text::slice_to_vec(s, 0, end);
    assert(r@ =~= t);
    r
}

/// The checkout is on no branch (detached HEAD), so its source is left alone.
pub fn is_detached(branch: &str) -> (r: bool)
    ensures
        r == (branch@.len() == 0 || branch@ == "HEAD"@),
{
    let b = chars_of(branch);
    b.len() == 0 || chars_eq_str(&b, "HEAD")
}

/// A checkout on `remote`/`branch` must switch to the chosen source: its
/// repository (ignoring trailing `/` and `.git`) or its branch differs.
pub fn source_switch_needed(remote: &str, branch: &str, chosen_repo: &str, chosen_branch: &str) -> (r: bool)
    ensures
        r == (repo_key(remote@) != repo_key(chosen_repo@) || branch@ != chosen_branch@),
{
    let a = strip_suffix_all_exec(&strip_suffix_all_exec(&chars_of(remote), "/"), ".git");
    let b = strip_suffix_all_exec(&strip_suffix_all_exec(&chars_of(chosen_repo), "/"), ".git");
    !crate::text::chars_eq(&a, &b) || !crate::text::chars_eq(&chars_of(branch), &chars_of(chosen_branch))
}

/// What an update run concludes about the running server.
#[derive(Debug)]
pub enum ServerVerdict {
    /// It runs code older than what is installed: restart it.
    RestartStale,
    /// It runs with other flags than the optimal ones.
    Suboptimal(ConfigDelta),
    /// It runs current code with the optimal flags.
    Current,
    /// No server runs.
    NotRunning,
}

/// The verdict on the server of `state`, `just_upgraded` telling whether
/// this run changed the installed code: stale code first, then the flags,
/// then whether anything runs at all.
pub fn server_verdict(state: &MtplxState, just_upgraded: bool) -> (r: ServerVerdict)
    ensures
        stale_spec(*state, just_upgraded) ==> r is RestartStale,
        !stale_spec(*state, just_upgraded) ==> match state.running_command {
            None => r is NotRunning,
            Some(c) => {
                let d = deltas_from(optimal_flags_spec(), words(c@), 0);
                if d.len() == 0 {
                    r is Current
                } else {
                    r matches ServerVerdict::Suboptimal(x) && string_views(x.missing_or_wrong@) == d
                        && x.missing_env@.len() == 0
                }
            },
        },
{
    if is_running_stale(state, just_upgraded) {
        return ServerVerdict::RestartStale;
    }
    match state.config_status() {
        Some(delta) => {
            if delta.is_optimal() {
                ServerVerdict::Current
            } else {
                ServerVerdict::Suboptimal(delta)
            }
        },
        None => ServerVerdict::NotRunning,
    }
}

/// The marker before the version in a path of a Homebrew server venv.
pub open spec fn venv_marker() -> Seq<char> {
    "/var/mtplx/venv-"@
}

/// The leading run of ASCII digits and dots of `s`.
pub open spec fn version_run(s: Seq<char>, k: nat) -> Seq<char>
    decreases s.len() - k,
{
    if k >= s.len() || !(('0' <= s[k as int] && s[k as int] <= '9') || s[k as int] == '.') {
        s.take(k as int)
    } else {
        version_run(s, k + 1)
    }
}

/// The version a line of `lsof` output shows after its first venv marker;
/// empty when there is none.
pub open spec fn venv_version_in(line: Seq<char>) -> Seq<char> {
    match crate::pretty::first_at(line, venv_marker(), 0) {
        Some(k) => version_run(line.skip((k + venv_marker().len()) as int), 0),
        None => Seq::empty(),
    }
}

/// The first non-empty venv version among the lines `i..`.
pub open spec fn venv_version_from(lines: Seq<Seq<char>>, i: nat) -> Option<Seq<char>>
    decreases lines.len() - i,
{
    if i >= lines.len() {
        None
    } else if venv_version_in(lines[i as int]).len() > 0 {
        Some(venv_version_in(lines[i as int]))
    } else {
        venv_version_from(lines, i + 1)
    }
}

fn venv_version_line(line: &[char]) -> (r: Vec<char>)
    ensures
        r@ == venv_version_in(line@),
{
    let marker = chars_of("/var/mtplx/venv-");
    let found = crate::text::find_from(line, &marker, 0);
    proof {
        crate::pretty::lemma_first_at_of_find(line@, marker@, 0, found);
    }
    match found {
        Some(k) => {
            let n = line.len();
            assert(k + marker@.len() <= n);
            let start = k + marker.len();
            let tail = crate::text::slice_to_vec(line, start, line.len());
            assert(tail@ =~= line@.skip((k + venv_marker().len()) as int));
            let mut j: usize = 0;
            while j < tail.len() && (('0' <= tail[j] && tail[j] <= '9') || tail[j] == '.')
                invariant
                    j <= tail@.len(),
                    version_run(tail@, j as nat) == version_run(tail@, 0),
                decreases tail@.len() - j,
            {
                j += 1;
            }
            let r = crate::text::slice_to_vec(&tail, 0, j);
            assert(r@ =~= tail@.take(j as int));
            r
        },
        None => Vec::new(),
    }
}

/// The venv version a running server has its files mapped from, read from
/// the `lsof -p` listing of its process: the digits and dots after the
/// first venv marker of the first line that has a non-empty one.
pub fn venv_version_from_lsof(listing: &str) -> (r: Option<String>)
    ensures
        match r {
            Some(v) => venv_version_from(lines_of(listing@), 0) == Some(v@),
            None => venv_version_from(lines_of(listing@), 0) is None,
        },
{
    let lines = crate::text::lines_of_str(listing);
    let ghost lv = views(lines@);
    let mut i: usize = 0;
    while i < lines.len()
        invariant
            i <= lines@.len(),
            lv == views(lines@),
            lv == lines_of(listing@),
            venv_version_from(lv, i as nat) == venv_version_from(lv, 0),
        decreases lines@.len() - i,
    {
        assert(lv[i as int] == lines@[i as int]@);
        let v = venv_version_line(&lines[i]);
        if v.len() > 0 {
            return Some(string_of(&v));
        }
        i += 1;
    }
    None
}

/// What `s.parse::<u32>()` accepts.
pub open spec fn parse_u32_spec(s: Seq<char>) -> Option<u32> {
    match crate::search::parse_u64_spec(s) {
        Some(v) => if v <= u32::MAX {
            Some(v as u32)
        } else {
            None
        },
        None => None,
    }
}

/// The process id in `lsof -t` output: its first line, trimmed, when it
/// is a number.
pub fn pid_from_lsof(out: &str) -> (r: Option<u32>)
    ensures
        r == (if lines_of(out@).len() > 0 {
            parse_u32_spec(crate::text::trim(lines_of(out@)[0]))
        } else {
            None
        }),
{
    let lines = crate::text::lines_of_str(out);
    assert(views(lines@) == lines_of(out@));
    if lines.len() == 0 {
        return None;
    }
    assert(views(lines@)[0] == lines@[0]@);
    let t = crate::text::trim_chars(&lines[0]);
    match crate::search::parse_u64(&t) {
        Some(v) => if v <= u32::MAX as u64 {
            Some(v as u32)
        } else {
            None
        },
        None => None,
    }
}

/// `Version: `, the field prefix of `pip show`.
pub open spec fn version_field() -> Seq<char> {
    seq!['V', 'e', 'r', 's', 'i', 'o', 'n', ':', ' ']
}

/// The version in `pip show` lines from `i` on: what follows `Version: `
/// on the first line that starts with it.
pub open spec fn pip_version_from(lines: Seq<Seq<char>>, i: nat) -> Option<Seq<char>>
    decreases lines.len() - i,
{
    if i >= lines.len() {
        None
    } else if lines[i as int].len() >= 9 && lines[i as int].take(9) == version_field() {
        Some(lines[i as int].skip(9))
    } else {
        pip_version_from(lines, i + 1)
    }
}

/// The installed version `pip show` reports.
pub fn pip_show_version(out: &str) -> (r: Option<String>)
    ensures
        match r {
            Some(v) => pip_version_from(lines_of(out@), 0) == Some(v@),
            None => pip_version_from(lines_of(out@), 0) is None,
        },
{
    let lines = crate::text::lines_of_str(out);
    let ghost lv = views(lines@);
    let field: Vec<char> = vec!['V', 'e', 'r', 's', 'i', 'o', 'n', ':', ' '];
    assert(field@ =~= version_field());
    let mut i: usize = 0;
    while i < lines.len()
        invariant
            i <= lines@.len(),
            lv == views(lines@),
            lv == lines_of(out@),
            field@ == version_field(),
            pip_version_from(lv, i as nat) == pip_version_from(lv, 0),
        decreases lines@.len() - i,
    {
        assert(lv[i as int] == lines@[i as int]@);
        if crate::text::match_at(&lines[i], &field, 0) {
            assert(lines@[i as int]@.subrange(0, 9) =~= lines@[i as int]@.take(9));
            let rest = crate::text::slice_to_vec(&lines[i], 9, lines[i].len());
            assert(rest@ =~= lines@[i as int]@.skip(9));
            return Some(string_of(&rest));
        }
        proof {
            if lines@[i as int]@.len() >= 9 {
                assert(lines@[i as int]@.subrange(0, 9) =~= lines@[i as int]@.take(9));
            }
        }
        i += 1;
    }
    None
}

// ---------------------------------------------------------------------------
// Homebrew formula metadata
// ---------------------------------------------------------------------------

/// What the first formula entry of a `brew info|outdated --json=v2`
/// document carries: its tap, its name, the version of its first installed
/// keg and the version available upstream; a field is `None` where the
/// entry holds no string there.
pub struct BrewFormula {
    pub tap: Option<String>,
    pub name: Option<String>,
    pub installed_version: Option<String>,
    pub current_version: Option<String>,
}

/// The text of an optional string.
pub open spec fn opt_view(o: Option<String>) -> Option<Seq<char>> {
    match o {
        Some(s) => Some(s@),
        None => None,
    }
}

impl View for BrewFormula {
    type V = (Option<Seq<char>>, Option<Seq<char>>, Option<Seq<char>>, Option<Seq<char>>);

    open spec fn view(&self) -> Self::V {
        (opt_view(self.tap), opt_view(self.name), opt_view(self.installed_version), opt_view(self.current_version))
    }
}

/// The first entry under `formulae` of a brew `--json=v2` document, as
/// `(tap, name, installed[0].version, current_version)`, each field present
/// only where it is a JSON string; `None` when the text is not JSON or has
/// no array `formulae` with a first entry.
pub uninterp spec fn brew_json_first(body: Seq<char>) -> Option<
    (Option<Seq<char>>, Option<Seq<char>>, Option<Seq<char>>, Option<Seq<char>>),
>;

/// Parses `body` with `serde_json::from_str` into a JSON value and moves
/// the four fields of the first `formulae` entry out as strings. What
/// comes back is named `brew_json_first` of the text; the JSON grammar
/// itself is not restated.
#[verifier::external_body]
fn parse_brew_json(body: &str) -> (r: Option<BrewFormula>)
    ensures
        match r {
            Some(f) => brew_json_first(body@) == Some(f@),
            None => brew_json_first(body@) is None,
        },
{
    let v: serde_json::Value = serde_json::from_str(body).ok()?;
    let f = v.get("formulae")?.as_array()?.first()?;
    Some(BrewFormula {
        tap: f["tap"].as_str().map(String::from),
        name: f["name"].as_str().map(String::from),
        installed_version: f["installed"][0]["version"].as_str().map(String::from),
        current_version: f["current_version"].as_str().map(String::from),
    })
}

/// The formula brew installs MTPLX from when nothing better is known.
pub open spec fn default_formula() -> Seq<char> {
    "youssofal/mtplx/mtplx"@
}

/// `(formula-with-tap, installed version)` from the first formula entry:
/// `tap/name` when both are present, else the default formula; the first
/// installed keg's version, else `unknown`.
pub open spec fn formula_and_version(
    j: Option<(Option<Seq<char>>, Option<Seq<char>>, Option<Seq<char>>, Option<Seq<char>>)>,
) -> (Seq<char>, Seq<char>) {
    let formula = match j {
        Some((Some(t), Some(n), _, _)) => t + seq!['/'] + n,
        _ => default_formula(),
    };
    let version = match j {
        Some((_, _, Some(v), _)) => v,
        _ => "unknown"@,
    };
    (formula, version)
}

/// The view of an optional formula entry.
pub open spec fn brew_view(f: Option<BrewFormula>) -> Option<
    (Option<Seq<char>>, Option<Seq<char>>, Option<Seq<char>>, Option<Seq<char>>),
> {
    match f {
        Some(x) => Some(x@),
        None => None,
    }
}

/// `(formula-with-tap, installed-version)` from a parsed formula entry,
/// with the defaults `youssofal/mtplx/mtplx` and `unknown` where the entry
/// is missing or does not say.
pub fn brew_formula_and_version(f: Option<BrewFormula>) -> (r: (String, String))
    ensures
        (r.0@, r.1@) == formula_and_version(brew_view(f)),
{
    proof {
        reveal_strlit("youssofal/mtplx/mtplx");
        reveal_strlit("unknown");
    }
    let mut formula = "youssofal/mtplx/mtplx".to_owned();
    let mut version = "unknown".to_owned();
    if let Some(f) = f {
        if let Some(t) = &f.tap {
            if let Some(n) = &f.name {
                let mut c = chars_of(t.as_str());
                c.push('/');
                extend_str(&mut c, n.as_str());
                formula = string_of(&c);
                assert(formula@ =~= t@ + seq!['/'] + n@);
            }
        }
        if let Some(v) = f.installed_version {
            version = v;
        }
    }
    (formula, version)
}

/// The upgrade target of a parsed `brew outdated` entry: its
/// `current_version`, or `None` when there is no entry.
pub fn brew_latest_version(f: Option<BrewFormula>) -> (r: Option<String>)
    ensures
        opt_view(r) == match brew_view(f) {
            Some((_, _, _, c)) => c,
            None => None,
        },
{
    match f {
        Some(f) => f.current_version,
        None => None,
    }
}

/// `(formula-with-tap, installed-version)` of the brew-installed MTPLX,
/// read from the output of `brew info --json=v2 mtplx`, or the defaults
/// `youssofal/mtplx/mtplx` and `unknown` where that output does not say.
pub fn detect_brew_mtplx_version(body: &str) -> (r: (String, String))
    ensures
        (r.0@, r.1@) == formula_and_version(brew_json_first(body@)),
{
    let parsed = parse_brew_json(body);
    assert(brew_view(parsed) == brew_json_first(body@));
    brew_formula_and_version(parsed)
}

/// The version brew can upgrade MTPLX to, read from the output of
/// `brew outdated --json=v2 mtplx`: the first entry's `current_version`,
/// or `None` when brew lists nothing outdated.
pub fn brew_mtplx_latest_available(body: &str) -> (r: Option<String>)
    ensures
        opt_view(r) == match brew_json_first(body@) {
            Some((_, _, _, c)) => c,
            None => None,
        },
{
    let parsed = parse_brew_json(body);
    assert(brew_view(parsed) == brew_json_first(body@));
    brew_latest_version(parsed)
}

/// How far a checkout is behind its upstream, from the output of
/// `git rev-list --count HEAD..origin/<branch>`: the trimmed count when it
/// parses as a positive `u32`.
pub open spec fn behind_note_spec(out: Seq<char>, branch: Seq<char>) -> Option<Seq<char>> {
    match parse_u32_spec(crate::text::trim(out)) {
        Some(n) => if n > 0 {
            Some(crate::text::decimal(n as nat) + " commit(s) behind origin/"@ + branch)
        } else {
            None
        },
        None => None,
    }
}

/// The "N commit(s) behind origin/<branch>" note for a git install, or
/// `None` when the count is zero or does not parse.
pub fn commits_behind_note(rev_list_out: &str, branch: &str) -> (r: Option<String>)
    ensures
        opt_view(r) == behind_note_spec(rev_list_out@, branch@),
{
    let c = chars_of(rev_list_out);
    let t = crate::text::trim_chars(&c);
    let n: u32 = match crate::search::parse_u64(&t) {
        Some(v) => if v <= u32::MAX as u64 && v > 0 {
            v as u32
        } else {
            return None;
        },
        None => return None,
    };
    let mut out = crate::text::decimal_chars(n as u64);
    let ghost d = out@;
    extend_str(&mut out, " commit(s) behind origin/");
    extend_str(&mut out, branch);
    assert(out@ =~= d + " commit(s) behind origin/"@ + branch@);
    Some(string_of(&out))
}

/// `venv-`, the prefix of the version directories brew keeps its
/// interpreters in.
pub open spec fn venv_prefix() -> Seq<char> {
    seq!['v', 'e', 'n', 'v', '-']
}

/// A directory name of a brew venv.
pub open spec fn is_venv_dir(n: Seq<char>) -> bool {
    crate::text::matches_at(n, venv_prefix(), 0)
}

/// The newest brew venv among the directory names `names`: the
/// lexicographically greatest of those starting with `venv-`, or `None`
/// when none does.
pub fn newest_venv(names: &[String]) -> (r: Option<String>)
    ensures
        match r {
            Some(n) => is_venv_dir(n@) && (exists|i: int| 0 <= i < names@.len() && names@[i]@ == n@)
                && forall|j: int|
                0 <= j < names@.len() && is_venv_dir(#[trigger] names@[j]@) ==> crate::updater::char_order(
                    names@[j]@,
                    n@,
                ) <= 0,
            None => forall|j: int| 0 <= j < names@.len() ==> !is_venv_dir(#[trigger] names@[j]@),
        },
{
    let prefix: Vec<char> = vec!['v', 'e', 'n', 'v', '-'];
    assert(prefix@ =~= venv_prefix());
    let mut best: Option<Vec<char>> = None;
    let mut bi: usize = 0;
    let mut i: usize = 0;
    while i < names.len()
        invariant
            prefix@ == venv_prefix(),
            i <= names@.len(),
            match best {
                Some(b) => bi < i && names@[bi as int]@ == b@ && is_venv_dir(b@) && forall|j: int|
                    0 <= j < i && is_venv_dir(#[trigger] names@[j]@) ==> crate::updater::char_order(
                        names@[j]@,
                        b@,
                    ) <= 0,
                None => forall|j: int| 0 <= j < i ==> !is_venv_dir(#[trigger] names@[j]@),
            },
        decreases names@.len() - i,
    {
        let c = chars_of(names[i].as_str());
        if crate::text::match_at(&c, &prefix, 0) {
            let take = match &best {
                None => true,
                Some(b) => crate::updater::char_compare(b, &c) < 0,
            };
            if take {
                proof {
                    if let Some(b) = &best {
                        assert forall|j: int|
                            0 <= j < i + 1 && is_venv_dir(#[trigger] names@[j]@) implies crate::updater::char_order(
                            names@[j]@,
                            c@,
                        ) <= 0 by {
                            if j < i {
                                crate::updater::lemma_char_order_trans(names@[j]@, b@, c@);
                            } else {
                                crate::updater::lemma_char_order_flip(c@, c@);
                            }
                        }
                    } else {
                        crate::updater::lemma_char_order_flip(c@, c@);
                    }
                }
                best = Some(c);
                bi = i;
            } else {
                proof {
                    if let Some(b) = &best {
                        crate::updater::lemma_char_order_flip(b@, c@);
                    }
                }
            }
        }
        i += 1;
    }
    match best {
        Some(b) => Some(string_of(&b)),
        None => None,
    }
}

} // verus!
