//! Color themes for the terminal surfaces.
//!
//! Three themes: `Iris` (the default, a 256-color violet palette), `Light`
//! (muted accents for light backgrounds) and `Mono` (bold/dim only). The
//! theme in force is the runtime override if one was set, else the one
//! named by the environment, else `Iris`. Each accessor returns the ANSI
//! prefix for its role; `paint` wraps text with a prefix and the reset code.

use vstd::prelude::*;
use crate::text::{chars_of, chars_eq_str, trim, trim_chars, extend_str, string_of};
use crate::edit::{ascii_lower_seq, ascii_lower_chars};

verus! {

/// A color theme.
#[derive(Clone, Copy, Debug, PartialEq, Eq, Structural)]
pub enum Theme {
    Iris,
    Light,
    Mono,
}

/// Ends any open color sequence.
pub const RESET: &'static str = "\x1b[0m";

/// The theme a name selects: case-insensitive after trimming, with the
/// aliases dark/violet/purple for `Iris` and none/off for `Mono`.
pub open spec fn parse_spec(s: Seq<char>) -> Option<Theme> {
    let k = ascii_lower_seq(trim(s));
    if k == "iris"@ || k == "dark"@ || k == "violet"@ || k == "purple"@ {
        Some(Theme::Iris)
    } else if k == "light"@ {
        Some(Theme::Light)
    } else if k == "mono"@ || k == "none"@ || k == "off"@ {
        Some(Theme::Mono)
    } else {
        None
    }
}

/// The canonical name of a theme.
pub open spec fn name_spec(t: Theme) -> Seq<char> {
    match t {
        Theme::Iris => "iris"@,
        Theme::Light => "light"@,
        Theme::Mono => "mono"@,
    }
}

impl Theme {
    /// Parses a theme name; `None` for an unknown name.
    pub fn parse(s: &str) -> (r: Option<Theme>)
        ensures
            r == parse_spec(s@),
    {
        let raw = chars_of(s);
        let t = trim_chars(&raw);
        let k = ascii_lower_chars(&t);
        if chars_eq_str(&k, "iris") || chars_eq_str(&k, "dark") || chars_eq_str(&k, "violet")
            || chars_eq_str(&k, "purple") {
            Some(Theme::Iris)
        } else if chars_eq_str(&k, "light") {
            Some(Theme::Light)
        } else if chars_eq_str(&k, "mono") || chars_eq_str(&k, "none") || chars_eq_str(&k, "off") {
            Some(Theme::Mono)
        } else {
            None
        }
    }

    /// The canonical name of this theme.
    pub fn name(&self) -> (r: &'static str)
        ensures
            r@ == name_spec(*self),
    {
        match self {
            Theme::Iris => "iris",
            Theme::Light => "light",
            Theme::Mono => "mono",
        }
    }
}

/// A lower-case word parses as itself: trimming and lower-casing leave it
/// unchanged.
proof fn lemma_word_key(w: Seq<char>)
    requires
        w.len() > 0,
        forall|i: int| 0 <= i < w.len() ==> 'a' <= #[trigger] w[i] <= 'z',
    ensures
        ascii_lower_seq(trim(w)) == w,
{
    assert(crate::text::trim_end(w) == w);
    assert(crate::text::trim_start(w) == w);
    assert(ascii_lower_seq(w) =~= w);
}

/// The name a theme is shown by parses back to that theme.
pub proof fn lemma_name_parses_back(t: Theme)
    ensures
        parse_spec(name_spec(t)) == Some(t),
{
    reveal_strlit("iris");
    reveal_strlit("dark");
    reveal_strlit("violet");
    reveal_strlit("purple");
    reveal_strlit("light");
    reveal_strlit("mono");
    reveal_strlit("none");
    reveal_strlit("off");
    lemma_word_key(name_spec(t));
    match t {
        Theme::Iris => {},
        Theme::Light => {
            assert("light"@ != "iris"@ && "light"@ != "dark"@ && "light"@ != "violet"@ && "light"@ != "purple"@);
        },
        Theme::Mono => {
            assert("mono"@[0] != "iris"@[0] && "mono"@[0] != "dark"@[0]);
            assert("mono"@ != "iris"@ && "mono"@ != "dark"@ && "mono"@ != "violet"@ && "mono"@ != "purple"@
                && "mono"@ != "light"@);
        },
    }
}

/// The theme in force: the runtime override if set, else the theme named
/// by the environment (`env_value`, when present and valid), else `Iris`.
pub open spec fn current_spec(runtime_override: Option<Theme>, env_value: Option<Seq<char>>) -> Theme {
    match runtime_override {
        Some(t) => t,
        None => match env_value {
            Some(v) => match parse_spec(v) {
                Some(t) => t,
                None => Theme::Iris,
            },
            None => Theme::Iris,
        },
    }
}

/// Resolves the theme in force from the runtime override and the value of
/// the theme environment variable.
pub fn current(runtime_override: Option<Theme>, env_value: Option<&str>) -> (r: Theme)
    ensures
        r == current_spec(
            runtime_override,
            match env_value {
                Some(v) => Some(v@),
                None => None,
            },
        ),
{
    if let Some(t) = runtime_override {
        return t;
    }
    match env_value {
        Some(v) => match Theme::parse(v) {
            Some(t) => t,
            None => Theme::Iris,
        },
        None => Theme::Iris,
    }
}

/// Sets the runtime override.
pub fn set_runtime(runtime_override: &mut Option<Theme>, t: Theme)
    ensures
        *final(runtime_override) == Some(t),
{
    *runtime_override = Some(t);
}

/// Prefix for de-emphasized text (the same in every theme).
pub fn dim(t: Theme) -> (r: &'static str)
    ensures
        r@ == "\x1b[2m"@,
{
    match t {
        Theme::Iris | Theme::Light | Theme::Mono => "\x1b[2m",
    }
}

/// Prefix for the main accent color.
pub open spec fn accent_spec(t: Theme) -> Seq<char> {
    match t {
        Theme::Iris => "\x1b[38;5;141m"@,
        Theme::Light => "\x1b[0;35m"@,
        Theme::Mono => "\x1b[1m"@,
    }
}

/// Prefix for the main accent color.
pub fn accent(t: Theme) -> (r: &'static str)
    ensures
        r@ == accent_spec(t),
{
    match t {
        Theme::Iris => "\x1b[38;5;141m",
        Theme::Light => "\x1b[0;35m",
        Theme::Mono => "\x1b[1m",
    }
}

/// Prefix for success.
pub open spec fn good_spec(t: Theme) -> Seq<char> {
    match t {
        Theme::Iris => "\x1b[38;5;156m"@,
        Theme::Light => "\x1b[0;32m"@,
        Theme::Mono => ""@,
    }
}

/// Prefix for success.
pub fn good(t: Theme) -> (r: &'static str)
    ensures
        r@ == good_spec(t),
{
    match t {
        Theme::Iris => "\x1b[38;5;156m",
        Theme::Light => "\x1b[0;32m",
        Theme::Mono => "",
    }
}

/// Prefix for warnings.
pub open spec fn warn_spec(t: Theme) -> Seq<char> {
    match t {
        Theme::Iris => "\x1b[38;5;220m"@,
        Theme::Light => "\x1b[0;33m"@,
        Theme::Mono => ""@,
    }
}

/// Prefix for warnings.
pub fn warn(t: Theme) -> (r: &'static str)
    ensures
        r@ == warn_spec(t),
{
    match t {
        Theme::Iris => "\x1b[38;5;220m",
        Theme::Light => "\x1b[0;33m",
        Theme::Mono => "",
    }
}

/// Prefix for errors.
pub open spec fn bad_spec(t: Theme) -> Seq<char> {
    match t {
        Theme::Iris => "\x1b[38;5;203m"@,
        Theme::Light => "\x1b[0;31m"@,
        Theme::Mono => "\x1b[1m"@,
    }
}

/// Prefix for errors.
pub fn bad(t: Theme) -> (r: &'static str)
    ensures
        r@ == bad_spec(t),
{
    match t {
        Theme::Iris => "\x1b[38;5;203m",
        Theme::Light => "\x1b[0;31m",
        Theme::Mono => "\x1b[1m",
    }
}

/// Prefix for highlighted text.
pub open spec fn highlight_spec(t: Theme) -> Seq<char> {
    match t {
        Theme::Iris => "\x1b[38;5;183m"@,
        Theme::Light => "\x1b[0;35m"@,
        Theme::Mono => ""@,
    }
}

/// Prefix for highlighted text.
pub fn highlight(t: Theme) -> (r: &'static str)
    ensures
        r@ == highlight_spec(t),
{
    match t {
        Theme::Iris => "\x1b[38;5;183m",
        Theme::Light => "\x1b[0;35m",
        Theme::Mono => "",
    }
}

/// Prefix for the model's thinking text.
pub open spec fn thinking_spec(t: Theme) -> Seq<char> {
    match t {
        Theme::Iris => "\x1b[2;38;5;98m"@,
        Theme::Light => "\x1b[2;90m"@,
        Theme::Mono => "\x1b[2m"@,
    }
}

/// Prefix for the model's thinking text.
pub fn thinking(t: Theme) -> (r: &'static str)
    ensures
        r@ == thinking_spec(t),
{
    match t {
        Theme::Iris => "\x1b[2;38;5;98m",
        Theme::Light => "\x1b[2;90m",
        Theme::Mono => "\x1b[2m",
    }
}

/// `inner` wrapped with `prefix` and the reset code; `inner` alone when the
/// prefix is empty.
pub open spec fn paint_spec(prefix: Seq<char>, inner: Seq<char>) -> Seq<char> {
    if prefix.len() == 0 {
        inner
    } else {
        prefix + inner + RESET@
    }
}

/// Wraps `inner` with `prefix` and the reset code.
pub fn paint(prefix: &str, inner: &str) -> (r: String)
    ensures
        r@ == paint_spec(prefix@, inner@),
{
    if prefix.is_empty() {
        return inner.to_owned();
    }
    let mut v = chars_of(prefix);
    extend_str(&mut v, inner);
    extend_str(&mut v, RESET);
    string_of(&v)
}

} // verus!
