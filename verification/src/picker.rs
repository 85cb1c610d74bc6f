//! The arrow-key picker: its rows, and what each key does. Reading keys
//! in raw mode and painting the rows is the caller's.

use vstd::prelude::*;
use crate::text::{chars_of, extend_str, push_decimal, string_of, decimal};
use crate::theme::{Theme, accent, accent_spec, dim, good, good_spec, RESET};

verus! {

/// One row in the picker; `subtitle` is shown dim under the label.
pub struct Option_<'a> {
    pub label: &'a str,
    pub subtitle: Option<&'a str>,
}

/// What a key pressed in the picker does.
#[derive(Debug, Clone, Copy, PartialEq, Eq, Structural)]
pub enum PickerAction {
    /// The selection is final: this option is picked.
    Choose(usize),
    /// The cursor moves to this option.
    Move(usize),
    /// Nothing happens.
    Ignore,
}

/// What the bytes `key` read in one go do with the cursor at `current`
/// of `n` options: Enter, Ctrl-C, `q` or Escape (or nothing read) pick
/// the current option; Up or `k` and Down or `j` move within bounds; a
/// digit from 1 jumps to that option when it exists.
pub open spec fn key_action(current: nat, n: nat, key: Seq<u8>) -> PickerAction {
    if key.len() == 0 || key == seq![10u8] || key == seq![13u8] || key == seq![3u8] || key == seq![113u8]
        || key == seq![81u8] || key == seq![27u8] {
        PickerAction::Choose(current as usize)
    } else if (key == seq![27u8, 91u8, 65u8] || key == seq![107u8]) && current > 0 {
        PickerAction::Move((current - 1) as usize)
    } else if (key == seq![27u8, 91u8, 66u8] || key == seq![106u8]) && current + 1 < n {
        PickerAction::Move((current + 1) as usize)
    } else if key.len() == 1 && 49 <= key[0] <= 57 && key[0] - 49 < n {
        PickerAction::Move((key[0] - 49) as usize)
    } else {
        PickerAction::Ignore
    }
}

fn is_key(key: &[u8], a: u8) -> (r: bool)
    ensures
        r == (key@ == seq![a]),
{
    if key.len() == 1 && key[0] == a {
        assert(key@ =~= seq![a]);
        true
    } else {
        false
    }
}

fn is_arrow(key: &[u8], last: u8) -> (r: bool)
    ensures
        r == (key@ == seq![27u8, 91u8, last]),
{
    if key.len() == 3 && key[0] == 27 && key[1] == 91 && key[2] == last {
        assert(key@ =~= seq![27u8, 91u8, last]);
        true
    } else {
        false
    }
}

/// What the key `key` does with the cursor at `current` of `n` options.
pub fn picker_key(current: usize, n: usize, key: &[u8]) -> (r: PickerAction)
    requires
        current < n,
    ensures
        r == key_action(current as nat, n as nat, key@),
{
    if key.len() == 0 || is_key(key, 10) || is_key(key, 13) || is_key(key, 3) || is_key(key, 113) || is_key(key, 81)
        || is_key(key, 27) {
        PickerAction::Choose(current)
    } else if (is_arrow(key, 65) || is_key(key, 107)) && current > 0 {
        PickerAction::Move(current - 1)
    } else if (is_arrow(key, 66) || is_key(key, 106)) && current + 1 < n {
        PickerAction::Move(current + 1)
    } else if key.len() == 1 && 49 <= key[0] && key[0] <= 57 && ((key[0] - 49) as usize) < n {
        PickerAction::Move((key[0] - 49) as usize)
    } else {
        PickerAction::Ignore
    }
}

/// An option as the contracts see it.
pub open spec fn option_view(o: Option_) -> (Seq<char>, Option<Seq<char>>) {
    (o.label@, match o.subtitle {
        Some(s) => Some(s@),
        None => None,
    })
}

/// Options as the contracts see them.
pub open spec fn option_views(v: Seq<Option_>) -> Seq<(Seq<char>, Option<Seq<char>>)> {
    v.map_values(|o: Option_| option_view(o))
}

/// The lines painted for option `i` (numbered from 1 on screen), the
/// cursor being at `current`.
pub open spec fn option_lines(t: Theme, i: nat, o: (Seq<char>, Option<Seq<char>>), current: nat) -> Seq<char> {
    let on = i == current;
    let cursor = if on {
        accent_spec(t) + "▶"@ + RESET@
    } else {
        " "@
    };
    let num = (if on {
        accent_spec(t)
    } else {
        "\x1b[2m"@
    }) + "["@ + decimal(i + 1) + "]"@ + RESET@;
    let label = if on {
        accent_spec(t) + o.0 + RESET@
    } else {
        o.0
    };
    "\r\x1b[2K    "@ + cursor + " "@ + num + " "@ + label + "\n"@ + match o.1 {
        Some(s) => "\r\x1b[2K        "@ + "\x1b[2m"@ + s + RESET@ + "\n"@,
        None => Seq::empty(),
    }
}

/// The lines painted for the options from `i` on.
pub open spec fn picker_text(t: Theme, opts: Seq<(Seq<char>, Option<Seq<char>>)>, i: nat, current: nat) -> Seq<char>
    decreases opts.len() - i,
{
    if i >= opts.len() {
        Seq::empty()
    } else {
        option_lines(t, i, opts[i as int], current) + picker_text(t, opts, i + 1, current)
    }
}

/// The main line of option `i`.
fn option_head(t: Theme, i: usize, label: &str, on: bool) -> (r: Vec<char>)
    requires
        i < u64::MAX,
    ensures
        r@ == "\r\x1b[2K    "@ + (if on {
            accent_spec(t) + "▶"@ + RESET@
        } else {
            " "@
        }) + " "@ + ((if on {
            accent_spec(t)
        } else {
            "\x1b[2m"@
        }) + "["@ + decimal(i as nat + 1) + "]"@ + RESET@) + " "@ + (if on {
            accent_spec(t) + label@ + RESET@
        } else {
            label@
        }) + "\n"@,
{
    let mut v = chars_of("\r\x1b[2K    ");
    let mut cursor: Vec<char> = Vec::new();
    if on {
        extend_str(&mut cursor, accent(t));
        extend_str(&mut cursor, "▶");
        extend_str(&mut cursor, RESET);
    } else {
        extend_str(&mut cursor, " ");
    }
    let mut num: Vec<char> = Vec::new();
    if on {
        extend_str(&mut num, accent(t));
    } else {
        extend_str(&mut num, dim(t));
    }
    extend_str(&mut num, "[");
    push_decimal(&mut num, i as u64 + 1);
    extend_str(&mut num, "]");
    extend_str(&mut num, RESET);
    let mut lab: Vec<char> = Vec::new();
    if on {
        extend_str(&mut lab, accent(t));
        extend_str(&mut lab, label);
        extend_str(&mut lab, RESET);
    } else {
        extend_str(&mut lab, label);
    }
    crate::text::extend_chars(&mut v, &cursor);
    extend_str(&mut v, " ");
    crate::text::extend_chars(&mut v, &num);
    extend_str(&mut v, " ");
    crate::text::extend_chars(&mut v, &lab);
    extend_str(&mut v, "\n");
    v
}

/// The dim subtitle line under an option.
fn option_sub(t: Theme, sub: &str) -> (r: Vec<char>)
    ensures
        r@ == "\r\x1b[2K        "@ + "\x1b[2m"@ + sub@ + RESET@ + "\n"@,
{
    let mut v = chars_of("\r\x1b[2K        ");
    extend_str(&mut v, dim(t));
    extend_str(&mut v, sub);
    extend_str(&mut v, RESET);
    extend_str(&mut v, "\n");
    v
}

/// The lines of one option.
fn option_chars(t: Theme, i: usize, o: &Option_, current: usize) -> (r: Vec<char>)
    requires
        i < u64::MAX,
    ensures
        r@ == option_lines(t, i as nat, option_view(*o), current as nat),
{
    let mut v = option_head(t, i, o.label, i == current);
    match o.subtitle {
        Some(s) => {
            let sub = option_sub(t, s);
            crate::text::extend_chars(&mut v, &sub);
        },
        None => {},
    }
    v
}

/// The rows painted for `options`, the cursor on `current`.
pub fn picker_rows(t: Theme, options: &[Option_], current: usize) -> (r: String)
    requires
        options@.len() < u64::MAX,
    ensures
        r@ == picker_text(t, option_views(options@), 0, current as nat),
{
    let ghost ov = option_views(options@);
    let mut v: Vec<char> = Vec::new();
    let mut i: usize = 0;
    while i < options.len()
        invariant
            i <= options.len() < u64::MAX,
            ov == option_views(options@),
            v@ + picker_text(t, ov, i as nat, current as nat) == picker_text(t, ov, 0, current as nat),
        decreases options.len() - i,
    {
        let ghost before = v@;
        let lines = option_chars(t, i, &options[i], current);
        crate::text::extend_chars(&mut v, &lines);
        proof {
            assert(ov[i as int] == option_view(options@[i as int]));
            let here = option_lines(t, i as nat, ov[i as int], current as nat);
            assert(v@ == before + here);
            assert(picker_text(t, ov, i as nat, current as nat) == here + picker_text(t, ov, (i + 1) as nat, current as nat));
            assert(before + picker_text(t, ov, i as nat, current as nat) =~= v@ + picker_text(t, ov, (i + 1) as nat, current as nat));
        }
        i += 1;
    }
    string_of(&v)
}

/// Screen lines taken by the options' rows: one per option, one more per
/// subtitle.
pub open spec fn rows_height(opts: Seq<(Seq<char>, Option<Seq<char>>)>) -> nat
    decreases opts.len(),
{
    if opts.len() == 0 {
        0
    } else {
        rows_height(opts.drop_last()) + 1 + if opts.last().1 is Some {
            1nat
        } else {
            0nat
        }
    }
}

/// The height of the rows, to move the cursor back up before repainting.
pub fn picker_height(options: &[Option_]) -> (r: usize)
    requires
        2 * options@.len() <= usize::MAX,
    ensures
        r == rows_height(option_views(options@)),
{
    let ghost ov = option_views(options@);
    let mut h: usize = 0;
    let mut i: usize = 0;
    while i < options.len()
        invariant
            i <= options.len(),
            2 * options@.len() <= usize::MAX,
            ov == option_views(options@),
            h == rows_height(ov.take(i as int)),
            h <= 2 * i,
        decreases options.len() - i,
    {
        assert(ov.take(i + 1).drop_last() =~= ov.take(i as int));
        assert(ov.take(i + 1).last() == option_view(options@[i as int]));
        h = h + 1 + if options[i].subtitle.is_some() {
            1
        } else {
            0
        };
        i += 1;
    }
    assert(ov.take(options.len() as int) =~= ov);
    h
}

/// The listing shown when there is no terminal to pick on: one line per
/// option (the default marked), its subtitle on the next.
pub open spec fn fallback_text(t: Theme, opts: Seq<(Seq<char>, Option<Seq<char>>)>, i: nat, default: nat) -> Seq<Seq<char>>
    decreases opts.len() - i,
{
    if i >= opts.len() {
        Seq::empty()
    } else {
        let mark = if i == default {
            good_spec(t) + ">"@ + RESET@
        } else {
            " "@
        };
        seq!["    "@ + mark + " ["@ + decimal(i + 1) + "] "@ + opts[i as int].0] + match opts[i as int].1 {
            Some(s) => seq!["        "@ + "\x1b[2m"@ + s + RESET@],
            None => Seq::empty(),
        } + fallback_text(t, opts, i + 1, default)
    }
}

/// The lines listing `options` without a terminal, `default` marked.
pub fn fallback_rows(t: Theme, options: &[Option_], default: usize) -> (r: Vec<String>)
    requires
        options@.len() < u64::MAX,
    ensures
        r@.map_values(|s: String| s@) == fallback_text(t, option_views(options@), 0, default as nat),
{
    let ghost ov = option_views(options@);
    let mut out: Vec<String> = Vec::new();
    let mut i: usize = 0;
    while i < options.len()
        invariant
            i <= options.len() < u64::MAX,
            ov == option_views(options@),
            out@.map_values(|s: String| s@) + fallback_text(t, ov, i as nat, default as nat) == fallback_text(
                t,
                ov,
                0,
                default as nat,
            ),
        decreases options.len() - i,
    {
        let ghost before = out@.map_values(|s: String| s@);
        let o = &options[i];
        let mut v = chars_of("    ");
        if i == default {
            extend_str(&mut v, good(t));
            extend_str(&mut v, ">");
            extend_str(&mut v, RESET);
        } else {
            extend_str(&mut v, " ");
        }
        extend_str(&mut v, " [");
        push_decimal(&mut v, i as u64 + 1);
        extend_str(&mut v, "] ");
        extend_str(&mut v, o.label);
        let ghost mark = if i == default {
            good_spec(t) + ">"@ + RESET@
        } else {
            " "@
        };
        assert(v@ =~= "    "@ + mark + " ["@ + decimal(i as nat + 1) + "] "@ + o.label@);
        let line = string_of(&v);
        out.push(line);
        let ghost mid = out@.map_values(|s: String| s@);
        assert(mid =~= before.push(line@));
        match o.subtitle {
            Some(s) => {
                let mut w = chars_of("        ");
                extend_str(&mut w, dim(t));
                extend_str(&mut w, s);
                extend_str(&mut w, RESET);
                let sub = string_of(&w);
                out.push(sub);
                assert(out@.map_values(|s: String| s@) =~= mid.push(sub@));
            },
            None => {},
        }
        proof {
            assert(ov[i as int] == option_view(options@[i as int]));
            let rest = fallback_text(t, ov, (i + 1) as nat, default as nat);
            let here = fallback_text(t, ov, i as nat, default as nat);
            let sub_lines = match ov[i as int].1 {
                Some(s) => seq!["        "@ + "\x1b[2m"@ + s + RESET@],
                None => Seq::<Seq<char>>::empty(),
            };
            assert(here == seq!["    "@ + mark + " ["@ + decimal(i as nat + 1) + "] "@ + ov[i as int].0] + sub_lines + rest);
            assert(line@ == "    "@ + mark + " ["@ + decimal(i as nat + 1) + "] "@ + ov[i as int].0);
            assert(out@.map_values(|s: String| s@) =~= before + seq![line@] + sub_lines);
            assert(before + here =~= out@.map_values(|s: String| s@) + rest);
        }
        i += 1;
    }
    out
}

} // verus!
