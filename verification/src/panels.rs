//! The panels that show a tool call in the terminal: its arguments as
//! aligned key/value lines, and its result with long output shortened.

use vstd::prelude::*;
use crate::text::{chars_of, extend_str, extend_chars, string_of};

verus! {

/// The border that closes a tool panel.
pub open spec fn panel_footer() -> Seq<char> {
    "\x1b[2m╰─────────────────────────────────────\x1b[0m"@
}

/// A body line inside a tool panel.
pub open spec fn panel_row(line: Seq<char>) -> Seq<char> {
    "\x1b[2m│\x1b[0m "@ + line
}

/// The lines of a tool-result panel for the output `body` of tool `name`:
/// a header with the outcome, the body's lines (after `max_lines` of them
/// a note with the count left out, unless at most two more would follow),
/// and a footer.
pub open spec fn result_panel_spec(name: Seq<char>, ok: bool, body: Seq<char>, max_lines: nat) -> Seq<Seq<char>> {
    let ls = crate::text::lines_of(body);
    let head = "\x1b[2m╭─ "@ + (if ok {
        "\x1b[0;32m✓"@
    } else {
        "\x1b[0;31m✗"@
    }) + "\x1b[0;2m result: \x1b[1m"@ + name + "\x1b[0;2m ─────────────────────\x1b[0m"@;
    let rows = if ls.len() > max_lines + 2 {
        ls.take(max_lines as int).map_values(|l: Seq<char>| panel_row(l)) + seq![
            "\x1b[2m│ ... ("@ + crate::text::decimal((ls.len() - max_lines) as nat)
                + " more lines, truncated; --full-output to see all)\x1b[0m"@,
        ]
    } else {
        ls.map_values(|l: Seq<char>| panel_row(l))
    };
    seq![head] + rows + seq![panel_footer()]
}

/// The lines of a tool-result panel (see `result_panel_spec`).
pub fn result_panel(name: &str, ok: bool, body: &str, max_lines: usize) -> (r: Vec<String>)
    ensures
        r@.map_values(|s: String| s@) == result_panel_spec(name@, ok, body@, max_lines as nat),
{
    let ls = crate::text::lines_of_str(body);
    let ghost lv = crate::text::views(ls@);
    let mut head = chars_of("\x1b[2m╭─ ");
    if ok {
        extend_str(&mut head, "\x1b[0;32m✓");
    } else {
        extend_str(&mut head, "\x1b[0;31m✗");
    }
    extend_str(&mut head, "\x1b[0;2m result: \x1b[1m");
    extend_str(&mut head, name);
    extend_str(&mut head, "\x1b[0;2m ─────────────────────\x1b[0m");
    let mut out: Vec<String> = Vec::new();
    out.push(string_of(&head));
    let ghost h = seq![head@];
    assert(out@.map_values(|s: String| s@) =~= h);
    let truncate = ls.len() > 2 && ls.len() - 2 > max_lines;
    let shown = if truncate {
        max_lines
    } else {
        ls.len()
    };
    let ghost want = lv.take(shown as int).map_values(|l: Seq<char>| panel_row(l));
    let mut i: usize = 0;
    while i < shown
        invariant
            i <= shown,
            shown <= ls@.len(),
            lv == crate::text::views(ls@),
            want == lv.take(shown as int).map_values(|l: Seq<char>| panel_row(l)),
            out@.map_values(|s: String| s@) == h + want.take(i as int),
        decreases shown - i,
    {
        let mut row = chars_of("\x1b[2m│\x1b[0m ");
        extend_chars(&mut row, &ls[i]);
        let ghost prev = out@.map_values(|s: String| s@);
        out.push(string_of(&row));
        assert(lv[i as int] == ls@[i as int]@);
        assert(out@.map_values(|s: String| s@) =~= prev.push(want[i as int]));
        assert(want.take(i + 1) =~= want.take(i as int).push(want[i as int]));
        i += 1;
    }
    assert(want.take(shown as int) =~= want);
    let ghost spec = result_panel_spec(name@, ok, body@, max_lines as nat);
    assert(lv.len() == ls@.len());
    assert(lv == crate::text::lines_of(body@));
    assert(h[0] == "\x1b[2m╭─ "@ + (if ok {
        "\x1b[0;32m✓"@
    } else {
        "\x1b[0;31m✗"@
    }) + "\x1b[0;2m result: \x1b[1m"@ + name@ + "\x1b[0;2m ─────────────────────\x1b[0m"@);
    if truncate {
        let mut note = chars_of("\x1b[2m│ ... (");
        crate::text::push_decimal(&mut note, (ls.len() - max_lines) as u64);
        extend_str(&mut note, " more lines, truncated; --full-output to see all)\x1b[0m");
        let ghost prev = out@.map_values(|s: String| s@);
        out.push(string_of(&note));
        assert(out@.map_values(|s: String| s@) =~= prev.push(note@));
        assert(lv.len() > max_lines + 2);
    } else {
        assert(lv.take(shown as int) =~= lv);
        assert(!(lv.len() > max_lines + 2));
    }
    let ghost prev = out@.map_values(|s: String| s@);
    out.push("\x1b[2m╰─────────────────────────────────────\x1b[0m".to_owned());
    assert(out@.map_values(|s: String| s@) =~= prev.push(panel_footer()));
    assert(out@.map_values(|s: String| s@) =~= spec);
    out
}

/// A tool-call argument for display: a string, or another JSON value
/// already rendered as JSON.
#[derive(Debug, Clone)]
pub enum ArgValue {
    Text(String),
    Json(String),
}

/// A rendered argument as the contracts see it: whether it is a string,
/// and its text.
pub open spec fn arg_view(v: ArgValue) -> (bool, Seq<char>) {
    match v {
        ArgValue::Text(s) => (true, s@),
        ArgValue::Json(s) => (false, s@),
    }
}

/// The widest key, in bytes.
pub open spec fn key_width(keys: Seq<Seq<char>>, n: int) -> nat
    decreases n,
{
    if n <= 0 {
        0
    } else {
        let w = crate::text::utf8_len(keys[n - 1]);
        let rest = key_width(keys, n - 1);
        if w > rest {
            w
        } else {
            rest
        }
    }
}

/// A multi-line string value with its continuation lines indented by
/// `indent` spaces; other values as they are.
pub open spec fn value_text(v: (bool, Seq<char>), indent: nat) -> Seq<char> {
    if v.0 && v.1.contains('\n') {
        let ls = crate::text::lines_of(v.1);
        joined_lines(ls, indent, ls.len() as int)
    } else {
        v.1
    }
}

/// The first `n` lines joined with a line feed and `indent` spaces.
pub open spec fn joined_lines(ls: Seq<Seq<char>>, indent: nat, n: int) -> Seq<char>
    decreases n,
{
    if n <= 0 {
        Seq::empty()
    } else if n == 1 {
        ls[0]
    } else {
        joined_lines(ls, indent, n - 1) + "\n"@ + crate::text::spaces(indent) + ls[n - 1]
    }
}

/// The lines of the first `n` arguments, each key (colored, with a colon)
/// padded to the widest key.
pub open spec fn arg_rows(args: Seq<(Seq<char>, (bool, Seq<char>))>, kw: nat, n: int) -> Seq<char>
    decreases n,
{
    if n <= 0 {
        Seq::empty()
    } else {
        let (k, v) = args[n - 1];
        arg_rows(args, kw, n - 1) + crate::text::pad_right("\x1b[0;33m"@ + k + "\x1b[0m:"@, kw + 12) + "  "@ + value_text(
            v,
            kw + 2,
        ) + "\n"@
    }
}

/// The arguments as the contracts see them.
pub open spec fn args_view(args: Seq<(String, ArgValue)>) -> Seq<(Seq<char>, (bool, Seq<char>))> {
    args.map_values(|a: (String, ArgValue)| (a.0@, arg_view(a.1)))
}

/// A tool call's arguments as key/value lines, keys aligned, continuation
/// lines of multi-line strings indented under the values, without the
/// trailing white space.
pub open spec fn args_panel_spec(args: Seq<(String, ArgValue)>) -> Seq<char> {
    let a = args_view(args);
    crate::text::trim_end(arg_rows(a, key_width(a.map_values(|x: (Seq<char>, (bool, Seq<char>))| x.0), a.len() as int), a.len() as int))
}

fn joined_exec(ls: &Vec<Vec<char>>, indent: usize) -> (r: Vec<char>)
    ensures
        r@ == joined_lines(crate::text::views(ls@), indent as nat, ls@.len() as int),
{
    let ghost lv = crate::text::views(ls@);
    let mut out: Vec<char> = Vec::new();
    let mut i: usize = 0;
    while i < ls.len()
        invariant
            i <= ls@.len(),
            lv == crate::text::views(ls@),
            out@ == joined_lines(lv, indent as nat, i as int),
        decreases ls@.len() - i,
    {
        assert(lv[i as int] == ls@[i as int]@);
        if i > 0 {
            extend_str(&mut out, "\n");
            let mut k: usize = 0;
            let ghost before = out@;
            while k < indent
                invariant
                    k <= indent,
                    out@ == before + crate::text::spaces(k as nat),
                decreases indent - k,
            {
                out.push(' ');
                assert(out@ =~= before + crate::text::spaces((k + 1) as nat));
                k += 1;
            }
        } else {
            assert(out@ =~= Seq::<char>::empty());
        }
        extend_chars(&mut out, &ls[i]);
        assert(i == 0 ==> out@ =~= lv[0]);
        i += 1;
    }
    out
}

fn key_width_exec(args: &Vec<(String, ArgValue)>) -> (w: usize)
    requires
        forall|i: int| 0 <= i < args@.len() ==> crate::text::utf8_len(#[trigger] args@[i].0@) + 14 <= usize::MAX,
    ensures
        w == key_width(args_view(args@).map_values(|x: (Seq<char>, (bool, Seq<char>))| x.0), args@.len() as int),
        w + 14 <= usize::MAX,
{
    let ghost keys = args_view(args@).map_values(|x: (Seq<char>, (bool, Seq<char>))| x.0);
    let mut w: usize = 0;
    let mut i: usize = 0;
    while i < args.len()
        invariant
            i <= args@.len(),
            keys == args_view(args@).map_values(|x: (Seq<char>, (bool, Seq<char>))| x.0),
            forall|j: int| 0 <= j < args@.len() ==> crate::text::utf8_len(#[trigger] args@[j].0@) + 14 <= usize::MAX,
            w == key_width(keys, i as int),
            w + 14 <= usize::MAX,
        decreases args@.len() - i,
    {
        let kc = chars_of(args[i].0.as_str());
        let n = crate::text::utf8_len_capped(&kc, usize::MAX);
        assert(keys[i as int] == args@[i as int].0@);
        if n > w {
            w = n;
        }
        i += 1;
    }
    w
}

/// A tool call's arguments for display (see `args_panel_spec`); keys must
/// leave room for the padding arithmetic.
pub fn args_panel(args: &Vec<(String, ArgValue)>) -> (r: String)
    requires
        forall|i: int| 0 <= i < args@.len() ==> crate::text::utf8_len(#[trigger] args@[i].0@) + 14 <= usize::MAX,
    ensures
        r@ == args_panel_spec(args@),
{
    let ghost a = args_view(args@);
    let kw = key_width_exec(args);
    let mut out: Vec<char> = Vec::new();
    let mut i: usize = 0;
    while i < args.len()
        invariant
            i <= args@.len(),
            a == args_view(args@),
            kw + 14 <= usize::MAX,
            out@ == arg_rows(a, kw as nat, i as int),
        decreases args@.len() - i,
    {
        let mut key = chars_of("\x1b[0;33m");
        extend_str(&mut key, args[i].0.as_str());
        extend_str(&mut key, "\x1b[0m:");
        crate::text::push_padded_right(&mut out, &key, kw + 12);
        extend_str(&mut out, "  ");
        match &args[i].1 {
            ArgValue::Text(t) => {
                let tc = chars_of(t.as_str());
                if crate::text::has_char(&tc, '\n') {
                    let ls = crate::text::lines_of_str(t.as_str());
                    let j = joined_exec(&ls, kw + 2);
                    extend_chars(&mut out, &j);
                } else {
                    extend_chars(&mut out, &tc);
                }
            },
            ArgValue::Json(t) => {
                extend_str(&mut out, t.as_str());
            },
        }
        extend_str(&mut out, "\n");
        assert(a[i as int] == (args@[i as int].0@, arg_view(args@[i as int].1)));
        i += 1;
    }
    string_of(&crate::text::trim_end_chars(&out))
}

} // verus!
