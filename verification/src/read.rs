//! The text logic of the `read` tool: which lines to show, and the
//! numbered listing of them.

use vstd::prelude::*;
use crate::text::{chars_of, extend_str, extend_chars, push_decimal, push_padded_left, string_of, decimal, decimal_chars, pad_left, lines_of, lines_of_str, views};

verus! {

/// Lines shown when the caller gives no limit.
pub const DEFAULT_LIMIT: usize = 4000;

/// The `(first line, line count)` to show: around a target line (when one
/// of at least 1 is given), `context` lines on each side clamped at line
/// 1; else from `offset` (at least 1, default 1) for `limit` lines.
pub open spec fn window_spec(around: Option<usize>, context: usize, offset: Option<usize>, limit: Option<usize>) -> (nat, nat) {
    match around {
        Some(t) if t >= 1 => {
            let off: nat = if t > context && t - context >= 1 {
                (t - context) as nat
            } else {
                1
            };
            (off, ((t - off) + context + 1) as nat)
        },
        _ => {
            let off: nat = match offset {
                Some(o) => if o >= 1 {
                    o as nat
                } else {
                    1
                },
                None => 1,
            };
            (off, match limit {
                Some(l) => l as nat,
                None => DEFAULT_LIMIT as nat,
            })
        },
    }
}

/// The lines to show for the read arguments.
pub fn read_window(around: Option<usize>, context: usize, offset: Option<usize>, limit: Option<usize>) -> (r: (usize, usize))
    requires
        around matches Some(t) ==> t + context + 1 <= usize::MAX,
    ensures
        (r.0 as nat, r.1 as nat) == window_spec(around, context, offset, limit),
{
    match around {
        Some(t) if t >= 1 => {
            let s = if t > context {
                t - context
            } else {
                0
            };
            let off = if s >= 1 {
                s
            } else {
                1
            };
            (off, (t - off) + context + 1)
        },
        _ => {
            let off = match offset {
                Some(o) => if o >= 1 {
                    o
                } else {
                    1
                },
                None => 1,
            };
            (off, match limit {
                Some(l) => l,
                None => DEFAULT_LIMIT,
            })
        },
    }
}

/// One listed line: `>` for the target line (else a space), the line
/// number right-aligned in five columns, a tab and the line.
pub open spec fn numbered_line(lineno: nat, line: Seq<char>, target: Option<usize>) -> Seq<char> {
    (if target == Some(lineno as usize) {
        ">"@
    } else {
        " "@
    }) + pad_left(decimal(lineno), 5) + "\t"@ + line + "\n"@
}

/// The listing of lines `i..` of `ls` (numbered from 1) from line `offset`
/// on, stopping once `limit` lines are out, given `emitted` lines so far;
/// with the number of the last line looked at.
pub open spec fn listing_from(ls: Seq<Seq<char>>, i: nat, offset: nat, limit: nat, target: Option<usize>, emitted: nat) -> (Seq<char>, nat)
    decreases ls.len() - i,
{
    if i >= ls.len() {
        (Seq::empty(), ls.len())
    } else if i + 1 < offset {
        listing_from(ls, i + 1, offset, limit, target, emitted)
    } else if emitted >= limit {
        (Seq::empty(), i + 1)
    } else {
        let rest = listing_from(ls, i + 1, offset, limit, target, emitted + 1);
        (numbered_line(i + 1, ls[i as int], target) + rest.0, rest.1)
    }
}

/// What `read` returns for `content`: the numbered lines of the window,
/// or a note with the line count when the window holds none.
pub open spec fn render_spec(content: Seq<char>, offset: nat, limit: nat, target: Option<usize>) -> Seq<char> {
    let (out, total) = listing_from(lines_of(content), 0, offset, limit, target, 0);
    if out.len() == 0 {
        "(empty range; file has "@ + decimal(total) + " lines)\n"@
    } else {
        out
    }
}

/// Lists the lines `offset..offset + limit` (numbered from 1) of
/// `content`, marking the target line.
pub fn render_lines(content: &str, offset: usize, limit: usize, target: Option<usize>) -> (r: String)
    ensures
        r@ == render_spec(content@, offset as nat, limit as nat, target),
{
    let lines = lines_of_str(content);
    let ghost ls = views(lines@);
    let ghost total_spec = listing_from(ls, 0, offset as nat, limit as nat, target, 0);
    let mut out: Vec<char> = Vec::new();
    let mut total: usize = 0;
    let mut emitted: usize = 0;
    let mut i: usize = 0;
    loop
        invariant_except_break
            i <= lines@.len(),
            emitted <= limit,
            out@ + listing_from(ls, i as nat, offset as nat, limit as nat, target, emitted as nat).0 == total_spec.0,
            listing_from(ls, i as nat, offset as nat, limit as nat, target, emitted as nat).1 == total_spec.1,
        invariant
            ls == views(lines@),
            ls == lines_of(content@),
            total_spec == listing_from(ls, 0, offset as nat, limit as nat, target, 0),
        ensures
            out@ == total_spec.0,
            total == total_spec.1,
        decreases lines@.len() - i,
    {
        if i >= lines.len() {
            total = lines.len();
            assert(out@ + Seq::<char>::empty() =~= out@);
            break;
        }
        let lineno = i + 1;
        if lineno < offset {
            i += 1;
            continue;
        }
        if emitted >= limit {
            total = lineno;
            assert(out@ + Seq::<char>::empty() =~= out@);
            break;
        }
        let ghost prev = out@;
        if target == Some(lineno) {
            out.push('>');
        } else {
            out.push(' ');
        }
        let num = decimal_chars(lineno as u64);
        push_padded_left(&mut out, &num, 5);
        out.push('\t');
        extend_chars(&mut out, &lines[i]);
        out.push('\n');
        proof {
            reveal_strlit(">");
            reveal_strlit(" ");
            reveal_strlit("\t");
            reveal_strlit("\n");
            assert(out@ =~= prev + numbered_line(lineno as nat, ls[i as int], target));
        }
        emitted += 1;
        i += 1;
        assert(out@ + listing_from(ls, i as nat, offset as nat, limit as nat, target, emitted as nat).0 =~= prev + (numbered_line(lineno as nat, ls[i - 1], target) + listing_from(ls, i as nat, offset as nat, limit as nat, target, emitted as nat).0));
    }
    if out.len() == 0 {
        let mut v = chars_of("(empty range; file has ");
        push_decimal(&mut v, total as u64);
        extend_str(&mut v, " lines)\n");
        return string_of(&v);
    }
    string_of(&out)
}

/// Without a usable target line the window has exactly the given limit
/// (or `DEFAULT_LIMIT`) of lines, whatever the offset, and starts at the
/// offset (at least line 1); around a target line `t >= 1` it starts at
/// line 1 or `context` lines before `t`, and ends `context` lines after
/// `t`.
pub proof fn lemma_read_window_laws(around: Option<usize>, context: usize, offset: Option<usize>, offset2: Option<usize>, limit: Option<usize>)
    ensures
        (around is None || around == Some(0usize)) ==> window_spec(around, context, offset, limit).1 == match limit {
            Some(l) => l as nat,
            None => DEFAULT_LIMIT as nat,
        },
        (around is None || around == Some(0usize)) ==> window_spec(around, context, offset, limit).1
            == window_spec(around, context, offset2, limit).1,
        (around is None || around == Some(0usize)) ==> window_spec(around, context, offset, limit).0 == match offset {
            Some(o) => if o >= 1 {
                o as nat
            } else {
                1nat
            },
            None => 1nat,
        },
        around is Some && around.unwrap() >= 1 ==> ({
            let t = around.unwrap();
            let (first, count) = window_spec(around, context, offset, limit);
            &&& first >= 1
            &&& first <= t
            &&& (first == 1 || first + context == t)
            &&& first + count == t + context + 1
        }),
{
}

} // verus!
