//! Text helpers of the first-run wizard: the port of a server URL, the
//! shortening of log lines, and which Python interpreters qualify.

use vstd::prelude::*;
use crate::text::{chars_of, extend_str, string_of, slice_to_vec, decimal, matches_at, find_from};
use crate::updater::{all_digits, digits_value};

verus! {

/// Position of the first `sep` in `s` at or after `i`.
pub open spec fn sep_at(s: Seq<char>, sep: Seq<char>, i: nat) -> Option<nat>
    decreases s.len() + 1 - i,
{
    if i > s.len() {
        None
    } else if matches_at(s, sep, i as int) {
        Some(i)
    } else {
        sep_at(s, sep, i + 1)
    }
}

proof fn lemma_sep_at_of_find(h: Seq<char>, n: Seq<char>, i: nat, r: Option<usize>)
    requires
        match r {
            Some(k) => i <= k && matches_at(h, n, k as int) && forall|j: int| i <= j < k ==> !matches_at(h, n, j),
            None => forall|j: int| i <= j ==> !matches_at(h, n, j),
        },
    ensures
        sep_at(h, n, i) == match r {
            Some(k) => Some(k as nat),
            None => None::<nat>,
        },
    decreases h.len() + 1 - i,
{
    if i <= h.len() && !matches_at(h, n, i as int) {
        lemma_sep_at_of_find(h, n, i + 1, r);
    } else if i > h.len() {
        if let Some(k) = r {
            assert(matches_at(h, n, k as int));
        }
    }
}

/// What `s.parse::<u16>()` accepts.
pub open spec fn parse_u16_spec(s: Seq<char>) -> Option<u16> {
    let d = if s.len() > 0 && s[0] == '+' {
        s.drop_first()
    } else {
        s
    };
    if d.len() > 0 && all_digits(d) && digits_value(d) <= u16::MAX {
        Some(digits_value(d) as u16)
    } else {
        None
    }
}

/// The port of a URL like `http://host:port/path`: the second `:`-piece of
/// the part between `://` and the next `/` (or the next `://`); `None`
/// when there is none or it is not a port number.
pub open spec fn port_spec(url: Seq<char>) -> Option<u16> {
    match sep_at(url, "://"@, 0) {
        None => None,
        Some(a) => {
            let after = url.skip(a + 3 as int);
            let piece = match sep_at(after, "://"@, 0) {
                Some(b) => after.take(b as int),
                None => after,
            };
            let host_port = match sep_at(piece, "/"@, 0) {
                Some(c) => piece.take(c as int),
                None => piece,
            };
            match sep_at(host_port, ":"@, 0) {
                None => None,
                Some(d) => {
                    let rest = host_port.skip(d + 1 as int);
                    let port = match sep_at(rest, ":"@, 0) {
                        Some(e) => rest.take(e as int),
                        None => rest,
                    };
                    parse_u16_spec(port)
                },
            }
        },
    }
}

fn find_sep(s: &Vec<char>, sep: &str) -> (r: Option<usize>)
    ensures
        match r {
            Some(k) => sep_at(s@, sep@, 0) == Some(k as nat) && k + sep@.len() <= s.len(),
            None => sep_at(s@, sep@, 0) is None,
        },
{
    let n = chars_of(sep);
    let r = find_from(s, &n, 0);
    proof {
        lemma_sep_at_of_find(s@, sep@, 0, r);
    }
    r
}

fn cut_at(s: &Vec<char>, sep: &str) -> (r: Vec<char>)
    ensures
        r@ == match sep_at(s@, sep@, 0) {
            Some(k) => s@.take(k as int),
            None => s@,
        },
{
    match find_sep(s, sep) {
        Some(k) => slice_to_vec(s, 0, k),
        None => slice_to_vec(s, 0, s.len()),
    }
}

fn parse_port(p: &[char]) -> (r: Option<u16>)
    ensures
        r == parse_u16_spec(p@),
{
    let start: usize = if p.len() > 0 && p[0] == '+' {
        1
    } else {
        0
    };
    let ghost d = p@.skip(start as int);
    assert(d =~= if p@.len() > 0 && p@[0] == '+' {
        p@.drop_first()
    } else {
        p@
    });
    if start >= p.len() {
        return None;
    }
    let mut v: u32 = 0;
    let mut i: usize = start;
    assert(p@.subrange(start as int, start as int) =~= Seq::<char>::empty());
    while i < p.len()
        invariant
            start <= i <= p@.len(),
            d == p@.skip(start as int),
            d.len() > 0,
            parse_u16_spec(p@) == (if d.len() > 0 && all_digits(d) && digits_value(d) <= u16::MAX {
                Some(digits_value(d) as u16)
            } else {
                None
            }),
            all_digits(p@.subrange(start as int, i as int)),
            v == digits_value(p@.subrange(start as int, i as int)),
            v <= u16::MAX,
        decreases p@.len() - i,
    {
        let c = p[i];
        if !('0' <= c && c <= '9') {
            assert(d[i - start] == c);
            assert(!all_digits(d));
            return None;
        }
        let dv: u32 = digit_value(c);
        assert(p@.subrange(start as int, i + 1).drop_last() =~= p@.subrange(start as int, i as int));
        let nv = v * 10 + dv;
        if nv > 65535 {
            proof {
                let k = (i - start) as nat;
                assert(d.take(k as int) =~= p@.subrange(start as int, i as int));
                assert(d.take(k + 1 as int) =~= p@.subrange(start as int, i + 1));
                crate::updater::lemma_digits_prefix_grows(d, k);
            }
            return None;
        }
        v = nv;
        i += 1;
    }
    assert(p@.subrange(start as int, i as int) =~= d);
    Some(v as u16)
}

fn digit_value(c: char) -> (r: u32)
    requires
        '0' <= c && c <= '9',
    ensures
        r == (c as u32) - ('0' as u32),
        r < 10,
{
    (c as u32) - ('0' as u32)
}

/// The port of a server URL, as the wizard reads it from `--base-url`.
pub fn port_from_url(url: &str) -> (r: Option<u16>)
    ensures
        r == port_spec(url@),
{
    proof {
        reveal_strlit("://");
        reveal_strlit(":");
    }
    let u = chars_of(url);
    let a = match find_sep(&u, "://") {
        Some(a) => a,
        None => return None,
    };
    let after = slice_to_vec(&u, a + 3, u.len());
    assert(after@ =~= url@.skip(a + 3));
    let piece = cut_at(&after, "://");
    let host_port = cut_at(&piece, "/");
    let d = match find_sep(&host_port, ":") {
        Some(d) => d,
        None => return None,
    };
    let rest = slice_to_vec(&host_port, d + 1, host_port.len());
    assert(rest@ =~= host_port@.skip(d + 1));
    let port = cut_at(&rest, ":");
    parse_port(&port)
}

/// A log line shortened to `max_chars` characters: kept when it fits,
/// else "..." and its last `max_chars - 3` characters (nothing left of
/// the line when `max_chars` is below 3); empty for a zero limit.
pub open spec fn truncate_log_spec(s: Seq<char>, max_chars: nat) -> Seq<char> {
    if max_chars == 0 {
        Seq::empty()
    } else if s.len() <= max_chars {
        s
    } else {
        let head: nat = if max_chars >= 3 {
            (max_chars - 3) as nat
        } else {
            0
        };
        "..."@ + s.skip(s.len() - head)
    }
}

/// Shortens a log line for the wizard's progress display, keeping its end.
pub fn truncate_log_line(s: &str, max_chars: usize) -> (r: String)
    ensures
        r@ == truncate_log_spec(s@, max_chars as nat),
{
    if max_chars == 0 {
        return String::new();
    }
    let c = chars_of(s);
    let count = c.len();
    if count <= max_chars {
        return s.to_owned();
    }
    let head = if max_chars >= 3 {
        max_chars - 3
    } else {
        0
    };
    let skip = count - head;
    let mut out = chars_of("...");
    let tail = slice_to_vec(&c, skip, count);
    assert(tail@ =~= s@.skip(s@.len() - head));
    crate::text::extend_chars(&mut out, &tail);
    string_of(&out)
}

/// Visible characters of `s` from state `esc`: an escape character starts
/// a sequence that runs through the next `m` and is not counted.
pub open spec fn plain_len_from(s: Seq<char>, esc: bool) -> nat
    decreases s.len(),
{
    if s.len() == 0 {
        0
    } else if esc {
        plain_len_from(s.drop_first(), s[0] != 'm')
    } else if s[0] == '\x1b' {
        plain_len_from(s.drop_first(), true)
    } else {
        1 + plain_len_from(s.drop_first(), false)
    }
}

proof fn lemma_plain_le(s: Seq<char>, esc: bool)
    ensures
        plain_len_from(s, esc) <= s.len(),
    decreases s.len(),
{
    if s.len() > 0 {
        if esc {
            lemma_plain_le(s.drop_first(), s[0] != 'm');
        } else if s[0] == '\x1b' {
            lemma_plain_le(s.drop_first(), true);
        } else {
            lemma_plain_le(s.drop_first(), false);
        }
    }
}

/// Visible width of a text whose escape sequences end in `m`.
pub fn strip_ansi_len_local(s: &str) -> (r: usize)
    ensures
        r == plain_len_from(s@, false),
{
    let c = chars_of(s);
    let mut out: usize = 0;
    let mut esc = false;
    let mut i: usize = 0;
    assert(c@.skip(0) =~= c@);
    while i < c.len()
        invariant
            i <= c@.len(),
            c@ == s@,
            out <= i,
            out + plain_len_from(c@.skip(i as int), esc) == plain_len_from(s@, false),
        decreases c@.len() - i,
    {
        assert(c@.skip(i as int).drop_first() =~= c@.skip(i + 1));
        assert(c@.skip(i as int)[0] == c[i as int]);
        proof {
            lemma_plain_le(c@.skip(i + 1), false);
        }
        let ch = c[i];
        if esc {
            if ch == 'm' {
                esc = false;
            }
        } else if ch == '\x1b' {
            esc = true;
        } else {
            out += 1;
        }
        i += 1;
    }
    assert(c@.skip(i as int) =~= Seq::<char>::empty());
    out
}

/// Lowest Python minor version the server accepts.
pub const MIN_PY_MINOR: u32 = 11;

/// The interpreter names to probe, preferred first: `python3.20` down to
/// `python3.11`, then `python3` and `python`.
pub open spec fn python_candidates_spec() -> Seq<Seq<char>> {
    Seq::new(10, |i: int| "python3."@ + decimal((20 - i) as nat)) + seq!["python3"@, "python"@]
}

/// The interpreter names to probe, preferred first.
pub fn python_candidates() -> (r: Vec<String>)
    ensures
        r@.map_values(|s: String| s@) == python_candidates_spec(),
{
    let mut out: Vec<String> = Vec::new();
    let mut minor: u64 = 20;
    while minor >= 11
        invariant
            10 <= minor <= 20,
            out@.len() == 20 - minor,
            forall|k: int| 0 <= k < out@.len() ==> #[trigger] out@[k]@ == "python3."@ + decimal((20 - k) as nat),
        decreases minor,
    {
        let mut v = chars_of("python3.");
        crate::text::push_decimal(&mut v, minor);
        out.push(string_of(&v));
        minor -= 1;
    }
    out.push("python3".to_owned());
    out.push("python".to_owned());
    assert(out@.map_values(|s: String| s@) =~= python_candidates_spec());
    out
}

/// An interpreter qualifies when it reports Python 3.11 or newer.
pub fn python_version_ok(version: Option<(u32, u32)>) -> (r: bool)
    ensures
        r == match version {
            Some((major, minor)) => major == 3 && minor >= MIN_PY_MINOR,
            None => false,
        },
{
    match version {
        Some((3, m)) => m >= MIN_PY_MINOR,
        _ => false,
    }
}

/// How long the wizard waits for a started server to answer.
pub const WAIT_TIMEOUT_NS: u128 = 300_000_000_000;

/// Log silence after which the wait line says the log is idle.
pub const IDLE_HINT_NS: u128 = 60_000_000_000;

/// Time into the wait before an idle log is pointed out.
pub const IDLE_GRACE_NS: u128 = 90_000_000_000;

/// Where waiting for a started server stands.
#[derive(Debug, Clone, Copy, PartialEq, Eq, Structural)]
pub enum WaitStep {
    /// The server answers.
    Ready,
    /// It did not answer in time.
    TimedOut,
    /// Keep waiting; `idle` when the log has been silent for long enough
    /// to say so.
    Waiting { idle: bool },
}

/// One poll of the wait: `responding` when the server answered, `elapsed`
/// since the start and `idle` since the log last grew, in nanoseconds.
pub fn wait_step(responding: bool, elapsed: u128, idle: u128) -> (r: WaitStep)
    ensures
        r == (if responding {
            WaitStep::Ready
        } else if elapsed > WAIT_TIMEOUT_NS {
            WaitStep::TimedOut
        } else {
            WaitStep::Waiting { idle: idle > IDLE_HINT_NS && elapsed > IDLE_GRACE_NS }
        }),
{
    if responding {
        WaitStep::Ready
    } else if elapsed > WAIT_TIMEOUT_NS {
        WaitStep::TimedOut
    } else {
        WaitStep::Waiting { idle: idle > IDLE_HINT_NS && elapsed > IDLE_GRACE_NS }
    }
}

/// Columns the wait line's spinner and seconds take (`  ⠋ (123s) `).
pub const WAIT_PREFIX_COLS: usize = 11;

/// Columns left for the last log line on a `width`-column terminal, after
/// the spinner prefix, the idle hint (`hint_cols` visible columns) and two
/// spare columns.
pub fn log_budget(width: usize, hint_cols: usize) -> (r: usize)
    ensures
        r == if width >= WAIT_PREFIX_COLS + hint_cols + 2 {
            (width - WAIT_PREFIX_COLS - hint_cols - 2) as nat
        } else {
            0
        },
{
    let a = if width >= WAIT_PREFIX_COLS {
        width - WAIT_PREFIX_COLS
    } else {
        0
    };
    let b = if a >= hint_cols {
        a - hint_cols
    } else {
        0
    };
    if b >= 2 {
        b - 2
    } else {
        0
    }
}

/// Whether this is the first run: the welcome marker file
/// (`~/.mlx-code/.welcomed`) is written after the wizard completes, so a
/// run without it has not been welcomed yet.
pub fn is_first_run(marker_exists: bool) -> (r: bool)
    ensures
        r == !marker_exists,
{
    !marker_exists
}

} // verus!
