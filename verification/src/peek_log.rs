//! The run-log viewer: which logged runs it shows and how, with
//! timestamps printed as UTC calendar dates.

use vstd::prelude::*;
use crate::text::{chars_of, extend_chars, extend_str, string_of, decimal, decimal_chars, pad_right, push_decimal, push_padded_right, take_chars};

verus! {

/// The UTC date and time of a day count since 1970-01-01 (the civil
/// calendar by Hinnant's day arithmetic): `(year, month, day)`.
pub open spec fn civil_from_days(days: nat) -> (int, int, int) {
    let z = days + 719468;
    let era = z / 146097;
    let doe = z - era * 146097;
    let yoe = (doe - doe / 1460 + doe / 36524 - doe / 146096) / 365;
    let y = yoe + era * 400;
    let doy = doe - (365 * yoe + yoe / 4 - yoe / 100);
    let mp = (5 * doy + 2) / 153;
    let d = doy - (153 * mp + 2) / 5 + 1;
    let m = if mp < 10 {
        mp + 3
    } else {
        mp - 9
    };
    (if m <= 2 {
        y + 1
    } else {
        y
    }, m, d)
}

/// The day count since 1970-01-01 of the date `y-m-d` (Hinnant's
/// days-from-civil).
pub open spec fn days_from_civil(y: int, m: int, d: int) -> int {
    let yp = if m <= 2 {
        y - 1
    } else {
        y
    };
    let era = yp / 400;
    let yoe = yp - era * 400;
    let doy = (153 * (if m > 2 {
        m - 3
    } else {
        m + 9
    }) + 2) / 5 + d - 1;
    let doe = yoe * 365 + yoe / 4 - yoe / 100 + doy;
    era * 146097 + doe - 719468
}

/// `s` padded with leading zeros to `w` characters.
pub open spec fn zero_pad(s: Seq<char>, w: nat) -> Seq<char> {
    if s.len() >= w {
        s
    } else {
        Seq::new((w - s.len()) as nat, |i: int| '0') + s
    }
}

/// How a timestamp prints: `YYYY-MM-DD HH:MM` in UTC, or a placeholder for
/// a missing (zero) timestamp.
pub open spec fn ts_text(ts: nat) -> Seq<char> {
    if ts == 0 {
        "????-??-?? ??:??"@
    } else {
        let (y, m, d) = civil_from_days(ts / 86400);
        let sid = ts % 86400;
        zero_pad(decimal(y as nat), 4) + "-"@ + zero_pad(decimal(m as nat), 2) + "-"@ + zero_pad(
            decimal(d as nat),
            2,
        ) + " "@ + zero_pad(decimal(sid / 3600), 2) + ":"@ + zero_pad(decimal((sid % 3600) / 60), 2)
    }
}

/// The date computed for a day count is a date with that day count: the
/// two calendar conversions are inverse, and the month and day are in
/// range.
pub proof fn lemma_civil_roundtrip(days: nat)
    ensures
        ({
            let (y, m, d) = civil_from_days(days);
            &&& 1 <= m <= 12
            &&& 1 <= d <= 31
            &&& days_from_civil(y, m, d) == days
        }),
{
    let z = days + 719468;
    let era = z / 146097;
    let doe = z - era * 146097;
    assert(0 <= doe < 146097);
    let t = doe - doe / 1460 + doe / 36524 - doe / 146096;
    assert(0 <= t < 146000) by (nonlinear_arith)
        requires
            0 <= doe < 146097,
            t == doe - doe / 1460 + doe / 36524 - doe / 146096,
    ;
    let yoe = t / 365;
    assert(0 <= yoe < 400);
    let doy = doe - (365 * yoe + yoe / 4 - yoe / 100);
    assert(0 <= doy <= 365) by (nonlinear_arith)
        requires
            0 <= doe < 146097,
            t == doe - doe / 1460 + doe / 36524 - doe / 146096,
            yoe == t / 365,
            0 <= yoe < 400,
            doy == doe - (365 * yoe + yoe / 4 - yoe / 100),
    ;
    let mp = (5 * doy + 2) / 153;
    assert(0 <= mp <= 11);
    let d = doy - (153 * mp + 2) / 5 + 1;
    assert(1 <= d <= 31) by (nonlinear_arith)
        requires
            0 <= doy <= 365,
            mp == (5 * doy + 2) / 153,
            d == doy - (153 * mp + 2) / 5 + 1,
    ;
    let m = if mp < 10 {
        mp + 3
    } else {
        mp - 9
    };
    let y = yoe + era * 400;
    let yy = if m <= 2 {
        y + 1
    } else {
        y
    };
    let yp = if m <= 2 {
        yy - 1
    } else {
        yy
    };
    assert(yp == y);
    assert(yp / 400 == era) by (nonlinear_arith)
        requires
            yp == yoe + era * 400,
            0 <= yoe < 400,
            era >= 0,
    ;
    assert(yp - era * 400 == yoe);
    assert((if m > 2 {
        m - 3
    } else {
        m + 9
    }) == mp);
}

fn pad_into(v: &mut Vec<char>, n: u64, w: usize)
    ensures
        final(v)@ == old(v)@ + zero_pad(decimal(n as nat), w as nat),
{
    let digits = decimal_chars(n);
    let mut k = digits.len();
    let ghost start = v@;
    while k < w
        invariant
            digits@ == decimal(n as nat),
            digits@.len() <= k <= w || (k == digits@.len() && k >= w),
            v@ == start + Seq::new((k - digits@.len()) as nat, |i: int| '0'),
        decreases w - k,
    {
        v.push('0');
        k += 1;
        assert(v@ =~= start + Seq::new((k - digits@.len()) as nat, |i: int| '0'));
    }
    extend_chars(v, &digits);
    assert(v@ =~= start + zero_pad(decimal(n as nat), w as nat));
}

/// Formats a Unix timestamp (seconds) as `YYYY-MM-DD HH:MM` UTC; zero
/// prints as `????-??-?? ??:??`.
pub fn format_ts(ts: u64) -> (r: String)
    ensures
        r@ == ts_text(ts as nat),
{
    if ts == 0 {
        return "????-??-?? ??:??".to_owned();
    }
    let days = ts / 86400;
    let secs_in_day = ts % 86400;
    let hours = secs_in_day / 3600;
    let minutes = (secs_in_day % 3600) / 60;
    let z = days + 719468;
    let era = z / 146097;
    let doe = z - era * 146097;
    let yoe = (doe - doe / 1460 + doe / 36524 - doe / 146096) / 365;
    assert(doe - doe / 1460 + doe / 36524 - doe / 146096 >= 0) by (nonlinear_arith)
        requires
            doe == z - z / 146097 * 146097,
            z >= 0,
    ;
    let y = yoe + era * 400;
    let doy = doe - (365 * yoe + yoe / 4 - yoe / 100);
    let mp = (5 * doy + 2) / 153;
    let d = doy - (153 * mp + 2) / 5 + 1;
    let m = if mp < 10 {
        mp + 3
    } else {
        mp - 9
    };
    let y = if m <= 2 {
        y + 1
    } else {
        y
    };
    let mut v: Vec<char> = Vec::new();
    pad_into(&mut v, y, 4);
    v.push('-');
    pad_into(&mut v, m, 2);
    v.push('-');
    pad_into(&mut v, d, 2);
    v.push(' ');
    pad_into(&mut v, hours, 2);
    v.push(':');
    pad_into(&mut v, minutes, 2);
    proof {
        reveal_strlit("-");
        reveal_strlit(" ");
        reveal_strlit(":");
    }
    string_of(&v)
}

/// Runs shown when the caller asks for no number.
pub const DEFAULT_N: usize = 10;

/// Runs shown at most.
pub const MAX_N: usize = 50;

/// The number of runs to show: the requested one (default 10), within 1..=50.
pub fn peek_count(requested: Option<usize>) -> (r: usize)
    ensures
        r == ({
            let n: usize = match requested {
                Some(n) => n,
                None => DEFAULT_N,
            };
            if n > MAX_N {
                MAX_N
            } else if n < 1 {
                1
            } else {
                n
            }
        }),
{
    let n = match requested {
        Some(n) => n,
        None => DEFAULT_N,
    };
    if n > MAX_N {
        MAX_N
    } else if n < 1 {
        1
    } else {
        n
    }
}

/// One logged run, with the fields the viewer shows.
#[derive(Debug, Clone)]
pub struct RunRow {
    pub ts: u64,
    pub mode: String,
    /// `None` when the log line does not say.
    pub success: Option<bool>,
    pub prompt: String,
    pub rounds: u64,
    pub tool_calls: u64,
    pub total_ms: u64,
    /// The decode-rate column, already formatted ("42 t/s" or "-").
    pub rate: String,
    pub error: Option<String>,
}

/// The runs among `rows[i..]` the filter keeps: all, or with `failed_only`
/// those that say they failed.
pub open spec fn kept_from(rows: Seq<RunRow>, failed_only: bool, i: nat) -> Seq<RunRow>
    decreases rows.len() - i,
{
    if i >= rows.len() {
        Seq::empty()
    } else {
        (if !failed_only || rows[i as int].success == Some(false) {
            seq![rows[i as int]]
        } else {
            Seq::empty()
        }) + kept_from(rows, failed_only, i + 1)
    }
}

/// The first `n` characters of `s`.
pub open spec fn first_chars(s: Seq<char>, n: nat) -> Seq<char> {
    s.take(if s.len() < n { s.len() as int } else { n as int })
}

/// The time column of a shown run.
#[verifier::opaque]
pub open spec fn ts_column(ts: u64) -> Seq<char> {
    ts_text(ts as nat)
}

/// The first line of a shown run: status, time, mode, duration, rounds,
/// tool calls and decode rate.
pub open spec fn run_head(r: RunRow) -> Seq<char> {
    "  "@ + (if r.success == Some(true) {
        "ok "@
    } else {
        "ERR"@
    }) + " ["@ + ts_column(r.ts) + "] "@ + pad_right(r.mode@, 13) + " "@ + decimal(r.total_ms as nat) + "ms r="@
        + decimal(r.rounds as nat) + " tc="@ + decimal(r.tool_calls as nat) + " "@ + r.rate@ + "\n"@
}

/// The quoted prompt line of a shown run, and its error line if any.
pub open spec fn run_tail(r: RunRow) -> Seq<char> {
    "       \""@ + first_chars(r.prompt@, 60) + "\"\n"@ + match r.error {
        Some(e) => if e@.len() > 0 {
            "       err: "@ + first_chars(e@, 120) + "\n"@
        } else {
            Seq::empty()
        },
        None => Seq::empty(),
    }
}

/// The lines of one shown run.
pub open spec fn run_lines(r: RunRow) -> Seq<char> {
    run_head(r) + run_tail(r)
}

/// The lines of the shown runs `i..`.
pub open spec fn runs_text(s: Seq<RunRow>, i: nat) -> Seq<char>
    decreases s.len() - i,
{
    if i >= s.len() {
        Seq::empty()
    } else {
        run_lines(s[i as int]) + runs_text(s, i + 1)
    }
}

/// What the viewer prints for the logged `rows` of the file at `path`:
/// the last `n` kept runs, oldest first, under a header.
pub open spec fn peek_spec(rows: Seq<RunRow>, n: nat, failed_only: bool, path: Seq<char>) -> Seq<char> {
    let kept = kept_from(rows, failed_only, 0);
    let total = kept.len();
    let shown = if total > n {
        kept.skip(total - n)
    } else {
        kept
    };
    if shown.len() == 0 {
        "(no entries in "@ + path + (if failed_only {
            " (failed_only filter; use without to see all)"@
        } else {
            Seq::empty()
        }) + ")\n"@
    } else {
        "─ peek_log ─ showing "@ + decimal(shown.len()) + " of "@ + decimal(total) + " row(s)"@ + (if failed_only {
            " (failed_only)"@
        } else {
            Seq::empty()
        }) + (if total > shown.len() {
            " (file has more)"@
        } else {
            Seq::empty()
        }) + "\n"@ + runs_text(shown, 0)
    }
}

fn run_head_chars(r: &RunRow) -> (v: Vec<char>)
    ensures
        v@ == run_head(*r),
{
    let mut v = chars_of("  ");
    if r.success == Some(true) {
        extend_str(&mut v, "ok ");
    } else {
        extend_str(&mut v, "ERR");
    }
    extend_str(&mut v, " [");
    let ts = format_ts(r.ts);
    assert(ts@ == ts_column(r.ts)) by {
        reveal(ts_column);
    }
    extend_str(&mut v, ts.as_str());
    extend_str(&mut v, "] ");
    push_padded_right(&mut v, &chars_of(r.mode.as_str()), 13);
    extend_str(&mut v, " ");
    push_decimal(&mut v, r.total_ms);
    extend_str(&mut v, "ms r=");
    push_decimal(&mut v, r.rounds);
    extend_str(&mut v, " tc=");
    push_decimal(&mut v, r.tool_calls);
    extend_str(&mut v, " ");
    extend_str(&mut v, r.rate.as_str());
    extend_str(&mut v, "\n");
    v
}

fn run_tail_chars(r: &RunRow) -> (v: Vec<char>)
    ensures
        v@ == run_tail(*r),
{
    let mut v = chars_of("       \"");
    extend_chars(&mut v, &take_chars(&chars_of(r.prompt.as_str()), 60));
    extend_str(&mut v, "\"\n");
    match &r.error {
        Some(e) => {
            let ec = chars_of(e.as_str());
            if ec.len() > 0 {
                extend_str(&mut v, "       err: ");
                extend_chars(&mut v, &take_chars(&ec, 120));
                extend_str(&mut v, "\n");
            }
        },
        None => {},
    }
    v
}

fn push_run(out: &mut Vec<char>, r: &RunRow)
    ensures
        final(out)@ == old(out)@ + run_lines(*r),
{
    let h = run_head_chars(r);
    let t = run_tail_chars(r);
    extend_chars(out, &h);
    extend_chars(out, &t);
    assert(out@ =~= old(out)@ + run_lines(*r));
}

/// The viewer's output for the logged `rows` of the file at `path`,
/// showing the last `n` runs kept by the `failed_only` filter.
pub fn peek_report(rows: &[RunRow], n: usize, failed_only: bool, path: &str) -> (r: String)
    ensures
        r@ == peek_spec(rows@, n as nat, failed_only, path@),
{
    let mut kept: Vec<&RunRow> = Vec::new();
    let mut i: usize = 0;
    let ghost kv = kept_from(rows@, failed_only, 0);
    assert(kept@.map_values(|x: &RunRow| *x) =~= Seq::<RunRow>::empty());
    while i < rows.len()
        invariant
            i <= rows@.len(),
            kv == kept_from(rows@, failed_only, 0),
            kept@.map_values(|x: &RunRow| *x) + kept_from(rows@, failed_only, i as nat) == kv,
        decreases rows@.len() - i,
    {
        let ghost prev = kept@.map_values(|x: &RunRow| *x);
        if !failed_only || rows[i].success == Some(false) {
            kept.push(&rows[i]);
            assert(kept@.map_values(|x: &RunRow| *x) =~= prev.push(rows@[i as int]));
            assert(prev + kept_from(rows@, failed_only, i as nat) =~= kept@.map_values(|x: &RunRow| *x) + kept_from(rows@, failed_only, (i + 1) as nat));
        } else {
            assert(kept_from(rows@, failed_only, i as nat) =~= kept_from(rows@, failed_only, (i + 1) as nat));
        }
        i += 1;
    }
    assert(kept@.map_values(|x: &RunRow| *x) =~= kv);
    let total = kept.len();
    let start = if total > n {
        total - n
    } else {
        0
    };
    let ghost shown = kv.skip(start as int);
    assert(shown =~= if total as nat > n as nat { kv.skip(total - n) } else { kv });
    if start == total {
        let mut v = chars_of("(no entries in ");
        extend_str(&mut v, path);
        if failed_only {
            extend_str(&mut v, " (failed_only filter; use without to see all)");
        }
        extend_str(&mut v, ")\n");
        return string_of(&v);
    }
    let mut v = chars_of("─ peek_log ─ showing ");
    push_decimal(&mut v, (total - start) as u64);
    extend_str(&mut v, " of ");
    push_decimal(&mut v, total as u64);
    extend_str(&mut v, " row(s)");
    if failed_only {
        extend_str(&mut v, " (failed_only)");
    }
    if start > 0 {
        extend_str(&mut v, " (file has more)");
    }
    extend_str(&mut v, "\n");
    let ghost head = v@;
    let mut k: usize = start;
    assert(head + runs_text(shown, 0) =~= v@ + runs_text(shown, 0));
    while k < total
        invariant
            start <= k <= total,
            total == kept@.len(),
            kept@.map_values(|x: &RunRow| *x) == kv,
            shown == kv.skip(start as int),
            v@ + runs_text(shown, (k - start) as nat) == head + runs_text(shown, 0),
        decreases total - k,
    {
        let ghost before = v@;
        push_run(&mut v, kept[k]);
        assert(shown[(k - start) as int] == kv[k as int]);
        assert(kept@.map_values(|x: &RunRow| *x)[k as int] == *kept@[k as int]);
        assert(before + runs_text(shown, (k - start) as nat) =~= v@ + runs_text(shown, (k + 1 - start) as nat));
        k += 1;
    }
    assert(v@ + Seq::<char>::empty() =~= v@);
    string_of(&v)
}

} // verus!
