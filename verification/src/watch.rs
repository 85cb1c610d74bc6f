//! The change report of the watch view: after an agent run, which files
//! were added, modified or removed, with a short line diff of the first
//! few modified files.

use vstd::prelude::*;
use crate::text::{chars_of, extend_str, string_of, take_chars, trim_end, trim_end_chars, extend_chars, decimal, decimal_chars, pad_left, push_decimal, push_padded_left, lines_of};
use crate::diff::{line_diff, line_diff_spec, sviews};
use crate::schema::opt_view;

verus! {

/// The extensions of the files whose content is kept for line diffs.
pub open spec fn diff_extensions_spec() -> Seq<Seq<char>> {
    seq![
        "py"@, "js"@, "mjs"@, "ts"@, "tsx"@, "rs"@, "html"@, "css"@, "json"@, "md"@, "txt"@, "go"@,
        "java"@,
    ]
}

/// The extensions of the files whose content is kept for line diffs.
pub fn diff_extensions() -> (r: Vec<&'static str>)
    ensures
        r@.map_values(|s: &str| s@) == diff_extensions_spec(),
{
    let r = vec![
        "py", "js", "mjs", "ts", "tsx", "rs", "html", "css", "json", "md", "txt", "go", "java",
    ];
    assert(r@.map_values(|s: &str| s@) =~= diff_extensions_spec());
    r
}

/// A listed line without trailing white space, cut to `max` characters
/// with a dim ellipsis when longer.
pub open spec fn truncate_line_spec(s: Seq<char>, max: nat) -> Seq<char> {
    let t = trim_end(s);
    if t.len() <= max {
        t
    } else {
        t.take(max as int) + "\x1b[2m…\x1b[0m"@
    }
}

/// Shortens a listed line to `max` characters.
pub fn truncate_line(s: &str, max: usize) -> (r: String)
    ensures
        r@ == truncate_line_spec(s@, max as nat),
{
    let c = chars_of(s);
    let t = trim_end_chars(&c);
    if t.len() <= max {
        return string_of(&t);
    }
    let mut out = take_chars(&t, max);
    extend_str(&mut out, "\x1b[2m…\x1b[0m");
    string_of(&out)
}

/// What the report knows of a file: size, modification time, its first
/// bytes and, for a text file small enough, its content.
#[derive(Debug, Clone)]
pub struct FileSnap {
    pub size: u64,
    pub mtime: u64,
    pub head: [u8; 8],
    pub content: Option<String>,
}

/// Two snapshots of a file tell no change.
pub open spec fn snap_same(a: FileSnap, b: FileSnap) -> bool {
    &&& a.size == b.size
    &&& a.mtime == b.mtime
    &&& a.head@ == b.head@
    &&& opt_view(a.content) == opt_view(b.content)
}

/// Snapshots whose figures the report can print: sizes within `i64` and
/// contents whose line numbers fit in `usize`.
pub open spec fn snaps_fit(s: Seq<(String, FileSnap)>) -> bool {
    forall|i: int|
        0 <= i < s.len() ==> #[trigger] s[i].1.size <= i64::MAX && (s[i].1.content matches Some(c) ==> c@.len()
            + 32 <= usize::MAX)
}

/// Index of the first entry at or after `i` for `key`.
pub open spec fn key_at(s: Seq<(String, FileSnap)>, key: Seq<char>, i: nat) -> Option<nat>
    decreases s.len() - i,
{
    if i >= s.len() {
        None
    } else if s[i as int].0@ == key {
        Some(i)
    } else {
        key_at(s, key, i + 1)
    }
}

/// The files of `after` (from entry `i` on) that `before` lacks, with their sizes.
pub open spec fn added_from(before: Seq<(String, FileSnap)>, after: Seq<(String, FileSnap)>, i: nat) -> Seq<(Seq<char>, u64)>
    decreases after.len() - i,
{
    if i >= after.len() {
        Seq::empty()
    } else {
        (if key_at(before, after[i as int].0@, 0) is None {
            seq![(after[i as int].0@, after[i as int].1.size)]
        } else {
            Seq::empty()
        }) + added_from(before, after, i + 1)
    }
}

/// The files of `before` (from entry `i` on) that `after` lacks.
pub open spec fn removed_from(before: Seq<(String, FileSnap)>, after: Seq<(String, FileSnap)>, i: nat) -> Seq<Seq<char>>
    decreases before.len() - i,
{
    if i >= before.len() {
        Seq::empty()
    } else {
        (if key_at(after, before[i as int].0@, 0) is None {
            seq![before[i as int].0@]
        } else {
            Seq::empty()
        }) + removed_from(before, after, i + 1)
    }
}

/// The files of `before` (from entry `i` on) whose snapshot changed, with
/// both snapshots.
pub open spec fn modified_from(before: Seq<(String, FileSnap)>, after: Seq<(String, FileSnap)>, i: nat) -> Seq<(Seq<char>, FileSnap, FileSnap)>
    decreases before.len() - i,
{
    if i >= before.len() {
        Seq::empty()
    } else {
        (match key_at(after, before[i as int].0@, 0) {
            Some(j) => if !snap_same(before[i as int].1, after[j as int].1) {
                seq![(before[i as int].0@, before[i as int].1, after[j as int].1)]
            } else {
                Seq::empty()
            },
            None => Seq::empty(),
        }) + modified_from(before, after, i + 1)
    }
}

/// A signed number with its sign: `+3`, `+0`, `-2`.
pub open spec fn signed_text(d: int) -> Seq<char> {
    if d >= 0 {
        "+"@ + decimal(d as nat)
    } else {
        "-"@ + decimal((-d) as nat)
    }
}

/// Files expanded into a line diff; the rest get a one-line summary.
pub const EXPAND_FILE_CAP: usize = 5;

/// Changed lines shown per expanded file.
pub const LINES_PER_FILE: usize = 20;

/// The first `n` changed lines, numbered from `anchor + 1`.
pub open spec fn change_rows(color: Seq<char>, sign: Seq<char>, anchor: nat, ls: Seq<Seq<char>>, n: nat) -> Seq<Seq<char>> {
    Seq::new(
        if n < ls.len() {
            n
        } else {
            ls.len()
        },
        |i: int|
            "    "@ + color + sign + " "@ + pad_left(decimal((anchor + 1 + i) as nat), 4) + "\x1b[0m  "@
                + truncate_line_spec(ls[i], 110),
    )
}

/// The note for changed lines left out.
pub open spec fn more_row(n: nat, what: Seq<char>) -> Seq<char> {
    "    \x1b[2m       ... +"@ + decimal(n) + " more "@ + what + "\x1b[0m"@
}

/// The changed lines shown of `r` removed and `a` added ones: at most
/// `LINES_PER_FILE`, shared in proportion (rounded) between the two.
pub open spec fn removed_share(r: nat, a: nat) -> nat {
    let t = r + a;
    let cap: nat = if t < LINES_PER_FILE {
        t
    } else {
        LINES_PER_FILE as nat
    };
    if t == 0 {
        0
    } else {
        (cap * r + t / 2) / t
    }
}

/// The added lines shown.
pub open spec fn added_share(r: nat, a: nat) -> nat {
    let t = r + a;
    let cap: nat = if t < LINES_PER_FILE {
        t
    } else {
        LINES_PER_FILE as nat
    };
    if cap >= removed_share(r, a) {
        (cap - removed_share(r, a)) as nat
    } else {
        0
    }
}

/// The first columns of a modified-file row: marker, new size, size change.
pub open spec fn modified_head(b: FileSnap, a: FileSnap) -> Seq<char> {
    "  \x1b[0;33mM\x1b[0m  "@ + pad_left(decimal(a.size as nat), 7) + " b  "@ + pad_left(signed_text(a.size - b.size), 5)
        + " b  "@
}

/// The rows for modified file number `idx` (from 0), at `path`: the first
/// `EXPAND_FILE_CAP` files with both contents get their line diff, the
/// others one summary row.
pub open spec fn modified_rows(idx: nat, path: Seq<char>, b: FileSnap, a: FileSnap) -> Seq<Seq<char>> {
    if idx < EXPAND_FILE_CAP && b.content is Some && a.content is Some {
        let (rem, add, anchor) = line_diff_spec(lines_of(b.content->0@), lines_of(a.content->0@));
        let head = modified_head(b, a) + "net "@ + signed_text(add.len() - rem.len()) + " lines  @L"@ + decimal(
            anchor + 1,
        ) + "  "@ + path;
        if rem.len() + add.len() == 0 {
            seq![head]
        } else {
            let rs = removed_share(rem.len(), add.len());
            let ad = added_share(rem.len(), add.len());
            seq![head] + change_rows("\x1b[0;31m"@, "-"@, anchor, rem, rs) + (if rem.len() > rs {
                seq![more_row((rem.len() - rs) as nat, "removed"@)]
            } else {
                Seq::empty()
            }) + change_rows("\x1b[0;32m"@, "+"@, anchor, add, ad) + (if add.len() > ad {
                seq![more_row((add.len() - ad) as nat, "added"@)]
            } else {
                Seq::empty()
            })
        }
    } else {
        seq![
            modified_head(b, a) + path + if idx >= EXPAND_FILE_CAP {
                "  (collapsed)"@
            } else {
                "  (no content snapshot)"@
            },
        ]
    }
}

/// The rows of the modified files from number `i` on.
pub open spec fn modified_block(md: Seq<(Seq<char>, FileSnap, FileSnap)>, i: nat) -> Seq<Seq<char>>
    decreases md.len() - i,
{
    if i >= md.len() {
        Seq::empty()
    } else {
        modified_rows(i, md[i as int].0, md[i as int].1, md[i as int].2) + modified_block(md, i + 1)
    }
}

/// The row of an added file.
pub open spec fn added_row(path: Seq<char>, size: u64) -> Seq<char> {
    "  \x1b[0;32mA\x1b[0m  "@ + pad_left(decimal(size as nat), 7) + " b  "@ + path
}

/// The row of a removed file.
pub open spec fn removed_row(path: Seq<char>) -> Seq<char> {
    "  \x1b[0;31mD\x1b[0m            "@ + path
}

/// The change report between two snapshots of a tree, one row per line:
/// a summary, then the added, modified and removed files.
pub open spec fn report_spec(before: Seq<(String, FileSnap)>, after: Seq<(String, FileSnap)>) -> Seq<Seq<char>> {
    let ad = added_from(before, after, 0);
    let md = modified_from(before, after, 0);
    let rm = removed_from(before, after, 0);
    if ad.len() == 0 && md.len() == 0 && rm.len() == 0 {
        seq!["\n\x1b[2m─ diff ─ no file changes\x1b[0m"@]
    } else {
        seq![
            "\n\x1b[2m─ diff ─ "@ + decimal(ad.len()) + " added, "@ + decimal(md.len()) + " modified, "@ + decimal(
                rm.len(),
            ) + " removed\x1b[0m"@,
        ] + ad.map_values(|e: (Seq<char>, u64)| added_row(e.0, e.1)) + modified_block(md, 0) + rm.map_values(
            |p: Seq<char>| removed_row(p),
        )
    }
}

fn find_key(s: &[(String, FileSnap)], key: &String) -> (r: Option<usize>)
    ensures
        match r {
            Some(j) => j < s.len() && key_at(s@, key@, 0) == Some(j as nat),
            None => key_at(s@, key@, 0) is None,
        },
{
    let mut i: usize = 0;
    while i < s.len()
        invariant
            i <= s.len(),
            key_at(s@, key@, 0) == key_at(s@, key@, i as nat),
        decreases s.len() - i,
    {
        if s[i].0 == *key {
            return Some(i);
        }
        i += 1;
    }
    None
}

fn same_snap(a: &FileSnap, b: &FileSnap) -> (r: bool)
    ensures
        r == snap_same(*a, *b),
{
    if a.size != b.size || a.mtime != b.mtime {
        return false;
    }
    let mut k: usize = 0;
    while k < 8
        invariant
            k <= 8,
            a.head@.len() == 8,
            b.head@.len() == 8,
            forall|j: int| 0 <= j < k ==> a.head@[j] == b.head@[j],
        decreases 8 - k,
    {
        if a.head[k] != b.head[k] {
            assert(a.head@[k as int] != b.head@[k as int]);
            return false;
        }
        k += 1;
    }
    assert(a.head@ =~= b.head@);
    match (&a.content, &b.content) {
        (Some(x), Some(y)) => *x == *y,
        (None, None) => true,
        _ => false,
    }
}

/// Added files as the contracts see them, from their positions.
spec fn added_view(after: Seq<(String, FileSnap)>, ids: Seq<usize>) -> Seq<(Seq<char>, u64)> {
    ids.map_values(|j: usize| (after[j as int].0@, after[j as int].1.size))
}

/// Removed files as the contracts see them, from their positions.
spec fn removed_view(before: Seq<(String, FileSnap)>, ids: Seq<usize>) -> Seq<Seq<char>> {
    ids.map_values(|j: usize| before[j as int].0@)
}

/// Modified files as the contracts see them, from their positions.
spec fn modified_view(before: Seq<(String, FileSnap)>, after: Seq<(String, FileSnap)>, ids: Seq<(usize, usize)>) -> Seq<(Seq<char>, FileSnap, FileSnap)> {
    ids.map_values(|p: (usize, usize)| (before[p.0 as int].0@, before[p.0 as int].1, after[p.1 as int].1))
}

fn added_files(before: &[(String, FileSnap)], after: &[(String, FileSnap)]) -> (r: Vec<usize>)
    ensures
        added_view(after@, r@) == added_from(before@, after@, 0),
        forall|k: int| 0 <= k < r@.len() ==> #[trigger] r@[k] < after@.len(),
{
    let mut out: Vec<usize> = Vec::new();
    let mut i: usize = 0;
    assert(added_view(after@, out@) =~= Seq::<(Seq<char>, u64)>::empty());
    while i < after.len()
        invariant
            i <= after@.len(),
            added_view(after@, out@) + added_from(before@, after@, i as nat) == added_from(before@, after@, 0),
            forall|k: int| 0 <= k < out@.len() ==> #[trigger] out@[k] < after@.len(),
        decreases after@.len() - i,
    {
        let ghost prev = added_view(after@, out@);
        let ghost rest = added_from(before@, after@, (i + 1) as nat);
        match find_key(before, &after[i].0) {
            None => {
                out.push(i);
                assert(added_view(after@, out@) =~= prev.push((after@[i as int].0@, after@[i as int].1.size)));
                assert(prev + added_from(before@, after@, i as nat) =~= added_view(after@, out@) + rest);
            },
            Some(_) => {
                assert(added_from(before@, after@, i as nat) =~= rest);
            },
        }
        i += 1;
    }
    assert(added_view(after@, out@) + Seq::<(Seq<char>, u64)>::empty() =~= added_view(after@, out@));
    out
}

fn removed_files(before: &[(String, FileSnap)], after: &[(String, FileSnap)]) -> (r: Vec<usize>)
    ensures
        removed_view(before@, r@) == removed_from(before@, after@, 0),
        forall|k: int| 0 <= k < r@.len() ==> #[trigger] r@[k] < before@.len(),
{
    let mut out: Vec<usize> = Vec::new();
    let mut i: usize = 0;
    assert(removed_view(before@, out@) =~= Seq::<Seq<char>>::empty());
    while i < before.len()
        invariant
            i <= before@.len(),
            removed_view(before@, out@) + removed_from(before@, after@, i as nat) == removed_from(before@, after@, 0),
            forall|k: int| 0 <= k < out@.len() ==> #[trigger] out@[k] < before@.len(),
        decreases before@.len() - i,
    {
        let ghost prev = removed_view(before@, out@);
        let ghost rest = removed_from(before@, after@, (i + 1) as nat);
        match find_key(after, &before[i].0) {
            None => {
                out.push(i);
                assert(removed_view(before@, out@) =~= prev.push(before@[i as int].0@));
                assert(prev + removed_from(before@, after@, i as nat) =~= removed_view(before@, out@) + rest);
            },
            Some(_) => {
                assert(removed_from(before@, after@, i as nat) =~= rest);
            },
        }
        i += 1;
    }
    assert(removed_view(before@, out@) + Seq::<Seq<char>>::empty() =~= removed_view(before@, out@));
    out
}

fn modified_files(before: &[(String, FileSnap)], after: &[(String, FileSnap)]) -> (r: Vec<(usize, usize)>)
    ensures
        modified_view(before@, after@, r@) == modified_from(before@, after@, 0),
        forall|k: int| 0 <= k < r@.len() ==> (#[trigger] r@[k]).0 < before@.len() && r@[k].1 < after@.len(),
{
    let mut out: Vec<(usize, usize)> = Vec::new();
    let mut i: usize = 0;
    assert(modified_view(before@, after@, out@) =~= Seq::<(Seq<char>, FileSnap, FileSnap)>::empty());
    while i < before.len()
        invariant
            i <= before@.len(),
            modified_view(before@, after@, out@) + modified_from(before@, after@, i as nat) == modified_from(before@, after@, 0),
            forall|k: int| 0 <= k < out@.len() ==> (#[trigger] out@[k]).0 < before@.len() && out@[k].1 < after@.len(),
        decreases before@.len() - i,
    {
        let ghost prev = modified_view(before@, after@, out@);
        let ghost rest = modified_from(before@, after@, (i + 1) as nat);
        match find_key(after, &before[i].0) {
            Some(j) => {
                if !same_snap(&before[i].1, &after[j].1) {
                    out.push((i, j));
                    assert(modified_view(before@, after@, out@) =~= prev.push((before@[i as int].0@, before@[i as int].1, after@[j as int].1)));
                    assert(prev + modified_from(before@, after@, i as nat) =~= modified_view(before@, after@, out@) + rest);
                } else {
                    assert(modified_from(before@, after@, i as nat) =~= rest);
                }
            },
            None => {
                assert(modified_from(before@, after@, i as nat) =~= rest);
            },
        }
        i += 1;
    }
    assert(modified_view(before@, after@, out@) + Seq::<(Seq<char>, FileSnap, FileSnap)>::empty() =~= modified_view(before@, after@, out@));
    out
}

fn signed_chars(d: i128) -> (r: Vec<char>)
    requires
        -(u64::MAX as int) <= d <= u64::MAX,
    ensures
        r@ == signed_text(d as int),
{
    if d >= 0 {
        let mut v = chars_of("+");
        push_decimal(&mut v, d as u64);
        v
    } else {
        let mut v = chars_of("-");
        push_decimal(&mut v, (-d) as u64);
        v
    }
}

fn shares(r: usize, a: usize) -> (s: (usize, usize))
    ensures
        s.0 as nat == removed_share(r as nat, a as nat),
        s.1 as nat == added_share(r as nat, a as nat),
        s.0 <= r,
        s.0 <= LINES_PER_FILE,
        s.1 <= LINES_PER_FILE,
{
    let t: u128 = r as u128 + a as u128;
    let cap: u128 = if t < 20 {
        t
    } else {
        20
    };
    if t == 0 {
        return (0, 0);
    }
    let rr = r as u128;
    assert(cap * rr <= 20 * 0xffff_ffff_ffff_ffffu128) by (nonlinear_arith)
        requires
            cap <= 20,
            rr <= 0xffff_ffff_ffff_ffffu128,
    ;
    let x = cap * rr + t / 2;
    let q = x / t;
    assert(q <= rr) by (nonlinear_arith)
        requires
            cap <= t,
            t > 0,
            x == cap * rr + t / 2,
            q == x / t,
    {
        assert(cap * rr <= t * rr);
        assert(x < t * (rr + 1));
        if q > rr {
            assert(q * t >= (rr + 1) * t);
            assert(q * t <= x);
        }
    }
    assert(q <= cap) by (nonlinear_arith)
        requires
            rr <= t,
            t > 0,
            x == cap * rr + t / 2,
            q == x / t,
    {
        assert(cap * rr <= cap * t);
        assert(x < t * (cap + 1));
        if q > cap {
            assert(q * t >= (cap + 1) * t);
            assert(q * t <= x);
        }
    }
    let rs = q as usize;
    let ad = if cap >= q {
        (cap - q) as usize
    } else {
        0
    };
    (rs, ad)
}

fn push_change_rows(out: &mut Vec<String>, color: &str, sign: &str, anchor: usize, ls: &Vec<String>, n: usize)
    requires
        anchor + 1 + n <= usize::MAX,
    ensures
        sviews(final(out)@) == sviews(old(out)@) + change_rows(color@, sign@, anchor as nat, sviews(ls@), n as nat),
{
    let ghost lv = sviews(ls@);
    let m = if n < ls.len() {
        n
    } else {
        ls.len()
    };
    let ghost start = sviews(out@);
    let mut i: usize = 0;
    while i < m
        invariant
            i <= m,
            m <= n,
            m <= ls@.len(),
            m == (if n < lv.len() { n as nat } else { lv.len() }),
            lv == sviews(ls@),
            anchor + 1 + n <= usize::MAX,
            sviews(out@) == start + change_rows(color@, sign@, anchor as nat, lv, n as nat).take(i as int),
        decreases m - i,
    {
        let mut v = chars_of("    ");
        extend_str(&mut v, color);
        extend_str(&mut v, sign);
        extend_str(&mut v, " ");
        let num = decimal_chars((anchor + 1 + i) as u64);
        push_padded_left(&mut v, &num, 4);
        extend_str(&mut v, "\x1b[0m  ");
        let t = truncate_line(ls[i].as_str(), 110);
        extend_str(&mut v, t.as_str());
        let line = string_of(&v);
        assert(lv[i as int] == ls@[i as int]@);
        assert(line@ == change_rows(color@, sign@, anchor as nat, lv, n as nat)[i as int]);
        let ghost prev = sviews(out@);
        out.push(line);
        assert(sviews(out@) =~= prev.push(line@));
        assert(change_rows(color@, sign@, anchor as nat, lv, n as nat).take(i + 1) =~= change_rows(color@, sign@, anchor as nat, lv, n as nat).take(i as int).push(line@));
        i += 1;
    }
    assert(change_rows(color@, sign@, anchor as nat, lv, n as nat).take(m as int) =~= change_rows(color@, sign@, anchor as nat, lv, n as nat));
}

fn more_line(n: usize, what: &str) -> (r: String)
    ensures
        r@ == more_row(n as nat, what@),
{
    let mut v = chars_of("    \x1b[2m       ... +");
    push_decimal(&mut v, n as u64);
    extend_str(&mut v, " more ");
    extend_str(&mut v, what);
    extend_str(&mut v, "\x1b[0m");
    string_of(&v)
}

fn modified_head_chars(b: &FileSnap, a: &FileSnap) -> (r: Vec<char>)
    requires
        b.size <= i64::MAX,
        a.size <= i64::MAX,
    ensures
        r@ == modified_head(*b, *a),
{
    let mut head = chars_of("  \x1b[0;33mM\x1b[0m  ");
    push_padded_left(&mut head, &decimal_chars(a.size), 7);
    extend_str(&mut head, " b  ");
    let d: i128 = a.size as i128 - b.size as i128;
    push_padded_left(&mut head, &signed_chars(d), 5);
    extend_str(&mut head, " b  ");
    head
}

fn modified_rows_exec(idx: usize, path: &String, b: &FileSnap, a: &FileSnap) -> (r: Vec<String>)
    requires
        b.size <= i64::MAX,
        a.size <= i64::MAX,
        b.content matches Some(c) ==> c@.len() + 32 <= usize::MAX,
    ensures
        sviews(r@) == modified_rows(idx as nat, path@, *b, *a),
{
    let mut head = modified_head_chars(b, a);
    match (&b.content, &a.content) {
        (Some(bc), Some(ac)) if idx < EXPAND_FILE_CAP => {
            let (removed, added, anchor) = line_diff(bc.as_str(), ac.as_str());
            proof {
                crate::text::lemma_lines_len(bc@, Seq::empty());
            }
            extend_str(&mut head, "net ");
            extend_chars(&mut head, &signed_chars(added.len() as i128 - removed.len() as i128));
            extend_str(&mut head, " lines  @L");
            push_decimal(&mut head, anchor as u64 + 1);
            extend_str(&mut head, "  ");
            extend_str(&mut head, path.as_str());
            let mut out: Vec<String> = Vec::new();
            out.push(string_of(&head));
            let ghost h = head@;
            assert(sviews(out@) =~= seq![h]);
            if removed.len() == 0 && added.len() == 0 {
                return out;
            }
            let (rs, ads) = shares(removed.len(), added.len());
            push_change_rows(&mut out, "\x1b[0;31m", "-", anchor, &removed, rs);
            if removed.len() > rs {
                let ghost prev = sviews(out@);
                out.push(more_line(removed.len() - rs, "removed"));
                assert(sviews(out@) =~= prev.push(more_row((removed.len() - rs) as nat, "removed"@)));
            }
            push_change_rows(&mut out, "\x1b[0;32m", "+", anchor, &added, ads);
            if added.len() > ads {
                let ghost prev = sviews(out@);
                out.push(more_line(added.len() - ads, "added"));
                assert(sviews(out@) =~= prev.push(more_row((added.len() - ads) as nat, "added"@)));
            }
            proof {
                let rem = sviews(removed@);
                let add = sviews(added@);
                let sp = modified_rows(idx as nat, path@, *b, *a);
                assert(rem.len() == removed@.len());
                assert(add.len() == added@.len());
                assert(sviews(out@) =~= sp);
            }
            out
        },
        _ => {
            extend_str(&mut head, path.as_str());
            if idx >= EXPAND_FILE_CAP {
                extend_str(&mut head, "  (collapsed)");
            } else {
                extend_str(&mut head, "  (no content snapshot)");
            }
            let mut out: Vec<String> = Vec::new();
            out.push(string_of(&head));
            assert(sviews(out@) =~= modified_rows(idx as nat, path@, *b, *a));
            out
        },
    }
}

/// The change report between two snapshots of a tree: each entry is a
/// file's displayed path and its snapshot, in the order the rows should
/// list them. Returns the rows to print.
pub fn diff_report(before: &[(String, FileSnap)], after: &[(String, FileSnap)]) -> (r: Vec<String>)
    requires
        snaps_fit(before@),
        snaps_fit(after@),
    ensures
        sviews(r@) == report_spec(before@, after@),
{
    let ad = added_files(before, after);
    let md = modified_files(before, after);
    let rm = removed_files(before, after);
    let ghost adv = added_from(before@, after@, 0);
    let ghost mdv = modified_from(before@, after@, 0);
    let ghost rmv = removed_from(before@, after@, 0);
    let mut out: Vec<String> = Vec::new();
    if ad.len() == 0 && md.len() == 0 && rm.len() == 0 {
        out.push("\n\x1b[2m─ diff ─ no file changes\x1b[0m".to_owned());
        assert(sviews(out@) =~= report_spec(before@, after@));
        return out;
    }
    let mut h = chars_of("\n\x1b[2m─ diff ─ ");
    push_decimal(&mut h, ad.len() as u64);
    extend_str(&mut h, " added, ");
    push_decimal(&mut h, md.len() as u64);
    extend_str(&mut h, " modified, ");
    push_decimal(&mut h, rm.len() as u64);
    extend_str(&mut h, " removed\x1b[0m");
    out.push(string_of(&h));
    let ghost head = sviews(out@);
    let ghost arows = adv.map_values(|e: (Seq<char>, u64)| added_row(e.0, e.1));
    let mut k: usize = 0;
    while k < ad.len()
        invariant
            k <= ad@.len(),
            added_view(after@, ad@) == adv,
            forall|j: int| 0 <= j < ad@.len() ==> #[trigger] ad@[j] < after@.len(),
            arows == adv.map_values(|e: (Seq<char>, u64)| added_row(e.0, e.1)),
            sviews(out@) == head + arows.take(k as int),
        decreases ad@.len() - k,
    {
        let j = ad[k];
        let mut v = chars_of("  \x1b[0;32mA\x1b[0m  ");
        push_padded_left(&mut v, &decimal_chars(after[j].1.size), 7);
        extend_str(&mut v, " b  ");
        extend_str(&mut v, after[j].0.as_str());
        let line = string_of(&v);
        assert(adv[k as int] == (after@[j as int].0@, after@[j as int].1.size));
        assert(line@ == arows[k as int]);
        let ghost prev = sviews(out@);
        out.push(line);
        assert(sviews(out@) =~= prev.push(line@));
        assert(arows.take(k + 1) =~= arows.take(k as int).push(line@));
        k += 1;
    }
    assert(arows.take(ad@.len() as int) =~= arows);
    let ghost upto_added = sviews(out@);
    let mut k: usize = 0;
    assert(upto_added + modified_block(mdv, 0) =~= sviews(out@) + modified_block(mdv, 0));
    while k < md.len()
        invariant
            k <= md@.len(),
            modified_view(before@, after@, md@) == mdv,
            forall|j: int| 0 <= j < md@.len() ==> (#[trigger] md@[j]).0 < before@.len() && md@[j].1 < after@.len(),
            snaps_fit(before@),
            snaps_fit(after@),
            sviews(out@) + modified_block(mdv, k as nat) == upto_added + modified_block(mdv, 0),
        decreases md@.len() - k,
    {
        let (bi, ai) = md[k];
        assert(mdv[k as int] == (before@[bi as int].0@, before@[bi as int].1, after@[ai as int].1));
        assert(before@[bi as int].1.size <= i64::MAX);
        assert(after@[ai as int].1.size <= i64::MAX);
        let mut rows = modified_rows_exec(k, &before[bi].0, &before[bi].1, &after[ai].1);
        let ghost prev = sviews(out@);
        let ghost rv = sviews(rows@);
        out.append(&mut rows);
        assert(sviews(out@) =~= prev + rv);
        assert(prev + modified_block(mdv, k as nat) =~= sviews(out@) + modified_block(mdv, (k + 1) as nat));
        k += 1;
    }
    assert(sviews(out@) + Seq::<Seq<char>>::empty() =~= sviews(out@));
    let ghost upto_modified = sviews(out@);
    let ghost rrows = rmv.map_values(|p: Seq<char>| removed_row(p));
    let mut k: usize = 0;
    assert(rrows.take(0) =~= Seq::<Seq<char>>::empty());
    assert(upto_modified + rrows.take(0) =~= upto_modified);
    while k < rm.len()
        invariant
            k <= rm@.len(),
            removed_view(before@, rm@) == rmv,
            forall|j: int| 0 <= j < rm@.len() ==> #[trigger] rm@[j] < before@.len(),
            rrows == rmv.map_values(|p: Seq<char>| removed_row(p)),
            sviews(out@) == upto_modified + rrows.take(k as int),
        decreases rm@.len() - k,
    {
        let j = rm[k];
        let mut v = chars_of("  \x1b[0;31mD\x1b[0m            ");
        extend_str(&mut v, before[j].0.as_str());
        let line = string_of(&v);
        assert(rmv[k as int] == before@[j as int].0@);
        assert(line@ == rrows[k as int]);
        let ghost prev = sviews(out@);
        out.push(line);
        assert(sviews(out@) =~= prev.push(line@));
        assert(rrows.take(k + 1) =~= rrows.take(k as int).push(line@));
        k += 1;
    }
    assert(rrows.take(rm@.len() as int) =~= rrows);
    assert(sviews(out@) =~= report_spec(before@, after@));
    out
}

} // verus!
