//! The listings of the `tree` and `list` tools: which walked entries the
//! tree keeps, their totals and the indented listing sorted by path; the
//! one-directory listing sorted by kind and name.

use vstd::prelude::*;
use crate::text::{chars_of, contains_chars, contains_seq, decimal, extend_chars, extend_str, push_decimal, string_of, slice_to_vec};

verus! {

/// Depth used when the caller gives none.
pub const DEFAULT_DEPTH: usize = 2;

/// Entries listed at most.
pub const MAX_ENTRIES: usize = 500;

/// What a walked path is.
#[derive(Debug, Clone, Copy, PartialEq, Eq, Structural)]
pub enum EntryKind {
    Dir,
    Link,
    File,
}

/// One path the walk produced.
#[derive(Debug, Clone)]
pub struct WalkItem {
    /// The full path, checked against the skipped segments.
    pub path: String,
    /// Path components below the root (0 for the root itself).
    pub depth: usize,
    /// The path relative to the root.
    pub name: String,
    /// `None` when the file type could not be read.
    pub kind: Option<EntryKind>,
    /// Size in bytes (files only).
    pub size: u64,
}

/// A listed entry: depth, relative path, kind, size.
pub type Listed = (usize, Seq<char>, EntryKind, u64);

/// The depth to walk: the requested one (default 2), clamped to 1..=6.
pub fn tree_depth(requested: Option<usize>) -> (r: usize)
    ensures
        r == match requested {
            Some(n) => if n < 1 {
                1
            } else if n > 6 {
                6
            } else {
                n
            },
            None => DEFAULT_DEPTH,
        },
{
    match requested {
        Some(n) => if n < 1 {
            1
        } else if n > 6 {
            6
        } else {
            n
        },
        None => DEFAULT_DEPTH,
    }
}

/// The path lies under a build or dependency directory, never listed.
pub open spec fn skipped(path: Seq<char>) -> bool {
    ||| contains_seq(path, "/target/"@)
    ||| contains_seq(path, "/node_modules/"@)
    ||| contains_seq(path, "/dist/"@)
    ||| contains_seq(path, "/.next/"@)
    ||| contains_seq(path, "/.cache/"@)
    ||| contains_seq(path, "/build/"@)
    ||| contains_seq(path, "/.git/"@)
}

/// The totals and entries of a walk: `(files, dirs, bytes, entries,
/// truncated)` after the items `0..i`, walking at most `depth` deep.
pub struct WalkTally {
    pub files: nat,
    pub dirs: nat,
    pub bytes: nat,
    pub entries: Seq<Listed>,
    pub truncated: bool,
}

/// The tally after items `0..i` (the walk stops once it is truncated).
pub open spec fn tally(items: Seq<WalkItem>, depth: usize, i: nat) -> WalkTally
    decreases i,
{
    if i == 0 {
        WalkTally { files: 0, dirs: 0, bytes: 0, entries: Seq::empty(), truncated: false }
    } else {
        let t = tally(items, depth, (i - 1) as nat);
        let it = items[i - 1];
        if t.truncated || skipped(it.path@) || it.depth == 0 || it.depth > depth || it.kind is None {
            t
        } else {
            let k = it.kind->0;
            let t1 = WalkTally {
                files: if k == EntryKind::File { t.files + 1 } else { t.files },
                dirs: if k == EntryKind::Dir { t.dirs + 1 } else { t.dirs },
                bytes: if k == EntryKind::File { t.bytes + it.size as nat } else { t.bytes },
                ..t
            };
            if t.entries.len() >= MAX_ENTRIES {
                WalkTally { truncated: true, ..t1 }
            } else {
                WalkTally {
                    entries: t.entries.push((it.depth, it.name@, k, if k == EntryKind::File { it.size } else { 0 })),
                    ..t1
                }
            }
        }
    }
}

/// `a` sorts before or with `b`: lexicographic by character (the order
/// of `str`'s comparison, as UTF-8 keeps code-point order).
pub open spec fn name_le(a: Seq<char>, b: Seq<char>) -> bool
    decreases a.len(),
{
    if a.len() == 0 {
        true
    } else if b.len() == 0 {
        false
    } else if a[0] != b[0] {
        a[0] < b[0]
    } else {
        name_le(a.drop_first(), b.drop_first())
    }
}

/// `e` inserted into `s` before the first entry whose name sorts after it.
pub open spec fn insert_entry(s: Seq<Listed>, e: Listed, k: nat) -> Seq<Listed>
    decreases s.len() - k,
{
    if k >= s.len() {
        s.push(e)
    } else if !name_le(s[k as int].1, e.1) {
        s.insert(k as int, e)
    } else {
        insert_entry(s, e, k + 1)
    }
}

/// The first `n` entries sorted by name, equal names in their order (a
/// stable sort).
pub open spec fn sort_entries(s: Seq<Listed>, n: nat) -> Seq<Listed>
    decreases n,
{
    if n == 0 || n > s.len() {
        Seq::empty()
    } else {
        insert_entry(sort_entries(s, (n - 1) as nat), s[n - 1], 0)
    }
}

/// The part of a relative path after its last `/`.
pub open spec fn last_segment(s: Seq<char>) -> Seq<char>
    decreases s.len(),
{
    if s.len() == 0 {
        s
    } else if s.last() == '/' {
        Seq::empty()
    } else {
        last_segment(s.drop_last()).push(s.last())
    }
}

/// `n` copies of two spaces.
pub open spec fn indent(n: nat) -> Seq<char> {
    Seq::new(2 * n, |i: int| ' ')
}

/// The line of a listed entry.
pub open spec fn entry_line(e: Listed) -> Seq<char> {
    indent(e.0 as nat) + last_segment(e.1) + match e.2 {
        EntryKind::Dir => "/\n"@,
        EntryKind::Link => " -> link\n"@,
        EntryKind::File => "  ("@ + decimal(e.3 as nat) + " b)\n"@,
    }
}

/// The lines of the entries `i..`.
pub open spec fn entry_lines(s: Seq<Listed>, i: nat) -> Seq<char>
    decreases s.len() - i,
{
    if i >= s.len() {
        Seq::empty()
    } else {
        entry_line(s[i as int]) + entry_lines(s, i + 1)
    }
}

/// `true` or `false`.
pub open spec fn bool_text(b: bool) -> Seq<char> {
    if b {
        "true"@
    } else {
        "false"@
    }
}

/// The tree listing of a walk from `root` at most `depth` deep.
pub open spec fn listing_spec(root: Seq<char>, depth: usize, show_hidden: bool, items: Seq<WalkItem>) -> Seq<char> {
    let t = tally(items, depth, items.len());
    root + " (depth="@ + decimal(depth as nat) + ", hidden="@ + bool_text(show_hidden) + ")\n"@ + entry_lines(
        sort_entries(t.entries, t.entries.len()),
        0,
    ) + "\n("@ + decimal(t.files) + " files, "@ + decimal(t.dirs) + " dirs, "@ + decimal(t.bytes) + " b"@ + (if t.truncated {
        "; truncated at "@ + decimal(MAX_ENTRIES as nat)
    } else {
        Seq::empty()
    }) + ")\n"@
}

/// Sizes of the files among the first `n` items, an upper bound of the
/// bytes any tally counts.
pub open spec fn sizes_upto(items: Seq<WalkItem>, n: int) -> nat
    decreases n,
{
    if n <= 0 {
        0
    } else {
        sizes_upto(items, n - 1) + items[n - 1].size as nat
    }
}

proof fn lemma_tally_bounds(items: Seq<WalkItem>, depth: usize, i: nat)
    requires
        i <= items.len(),
    ensures
        tally(items, depth, i).bytes <= sizes_upto(items, i as int),
        tally(items, depth, i).files <= i,
        tally(items, depth, i).dirs <= i,
        tally(items, depth, i).entries.len() <= MAX_ENTRIES,
    decreases i,
{
    if i > 0 {
        lemma_tally_bounds(items, depth, (i - 1) as nat);
    }
}

proof fn lemma_sizes_mono(items: Seq<WalkItem>, i: int, j: int)
    requires
        i <= j,
    ensures
        sizes_upto(items, i) <= sizes_upto(items, j),
    decreases j - i,
{
    if i < j {
        lemma_sizes_mono(items, i, j - 1);
    }
}

fn is_skipped(path: &str) -> (r: bool)
    ensures
        r == skipped(path@),
{
    let p = chars_of(path);
    contains_chars(&p, &chars_of("/target/")) || contains_chars(&p, &chars_of("/node_modules/"))
        || contains_chars(&p, &chars_of("/dist/")) || contains_chars(&p, &chars_of("/.next/"))
        || contains_chars(&p, &chars_of("/.cache/")) || contains_chars(&p, &chars_of("/build/"))
        || contains_chars(&p, &chars_of("/.git/"))
}

fn name_le_exec(a: &[char], b: &[char]) -> (r: bool)
    ensures
        r == name_le(a@, b@),
{
    let mut i: usize = 0;
    assert(a@.skip(0) =~= a@);
    assert(b@.skip(0) =~= b@);
    while i < a.len() && i < b.len() && a[i] == b[i]
        invariant
            i <= a@.len(),
            i <= b@.len(),
            name_le(a@.skip(i as int), b@.skip(i as int)) == name_le(a@, b@),
        decreases a@.len() - i,
    {
        assert(a@.skip(i as int).drop_first() =~= a@.skip(i + 1));
        assert(b@.skip(i as int).drop_first() =~= b@.skip(i + 1));
        i += 1;
    }
    if i == a.len() {
        assert(a@.skip(i as int).len() == 0);
        true
    } else if i == b.len() {
        assert(b@.skip(i as int).len() == 0);
        false
    } else {
        assert(a@.skip(i as int)[0] == a@[i as int]);
        assert(b@.skip(i as int)[0] == b@[i as int]);
        a[i] < b[i]
    }
}

/// An entry as the contracts see it.
pub open spec fn entry_view(e: (usize, Vec<char>, EntryKind, u64)) -> Listed {
    (e.0, e.1@, e.2, e.3)
}

/// Entries as the contracts see them.
pub open spec fn entry_views(v: Seq<(usize, Vec<char>, EntryKind, u64)>) -> Seq<Listed> {
    v.map_values(|e: (usize, Vec<char>, EntryKind, u64)| entry_view(e))
}

fn insert_exec(sorted: &mut Vec<(usize, Vec<char>, EntryKind, u64)>, e: (usize, Vec<char>, EntryKind, u64))
    ensures
        entry_views(final(sorted)@) == insert_entry(entry_views(old(sorted)@), entry_view(e), 0),
{
    let ghost s0 = entry_views(sorted@);
    let mut k: usize = 0;
    while k < sorted.len() && name_le_exec(&sorted[k].1, &e.1)
        invariant
            k <= sorted@.len(),
            s0 == entry_views(sorted@),
            insert_entry(s0, entry_view(e), k as nat) == insert_entry(s0, entry_view(e), 0),
        decreases sorted@.len() - k,
    {
        assert(s0[k as int] == entry_view(sorted@[k as int]));
        k += 1;
    }
    let ghost ev = entry_view(e);
    if k < sorted.len() {
        assert(s0[k as int] == entry_view(sorted@[k as int]));
    }
    sorted.insert(k, e);
    assert(entry_views(sorted@) =~= if k as nat >= s0.len() {
        s0.push(ev)
    } else {
        s0.insert(k as int, ev)
    });
}

fn last_segment_exec(s: &[char]) -> (r: Vec<char>)
    ensures
        r@ == last_segment(s@),
{
    let mut k = s.len();
    assert(s@.take(k as int) =~= s@);
    assert(s@.skip(k as int) =~= Seq::<char>::empty());
    assert(last_segment(s@) =~= last_segment(s@.take(k as int)) + s@.skip(k as int));
    while k > 0 && s[k - 1] != '/'
        invariant
            k <= s@.len(),
            last_segment(s@) == last_segment(s@.take(k as int)) + s@.skip(k as int),
        decreases k,
    {
        let ghost t = s@.take(k as int);
        assert(t.drop_last() =~= s@.take(k - 1));
        assert(last_segment(t.drop_last()).push(t.last()) + s@.skip(k as int) =~= last_segment(s@.take(k - 1)) + s@.skip(k - 1));
        k -= 1;
    }
    assert(last_segment(s@.take(k as int)) =~= Seq::<char>::empty()) by {
        if k > 0 {
            assert(s@.take(k as int).last() == '/');
        }
    }
    let r = slice_to_vec(s, k, s.len());
    assert(r@ =~= last_segment(s@));
    r
}

fn push_entry_line(out: &mut Vec<char>, e: &(usize, Vec<char>, EntryKind, u64))
    ensures
        final(out)@ == old(out)@ + entry_line(entry_view(*e)),
{
    let ghost start = out@;
    let mut i: usize = 0;
    while i < e.0
        invariant
            i <= e.0,
            out@ == start + indent(i as nat),
        decreases e.0 - i,
    {
        out.push(' ');
        out.push(' ');
        assert(out@ =~= start + indent((i + 1) as nat));
        i += 1;
    }
    let seg = last_segment_exec(&e.1);
    extend_chars(out, &seg);
    match e.2 {
        EntryKind::Dir => extend_str(out, "/\n"),
        EntryKind::Link => extend_str(out, " -> link\n"),
        EntryKind::File => {
            extend_str(out, "  (");
            push_decimal(out, e.3);
            extend_str(out, " b)\n");
        },
    }
    assert(out@ =~= start + entry_line(entry_view(*e)));
}

/// The listing of the `tree` tool for the walk `items` from `root`:
/// skipped directories, the root itself, entries deeper than `depth` and
/// entries of unknown type are left out, at most `MAX_ENTRIES` are listed
/// (the walk stops at the next one), sorted by path.
pub fn tree_listing(root: &str, depth: usize, show_hidden: bool, items: &[WalkItem]) -> (r: String)
    requires
        sizes_upto(items@, items@.len() as int) <= u64::MAX,
    ensures
        r@ == listing_spec(root@, depth, show_hidden, items@),
{
    let mut files: usize = 0;
    let mut dirs: usize = 0;
    let mut bytes: u64 = 0;
    let mut entries: Vec<(usize, Vec<char>, EntryKind, u64)> = Vec::new();
    let mut truncated = false;
    let mut i: usize = 0;
    assert(entry_views(entries@) =~= Seq::<Listed>::empty());
    while i < items.len()
        invariant_except_break
            !truncated,
            ({
                let t = tally(items@, depth, i as nat);
                &&& files == t.files
                &&& dirs == t.dirs
                &&& bytes == t.bytes
                &&& entry_views(entries@) == t.entries
                &&& truncated == t.truncated
            }),
        invariant
            i <= items@.len(),
            sizes_upto(items@, items@.len() as int) <= u64::MAX,
        ensures
            ({
                let t = tally(items@, depth, items@.len());
                &&& files == t.files
                &&& dirs == t.dirs
                &&& bytes == t.bytes
                &&& entry_views(entries@) == t.entries
                &&& truncated == t.truncated
            }),
        decreases items@.len() - i,
    {
        proof {
            lemma_tally_bounds(items@, depth, i as nat);
            lemma_sizes_mono(items@, i + 1, items@.len() as int);
        }
        let it = &items[i];
        if is_skipped(it.path.as_str()) || it.depth == 0 || it.depth > depth || it.kind.is_none() {
            i += 1;
            continue;
        }
        let k = match it.kind {
            Some(k) => k,
            None => EntryKind::Link,
        };
        match k {
            EntryKind::Dir => {
                dirs = dirs + 1;
            },
            EntryKind::Link => {},
            EntryKind::File => {
                files = files + 1;
                bytes = bytes + it.size;
            },
        }
        if entries.len() >= MAX_ENTRIES {
            truncated = true;
            proof {
                lemma_tally_stays(items@, depth, (i + 1) as nat, items@.len());
            }
            break;
        }
        let size = match k {
            EntryKind::File => it.size,
            _ => 0,
        };
        let ghost prev = entry_views(entries@);
        entries.push((it.depth, chars_of(it.name.as_str()), k, size));
        assert(entry_views(entries@) =~= prev.push((it.depth, it.name@, k, size)));
        i += 1;
    }
    let ghost t = tally(items@, depth, items@.len());
    let mut sorted: Vec<(usize, Vec<char>, EntryKind, u64)> = Vec::new();
    let ghost ev = entry_views(entries@);
    let n = entries.len();
    let mut j: usize = 0;
    assert(entry_views(sorted@) =~= Seq::<Listed>::empty());
    while j < n
        invariant
            j <= n,
            n == ev.len(),
            entries@.len() == n,
            entry_views(entries@) == ev,
            entry_views(sorted@) == sort_entries(ev, j as nat),
        decreases n - j,
    {
        let e = (entries[j].0, crate::text::slice_to_vec(&entries[j].1, 0, entries[j].1.len()), entries[j].2, entries[j].3);
        assert(e.1@ =~= entries@[j as int].1@);
        assert(entry_view(e) == ev[j as int]);
        insert_exec(&mut sorted, e);
        j += 1;
    }
    let mut out = chars_of(root);
    extend_str(&mut out, " (depth=");
    push_decimal(&mut out, depth as u64);
    extend_str(&mut out, ", hidden=");
    if show_hidden {
        extend_str(&mut out, "true");
    } else {
        extend_str(&mut out, "false");
    }
    extend_str(&mut out, ")\n");
    let ghost head = out@;
    let ghost sv = entry_views(sorted@);
    let mut k: usize = 0;
    assert(head + entry_lines(sv, 0) =~= out@ + entry_lines(sv, 0));
    while k < sorted.len()
        invariant
            k <= sorted@.len(),
            sv == entry_views(sorted@),
            out@ + entry_lines(sv, k as nat) == head + entry_lines(sv, 0),
        decreases sorted@.len() - k,
    {
        let ghost before = out@;
        push_entry_line(&mut out, &sorted[k]);
        assert(sv[k as int] == entry_view(sorted@[k as int]));
        assert(before + entry_lines(sv, k as nat) =~= out@ + entry_lines(sv, (k + 1) as nat));
        k += 1;
    }
    assert(out@ + Seq::<char>::empty() =~= out@);
    extend_str(&mut out, "\n(");
    push_decimal(&mut out, files as u64);
    extend_str(&mut out, " files, ");
    push_decimal(&mut out, dirs as u64);
    extend_str(&mut out, " dirs, ");
    push_decimal(&mut out, bytes);
    extend_str(&mut out, " b");
    if truncated {
        extend_str(&mut out, "; truncated at ");
        push_decimal(&mut out, MAX_ENTRIES as u64);
    }
    extend_str(&mut out, ")\n");
    string_of(&out)
}

/// A truncated tally stays as it is.
proof fn lemma_tally_stays(items: Seq<WalkItem>, depth: usize, i: nat, j: nat)
    requires
        i <= j,
        tally(items, depth, i).truncated,
    ensures
        tally(items, depth, j) == tally(items, depth, i),
    decreases j - i,
{
    if i < j {
        lemma_tally_stays(items, depth, i, (j - 1) as nat);
    }
}

proof fn lemma_name_le_total(a: Seq<char>, b: Seq<char>)
    ensures
        name_le(a, b) || name_le(b, a),
    decreases a.len(),
{
    if a.len() > 0 && b.len() > 0 {
        if a[0] == b[0] {
            lemma_name_le_total(a.drop_first(), b.drop_first());
        } else {
            assert(a[0] < b[0] || b[0] < a[0]);
        }
    }
}

proof fn lemma_name_le_trans(a: Seq<char>, b: Seq<char>, c: Seq<char>)
    requires
        name_le(a, b),
        name_le(b, c),
    ensures
        name_le(a, c),
    decreases a.len(),
{
    if a.len() > 0 && b.len() > 0 && c.len() > 0 && a[0] == b[0] && b[0] == c[0] {
        lemma_name_le_trans(a.drop_first(), b.drop_first(), c.drop_first());
    }
}

/// Entries in name order.
pub open spec fn entries_sorted(s: Seq<Listed>) -> bool {
    forall|i: int, j: int| 0 <= i < j < s.len() ==> name_le(#[trigger] s[i].1, #[trigger] s[j].1)
}

proof fn lemma_insert_sorted(s: Seq<Listed>, e: Listed, k: nat)
    requires
        entries_sorted(s),
        k <= s.len(),
        forall|q: int| 0 <= q < k ==> name_le(#[trigger] s[q].1, e.1),
    ensures
        entries_sorted(insert_entry(s, e, k)),
        insert_entry(s, e, k).len() == s.len() + 1,
    decreases s.len() - k,
{
    if k >= s.len() {
        let r = s.push(e);
        assert forall|i: int, j: int| 0 <= i < j < r.len() implies name_le(#[trigger] r[i].1, #[trigger] r[j].1) by {
            if j == s.len() {
                assert(r[i] == s[i]);
            } else {
                assert(r[i] == s[i] && r[j] == s[j]);
            }
        }
    } else if !name_le(s[k as int].1, e.1) {
        let r = s.insert(k as int, e);
        lemma_name_le_total(s[k as int].1, e.1);
        assert forall|i: int, j: int| 0 <= i < j < r.len() implies name_le(#[trigger] r[i].1, #[trigger] r[j].1) by {
            if j < k {
                assert(r[i] == s[i] && r[j] == s[j]);
            } else if j == k {
                assert(r[i] == s[i]);
            } else if i < k {
                assert(r[i] == s[i] && r[j] == s[j - 1]);
                assert(name_le(s[i].1, e.1));
                lemma_name_le_trans(s[i].1, e.1, s[k as int].1);
                if j - 1 > k {
                    lemma_name_le_trans(s[i].1, s[k as int].1, s[j - 1].1);
                }
            } else if i == k {
                assert(r[j] == s[j - 1]);
                if j - 1 > k {
                    lemma_name_le_trans(e.1, s[k as int].1, s[j - 1].1);
                }
            } else {
                assert(r[i] == s[i - 1] && r[j] == s[j - 1]);
            }
        }
    } else {
        lemma_insert_sorted(s, e, k + 1);
    }
}

/// The `tree` listing is in path order and keeps every kept entry: the
/// stable sort of `entries` has their number and lists them in name order.
pub proof fn lemma_listing_sorted(entries: Seq<Listed>, n: nat)
    requires
        n <= entries.len(),
    ensures
        entries_sorted(sort_entries(entries, n)),
        sort_entries(entries, n).len() == n,
    decreases n,
{
    if n > 0 {
        lemma_listing_sorted(entries, (n - 1) as nat);
        lemma_insert_sorted(sort_entries(entries, (n - 1) as nat), entries[n - 1], 0);
    }
}

/// One entry of a directory: kind ("dir", "link" or "file"), name, size.
pub type DirEntry = (String, String, u64);

/// A directory entry as the contracts see it.
pub open spec fn dir_entry_view(e: DirEntry) -> (Seq<char>, Seq<char>, u64) {
    (e.0@, e.1@, e.2)
}

/// `a` sorts before or with `b`: by kind, then by name.
pub open spec fn dir_le(a: (Seq<char>, Seq<char>, u64), b: (Seq<char>, Seq<char>, u64)) -> bool {
    if a.0 == b.0 {
        name_le(a.1, b.1)
    } else {
        name_le(a.0, b.0)
    }
}

/// `e` inserted into `s` before the first entry that sorts after it.
pub open spec fn insert_dir(s: Seq<(Seq<char>, Seq<char>, u64)>, e: (Seq<char>, Seq<char>, u64), k: nat) -> Seq<(Seq<char>, Seq<char>, u64)>
    decreases s.len() - k,
{
    if k >= s.len() {
        s.push(e)
    } else if !dir_le(s[k as int], e) {
        s.insert(k as int, e)
    } else {
        insert_dir(s, e, k + 1)
    }
}

/// The first `n` entries sorted by kind then name, a stable sort.
pub open spec fn sort_dir(s: Seq<(Seq<char>, Seq<char>, u64)>, n: nat) -> Seq<(Seq<char>, Seq<char>, u64)>
    decreases n,
{
    if n == 0 || n > s.len() {
        Seq::empty()
    } else {
        insert_dir(sort_dir(s, (n - 1) as nat), s[n - 1], 0)
    }
}

/// The lines of the sorted entries `i..`.
pub open spec fn dir_lines(s: Seq<(Seq<char>, Seq<char>, u64)>, i: nat) -> Seq<char>
    decreases s.len() - i,
{
    if i >= s.len() {
        Seq::empty()
    } else {
        "  "@ + crate::text::pad_right(s[i as int].0, 4) + " "@ + crate::text::pad_left(decimal(s[i as int].2 as nat), 10)
            + " "@ + s[i as int].1 + "\n"@ + dir_lines(s, i + 1)
    }
}

/// The `list` tool's output for the directory shown as `path`: `None`
/// for an empty directory, else its entries sorted by kind then name.
pub open spec fn dir_listing_spec(path: Seq<char>, entries: Seq<DirEntry>) -> Option<Seq<char>> {
    if entries.len() == 0 {
        None
    } else {
        let v = entries.map_values(|e: DirEntry| dir_entry_view(e));
        Some(path + "\n"@ + dir_lines(sort_dir(v, v.len()), 0))
    }
}

fn dir_le_exec(a: &DirEntry, b: &DirEntry) -> (r: bool)
    ensures
        r == dir_le(dir_entry_view(*a), dir_entry_view(*b)),
{
    if a.0 == b.0 {
        name_le_exec(&chars_of(a.1.as_str()), &chars_of(b.1.as_str()))
    } else {
        name_le_exec(&chars_of(a.0.as_str()), &chars_of(b.0.as_str()))
    }
}

/// The `list` tool's listing of the directory shown as `path`; `None`
/// when it is empty.
pub fn dir_listing(path: &str, entries: Vec<DirEntry>) -> (r: Option<String>)
    ensures
        match r {
            Some(s) => dir_listing_spec(path@, entries@) == Some(s@),
            None => dir_listing_spec(path@, entries@) is None,
        },
{
    if entries.len() == 0 {
        return None;
    }
    let ghost v = entries@.map_values(|e: DirEntry| dir_entry_view(e));
    let mut sorted: Vec<DirEntry> = Vec::new();
    let mut j: usize = 0;
    let n = entries.len();
    assert(sorted@.map_values(|e: DirEntry| dir_entry_view(e)) =~= Seq::<(Seq<char>, Seq<char>, u64)>::empty());
    while j < n
        invariant
            j <= n,
            n == entries@.len(),
            v == entries@.map_values(|e: DirEntry| dir_entry_view(e)),
            sorted@.map_values(|e: DirEntry| dir_entry_view(e)) == sort_dir(v, j as nat),
        decreases n - j,
    {
        let e = (entries[j].0.clone(), entries[j].1.clone(), entries[j].2);
        assert(dir_entry_view(e) == v[j as int]);
        let ghost s0 = sorted@.map_values(|e: DirEntry| dir_entry_view(e));
        let mut k: usize = 0;
        while k < sorted.len() && dir_le_exec(&sorted[k], &e)
            invariant
                k <= sorted@.len(),
                s0 == sorted@.map_values(|e: DirEntry| dir_entry_view(e)),
                insert_dir(s0, dir_entry_view(e), k as nat) == insert_dir(s0, dir_entry_view(e), 0),
            decreases sorted@.len() - k,
        {
            assert(s0[k as int] == dir_entry_view(sorted@[k as int]));
            k += 1;
        }
        if k < sorted.len() {
            assert(s0[k as int] == dir_entry_view(sorted@[k as int]));
        }
        let ghost ev = dir_entry_view(e);
        sorted.insert(k, e);
        assert(sorted@.map_values(|e: DirEntry| dir_entry_view(e)) =~= if k as nat >= s0.len() {
            s0.push(ev)
        } else {
            s0.insert(k as int, ev)
        });
        j += 1;
    }
    let ghost sv = sorted@.map_values(|e: DirEntry| dir_entry_view(e));
    let mut out = chars_of(path);
    extend_str(&mut out, "\n");
    let ghost head = out@;
    let mut k: usize = 0;
    assert(head + dir_lines(sv, 0) =~= out@ + dir_lines(sv, 0));
    while k < sorted.len()
        invariant
            k <= sorted@.len(),
            sv == sorted@.map_values(|e: DirEntry| dir_entry_view(e)),
            out@ + dir_lines(sv, k as nat) == head + dir_lines(sv, 0),
        decreases sorted@.len() - k,
    {
        let ghost before = out@;
        extend_str(&mut out, "  ");
        crate::text::push_padded_right(&mut out, &chars_of(sorted[k].0.as_str()), 4);
        extend_str(&mut out, " ");
        crate::text::push_padded_left(&mut out, &crate::text::decimal_chars(sorted[k].2), 10);
        extend_str(&mut out, " ");
        extend_str(&mut out, sorted[k].1.as_str());
        extend_str(&mut out, "\n");
        assert(sv[k as int] == dir_entry_view(sorted@[k as int]));
        assert(before + dir_lines(sv, k as nat) =~= out@ + dir_lines(sv, (k + 1) as nat));
        k += 1;
    }
    assert(out@ + Seq::<char>::empty() =~= out@);
    Some(string_of(&out))
}

} // verus!
