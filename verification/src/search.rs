//! The text logic of the `search` tool: output limits, the summary and
//! listing of matches, the parsing of match lines, and the identifier that
//! the definitions filter looks for.

use vstd::prelude::*;
use crate::text::{chars_of, extend_str, push_decimal, string_of, decimal, utf8_len, utf8_len_u64, slice_to_vec};
use crate::updater::{all_digits, digits_value};

verus! {

/// What a search reports.
#[derive(Debug, Clone, Copy, PartialEq, Eq, Structural)]
pub enum Mode {
    /// The files that match.
    FilesWithMatches,
    /// The matching lines.
    Content,
    /// The number of matches per file.
    Count,
}

/// Lines shown in content mode unless the caller says otherwise.
pub const DEFAULT_HEAD_CONTENT: usize = 250;
/// Lines shown in the other modes unless the caller says otherwise.
pub const DEFAULT_HEAD_FILES: usize = 100;

/// The output limit: a given limit of 0 means none, a missing one the
/// mode's default.
pub fn effective_head(mode: Mode, head_limit: Option<usize>) -> (r: Option<usize>)
    ensures
        r == match head_limit {
            Some(n) => if n == 0 {
                None
            } else {
                Some(n)
            },
            None => Some(if mode == Mode::Content {
                DEFAULT_HEAD_CONTENT
            } else {
                DEFAULT_HEAD_FILES
            }),
        },
{
    match head_limit {
        Some(0) => None,
        Some(n) => Some(n),
        None => Some(
            match mode {
                Mode::Content => DEFAULT_HEAD_CONTENT,
                Mode::FilesWithMatches | Mode::Count => DEFAULT_HEAD_FILES,
            },
        ),
    }
}

/// What `s.parse::<u64>()` accepts: an optional `+`, then at least one
/// digit, with a value that fits.
pub open spec fn parse_u64_spec(s: Seq<char>) -> Option<u64> {
    let d = if s.len() > 0 && s[0] == '+' {
        s.drop_first()
    } else {
        s
    };
    if d.len() > 0 && all_digits(d) && digits_value(d) <= u64::MAX {
        Some(digits_value(d) as u64)
    } else {
        None
    }
}

/// Index of the last `c` in `s`.
pub open spec fn last_index(s: Seq<char>, c: char) -> Option<nat>
    decreases s.len(),
{
    if s.len() == 0 {
        None
    } else if s.last() == c {
        Some((s.len() - 1) as nat)
    } else {
        last_index(s.drop_last(), c)
    }
}

/// The count a count-mode line `path:n` carries; 0 when there is no
/// colon or the text after the last colon is not a number.
pub open spec fn line_count(line: Seq<char>) -> nat {
    match last_index(line, ':') {
        Some(i) => match parse_u64_spec(line.skip(i + 1 as int)) {
            Some(n) => n as nat,
            None => 0,
        },
        None => 0,
    }
}

/// Sum of the counts of the first `n` lines.
pub open spec fn count_sum(lines: Seq<Seq<char>>, n: int) -> nat
    decreases n,
{
    if n <= 0 {
        0
    } else {
        count_sum(lines, n - 1) + line_count(lines[n - 1])
    }
}

/// The views of a list of string slices.
pub open spec fn str_views(v: Seq<&str>) -> Seq<Seq<char>> {
    v.map_values(|s: &str| s@)
}

/// The shown lines, each followed by a newline.
pub open spec fn listing(lines: Seq<Seq<char>>, n: int) -> Seq<char>
    decreases n,
{
    if n <= 0 {
        Seq::empty()
    } else {
        listing(lines, n - 1) + lines[n - 1] + "\n"@
    }
}

/// The search report: a summary line for the mode, then the first `head`
/// lines (all when there is no limit).
pub open spec fn format_spec(mode: Mode, definitions_only: bool, lines: Seq<Seq<char>>, head: Option<usize>) -> Seq<char> {
    let total = lines.len();
    let take: nat = match head {
        Some(n) => if n < total {
            n as nat
        } else {
            total
        },
        None => total,
    };
    let truncated = match head {
        Some(n) => total > n,
        None => false,
    };
    let summary = match mode {
        Mode::FilesWithMatches => decimal(total) + " file(s) matched (showing "@ + decimal(take) + (if truncated {
            ", truncated"@
        } else {
            Seq::empty()
        }) + "):\n"@,
        Mode::Count => decimal(count_sum(lines, total as int)) + " match(es) across "@ + decimal(total)
            + " file(s) (showing "@ + decimal(take) + (if truncated {
            ", truncated"@
        } else {
            Seq::empty()
        }) + "):\n"@,
        Mode::Content => decimal(total) + " line(s)"@ + (if truncated {
            ", showing "@ + decimal(take)
        } else {
            Seq::empty()
        }) + (if definitions_only {
            " (definitions_only)"@
        } else {
            Seq::empty()
        }) + ":\n"@,
    };
    summary + listing(lines, take as int)
}

/// Parses a decimal count (`str::parse::<u64>`).
pub(crate) fn parse_u64(p: &[char]) -> (r: Option<u64>)
    ensures
        r == parse_u64_spec(p@),
{
    let start: usize = if p.len() > 0 && p[0] == '+' {
        1
    } else {
        0
    };
    let ghost d = p@.skip(start as int);
    assert(d =~= if p@.len() > 0 && p@[0] == '+' {
        p@.drop_first()
    } else {
        p@
    });
    if start >= p.len() {
        return None;
    }
    let mut v: u64 = 0;
    let mut i: usize = start;
    assert(p@.subrange(start as int, start as int) =~= Seq::<char>::empty());
    while i < p.len()
        invariant
            start <= i <= p@.len(),
            d == p@.skip(start as int),
            d.len() > 0,
            parse_u64_spec(p@) == (if d.len() > 0 && all_digits(d) && digits_value(d) <= u64::MAX {
                Some(digits_value(d) as u64)
            } else {
                None
            }),
            all_digits(p@.subrange(start as int, i as int)),
            v == digits_value(p@.subrange(start as int, i as int)),
        decreases p@.len() - i,
    {
        let c = p[i];
        if !('0' <= c && c <= '9') {
            assert(d[i - start] == c);
            assert(!all_digits(d));
            return None;
        }
        let dv = digit_u64(c);
        assert(p@.subrange(start as int, i + 1).drop_last() =~= p@.subrange(start as int, i as int));
        if v > (u64::MAX - dv) / 10 {
            proof {
                let k = (i - start) as nat;
                assert(d.take(k as int) =~= p@.subrange(start as int, i as int));
                assert(d.take(k + 1 as int) =~= p@.subrange(start as int, i + 1));
                assert(digits_value(d.take(k + 1 as int)) == v * 10 + dv);
                assert(v * 10 + dv > u64::MAX) by (nonlinear_arith)
                    requires
                        v > (u64::MAX - dv) / 10,
                        dv < 10,
                ;
                crate::updater::lemma_digits_prefix_grows(d, k);
            }
            return None;
        }
        v = v * 10 + dv;
        i += 1;
    }
    assert(p@.subrange(start as int, i as int) =~= d);
    Some(v)
}

fn digit_u64(c: char) -> (r: u64)
    requires
        '0' <= c && c <= '9',
    ensures
        r == (c as u32) - ('0' as u32),
        r < 10,
{
    ((c as u32) - ('0' as u32)) as u64
}

/// The count a count-mode line carries.
fn count_of_line(line: &str) -> (r: u64)
    ensures
        r == line_count(line@),
{
    let c = chars_of(line);
    let mut i = c.len();
    assert(line@.take(line@.len() as int) =~= line@);
    while i > 0 && c[i - 1] != ':'
        invariant
            i <= c@.len(),
            c@ == line@,
            last_index(line@, ':') == last_index(line@.take(i as int), ':'),
        decreases i,
    {
        assert(line@.take(i as int).drop_last() =~= line@.take(i - 1));
        i -= 1;
    }
    if i == 0 {
        assert(line@.take(0) =~= Seq::<char>::empty());
        return 0;
    }
    assert(last_index(line@.take(i as int), ':') == Some((i - 1) as nat));
    let tail = slice_to_vec(&c, i, c.len());
    assert(tail@ =~= line@.skip(i as int));
    match parse_u64(&tail) {
        Some(n) => n,
        None => 0,
    }
}

/// Formats the search report for `lines` (one path, count line or match
/// line each) in `mode`, showing at most `head` lines.
pub fn format_output(mode: Mode, definitions_only: bool, lines: &[&str], head: Option<usize>) -> (r: String)
    requires
        count_sum(str_views(lines@), lines@.len() as int) <= u64::MAX,
    ensures
        r@ == format_spec(mode, definitions_only, str_views(lines@), head),
{
    let ghost lv = str_views(lines@);
    let total = lines.len();
    let take = match head {
        Some(n) => if n < total {
            n
        } else {
            total
        },
        None => total,
    };
    let truncated = match head {
        Some(n) => total > n,
        None => false,
    };
    let mut out: Vec<char> = Vec::new();
    match mode {
        Mode::FilesWithMatches => {
            push_decimal(&mut out, total as u64);
            extend_str(&mut out, " file(s) matched (showing ");
            push_decimal(&mut out, take as u64);
            if truncated {
                extend_str(&mut out, ", truncated");
            }
            extend_str(&mut out, "):\n");
        },
        Mode::Count => {
            let mut sum: u64 = 0;
            let mut k: usize = 0;
            while k < lines.len()
                invariant
                    k <= lines@.len(),
                    lv == str_views(lines@),
                    sum == count_sum(lv, k as int),
                    count_sum(lv, lines@.len() as int) <= u64::MAX,
                decreases lines@.len() - k,
            {
                proof {
                    lemma_count_sum_mono(lv, k + 1, lines@.len() as int);
                }
                let n = count_of_line(lines[k]);
                sum = sum + n;
                k += 1;
            }
            push_decimal(&mut out, sum);
            extend_str(&mut out, " match(es) across ");
            push_decimal(&mut out, total as u64);
            extend_str(&mut out, " file(s) (showing ");
            push_decimal(&mut out, take as u64);
            if truncated {
                extend_str(&mut out, ", truncated");
            }
            extend_str(&mut out, "):\n");
        },
        Mode::Content => {
            push_decimal(&mut out, total as u64);
            extend_str(&mut out, " line(s)");
            if truncated {
                extend_str(&mut out, ", showing ");
                push_decimal(&mut out, take as u64);
            }
            if definitions_only {
                extend_str(&mut out, " (definitions_only)");
            }
            extend_str(&mut out, ":\n");
        },
    }
    let ghost summary = out@;
    let mut i: usize = 0;
    while i < take
        invariant
            i <= take,
            take <= lines@.len(),
            lv == str_views(lines@),
            out@ == summary + listing(lv, i as int),
        decreases take - i,
    {
        extend_str(&mut out, lines[i]);
        out.push('\n');
        i += 1;
        proof {
            reveal_strlit("\n");
        }
        assert(out@ =~= summary + listing(lv, i as int));
    }
    proof {
        reveal_strlit(", truncated");
    }
    assert(out@ =~= format_spec(mode, definitions_only, lv, head));
    string_of(&out)
}

proof fn lemma_count_sum_mono(lines: Seq<Seq<char>>, i: int, j: int)
    requires
        i <= j,
    ensures
        count_sum(lines, i) <= count_sum(lines, j),
    decreases j - i,
{
    if i < j {
        lemma_count_sum_mono(lines, i, j - 1);
    }
}

/// The note given when nothing matched.
pub fn no_match_message(pattern: &str, root: &str) -> (r: String)
    ensures
        r@ == "(no matches for /"@ + pattern@ + "/ in "@ + root@ + "; try a shorter pattern, -i, or a different path)\n"@,
{
    let mut v = chars_of("(no matches for /");
    extend_str(&mut v, pattern);
    extend_str(&mut v, "/ in ");
    extend_str(&mut v, root);
    extend_str(&mut v, "; try a shorter pattern, -i, or a different path)\n");
    string_of(&v)
}

/// The note given when a filter removed every match.
pub fn no_match_with_filter(pattern: &str, root: &str, filter: &str) -> (r: String)
    ensures
        r@ == "(no matches for /"@ + pattern@ + "/ in "@ + root@ + " after "@ + filter@
            + " filter; try without it to see usages)\n"@,
{
    let mut v = chars_of("(no matches for /");
    extend_str(&mut v, pattern);
    extend_str(&mut v, "/ in ");
    extend_str(&mut v, root);
    extend_str(&mut v, " after ");
    extend_str(&mut v, filter);
    extend_str(&mut v, " filter; try without it to see usages)\n");
    string_of(&v)
}

/// Whether a report is one of the no-match notes.
pub fn has_no_matches(s: &str) -> (r: bool)
    ensures
        r == (s@.len() >= 11 && s@.take(11) == "(no matches"@),
{
    let c = chars_of(s);
    let prefix = chars_of("(no matches");
    proof {
        reveal_strlit("(no matches");
    }
    if c.len() < 11 {
        return false;
    }
    let head = slice_to_vec(&c, 0, 11);
    assert(head@ =~= s@.take(11));
    crate::text::chars_eq(&head, &prefix)
}

/// Index of the first `c` in `s` at or after `i`.
pub open spec fn index_from(s: Seq<char>, c: char, i: nat) -> Option<nat>
    decreases s.len() - i,
{
    if i >= s.len() {
        None
    } else if s[i as int] == c {
        Some(i)
    } else {
        index_from(s, c, i + 1)
    }
}

fn find_char(s: &[char], c: char, from: usize) -> (r: Option<usize>)
    requires
        from <= s@.len(),
    ensures
        match r {
            Some(i) => index_from(s@, c, from as nat) == Some(i as nat) && from <= i < s@.len(),
            None => index_from(s@, c, from as nat) is None,
        },
{
    let mut i = from;
    while i < s.len()
        invariant
            from <= i <= s@.len(),
            index_from(s@, c, from as nat) == index_from(s@, c, i as nat),
        decreases s@.len() - i,
    {
        if s[i] == c {
            return Some(i);
        }
        i += 1;
    }
    None
}

/// A match line of content mode, `path:line:text`, split into its three
/// parts; `None` for other lines (context lines have no numeric second
/// field).
pub open spec fn split_content_spec(line: Seq<char>) -> Option<(Seq<char>, Seq<char>, Seq<char>)> {
    match index_from(line, ':', 0) {
        Some(f) => match index_from(line, ':', f + 1) {
            Some(t) => {
                let num = line.subrange(f + 1 as int, t as int);
                if all_digits(num) {
                    Some((line.take(f as int), num, line.skip(t + 1 as int)))
                } else {
                    None
                }
            },
            None => None,
        },
        None => None,
    }
}

/// Splits a content-mode match line into path, line number and text.
pub fn split_content_line(line: &str) -> (r: Option<(String, String, String)>)
    ensures
        match r {
            Some((a, b, c)) => split_content_spec(line@) == Some((a@, b@, c@)),
            None => split_content_spec(line@) is None,
        },
{
    let c = chars_of(line);
    let f = match find_char(&c, ':', 0) {
        Some(f) => f,
        None => return None,
    };
    let t = match find_char(&c, ':', f + 1) {
        Some(t) => t,
        None => return None,
    };
    let num = slice_to_vec(&c, f + 1, t);
    assert(num@ =~= line@.subrange(f + 1 as int, t as int));
    let mut k: usize = 0;
    while k < num.len()
        invariant
            k <= num@.len(),
            forall|j: int| 0 <= j < k ==> '0' <= #[trigger] num@[j] && num@[j] <= '9',
            num@ == line@.subrange(f + 1 as int, t as int),
            index_from(line@, ':', 0) == Some(f as nat),
            index_from(line@, ':', (f + 1) as nat) == Some(t as nat),
        decreases num@.len() - k,
    {
        if !('0' <= num[k] && num[k] <= '9') {
            assert(!('0' <= num@[k as int] && num@[k as int] <= '9'));
            assert(!all_digits(num@));
            assert(split_content_spec(line@) is None);
            return None;
        }
        k += 1;
    }
    let path = slice_to_vec(&c, 0, f);
    let text = slice_to_vec(&c, t + 1, c.len());
    assert(path@ =~= line@.take(f as int));
    assert(text@ =~= line@.skip(t + 1));
    Some((string_of(&path), string_of(&num), string_of(&text)))
}

/// The path part of a reported line: the whole line for file lists, the
/// part before the last colon for counts, before the first colon for
/// matches.
pub open spec fn line_path_spec(line: Seq<char>, mode: Mode) -> Seq<char> {
    match mode {
        Mode::FilesWithMatches => line,
        Mode::Count => match last_index(line, ':') {
            Some(i) => line.take(i as int),
            None => line,
        },
        Mode::Content => match index_from(line, ':', 0) {
            Some(i) => line.take(i as int),
            None => line,
        },
    }
}

/// The path a reported line names, so the file can be marked as seen.
pub fn search_line_path(line: &str, mode: Mode) -> (r: String)
    ensures
        r@ == line_path_spec(line@, mode),
{
    let c = chars_of(line);
    match mode {
        Mode::FilesWithMatches => line.to_owned(),
        Mode::Count => {
            let mut i = c.len();
            assert(line@.take(line@.len() as int) =~= line@);
            while i > 0 && c[i - 1] != ':'
                invariant
                    i <= c@.len(),
                    c@ == line@,
                    last_index(line@, ':') == last_index(line@.take(i as int), ':'),
                decreases i,
            {
                assert(line@.take(i as int).drop_last() =~= line@.take(i - 1));
                i -= 1;
            }
            if i == 0 {
                assert(line@.take(0) =~= Seq::<char>::empty());
                line.to_owned()
            } else {
                let p = slice_to_vec(&c, 0, i - 1);
                assert(p@ =~= line@.take(i - 1));
                string_of(&p)
            }
        },
        Mode::Content => match find_char(&c, ':', 0) {
            Some(i) => {
                let p = slice_to_vec(&c, 0, i);
                assert(p@ =~= line@.take(i as int));
                string_of(&p)
            },
            None => line.to_owned(),
        },
    }
}

/// Unicode alphanumeric, as `char::is_alphanumeric` decides it.
pub uninterp spec fn alphanumeric(c: char) -> bool;

/// `char::is_alphanumeric`; the contract names its result.
#[verifier::external_body]
fn char_is_alphanumeric(c: char) -> (r: bool)
    ensures
        r == alphanumeric(c),
{
    c.is_alphanumeric()
}

/// A character of an identifier run.
pub open spec fn ident_char(c: char) -> bool {
    alphanumeric(c) || c == '_'
}

/// The identifier token of the rest of `s`, given the best run so far and
/// the current run: runs of identifier characters, the first longest by
/// UTF-8 length wins.
pub open spec fn token_from(s: Seq<char>, best: Seq<char>, cur: Seq<char>) -> Seq<char>
    decreases s.len(),
{
    if s.len() == 0 {
        if utf8_len(cur) > utf8_len(best) {
            cur
        } else {
            best
        }
    } else if ident_char(s[0]) {
        token_from(s.drop_first(), best, cur.push(s[0]))
    } else {
        token_from(s.drop_first(), if utf8_len(cur) > utf8_len(best) {
            cur
        } else {
            best
        }, Seq::empty())
    }
}

proof fn lemma_utf8_push(s: Seq<char>, c: char)
    ensures
        utf8_len(s.push(c)) == utf8_len(s) + crate::text::utf8_width(c),
{
    assert(s.push(c).drop_last() =~= s);
}

proof fn lemma_utf8_le(s: Seq<char>)
    ensures
        utf8_len(s) <= 4 * s.len(),
    decreases s.len(),
{
    if s.len() > 0 {
        lemma_utf8_le(s.drop_last());
    }
}

/// The longest identifier-like run of a query (e.g. `addEventListener`
/// in `addEventListener('click'`), the first of equal length winning.
pub fn sanitize_for_regex(q: &str) -> (r: String)
    requires
        4 * q@.len() <= u64::MAX,
    ensures
        r@ == token_from(q@, Seq::empty(), Seq::empty()),
{
    let c = chars_of(q);
    let mut best: Vec<char> = Vec::new();
    let mut cur: Vec<char> = Vec::new();
    let mut best_len: u64 = 0;
    let mut cur_len: u64 = 0;
    let mut i: usize = 0;
    assert(q@.skip(0) =~= q@);
    proof {
        assert(best@ =~= Seq::<char>::empty());
        assert(cur@ =~= Seq::<char>::empty());
    }
    while i < c.len()
        invariant
            i <= c@.len(),
            c@ == q@,
            4 * q@.len() <= u64::MAX,
            best_len == utf8_len(best@),
            cur_len == utf8_len(cur@),
            cur@.len() <= i,
            best@.len() <= i,
            token_from(q@, Seq::empty(), Seq::empty()) == token_from(q@.skip(i as int), best@, cur@),
        decreases c@.len() - i,
    {
        assert(q@.skip(i as int).drop_first() =~= q@.skip(i + 1));
        let ch = c[i];
        proof {
            lemma_utf8_le(cur@);
            lemma_utf8_le(best@);
            lemma_utf8_push(cur@, ch);
        }
        if char_is_alphanumeric(ch) || ch == '_' {
            let w: u64 = if (ch as u32) < 0x80 {
                1
            } else if (ch as u32) < 0x800 {
                2
            } else if (ch as u32) < 0x10000 {
                3
            } else {
                4
            };
            cur.push(ch);
            cur_len = cur_len + w;
        } else {
            if cur_len > best_len {
                best = cur;
                best_len = cur_len;
            }
            cur = Vec::new();
            cur_len = 0;
            assert(cur@ =~= Seq::<char>::empty());
        }
        i += 1;
    }
    assert(q@.skip(i as int) =~= Seq::<char>::empty());
    if cur_len > best_len {
        best = cur;
    }
    string_of(&best)
}

/// A regex meta character, which `regex::escape` escapes.
pub open spec fn is_meta(c: char) -> bool {
    c == '\\' || c == '.' || c == '+' || c == '*' || c == '?' || c == '(' || c == ')' || c == '|'
        || c == '[' || c == ']' || c == '{' || c == '}' || c == '^' || c == '$' || c == '#' || c == '&'
        || c == '-' || c == '~'
}

/// `s` with a backslash before every meta character.
pub open spec fn escape_spec(s: Seq<char>) -> Seq<char>
    decreases s.len(),
{
    if s.len() == 0 {
        Seq::empty()
    } else {
        escape_spec(s.drop_last()) + if is_meta(s.last()) {
            seq!['\\', s.last()]
        } else {
            seq![s.last()]
        }
    }
}

/// `regex::escape`: a backslash goes before each regex meta character.
#[verifier::external_body]
fn regex_escape(s: &str) -> (r: String)
    ensures
        r@ == escape_spec(s@),
{
    regex::escape(s)
}

/// The pattern of the definitions filter: a line that declares something
/// (fn, class, struct, …) whose name contains the query's identifier
/// token; `None` when the query has no identifier characters.
pub open spec fn def_regex_spec(pattern: Seq<char>) -> Option<Seq<char>> {
    let token = token_from(pattern, Seq::empty(), Seq::empty());
    if token.len() == 0 {
        None
    } else {
        Some("^\\s*(pub\\s+)?(async\\s+)?(fn|class|interface|impl|function|def|const|let|var|struct|enum|trait|type|export\\s+(default\\s+)?(class|function|const|let|var))\\s+(\\w*\\b"@
            + escape_spec(token) + "\\b\\w*)"@)
    }
}

/// The source of the definitions-filter regex for a query.
pub fn def_regex_source(pattern: &str) -> (r: Option<String>)
    requires
        4 * pattern@.len() <= u64::MAX,
    ensures
        match r {
            Some(x) => def_regex_spec(pattern@) == Some(x@),
            None => def_regex_spec(pattern@) is None,
        },
{
    let token = sanitize_for_regex(pattern);
    if token.as_str().is_empty() {
        return None;
    }
    let esc = regex_escape(token.as_str());
    let mut v = chars_of("^\\s*(pub\\s+)?(async\\s+)?(fn|class|interface|impl|function|def|const|let|var|struct|enum|trait|type|export\\s+(default\\s+)?(class|function|const|let|var))\\s+(\\w*\\b");
    extend_str(&mut v, esc.as_str());
    extend_str(&mut v, "\\b\\w*)");
    Some(string_of(&v))
}

} // verus!
