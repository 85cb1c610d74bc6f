//! The text logic of the `edit` tool: tolerant matching of `old_string`,
//! quote-style and line-ending preservation, and the hints given when a
//! match fails.

use vstd::prelude::*;
use crate::text::{
    chars_eq, chars_of, contains_chars, contains_seq, decimal, extend_str, push_decimal, take_chars, utf8_len, utf8_len_capped, count_char, count_char_exec, count_from, count_matches, extend_chars,
    find_from, has_char, lemma_line_spans, lemma_lines_nonempty, line_spans, line_spans_exec, lines_of, match_at, matches_at, nat_pairs, span_texts, spans_ordered, trim, trim_chars, trim_end, trim_end_chars, trim_start, trim_start_chars, lines_of_str, replace_all, replace_first, replace_first_from, replace_from, slice_to_vec, split_lines, string_of,
    views, pad_left, push_padded_left,
};
use crate::diff::{line_diff, line_diff_spec, sviews};

verus! {

// ---------------------------------------------------------------------------
// Outside facts
// ---------------------------------------------------------------------------

/// Unicode `Alphabetic` property, as `char::is_alphabetic` decides it.
pub uninterp spec fn alphabetic(c: char) -> bool;

/// `char::is_alphabetic`; the contract names its result `alphabetic(c)`.
#[verifier::external_body]
fn char_is_alphabetic(c: char) -> (r: bool)
    ensures
        r == alphabetic(c),
{
    c.is_alphabetic()
}

/// The extension of a path as `std::path::Path::extension` reports it
/// (`None` when there is none or it is not valid UTF-8).
pub uninterp spec fn path_extension(p: Seq<char>) -> Option<Seq<char>>;

/// `Path::extension` of `p`, converted to a string; the contract names the
/// result `path_extension(p@)`.
#[verifier::external_body]
fn extension_of(p: &str) -> (r: Option<String>)
    ensures
        match r {
            Some(e) => path_extension(p@) == Some(e@),
            None => path_extension(p@) is None,
        },
{
    std::path::Path::new(p).extension().and_then(|e| e.to_str()).map(|e| e.to_string())
}

// ---------------------------------------------------------------------------
// Markdown detection and trailing white space
// ---------------------------------------------------------------------------

/// ASCII lower-casing of one character (`char::to_ascii_lowercase`).
pub open spec fn ascii_lower(c: char) -> char {
    if 'A' <= c && c <= 'Z' {
        ((c as u32) + 32) as char
    } else {
        c
    }
}

/// ASCII lower-casing of a character sequence.
pub open spec fn ascii_lower_seq(s: Seq<char>) -> Seq<char> {
    s.map_values(|c: char| ascii_lower(c))
}

/// Lower-cases one ASCII letter.
pub fn ascii_lower_exec(c: char) -> (r: char)
    ensures
        r == ascii_lower(c),
{
    if 'A' <= c && c <= 'Z' {
        ((c as u32) + 32) as u8 as char
    } else {
        c
    }
}

/// ASCII lower-casing of `s`.
pub fn ascii_lower_chars(s: &[char]) -> (r: Vec<char>)
    ensures
        r@ == ascii_lower_seq(s@),
{
    let mut out: Vec<char> = Vec::new();
    let mut i: usize = 0;
    while i < s.len()
        invariant
            i <= s.len(),
            out@ == ascii_lower_seq(s@.take(i as int)),
        decreases s.len() - i,
    {
        out.push(ascii_lower_exec(s[i]));
        i += 1;
        assert(out@ =~= ascii_lower_seq(s@.take(i as int)));
    }
    assert(s@.take(s.len() as int) =~= s@);
    out
}

/// Markdown files, whose trailing spaces are a hard line break and must be kept.
pub open spec fn is_markdown_spec(path: Seq<char>) -> bool {
    match path_extension(path) {
        Some(e) => ascii_lower_seq(e) == seq!['m', 'd'] || ascii_lower_seq(e) == seq![
            'm',
            'd',
            'x',
        ],
        None => false,
    }
}

/// True if the path's extension is `md` or `mdx`, in any ASCII case.
pub fn is_markdown_path(path: &str) -> (r: bool)
    ensures
        r == is_markdown_spec(path@),
{
    match extension_of(path) {
        Some(e) => {
            let ec = chars_of(e.as_str());
            let lower = ascii_lower_chars(&ec);
            let md = vec!['m', 'd'];
            let mdx = vec!['m', 'd', 'x'];
            assert(md@ =~= seq!['m', 'd']);
            assert(mdx@ =~= seq!['m', 'd', 'x']);
            chars_eq(&lower, &md) || chars_eq(&lower, &mdx)
        },
        None => false,
    }
}

/// A space or a tab.
pub open spec fn is_hspace(c: char) -> bool {
    c == ' ' || c == '\t'
}

/// A line-ending character.
pub open spec fn is_eol(c: char) -> bool {
    c == '\n' || c == '\r'
}

/// First position at or after `i` that is not a space or tab.
pub open spec fn next_solid(s: Seq<char>, i: nat) -> nat
    decreases s.len() - i,
{
    if i >= s.len() {
        s.len()
    } else if is_hspace(s[i as int]) {
        next_solid(s, i + 1)
    } else {
        i
    }
}

/// Character `i` survives stripping: it is not a space/tab, or the run of
/// spaces/tabs it starts is followed by something other than a line end.
pub open spec fn kept_at(s: Seq<char>, i: nat) -> bool {
    !is_hspace(s[i as int]) || (next_solid(s, i) < s.len() && !is_eol(
        s[next_solid(s, i) as int],
    ))
}

/// `s[i..]` with every run of spaces/tabs that ends a line (before `\n`,
/// `\r`, or the end of the text) removed.
pub open spec fn strip_trailing_from(s: Seq<char>, i: nat) -> Seq<char>
    decreases s.len() - i,
{
    if i >= s.len() {
        Seq::empty()
    } else if kept_at(s, i) {
        seq![s[i as int]] + strip_trailing_from(s, i + 1)
    } else {
        strip_trailing_from(s, i + 1)
    }
}

proof fn lemma_next_solid_run(s: Seq<char>, i: nat, k: nat)
    requires
        i <= k <= s.len(),
        forall|j: int| i <= j < k ==> is_hspace(s[j]),
        k == s.len() || !is_hspace(s[k as int]),
    ensures
        next_solid(s, i) == k,
    decreases k - i,
{
    if i < k {
        lemma_next_solid_run(s, i + 1, k);
    }
}

proof fn lemma_strip_run(s: Seq<char>, i: nat, k: nat, keep: bool)
    requires
        i <= k <= s.len(),
        forall|j: int| i <= j < k ==> is_hspace(s[j]),
        k == s.len() || !is_hspace(s[k as int]),
        keep == (k < s.len() && !is_eol(s[k as int])),
    ensures
        strip_trailing_from(s, i) == (if keep {
            s.subrange(i as int, k as int)
        } else {
            Seq::empty()
        }) + strip_trailing_from(s, k),
    decreases k - i,
{
    if i < k {
        lemma_next_solid_run(s, i, k);
        lemma_strip_run(s, i + 1, k, keep);
        if keep {
            assert(s.subrange(i as int, k as int) =~= seq![s[i as int]] + s.subrange(
                (i + 1) as int,
                k as int,
            ));
        }
    } else {
        assert(s.subrange(i as int, k as int) =~= Seq::<char>::empty());
    }
}

/// Removes trailing spaces and tabs from every line, keeping `\n`, `\r\n`
/// and bare `\r` line endings as they are.
pub fn strip_trailing_whitespace(s: &str) -> (r: String)
    ensures
        r@ == strip_trailing_from(s@, 0),
{
    let c = chars_of(s);
    let mut out: Vec<char> = Vec::new();
    let mut i: usize = 0;
    while i < c.len()
        invariant
            i <= c.len(),
            c@ == s@,
            out@ + strip_trailing_from(c@, i as nat) == strip_trailing_from(c@, 0),
        decreases c.len() - i,
    {
        if c[i] == ' ' || c[i] == '\t' {
            let mut k = i;
            while k < c.len() && (c[k] == ' ' || c[k] == '\t')
                invariant
                    i <= k <= c.len(),
                    forall|j: int| i <= j < k ==> is_hspace(c@[j]),
                decreases c.len() - k,
            {
                k += 1;
            }
            let keep = k < c.len() && c[k] != '\n' && c[k] != '\r';
            proof {
                lemma_strip_run(c@, i as nat, k as nat, keep);
            }
            let ghost prev = out@;
            if keep {
                let run = slice_to_vec(&c, i, k);
                extend_chars(&mut out, &run);
            }
            assert(prev + strip_trailing_from(c@, i as nat) =~= out@ + strip_trailing_from(
                c@,
                k as nat,
            ));
            i = k;
        } else {
            let ghost prev = out@;
            out.push(c[i]);
            assert(prev + strip_trailing_from(c@, i as nat) =~= out@ + strip_trailing_from(
                c@,
                (i + 1) as nat,
            ));
            i += 1;
        }
    }
    assert(out@ =~= strip_trailing_from(c@, 0));
    string_of(&out)
}

// ---------------------------------------------------------------------------
// Quotes
// ---------------------------------------------------------------------------

/// Left single curly quote.
pub const LSQUO: char = '\u{2018}';

/// Right single curly quote.
pub const RSQUO: char = '\u{2019}';

/// Left double curly quote.
pub const LDQUO: char = '\u{201C}';

/// Right double curly quote.
pub const RDQUO: char = '\u{201D}';

/// A curly quote mapped to its straight counterpart.
pub open spec fn straight_quote(c: char) -> char {
    if c == LSQUO || c == RSQUO {
        '\''
    } else if c == LDQUO || c == RDQUO {
        '"'
    } else {
        c
    }
}

/// `s` with curly quotes replaced by straight ones.
pub open spec fn normalize_quotes_spec(s: Seq<char>) -> Seq<char> {
    s.map_values(|c: char| straight_quote(c))
}

fn straight_quote_exec(c: char) -> (r: char)
    ensures
        r == straight_quote(c),
{
    if c == LSQUO || c == RSQUO {
        '\''
    } else if c == LDQUO || c == RDQUO {
        '"'
    } else {
        c
    }
}

/// Curly quotes replaced by straight ones, on characters.
pub fn normalize_quote_chars(s: &[char]) -> (r: Vec<char>)
    ensures
        r@ == normalize_quotes_spec(s@),
{
    let mut out: Vec<char> = Vec::new();
    let mut i: usize = 0;
    while i < s.len()
        invariant
            i <= s.len(),
            out@ == normalize_quotes_spec(s@.take(i as int)),
        decreases s.len() - i,
    {
        out.push(straight_quote_exec(s[i]));
        i += 1;
        assert(out@ =~= normalize_quotes_spec(s@.take(i as int)));
    }
    assert(s@.take(s.len() as int) =~= s@);
    out
}

/// Replaces curly quotes with straight quotes.
pub fn normalize_quotes(s: &str) -> (r: String)
    ensures
        r@ == normalize_quotes_spec(s@),
{
    let c = chars_of(s);
    let n = normalize_quote_chars(&c);
    string_of(&n)
}

/// A quote after `prev` opens: at the start, or after white space or an
/// opening bracket or dash.
pub open spec fn opening_context(prev: Option<char>) -> bool {
    match prev {
        None => true,
        Some(c) => c == ' ' || c == '\t' || c == '\n' || c == '\r' || c == '(' || c == '[' || c
            == '{' || c == '\u{2014}' || c == '\u{2013}',
    }
}

/// Whether a quote preceded by `prev` is an opening quote.
pub fn is_opening_context(prev: Option<char>) -> (r: bool)
    ensures
        r == opening_context(prev),
{
    match prev {
        None => true,
        Some(c) => c == ' ' || c == '\t' || c == '\n' || c == '\r' || c == '(' || c == '[' || c
            == '{' || c == '\u{2014}' || c == '\u{2013}',
    }
}

/// The character before position `i`, if any.
pub open spec fn prev_char(s: Seq<char>, i: int) -> Option<char> {
    if i == 0 {
        None
    } else {
        Some(s[i - 1])
    }
}

/// The character after position `i`, if any.
pub open spec fn next_char(s: Seq<char>, i: int) -> Option<char> {
    if i + 1 >= s.len() {
        None
    } else {
        Some(s[i + 1])
    }
}

/// Straight double quotes made curly by context.
pub open spec fn curly_double_spec(s: Seq<char>) -> Seq<char> {
    Seq::new(
        s.len(),
        |i: int|
            if s[i] == '"' {
                if opening_context(prev_char(s, i)) {
                    LDQUO
                } else {
                    RDQUO
                }
            } else {
                s[i]
            },
    )
}

/// The character is a letter by `char::is_alphabetic`.
pub open spec fn is_letter(c: Option<char>) -> bool {
    match c {
        Some(x) => alphabetic(x),
        None => false,
    }
}

/// Straight single quotes made curly by context; an apostrophe between two
/// letters is always a right quote.
pub open spec fn curly_single_spec(s: Seq<char>) -> Seq<char> {
    Seq::new(
        s.len(),
        |i: int|
            if s[i] == '\'' {
                if is_letter(prev_char(s, i)) && is_letter(next_char(s, i)) {
                    RSQUO
                } else if opening_context(prev_char(s, i)) {
                    LSQUO
                } else {
                    RSQUO
                }
            } else {
                s[i]
            },
    )
}

/// Replaces straight `"` with curly double quotes based on context.
pub fn apply_curly_double(s: &[char]) -> (r: Vec<char>)
    ensures
        r@ == curly_double_spec(s@),
{
    let mut out: Vec<char> = Vec::new();
    let mut i: usize = 0;
    while i < s.len()
        invariant
            i <= s.len(),
            out@.len() == i,
            forall|j: int| 0 <= j < i ==> out@[j] == curly_double_spec(s@)[j],
        decreases s.len() - i,
    {
        if s[i] == '"' {
            let prev = if i == 0 {
                None
            } else {
                Some(s[i - 1])
            };
            out.push(
                if is_opening_context(prev) {
                    LDQUO
                } else {
                    RDQUO
                },
            );
        } else {
            out.push(s[i]);
        }
        i += 1;
    }
    assert(out@ =~= curly_double_spec(s@));
    out
}

/// Replaces straight `'` with curly single quotes based on context.
pub fn apply_curly_single(s: &[char]) -> (r: Vec<char>)
    ensures
        r@ == curly_single_spec(s@),
{
    let mut out: Vec<char> = Vec::new();
    let mut i: usize = 0;
    while i < s.len()
        invariant
            i <= s.len(),
            out@.len() == i,
            forall|j: int| 0 <= j < i ==> out@[j] == curly_single_spec(s@)[j],
        decreases s.len() - i,
    {
        if s[i] == '\'' {
            let prev = if i == 0 {
                None
            } else {
                Some(s[i - 1])
            };
            let next = if i + 1 >= s.len() {
                None
            } else {
                Some(s[i + 1])
            };
            let prev_letter = match prev {
                Some(c) => char_is_alphabetic(c),
                None => false,
            };
            let next_letter = match next {
                Some(c) => char_is_alphabetic(c),
                None => false,
            };
            if prev_letter && next_letter {
                out.push(RSQUO);
            } else if is_opening_context(prev) {
                out.push(LSQUO);
            } else {
                out.push(RSQUO);
            }
        } else {
            out.push(s[i]);
        }
        i += 1;
    }
    assert(out@ =~= curly_single_spec(s@));
    out
}

/// `new_string` with the file's curly-quote style re-applied when the
/// matched text `actual_old` differs from `old_string` and has curly quotes.
pub open spec fn preserve_quote_style_spec(
    old_string: Seq<char>,
    actual_old: Seq<char>,
    new_string: Seq<char>,
) -> Seq<char> {
    let has_double = actual_old.contains(LDQUO) || actual_old.contains(RDQUO);
    let has_single = actual_old.contains(LSQUO) || actual_old.contains(RSQUO);
    if old_string == actual_old || (!has_double && !has_single) {
        new_string
    } else {
        let d = if has_double {
            curly_double_spec(new_string)
        } else {
            new_string
        };
        if has_single {
            curly_single_spec(d)
        } else {
            d
        }
    }
}

/// Re-applies the file's curly-quote style to `new_string` (characters).
pub fn preserve_quote_style_chars(old_string: &[char], actual_old: &[char], new_string: &[char]) -> (r:
    Vec<char>)
    ensures
        r@ == preserve_quote_style_spec(old_string@, actual_old@, new_string@),
{
    let same = chars_eq(old_string, actual_old);
    let has_double = has_char(actual_old, LDQUO) || has_char(actual_old, RDQUO);
    let has_single = has_char(actual_old, LSQUO) || has_char(actual_old, RSQUO);
    if same || (!has_double && !has_single) {
        return slice_to_vec(new_string, 0, new_string.len());
    }
    let mut result = slice_to_vec(new_string, 0, new_string.len());
    assert(result@ =~= new_string@);
    if has_double {
        result = apply_curly_double(&result);
    }
    if has_single {
        result = apply_curly_single(&result);
    }
    result
}

/// If the matched file text `actual_old` has curly quotes but the model's
/// `old_string` did not, re-applies the file's curly style to `new_string`.
pub fn preserve_quote_style(old_string: &str, actual_old: &str, new_string: &str) -> (r: String)
    ensures
        r@ == preserve_quote_style_spec(old_string@, actual_old@, new_string@),
{
    let o = chars_of(old_string);
    let a = chars_of(actual_old);
    let n = chars_of(new_string);
    let r = preserve_quote_style_chars(&o, &a, &n);
    string_of(&r)
}

// ---------------------------------------------------------------------------
// Line endings
// ---------------------------------------------------------------------------

/// `\r\n`.
pub open spec fn crlf_seq() -> Seq<char> {
    seq!['\r', '\n']
}

/// `\n`.
pub open spec fn lf_seq() -> Seq<char> {
    seq!['\n']
}

/// CRLF-dominant text: at least one `\r\n`, and as many `\r\n` as `\n`.
pub open spec fn is_crlf_spec(s: Seq<char>) -> bool {
    count_from(s, crlf_seq(), 0) > 0 && count_from(s, crlf_seq(), 0) == count_char(s, '\n')
}

/// CRLF-dominant test on characters.
pub fn is_crlf_chars(s: &[char]) -> (r: bool)
    ensures
        r == is_crlf_spec(s@),
{
    let crlf_v = vec!['\r', '\n'];
    assert(crlf_v@ =~= crlf_seq());
    let crlf = count_matches(s, &crlf_v);
    if crlf == 0 {
        return false;
    }
    let total_lf = count_char_exec(s, '\n');
    crlf == total_lf
}

/// True if the buffer uses CRLF line endings: at least one `\r\n` and no
/// bare `\n` outside CRLF pairs.
pub fn is_crlf(s: &str) -> (r: bool)
    ensures
        r == is_crlf_spec(s@),
{
    let c = chars_of(s);
    is_crlf_chars(&c)
}

/// `s` with every `\r\n` collapsed to `\n` and then every `\n` expanded to `\r\n`.
pub open spec fn to_crlf_spec(s: Seq<char>) -> Seq<char> {
    replace_from(replace_from(s, crlf_seq(), lf_seq(), 0), lf_seq(), crlf_seq(), 0)
}

/// Re-encodes line endings as CRLF, on characters.
pub fn to_crlf_chars(s: &[char]) -> (r: Vec<char>)
    ensures
        r@ == to_crlf_spec(s@),
{
    let crlf_v = vec!['\r', '\n'];
    let lf_v = vec!['\n'];
    assert(crlf_v@ =~= crlf_seq());
    assert(lf_v@ =~= lf_seq());
    let normalized = replace_all(s, &crlf_v, &lf_v);
    replace_all(&normalized, &lf_v, &crlf_v)
}

/// Re-encodes bare LF as CRLF without doubling existing CRLF.
pub fn to_crlf(s: &str) -> (r: String)
    ensures
        r@ == to_crlf_spec(s@),
{
    let c = chars_of(s);
    let r = to_crlf_chars(&c);
    string_of(&r)
}

/// `s` with every `\r\n` collapsed to `\n`.
pub open spec fn lf_normal(s: Seq<char>) -> Seq<char> {
    replace_from(s, crlf_seq(), lf_seq(), 0)
}

/// `s` with every `\n` expanded to `\r\n`.
pub open spec fn lf_expanded(s: Seq<char>) -> Seq<char> {
    replace_from(s, lf_seq(), crlf_seq(), 0)
}

proof fn lemma_replace_skip(h: Seq<char>, f: Seq<char>, t: Seq<char>, i: nat)
    requires
        f.len() > 0,
        i <= h.len(),
    ensures
        replace_from(h, f, t, i) == replace_from(h.skip(i as int), f, t, 0),
    decreases h.len() - i,
{
    let u = h.skip(i as int);
    if i < h.len() {
        assert(matches_at(h, f, i as int) == matches_at(u, f, 0)) by {
            if i + f.len() <= h.len() {
                assert(h.subrange(i as int, (i + f.len()) as int) =~= u.subrange(0, f.len() as int));
            }
        }
        assert(u[0] == h[i as int]);
        if matches_at(h, f, i as int) {
            lemma_replace_skip(h, f, t, (i + f.len()) as nat);
            lemma_replace_skip(u, f, t, f.len());
            assert(u.skip(f.len() as int) =~= h.skip((i + f.len()) as int));
        } else {
            lemma_replace_skip(h, f, t, i + 1);
            lemma_replace_skip(u, f, t, 1);
            assert(u.skip(1) =~= h.skip((i + 1) as int));
        }
    }
}

proof fn lemma_replace_unfold(u: Seq<char>, f: Seq<char>, t: Seq<char>)
    requires
        f.len() > 0,
        u.len() > 0,
    ensures
        replace_from(u, f, t, 0) == if matches_at(u, f, 0) {
            t + replace_from(u.skip(f.len() as int), f, t, 0)
        } else {
            seq![u[0]] + replace_from(u.drop_first(), f, t, 0)
        },
{
    if matches_at(u, f, 0) {
        lemma_replace_skip(u, f, t, f.len());
    } else {
        lemma_replace_skip(u, f, t, 1);
        assert(u.skip(1) =~= u.drop_first());
    }
}

proof fn lemma_count_skip(h: Seq<char>, p: Seq<char>, i: nat)
    requires
        p.len() > 0,
        i <= h.len(),
    ensures
        count_from(h, p, i) == count_from(h.skip(i as int), p, 0),
    decreases h.len() - i,
{
    let u = h.skip(i as int);
    if i < h.len() {
        assert(matches_at(h, p, i as int) == matches_at(u, p, 0)) by {
            if i + p.len() <= h.len() {
                assert(h.subrange(i as int, (i + p.len()) as int) =~= u.subrange(0, p.len() as int));
            }
        }
        if matches_at(h, p, i as int) {
            lemma_count_skip(h, p, (i + p.len()) as nat);
            lemma_count_skip(u, p, p.len());
            assert(u.skip(p.len() as int) =~= h.skip((i + p.len()) as int));
        } else {
            lemma_count_skip(h, p, i + 1);
            lemma_count_skip(u, p, 1);
            assert(u.skip(1) =~= h.skip((i + 1) as int));
        }
    }
}

proof fn lemma_count_unfold(u: Seq<char>, p: Seq<char>)
    requires
        p.len() > 0,
        u.len() > 0,
    ensures
        count_from(u, p, 0) == if matches_at(u, p, 0) {
            1 + count_from(u.skip(p.len() as int), p, 0)
        } else {
            count_from(u.drop_first(), p, 0)
        },
{
    if matches_at(u, p, 0) {
        lemma_count_skip(u, p, p.len());
    } else {
        lemma_count_skip(u, p, 1);
        assert(u.skip(1) =~= u.drop_first());
    }
}

proof fn lemma_expand_step(t: Seq<char>)
    requires
        t.len() > 0,
    ensures
        lf_expanded(t) == if t[0] == '\n' {
            crlf_seq() + lf_expanded(t.drop_first())
        } else {
            seq![t[0]] + lf_expanded(t.drop_first())
        },
{
    lemma_replace_unfold(t, lf_seq(), crlf_seq());
    if t[0] == '\n' {
        assert(t.subrange(0, 1) =~= lf_seq());
    } else {
        assert(t.subrange(0, 1)[0] != lf_seq()[0]);
    }
    assert(t.skip(1) =~= t.drop_first());
}

proof fn lemma_expand_head(t: Seq<char>)
    ensures
        lf_expanded(t).len() > 0 ==> lf_expanded(t)[0] != '\n',
{
    if t.len() > 0 {
        lemma_expand_step(t);
    }
}

proof fn lemma_no_crlf_after(c: char, e: Seq<char>)
    requires
        e.len() > 0 ==> e[0] != '\n',
    ensures
        !matches_at(seq![c] + e, crlf_seq(), 0),
{
    let x = seq![c] + e;
    if matches_at(x, crlf_seq(), 0) {
        assert(x.subrange(0, 2)[1] == crlf_seq()[1]);
        assert(x[1] == e[0]);
    }
}

proof fn lemma_collapse_expand(t: Seq<char>)
    ensures
        lf_normal(lf_expanded(t)) == t,
    decreases t.len(),
{
    if t.len() > 0 {
        lemma_expand_step(t);
        let r = t.drop_first();
        lemma_collapse_expand(r);
        let e = lf_expanded(r);
        if t[0] == '\n' {
            let x = crlf_seq() + e;
            lemma_replace_unfold(x, crlf_seq(), lf_seq());
            assert(x.subrange(0, 2) =~= crlf_seq());
            assert(x.skip(2) =~= e);
            assert(t =~= lf_seq() + r);
        } else {
            let x = seq![t[0]] + e;
            lemma_replace_unfold(x, crlf_seq(), lf_seq());
            lemma_expand_head(r);
            lemma_no_crlf_after(t[0], e);
            assert(x.drop_first() =~= e);
            assert(t =~= seq![t[0]] + r);
        }
    }
}

proof fn lemma_count_char_concat(a: Seq<char>, b: Seq<char>, c: char)
    ensures
        count_char(a + b, c) == count_char(a, c) + count_char(b, c),
    decreases b.len(),
{
    if b.len() > 0 {
        lemma_count_char_concat(a, b.drop_last(), c);
        assert((a + b).drop_last() =~= a + b.drop_last());
    } else {
        assert(a + b =~= a);
    }
}

proof fn lemma_count_char_one(x: char, c: char)
    ensures
        count_char(seq![x], c) == if x == c {
            1nat
        } else {
            0nat
        },
{
    assert(seq![x].drop_last() =~= Seq::<char>::empty());
    assert(seq![x].last() == x);
    assert(count_char(Seq::<char>::empty(), c) == 0);
}

proof fn lemma_count_newline_pairs()
    ensures
        count_char(crlf_seq(), '\n') == 1,
        count_char(lf_seq(), '\n') == 1,
{
    assert(crlf_seq().drop_last() =~= seq!['\r']);
    lemma_count_char_one('\r', '\n');
    lemma_count_char_one('\n', '\n');
}

proof fn lemma_expand_counts(t: Seq<char>)
    ensures
        count_from(lf_expanded(t), crlf_seq(), 0) == count_char(t, '\n'),
        count_char(lf_expanded(t), '\n') == count_char(t, '\n'),
    decreases t.len(),
{
    if t.len() > 0 {
        lemma_expand_step(t);
        let r = t.drop_first();
        lemma_expand_counts(r);
        let e = lf_expanded(r);
        assert(t =~= seq![t[0]] + r);
        lemma_count_char_concat(seq![t[0]], r, '\n');
        lemma_count_char_one(t[0], '\n');
        lemma_count_newline_pairs();
        if t[0] == '\n' {
            let x = crlf_seq() + e;
            lemma_count_unfold(x, crlf_seq());
            assert(x.subrange(0, 2) =~= crlf_seq());
            assert(x.skip(2) =~= e);
            lemma_count_char_concat(crlf_seq(), e, '\n');
        } else {
            let x = seq![t[0]] + e;
            lemma_count_unfold(x, crlf_seq());
            lemma_expand_head(r);
            lemma_no_crlf_after(t[0], e);
            assert(x.drop_first() =~= e);
            lemma_count_char_concat(seq![t[0]], e, '\n');
        }
    } else {
        assert(lf_expanded(t) =~= Seq::<char>::empty());
    }
}

proof fn lemma_collapse_count(s: Seq<char>)
    ensures
        count_char(lf_normal(s), '\n') == count_char(s, '\n'),
    decreases s.len(),
{
    if s.len() > 0 {
        lemma_replace_unfold(s, crlf_seq(), lf_seq());
        lemma_count_newline_pairs();
        if matches_at(s, crlf_seq(), 0) {
            let rest = s.skip(2);
            lemma_collapse_count(rest);
            assert(s =~= crlf_seq() + rest) by {
                assert(s.subrange(0, 2) =~= crlf_seq());
            }
            lemma_count_char_concat(crlf_seq(), rest, '\n');
            lemma_count_char_concat(lf_seq(), lf_normal(rest), '\n');
        } else {
            let rest = s.drop_first();
            lemma_collapse_count(rest);
            assert(s =~= seq![s[0]] + rest);
            lemma_count_char_concat(seq![s[0]], rest, '\n');
            lemma_count_char_concat(seq![s[0]], lf_normal(rest), '\n');
        }
    } else {
        assert(lf_normal(s) =~= Seq::<char>::empty());
    }
}

proof fn lemma_contains_count(s: Seq<char>, c: char)
    requires
        s.contains(c),
    ensures
        count_char(s, c) > 0,
    decreases s.len(),
{
    let i = choose|i: int| 0 <= i < s.len() && s[i] == c;
    if s.last() != c {
        assert(s.drop_last()[i] == c);
        lemma_contains_count(s.drop_last(), c);
    }
}

/// CRLF re-encoding is idempotent, changes nothing but line endings (both
/// texts read the same once `\r\n` is collapsed to `\n`), and leaves any
/// text with a line break CRLF-dominant.
pub proof fn lemma_to_crlf_laws(s: Seq<char>)
    ensures
        to_crlf_spec(to_crlf_spec(s)) == to_crlf_spec(s),
        lf_normal(to_crlf_spec(s)) == lf_normal(s),
        s.contains('\n') ==> is_crlf_spec(to_crlf_spec(s)),
{
    let n = lf_normal(s);
    lemma_collapse_expand(n);
    assert(to_crlf_spec(s) == lf_expanded(n));
    assert(to_crlf_spec(to_crlf_spec(s)) == lf_expanded(lf_normal(lf_expanded(n))));
    if s.contains('\n') {
        lemma_contains_count(s, '\n');
        lemma_collapse_count(s);
        lemma_expand_counts(n);
    }
}

// ---------------------------------------------------------------------------
// Edit distance
// ---------------------------------------------------------------------------

/// The smallest of three numbers.
pub open spec fn min3(x: nat, y: nat, z: nat) -> nat {
    let m = if x <= y {
        x
    } else {
        y
    };
    if m <= z {
        m
    } else {
        z
    }
}

/// Levenshtein distance: the fewest single-character insertions,
/// deletions and substitutions turning `a` into `b`.
pub open spec fn lev(a: Seq<char>, b: Seq<char>) -> nat
    decreases a.len() + b.len(),
{
    if a.len() == 0 {
        b.len()
    } else if b.len() == 0 {
        a.len()
    } else {
        min3(
            lev(a.drop_last(), b) + 1,
            lev(a, b.drop_last()) + 1,
            lev(a.drop_last(), b.drop_last()) + if a.last() == b.last() {
                0nat
            } else {
                1nat
            },
        )
    }
}

proof fn lemma_lev_bound(a: Seq<char>, b: Seq<char>)
    ensures
        lev(a, b) <= a.len() + b.len(),
    decreases a.len() + b.len(),
{
    if a.len() > 0 && b.len() > 0 {
        lemma_lev_bound(a.drop_last(), b);
    }
}

/// Levenshtein distance on characters.
pub fn levenshtein_chars(a: &[char], b: &[char]) -> (r: usize)
    requires
        a.len() + b.len() <= usize::MAX,
    ensures
        r == lev(a@, b@),
{
    let m = a.len();
    let n = b.len();
    if m == 0 {
        return n;
    }
    if n == 0 {
        return m;
    }
    let mut prev: Vec<usize> = Vec::new();
    let mut j: usize = 0;
    while j <= n
        invariant
            j <= n + 1,
            n == b.len(),
            n < usize::MAX,
            prev@.len() == j,
            forall|k: int| 0 <= k < j ==> prev@[k] == lev(a@.take(0), b@.take(k)),
        decreases n + 1 - j,
    {
        proof {
            assert(a@.take(0).len() == 0);
        }
        prev.push(j);
        j += 1;
    }
    let mut i: usize = 1;
    while i <= m
        invariant
            1 <= i <= m + 1,
            m == a.len(),
            n == b.len(),
            n > 0,
            m + n <= usize::MAX,
            prev@.len() == n + 1,
            forall|k: int| 0 <= k <= n ==> prev@[k] == lev(a@.take(i - 1), b@.take(k)),
        decreases m + 1 - i,
    {
        let mut cur: Vec<usize> = Vec::new();
        cur.push(i);
        proof {
            assert(b@.take(0).len() == 0);
            assert(a@.take(i as int).len() == i);
        }
        let mut jj: usize = 1;
        while jj <= n
            invariant
                1 <= jj <= n + 1,
                1 <= i <= m,
                m == a.len(),
                n == b.len(),
                m + n <= usize::MAX,
                prev@.len() == n + 1,
                cur@.len() == jj,
                forall|k: int| 0 <= k <= n ==> prev@[k] == lev(a@.take(i - 1), b@.take(k)),
                forall|k: int| 0 <= k < jj ==> cur@[k] == lev(a@.take(i as int), b@.take(k)),
            decreases n + 1 - jj,
        {
            let ghost ai = a@.take(i as int);
            let ghost bj = b@.take(jj as int);
            proof {
                assert(ai.drop_last() =~= a@.take(i - 1));
                assert(bj.drop_last() =~= b@.take(jj - 1));
                lemma_lev_bound(a@.take(i - 1), b@.take(jj as int));
                lemma_lev_bound(ai, b@.take(jj - 1));
                lemma_lev_bound(a@.take(i - 1), b@.take(jj - 1));
            }
            let cost: usize = if a[i - 1] == b[jj - 1] {
                0
            } else {
                1
            };
            let x = prev[jj] + 1;
            let y = cur[jj - 1] + 1;
            let z = prev[jj - 1] + cost;
            let mxy = if x <= y {
                x
            } else {
                y
            };
            let v = if mxy <= z {
                mxy
            } else {
                z
            };
            cur.push(v);
            jj += 1;
        }
        prev = cur;
        i += 1;
    }
    proof {
        assert(a@.take(m as int) =~= a@);
        assert(b@.take(n as int) =~= b@);
    }
    prev[n]
}

/// Levenshtein distance between two strings, counted in characters.
pub fn levenshtein(a: &str, b: &str) -> (r: usize)
    requires
        a@.len() + b@.len() <= usize::MAX,
    ensures
        r == lev(a@, b@),
{
    let ac = chars_of(a);
    let bc = chars_of(b);
    levenshtein_chars(&ac, &bc)
}


// ---------------------------------------------------------------------------
// Trigram similarity
// ---------------------------------------------------------------------------

/// Three consecutive characters.
pub type Gram = (char, char, char);

/// The trigram starting at position `i`.
pub open spec fn gram_at(s: Seq<char>, i: int) -> Gram {
    (s[i], s[i + 1], s[i + 2])
}

/// The distinct trigrams starting before position `k`.
pub open spec fn grams_upto(s: Seq<char>, k: int) -> Set<Gram> {
    Set::new(|g: Gram| exists|j: int| 0 <= j < k && j + 3 <= s.len() && gram_at(s, j) == g)
}

/// The set of distinct trigrams (3-character shingles) of `s`.
pub open spec fn grams(s: Seq<char>) -> Set<Gram> {
    grams_upto(s, s.len() as int)
}

/// Number of distinct trigrams of `l` that also occur in `n`.
pub open spec fn overlap(l: Seq<char>, n: Seq<char>) -> nat {
    grams(l).intersect(grams(n)).len()
}

fn gram_eq(a: Gram, b: Gram) -> (r: bool)
    ensures
        r == (a == b),
{
    a.0 == b.0 && a.1 == b.1 && a.2 == b.2
}

fn gram_in(v: &Vec<Gram>, g: Gram) -> (r: bool)
    ensures
        r == v@.contains(g),
{
    let mut i: usize = 0;
    while i < v.len()
        invariant
            i <= v.len(),
            forall|j: int| 0 <= j < i ==> v@[j] != g,
        decreases v.len() - i,
    {
        if gram_eq(v[i], g) {
            return true;
        }
        i += 1;
    }
    false
}

/// The distinct trigrams of `s`, without repetition.
fn distinct_grams(s: &[char]) -> (r: Vec<Gram>)
    ensures
        r@.no_duplicates(),
        r@.to_set() == grams(s@),
{
    let mut r: Vec<Gram> = Vec::new();
    let mut i: usize = 0;
    assert(r@.to_set() =~= grams_upto(s@, 0));
    while s.len() >= 3 && i <= s.len() - 3
        invariant
            i + 2 <= s.len() || i == 0,
            r@.no_duplicates(),
            r@.to_set() == grams_upto(s@, i as int),
        decreases s.len() - i,
    {
        let g = (s[i], s[i + 1], s[i + 2]);
        assert(g == gram_at(s@, i as int));
        assert(grams_upto(s@, i + 1) =~= grams_upto(s@, i as int).insert(g));
        if !gram_in(&r, g) {
            let ghost prev = r@;
            r.push(g);
            assert(r@ =~= prev + seq![g]);
            proof { Seq::lemma_to_set_insert_commutes(prev, g); }
        }
        i += 1;
    }
    assert(grams_upto(s@, i as int) =~= grams(s@));
    r
}

/// Number of distinct trigrams (3-character shingles) in `s`; zero for
/// texts shorter than three characters.
pub fn trigram_count_chars(s: &[char]) -> (r: usize)
    ensures
        r == grams(s@).len(),
{
    let g = distinct_grams(s);
    proof {
        g@.unique_seq_to_set();
    }
    g.len()
}

/// Number of distinct 3-character shingles in `s`.
pub fn trigram_count(s: &str) -> (r: usize)
    ensures
        r == grams(s@).len(),
{
    let c = chars_of(s);
    trigram_count_chars(&c)
}

/// Distinct trigrams of `l` that also occur in the set `ng` (the trigrams
/// of the needle `n`).
fn overlap_count(l: &[char], ng: &Vec<Gram>, Ghost(n): Ghost<Seq<char>>) -> (r: usize)
    requires
        ng@.to_set() == grams(n),
    ensures
        r == overlap(l@, n),
{
    let mut seen: Vec<Gram> = Vec::new();
    let mut i: usize = 0;
    assert(seen@.to_set() =~= grams_upto(l@, 0).intersect(grams(n)));
    while l.len() >= 3 && i <= l.len() - 3
        invariant
            i + 2 <= l.len() || i == 0,
            ng@.to_set() == grams(n),
            seen@.no_duplicates(),
            seen@.to_set() == grams_upto(l@, i as int).intersect(grams(n)),
        decreases l.len() - i,
    {
        let g = (l[i], l[i + 1], l[i + 2]);
        assert(g == gram_at(l@, i as int));
        assert(grams_upto(l@, i + 1) =~= grams_upto(l@, i as int).insert(g));
        if gram_in(ng, g) && !gram_in(&seen, g) {
            let ghost prev = seen@;
            seen.push(g);
            assert(seen@ =~= prev + seq![g]);
            proof { Seq::lemma_to_set_insert_commutes(prev, g); }
            assert(seen@.to_set() =~= grams_upto(l@, i + 1).intersect(grams(n)));
        } else {
            assert(seen@.to_set() =~= grams_upto(l@, i + 1).intersect(grams(n)));
        }
        i += 1;
    }
    assert(grams_upto(l@, i as int) =~= grams(l@));
    proof {
        seen@.unique_seq_to_set();
    }
    seen.len()
}


proof fn lemma_short_no_overlap(l: Seq<char>, n: Seq<char>)
    requires
        l.len() < 3,
    ensures
        overlap(l, n) == 0,
{
    assert(grams(l).intersect(grams(n)) =~= Set::<Gram>::empty());
}

/// Line `ln` (1-based) is the first line with the highest positive
/// trigram overlap with `n`, and that overlap is `ov`.
pub open spec fn best_line(ls: Seq<Seq<char>>, n: Seq<char>, ln: int, ov: nat) -> bool {
    &&& 1 <= ln <= ls.len()
    &&& ov == overlap(ls[ln - 1], n)
    &&& ov > 0
    &&& forall|k: int| 0 <= k < ln - 1 ==> overlap(ls[k], n) < ov
    &&& forall|k: int| ln - 1 < k < ls.len() ==> overlap(ls[k], n) <= ov
}

/// For each line of `haystack`, counts distinct trigrams shared with
/// `needle`; returns `(line_number, line_text, overlap)` of the first line
/// with the highest positive overlap.
pub fn closest_line_by_trigram(haystack: &str, needle: &str) -> (r: Option<(usize, String, usize)>)
    ensures
        match r {
            None => needle@.len() < 3 || forall|k: int|
                0 <= k < lines_of(haystack@).len() ==> overlap(lines_of(haystack@)[k], needle@)
                    == 0,
            Some((ln, t, ov)) => needle@.len() >= 3 && best_line(
                lines_of(haystack@),
                needle@,
                ln as int,
                ov as nat,
            ) && t@ == lines_of(haystack@)[ln - 1],
        },
{
    let n = chars_of(needle);
    if n.len() < 3 {
        return None;
    }
    let ng = distinct_grams(&n);
    let lines = lines_of_str(haystack);
    let ghost ls = lines_of(haystack@);
    let mut best: Option<(usize, usize)> = None;
    let mut i: usize = 0;
    while i < lines.len()
        invariant
            i <= lines.len(),
            views(lines@) == ls,
            ng@.to_set() == grams(n@),
            n@ == needle@,
            match best {
                None => forall|k: int| 0 <= k < i ==> overlap(ls[k], n@) == 0,
                Some((b, ov)) => b < i && ov == overlap(ls[b as int], n@) && ov > 0 && (forall|
                    k: int,
                | 0 <= k < b ==> overlap(ls[k], n@) < ov) && (forall|k: int|
                    b < k < i ==> overlap(ls[k], n@) <= ov),
            },
        decreases lines.len() - i,
    {
        assert(views(lines@)[i as int] == lines@[i as int]@);
        let ov = if lines[i].len() < 3 {
            proof {
                lemma_short_no_overlap(ls[i as int], n@);
            }
            0
        } else {
            overlap_count(&lines[i], &ng, Ghost(n@))
        };
        let better = match best {
            None => ov > 0,
            Some((_, bo)) => ov > bo,
        };
        if better {
            best = Some((i, ov));
        }
        i += 1;
    }
    match best {
        None => None,
        Some((b, ov)) => {
            assert(views(lines@)[b as int] == lines@[b as int]@);
            Some((b + 1, string_of(&lines[b]), ov))
        },
    }
}

/// Lines joined with `\n` separators.
pub open spec fn join_lines(ls: Seq<Seq<char>>) -> Seq<char>
    decreases ls.len(),
{
    if ls.len() == 0 {
        Seq::empty()
    } else if ls.len() == 1 {
        ls[0]
    } else {
        join_lines(ls.drop_last()) + seq!['\n'] + ls.last()
    }
}

/// Lines `st .. st + k` of `ls`, joined with `\n`.
pub open spec fn window_text(ls: Seq<Seq<char>>, st: int, k: int) -> Seq<char> {
    join_lines(ls.subrange(st, st + k))
}

/// Joins `lines[st .. st + k]` with `\n`.
fn join_window(lines: &Vec<Vec<char>>, st: usize, k: usize) -> (r: Vec<char>)
    requires
        st + k <= lines.len(),
    ensures
        r@ == window_text(views(lines@), st as int, k as int),
{
    let ghost ls = views(lines@);
    let mut buf: Vec<char> = Vec::new();
    let mut j: usize = 0;
    assert(ls.subrange(st as int, st as int) =~= Seq::<Seq<char>>::empty());
    while j < k
        invariant
            j <= k,
            st + k <= lines.len(),
            ls == views(lines@),
            buf@ == join_lines(ls.subrange(st as int, st + j)),
        decreases k - j,
    {
        assert(ls[st + j] == lines@[st + j]@);
        assert(ls.subrange(st as int, st + j + 1).drop_last() =~= ls.subrange(st as int, st + j));
        assert(ls.subrange(st as int, st + j + 1).last() == ls[st + j]);
        if j > 0 {
            buf.push('\n');
        } else {
            assert(ls.subrange(st as int, st + 1) =~= seq![ls[st as int]]);
        }
        extend_chars(&mut buf, &lines[st + j]);
        j += 1;
    }
    buf
}

/// Window start `st` (0-based) is the first window with the highest
/// positive trigram overlap with `n`, and that overlap is `ov`.
pub open spec fn best_window(ls: Seq<Seq<char>>, n: Seq<char>, k: int, st: int, ov: nat) -> bool {
    &&& 0 <= st <= ls.len() - k
    &&& ov == overlap(window_text(ls, st, k), n)
    &&& ov > 0
    &&& forall|j: int| 0 <= j < st ==> overlap(window_text(ls, j, k), n) < ov
    &&& forall|j: int| st < j <= ls.len() - k ==> overlap(window_text(ls, j, k), n) <= ov
}

/// Slides a window of as many lines as `needle` has over `haystack` and
/// returns `(start_line, end_line, overlap)` (1-based, inclusive) of the
/// first window with the highest positive trigram overlap with `needle`.
pub fn closest_block_by_trigram(haystack: &str, needle: &str) -> (r: Option<(usize, usize, usize)>)
    ensures
        ({
            let ls = lines_of(haystack@);
            let k = lines_of(needle@).len() as int;
            match r {
                None => needle@.len() < 3 || ls.len() < k || forall|j: int|
                    0 <= j <= ls.len() - k ==> overlap(window_text(ls, j, k), needle@) == 0,
                Some((a, b, ov)) => needle@.len() >= 3 && k <= ls.len() && b == a - 1 + k
                    && best_window(ls, needle@, k, a - 1, ov as nat),
            }
        }),
{
    let n = chars_of(needle);
    if n.len() < 3 {
        return None;
    }
    let ng = distinct_grams(&n);
    let lines = lines_of_str(haystack);
    let nlines = split_lines(&n);
    let k = nlines.len();
    let ghost ls = lines_of(haystack@);
    assert(views(nlines@).len() == nlines@.len());
    proof {
        lemma_lines_nonempty(n@, Seq::empty());
    }
    if lines.len() < k {
        return None;
    }
    let mut best: Option<(usize, usize)> = None;
    let mut st: usize = 0;
    while st <= lines.len() - k
        invariant
            1 <= k <= lines.len(),
            st <= lines.len() - k + 1,
            views(lines@) == ls,
            ng@.to_set() == grams(n@),
            n@ == needle@,
            match best {
                None => forall|j: int| 0 <= j < st ==> overlap(window_text(ls, j, k as int), n@)
                    == 0,
                Some((b, ov)) => b < st && ov == overlap(window_text(ls, b as int, k as int), n@)
                    && ov > 0 && (forall|j: int|
                    0 <= j < b ==> overlap(window_text(ls, j, k as int), n@) < ov) && (forall|
                    j: int,
                | b < j < st ==> overlap(window_text(ls, j, k as int), n@) <= ov),
            },
        decreases lines.len() - k + 1 - st,
    {
        let buf = join_window(&lines, st, k);
        let ov = if buf.len() < 3 {
            proof {
                lemma_short_no_overlap(buf@, n@);
            }
            0
        } else {
            overlap_count(&buf, &ng, Ghost(n@))
        };
        let better = match best {
            None => ov > 0,
            Some((_, bo)) => ov > bo,
        };
        if better {
            best = Some((st, ov));
        }
        st += 1;
    }
    match best {
        None => None,
        Some((b, ov)) => Some((b + 1, b + k, ov)),
    }
}


// ---------------------------------------------------------------------------
// Tolerant matching
// ---------------------------------------------------------------------------

/// `k` is the first position where `n` occurs in `h`.
pub open spec fn first_match(h: Seq<char>, n: Seq<char>, k: int) -> bool {
    matches_at(h, n, k) && forall|j: int| 0 <= j < k ==> !matches_at(h, n, j)
}

/// The text of `h` that matches `n` once curly quotes are straightened on
/// both sides; `None` when quote normalisation changes neither side.
pub open spec fn quote_match_ok(h: Seq<char>, n: Seq<char>, r: Option<Seq<char>>) -> bool {
    let nh = normalize_quotes_spec(h);
    let nn = normalize_quotes_spec(n);
    match r {
        None => n.len() == 0 || (nn == n && nh == h) || forall|j: int| !matches_at(nh, nn, j),
        Some(sl) => n.len() > 0 && !(nn == n && nh == h) && exists|k: int|
            first_match(nh, nn, k) && sl == h.subrange(k, k + n.len()),
    }
}

/// If exact matching failed, matches `needle` against `haystack` with curly
/// quotes normalised to straight on both sides; on a hit returns the
/// file's own text (with its curly quotes).
pub fn find_via_quote_normalization(haystack: &[char], needle: &[char]) -> (r: Option<Vec<char>>)
    ensures
        match r {
            Some(v) => quote_match_ok(haystack@, needle@, Some(v@)),
            None => quote_match_ok(haystack@, needle@, None),
        },
{
    if needle.len() == 0 {
        return None;
    }
    let norm_h = normalize_quote_chars(haystack);
    let norm_n = normalize_quote_chars(needle);
    if chars_eq(&norm_n, needle) && chars_eq(&norm_h, haystack) {
        return None;
    }
    match find_from(&norm_h, &norm_n, 0) {
        None => None,
        Some(k) => {
            assert(norm_n@.len() == needle@.len());
            assert(norm_h@.len() == haystack@.len());
            assert(k + needle.len() <= haystack.len());
            let sl = slice_to_vec(haystack, k, k + needle.len());
            assert(first_match(norm_h@, norm_n@, k as int));
            Some(sl)
        },
    }
}

/// Some needle line, once trailing white space is removed, still starts
/// with white space: then both sides are compared fully trimmed.
pub open spec fn lead_ws(nl: Seq<Seq<char>>) -> bool {
    exists|j: int| 0 <= j < nl.len() && trim_start(trim_end(nl[j])) != trim_end(nl[j])
}

/// The comparison key of a line.
pub open spec fn ws_key(lead: bool, l: Seq<char>) -> Seq<char> {
    if lead {
        trim(l)
    } else {
        trim_end(l)
    }
}

/// The needle lines match the haystack lines starting at `st`, up to
/// white space.
pub open spec fn window_eq(hl: Seq<Seq<char>>, nl: Seq<Seq<char>>, lead: bool, st: int) -> bool {
    forall|j: int| 0 <= j < nl.len() ==> ws_key(lead, #[trigger] hl[st + j]) == ws_key(lead, nl[j])
}

/// The file's text from the start of line `st` to the end of the content
/// of line `st + k - 1`.
pub open spec fn ws_slice(h: Seq<char>, st: int, k: int) -> Seq<char> {
    let sp = line_spans(h);
    h.subrange(sp[st].0 as int, sp[st + k - 1].1 as int)
}

/// Number of matching windows starting before `upto`.
pub open spec fn window_count(hl: Seq<Seq<char>>, nl: Seq<Seq<char>>, lead: bool, upto: int) -> nat
    decreases upto,
{
    if upto <= 0 {
        0
    } else {
        window_count(hl, nl, lead, upto - 1) + if window_eq(hl, nl, lead, upto - 1) {
            1nat
        } else {
            0nat
        }
    }
}

/// The result of the white-space tolerant search.
pub open spec fn ws_match_ok(h: Seq<char>, n: Seq<char>, replace_all: bool, r: Option<(Seq<char>, nat)>) -> bool {
    let hl = lines_of(h);
    let nl = lines_of(n);
    let k = nl.len() as int;
    let last = hl.len() - k;
    let lead = lead_ws(nl);
    match r {
        None => k == 0 || last < 0 || (forall|st: int| 0 <= st <= last ==> !window_eq(hl, nl, lead, st))
            || (replace_all && exists|a: int, b: int|
            #![trigger window_eq(hl, nl, lead, a), window_eq(hl, nl, lead, b)]
            0 <= a <= last && 0 <= b <= last && window_eq(hl, nl, lead, a) && window_eq(
                hl,
                nl,
                lead,
                b,
            ) && ws_slice(h, a, k) != ws_slice(h, b, k)),
        Some((sl, c)) => k > 0 && last >= 0 && exists|f: int|
            0 <= f <= last && window_eq(hl, nl, lead, f) && (forall|j: int|
                0 <= j < f ==> !window_eq(hl, nl, lead, j)) && sl == ws_slice(h, f, k) && (if replace_all {
                c == window_count(hl, nl, lead, last + 1) && forall|st: int|
                    0 <= st <= last && window_eq(hl, nl, lead, st) ==> ws_slice(h, st, k) == sl
            } else {
                c == 1
            }),
    }
}

/// Comparison keys of all lines.
fn ws_keys(lines: &Vec<Vec<char>>, lead: bool) -> (r: Vec<Vec<char>>)
    ensures
        r@.len() == lines@.len(),
        forall|j: int| 0 <= j < lines@.len() ==> #[trigger] r@[j]@ == ws_key(lead, lines@[j]@),
{
    let mut out: Vec<Vec<char>> = Vec::new();
    let mut i: usize = 0;
    while i < lines.len()
        invariant
            i <= lines.len(),
            out@.len() == i,
            forall|j: int| 0 <= j < i ==> #[trigger] out@[j]@ == ws_key(lead, lines@[j]@),
        decreases lines.len() - i,
    {
        let key = if lead {
            trim_chars(&lines[i])
        } else {
            trim_end_chars(&lines[i])
        };
        out.push(key);
        i += 1;
    }
    out
}

/// White-space tolerant fallback: slides a window of the needle's line
/// count over the haystack and compares line by line with trailing (or,
/// when the needle has leading indentation, all surrounding) white space
/// ignored. On a hit returns the file's real text for the window and the
/// number of matching windows; with `replace_all` every matching window
/// must hold the same text, otherwise the search stops at the first.
pub fn find_with_whitespace_tolerance(haystack: &[char], needle: &[char], replace_all: bool) -> (r:
    Option<(Vec<char>, usize)>)
    ensures
        match r {
            Some((v, c)) => ws_match_ok(haystack@, needle@, replace_all, Some((v@, c as nat))),
            None => ws_match_ok(haystack@, needle@, replace_all, None),
        },
{
    let nlines = split_lines(needle);
    let ghost nl = lines_of(needle@);
    let k = nlines.len();
    assert(views(nlines@).len() == nlines@.len());
    if k == 0 {
        return None;
    }
    let mut lead = false;
    let mut j: usize = 0;
    while j < k
        invariant
            j <= k,
            k == nlines@.len(),
            views(nlines@) == nl,
            lead == exists|q: int| 0 <= q < j && trim_start(trim_end(nl[q])) != trim_end(nl[q]),
        decreases k - j,
    {
        assert(nl[j as int] == nlines@[j as int]@);
        let te = trim_end_chars(&nlines[j]);
        let ts = trim_start_chars(&te);
        if !chars_eq(&ts, &te) {
            lead = true;
        }
        j += 1;
    }
    assert(lead == lead_ws(nl));
    let hlines = split_lines(haystack);
    let ghost hl = lines_of(haystack@);
    assert(views(hlines@).len() == hlines@.len());
    if hlines.len() < k {
        return None;
    }
    let spans = line_spans_exec(haystack);
    proof {
        lemma_line_spans(haystack@);
    }
    let nkeys = ws_keys(&nlines, lead);
    let hkeys = ws_keys(&hlines, lead);
    let last = hlines.len() - k;
    let mut found: Option<Vec<char>> = None;
    let mut first: usize = 0;
    let mut count: usize = 0;
    let mut st: usize = 0;
    while st <= last && (replace_all || count == 0)
        invariant
            hl == lines_of(haystack@),
            nl == lines_of(needle@),
            1 <= k,
            k == nl.len(),
            last == hl.len() - k,
            st <= last + 1,
            hlines@.len() == hl.len(),
            views(hlines@) == hl,
            views(nlines@) == nl,
            lead == lead_ws(nl),
            nkeys@.len() == k,
            hkeys@.len() == hl.len(),
            forall|q: int| 0 <= q < k ==> #[trigger] nkeys@[q]@ == ws_key(lead, nl[q]),
            forall|q: int| 0 <= q < hl.len() ==> #[trigger] hkeys@[q]@ == ws_key(lead, hl[q]),
            nat_pairs(spans@) == line_spans(haystack@),
            hl == span_texts(haystack@, line_spans(haystack@)),
            spans_ordered(haystack@, line_spans(haystack@), 0),
            count <= st,
            replace_all ==> count == window_count(hl, nl, lead, st as int),
            match found {
                None => count == 0 && forall|q: int| 0 <= q < st ==> !window_eq(hl, nl, lead, q),
                Some(v) => count >= 1 && first < st && window_eq(hl, nl, lead, first as int) && (
                forall|q: int| 0 <= q < first ==> !window_eq(hl, nl, lead, q)) && v@ == ws_slice(
                    haystack@,
                    first as int,
                    k as int,
                ) && (replace_all ==> forall|q: int|
                    0 <= q < st && window_eq(hl, nl, lead, q) ==> ws_slice(
                        haystack@,
                        q,
                        k as int,
                    ) == v@) && (!replace_all ==> count == 1),
            },
        decreases last + 1 - st,
    {
        let mut ok = true;
        let mut q: usize = 0;
        while q < k
            invariant
                q <= k,
                k == nl.len(),
                st + k <= hl.len(),
                st + k <= hlines.len(),
                hlines@.len() == hl.len(),
                nkeys@.len() == k,
                hkeys@.len() == hl.len(),
                forall|x: int| 0 <= x < k ==> #[trigger] nkeys@[x]@ == ws_key(lead, nl[x]),
                forall|x: int| 0 <= x < hl.len() ==> #[trigger] hkeys@[x]@ == ws_key(lead, hl[x]),
                ok == forall|x: int| 0 <= x < q ==> ws_key(lead, #[trigger] hl[st + x]) == ws_key(
                    lead,
                    nl[x],
                ),
            decreases k - q,
        {
            if !chars_eq(&hkeys[st + q], &nkeys[q]) {
                ok = false;
            }
            proof {
                assert(hkeys@[st + q]@ == ws_key(lead, hl[st + q]));
                assert(nkeys@[q as int]@ == ws_key(lead, nl[q as int]));
                if ok {
                    assert forall|x: int| 0 <= x < q + 1 implies ws_key(lead, #[trigger] hl[st + x])
                        == ws_key(lead, nl[x]) by {
                        if x == q {
                        }
                    }
                }
            }
            q += 1;
        }
        assert(ok == window_eq(hl, nl, lead, st as int));
        if ok {
            assert(st + k <= hlines.len());
            let a = spans[st].0;
            let b = spans[st + k - 1].1;
            proof {
                assert(nat_pairs(spans@)[st as int] == line_spans(haystack@)[st as int]);
                assert(nat_pairs(spans@)[st + k - 1] == line_spans(haystack@)[st + k - 1]);
                if k > 1 {
                    assert(line_spans(haystack@)[st as int].1 < line_spans(haystack@)[st + k
                        - 1].0);
                }
            }
            let sl = slice_to_vec(haystack, a, b);
            match found {
                None => {
                    found = Some(sl);
                    first = st;
                    count = 1;
                },
                Some(ref v) => {
                    if chars_eq(v, &sl) {
                        count += 1;
                    } else {
                        assert(window_eq(hl, nl, lead, first as int));
                        assert(window_eq(hl, nl, lead, st as int));
                        assert(0 <= first <= last && 0 <= st <= last);
                        assert(ws_slice(haystack@, first as int, k as int) != ws_slice(
                            haystack@,
                            st as int,
                            k as int,
                        ));
                        let ghost fa = first as int;
                        let ghost sb = st as int;
                        let ghost kk = nl.len() as int;
                        let ghost lst = hl.len() - kk;
                        assert(0 <= fa <= lst && 0 <= sb <= lst && window_eq(hl, nl, lead, fa)
                            && window_eq(hl, nl, lead, sb) && ws_slice(haystack@, fa, kk)
                            != ws_slice(haystack@, sb, kk));
                        assert(replace_all);
                        assert(exists|a: int, b: int|
                            #![trigger window_eq(hl, nl, lead, a), window_eq(hl, nl, lead, b)]
                            0 <= a <= lst && 0 <= b <= lst && window_eq(hl, nl, lead, a) && window_eq(
                                hl,
                                nl,
                                lead,
                                b,
                            ) && ws_slice(haystack@, a, kk) != ws_slice(haystack@, b, kk));
                        return None;
                    }
                },
            }
        }
        st += 1;
    }
    match found {
        None => None,
        Some(v) => Some((v, count)),
    }
}

/// Positions of the non-overlapping, left-to-right occurrences of `n` in
/// `h[i..]` (`n` non-empty).
pub open spec fn match_positions(h: Seq<char>, n: Seq<char>, i: nat) -> Seq<nat>
    decreases h.len() - i,
{
    if i >= h.len() || n.len() == 0 {
        Seq::empty()
    } else if matches_at(h, n, i as int) {
        seq![i] + match_positions(h, n, (i + n.len()) as nat)
    } else {
        match_positions(h, n, i + 1)
    }
}

/// 1-based line number of character position `p`.
pub open spec fn line_number_at(h: Seq<char>, p: nat) -> nat {
    count_char(h.take(p as int), '\n') + 1
}

/// The line numbers reported for the first `cap` (at least one) matches.
pub open spec fn match_lines_spec(h: Seq<char>, n: Seq<char>, cap: nat) -> Seq<nat> {
    let want = if cap == 0 {
        1
    } else {
        cap
    };
    if n.len() == 0 {
        Seq::new(want, |i: int| 1nat)
    } else {
        let ps = match_positions(h, n, 0);
        let m = if ps.len() < want {
            ps.len()
        } else {
            want
        };
        Seq::new(m, |i: int| line_number_at(h, ps[i]))
    }
}

/// The 1-based line numbers of the first `cap` occurrences of `needle`.
pub fn locate_match_lines(text: &[char], needle: &[char], cap: usize) -> (r: Vec<usize>)
    ensures
        r@.len() == match_lines_spec(text@, needle@, cap as nat).len(),
        forall|i: int| 0 <= i < r@.len() ==> r@[i] == match_lines_spec(text@, needle@, cap as nat)[i],
{
    let want = if cap == 0 {
        1
    } else {
        cap
    };
    let mut out: Vec<usize> = Vec::new();
    if needle.len() == 0 {
        while out.len() < want
            invariant
                out@.len() <= want,
                forall|i: int| 0 <= i < out@.len() ==> out@[i] == 1,
            decreases want - out@.len(),
        {
            out.push(1);
        }
        return out;
    }
    let ghost ps = match_positions(text@, needle@, 0);
    let mut i: usize = 0;
    let mut lines_before: usize = 0;
    let mut counted: usize = 0;
    while i < text.len() && out.len() < want
        invariant
            i <= text.len(),
            needle.len() > 0,
            counted <= i,
            lines_before == count_char(text@.take(counted as int), '\n'),
            lines_before <= counted,
            out@.len() <= want,
            ps.len() == out@.len() + match_positions(text@, needle@, i as nat).len(),
            forall|q: int| 0 <= q < out@.len() ==> ps[q] < i,
            forall|q: int| 0 <= q < out@.len() ==> out@[q] == line_number_at(text@, ps[q]),
            ps.subrange(out@.len() as int, ps.len() as int) == match_positions(text@, needle@, i as nat),
        decreases text.len() - i,
    {
        if match_at(text, needle, i) {
            while counted < i
                invariant
                    counted <= i <= text.len(),
                    lines_before == count_char(text@.take(counted as int), '\n'),
                    lines_before <= counted,
                decreases i - counted,
            {
                assert(text@.take(counted + 1).drop_last() =~= text@.take(counted as int));
                if text[counted] == '\n' {
                    lines_before += 1;
                }
                counted += 1;
            }
            let ghost before = out@;
            out.push(lines_before + 1);
            proof {
                let rest = match_positions(text@, needle@, (i + needle.len()) as nat);
                assert(match_positions(text@, needle@, i as nat) == seq![i as nat] + rest);
                assert(ps.subrange(before.len() as int, ps.len() as int)[0] == i);
                assert(ps[before.len() as int] == i);
                assert(ps.subrange(out@.len() as int, ps.len() as int) =~= ps.subrange(
                    before.len() as int,
                    ps.len() as int,
                ).drop_first());
                assert((seq![i as nat] + rest).drop_first() =~= rest);
            }
            i += needle.len();
        } else {
            i += 1;
        }
    }
    proof {
        let m = out@.len();
        let want_n = want as nat;
        if m < want {
            assert(i >= text.len());
            assert(match_positions(text@, needle@, i as nat).len() == 0);
        }
    }
    out
}


// ---------------------------------------------------------------------------
// Diagnosis of a failed match
// ---------------------------------------------------------------------------

/// Lower-case mapping of a string as `str::to_lowercase` performs it.
pub uninterp spec fn lowercase(s: Seq<char>) -> Seq<char>;

/// `str::to_lowercase`; the contract names its result `lowercase(s@)`.
#[verifier::external_body]
pub(crate) fn str_to_lowercase(s: &str) -> (r: String)
    ensures
        r@ == lowercase(s@),
{
    s.to_lowercase()
}

proof fn lemma_best_line_unique(ls: Seq<Seq<char>>, n: Seq<char>, a: int, oa: nat, b: int, ob: nat)
    requires
        best_line(ls, n, a, oa),
        best_line(ls, n, b, ob),
    ensures
        a == b,
        oa == ob,
{
    if a < b {
        assert(overlap(ls[a - 1], n) < ob);
        assert(overlap(ls[b - 1], n) <= oa);
    } else if b < a {
        assert(overlap(ls[b - 1], n) < oa);
        assert(overlap(ls[a - 1], n) <= ob);
    }
}

proof fn lemma_best_window_unique(ls: Seq<Seq<char>>, n: Seq<char>, k: int, a: int, oa: nat, b: int, ob: nat)
    requires
        best_window(ls, n, k, a, oa),
        best_window(ls, n, k, b, ob),
    ensures
        a == b,
        oa == ob,
{
    if a < b {
        assert(overlap(window_text(ls, a, k), n) < ob);
        assert(overlap(window_text(ls, b, k), n) <= oa);
    } else if b < a {
        assert(overlap(window_text(ls, b, k), n) < oa);
        assert(overlap(window_text(ls, a, k), n) <= ob);
    }
}

/// The line of `h` closest to `n` by trigram overlap, as
/// `(line_number, overlap)`, if any line shares a trigram with `n`.
pub open spec fn closest_line_spec(h: Seq<char>, n: Seq<char>) -> Option<(int, nat)> {
    let ls = lines_of(h);
    if n.len() >= 3 && exists|ln: int, ov: nat| best_line(ls, n, ln, ov) {
        let (ln, ov) = choose|ln: int, ov: nat| best_line(ls, n, ln, ov);
        Some((ln, ov))
    } else {
        None
    }
}

/// The window of `h` (as many lines as `n` has) closest to `n`, as
/// `(first_line, last_line, overlap)`, 1-based.
pub open spec fn closest_block_spec(h: Seq<char>, n: Seq<char>) -> Option<(int, int, nat)> {
    let ls = lines_of(h);
    let k = lines_of(n).len() as int;
    if n.len() >= 3 && k <= ls.len() && exists|st: int, ov: nat| best_window(ls, n, k, st, ov) {
        let (st, ov) = choose|st: int, ov: nat| best_window(ls, n, k, st, ov);
        Some((st + 1, st + k, ov))
    } else {
        None
    }
}

/// Hint when the mismatch is only CRLF line endings.
pub open spec fn crlf_hint() -> Seq<char> {
    " (hint: file has CRLF line endings - supply old_string with \\r\\n line endings or read the file again)"@
}

/// Hint when the mismatch is only surrounding white space.
pub open spec fn ws_hint() -> Seq<char> {
    " (hint: leading/trailing whitespace differs \u{2014} match found if you trim the old_string)"@
}

/// Hint when the mismatch is only letter case.
pub open spec fn case_hint() -> Seq<char> {
    " (hint: case differs \u{2014} match found case-insensitively)"@
}

/// `s.chars().take(n)`.
pub open spec fn take_at_most(s: Seq<char>, n: nat) -> Seq<char> {
    if s.len() <= n {
        s
    } else {
        s.take(n as int)
    }
}

/// The numbered file lines `start .. end` shown in the first-line hint.
pub open spec fn block_lines(ls: Seq<Seq<char>>, start: int, end: int) -> Seq<char>
    decreases end - start,
{
    if end <= start {
        Seq::empty()
    } else {
        block_lines(ls, start, end - 1) + "\n  L"@ + decimal((end - 1 + 1) as nat) + ": "@
            + take_at_most(ls[end - 1], 200)
    }
}

/// Hint quoting the real file block when the first line matched.
pub open spec fn first_line_hint(start: int, cnt: int, block: Seq<char>) -> Seq<char> {
    " (hint: first line matches L"@ + decimal((start + 1) as nat)
        + " but old_string diverges from actual file content. Compare your old_string against the real "@
        + decimal(cnt as nat) + "-line block:"@ + block + ")"@
}

/// Hint when the first line occurs only inside a longer file line.
pub open spec fn first_line_fallback(fl: Seq<char>) -> Seq<char> {
    " (hint: first line of old_string '"@ + take_at_most(fl, 40)
        + "\u{2026}' is present, but the rest doesn't match - file may have changed; read it again)"@
}

/// Hint naming the closest single line.
pub open spec fn closest_line_hint(ln: int, text: Seq<char>) -> Seq<char> {
    " (hint: closest line in file is L"@ + decimal(ln as nat) + ": '"@ + take_at_most(text, 60)
        + "'; check for whitespace/typo)"@
}

/// Hint naming the closest block of lines.
pub open spec fn closest_block_hint(k: int, a: int, b: int, preview: Seq<char>) -> Seq<char> {
    " (hint: closest "@ + decimal(k as nat) + "-line block is L"@ + decimal(a as nat) + "-L"@
        + decimal(b as nat) + " starting '"@ + take_at_most(preview, 60)
        + "'; re-read that range and retry)"@
}

/// The overlap is at least 40% of the needle's trigrams.
pub open spec fn similar_enough(score: nat, n: Seq<char>) -> bool {
    grams(n).len() > 0 && score * 100 / grams(n).len() >= 40
}

/// The hint attached to a failed lookup of `n` in `h`, tried in order:
/// CRLF endings, surrounding white space, letter case, a matching first
/// line (quoting the real block), then the closest line or block by
/// trigram overlap; empty when nothing fits.
pub open spec fn diagnosis(h: Seq<char>, n: Seq<char>) -> Seq<char> {
    let nl = lines_of(n);
    let hl = lines_of(h);
    if n.len() == 0 {
        Seq::empty()
    } else if (contains_seq(h, crlf_seq()) || contains_seq(n, crlf_seq())) && contains_seq(
        replace_from(h, crlf_seq(), lf_seq(), 0),
        replace_from(n, crlf_seq(), lf_seq(), 0),
    ) {
        crlf_hint()
    } else if trim(n).len() > 0 && contains_seq(h, trim(n)) {
        ws_hint()
    } else if nl.len() == 1 && exists|i: int|
        0 <= i < hl.len() && contains_seq(lowercase(hl[i]), lowercase(n)) {
        case_hint()
    } else if nl.len() > 0 && utf8_len(nl[0]) >= 10 && contains_seq(h, nl[0]) {
        if exists|i: int| 0 <= i < hl.len() && hl[i] == nl[0] {
            let start = choose|i: int|
                0 <= i < hl.len() && hl[i] == nl[0] && forall|j: int| 0 <= j < i ==> hl[j] != nl[0];
            let end = if start + nl.len() < hl.len() {
                start + nl.len()
            } else {
                hl.len() as int
            };
            first_line_hint(start, end - start, block_lines(hl, start, end))
        } else {
            first_line_fallback(nl[0])
        }
    } else if nl.len() == 1 && utf8_len(n) <= 200 {
        match closest_line_spec(h, n) {
            Some((ln, score)) => if similar_enough(score, n) {
                closest_line_hint(ln, hl[ln - 1])
            } else {
                Seq::empty()
            },
            None => Seq::empty(),
        }
    } else if nl.len() >= 2 && utf8_len(n) <= 4000 {
        match closest_block_spec(h, n) {
            Some((a, b, score)) => if similar_enough(score, n) {
                closest_block_hint(nl.len() as int, a, b, hl[a - 1])
            } else {
                Seq::empty()
            },
            None => Seq::empty(),
        }
    } else {
        Seq::empty()
    }
}

/// Appends a string literal.
fn push_lit(dst: &mut Vec<char>, s: &str)
    ensures
        final(dst)@ == old(dst)@ + s@,
{
    extend_str(dst, s);
}

/// Appends at most `n` leading characters of `s`.
fn push_prefix(dst: &mut Vec<char>, s: &[char], n: usize)
    ensures
        final(dst)@ == old(dst)@ + take_at_most(s@, n as nat),
{
    let t = take_chars(s, n);
    if s.len() <= n {
        assert(s@.take(s.len() as int) =~= s@);
    }
    extend_chars(dst, &t);
}

/// Whether any line contains `n_low` after lower-casing.
fn any_line_contains_lower(lines: &Vec<Vec<char>>, n_low: &[char]) -> (r: bool)
    ensures
        r == exists|i: int|
            0 <= i < lines@.len() && contains_seq(lowercase(lines@[i]@), n_low@),
{
    let mut i: usize = 0;
    while i < lines.len()
        invariant
            i <= lines.len(),
            forall|j: int| 0 <= j < i ==> !contains_seq(lowercase(lines@[j]@), n_low@),
        decreases lines.len() - i,
    {
        let ls = string_of(&lines[i]);
        let low = str_to_lowercase(ls.as_str());
        let lc = chars_of(low.as_str());
        if contains_chars(&lc, n_low) {
            return true;
        }
        i += 1;
    }
    false
}

/// Best-effort hint when an `old_string` lookup misses: detects CRLF,
/// white space and case differences, quotes the real block when only the
/// first line matches, and otherwise points at the closest line or block.
pub fn diagnose_missing(haystack: &str, needle: &str) -> (r: String)
    ensures
        r@ == diagnosis(haystack@, needle@),
{
    let h = chars_of(haystack);
    let n = chars_of(needle);
    let ghost hs = haystack@;
    let ghost ns = needle@;
    if n.len() == 0 {
        return String::new();
    }
    let crlf_v = vec!['\r', '\n'];
    let lf_v = vec!['\n'];
    assert(crlf_v@ =~= crlf_seq());
    assert(lf_v@ =~= lf_seq());
    if contains_chars(&h, &crlf_v) || contains_chars(&n, &crlf_v) {
        let nh = replace_all(&h, &crlf_v, &lf_v);
        let nn = replace_all(&n, &crlf_v, &lf_v);
        if contains_chars(&nh, &nn) {
            let mut out: Vec<char> = Vec::new();
            push_lit(
                &mut out,
                " (hint: file has CRLF line endings - supply old_string with \\r\\n line endings or read the file again)",
            );
            return string_of(&out);
        }
    }
    let nt = trim_chars(&n);
    if nt.len() > 0 && contains_chars(&h, &nt) {
        let mut out: Vec<char> = Vec::new();
        push_lit(
            &mut out,
            " (hint: leading/trailing whitespace differs \u{2014} match found if you trim the old_string)",
        );
        return string_of(&out);
    }
    let nlines = split_lines(&n);
    let hlines = split_lines(&h);
    let ghost nl = lines_of(ns);
    let ghost hl = lines_of(hs);
    assert(views(nlines@).len() == nlines@.len());
    assert(views(hlines@).len() == hlines@.len());
    if nlines.len() == 1 {
        let n_low_s = str_to_lowercase(needle);
        let n_low = chars_of(n_low_s.as_str());
        if any_line_contains_lower(&hlines, &n_low) {
            proof {
                let i = choose|i: int|
                    0 <= i < hlines@.len() && contains_seq(lowercase(hlines@[i]@), n_low@);
                assert(hl[i] == hlines@[i]@);
            }
            let mut out: Vec<char> = Vec::new();
            push_lit(&mut out, " (hint: case differs \u{2014} match found case-insensitively)");
            return string_of(&out);
        } else {
            assert forall|i: int| 0 <= i < hl.len() implies !contains_seq(
                lowercase(hl[i]),
                lowercase(ns),
            ) by {
                assert(hl[i] == hlines@[i]@);
            }
        }
    }
    if nlines.len() > 0 {
        let fl = &nlines[0];
        assert(nl[0] == nlines@[0]@);
        if utf8_len_capped(fl, 10) >= 10 && contains_chars(&h, fl) {
            let mut idx: usize = 0;
            let mut found = false;
            while idx < hlines.len() && !found
                invariant
                    idx <= hlines.len(),
                    views(hlines@) == hl,
                    nl[0] == fl@,
                    !found ==> forall|j: int| 0 <= j < idx ==> hl[j] != nl[0],
                    found ==> idx < hlines.len() && hl[idx as int] == nl[0] && forall|j: int|
                        0 <= j < idx ==> hl[j] != nl[0],
                decreases hlines.len() - idx + if found {
                    0int
                } else {
                    1int
                },
            {
                assert(hl[idx as int] == hlines@[idx as int]@);
                if chars_eq(&hlines[idx], fl) {
                    found = true;
                } else {
                    idx += 1;
                }
            }
            if found {
                let start = idx;
                proof {
                    let c = choose|i: int|
                        0 <= i < hl.len() && hl[i] == nl[0] && forall|j: int|
                            0 <= j < i ==> hl[j] != nl[0];
                    assert(c == start as int) by {
                        if c < start {
                        } else if c > start {
                        }
                    }
                }
                let end = if nlines.len() <= hlines.len() - start {
                    start + nlines.len()
                } else {
                    hlines.len()
                };
                let mut block: Vec<char> = Vec::new();
                let mut i = start;
                while i < end
                    invariant
                        start <= i <= end <= hlines.len(),
                        views(hlines@) == hl,
                        block@ == block_lines(hl, start as int, i as int),
                    decreases end - i,
                {
                    assert(hl[i as int] == hlines@[i as int]@);
                    push_lit(&mut block, "\n  L");
                    push_decimal(&mut block, (i + 1) as u64);
                    push_lit(&mut block, ": ");
                    push_prefix(&mut block, &hlines[i], 200);
                    i += 1;
                    assert(block@ =~= block_lines(hl, start as int, i as int));
                }
                let mut out: Vec<char> = Vec::new();
                push_lit(&mut out, " (hint: first line matches L");
                push_decimal(&mut out, (start + 1) as u64);
                push_lit(
                    &mut out,
                    " but old_string diverges from actual file content. Compare your old_string against the real ",
                );
                push_decimal(&mut out, (end - start) as u64);
                push_lit(&mut out, "-line block:");
                extend_chars(&mut out, &block);
                push_lit(&mut out, ")");
                return string_of(&out);
            } else {
                let mut out: Vec<char> = Vec::new();
                push_lit(&mut out, " (hint: first line of old_string '");
                push_prefix(&mut out, fl, 40);
                push_lit(
                    &mut out,
                    "\u{2026}' is present, but the rest doesn't match - file may have changed; read it again)",
                );
                return string_of(&out);
            }
        }
    }
    let nlc = nlines.len();
    if nlc == 1 && utf8_len_capped(&n, 201) <= 200 {
        match closest_line_by_trigram(haystack, needle) {
            Some((ln, text, score)) => {
                proof {
                    assert(best_line(hl, ns, ln as int, score as nat));
                    let (pl, po) = choose|pl: int, po: nat| best_line(hl, ns, pl, po);
                    lemma_best_line_unique(hl, ns, pl, po, ln as int, score as nat);
                }
                let ng = trigram_count_chars(&n);
                if ng > 0 && (score as u128) * 100 / (ng as u128) >= 40 {
                    let tc = chars_of(text.as_str());
                    let mut out: Vec<char> = Vec::new();
                    push_lit(&mut out, " (hint: closest line in file is L");
                    push_decimal(&mut out, ln as u64);
                    push_lit(&mut out, ": '");
                    push_prefix(&mut out, &tc, 60);
                    push_lit(&mut out, "'; check for whitespace/typo)");
                    return string_of(&out);
                }
            },
            None => {},
        }
    } else if nlc >= 2 && utf8_len_capped(&n, 4001) <= 4000 {
        match closest_block_by_trigram(haystack, needle) {
            Some((a, b, score)) => {
                proof {
                    let k = nl.len() as int;
                    assert(best_window(hl, ns, k, a - 1, score as nat));
                    let (pl, po) = choose|pl: int, po: nat| best_window(hl, ns, k, pl, po);
                    lemma_best_window_unique(hl, ns, k, pl, po, a - 1, score as nat);
                }
                let ng = trigram_count_chars(&n);
                if ng > 0 && (score as u128) * 100 / (ng as u128) >= 40 {
                    assert(hl[a - 1] == hlines@[a - 1]@);
                    let mut out: Vec<char> = Vec::new();
                    push_lit(&mut out, " (hint: closest ");
                    push_decimal(&mut out, nlc as u64);
                    push_lit(&mut out, "-line block is L");
                    push_decimal(&mut out, a as u64);
                    push_lit(&mut out, "-L");
                    push_decimal(&mut out, b as u64);
                    push_lit(&mut out, " starting '");
                    push_prefix(&mut out, &hlines[a - 1], 60);
                    push_lit(&mut out, "'; re-read that range and retry)");
                    return string_of(&out);
                }
            },
            None => {},
        }
    }
    String::new()
}


// ---------------------------------------------------------------------------
// Applying an edit in memory
// ---------------------------------------------------------------------------

/// The text matched through quote normalisation, as a function.
pub open spec fn quote_match(h: Seq<char>, n: Seq<char>) -> Option<Seq<char>> {
    let nh = normalize_quotes_spec(h);
    let nn = normalize_quotes_spec(n);
    if n.len() > 0 && !(nn == n && nh == h) && exists|k: int| first_match(nh, nn, k) {
        let k = choose|k: int| first_match(nh, nn, k);
        Some(h.subrange(k, k + n.len()))
    } else {
        None
    }
}

/// The text matched through white-space tolerance, as a function.
pub open spec fn ws_match(h: Seq<char>, n: Seq<char>, replace_all: bool) -> Option<Seq<char>> {
    let hl = lines_of(h);
    let nl = lines_of(n);
    let k = nl.len() as int;
    let last = hl.len() - k;
    let lead = lead_ws(nl);
    if k > 0 && last >= 0 && exists|f: int|
        0 <= f <= last && window_eq(hl, nl, lead, f) && forall|j: int|
            0 <= j < f ==> !window_eq(hl, nl, lead, j) {
        let f = choose|f: int|
            0 <= f <= last && window_eq(hl, nl, lead, f) && forall|j: int|
                0 <= j < f ==> !window_eq(hl, nl, lead, j);
        if !replace_all || forall|st: int|
            0 <= st <= last && window_eq(hl, nl, lead, st) ==> ws_slice(h, st, k) == ws_slice(
                h,
                f,
                k,
            ) {
            Some(ws_slice(h, f, k))
        } else {
            None
        }
    } else {
        None
    }
}

proof fn lemma_quote_match(h: Seq<char>, n: Seq<char>, r: Option<Seq<char>>)
    requires
        quote_match_ok(h, n, r),
    ensures
        r == quote_match(h, n),
{
    let nh = normalize_quotes_spec(h);
    let nn = normalize_quotes_spec(n);
    if let Some(sl) = r {
        let k0 = choose|k: int| first_match(nh, nn, k) && sl == h.subrange(k, k + n.len());
        let k = choose|k: int| first_match(nh, nn, k);
        assert(k == k0) by {
            if k < k0 {
                assert(!matches_at(nh, nn, k));
            } else if k0 < k {
                assert(!matches_at(nh, nn, k0));
            }
        }
    } else {
        if n.len() > 0 && !(nn == n && nh == h) {
            assert(forall|k: int| !first_match(nh, nn, k));
        }
    }
}

proof fn lemma_ws_match(h: Seq<char>, n: Seq<char>, ra: bool, r: Option<(Seq<char>, nat)>)
    requires
        ws_match_ok(h, n, ra, r),
    ensures
        match r {
            Some((sl, c)) => ws_match(h, n, ra) == Some(sl),
            None => ws_match(h, n, ra) is None,
        },
{
    let hl = lines_of(h);
    let nl = lines_of(n);
    let k = nl.len() as int;
    let last = hl.len() - k;
    let lead = lead_ws(nl);
    if let Some((sl, c)) = r {
        let f0 = choose|f: int|
            0 <= f <= last && window_eq(hl, nl, lead, f) && (forall|j: int|
                0 <= j < f ==> !window_eq(hl, nl, lead, j)) && sl == ws_slice(h, f, k) && (if ra {
                c == window_count(hl, nl, lead, last + 1) && forall|st: int|
                    0 <= st <= last && window_eq(hl, nl, lead, st) ==> ws_slice(h, st, k) == sl
            } else {
                c == 1
            });
        let f = choose|f: int|
            0 <= f <= last && window_eq(hl, nl, lead, f) && forall|j: int|
                0 <= j < f ==> !window_eq(hl, nl, lead, j);
        assert(f == f0) by {
            if f < f0 {
                assert(!window_eq(hl, nl, lead, f));
            } else if f0 < f {
                assert(!window_eq(hl, nl, lead, f0));
            }
        }
    } else {
        if k > 0 && last >= 0 && exists|f: int|
            0 <= f <= last && window_eq(hl, nl, lead, f) && forall|j: int|
                0 <= j < f ==> !window_eq(hl, nl, lead, j) {
            let f = choose|f: int|
                0 <= f <= last && window_eq(hl, nl, lead, f) && forall|j: int|
                    0 <= j < f ==> !window_eq(hl, nl, lead, j);
            if ra {
                let (a, b) = choose|a: int, b: int|
                    #![trigger window_eq(hl, nl, lead, a), window_eq(hl, nl, lead, b)]
                    0 <= a <= last && 0 <= b <= last && window_eq(hl, nl, lead, a) && window_eq(
                        hl,
                        nl,
                        lead,
                        b,
                    ) && ws_slice(h, a, k) != ws_slice(h, b, k);
                assert(!(forall|st: int|
                    0 <= st <= last && window_eq(hl, nl, lead, st) ==> ws_slice(h, st, k)
                        == ws_slice(h, f, k)));
            }
        }
    }
}

/// `str::replace` including the empty pattern, which inserts `to` before
/// every character and at the end.
pub open spec fn interleave(h: Seq<char>, to: Seq<char>) -> Seq<char>
    decreases h.len(),
{
    if h.len() == 0 {
        to
    } else {
        to + seq![h[0]] + interleave(h.drop_first(), to)
    }
}

/// `str::replace(from, to)`.
pub open spec fn replace_any(h: Seq<char>, from: Seq<char>, to: Seq<char>) -> Seq<char> {
    if from.len() == 0 {
        interleave(h, to)
    } else {
        replace_from(h, from, to, 0)
    }
}

/// `str::replacen(from, to, 1)`.
pub open spec fn replace_first_any(h: Seq<char>, from: Seq<char>, to: Seq<char>) -> Seq<char> {
    if from.len() == 0 {
        to + h
    } else {
        replace_first_from(h, from, to, 0)
    }
}

/// `str::matches(p).count()`.
pub open spec fn count_any(h: Seq<char>, p: Seq<char>) -> nat {
    if p.len() == 0 {
        h.len() + 1
    } else {
        count_from(h, p, 0)
    }
}

fn replace_any_exec(h: &[char], from: &[char], to: &[char]) -> (r: Vec<char>)
    ensures
        r@ == replace_any(h@, from@, to@),
{
    if from.len() > 0 {
        return replace_all(h, from, to);
    }
    let mut out: Vec<char> = Vec::new();
    let mut i = h.len();
    let mut tail: Vec<char> = Vec::new();
    extend_chars(&mut tail, to);
    assert(tail@ == interleave(h@.skip(h.len() as int), to@)) by {
        assert(h@.skip(h.len() as int) =~= Seq::<char>::empty());
    }
    while i > 0
        invariant
            i <= h.len(),
            tail@ == interleave(h@.skip(i as int), to@),
        decreases i,
    {
        let mut next: Vec<char> = Vec::new();
        extend_chars(&mut next, to);
        next.push(h[i - 1]);
        extend_chars(&mut next, &tail);
        assert(h@.skip(i - 1).drop_first() =~= h@.skip(i as int));
        assert(h@.skip(i - 1)[0] == h@[i - 1]);
        tail = next;
        i -= 1;
    }
    assert(h@.skip(0) =~= h@);
    tail
}

fn replace_first_any_exec(h: &[char], from: &[char], to: &[char]) -> (r: Vec<char>)
    ensures
        r@ == replace_first_any(h@, from@, to@),
{
    if from.len() > 0 {
        return replace_first(h, from, to);
    }
    let mut out: Vec<char> = Vec::new();
    extend_chars(&mut out, to);
    extend_chars(&mut out, h);
    out
}

fn count_any_exec(h: &[char], p: &[char]) -> (r: usize)
    requires
        h.len() < usize::MAX,
    ensures
        r == count_any(h@, p@),
{
    if p.len() == 0 {
        h.len() + 1
    } else {
        count_matches(h, p)
    }
}

/// Why an edit could not be applied.
#[derive(Debug)]
pub enum EditError {
    /// `old_string` was not found, even tolerantly; `hint` explains the
    /// likely cause (possibly empty).
    NotFound { hint: String },
    /// `old_string` occurs `count` times and `replace_all` was not set;
    /// `lines` holds the line numbers of the first few occurrences.
    Ambiguous { count: usize, lines: Vec<usize> },
}

/// The old/new strings after line-ending alignment with a CRLF file: an
/// `old` with bare line feeds (and no `\r\n`) is re-encoded to CRLF so it
/// can match, and `new` is always re-encoded, so the splice keeps the
/// file's CRLF endings.
pub open spec fn crlf_aligned(orig: Seq<char>, old: Seq<char>, new: Seq<char>) -> (Seq<char>, Seq<char>) {
    (
        if is_crlf_spec(orig) && !contains_seq(old, crlf_seq()) && old.contains('\n') {
            to_crlf_spec(old)
        } else {
            old
        },
        if is_crlf_spec(orig) {
            to_crlf_spec(new)
        } else {
            new
        },
    )
}

/// The file text that will be replaced: `old` itself if present, else the
/// quote-normalised match, else the white-space tolerant match.
pub open spec fn actual_old_spec(orig: Seq<char>, old: Seq<char>, replace_all: bool) -> Option<Seq<char>> {
    if contains_seq(orig, old) {
        Some(old)
    } else if quote_match(orig, old) is Some {
        quote_match(orig, old)
    } else {
        ws_match(orig, old, replace_all)
    }
}

/// The replacement text an edit splices in: `new` after line-ending
/// alignment, in the file's quote style when the match went through quote
/// normalisation.
pub open spec fn spliced_new(orig: Seq<char>, old: Seq<char>, new: Seq<char>, actual: Seq<char>) -> Seq<char> {
    let (o2, n2) = crlf_aligned(orig, old, new);
    if actual != o2 {
        preserve_quote_style_spec(o2, actual, n2)
    } else {
        n2
    }
}

/// What one edit of `orig` yields when it applies: the updated text and
/// the number of replacements; `None` when `old` is not found, or occurs
/// more than once without `replace_all`.
pub open spec fn edit_applied(orig: Seq<char>, old: Seq<char>, new: Seq<char>, replace_all: bool) -> Option<(Seq<char>, nat)> {
    if old.len() == 0 {
        Some((new, 1))
    } else {
        let (o2, n2) = crlf_aligned(orig, old, new);
        match actual_old_spec(orig, o2, replace_all) {
            None => None,
            Some(actual) => {
                let n3 = spliced_new(orig, old, new, actual);
                let count = count_any(orig, actual);
                if count > 1 && !replace_all {
                    None
                } else if replace_all {
                    Some((replace_any(orig, actual, n3), count))
                } else {
                    Some((replace_first_any(orig, actual, n3), 1))
                }
            },
        }
    }
}

/// Why an edit that does not apply fails: `(true, hint, 0, [])` when `old`
/// is not found, `(false, "", count, first match lines)` when it is
/// ambiguous.
pub open spec fn edit_failure(orig: Seq<char>, old: Seq<char>, new: Seq<char>, replace_all: bool) -> (bool, Seq<char>, nat, Seq<nat>) {
    let (o2, n2) = crlf_aligned(orig, old, new);
    match actual_old_spec(orig, o2, replace_all) {
        None => (true, diagnosis(orig, o2), 0, Seq::empty()),
        Some(actual) => (false, Seq::empty(), count_any(orig, actual), match_lines_spec(orig, actual, 5)),
    }
}

/// What applying one edit to `orig` yields, as
/// `Ok((updated_text, replacements))` or the error with its details.
pub open spec fn edit_outcome(orig: Seq<char>, old: Seq<char>, new: Seq<char>, replace_all: bool) -> Result<
    (Seq<char>, nat),
    (bool, Seq<char>, nat, Seq<nat>),
> {
    match edit_applied(orig, old, new, replace_all) {
        Some(x) => Ok(x),
        None => Err(edit_failure(orig, old, new, replace_all)),
    }
}

/// The details of an error, for comparison with `edit_outcome`.
pub open spec fn edit_error_view(e: EditError) -> (bool, Seq<char>, nat, Seq<nat>) {
    match e {
        EditError::NotFound { hint } => (true, hint@, 0, Seq::empty()),
        EditError::Ambiguous { count, lines } => (
            false,
            Seq::empty(),
            count as nat,
            lines@.map_values(|x: usize| x as nat),
        ),
    }
}

/// The old text as matched: `old` after line-ending alignment.
pub open spec fn aligned_old(orig: Seq<char>, old: Seq<char>, new: Seq<char>) -> Seq<char> {
    crlf_aligned(orig, old, new).0
}

/// The text an applying edit splices in (`new` itself for an empty `old`).
pub open spec fn new_as_spliced(orig: Seq<char>, old: Seq<char>, new: Seq<char>, replace_all: bool) -> Seq<char> {
    if old.len() == 0 {
        new
    } else {
        match actual_old_spec(orig, aligned_old(orig, old, new), replace_all) {
            Some(actual) => spliced_new(orig, old, new, actual),
            None => new,
        }
    }
}

/// One edit, with the aligned old text and the spliced new text.
fn apply_core(original: &str, old: &str, new: &str, replace_all: bool) -> (r: Result<
    (Vec<char>, usize, Vec<char>, Vec<char>),
    EditError,
>)
    requires
        original@.len() < usize::MAX,
    ensures
        match r {
            Ok((s, c, o, n)) => edit_outcome(original@, old@, new@, replace_all) == Ok::<
                (Seq<char>, nat),
                (bool, Seq<char>, nat, Seq<nat>),
            >((s@, c as nat)) && o@ == aligned_old(original@, old@, new@) && n@ == new_as_spliced(
                original@,
                old@,
                new@,
                replace_all,
            ),
            Err(e) => edit_outcome(original@, old@, new@, replace_all) == Err::<
                (Seq<char>, nat),
                (bool, Seq<char>, nat, Seq<nat>),
            >(edit_error_view(e)),
        },
{
    if old.is_empty() {
        let oc = chars_of(old);
        let nc = chars_of(new);
        assert(oc@.len() == 0);
        proof {
            reveal_strlit("\r\n");
        }
        assert(!contains_seq(oc@, crlf_seq())) by {
            if contains_seq(oc@, crlf_seq()) {
                let i = choose|i: int| matches_at(oc@, crlf_seq(), i);
                assert(matches_at(oc@, crlf_seq(), i));
            }
        }
        return Ok((chars_of(new), 1, oc, nc));
    }
    let orig = chars_of(original);
    let oc = chars_of(old);
    let nc = chars_of(new);
    assert(oc@.len() > 0);
    let lf_ok = has_char(&oc, '\n');
    let crlf_v = vec!['\r', '\n'];
    assert(crlf_v@ =~= crlf_seq());
    let file_crlf = is_crlf_chars(&orig);
    let o2 = if file_crlf && !contains_chars(&oc, &crlf_v) && lf_ok {
        to_crlf_chars(&oc)
    } else {
        oc
    };
    let n2 = if file_crlf {
        to_crlf_chars(&nc)
    } else {
        nc
    };
    assert((o2@, n2@) == crlf_aligned(original@, old@, new@));
    let actual: Vec<char> = if contains_chars(&orig, &o2) {
        slice_to_vec(&o2, 0, o2.len())
    } else {
        let q = find_via_quote_normalization(&orig, &o2);
        proof {
            match q {
                Some(ref v) => lemma_quote_match(orig@, o2@, Some(v@)),
                None => lemma_quote_match(orig@, o2@, None),
            }
        }
        match q {
            Some(v) => v,
            None => {
                let w = find_with_whitespace_tolerance(&orig, &o2, replace_all);
                proof {
                    match w {
                        Some((ref v, c)) => lemma_ws_match(orig@, o2@, replace_all, Some((v@, c as nat))),
                        None => lemma_ws_match(orig@, o2@, replace_all, None),
                    }
                }
                match w {
                    Some((v, _)) => v,
                    None => {
                        let o2s = string_of(&o2);
                        let hint = diagnose_missing(original, o2s.as_str());
                        return Err(EditError::NotFound { hint });
                    },
                }
            },
        }
    };
    assert(actual_old_spec(original@, o2@, replace_all) == Some(actual@));
    let n3 = if !chars_eq(&actual, &o2) {
        preserve_quote_style_chars(&o2, &actual, &n2)
    } else {
        n2
    };
    let count = count_any_exec(&orig, &actual);
    if count > 1 && !replace_all {
        let lines = locate_match_lines(&orig, &actual, 5);
        proof {
            assert(lines@.map_values(|x: usize| x as nat) =~= match_lines_spec(orig@, actual@, 5));
        }
        return Err(EditError::Ambiguous { count, lines });
    }
    if replace_all {
        let updated = replace_any_exec(&orig, &actual, &n3);
        Ok((updated, count, o2, n3))
    } else {
        let updated = replace_first_any_exec(&orig, &actual, &n3);
        Ok((updated, 1, o2, n3))
    }
}

/// Applies one edit to in-memory `original` content and returns the
/// updated text and how many replacements landed. An empty `old` replaces
/// the whole content. Otherwise the exact text, then a quote-normalised
/// match, then a white-space tolerant match is used; more than one
/// occurrence without `replace_all` is refused.
pub fn apply_edit_in_memory(original: &str, old: &str, new: &str, replace_all: bool) -> (r: Result<
    (String, usize),
    EditError,
>)
    requires
        original@.len() < usize::MAX,
    ensures
        match r {
            Ok((s, c)) => edit_outcome(original@, old@, new@, replace_all) == Ok::<
                (Seq<char>, nat),
                (bool, Seq<char>, nat, Seq<nat>),
            >((s@, c as nat)),
            Err(e) => edit_outcome(original@, old@, new@, replace_all) == Err::<
                (Seq<char>, nat),
                (bool, Seq<char>, nat, Seq<nat>),
            >(edit_error_view(e)),
        },
{
    match apply_core(original, old, new, replace_all) {
        Ok((t, c, _, _)) => Ok((string_of(&t), c)),
        Err(e) => Err(e),
    }
}

/// An edit that applies: the updated text, the replacements made, and the
/// line feeds of the spliced-in and of the matched text.
pub struct EditPlan {
    pub updated: String,
    pub replacements: usize,
    pub lines_added: usize,
    pub lines_removed: usize,
}

/// Plans one edit of a file's content: what `apply_edit_in_memory` does,
/// with the line feeds the edit adds and removes.
pub fn plan_edit(original: &str, old: &str, new: &str, replace_all: bool) -> (r: Result<EditPlan, EditError>)
    requires
        original@.len() < usize::MAX,
    ensures
        match r {
            Ok(p) => edit_outcome(original@, old@, new@, replace_all) == Ok::<
                (Seq<char>, nat),
                (bool, Seq<char>, nat, Seq<nat>),
            >((p.updated@, p.replacements as nat)) && p.lines_added == count_char(
                new_as_spliced(original@, old@, new@, replace_all),
                '\n',
            ) && p.lines_removed == count_char(aligned_old(original@, old@, new@), '\n'),
            Err(e) => edit_outcome(original@, old@, new@, replace_all) == Err::<
                (Seq<char>, nat),
                (bool, Seq<char>, nat, Seq<nat>),
            >(edit_error_view(e)),
        },
{
    match apply_core(original, old, new, replace_all) {
        Ok((t, c, o, n)) => {
            let lines_added = count_char_exec(&n, '\n');
            let lines_removed = count_char_exec(&o, '\n');
            Ok(EditPlan { updated: string_of(&t), replacements: c, lines_added, lines_removed })
        },
        Err(e) => Err(e),
    }
}

// ---------------------------------------------------------------------------
// Reports of the edit tool
// ---------------------------------------------------------------------------

/// Numbers joined with ", ".
pub open spec fn joined_numbers(v: Seq<nat>) -> Seq<char>
    decreases v.len(),
{
    if v.len() == 0 {
        Seq::empty()
    } else if v.len() == 1 {
        decimal(v[0])
    } else {
        joined_numbers(v.drop_last()) + ", "@ + decimal(v.last())
    }
}

/// The advice that ends an ambiguity error.
pub open spec fn ambiguity_advice(lines: Seq<nat>) -> Seq<char> {
    " - pass replace_all=true OR include more surrounding context to disambiguate. First "@ + decimal(lines.len())
        + " match line(s): "@ + joined_numbers(lines)
}

/// The text of an edit error applied to a buffer.
pub open spec fn error_text(e: (bool, Seq<char>, nat, Seq<nat>)) -> Seq<char> {
    if e.0 {
        "old_string not found"@ + e.1
    } else {
        "old_string occurs "@ + decimal(e.2) + " times"@ + ambiguity_advice(e.3)
    }
}

/// The text of an edit error for the file at `path`.
pub open spec fn error_text_in(e: (bool, Seq<char>, nat, Seq<nat>), path: Seq<char>) -> Seq<char> {
    if e.0 {
        "edit: old_string not found in "@ + path + e.1
    } else {
        "edit: old_string occurs "@ + decimal(e.2) + " times in "@ + path + ambiguity_advice(e.3)
    }
}

fn push_joined(v: &mut Vec<char>, lines: &Vec<usize>)
    ensures
        final(v)@ == old(v)@ + joined_numbers(lines@.map_values(|x: usize| x as nat)),
{
    let ghost lv = lines@.map_values(|x: usize| x as nat);
    let ghost start = old(v)@;
    let mut i: usize = 0;
    assert(lv.take(0) =~= Seq::<nat>::empty());
    assert(v@ =~= start + joined_numbers(lv.take(0)));
    while i < lines.len()
        invariant
            i <= lines@.len(),
            lv == lines@.map_values(|x: usize| x as nat),
            v@ == start + joined_numbers(lv.take(i as int)),
        decreases lines@.len() - i,
    {
        let ghost prev = v@;
        if i > 0 {
            extend_str(v, ", ");
        }
        push_decimal(v, lines[i] as u64);
        assert(lv.take(i + 1).drop_last() =~= lv.take(i as int));
        assert(v@ =~= start + joined_numbers(lv.take(i + 1)));
        i += 1;
    }
    assert(lv.take(lines@.len() as int) =~= lv);
}

fn push_advice(v: &mut Vec<char>, lines: &Vec<usize>)
    ensures
        final(v)@ == old(v)@ + ambiguity_advice(lines@.map_values(|x: usize| x as nat)),
{
    extend_str(v, " - pass replace_all=true OR include more surrounding context to disambiguate. First ");
    push_decimal(v, lines.len() as u64);
    extend_str(v, " match line(s): ");
    push_joined(v, lines);
}

impl EditError {
    /// The error as applying to a buffer reports it.
    pub fn message(&self) -> (r: String)
        ensures
            r@ == error_text(edit_error_view(*self)),
    {
        match self {
            EditError::NotFound { hint } => {
                let mut v = chars_of("old_string not found");
                extend_str(&mut v, hint.as_str());
                string_of(&v)
            },
            EditError::Ambiguous { count, lines } => {
                let mut v = chars_of("old_string occurs ");
                push_decimal(&mut v, *count as u64);
                extend_str(&mut v, " times");
                push_advice(&mut v, lines);
                string_of(&v)
            },
        }
    }

    /// The error as the edit tool reports it for the file at `path`.
    pub fn message_in(&self, path: &str) -> (r: String)
        ensures
            r@ == error_text_in(edit_error_view(*self), path@),
    {
        match self {
            EditError::NotFound { hint } => {
                let mut v = chars_of("edit: old_string not found in ");
                extend_str(&mut v, path);
                extend_str(&mut v, hint.as_str());
                string_of(&v)
            },
            EditError::Ambiguous { count, lines } => {
                let mut v = chars_of("edit: old_string occurs ");
                push_decimal(&mut v, *count as u64);
                extend_str(&mut v, " times in ");
                extend_str(&mut v, path);
                push_advice(&mut v, lines);
                string_of(&v)
            },
        }
    }
}

/// The replacement text an edit writes into the file at `path`: trailing
/// white space stripped from each line, except in Markdown, where two
/// trailing spaces make a line break.
pub fn new_text_for(path: &str, new: &str) -> (r: String)
    ensures
        r@ == if is_markdown_spec(path@) {
            new@
        } else {
            strip_trailing_from(new@, 0)
        },
{
    if is_markdown_path(path) {
        new.to_owned()
    } else {
        strip_trailing_whitespace(new)
    }
}

/// The text an overwrite writes: `new`, re-encoded to CRLF when the file it
/// replaces is CRLF and `new` has bare line feeds only.
pub open spec fn overwrite_spec(existing: Option<Seq<char>>, new: Seq<char>) -> Seq<char> {
    match existing {
        Some(e) => if is_crlf_spec(e) && !contains_seq(new, crlf_seq()) && new.contains('\n') {
            to_crlf_spec(new)
        } else {
            new
        },
        None => new,
    }
}

/// The text to write over `existing` (`None` when there is no readable
/// file).
pub fn overwrite_text(existing: Option<&str>, new: &str) -> (r: String)
    ensures
        r@ == overwrite_spec(
            match existing {
                Some(e) => Some(e@),
                None => None,
            },
            new@,
        ),
{
    match existing {
        Some(e) => {
            let ec = chars_of(e);
            let nc = chars_of(new);
            let crlf_v = vec!['\r', '\n'];
            assert(crlf_v@ =~= crlf_seq());
            if is_crlf_chars(&ec) && !contains_chars(&nc, &crlf_v) && has_char(&nc, '\n') {
                string_of(&to_crlf_chars(&nc))
            } else {
                new.to_owned()
            }
        },
        None => new.to_owned(),
    }
}

/// A net line change as reports print it: `+3`, `0`, `-2`.
pub open spec fn net_text(d: int) -> Seq<char> {
    if d > 0 {
        "+"@ + decimal(d as nat)
    } else if d == 0 {
        "0"@
    } else {
        "-"@ + decimal((-d) as nat)
    }
}

fn push_net(v: &mut Vec<char>, d: i128)
    requires
        -(u64::MAX as int) <= d <= u64::MAX,
    ensures
        final(v)@ == old(v)@ + net_text(d as int),
{
    if d > 0 {
        extend_str(v, "+");
        push_decimal(v, d as u64);
    } else if d == 0 {
        extend_str(v, "0");
    } else {
        extend_str(v, "-");
        push_decimal(v, (-d) as u64);
    }
}

/// The edit tool's report of an applied edit (or, in a dry run, of the
/// edit it would make, followed by `preview`).
pub open spec fn edit_report_spec(path: Seq<char>, replacements: nat, plural: bool, net: int, dry_run: bool, preview: Seq<char>) -> Seq<char> {
    let body = " ("@ + decimal(replacements) + " replacement"@ + (if plural {
        "s"@
    } else {
        Seq::empty()
    }) + ", net "@ + net_text(net) + " line(s))"@;
    if dry_run {
        "(dry_run) would edit "@ + path + body + preview
    } else {
        "edited "@ + path + body + "\n"@
    }
}

/// Reports an edit of the file at `path`.
pub fn edit_report(path: &str, plan: &EditPlan, replace_all: bool, dry_run: bool, preview: &str) -> (r: String)
    ensures
        r@ == edit_report_spec(
            path@,
            plan.replacements as nat,
            replace_all && plan.replacements != 1,
            plan.lines_added - plan.lines_removed,
            dry_run,
            preview@,
        ),
{
    let mut v = if dry_run {
        chars_of("(dry_run) would edit ")
    } else {
        chars_of("edited ")
    };
    extend_str(&mut v, path);
    extend_str(&mut v, " (");
    push_decimal(&mut v, plan.replacements as u64);
    extend_str(&mut v, " replacement");
    if replace_all && plan.replacements != 1 {
        extend_str(&mut v, "s");
    }
    extend_str(&mut v, ", net ");
    push_net(&mut v, plan.lines_added as i128 - plan.lines_removed as i128);
    extend_str(&mut v, " line(s))");
    if dry_run {
        extend_str(&mut v, preview);
    } else {
        extend_str(&mut v, "\n");
    }
    string_of(&v)
}

/// The edit tool's report of creating or overwriting a file with `bytes`
/// bytes (in a dry run, of what it would do).
pub open spec fn write_report_spec(path: Seq<char>, bytes: nat, existed: bool, dry_run: bool) -> Seq<char> {
    if dry_run {
        "(dry_run) would "@ + (if existed {
            "overwrite"@
        } else {
            "create"@
        }) + " "@ + path + " ("@ + decimal(bytes) + " bytes)\n"@
    } else {
        "wrote "@ + path + " ("@ + decimal(bytes) + " bytes)\n"@
    }
}

/// Reports writing `content` to the file at `path`.
pub fn write_report(path: &str, content: &str, existed: bool, dry_run: bool) -> (r: String)
    requires
        utf8_len(content@) <= usize::MAX,
    ensures
        r@ == write_report_spec(path@, utf8_len(content@), existed, dry_run),
{
    let c = chars_of(content);
    let n = crate::text::utf8_len_u64(&c);
    let mut v = if dry_run {
        let mut w = chars_of("(dry_run) would ");
        if existed {
            extend_str(&mut w, "overwrite");
        } else {
            extend_str(&mut w, "create");
        }
        extend_str(&mut w, " ");
        w
    } else {
        chars_of("wrote ")
    };
    extend_str(&mut v, path);
    extend_str(&mut v, " (");
    push_decimal(&mut v, n);
    extend_str(&mut v, " bytes)\n");
    string_of(&v)
}

// ---------------------------------------------------------------------------
// Dry-run preview
// ---------------------------------------------------------------------------

/// One listed line of the preview: marker, right-aligned line number and
/// the first 110 characters of the line.
pub open spec fn preview_line(sign: char, num: nat, line: Seq<char>) -> Seq<char> {
    "  "@ + seq![sign] + " "@ + pad_left(decimal(num), 4) + "  "@ + line.take(
        if line.len() < 110 {
            line.len() as int
        } else {
            110
        },
    ) + "\n"@
}

/// The listed lines `i..min(4, len)` of `lines`, numbered from `start`.
pub open spec fn preview_listing(sign: char, start: nat, lines: Seq<Seq<char>>, i: nat) -> Seq<char>
    decreases 4 - i,
{
    if i >= 4 || i >= lines.len() {
        Seq::empty()
    } else {
        preview_line(sign, start + i, lines[i as int]) + preview_listing(sign, start, lines, i + 1)
    }
}

/// The dry-run preview of changing `before` into `after`: the trimmed line
/// difference, at most four removed and four added lines shown.
pub open spec fn preview_spec(before: Seq<char>, after: Seq<char>) -> Seq<char> {
    let (rem, add, p) = line_diff_spec(lines_of(before), lines_of(after));
    if rem.len() == 0 && add.len() == 0 {
        "\n  (no line-level changes)\n"@
    } else {
        "\n"@ + "  @L"@ + decimal(p + 1) + " (-"@ + decimal(rem.len()) + " +"@ + decimal(add.len())
            + ")\n"@ + preview_listing('-', p + 1, rem, 0) + (if rem.len() > 4 {
            "    ... +"@ + decimal((rem.len() - 4) as nat) + " more removed\n"@
        } else {
            Seq::empty()
        }) + preview_listing('+', p + 1, add, 0) + (if add.len() > 4 {
            "    ... +"@ + decimal((add.len() - 4) as nat) + " more added\n"@
        } else {
            Seq::empty()
        })
    }
}

fn push_listing(out: &mut Vec<char>, sign: char, start: usize, lines: &Vec<String>)
    requires
        start + 4 <= usize::MAX,
    ensures
        final(out)@ == old(out)@ + preview_listing(sign, start as nat, sviews(lines@), 0),
{
    let ghost ls = sviews(lines@);
    let mut i: usize = 0;
    while i < 4 && i < lines.len()
        invariant
            i <= 4,
            i <= lines@.len(),
            start + 4 <= usize::MAX,
            ls == sviews(lines@),
            old(out)@ + preview_listing(sign, start as nat, ls, 0) == out@ + preview_listing(sign, start as nat, ls, i as nat),
        decreases 4 - i,
    {
        let ghost prev = out@;
        out.push(' ');
        out.push(' ');
        out.push(sign);
        out.push(' ');
        let num = crate::text::decimal_chars((start + i) as u64);
        push_padded_left(out, &num, 4);
        out.push(' ');
        out.push(' ');
        let line = chars_of(lines[i].as_str());
        let shown = take_chars(&line, 110);
        extend_chars(out, &shown);
        out.push('\n');
        proof {
            reveal_strlit("  ");
            reveal_strlit(" ");
            reveal_strlit("\n");
            assert(out@ =~= prev + preview_line(sign, (start + i) as nat, ls[i as int]));
            assert(prev + preview_listing(sign, start as nat, ls, i as nat) =~= out@ + preview_listing(sign, start as nat, ls, (i + 1) as nat));
        }
        i += 1;
    }
    assert(out@ + Seq::<char>::empty() =~= out@);
}

/// The dry-run preview of an edit: where the changed lines start, how many
/// lines go and come, and the first few of each.
#[verifier::rlimit(40)]
#[verifier::spinoff_prover]
pub fn preview_diff(before: &str, after: &str) -> (r: String)
    requires
        before@.len() + 5 <= usize::MAX,
    ensures
        r@ == preview_spec(before@, after@),
{
    let (removed, added, prefix) = line_diff(before, after);
    proof {
        crate::text::lemma_lines_len(before@, Seq::empty());
    }
    if removed.len() == 0 && added.len() == 0 {
        return "\n  (no line-level changes)\n".to_owned();
    }
    let mut out = chars_of("\n");
    extend_str(&mut out, "  @L");
    push_decimal(&mut out, prefix as u64 + 1);
    extend_str(&mut out, " (-");
    push_decimal(&mut out, removed.len() as u64);
    extend_str(&mut out, " +");
    push_decimal(&mut out, added.len() as u64);
    extend_str(&mut out, ")\n");
    push_listing(&mut out, '-', prefix + 1, &removed);
    if removed.len() > 4 {
        extend_str(&mut out, "    ... +");
        push_decimal(&mut out, (removed.len() - 4) as u64);
        extend_str(&mut out, " more removed\n");
    }
    push_listing(&mut out, '+', prefix + 1, &added);
    if added.len() > 4 {
        extend_str(&mut out, "    ... +");
        push_decimal(&mut out, (added.len() - 4) as u64);
        extend_str(&mut out, " more added\n");
    }
    string_of(&out)
}

// ---------------------------------------------------------------------------
// Read-before-edit gates
// ---------------------------------------------------------------------------

/// Why an edit is refused before the file is touched.
#[derive(Debug, Clone, Copy, PartialEq, Eq, Structural)]
pub enum EditGate {
    /// Reading before editing is required and the agent has not read the
    /// existing file yet.
    NotRead,
    /// The file changed on disk after it was last read (`read_at`, Unix
    /// seconds); its modification time is now `now_mtime`.
    Stale { read_at: u64, now_mtime: u64 },
}

/// Whether an edit may proceed: `stamp` is `(seen_mtime, read_at)` of the
/// file's latest read by the agent, `cur_mtime` its modification time where
/// its metadata is available. A `seen_mtime` of 0 carries no time and
/// never makes an edit stale.
pub open spec fn edit_gate_spec(
    require_read: bool,
    exists: bool,
    stamp: Option<(u64, u64)>,
    cur_mtime: Option<u64>,
) -> Option<EditGate> {
    if require_read && exists && stamp is None {
        Some(EditGate::NotRead)
    } else {
        match (stamp, cur_mtime) {
            (Some((seen, read_at)), Some(cur)) => if seen != 0 && cur > seen {
                Some(EditGate::Stale { read_at, now_mtime: cur })
            } else {
                None
            },
            _ => None,
        }
    }
}

/// Decides whether an edit of an existing file may go ahead.
pub fn edit_gate(require_read: bool, exists: bool, stamp: Option<(u64, u64)>, cur_mtime: Option<u64>) -> (r:
    Option<EditGate>)
    ensures
        r == edit_gate_spec(require_read, exists, stamp, cur_mtime),
{
    if require_read && exists && stamp.is_none() {
        return Some(EditGate::NotRead);
    }
    match (stamp, cur_mtime) {
        (Some((seen, read_at)), Some(cur)) => if seen != 0 && cur > seen {
            Some(EditGate::Stale { read_at, now_mtime: cur })
        } else {
            None
        },
        _ => None,
    }
}

/// The error text for a refused edit of `path`.
pub open spec fn gate_message_spec(path: Seq<char>, g: EditGate) -> Seq<char> {
    match g {
        EditGate::NotRead => "edit: "@ + path
            + " was not read in this session; read it before editing (HIP_REQUIRE_READ_BEFORE_EDIT=1 is active)"@,
        EditGate::Stale { read_at, now_mtime } => "edit: "@ + path + " changed since last read at "@ + decimal(
            read_at as nat,
        ) + " (now mtime "@ + decimal(now_mtime as nat) + "); read it again before editing"@,
    }
}

/// The error text for a refused edit of `path`.
pub fn gate_message(path: &str, g: EditGate) -> (r: String)
    ensures
        r@ == gate_message_spec(path@, g),
{
    let mut out: Vec<char> = Vec::new();
    extend_str(&mut out, "edit: ");
    extend_str(&mut out, path);
    match g {
        EditGate::NotRead => {
            extend_str(
                &mut out,
                " was not read in this session; read it before editing (HIP_REQUIRE_READ_BEFORE_EDIT=1 is active)",
            );
        },
        EditGate::Stale { read_at, now_mtime } => {
            extend_str(&mut out, " changed since last read at ");
            push_decimal(&mut out, read_at);
            extend_str(&mut out, " (now mtime ");
            push_decimal(&mut out, now_mtime);
            extend_str(&mut out, "); read it again before editing");
        },
    }
    assert(out@ =~= gate_message_spec(path@, g));
    crate::text::string_of(&out)
}

proof fn lemma_trim_start_len(s: Seq<char>)
    ensures
        crate::text::trim_start(s).len() <= s.len(),
    decreases s.len(),
{
    if s.len() > 0 && crate::text::is_ws(s[0]) {
        lemma_trim_start_len(s.drop_first());
    }
}

/// The white-space tolerant search ignores indentation on every line as
/// soon as any line of `old_string` (its trailing white space aside)
/// starts with white space: a file window whose lines equal the needle's
/// lines up to surrounding white space is then found, so the search does
/// not report "not found", whichever line carries the indentation.
pub proof fn lemma_ws_indent_on_any_line(h: Seq<char>, n: Seq<char>, st: int, j: int)
    requires
        0 <= j < lines_of(n).len(),
        trim_end(lines_of(n)[j]).len() > 0,
        crate::text::is_ws(trim_end(lines_of(n)[j])[0]),
        0 <= st,
        st + lines_of(n).len() <= lines_of(h).len(),
        forall|i: int| 0 <= i < lines_of(n).len() ==> trim(#[trigger] lines_of(h)[st + i]) == trim(lines_of(n)[i]),
    ensures
        !ws_match_ok(h, n, false, None),
{
    let nl = lines_of(n);
    let hl = lines_of(h);
    let x = trim_end(nl[j]);
    lemma_trim_start_len(x.drop_first());
    assert(trim_start(x) == trim_start(x.drop_first()));
    assert(trim_start(x) != x);
    assert(lead_ws(nl));
    assert(window_eq(hl, nl, true, st));
}

} // verus!
