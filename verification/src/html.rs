//! Pulling an HTML document out of a model's answer.
//!
//! The answer is searched case-insensitively (in its `str::to_lowercase`
//! form) and cut at the byte offsets found there, as the `--save-html`
//! option does. Positions in the contracts count characters; `byte_at`
//! turns a character position into the byte offset `str` slicing uses.

use vstd::prelude::*;
use crate::text::{matches_at, utf8_len, utf8_width, chars_of, string_of, find_from, match_at, slice_to_vec, trim, trim_chars, extend_chars};
use crate::edit::{lowercase, str_to_lowercase};
use crate::pretty::{first_at, lemma_first_at_of_find};

verus! {

/// Byte offset of character position `i` of `s`.
pub open spec fn byte_at(s: Seq<char>, i: int) -> nat {
    utf8_len(s.take(i))
}

/// The character position at or after `i` whose byte offset is `b`.
pub open spec fn char_index_from(s: Seq<char>, b: nat, i: nat) -> Option<nat>
    decreases s.len() + 1 - i,
{
    if i > s.len() {
        None
    } else if byte_at(s, i as int) == b {
        Some(i)
    } else {
        char_index_from(s, b, i + 1)
    }
}

/// The character position at byte offset `b` of `s`; `None` when `b` is
/// not a character boundary of `s` (where slicing a `str` panics).
pub open spec fn char_index(s: Seq<char>, b: nat) -> Option<nat> {
    char_index_from(s, b, 0)
}

/// The last position before `i` where `n` occurs in `h`.
pub open spec fn last_before(h: Seq<char>, n: Seq<char>, i: nat) -> Option<nat>
    decreases i,
{
    if i == 0 {
        None
    } else if matches_at(h, n, i - 1) {
        Some((i - 1) as nat)
    } else {
        last_before(h, n, (i - 1) as nat)
    }
}

/// The last position where `n` occurs in `h` (`str::rfind`).
pub open spec fn last_at(h: Seq<char>, n: Seq<char>) -> Option<nat> {
    last_before(h, n, h.len() + 1)
}

proof fn lemma_byte_step(s: Seq<char>, i: int)
    requires
        0 <= i < s.len(),
    ensures
        byte_at(s, i + 1) == byte_at(s, i) + utf8_width(s[i]),
{
    assert(s.take(i + 1).drop_last() =~= s.take(i));
}

/// Byte offsets grow with positions, by at least one per character.
proof fn lemma_byte_grows(s: Seq<char>, i: int, j: int)
    requires
        0 <= i <= j <= s.len(),
    ensures
        byte_at(s, j) >= byte_at(s, i) + (j - i),
    decreases j - i,
{
    if i < j {
        lemma_byte_grows(s, i, j - 1);
        lemma_byte_step(s, j - 1);
    }
}

/// Over ASCII characters a position and a byte offset advance together.
proof fn lemma_byte_ascii(s: Seq<char>, i: int, k: int)
    requires
        0 <= i,
        0 <= k,
        i + k <= s.len(),
        forall|j: int| i <= j < i + k ==> (s[j] as u32) < 0x80,
    ensures
        byte_at(s, i + k) == byte_at(s, i) + k,
    decreases k,
{
    if k > 0 {
        lemma_byte_ascii(s, i, k - 1);
        lemma_byte_step(s, i + k - 1);
    }
}

proof fn lemma_char_index_past(s: Seq<char>, b: nat, i: nat)
    requires
        i <= s.len(),
        byte_at(s, i as int) > b,
    ensures
        char_index_from(s, b, i) is None,
    decreases s.len() + 1 - i,
{
    if i < s.len() {
        lemma_byte_step(s, i as int);
        lemma_char_index_past(s, b, i + 1);
    } else {
        assert(char_index_from(s, b, i + 1) is None);
    }
}

proof fn lemma_char_index_found(s: Seq<char>, b: nat, i: nat)
    ensures
        char_index_from(s, b, i) matches Some(k) ==> i <= k <= s.len() && byte_at(s, k as int) == b,
    decreases s.len() + 1 - i,
{
    if i <= s.len() && byte_at(s, i as int) != b {
        lemma_char_index_found(s, b, i + 1);
    }
}

/// Boundaries in byte order are boundaries in character order.
proof fn lemma_char_index_order(s: Seq<char>, a: nat, b: nat)
    requires
        a <= b,
        char_index(s, a) is Some,
        char_index(s, b) is Some,
    ensures
        char_index(s, a)->0 <= char_index(s, b)->0,
{
    lemma_char_index_found(s, a, 0);
    lemma_char_index_found(s, b, 0);
    let i = char_index(s, a)->0;
    let j = char_index(s, b)->0;
    if j < i {
        lemma_byte_grows(s, j as int, i as int);
    }
}

proof fn lemma_last_found(h: Seq<char>, n: Seq<char>, i: nat)
    ensures
        last_before(h, n, i) matches Some(k) ==> k < i && matches_at(h, n, k as int),
    decreases i,
{
    if i > 0 && !matches_at(h, n, i - 1) {
        lemma_last_found(h, n, (i - 1) as nat);
    }
}

/// Byte offset of character position `i` of `s`.
fn byte_offset(s: &[char], i: usize) -> (r: u128)
    requires
        i <= s.len(),
    ensures
        r == byte_at(s@, i as int),
        r <= 4 * i,
{
    let mut n: u128 = 0;
    let mut k: usize = 0;
    while k < i
        invariant
            k <= i <= s.len(),
            n == byte_at(s@, k as int),
            n <= 4 * k,
        decreases i - k,
    {
        proof {
            lemma_byte_step(s@, k as int);
        }
        let c = s[k];
        let w: u128 = if (c as u32) < 0x80 {
            1
        } else if (c as u32) < 0x800 {
            2
        } else if (c as u32) < 0x10000 {
            3
        } else {
            4
        };
        n = n + w;
        k += 1;
    }
    n
}

/// The character position at byte offset `b` of `s`, if it is a boundary.
fn char_index_of(s: &[char], b: u128) -> (r: Option<usize>)
    ensures
        match r {
            Some(k) => char_index(s@, b as nat) == Some(k as nat),
            None => char_index(s@, b as nat) is None,
        },
{
    let mut n: u128 = 0;
    let mut k: usize = 0;
    while k <= s.len()
        invariant
            k <= s.len(),
            n == byte_at(s@, k as int),
            n <= b,
            char_index(s@, b as nat) == char_index_from(s@, b as nat, k as nat),
        decreases s.len() - k,
    {
        if n == b {
            return Some(k);
        }
        if k == s.len() {
            assert(char_index_from(s@, b as nat, (k + 1) as nat) is None);
            return None;
        }
        proof {
            lemma_byte_step(s@, k as int);
        }
        let c = s[k];
        let w: u128 = if (c as u32) < 0x80 {
            1
        } else if (c as u32) < 0x800 {
            2
        } else if (c as u32) < 0x10000 {
            3
        } else {
            4
        };
        if w > b - n {
            proof {
                lemma_char_index_past(s@, b as nat, (k + 1) as nat);
            }
            return None;
        }
        n = n + w;
        k += 1;
    }
    None
}

/// The last position where `n` occurs in `h`.
fn rfind_chars(h: &[char], n: &[char]) -> (r: Option<usize>)
    ensures
        match r {
            Some(k) => last_at(h@, n@) == Some(k as nat) && matches_at(h@, n@, k as int),
            None => last_at(h@, n@) is None,
        },
{
    proof {
        lemma_last_found(h@, n@, (h@.len() + 1) as nat);
    }
    if match_at(h, n, h.len()) {
        return Some(h.len());
    }
    assert(last_at(h@, n@) == last_before(h@, n@, h.len() as nat));
    let mut i: usize = h.len();
    while i > 0
        invariant
            i <= h.len(),
            last_at(h@, n@) == last_before(h@, n@, i as nat),
        decreases i,
    {
        if match_at(h, n, i - 1) {
            return Some(i - 1);
        }
        i -= 1;
    }
    None
}

/// The first position where `n` occurs in `h`.
fn find_first(h: &[char], n: &[char]) -> (r: Option<usize>)
    ensures
        match r {
            Some(k) => first_at(h@, n@, 0) == Some(k as nat) && matches_at(h@, n@, k as int),
            None => first_at(h@, n@, 0) is None,
        },
{
    let r = find_from(h, n, 0);
    proof {
        lemma_first_at_of_find(h@, n@, 0, r);
    }
    r
}

/// `<!doctype html`, as the lower-cased text spells it.
pub open spec fn doctype_marker() -> Seq<char> {
    seq!['<', '!', 'd', 'o', 'c', 't', 'y', 'p', 'e', ' ', 'h', 't', 'm', 'l']
}

/// `<html`, the start of an opening tag.
pub open spec fn open_tag() -> Seq<char> {
    seq!['<', 'h', 't', 'm', 'l']
}

/// `<html>`, a bare opening tag.
pub open spec fn bare_open_tag() -> Seq<char> {
    seq!['<', 'h', 't', 'm', 'l', '>']
}

/// `</html>`.
pub open spec fn close_tag() -> Seq<char> {
    seq!['<', '/', 'h', 't', 'm', 'l', '>']
}

/// Where the document starts in the lower-cased answer: at its doctype,
/// else at its first `<html`.
pub open spec fn doc_start(lower: Seq<char>) -> Option<nat> {
    match first_at(lower, doctype_marker(), 0) {
        Some(k) => Some(k),
        None => first_at(lower, open_tag(), 0),
    }
}

/// The byte range the answer is cut to, found in its lower-cased form:
/// from the document's start to the end of the last `</html>`.
pub open spec fn doc_bytes(text: Seq<char>) -> Option<(nat, nat)> {
    let lower = lowercase(text);
    match (doc_start(lower), last_at(lower, close_tag())) {
        (Some(a), Some(e)) => Some((byte_at(lower, a as int), byte_at(lower, e as int) + 7)),
        _ => None,
    }
}

/// The cut can be made: both offsets are character boundaries of the
/// answer and come in order (otherwise slicing the `str` panics).
pub open spec fn doc_cut_ok(text: Seq<char>) -> bool {
    match doc_bytes(text) {
        Some((a, b)) => a <= b && char_index(text, a) is Some && char_index(text, b) is Some,
        None => true,
    }
}

/// The answer cut to its document, or the whole answer when it has no
/// start or no `</html>`.
pub open spec fn doc_text(text: Seq<char>) -> Seq<char> {
    match doc_bytes(text) {
        Some((a, b)) => text.subrange(char_index(text, a)->0 as int, char_index(text, b)->0 as int),
        None => text,
    }
}

/// Byte offset up to which a leading bare `<html>` is dropped: set when
/// the lower-cased text starts with `<html>` and has another `<html`
/// after it, which is kept.
pub open spec fn lead_cut(s: Seq<char>) -> Option<nat> {
    let lower = lowercase(s);
    if matches_at(lower, bare_open_tag(), 0) {
        match first_at(lower.skip(6), open_tag(), 0) {
            Some(p) => Some(6 + byte_at(lower.skip(6), p as int)),
            None => None,
        }
    } else {
        None
    }
}

/// The text after the leading bare `<html>` is dropped.
pub open spec fn after_lead(s: Seq<char>) -> Seq<char> {
    match lead_cut(s) {
        Some(c) => s.skip(char_index(s, c)->0 as int),
        None => s,
    }
}

/// Byte offsets, in the lower-cased text, of its last two `</html>`.
pub open spec fn closing_pair(s: Seq<char>) -> Option<(nat, nat)> {
    let lower = lowercase(s);
    match last_at(lower, close_tag()) {
        Some(l) => match last_at(lower.take(l as int), close_tag()) {
            Some(p) => Some((byte_at(lower, p as int), byte_at(lower, l as int))),
            None => None,
        },
        None => None,
    }
}

/// What lies between the last two `</html>`, cut from the text itself.
pub open spec fn closing_gap(s: Seq<char>, p: nat, l: nat) -> Seq<char> {
    s.subrange(char_index(s, p + 7)->0 as int, char_index(s, l)->0 as int)
}

/// The text with its last `</html>` dropped when only white space
/// separates it from the one before.
pub open spec fn without_dup_close(s: Seq<char>) -> Seq<char> {
    match closing_pair(s) {
        Some((p, l)) => if trim(closing_gap(s, p, l)).len() == 0 {
            s.take(char_index(s, p + 7)->0 as int) + s.skip(char_index(s, l + 7)->0 as int)
        } else {
            s
        },
        None => s,
    }
}

/// The slicing the clean-up does can be made: every byte offset it cuts
/// the text at is a character boundary of it (otherwise it panics).
pub open spec fn shell_ok(s: Seq<char>) -> bool {
    &&& match lead_cut(s) {
        Some(c) => char_index(s, c) is Some,
        None => true,
    }
    &&& match closing_pair(after_lead(s)) {
        Some((p, l)) => {
            let t = after_lead(s);
            &&& char_index(t, p + 7) is Some
            &&& char_index(t, l) is Some
            &&& trim(closing_gap(t, p, l)).len() == 0 ==> char_index(t, l + 7) is Some
        },
        None => true,
    }
}

/// A document with a stray leading `<html>` and a doubled trailing
/// `</html>` cleaned up.
pub open spec fn shell_spec(s: Seq<char>) -> Seq<char> {
    without_dup_close(after_lead(s))
}

/// A match of `</html>` covers seven one-byte characters.
proof fn lemma_close_bytes(h: Seq<char>, p: int)
    requires
        matches_at(h, close_tag(), p),
    ensures
        byte_at(h, p + 7) == byte_at(h, p) + 7,
{
    assert forall|j: int| p <= j < p + 7 implies (h[j] as u32) < 0x80 by {
        assert(h[j] == h.subrange(p, p + 7)[j - p]);
    }
    lemma_byte_ascii(h, p, 7);
}

fn tag_chars(k: u8) -> (r: Vec<char>)
    ensures
        k == 0 ==> r@ == doctype_marker(),
        k == 1 ==> r@ == open_tag(),
        k == 2 ==> r@ == bare_open_tag(),
        k >= 3 ==> r@ == close_tag(),
{
    let v: Vec<char> = if k == 0 {
        vec!['<', '!', 'd', 'o', 'c', 't', 'y', 'p', 'e', ' ', 'h', 't', 'm', 'l']
    } else if k == 1 {
        vec!['<', 'h', 't', 'm', 'l']
    } else if k == 2 {
        vec!['<', 'h', 't', 'm', 'l', '>']
    } else {
        vec!['<', '/', 'h', 't', 'm', 'l', '>']
    };
    assert(k == 0 ==> v@ =~= doctype_marker());
    assert(k == 1 ==> v@ =~= open_tag());
    assert(k == 2 ==> v@ =~= bare_open_tag());
    assert(k >= 3 ==> v@ =~= close_tag());
    v
}

/// Drops a leading bare `<html>` that another `<html` follows.
fn drop_lead(s: &str) -> (r: Option<Vec<char>>)
    ensures
        r is Some <==> match lead_cut(s@) {
            Some(c) => char_index(s@, c) is Some,
            None => true,
        },
        r matches Some(v) ==> v@ == after_lead(s@),
{
    let sc = chars_of(s);
    let lower = chars_of(&str_to_lowercase(s));
    let bare = tag_chars(2);
    if match_at(&lower, &bare, 0) {
        let after = slice_to_vec(&lower, 6, lower.len());
        assert(after@ =~= lower@.skip(6));
        let open = tag_chars(1);
        match find_first(&after, &open) {
            Some(p) => {
                let cut = 6 + byte_offset(&after, p);
                match char_index_of(&sc, cut) {
                    Some(ci) => {
                        proof {
                            lemma_char_index_found(sc@, cut as nat, 0);
                        }
                        let r = slice_to_vec(&sc, ci, sc.len());
                        assert(r@ =~= sc@.skip(ci as int));
                        Some(r)
                    },
                    None => None,
                }
            },
            None => Some(sc),
        }
    } else {
        Some(sc)
    }
}

/// Drops a last `</html>` that only white space separates from the one
/// before it.
fn drop_dup_close(t: &Vec<char>) -> (r: Option<Vec<char>>)
    ensures
        r is Some <==> match closing_pair(t@) {
            Some((p, l)) => {
                &&& char_index(t@, p + 7) is Some
                &&& char_index(t@, l) is Some
                &&& trim(closing_gap(t@, p, l)).len() == 0 ==> char_index(t@, l + 7) is Some
            },
            None => true,
        },
        r matches Some(v) ==> v@ == without_dup_close(t@),
{
    let ts = string_of(t);
    let lower = chars_of(&str_to_lowercase(&ts));
    let close = tag_chars(3);
    match rfind_chars(&lower, &close) {
        Some(l) => {
            let before = slice_to_vec(&lower, 0, l);
            assert(before@ =~= lower@.take(l as int));
            match rfind_chars(&before, &close) {
                Some(p) => {
                    proof {
                        lemma_last_found(before@, close@, (before@.len() + 1) as nat);
                        lemma_last_found(lower@, close@, (lower@.len() + 1) as nat);
                        assert(lower@.subrange(p as int, p + 7) =~= before@.subrange(p as int, p + 7));
                        lemma_close_bytes(lower@, p as int);
                        lemma_byte_grows(lower@, p + 7, l as int);
                    }
                    let bp = byte_offset(&lower, p) + 7;
                    let bl = byte_offset(&lower, l);
                    match (char_index_of(t, bp), char_index_of(t, bl)) {
                        (Some(ia), Some(ib)) => {
                            proof {
                                assert(p + 7 <= l);
                                assert(bp <= bl);
                                lemma_char_index_order(t@, bp as nat, bl as nat);
                                lemma_char_index_found(t@, bl as nat, 0);
                            }
                            let gap = slice_to_vec(t, ia, ib);
                            if trim_chars(&gap).len() == 0 {
                                match char_index_of(t, bl + 7) {
                                    Some(ic) => {
                                        proof {
                                            lemma_char_index_found(t@, (bl + 7) as nat, 0);
                                            lemma_char_index_found(t@, bp as nat, 0);
                                        }
                                        let mut out = slice_to_vec(t, 0, ia);
                                        let tail = slice_to_vec(t, ic, t.len());
                                        extend_chars(&mut out, &tail);
                                        assert(out@ =~= t@.take(ia as int) + t@.skip(ic as int));
                                        Some(out)
                                    },
                                    None => None,
                                }
                            } else {
                                Some(copy_chars(t))
                            }
                        },
                        _ => None,
                    }
                },
                None => Some(copy_chars(t)),
            }
        },
        None => Some(copy_chars(t)),
    }
}

fn copy_chars(t: &Vec<char>) -> (r: Vec<char>)
    ensures
        r@ == t@,
{
    slice_to_vec(t, 0, t.len())
}

/// Cleans up the shell of a document the model wrote: a stray bare
/// `<html>` before the real opening tag is dropped, and so is a doubled
/// `</html>` at the end.
pub fn dedupe_html_shell(s: &str) -> (r: String)
    requires
        shell_ok(s@),
    ensures
        r@ == shell_spec(s@),
{
    match dedupe_html_shell_checked(s) {
        Some(r) => r,
        None => String::new(),
    }
}

/// The clean-up of `dedupe_html_shell`, or `None` where it would cut the
/// text inside a character.
pub fn dedupe_html_shell_checked(s: &str) -> (r: Option<String>)
    ensures
        r is Some <==> shell_ok(s@),
        r matches Some(v) ==> v@ == shell_spec(s@),
{
    match drop_lead(s) {
        Some(t) => match drop_dup_close(&t) {
            Some(out) => Some(string_of(&out)),
            None => None,
        },
        None => None,
    }
}

/// The HTML document in a model's answer: from its doctype (or first
/// `<html`) to its last `</html>`, found case-insensitively, with the
/// shell cleaned up; the whole answer when no document is found.
pub fn extract_html(text: &str) -> (r: String)
    requires
        doc_cut_ok(text@),
        shell_ok(doc_text(text@)),
    ensures
        r@ == shell_spec(doc_text(text@)),
{
    match extract_html_checked(text) {
        Some(r) => r,
        None => String::new(),
    }
}

/// The document of `extract_html`, or `None` where a cut would fall
/// inside a character or the cuts come out of order.
pub fn extract_html_checked(text: &str) -> (r: Option<String>)
    ensures
        r is Some <==> doc_cut_ok(text@) && shell_ok(doc_text(text@)),
        r matches Some(v) ==> v@ == shell_spec(doc_text(text@)),
{
    let tc = chars_of(text);
    let lower = chars_of(&str_to_lowercase(text));
    let doctype = tag_chars(0);
    let open = tag_chars(1);
    let close = tag_chars(3);
    let start = match find_first(&lower, &doctype) {
        Some(k) => Some(k),
        None => find_first(&lower, &open),
    };
    let end = rfind_chars(&lower, &close);
    let doc: Option<Vec<char>> = match (start, end) {
        (Some(a), Some(e)) => {
            let ba = byte_offset(&lower, a);
            proof {
                lemma_last_found(lower@, close@, (lower@.len() + 1) as nat);
                lemma_close_bytes(lower@, e as int);
            }
            let be = byte_offset(&lower, e + 7);
            match (char_index_of(&tc, ba), char_index_of(&tc, be)) {
                (Some(i), Some(j)) => {
                    if ba <= be {
                        proof {
                            lemma_char_index_order(tc@, ba as nat, be as nat);
                            lemma_char_index_found(tc@, be as nat, 0);
                        }
                        Some(slice_to_vec(&tc, i, j))
                    } else {
                        None
                    }
                },
                _ => None,
            }
        },
        _ => Some(tc),
    };
    match doc {
        Some(d) => {
            let ds = string_of(&d);
            dedupe_html_shell_checked(&ds)
        },
        None => None,
    }
}

} // verus!
