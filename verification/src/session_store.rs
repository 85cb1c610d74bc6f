//! Per-session conversation files: the file name a session id maps to and
//! the token estimate of a reloaded conversation.

use vstd::prelude::*;
use crate::schema::ChatMessage;
use crate::text::{chars_of, extend_str, extend_chars, string_of, utf8_len, utf8_width, decimal, push_decimal, pad_left, push_padded_left, matches_at, match_at, slice_to_vec, take_chars};

verus! {

/// Characters kept in a session file name: ASCII letters and digits, `-`
/// and `_`.
pub open spec fn name_char_ok(c: char) -> bool {
    ('a' <= c && c <= 'z') || ('A' <= c && c <= 'Z') || ('0' <= c && c <= '9') || c == '-' || c
        == '_'
}

/// `sid` with every other character replaced by `_`.
pub open spec fn sanitize_spec(sid: Seq<char>) -> Seq<char> {
    sid.map_values(|c: char| if name_char_ok(c) { c } else { '_' })
}

/// Makes a session id safe as a file stem: nothing that could leave the
/// sessions directory or be ambiguous on disk survives.
pub fn sanitize(sid: &str) -> (r: String)
    ensures
        r@ == sanitize_spec(sid@),
{
    let c = chars_of(sid);
    let mut out: Vec<char> = Vec::new();
    let mut i: usize = 0;
    while i < c.len()
        invariant
            i <= c@.len(),
            c@ == sid@,
            out@ == sanitize_spec(sid@).take(i as int),
        decreases c@.len() - i,
    {
        let ch = c[i];
        let ok = ('a' <= ch && ch <= 'z') || ('A' <= ch && ch <= 'Z') || ('0' <= ch && ch <= '9')
            || ch == '-' || ch == '_';
        out.push(if ok { ch } else { '_' });
        i += 1;
        assert(out@ =~= sanitize_spec(sid@).take(i as int));
    }
    assert(out@ =~= sanitize_spec(sid@));
    string_of(&out)
}

/// The file name of a session: its sanitized id with a `.json` extension.
pub fn file_name_for(sid: &str) -> (r: String)
    ensures
        r@ == sanitize_spec(sid@) + ".json"@,
{
    let s = sanitize(sid);
    let mut v = chars_of(s.as_str());
    extend_str(&mut v, ".json");
    string_of(&v)
}

/// Content characters of the first `n` messages.
pub open spec fn content_chars(conv: Seq<ChatMessage>, n: int) -> nat
    decreases n,
{
    if n <= 0 {
        0
    } else {
        content_chars(conv, n - 1) + match conv[n - 1].content {
            Some(c) => c@.len(),
            None => 0,
        }
    }
}

proof fn lemma_content_chars_mono(conv: Seq<ChatMessage>, i: int, j: int)
    requires
        i <= j,
    ensures
        content_chars(conv, i) <= content_chars(conv, j),
    decreases j - i,
{
    if i < j {
        lemma_content_chars_mono(conv, i, j - 1);
    }
}

/// Tokens of a reloaded conversation, estimated as content characters / 4
/// (the count kept in 32 bits, as the running indicator shows it).
pub fn estimate_tokens(conv: &[ChatMessage]) -> (r: u32)
    requires
        content_chars(conv@, conv@.len() as int) <= u64::MAX,
    ensures
        r == (content_chars(conv@, conv@.len() as int) / 4) as u32,
{
    let mut total: u64 = 0;
    let mut i: usize = 0;
    while i < conv.len()
        invariant
            i <= conv@.len(),
            total == content_chars(conv@, i as int),
            content_chars(conv@, conv@.len() as int) <= u64::MAX,
        decreases conv@.len() - i,
    {
        proof {
            lemma_content_chars_mono(conv@, i + 1, conv@.len() as int);
        }
        match &conv[i].content {
            Some(c) => {
                let cs = chars_of(c.as_str());
                total = total + cs.len() as u64;
            },
            None => {},
        }
        i += 1;
    }
    #[verifier::truncate]
    let r = (total / 4) as u32;
    r
}

/// A sanitized name holds only letters, digits, `-` and `_`, so it can
/// neither leave the sessions directory nor carry a second extension.
pub proof fn lemma_sanitize_safe(sid: Seq<char>)
    ensures
        forall|i: int| 0 <= i < sanitize_spec(sid).len() ==> name_char_ok(#[trigger] sanitize_spec(sid)[i]),
        sanitize_spec(sid).len() == sid.len(),
{
}

/// Distinct ids map to distinct file names when both are already made of
/// allowed characters (sanitizing leaves such an id as it is). Ids with
/// other characters can collide: "a/b" and "a.b" both become "a_b".
pub proof fn lemma_sanitize_injective(a: Seq<char>, b: Seq<char>)
    requires
        forall|i: int| 0 <= i < a.len() ==> name_char_ok(#[trigger] a[i]),
        forall|i: int| 0 <= i < b.len() ==> name_char_ok(#[trigger] b[i]),
        a != b,
    ensures
        sanitize_spec(a) != sanitize_spec(b),
{
    assert(sanitize_spec(a) =~= a);
    assert(sanitize_spec(b) =~= b);
}

/// A saved session as the resume picker lists it.
#[derive(Debug, Clone)]
pub struct ResumeEntry {
    pub session_id: String,
    /// Unix time of its last turn.
    pub last_ts: u64,
    pub last_prompt: String,
    /// Working directory it ran in (empty when unknown).
    pub cwd: String,
    pub turns: u32,
}

/// An age in seconds as the picker shows it: `42s`, `5m`, `3h`, `2d`.
pub open spec fn age_text(age: nat) -> Seq<char> {
    if age < 60 {
        decimal(age) + "s"@
    } else if age < 3600 {
        decimal(age / 60) + "m"@
    } else if age < 86400 {
        decimal(age / 3600) + "h"@
    } else {
        decimal(age / 86400) + "d"@
    }
}

/// The working directory as the picker shows it: the home directory as
/// `~`, "(unknown cwd)" when there is none.
pub open spec fn cwd_text(cwd: Seq<char>, home: Option<Seq<char>>) -> Seq<char> {
    if cwd.len() == 0 {
        "(unknown cwd)"@
    } else {
        match home {
            Some(h) => if matches_at(cwd, h, 0) {
                "~"@ + cwd.skip(h.len() as int)
            } else {
                cwd
            },
            None => cwd,
        }
    }
}

/// The quoted first 70 characters of the last prompt, line feeds shown as
/// spaces; "(no prompt)" when it is empty.
pub open spec fn snippet_text(p: Seq<char>) -> Seq<char> {
    let s = p.take(if p.len() < 70 { p.len() as int } else { 70 }).map_values(|c: char| if c == '\n' { ' ' } else { c });
    if s.len() == 0 {
        "(no prompt)"@
    } else {
        "\""@ + s + "\""@
    }
}

/// The characters that make up the last `n` bytes of `s` (cut short when
/// a character straddles the limit).
pub open spec fn last_bytes(s: Seq<char>, n: nat) -> Seq<char>
    decreases s.len(),
{
    if s.len() == 0 || n == 0 {
        Seq::empty()
    } else if utf8_width(s.last()) <= n {
        last_bytes(s.drop_last(), (n - utf8_width(s.last())) as nat).push(s.last())
    } else {
        Seq::empty()
    }
}

/// A session id as the picker shows it: ids over 24 bytes keep their
/// last 24 bytes after an ellipsis.
pub open spec fn sid_text(sid: Seq<char>) -> Seq<char> {
    if utf8_len(sid) > 24 {
        "…"@ + last_bytes(sid, 24)
    } else {
        sid
    }
}

/// The two lines of a picker row: age, place, turns and id, then the
/// dimmed prompt snippet.
pub open spec fn resume_row_spec(e: ResumeEntry, now: u64, home: Option<Seq<char>>) -> Seq<char> {
    let age: nat = if now >= e.last_ts {
        (now - e.last_ts) as nat
    } else {
        0
    };
    pad_left(age_text(age), 4) + " · "@ + cwd_text(e.cwd@, home) + "  ("@ + decimal(e.turns as nat) + " turn"@ + (if e.turns
        == 1 {
        Seq::empty()
    } else {
        "s"@
    }) + ") ["@ + sid_text(e.session_id@) + "]\n      \x1b[2m"@ + snippet_text(e.last_prompt@) + "\x1b[0m"@
}

fn width_of(c: char) -> (w: usize)
    ensures
        w == utf8_width(c),
{
    if (c as u32) < 0x80 {
        1
    } else if (c as u32) < 0x800 {
        2
    } else if (c as u32) < 0x10000 {
        3
    } else {
        4
    }
}

fn last_bytes_exec(s: &[char], n: usize) -> (r: Vec<char>)
    ensures
        r@ == last_bytes(s@, n as nat),
{
    let mut k = s.len();
    let mut rem = n;
    assert(s@.take(k as int) =~= s@);
    assert(s@.skip(k as int) =~= Seq::<char>::empty());
    while k > 0 && rem > 0 && width_of(s[k - 1]) <= rem
        invariant
            k <= s@.len(),
            last_bytes(s@, n as nat) == last_bytes(s@.take(k as int), rem as nat) + s@.skip(k as int),
        decreases k,
    {
        let w = width_of(s[k - 1]);
        let ghost t = s@.take(k as int);
        assert(t.drop_last() =~= s@.take(k - 1));
        assert(t.last() == s@[k - 1]);
        assert(last_bytes(t.drop_last(), (rem - w) as nat).push(s@[k - 1]) + s@.skip(k as int) =~= last_bytes(s@.take(k - 1), (rem - w) as nat) + s@.skip(k - 1));
        rem = rem - w;
        k = k - 1;
    }
    let r = slice_to_vec(s, k, s.len());
    assert(last_bytes(s@.take(k as int), rem as nat) =~= Seq::<char>::empty()) by {
        if k > 0 && rem > 0 {
            assert(s@.take(k as int).last() == s@[k - 1]);
        }
    }
    assert(r@ =~= last_bytes(s@, n as nat));
    r
}

fn age_chars(age: u64) -> (r: Vec<char>)
    ensures
        r@ == age_text(age as nat),
{
    let mut a: Vec<char> = Vec::new();
    if age < 60 {
        push_decimal(&mut a, age);
        extend_str(&mut a, "s");
    } else if age < 3600 {
        push_decimal(&mut a, age / 60);
        extend_str(&mut a, "m");
    } else if age < 86400 {
        push_decimal(&mut a, age / 3600);
        extend_str(&mut a, "h");
    } else {
        push_decimal(&mut a, age / 86400);
        extend_str(&mut a, "d");
    }
    a
}

fn cwd_chars(cwd_s: &str, home: Option<&str>) -> (r: Vec<char>)
    ensures
        r@ == cwd_text(
            cwd_s@,
            match home {
                Some(h) => Some(h@),
                None => None,
            },
        ),
{
    let cwd = chars_of(cwd_s);
    if cwd.len() == 0 {
        return chars_of("(unknown cwd)");
    }
    match home {
        Some(h) => {
            let hc = chars_of(h);
            if match_at(&cwd, &hc, 0) {
                let mut v = chars_of("~");
                let rest = slice_to_vec(&cwd, hc.len(), cwd.len());
                assert(rest@ =~= cwd_s@.skip(h@.len() as int));
                extend_chars(&mut v, &rest);
                v
            } else {
                cwd
            }
        },
        None => cwd,
    }
}

fn sid_chars(sid_s: &str) -> (r: Vec<char>)
    ensures
        r@ == sid_text(sid_s@),
{
    let sid = chars_of(sid_s);
    if crate::text::utf8_len_capped(&sid, 25) > 24 {
        let mut v = chars_of("…");
        let tail = last_bytes_exec(&sid, 24);
        extend_chars(&mut v, &tail);
        v
    } else {
        sid
    }
}

fn snippet_chars(prompt: &str) -> (r: Vec<char>)
    ensures
        r@ == snippet_text(prompt@),
{
    let p = chars_of(prompt);
    let first = take_chars(&p, 70);
    let mut snip: Vec<char> = Vec::new();
    let mut i: usize = 0;
    while i < first.len()
        invariant
            i <= first@.len(),
            snip@ == first@.take(i as int).map_values(|c: char| if c == '\n' { ' ' } else { c }),
        decreases first@.len() - i,
    {
        let c = first[i];
        snip.push(if c == '\n' { ' ' } else { c });
        assert(first@.take(i + 1).map_values(|c: char| if c == '\n' { ' ' } else { c }) =~= first@.take(i as int).map_values(|c: char| if c == '\n' { ' ' } else { c }).push(if c == '\n' { ' ' } else { c }));
        i += 1;
    }
    assert(first@.take(first@.len() as int) =~= first@);
    if snip.len() == 0 {
        chars_of("(no prompt)")
    } else {
        let mut v = chars_of("\"");
        extend_chars(&mut v, &snip);
        extend_str(&mut v, "\"");
        v
    }
}

/// The picker row of a saved session, `now` being the current Unix time
/// and `home` the home directory. An id over 24 bytes must have a
/// character boundary 24 bytes before its end, where it is cut.
pub fn format_resume_row(e: &ResumeEntry, now: u64, home: Option<&str>) -> (r: String)
    requires
        utf8_len(e.session_id@) > 24 ==> utf8_len(last_bytes(e.session_id@, 24)) == 24,
    ensures
        r@ == resume_row_spec(
            *e,
            now,
            match home {
                Some(h) => Some(h@),
                None => None,
            },
        ),
{
    let age = if now >= e.last_ts {
        now - e.last_ts
    } else {
        0
    };
    let mut v: Vec<char> = Vec::new();
    push_padded_left(&mut v, &age_chars(age), 4);
    extend_str(&mut v, " · ");
    extend_chars(&mut v, &cwd_chars(e.cwd.as_str(), home));
    extend_str(&mut v, "  (");
    push_decimal(&mut v, e.turns as u64);
    extend_str(&mut v, " turn");
    if e.turns != 1 {
        extend_str(&mut v, "s");
    }
    extend_str(&mut v, ") [");
    extend_chars(&mut v, &sid_chars(e.session_id.as_str()));
    extend_str(&mut v, "]\n      \x1b[2m");
    extend_chars(&mut v, &snippet_chars(e.last_prompt.as_str()));
    extend_str(&mut v, "\x1b[0m");
    string_of(&v)
}

} // verus!
