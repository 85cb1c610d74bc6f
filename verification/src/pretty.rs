//! Sectioned rendering of the streamed model output.
//!
//! Streamed text is split on `<think>` / `</think>` markers, which may
//! straddle chunk boundaries; each segment is written in the style of its
//! section (thinking or response), with a header when a section opens and
//! a footer when it closes. Thinking is dropped unless asked for. The
//! renderer decides what to write; the caller performs the writes.

use vstd::prelude::*;
use crate::text::{chars_of, extend_str, extend_chars, string_of, slice_to_vec, find_from, matches_at};

verus! {

/// The section the output is in.
#[derive(Debug, Clone, Copy, PartialEq, Eq, Structural)]
pub enum Section {
    Idle,
    Thinking,
    Response,
}

/// One write the renderer asks for.
#[derive(Debug, Clone)]
pub enum Emit {
    /// Text for standard output (the content itself and its styles).
    Stdout(String),
    /// Text for standard error (section borders).
    Stderr(String),
}

/// A write as the contracts see it: `true` for standard output.
pub type EmitView = (bool, Seq<char>);

/// Writes as the contracts see them.
pub open spec fn emits_view(v: Seq<Emit>) -> Seq<EmitView> {
    v.map_values(|e: Emit| match e {
        Emit::Stdout(s) => (true, s@),
        Emit::Stderr(s) => (false, s@),
    })
}

/// The opening marker of a thinking block.
pub open spec fn open_marker() -> Seq<char> {
    seq!['<', 't', 'h', 'i', 'n', 'k', '>']
}

/// The closing marker of a thinking block.
pub open spec fn close_marker() -> Seq<char> {
    seq!['<', '/', 't', 'h', 'i', 'n', 'k', '>']
}

/// The border that opens a section titled `title`.
pub open spec fn header_text(title: Seq<char>) -> Seq<char> {
    "\n\x1b[2m╭─ "@ + title + "\x1b[2m ─────────────────────\x1b[0m\n"@
}

/// The border that closes a section.
pub open spec fn footer_text() -> Seq<char> {
    "\n\x1b[2m╰─────────────────────────────────────\x1b[0m\n"@
}

/// Closing the current section: reset the style and draw the footer,
/// except for a hidden thinking section; nothing when idle.
#[verifier::opaque]
pub open spec fn close_spec(sec: Section, show: bool) -> Seq<EmitView> {
    if sec == Section::Idle {
        Seq::empty()
    } else if sec == Section::Thinking && !show {
        seq![(true, "\x1b[0m"@)]
    } else {
        seq![(true, "\x1b[0m"@), (false, footer_text())]
    }
}

/// Entering section `new` from `(sec, line)`: nothing if already there,
/// else close the current one and open `new` with its header (none for a
/// hidden thinking section). The result is the writes and the new state.
#[verifier::opaque]
pub open spec fn enter_spec(sec: Section, line: bool, show: bool, new: Section) -> (Seq<EmitView>, Section, bool) {
    if sec == new {
        (Seq::empty(), sec, line)
    } else {
        let h = match new {
            Section::Thinking => if show {
                seq![(false, header_text("🤔 thinking"@))]
            } else {
                Seq::empty()
            },
            Section::Response => seq![(false, header_text("💬 response"@))],
            Section::Idle => Seq::empty(),
        };
        (close_spec(sec, show) + h, new, false)
    }
}

/// Writing `text` in the current section: dropped inside a hidden thinking
/// section; outside any section a response section opens first; the
/// section's style goes out once before its first text.
#[verifier::opaque]
pub open spec fn emit_spec(sec: Section, line: bool, show: bool, text: Seq<char>) -> (Seq<EmitView>, Section, bool) {
    if sec == Section::Thinking && !show {
        (Seq::empty(), sec, line)
    } else {
        let (e0, s1, l1) = if sec == Section::Idle {
            enter_spec(sec, line, show, Section::Response)
        } else {
            (Seq::empty(), sec, line)
        };
        let style = match s1 {
            Section::Thinking => "\x1b[2;3m"@,
            Section::Response => "\x1b[0m"@,
            Section::Idle => Seq::empty(),
        };
        let e1 = if !l1 {
            seq![(true, style)]
        } else {
            Seq::empty()
        };
        (e0 + e1 + seq![(true, text)], s1, true)
    }
}

/// First position at or after `i` where `n` occurs in `h`.
pub open spec fn first_at(h: Seq<char>, n: Seq<char>, i: nat) -> Option<nat>
    decreases h.len() + 1 - i,
{
    if i > h.len() {
        None
    } else if matches_at(h, n, i as int) {
        Some(i)
    } else {
        first_at(h, n, i + 1)
    }
}

/// The first marker in `p`: its position and whether it opens a block.
#[verifier::opaque]
pub open spec fn next_marker(p: Seq<char>) -> Option<(nat, bool)> {
    match (first_at(p, open_marker(), 0), first_at(p, close_marker(), 0)) {
        (Some(o), Some(c)) => if o < c {
            Some((o, true))
        } else {
            Some((c, false))
        },
        (Some(o), None) => Some((o, true)),
        (None, Some(c)) => Some((c, false)),
        (None, None) => None,
    }
}

/// A found position is a match at or after the start.
pub proof fn lemma_first_at_found(h: Seq<char>, n: Seq<char>, i: nat)
    ensures
        first_at(h, n, i) matches Some(k) ==> i <= k && matches_at(h, n, k as int),
    decreases h.len() + 1 - i,
{
    if i <= h.len() && !matches_at(h, n, i as int) {
        lemma_first_at_found(h, n, i + 1);
    }
}

pub(crate) proof fn lemma_first_at_of_find(h: Seq<char>, n: Seq<char>, i: nat, r: Option<usize>)
    requires
        match r {
            Some(k) => i <= k && matches_at(h, n, k as int) && forall|j: int| i <= j < k ==> !matches_at(h, n, j),
            None => forall|j: int| i <= j ==> !matches_at(h, n, j),
        },
    ensures
        first_at(h, n, i) == match r {
            Some(k) => Some(k as nat),
            None => None::<nat>,
        },
    decreases h.len() + 1 - i,
{
    if i <= h.len() && !matches_at(h, n, i as int) {
        lemma_first_at_of_find(h, n, i + 1, r);
    } else if i > h.len() {
        if let Some(k) = r {
            assert(matches_at(h, n, k as int));
        }
    }
}

/// One draining step on pending text `p` whose first marker is at `pos`
/// (`open` tells which): the text before the marker is written in the
/// current section, then the marker switches section. Returns the writes,
/// the state and the text after the marker.
#[verifier::opaque]
pub open spec fn step_spec(sec: Section, line: bool, show: bool, p: Seq<char>, pos: nat, open: bool) -> (Seq<EmitView>, Section, bool, Seq<char>) {
    let pre = p.take(pos as int);
    let (e1, s1, l1) = if pre.len() > 0 {
        emit_spec(sec, line, show, pre)
    } else {
        (Seq::empty(), sec, line)
    };
    let (e2, s2, l2) = enter_spec(s1, l1, show, if open {
        Section::Thinking
    } else {
        Section::Response
    });
    (e1 + e2, s2, l2, p.skip(pos + (if open { 7int } else { 8int })))
}

/// A draining step consumes at least its marker.
pub proof fn lemma_step_shrinks(sec: Section, line: bool, show: bool, p: Seq<char>, pos: nat, open: bool)
    requires
        pos + (if open { 7nat } else { 8nat }) <= p.len(),
    ensures
        step_spec(sec, line, show, p, pos, open).3.len() < p.len(),
{
    reveal(step_spec);
}

/// Draining the markers from pending text `p` in state `(sec, line)`: one
/// step per marker, in order. Returns the writes, the state and what is
/// left (text without a complete marker).
#[verifier::opaque]
pub open spec fn drain_spec(sec: Section, line: bool, show: bool, p: Seq<char>) -> (Seq<EmitView>, Section, bool, Seq<char>)
    decreases p.len(),
{
    match next_marker(p) {
        None => (Seq::empty(), sec, line, p),
        Some((pos, open)) => {
            proof {
                lemma_next_marker_bound(p);
                lemma_step_shrinks(sec, line, show, p, pos, open);
            }
            let st = step_spec(sec, line, show, p, pos, open);
            let rest = drain_spec(st.1, st.2, show, st.3);
            (st.0 + rest.0, rest.1, rest.2, rest.3)
        },
    }
}

/// A marker found in `p` lies inside it.
pub proof fn lemma_next_marker_bound(p: Seq<char>)
    ensures
        next_marker(p) matches Some((pos, open)) ==> pos + (if open { 7nat } else { 8nat }) <= p.len(),
{
    reveal(next_marker);
    lemma_first_at_found(p, open_marker(), 0);
    lemma_first_at_found(p, close_marker(), 0);
}

/// Draining runs the step for the first marker, then drains the rest.
proof fn lemma_drain_unfold(sec: Section, line: bool, show: bool, p: Seq<char>, pos: nat, open: bool)
    requires
        next_marker(p) == Some((pos, open)),
    ensures
        ({
            let st = step_spec(sec, line, show, p, pos, open);
            let rest = drain_spec(st.1, st.2, show, st.3);
            drain_spec(sec, line, show, p) == (st.0 + rest.0, rest.1, rest.2, rest.3)
        }),
{
    reveal(drain_spec);
}

/// Draining text without markers writes nothing.
proof fn lemma_drain_done(sec: Section, line: bool, show: bool, p: Seq<char>)
    requires
        next_marker(p) is None,
    ensures
        drain_spec(sec, line, show, p) == (Seq::<EmitView>::empty(), sec, line, p),
{
    reveal(drain_spec);
}

/// A non-empty text that could be the start of a marker.
pub open spec fn marker_prefix(t: Seq<char>) -> bool {
    t.len() > 0 && ((t.len() <= 7 && open_marker().take(t.len() as int) == t) || (t.len() <= 8
        && close_marker().take(t.len() as int) == t))
}

/// How much of `s` can be written now: everything before the first
/// position from which the rest could still become a marker.
pub open spec fn safe_len(s: Seq<char>) -> nat {
    if exists|j: int| 0 <= j < s.len() && marker_prefix(#[trigger] s.skip(j)) {
        (choose|j: int| 0 <= j < s.len() && marker_prefix(#[trigger] s.skip(j)) && forall|k: int|
            0 <= k < j ==> !marker_prefix(#[trigger] s.skip(k))) as nat
    } else {
        s.len()
    }
}

/// The renderer: its section, the text held back while a marker may be
/// incomplete, whether the section's style is out, and whether thinking
/// is shown.
pub struct PrettyOut {
    pub enabled: bool,
    section: Section,
    pending: Vec<char>,
    line_in_section: bool,
    show_thinking: bool,
}

impl PrettyOut {
    /// Whether output is sectioned (else written plainly).
    pub closed spec fn is_enabled(&self) -> bool {
        self.enabled
    }

    /// Current section.
    pub closed spec fn sec(&self) -> Section {
        self.section
    }

    /// Text held back.
    pub closed spec fn held(&self) -> Seq<char> {
        self.pending@
    }

    /// Whether the current section's style has gone out.
    pub closed spec fn styled(&self) -> bool {
        self.line_in_section
    }

    /// Whether thinking is shown.
    pub closed spec fn shows_thinking(&self) -> bool {
        self.show_thinking
    }

    /// A renderer in no section with nothing held back; `enabled` is false
    /// when output is plain, `show_thinking` keeps thinking blocks.
    pub fn new(enabled: bool, show_thinking: bool) -> (r: Self)
        ensures
            r.is_enabled() == enabled,
            r.sec() == Section::Idle,
            r.held() == Seq::<char>::empty(),
            !r.styled(),
            r.shows_thinking() == show_thinking,
    {
        PrettyOut { enabled, section: Section::Idle, pending: Vec::new(), line_in_section: false, show_thinking }
    }

    fn push_emit(out: &mut Vec<Emit>, stdout: bool, text: &str)
        ensures
            emits_view(final(out)@) == emits_view(old(out)@).push((stdout, text@)),
    {
        let s = text.to_owned();
        if stdout {
            out.push(Emit::Stdout(s));
        } else {
            out.push(Emit::Stderr(s));
        }
        assert(emits_view(out@) =~= emits_view(old(out)@).push((stdout, text@)));
    }

    fn push_header(out: &mut Vec<Emit>, title: &str)
        ensures
            emits_view(final(out)@) == emits_view(old(out)@).push((false, header_text(title@))),
    {
        let mut v = chars_of("\n\x1b[2m╭─ ");
        extend_str(&mut v, title);
        extend_str(&mut v, "\x1b[2m ─────────────────────\x1b[0m\n");
        out.push(Emit::Stderr(string_of(&v)));
        assert(emits_view(out@) =~= emits_view(old(out)@).push((false, header_text(title@))));
    }

    fn close_section(&mut self, out: &mut Vec<Emit>)
        ensures
            emits_view(final(out)@) == emits_view(old(out)@) + close_spec(old(self).section, old(self).show_thinking),
            final(self).section == Section::Idle,
            final(self).pending == old(self).pending,
            final(self).line_in_section == old(self).line_in_section,
            final(self).show_thinking == old(self).show_thinking,
            final(self).enabled == old(self).enabled,
    {
        proof {
            reveal(close_spec);
        }
        if self.section == Section::Idle {
            assert(emits_view(out@) =~= emits_view(out@) + Seq::<EmitView>::empty());
            return;
        }
        let suppress = self.section == Section::Thinking && !self.show_thinking;
        Self::push_emit(out, true, "\x1b[0m");
        if !suppress {
            Self::push_emit(out, false, "\n\x1b[2m╰─────────────────────────────────────\x1b[0m\n");
        }
        assert(emits_view(out@) =~= emits_view(old(out)@) + close_spec(old(self).section, old(self).show_thinking));
        self.section = Section::Idle;
    }

    fn enter(&mut self, new_section: Section, out: &mut Vec<Emit>)
        ensures
            ({
                let (e, s, l) = enter_spec(old(self).section, old(self).line_in_section, old(self).show_thinking, new_section);
                &&& emits_view(final(out)@) == emits_view(old(out)@) + e
                &&& final(self).section == s
                &&& final(self).line_in_section == l
            }),
            final(self).pending == old(self).pending,
            final(self).show_thinking == old(self).show_thinking,
            final(self).enabled == old(self).enabled,
    {
        proof {
            reveal(enter_spec);
        }
        if self.section == new_section {
            assert(emits_view(out@) =~= emits_view(out@) + Seq::<EmitView>::empty());
            return;
        }
        let ghost before = emits_view(out@);
        self.close_section(out);
        let ghost mid = emits_view(out@);
        self.section = new_section;
        self.line_in_section = false;
        match new_section {
            Section::Thinking => {
                if self.show_thinking {
                    Self::push_header(out, "🤔 thinking");
                }
            },
            Section::Response => Self::push_header(out, "💬 response"),
            Section::Idle => {},
        }
        assert(emits_view(out@) =~= before + enter_spec(old(self).section, old(self).line_in_section, old(self).show_thinking, new_section).0);
    }

    fn emit_in_section(&mut self, text: &[char], out: &mut Vec<Emit>)
        ensures
            ({
                let (e, s, l) = emit_spec(old(self).section, old(self).line_in_section, old(self).show_thinking, text@);
                &&& emits_view(final(out)@) == emits_view(old(out)@) + e
                &&& final(self).section == s
                &&& final(self).line_in_section == l
            }),
            final(self).pending == old(self).pending,
            final(self).show_thinking == old(self).show_thinking,
            final(self).enabled == old(self).enabled,
    {
        proof {
            reveal(emit_spec);
            reveal(enter_spec);
        }
        if self.section == Section::Thinking && !self.show_thinking {
            assert(emits_view(out@) =~= emits_view(out@) + Seq::<EmitView>::empty());
            return;
        }
        let ghost before = emits_view(out@);
        if self.section == Section::Idle {
            self.enter(Section::Response, out);
        }
        let ghost mid = emits_view(out@);
        let style = match self.section {
            Section::Thinking => "\x1b[2;3m",
            Section::Response => "\x1b[0m",
            Section::Idle => "",
        };
        let ghost l1 = self.line_in_section;
        if !self.line_in_section {
            Self::push_emit(out, true, style);
            self.line_in_section = true;
        }
        let ghost mid2 = emits_view(out@);
        assert(mid2 =~= mid + if !l1 { seq![(true, style@)] } else { Seq::<EmitView>::empty() });
        let st = string_of(text);
        out.push(Emit::Stdout(st));
        assert(emits_view(out@) =~= mid2.push((true, text@)));
        proof {
            let (e0, s1, l1) = if old(self).section == Section::Idle {
                enter_spec(old(self).section, old(self).line_in_section, old(self).show_thinking, Section::Response)
            } else {
                (Seq::<EmitView>::empty(), old(self).section, old(self).line_in_section)
            };
            assert(mid =~= before + e0);
        }
        assert(emits_view(out@) =~= before + emit_spec(old(self).section, old(self).line_in_section, old(self).show_thinking, text@).0);
    }
}

/// Whether the rest of `s` from `i` could be the start of a marker.
fn is_marker_prefix(s: &[char], i: usize) -> (r: bool)
    requires
        i <= s@.len(),
    ensures
        r == marker_prefix(s@.skip(i as int)),
{
    let n = s.len() - i;
    if n == 0 || n > 8 {
        return false;
    }
    let t = slice_to_vec(s, i, s.len());
    assert(t@ =~= s@.skip(i as int));
    let open = vec!['<', 't', 'h', 'i', 'n', 'k', '>'];
    let close = vec!['<', '/', 't', 'h', 'i', 'n', 'k', '>'];
    assert(open@ =~= open_marker());
    assert(close@ =~= close_marker());
    let mut r = false;
    if n <= 7 {
        let o = slice_to_vec(&open, 0, n);
        r = crate::text::chars_eq(&o, &t);
    }
    if !r {
        let c = slice_to_vec(&close, 0, n);
        r = crate::text::chars_eq(&c, &t);
    }
    r
}

/// Length of the part of `s` that can be written without cutting a
/// possible marker at its end.
fn safe_emit_len(s: &[char]) -> (r: usize)
    ensures
        r == safe_len(s@),
{
    let max = s.len();
    let look = if max >= 8 {
        max - 8
    } else {
        0
    };
    let mut i = look;
    while i < max
        invariant
            look <= i <= max,
            max == s@.len(),
            look == if max >= 8 { max - 8 } else { 0 },
            forall|k: int| 0 <= k < i ==> !marker_prefix(#[trigger] s@.skip(k)),
        decreases max - i,
    {
        if is_marker_prefix(s, i) {
            proof {
                let p = |j: int| 0 <= j < s@.len() && marker_prefix(s@.skip(j)) && forall|k: int|
                    0 <= k < j ==> !marker_prefix(#[trigger] s@.skip(k));
                assert(p(i as int));
                let j = choose|j: int| 0 <= j < s@.len() && marker_prefix(#[trigger] s@.skip(j)) && forall|k: int|
                    0 <= k < j ==> !marker_prefix(#[trigger] s@.skip(k));
                if j < i {
                    assert(!marker_prefix(s@.skip(j)));
                }
                if j > i {
                    assert(!marker_prefix(s@.skip(i as int)));
                }
                assert(j == i);
            }
            return i;
        }
        i += 1;
        proof {
            assert forall|k: int| 0 <= k < i implies !marker_prefix(#[trigger] s@.skip(k)) by {
                if k < look {
                    assert(s@.skip(k).len() > 8);
                }
            }
        }
    }
    proof {
        assert forall|k: int| 0 <= k < s@.len() implies !marker_prefix(#[trigger] s@.skip(k)) by {
            if k < look {
                assert(s@.skip(k).len() > 8);
            }
        }
    }
    max
}

/// What pushing `delta` does in state `(sec, line)` with held-back text
/// `held`: drain the markers, then write all that cannot start a marker.
/// Returns the writes, the state and the text still held back.
pub open spec fn push_spec(sec: Section, line: bool, show: bool, held: Seq<char>, delta: Seq<char>) -> (Seq<EmitView>, Section, bool, Seq<char>) {
    let (e, s1, l1, p) = drain_spec(sec, line, show, held + delta);
    let k = safe_len(p);
    if k > 0 {
        let (e2, s2, l2) = emit_spec(s1, l1, show, p.take(k as int));
        (e + e2, s2, l2, p.skip(k as int))
    } else {
        (e, s1, l1, p)
    }
}

/// What ending the stream does: write what is held back, then close the
/// section.
pub open spec fn flush_spec(sec: Section, line: bool, show: bool, held: Seq<char>) -> (Seq<EmitView>, bool) {
    let (e1, s1, l1) = if held.len() > 0 {
        emit_spec(sec, line, show, held)
    } else {
        (Seq::empty(), sec, line)
    };
    (e1 + close_spec(s1, show), l1)
}

impl PrettyOut {
    /// Handles the first marker, at `pos`: writes the text before it and
    /// switches section.
    fn drain_step(&mut self, out: &mut Vec<Emit>, pos: usize, is_open: bool)
        requires
            pos + (if is_open { 7nat } else { 8nat }) <= old(self).pending@.len(),
        ensures
            ({
                let st = step_spec(old(self).section, old(self).line_in_section, old(self).show_thinking, old(self).pending@, pos as nat, is_open);
                &&& emits_view(final(out)@) == emits_view(old(out)@) + st.0
                &&& final(self).section == st.1
                &&& final(self).line_in_section == st.2
                &&& final(self).pending@ == st.3
            }),
            final(self).show_thinking == old(self).show_thinking,
            final(self).enabled == old(self).enabled,
    {
        let ghost p = self.pending@;
        let ghost show = self.show_thinking;
        let mlen: usize = if is_open {
            7
        } else {
            8
        };
        assert(pos + mlen <= self.pending.len());
        let ghost before = emits_view(out@);
        let ghost s0 = self.section;
        let ghost l0 = self.line_in_section;
        let pre = slice_to_vec(&self.pending, 0, pos);
        assert(pre@ =~= p.take(pos as int));
        if pre.len() > 0 {
            self.emit_in_section(&pre, out);
        } else {
            assert(emits_view(out@) =~= before + Seq::<EmitView>::empty());
        }
        let ghost mid = emits_view(out@);
        let rest = slice_to_vec(&self.pending, pos + mlen, self.pending.len());
        assert(rest@ =~= p.skip((pos + mlen) as int));
        self.pending = rest;
        let target = if is_open {
            Section::Thinking
        } else {
            Section::Response
        };
        self.enter(target, out);
        proof {
            reveal(step_spec);
            let st = step_spec(s0, l0, show, p, pos as nat, is_open);
            assert(emits_view(out@) =~= before + st.0);
        }
    }

    #[verifier::rlimit(40)]
    fn drain_markers(&mut self, out: &mut Vec<Emit>)
        ensures
            ({
                let (e, s, l, p) = drain_spec(old(self).section, old(self).line_in_section, old(self).show_thinking, old(self).pending@);
                &&& emits_view(final(out)@) == emits_view(old(out)@) + e
                &&& final(self).section == s
                &&& final(self).line_in_section == l
                &&& final(self).pending@ == p
            }),
            final(self).show_thinking == old(self).show_thinking,
            final(self).enabled == old(self).enabled,
    {
        let ghost total = drain_spec(self.section, self.line_in_section, self.show_thinking, self.pending@);
        let ghost e0 = emits_view(out@);
        let open = vec!['<', 't', 'h', 'i', 'n', 'k', '>'];
        let close = vec!['<', '/', 't', 'h', 'i', 'n', 'k', '>'];
        assert(open@ =~= open_marker());
        assert(close@ =~= close_marker());
        loop
            invariant
                self.show_thinking == old(self).show_thinking,
                self.enabled == old(self).enabled,
                open@ == open_marker(),
                close@ == close_marker(),
                total == drain_spec(old(self).section, old(self).line_in_section, old(self).show_thinking, old(self).pending@),
                e0 == emits_view(old(out)@),
                ({
                    let d = drain_spec(self.section, self.line_in_section, self.show_thinking, self.pending@);
                    &&& total.1 == d.1
                    &&& total.2 == d.2
                    &&& total.3 == d.3
                    &&& emits_view(out@) + d.0 == e0 + total.0
                }),
            ensures
                emits_view(out@) == e0 + total.0,
                self.section == total.1,
                self.line_in_section == total.2,
                self.pending@ == total.3,
            decreases self.pending@.len(),
        {
            let ghost p = self.pending@;
            let ghost old_sec = self.section;
            let ghost old_line = self.line_in_section;
            let o = find_from(&self.pending, &open, 0);
            let c = find_from(&self.pending, &close, 0);
            proof {
                lemma_first_at_of_find(p, open_marker(), 0, o);
                lemma_first_at_of_find(p, close_marker(), 0, c);
                reveal(next_marker);
            }
            let (pos, is_open) = match (o, c) {
                (Some(x), Some(y)) => if x < y {
                    (x, true)
                } else {
                    (y, false)
                },
                (Some(x), None) => (x, true),
                (None, Some(y)) => (y, false),
                (None, None) => {
                    assert(next_marker(p) is None);
                    proof {
                        lemma_drain_done(self.section, self.line_in_section, self.show_thinking, p);
                    }
                    assert(emits_view(out@) + Seq::<EmitView>::empty() =~= emits_view(out@));
                    break;
                },
            };
            proof {
                lemma_next_marker_bound(p);
                lemma_drain_unfold(self.section, self.line_in_section, self.show_thinking, p, pos as nat, is_open);
                lemma_step_shrinks(self.section, self.line_in_section, self.show_thinking, p, pos as nat, is_open);
            }
            let ghost eb = emits_view(out@);
            self.drain_step(out, pos, is_open);
            proof {
                let st = step_spec(old_sec, old_line, self.show_thinking, p, pos as nat, is_open);
                assert(emits_view(out@) + drain_spec(self.section, self.line_in_section, self.show_thinking, self.pending@).0 =~= eb + drain_spec(old_sec, old_line, self.show_thinking, p).0);
            }
        }
    }

    /// Takes in a streamed text delta: splits it on thinking markers and
    /// returns the writes, holding back any tail that may start a marker.
    /// In plain mode the delta is written as it is.
    pub fn push_content(&mut self, delta: &str) -> (r: Vec<Emit>)
        ensures
            !old(self).is_enabled() ==> emits_view(r@) == seq![(true, delta@)] && *final(self) == *old(self),
            old(self).is_enabled() ==> ({
                let (e, s, l, p) = push_spec(old(self).sec(), old(self).styled(), old(self).shows_thinking(), old(self).held(), delta@);
                &&& emits_view(r@) == e
                &&& final(self).sec() == s
                &&& final(self).styled() == l
                &&& final(self).held() == p
            }),
            final(self).is_enabled() == old(self).is_enabled(),
            final(self).shows_thinking() == old(self).shows_thinking(),
    {
        let mut out: Vec<Emit> = Vec::new();
        if !self.enabled {
            out.push(Emit::Stdout(delta.to_owned()));
            assert(emits_view(out@) =~= seq![(true, delta@)]);
            return out;
        }
        extend_str(&mut self.pending, delta);
        assert(emits_view(out@) =~= Seq::<EmitView>::empty());
        self.drain_markers(&mut out);
        let ghost e = emits_view(out@);
        let safe = safe_emit_len(&self.pending);
        if safe > 0 {
            let head = slice_to_vec(&self.pending, 0, safe);
            let tail = slice_to_vec(&self.pending, safe, self.pending.len());
            assert(head@ =~= self.pending@.take(safe as int));
            assert(tail@ =~= self.pending@.skip(safe as int));
            self.emit_in_section(&head, &mut out);
            self.pending = tail;
        }
        out
    }

    /// Ends the stream: writes whatever is held back and closes the
    /// section. Nothing in plain mode.
    pub fn flush_end(&mut self) -> (r: Vec<Emit>)
        ensures
            !old(self).is_enabled() ==> r@.len() == 0 && *final(self) == *old(self),
            old(self).is_enabled() ==> ({
                let (e, l) = flush_spec(old(self).sec(), old(self).styled(), old(self).shows_thinking(), old(self).held());
                &&& emits_view(r@) == e
                &&& final(self).sec() == Section::Idle
                &&& final(self).styled() == l
                &&& final(self).held() == Seq::<char>::empty()
            }),
            final(self).is_enabled() == old(self).is_enabled(),
            final(self).shows_thinking() == old(self).shows_thinking(),
    {
        let mut out: Vec<Emit> = Vec::new();
        if !self.enabled {
            return out;
        }
        assert(emits_view(out@) =~= Seq::<EmitView>::empty());
        if self.pending.len() > 0 {
            let mut drained: Vec<char> = Vec::new();
            std::mem::swap(&mut drained, &mut self.pending);
            self.emit_in_section(&drained, &mut out);
        }
        self.close_section(&mut out);
        out
    }
}

// ---------------------------------------------------------------------------
// What a reader sees when thinking is hidden
// ---------------------------------------------------------------------------

/// A write that sets a style rather than carrying text: it starts with ESC.
pub open spec fn is_style(t: Seq<char>) -> bool {
    t.len() > 0 && t[0] == '\x1b'
}

/// The text a reader sees on standard output: the standard-output writes
/// that carry text, in order (style writes and the section borders on
/// standard error left out).
pub open spec fn visible(es: Seq<EmitView>) -> Seq<char>
    decreases es.len(),
{
    if es.len() == 0 {
        Seq::empty()
    } else {
        visible(es.drop_last()) + if es.last().0 && !is_style(es.last().1) {
            es.last().1
        } else {
            Seq::empty()
        }
    }
}

/// The streamed text without its thinking blocks: the markers are removed,
/// and so is every character whose nearest preceding marker opens a block.
/// `inside` when the text starts inside a block.
pub open spec fn without_thinking(d: Seq<char>, inside: bool) -> Seq<char>
    decreases d.len(),
{
    if d.len() == 0 {
        Seq::empty()
    } else if matches_at(d, open_marker(), 0) {
        without_thinking(d.skip(7), true)
    } else if matches_at(d, close_marker(), 0) {
        without_thinking(d.skip(8), false)
    } else {
        (if inside {
            Seq::empty()
        } else {
            seq![d[0]]
        }) + without_thinking(d.drop_first(), inside)
    }
}

/// No marker starts anywhere in `h`.
pub open spec fn no_marker(h: Seq<char>) -> bool {
    forall|j: int| !matches_at(h, open_marker(), j) && !matches_at(h, close_marker(), j)
}

/// Whether a section hides its text (thinking, when thinking is hidden).
pub open spec fn hides(sec: Section) -> bool {
    sec == Section::Thinking
}

proof fn lemma_visible_concat(a: Seq<EmitView>, b: Seq<EmitView>)
    ensures
        visible(a + b) == visible(a) + visible(b),
    decreases b.len(),
{
    if b.len() == 0 {
        assert(a + b =~= a);
        assert(visible(a) + Seq::<char>::empty() =~= visible(a));
    } else {
        lemma_visible_concat(a, b.drop_last());
        assert((a + b).drop_last() =~= a + b.drop_last());
        assert((a + b).last() == b.last());
        assert(visible(a) + visible(b.drop_last()) + (if b.last().0 && !is_style(b.last().1) {
            b.last().1
        } else {
            Seq::<char>::empty()
        }) =~= visible(a) + visible(b));
    }
}

proof fn lemma_visible_one(x: EmitView)
    ensures
        visible(seq![x]) == if x.0 && !is_style(x.1) {
            x.1
        } else {
            Seq::<char>::empty()
        },
{
    assert(seq![x].drop_last() =~= Seq::<EmitView>::empty());
    assert(visible(Seq::<EmitView>::empty()) == Seq::<char>::empty());
    assert(Seq::<char>::empty() + (if x.0 && !is_style(x.1) {
        x.1
    } else {
        Seq::<char>::empty()
    }) =~= (if x.0 && !is_style(x.1) {
        x.1
    } else {
        Seq::<char>::empty()
    }));
}

proof fn lemma_close_invisible(sec: Section)
    ensures
        visible(close_spec(sec, false)) == Seq::<char>::empty(),
{
    reveal(close_spec);
    reveal_strlit("\x1b[0m");
    lemma_visible_one((true, "\x1b[0m"@));
    lemma_visible_one((false, footer_text()));
    if sec != Section::Idle && !(sec == Section::Thinking) {
        lemma_visible_concat(seq![(true, "\x1b[0m"@)], seq![(false, footer_text())]);
        assert(seq![(true, "\x1b[0m"@), (false, footer_text())] =~= seq![(true, "\x1b[0m"@)] + seq![(false, footer_text())]);
    }
}

proof fn lemma_enter_invisible(sec: Section, line: bool, new: Section)
    ensures
        visible(enter_spec(sec, line, false, new).0) == Seq::<char>::empty(),
        enter_spec(sec, line, false, new).1 == new,
{
    reveal(enter_spec);
    if sec != new {
        lemma_close_invisible(sec);
        let h = match new {
            Section::Thinking => Seq::<EmitView>::empty(),
            Section::Response => seq![(false, header_text("💬 response"@))],
            Section::Idle => Seq::<EmitView>::empty(),
        };
        lemma_visible_concat(close_spec(sec, false), h);
        lemma_visible_one((false, header_text("💬 response"@)));
    }
}

proof fn lemma_emit_visible(sec: Section, line: bool, text: Seq<char>)
    requires
        text.len() > 0,
        text[0] != '\x1b',
    ensures
        visible(emit_spec(sec, line, false, text).0) == if hides(sec) {
            Seq::<char>::empty()
        } else {
            text
        },
        hides(emit_spec(sec, line, false, text).1) == hides(sec),
{
    reveal(emit_spec);
    if !(sec == Section::Thinking) {
        let (e0, s1, l1) = if sec == Section::Idle {
            enter_spec(sec, line, false, Section::Response)
        } else {
            (Seq::<EmitView>::empty(), sec, line)
        };
        if sec == Section::Idle {
            lemma_enter_invisible(sec, line, Section::Response);
        }
        let style = match s1 {
            Section::Thinking => "\x1b[2;3m"@,
            Section::Response => "\x1b[0m"@,
            Section::Idle => Seq::<char>::empty(),
        };
        reveal_strlit("\x1b[2;3m");
        reveal_strlit("\x1b[0m");
        let e1 = if !l1 {
            seq![(true, style)]
        } else {
            Seq::<EmitView>::empty()
        };
        lemma_visible_one((true, style));
        lemma_visible_one((true, text));
        lemma_visible_concat(e0, e1);
        lemma_visible_concat(e0 + e1, seq![(true, text)]);
        assert(visible(e1) == Seq::<char>::empty());
        assert(visible(e0 + e1 + seq![(true, text)]) =~= text);
    }
}

proof fn lemma_first_at_none(h: Seq<char>, n: Seq<char>, i: nat)
    requires
        first_at(h, n, i) is None,
    ensures
        forall|j: int| i <= j ==> !matches_at(h, n, j),
    decreases h.len() + 1 - i,
{
    if i <= h.len() {
        lemma_first_at_none(h, n, i + 1);
    }
}

proof fn lemma_first_at_min(h: Seq<char>, n: Seq<char>, i: nat)
    ensures
        first_at(h, n, i) matches Some(k) ==> forall|j: int| i <= j < k ==> !matches_at(h, n, j),
    decreases h.len() + 1 - i,
{
    if i <= h.len() && !matches_at(h, n, i as int) {
        lemma_first_at_min(h, n, i + 1);
    }
}

proof fn lemma_next_marker_facts(x: Seq<char>)
    ensures
        match next_marker(x) {
            None => no_marker(x),
            Some((pos, op)) => (op ==> matches_at(x, open_marker(), pos as int)) && (!op ==> matches_at(
                x,
                close_marker(),
                pos as int,
            )) && forall|j: int|
                j < pos ==> !matches_at(x, open_marker(), j) && !matches_at(x, close_marker(), j),
        },
{
    reveal(next_marker);
    lemma_first_at_found(x, open_marker(), 0);
    lemma_first_at_found(x, close_marker(), 0);
    lemma_first_at_min(x, open_marker(), 0);
    lemma_first_at_min(x, close_marker(), 0);
    if first_at(x, open_marker(), 0) is None {
        lemma_first_at_none(x, open_marker(), 0);
    }
    if first_at(x, close_marker(), 0) is None {
        lemma_first_at_none(x, close_marker(), 0);
    }
}

proof fn lemma_plain_prefix(h: Seq<char>, n: nat, inside: bool)
    requires
        n <= h.len(),
        forall|j: int| 0 <= j < n ==> !matches_at(h, open_marker(), j) && !matches_at(h, close_marker(), j),
    ensures
        without_thinking(h, inside) == (if inside {
            Seq::<char>::empty()
        } else {
            h.take(n as int)
        }) + without_thinking(h.skip(n as int), inside),
    decreases n,
{
    if n == 0 {
        assert(h.skip(0) =~= h);
        assert(h.take(0) =~= Seq::<char>::empty());
        assert(Seq::<char>::empty() + without_thinking(h, inside) =~= without_thinking(h, inside));
    } else {
        let t = h.drop_first();
        assert(!matches_at(h, open_marker(), 0) && !matches_at(h, close_marker(), 0));
        assert forall|j: int| 0 <= j < n - 1 implies !matches_at(t, open_marker(), j) && !matches_at(
            t,
            close_marker(),
            j,
        ) by {
            if matches_at(t, open_marker(), j) {
                assert(t.subrange(j, j + 7) =~= h.subrange(j + 1, j + 1 + 7));
                assert(matches_at(h, open_marker(), j + 1));
            }
            if matches_at(t, close_marker(), j) {
                assert(t.subrange(j, j + 8) =~= h.subrange(j + 1, j + 1 + 8));
                assert(matches_at(h, close_marker(), j + 1));
            }
        }
        lemma_plain_prefix(t, (n - 1) as nat, inside);
        assert(t.skip(n - 1) =~= h.skip(n as int));
        if !inside {
            assert(h.take(n as int) =~= seq![h[0]] + t.take(n - 1));
        }
        assert((if inside {
            Seq::<char>::empty()
        } else {
            seq![h[0]]
        }) + ((if inside {
            Seq::<char>::empty()
        } else {
            t.take(n - 1)
        }) + without_thinking(t.skip(n - 1), inside)) =~= (if inside {
            Seq::<char>::empty()
        } else {
            h.take(n as int)
        }) + without_thinking(h.skip(n as int), inside));
    }
}

/// A marker cannot start before `pos` in `x + rest` when none starts
/// before `pos` in `x` and a whole marker lies at `pos` within `x`.
proof fn lemma_no_marker_before(x: Seq<char>, rest: Seq<char>, pos: nat, lm: nat)
    requires
        forall|j: int| j < pos ==> !matches_at(x, open_marker(), j) && !matches_at(x, close_marker(), j),
        pos + lm <= x.len(),
        lm >= 7,
    ensures
        forall|j: int|
            0 <= j < pos ==> !matches_at(x + rest, open_marker(), j) && !matches_at(x + rest, close_marker(), j),
{
    let h = x + rest;
    assert forall|j: int| 0 <= j < pos implies !matches_at(h, open_marker(), j) && !matches_at(
        h,
        close_marker(),
        j,
    ) by {
        assert(j + 8 <= x.len());
        if matches_at(h, open_marker(), j) {
            assert(h.subrange(j, j + 7) =~= x.subrange(j, j + 7));
            assert(matches_at(x, open_marker(), j));
        }
        if matches_at(h, close_marker(), j) {
            assert(h.subrange(j, j + 8) =~= x.subrange(j, j + 8));
            assert(matches_at(x, close_marker(), j));
        }
    }
}

/// Without a marker in `p`, none starts before `k` in `p + rest` when no
/// position before `k` starts a possible marker in `p`.
proof fn lemma_no_marker_safe(p: Seq<char>, rest: Seq<char>, k: nat)
    requires
        no_marker(p),
        k <= p.len(),
        forall|j: int| 0 <= j < k ==> !marker_prefix(#[trigger] p.skip(j)),
    ensures
        forall|j: int|
            0 <= j < k ==> !matches_at(p + rest, open_marker(), j) && !matches_at(p + rest, close_marker(), j),
{
    let h = p + rest;
    assert forall|j: int| 0 <= j < k implies !matches_at(h, open_marker(), j) && !matches_at(
        h,
        close_marker(),
        j,
    ) by {
        assert(!marker_prefix(p.skip(j)));
        if matches_at(h, open_marker(), j) {
            if j + 7 <= p.len() {
                assert(h.subrange(j, j + 7) =~= p.subrange(j, j + 7));
                assert(matches_at(p, open_marker(), j));
            } else {
                assert(open_marker().take(p.len() - j) =~= p.skip(j)) by {
                    assert forall|i: int| 0 <= i < p.len() - j implies open_marker().take(p.len() - j)[i]
                        == p.skip(j)[i] by {
                        assert(h.subrange(j, j + 7)[i] == h[j + i]);
                    }
                }
            }
        }
        if matches_at(h, close_marker(), j) {
            if j + 8 <= p.len() {
                assert(h.subrange(j, j + 8) =~= p.subrange(j, j + 8));
                assert(matches_at(p, close_marker(), j));
            } else {
                assert(close_marker().take(p.len() - j) =~= p.skip(j)) by {
                    assert forall|i: int| 0 <= i < p.len() - j implies close_marker().take(p.len() - j)[i]
                        == p.skip(j)[i] by {
                        assert(h.subrange(j, j + 8)[i] == h[j + i]);
                    }
                }
            }
        }
    }
}

proof fn lemma_safe_len_facts(s: Seq<char>)
    ensures
        safe_len(s) <= s.len(),
        forall|j: int| 0 <= j < safe_len(s) ==> !marker_prefix(#[trigger] s.skip(j)),
{
    if exists|j: int| 0 <= j < s.len() && marker_prefix(#[trigger] s.skip(j)) {
        let w = choose|j: int| 0 <= j < s.len() && marker_prefix(#[trigger] s.skip(j));
        lemma_least_marker_prefix(s, w);
    }
}

proof fn lemma_least_marker_prefix(s: Seq<char>, w: int)
    requires
        0 <= w < s.len(),
        marker_prefix(s.skip(w)),
    ensures
        exists|j: int| 0 <= j < s.len() && marker_prefix(#[trigger] s.skip(j)) && forall|k: int|
            0 <= k < j ==> !marker_prefix(#[trigger] s.skip(k)),
    decreases w,
{
    if exists|k: int| 0 <= k < w && marker_prefix(#[trigger] s.skip(k)) {
        let k = choose|k: int| 0 <= k < w && marker_prefix(#[trigger] s.skip(k));
        lemma_least_marker_prefix(s, k);
    } else {
        assert(marker_prefix(s.skip(w)) && forall|k: int| 0 <= k < w ==> !marker_prefix(#[trigger] s.skip(k)));
    }
}

proof fn lemma_no_esc_skip(x: Seq<char>, i: int)
    requires
        !x.contains('\x1b'),
        0 <= i <= x.len(),
    ensures
        !x.skip(i).contains('\x1b'),
        !x.take(i).contains('\x1b'),
{
    assert forall|k: int| 0 <= k < x.skip(i).len() implies x.skip(i)[k] != '\x1b' by {
        assert(x.skip(i)[k] == x[i + k]);
    }
    assert forall|k: int| 0 <= k < x.take(i).len() implies x.take(i)[k] != '\x1b' by {
        assert(x.take(i)[k] == x[k]);
    }
}

/// Draining the markers of `x` shows what removing the thinking blocks of
/// `x` shows, up to what is left over, whatever text follows.
proof fn lemma_drain_visible(sec: Section, line: bool, x: Seq<char>, rest: Seq<char>)
    requires
        !x.contains('\x1b'),
    ensures
        ({
            let d = drain_spec(sec, line, false, x);
            &&& without_thinking(x + rest, hides(sec)) == visible(d.0) + without_thinking(d.3 + rest, hides(d.1))
            &&& no_marker(d.3)
            &&& !d.3.contains('\x1b')
        }),
    decreases x.len(),
{
    lemma_next_marker_facts(x);
    match next_marker(x) {
        None => {
            lemma_drain_done(sec, line, false, x);
            assert(visible(Seq::<EmitView>::empty()) == Seq::<char>::empty());
            assert(Seq::<char>::empty() + without_thinking(x + rest, hides(sec)) =~= without_thinking(
                x + rest,
                hides(sec),
            ));
        },
        Some((pos, op)) => {
            lemma_next_marker_bound(x);
            lemma_drain_unfold(sec, line, false, x, pos, op);
            lemma_step_shrinks(sec, line, false, x, pos, op);
            reveal(step_spec);
            let lm: nat = if op {
                7
            } else {
                8
            };
            let st = step_spec(sec, line, false, x, pos, op);
            let pre = x.take(pos as int);
            let (e1, s1, l1) = if pre.len() > 0 {
                emit_spec(sec, line, false, pre)
            } else {
                (Seq::<EmitView>::empty(), sec, line)
            };
            let target = if op {
                Section::Thinking
            } else {
                Section::Response
            };
            let e2 = enter_spec(s1, l1, false, target).0;
            assert(st.0 == e1 + e2);
            if pre.len() > 0 {
                assert(pre[0] == x[0]);
                lemma_emit_visible(sec, line, pre);
            } else {
                assert(visible(e1) == Seq::<char>::empty());
            }
            lemma_enter_invisible(s1, l1, target);
            lemma_visible_concat(e1, e2);
            let x2 = x.skip((pos + lm) as int);
            assert(st.3 == x2);
            assert(st.1 == target);
            lemma_no_esc_skip(x, (pos + lm) as int);
            lemma_drain_visible(st.1, st.2, x2, rest);
            let rd = drain_spec(st.1, st.2, false, x2);
            lemma_visible_concat(st.0, rd.0);
            let h = x + rest;
            lemma_no_marker_before(x, rest, pos, lm);
            lemma_plain_prefix(h, pos, hides(sec));
            assert(h.take(pos as int) =~= pre);
            let hs = h.skip(pos as int);
            assert(hs =~= x.skip(pos as int) + rest);
            assert(hs.skip(lm as int) =~= x2 + rest);
            if op {
                assert(hs.subrange(0, 7) =~= x.subrange(pos as int, (pos + 7) as int));
                assert(matches_at(hs, open_marker(), 0));
            } else {
                assert(hs.subrange(0, 8) =~= x.subrange(pos as int, (pos + 8) as int));
                assert(matches_at(hs, close_marker(), 0));
                assert(hs[1] == '/');
                assert(!matches_at(hs, open_marker(), 0)) by {
                    if matches_at(hs, open_marker(), 0) {
                        assert(hs.subrange(0, 7)[1] == 't');
                    }
                }
            }
            assert(without_thinking(hs, hides(sec)) == without_thinking(x2 + rest, hides(target)));
            assert(hides(rd.1) == hides(drain_spec(sec, line, false, x).1));
            assert(without_thinking(x + rest, hides(sec)) =~= visible(drain_spec(sec, line, false, x).0)
                + without_thinking(drain_spec(sec, line, false, x).3 + rest, hides(drain_spec(sec, line, false, x).1)));
        },
    }
}

proof fn lemma_no_marker_skip(p: Seq<char>, k: int)
    requires
        no_marker(p),
        0 <= k <= p.len(),
    ensures
        no_marker(p.skip(k)),
{
    let t = p.skip(k);
    assert forall|j: int| !matches_at(t, open_marker(), j) && !matches_at(t, close_marker(), j) by {
        if matches_at(t, open_marker(), j) {
            assert(t.subrange(j, j + 7) =~= p.subrange(j + k, j + k + 7));
            assert(matches_at(p, open_marker(), j + k));
        }
        if matches_at(t, close_marker(), j) {
            assert(t.subrange(j, j + 8) =~= p.subrange(j + k, j + k + 8));
            assert(matches_at(p, close_marker(), j + k));
        }
    }
}

/// One pushed delta shows what removing the thinking blocks shows, up to
/// what is held back, whatever text follows.
proof fn lemma_push_visible(sec: Section, line: bool, held: Seq<char>, delta: Seq<char>, rest: Seq<char>)
    requires
        !(held + delta).contains('\x1b'),
    ensures
        ({
            let r = push_spec(sec, line, false, held, delta);
            &&& without_thinking(held + delta + rest, hides(sec)) == visible(r.0) + without_thinking(r.3 + rest, hides(r.1))
            &&& no_marker(r.3)
            &&& !r.3.contains('\x1b')
        }),
{
    let x = held + delta;
    lemma_drain_visible(sec, line, x, rest);
    let d = drain_spec(sec, line, false, x);
    let p = d.3;
    let k = safe_len(p);
    lemma_safe_len_facts(p);
    if k > 0 {
        lemma_no_marker_safe(p, rest, k);
        lemma_plain_prefix(p + rest, k, hides(d.1));
        assert((p + rest).take(k as int) =~= p.take(k as int));
        assert((p + rest).skip(k as int) =~= p.skip(k as int) + rest);
        assert(p.take(k as int)[0] == p[0]);
        lemma_emit_visible(d.1, d.2, p.take(k as int));
        let e2 = emit_spec(d.1, d.2, false, p.take(k as int));
        lemma_visible_concat(d.0, e2.0);
        lemma_no_marker_skip(p, k as int);
        lemma_no_esc_skip(p, k as int);
        assert(without_thinking(x + rest, hides(sec)) =~= visible(d.0 + e2.0) + without_thinking(
            p.skip(k as int) + rest,
            hides(e2.1),
        ));
    }
}

/// Ending the stream shows what is held back, unless it is hidden.
proof fn lemma_flush_visible(sec: Section, line: bool, held: Seq<char>)
    requires
        no_marker(held),
        !held.contains('\x1b'),
    ensures
        visible(flush_spec(sec, line, false, held).0) == without_thinking(held, hides(sec)),
{
    lemma_plain_prefix(held, held.len(), hides(sec));
    assert(held.skip(held.len() as int) =~= Seq::<char>::empty());
    assert(held.take(held.len() as int) =~= held);
    let (e1, s1, l1) = if held.len() > 0 {
        emit_spec(sec, line, false, held)
    } else {
        (Seq::<EmitView>::empty(), sec, line)
    };
    if held.len() > 0 {
        lemma_emit_visible(sec, line, held);
    } else {
        assert(visible(e1) == Seq::<char>::empty());
    }
    lemma_close_invisible(s1);
    lemma_visible_concat(e1, close_spec(s1, false));
    assert(visible(e1 + close_spec(s1, false)) =~= without_thinking(held, hides(sec)));
}

/// The deltas `ds` one after another.
pub open spec fn concat_all(ds: Seq<Seq<char>>) -> Seq<char>
    decreases ds.len(),
{
    if ds.len() == 0 {
        Seq::empty()
    } else {
        concat_all(ds.drop_last()) + ds.last()
    }
}

/// Pushing the deltas `ds` in turn with thinking hidden, from state
/// `(sec, line)` with `held` held back: all the writes, and the final
/// state and held-back text.
pub open spec fn push_all(sec: Section, line: bool, held: Seq<char>, ds: Seq<Seq<char>>) -> (Seq<EmitView>, Section, bool, Seq<char>)
    decreases ds.len(),
{
    if ds.len() == 0 {
        (Seq::empty(), sec, line, held)
    } else {
        let r = push_all(sec, line, held, ds.drop_last());
        let r2 = push_spec(r.1, r.2, false, r.3, ds.last());
        (r.0 + r2.0, r2.1, r2.2, r2.3)
    }
}

proof fn lemma_push_all(ds: Seq<Seq<char>>, rest: Seq<char>)
    requires
        !concat_all(ds).contains('\x1b'),
    ensures
        ({
            let r = push_all(Section::Idle, false, Seq::empty(), ds);
            &&& without_thinking(concat_all(ds) + rest, false) == visible(r.0) + without_thinking(r.3 + rest, hides(r.1))
            &&& no_marker(r.3)
            &&& !r.3.contains('\x1b')
        }),
    decreases ds.len(),
{
    if ds.len() == 0 {
        assert(concat_all(ds) + rest =~= rest);
        assert(Seq::<char>::empty() + rest =~= rest);
        assert(visible(Seq::<EmitView>::empty()) == Seq::<char>::empty());
        assert(Seq::<char>::empty() + without_thinking(rest, false) =~= without_thinking(rest, false));
    } else {
        let pre = ds.drop_last();
        let d = ds.last();
        let c = concat_all(ds);
        assert(c == concat_all(pre) + d);
        assert(!concat_all(pre).contains('\x1b')) by {
            assert forall|i: int| 0 <= i < concat_all(pre).len() implies concat_all(pre)[i] != '\x1b' by {
                assert(c[i] == concat_all(pre)[i]);
            }
        }
        lemma_push_all(pre, d + rest);
        let r0 = push_all(Section::Idle, false, Seq::empty(), pre);
        assert(!(r0.3 + d).contains('\x1b')) by {
            assert forall|i: int| 0 <= i < (r0.3 + d).len() implies (r0.3 + d)[i] != '\x1b' by {
                if i >= r0.3.len() {
                    assert(c[concat_all(pre).len() + i - r0.3.len()] == d[i - r0.3.len()]);
                }
            }
        }
        lemma_push_visible(r0.1, r0.2, r0.3, d, rest);
        let r1 = push_spec(r0.1, r0.2, false, r0.3, d);
        lemma_visible_concat(r0.0, r1.0);
        assert(concat_all(pre) + (d + rest) =~= c + rest);
        assert(r0.3 + (d + rest) =~= r0.3 + d + rest);
    }
}

/// With thinking hidden, a reader sees the streamed text with its thinking
/// blocks removed, however the text was split into deltas: pushing the
/// deltas `ds` into a fresh renderer and ending the stream writes, on
/// standard output and apart from style codes, exactly
/// `without_thinking` of their concatenation (for text without ESC
/// characters, which would be taken for style codes).
pub proof fn lemma_hidden_thinking_any_split(ds: Seq<Seq<char>>)
    requires
        !concat_all(ds).contains('\x1b'),
    ensures
        ({
            let r = push_all(Section::Idle, false, Seq::empty(), ds);
            visible(r.0 + flush_spec(r.1, r.2, false, r.3).0) == without_thinking(concat_all(ds), false)
        }),
{
    lemma_push_all(ds, Seq::empty());
    let r = push_all(Section::Idle, false, Seq::empty(), ds);
    assert(concat_all(ds) + Seq::<char>::empty() =~= concat_all(ds));
    assert(r.3 + Seq::<char>::empty() =~= r.3);
    lemma_flush_visible(r.1, r.2, r.3);
    lemma_visible_concat(r.0, flush_spec(r.1, r.2, false, r.3).0);
}

} // verus!
