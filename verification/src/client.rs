//! Results of one streamed chat request, and the text helpers of the live
//! throughput bar and the server-sent-events reader.

use vstd::prelude::*;
use std::time::Duration;
use crate::schema::{ToolCall, FunctionCall, Usage, StreamChunk, StreamChoice, ToolCallDelta};
use crate::text::{chars_of, string_of, extend_str, extend_chars, trim, trim_chars, lines_of, lines_of_str, views, decimal, push_decimal};

verus! {

/// A structured error the server reported in a `finish_reason="error"`
/// chunk.
#[derive(Debug, Clone)]
pub struct StreamError {
    pub message: Option<String>,
    /// The exception's kind, as the server names it.
    pub kind: Option<String>,
    pub status_code: Option<u16>,
}

/// Everything one streamed request produced.
#[derive(Debug, Default)]
pub struct StreamResult {
    pub content: String,
    pub tool_calls: Vec<ToolCall>,
    pub finish_reason: Option<String>,
    pub usage: Option<Usage>,
    pub ttft: Option<Duration>,
    pub total: Duration,
    /// Set when the server ended the stream with a structured error.
    pub error: Option<StreamError>,
}

/// Where the scan of an ANSI-colored text stands.
pub enum AnsiState {
    /// Ordinary text.
    Text,
    /// Just after an escape character.
    Escape,
    /// Inside a control sequence, up to its final letter.
    Csi,
}

/// An ASCII letter.
pub open spec fn ascii_alpha(c: char) -> bool {
    ('a' <= c && c <= 'z') || ('A' <= c && c <= 'Z')
}

/// Visible characters of `s` scanned from state `st`: an escape followed by
/// `[` starts a control sequence that runs through its first ASCII letter
/// and is not counted; a lone escape is dropped; every other character
/// counts one.
pub open spec fn visible_from(s: Seq<char>, st: AnsiState) -> nat
    decreases s.len(), if st is Escape {
        1int
    } else {
        0int
    },
{
    match st {
        AnsiState::Text => if s.len() == 0 {
            0
        } else if s[0] == '\x1b' {
            visible_from(s.drop_first(), AnsiState::Escape)
        } else {
            1 + visible_from(s.drop_first(), AnsiState::Text)
        },
        AnsiState::Escape => if s.len() == 0 {
            0
        } else if s[0] == '[' {
            visible_from(s.drop_first(), AnsiState::Csi)
        } else {
            visible_from(s, AnsiState::Text)
        },
        AnsiState::Csi => if s.len() == 0 {
            0
        } else if ascii_alpha(s[0]) {
            visible_from(s.drop_first(), AnsiState::Text)
        } else {
            visible_from(s.drop_first(), AnsiState::Csi)
        },
    }
}

/// Visible length of a text that may hold ANSI color sequences.
pub open spec fn visible_len(s: Seq<char>) -> nat {
    visible_from(s, AnsiState::Text)
}

proof fn lemma_visible_le(s: Seq<char>, st: AnsiState)
    ensures
        visible_from(s, st) <= s.len(),
    decreases s.len(), if st is Escape {
        1int
    } else {
        0int
    },
{
    if s.len() > 0 {
        match st {
            AnsiState::Text => if s[0] == '\x1b' {
                lemma_visible_le(s.drop_first(), AnsiState::Escape);
            } else {
                lemma_visible_le(s.drop_first(), AnsiState::Text);
            },
            AnsiState::Escape => if s[0] == '[' {
                lemma_visible_le(s.drop_first(), AnsiState::Csi);
            } else {
                lemma_visible_le(s, AnsiState::Text);
            },
            AnsiState::Csi => if ascii_alpha(s[0]) {
                lemma_visible_le(s.drop_first(), AnsiState::Text);
            } else {
                lemma_visible_le(s.drop_first(), AnsiState::Csi);
            },
        }
    }
}

/// Number of characters of `s` that show on screen, ANSI color sequences
/// left out.
pub fn strip_ansi_len(s: &str) -> (r: usize)
    ensures
        r == visible_len(s@),
{
    let c = chars_of(s);
    let mut count: usize = 0;
    let mut st = AnsiState::Text;
    let mut i: usize = 0;
    assert(c@.skip(0) =~= c@);
    while i < c.len()
        invariant
            i <= c@.len(),
            c@ == s@,
            count + visible_from(c@.skip(i as int), st) == visible_len(s@),
            count <= i,
        decreases c@.len() - i,
    {
        let ch = c[i];
        assert(c@.skip(i as int).drop_first() =~= c@.skip(i + 1));
        assert(c@.skip(i as int)[0] == ch);
        proof {
            lemma_visible_le(c@.skip(i + 1), AnsiState::Text);
            reveal_with_fuel(visible_from, 2);
        }
        match st {
            AnsiState::Text => {
                if ch == '\x1b' {
                    st = AnsiState::Escape;
                } else {
                    count += 1;
                }
            },
            AnsiState::Escape => {
                if ch == '[' {
                    st = AnsiState::Csi;
                } else if ch == '\x1b' {
                    st = AnsiState::Escape;
                } else {
                    st = AnsiState::Text;
                    count += 1;
                }
            },
            AnsiState::Csi => {
                if ('a' <= ch && ch <= 'z') || ('A' <= ch && ch <= 'Z') {
                    st = AnsiState::Text;
                }
            },
        }
        i += 1;
    }
    assert(c@.skip(i as int) =~= Seq::<char>::empty());
    count
}

/// Position of the first blank line separator `\n\n` in `buf`.
pub open spec fn double_newline_at(buf: Seq<u8>, i: int) -> bool {
    0 <= i && i + 1 < buf.len() && buf[i] == 10u8 && buf[i + 1] == 10u8
}

/// Offset of the first `\n\n` in `buf`, which ends a server-sent event.
pub fn find_double_newline(buf: &[u8]) -> (r: Option<usize>)
    ensures
        match r {
            Some(i) => double_newline_at(buf@, i as int) && forall|j: int|
                0 <= j < i ==> !double_newline_at(buf@, j),
            None => forall|j: int| 0 <= j < buf@.len() ==> !double_newline_at(buf@, j),
        },
{
    let mut i: usize = 0;
    while i < buf.len()
        invariant
            forall|j: int| 0 <= j < i ==> !double_newline_at(buf@, j),
        decreases buf@.len() - i,
    {
        if i + 1 < buf.len() && buf[i] == 10u8 && buf[i + 1] == 10u8 {
            return Some(i);
        }
        i += 1;
    }
    None
}

/// `s` without its trailing `\r`s (`trim_end_matches('\r')`).
pub open spec fn strip_crs(s: Seq<char>) -> Seq<char>
    decreases s.len(),
{
    if s.len() > 0 && s.last() == '\r' {
        strip_crs(s.drop_last())
    } else {
        s
    }
}

/// What one line of a server-sent event carries.
#[derive(Debug, Clone, PartialEq, Eq)]
pub enum SseLine {
    /// Not a data line, or an empty one.
    Skip,
    /// The `[DONE]` end marker.
    Done,
    /// The (trimmed) JSON payload of a data line.
    Payload(String),
}

/// The meaning of an event line: after dropping trailing `\r`s, a line
/// starting with `data:` carries the trimmed rest; an empty payload is
/// skipped and `[DONE]` ends the stream.
pub open spec fn sse_line_spec(line: Seq<char>) -> Option<Option<Seq<char>>> {
    let l = strip_crs(line);
    if l.len() >= 5 && l.take(5) == "data:"@ {
        let p = trim(l.skip(5));
        if p.len() == 0 {
            None
        } else if p == "[DONE]"@ {
            Some(None)
        } else {
            Some(Some(p))
        }
    } else {
        None
    }
}

/// Classifies one line of a server-sent event.
pub fn classify_sse_line(line: &[char]) -> (r: SseLine)
    ensures
        match sse_line_spec(line@) {
            None => r == SseLine::Skip,
            Some(None) => r == SseLine::Done,
            Some(Some(p)) => r matches SseLine::Payload(q) && q@ == p,
        },
{
    let mut end: usize = line.len();
    assert(line@.take(line@.len() as int) =~= line@);
    while end > 0 && line[end - 1] == '\r'
        invariant
            end <= line@.len(),
            strip_crs(line@) == strip_crs(line@.take(end as int)),
        decreases end,
    {
        assert(line@.take(end as int).drop_last() =~= line@.take(end - 1));
        end -= 1;
    }
    let ghost l = line@.take(end as int);
    assert(strip_crs(line@) == l);
    if end < 5 || !(line[0] == 'd' && line[1] == 'a' && line[2] == 't' && line[3] == 'a' && line[4] == ':') {
        proof {
            reveal_strlit("data:");
            if l.len() >= 5 && l.take(5) == "data:"@ {
                assert(l.take(5)[0] == 'd' && l.take(5)[1] == 'a' && l.take(5)[2] == 't' && l.take(5)[3]
                    == 'a' && l.take(5)[4] == ':');
                assert(line@[0] == l.take(5)[0] && line@[1] == l.take(5)[1] && line@[2] == l.take(5)[2]
                    && line@[3] == l.take(5)[3] && line@[4] == l.take(5)[4]);
                assert(false);
            }
        }
        return SseLine::Skip;
    }
    proof {
        reveal_strlit("data:");
        assert(l.take(5) =~= "data:"@);
    }
    let mut rest: Vec<char> = Vec::new();
    let mut i: usize = 5;
    while i < end
        invariant
            5 <= i <= end,
            end <= line@.len(),
            rest@ == line@.subrange(5, i as int),
        decreases end - i,
    {
        rest.push(line[i]);
        i += 1;
    }
    assert(rest@ =~= l.skip(5));
    let p = trim_chars(&rest);
    if p.len() == 0 {
        SseLine::Skip
    } else if crate::text::chars_eq_str(&p, "[DONE]") {
        SseLine::Done
    } else {
        SseLine::Payload(string_of(&p))
    }
}

/// The payloads of the lines of one event, up to a `[DONE]` marker, and
/// whether the marker came.
pub open spec fn event_payloads_spec(lines: Seq<Seq<char>>) -> (Seq<Seq<char>>, bool)
    decreases lines.len(),
{
    if lines.len() == 0 {
        (Seq::empty(), false)
    } else {
        let rest = event_payloads_spec(lines.drop_first());
        match sse_line_spec(lines[0]) {
            None => rest,
            Some(None) => (Seq::empty(), true),
            Some(Some(p)) => (seq![p] + rest.0, rest.1),
        }
    }
}

/// Splits one event (the text up to a blank line) into its data payloads,
/// stopping at `[DONE]`; the flag says whether `[DONE]` came.
pub fn event_payloads(event_text: &str) -> (r: (Vec<String>, bool))
    ensures
        (r.0@.map_values(|s: String| s@), r.1) == event_payloads_spec(lines_of(event_text@)),
{
    let lines = lines_of_str(event_text);
    let ghost ls = views(lines@);
    let mut out: Vec<String> = Vec::new();
    let mut i: usize = 0;
    assert(ls.skip(0) =~= ls);
    while i < lines.len()
        invariant
            i <= lines@.len(),
            ls == views(lines@),
            ls == lines_of(event_text@),
            event_payloads_spec(ls) == (out@.map_values(|s: String| s@) + event_payloads_spec(ls.skip(i as int)).0, event_payloads_spec(ls.skip(i as int)).1),
        decreases lines@.len() - i,
    {
        assert(ls.skip(i as int).drop_first() =~= ls.skip(i + 1));
        assert(ls.skip(i as int)[0] == lines@[i as int]@);
        match classify_sse_line(lines[i].as_slice()) {
            SseLine::Skip => {},
            SseLine::Done => {
                return (out, true);
            },
            SseLine::Payload(p) => {
                let ghost prev = out@.map_values(|s: String| s@);
                let ghost pv = p@;
                out.push(p);
                assert(out@.map_values(|s: String| s@) =~= prev.push(pv));
                assert(prev + (seq![pv] + event_payloads_spec(ls.skip(i + 1)).0) =~= prev.push(pv) + event_payloads_spec(ls.skip(i + 1)).0);
            },
        }
        i += 1;
    }
    assert(ls.skip(i as int) =~= Seq::<Seq<char>>::empty());
    assert(out@.map_values(|s: String| s@) + Seq::<Seq<char>>::empty() =~= out@.map_values(|s: String| s@));
    (out, false)
}

/// A partly streamed tool call: id, function name and argument text so far.
pub type PartialCall = (String, String, String);

/// Views of partial tool calls.
pub open spec fn partial_views(acc: Seq<PartialCall>) -> Seq<(Seq<char>, Seq<char>, Seq<char>)> {
    acc.map_values(|c: PartialCall| (c.0@, c.1@, c.2@))
}

/// The partial calls after one tool-call delta for position `index`: the
/// list grows with empty calls to reach it, a non-empty id or name
/// replaces the stored one, and argument text is appended.
pub open spec fn after_delta(
    acc: Seq<(Seq<char>, Seq<char>, Seq<char>)>,
    index: nat,
    id: Option<Seq<char>>,
    name: Option<Seq<char>>,
    args: Option<Seq<char>>,
) -> Seq<(Seq<char>, Seq<char>, Seq<char>)> {
    let grown = if acc.len() > index {
        acc
    } else {
        acc + Seq::new((index + 1 - acc.len()) as nat, |k: int| (Seq::<char>::empty(), Seq::<char>::empty(), Seq::<char>::empty()))
    };
    let old = grown[index as int];
    let new_id = match id {
        Some(x) => if x.len() > 0 {
            x
        } else {
            old.0
        },
        None => old.0,
    };
    let new_name = match name {
        Some(x) => if x.len() > 0 {
            x
        } else {
            old.1
        },
        None => old.1,
    };
    let new_args = match args {
        Some(x) => old.2 + x,
        None => old.2,
    };
    grown.update(index as int, (new_id, new_name, new_args))
}

/// Views of an optional string.
pub open spec fn ostr(o: Option<String>) -> Option<Seq<char>> {
    match o {
        Some(s) => Some(s@),
        None => None,
    }
}

/// Folds one streamed tool-call delta into the partial calls.
pub fn apply_tool_call_delta(
    acc: &mut Vec<PartialCall>,
    index: u32,
    id: Option<String>,
    name: Option<String>,
    args: Option<String>,
)
    ensures
        partial_views(final(acc)@) == after_delta(partial_views(old(acc)@), index as nat, ostr(id), ostr(name), ostr(args)),
{
    let idx = index as usize;
    let ghost a0 = partial_views(acc@);
    let ghost grown = if a0.len() > idx {
        a0
    } else {
        a0 + Seq::new((idx + 1 - a0.len()) as nat, |k: int| (Seq::<char>::empty(), Seq::<char>::empty(), Seq::<char>::empty()))
    };
    while acc.len() <= idx
        invariant
            a0.len() <= acc@.len(),
            acc@.len() <= idx + 1 || acc@.len() == a0.len(),
            forall|k: int| 0 <= k < acc@.len() ==> #[trigger] partial_views(acc@)[k] == grown[k],
            grown.len() == if a0.len() > idx { a0.len() as int } else { idx + 1 },
            forall|k: int| 0 <= k < a0.len() ==> grown[k] == a0[k],
            forall|k: int| a0.len() <= k < grown.len() ==> #[trigger] grown[k] == (Seq::<char>::empty(), Seq::<char>::empty(), Seq::<char>::empty()),
        decreases idx + 1 - acc@.len(),
    {
        let ghost before = acc@;
        acc.push((String::new(), String::new(), String::new()));
        assert(partial_views(acc@)[before.len() as int] == (Seq::<char>::empty(), Seq::<char>::empty(), Seq::<char>::empty()));
        assert forall|k: int| 0 <= k < acc@.len() implies #[trigger] partial_views(acc@)[k] == grown[k] by {
            if k < before.len() {
                assert(partial_views(acc@)[k] == partial_views(before)[k]);
            }
        }
    }
    assert(partial_views(acc@) =~= grown);
    let ghost before = acc@;
    let (mut sid, mut sname, mut sargs) = acc.remove(idx);
    match id {
        Some(x) => {
            if !x.as_str().is_empty() {
                sid = x;
            }
        },
        None => {},
    }
    match name {
        Some(x) => {
            if !x.as_str().is_empty() {
                sname = x;
            }
        },
        None => {},
    }
    match args {
        Some(x) => {
            let mut v = chars_of(sargs.as_str());
            extend_str(&mut v, x.as_str());
            sargs = string_of(&v);
        },
        None => {},
    }
    let ghost triple = (sid@, sname@, sargs@);
    acc.insert(idx, (sid, sname, sargs));
    assert(acc@ =~= before.update(idx as int, acc@[idx as int]));
    assert(partial_views(acc@) =~= grown.update(idx as int, triple));
    assert(partial_views(acc@) =~= after_delta(a0, index as nat, ostr(id), ostr(name), ostr(args)));
}

/// A finished tool call as the contracts see it: id, type, name, arguments.
pub open spec fn call_view(c: ToolCall) -> (Seq<char>, Seq<char>, Seq<char>, Seq<char>) {
    (c.id@, c.kind@, c.function.name@, c.function.arguments@)
}

/// The tool calls made from the partial calls from position `i` on: those
/// that got a name, in order, with "call_<position>" for a missing id.
pub open spec fn finished_from(acc: Seq<(Seq<char>, Seq<char>, Seq<char>)>, i: nat) -> Seq<(Seq<char>, Seq<char>, Seq<char>, Seq<char>)>
    decreases acc.len() - i,
{
    if i >= acc.len() {
        Seq::empty()
    } else {
        let c = acc[i as int];
        (if c.1.len() > 0 {
            seq![(if c.0.len() > 0 {
                c.0
            } else {
                "call_"@ + decimal(i)
            }, "function"@, c.1, c.2)]
        } else {
            Seq::empty()
        }) + finished_from(acc, i + 1)
    }
}

/// Turns the partial calls of a finished stream into tool calls: calls
/// that never got a name are dropped, and a missing id becomes
/// "call_<position>".
pub fn finish_tool_calls(acc: &Vec<PartialCall>) -> (r: Vec<ToolCall>)
    ensures
        r@.map_values(|c: ToolCall| call_view(c)) == finished_from(partial_views(acc@), 0),
{
    let ghost pv = partial_views(acc@);
    let mut out: Vec<ToolCall> = Vec::new();
    let mut i: usize = 0;
    while i < acc.len()
        invariant
            i <= acc@.len(),
            pv == partial_views(acc@),
            out@.map_values(|c: ToolCall| call_view(c)) + finished_from(pv, i as nat) == finished_from(pv, 0),
        decreases acc@.len() - i,
    {
        let ghost prev = out@.map_values(|c: ToolCall| call_view(c));
        let name = &acc[i].1;
        if !name.as_str().is_empty() {
            let id = if acc[i].0.as_str().is_empty() {
                let mut v = chars_of("call_");
                push_decimal(&mut v, i as u64);
                string_of(&v)
            } else {
                acc[i].0.clone()
            };
            let call = ToolCall {
                id,
                kind: "function".to_owned(),
                function: FunctionCall { name: name.clone(), arguments: acc[i].2.clone() },
            };
            let ghost cv = call_view(call);
            out.push(call);
            assert(out@.map_values(|c: ToolCall| call_view(c)) =~= prev.push(cv));
            assert(prev.push(cv) + finished_from(pv, (i + 1) as nat) =~= prev + (seq![cv] + finished_from(pv, (i + 1) as nat)));
        } else {
            assert(Seq::<(Seq<char>, Seq<char>, Seq<char>, Seq<char>)>::empty() + finished_from(pv, (i + 1) as nat) =~= finished_from(pv, (i + 1) as nat));
        }
        i += 1;
    }
    assert(out@.map_values(|c: ToolCall| call_view(c)) + Seq::empty() =~= out@.map_values(|c: ToolCall| call_view(c)));
    out
}

/// What a stream has gathered so far: the text, the last finish reason
/// and usage report, the partial tool calls, and whether a first token
/// (text or tool call) arrived.
#[derive(Debug, Default)]
pub struct StreamState {
    pub content: String,
    pub finish_reason: Option<String>,
    pub usage: Option<Usage>,
    pub calls: Vec<PartialCall>,
    pub started: bool,
}

/// What a chunk asks of the caller, in order.
#[derive(Debug, Clone, PartialEq, Eq)]
pub enum ChunkEvent {
    /// The first token arrived: take the time to first token now.
    FirstToken,
    /// Text to show.
    Text(String),
    /// Tool-call text arrived: show progress.
    ToolTick,
}

/// A chunk event as the contracts see it.
pub enum EventView {
    FirstToken,
    Text(Seq<char>),
    ToolTick,
}

/// Views of chunk events.
pub open spec fn events_view(v: Seq<ChunkEvent>) -> Seq<EventView> {
    v.map_values(|e: ChunkEvent| match e {
        ChunkEvent::FirstToken => EventView::FirstToken,
        ChunkEvent::Text(t) => EventView::Text(t@),
        ChunkEvent::ToolTick => EventView::ToolTick,
    })
}

/// The stream state as the contracts see it: text, finish reason, partial
/// calls, whether the first token came.
pub type StateView = (Seq<char>, Option<Seq<char>>, Seq<(Seq<char>, Seq<char>, Seq<char>)>, bool);

/// The view of a stream state (its usage report is stated apart).
pub open spec fn state_view(st: StreamState) -> StateView {
    (st.content@, ostr(st.finish_reason), partial_views(st.calls@), st.started)
}

/// The name a tool-call delta carries, if any.
pub open spec fn delta_name(d: ToolCallDelta) -> Option<Seq<char>> {
    match d.function {
        Some(f) => ostr(f.name),
        None => None,
    }
}

/// The argument text a tool-call delta carries, if any.
pub open spec fn delta_args(d: ToolCallDelta) -> Option<Seq<char>> {
    match d.function {
        Some(f) => ostr(f.arguments),
        None => None,
    }
}

/// A delta that carries some name or argument text.
pub open spec fn delta_has_text(d: ToolCallDelta) -> bool {
    (delta_args(d) matches Some(a) && a.len() > 0) || (delta_name(d) matches Some(n) && n.len() > 0)
}

/// The partial calls after the deltas `j..` of `ds`.
pub open spec fn deltas_fold(calls: Seq<(Seq<char>, Seq<char>, Seq<char>)>, ds: Seq<ToolCallDelta>, j: nat) -> Seq<(Seq<char>, Seq<char>, Seq<char>)>
    decreases ds.len() - j,
{
    if j >= ds.len() {
        calls
    } else {
        let d = ds[j as int];
        deltas_fold(after_delta(calls, d.index as nat, ostr(d.id), delta_name(d), delta_args(d)), ds, j + 1)
    }
}

/// One choice of a chunk taken in: its finish reason is kept, its
/// non-empty text is shown and appended, its tool-call deltas are folded
/// in; the first text or tool call marks the first token.
pub open spec fn absorb_choice(st: StateView, c: StreamChoice) -> (StateView, Seq<EventView>) {
    let (content, finish, calls, started) = st;
    let finish1 = match c.finish_reason {
        Some(r) => Some(r@),
        None => finish,
    };
    let (content2, started2, ev1) = match c.delta.content {
        Some(t) => if t@.len() > 0 {
            (content + t@, true, (if started {
                Seq::empty()
            } else {
                seq![EventView::FirstToken]
            }) + seq![EventView::Text(t@)])
        } else {
            (content, started, Seq::empty())
        },
        None => (content, started, Seq::empty()),
    };
    match c.delta.tool_calls {
        Some(ds) => {
            let ev2 = (if started2 {
                Seq::empty()
            } else {
                seq![EventView::FirstToken]
            }) + (if exists|j: int| 0 <= j < ds@.len() && delta_has_text(#[trigger] ds@[j]) {
                seq![EventView::ToolTick]
            } else {
                Seq::empty()
            });
            ((content2, finish1, deltas_fold(calls, ds@, 0), true), ev1 + ev2)
        },
        None => ((content2, finish1, calls, started2), ev1),
    }
}

/// The choices `i..` of a chunk taken in, in order.
pub open spec fn absorb_choices(st: StateView, cs: Seq<StreamChoice>, i: nat) -> (StateView, Seq<EventView>)
    decreases cs.len() - i,
{
    if i >= cs.len() {
        (st, Seq::empty())
    } else {
        let (st1, e1) = absorb_choice(st, cs[i as int]);
        let (st2, e2) = absorb_choices(st1, cs, i + 1);
        (st2, e1 + e2)
    }
}

fn opt_clone(o: &Option<String>) -> (r: Option<String>)
    ensures
        ostr(r) == ostr(*o),
{
    match o {
        Some(x) => Some(x.clone()),
        None => None,
    }
}

fn fold_deltas(calls: &mut Vec<PartialCall>, ds: &Vec<ToolCallDelta>) -> (any_text: bool)
    ensures
        partial_views(final(calls)@) == deltas_fold(partial_views(old(calls)@), ds@, 0),
        any_text == exists|j: int| 0 <= j < ds@.len() && delta_has_text(#[trigger] ds@[j]),
{
    let ghost start = partial_views(calls@);
    let mut any = false;
    let mut j: usize = 0;
    while j < ds.len()
        invariant
            j <= ds@.len(),
            deltas_fold(partial_views(calls@), ds@, j as nat) == deltas_fold(start, ds@, 0),
            any == exists|k: int| 0 <= k < j && delta_has_text(#[trigger] ds@[k]),
        decreases ds@.len() - j,
    {
        let d = &ds[j];
        let (name, args) = match &d.function {
            Some(f) => (opt_clone(&f.name), opt_clone(&f.arguments)),
            None => (None, None),
        };
        assert(ostr(name) == delta_name(*d));
        assert(ostr(args) == delta_args(*d));
        let has = (match &args {
            Some(a) => !a.as_str().is_empty(),
            None => false,
        }) || (match &name {
            Some(n) => !n.as_str().is_empty(),
            None => false,
        });
        assert(has == delta_has_text(ds@[j as int]));
        if has {
            any = true;
        }
        apply_tool_call_delta(calls, d.index, opt_clone(&d.id), name, args);
        assert(any == exists|k: int| 0 <= k < j + 1 && delta_has_text(#[trigger] ds@[k])) by {
            if has {
                assert(delta_has_text(ds@[j as int]));
            }
            if exists|k: int| 0 <= k < j + 1 && delta_has_text(#[trigger] ds@[k]) {
                let k = choose|k: int| 0 <= k < j + 1 && delta_has_text(#[trigger] ds@[k]);
                if k < j {
                    assert(exists|k2: int| 0 <= k2 < j && delta_has_text(#[trigger] ds@[k2]));
                }
            }
        }
        j += 1;
    }
    any
}

fn absorb_one(st: &mut StreamState, c: &StreamChoice, out: &mut Vec<ChunkEvent>)
    ensures
        ({
            let (s1, e) = absorb_choice(state_view(*old(st)), *c);
            &&& state_view(*final(st)) == s1
            &&& events_view(final(out)@) == events_view(old(out)@) + e
        }),
        final(st).usage == old(st).usage,
{
    let ghost e0 = events_view(out@);
    let ghost sv0 = state_view(*st);
    match &c.finish_reason {
        Some(r) => {
            st.finish_reason = Some(r.clone());
        },
        None => {},
    }
    match &c.delta.content {
        Some(t) => {
            if !t.as_str().is_empty() {
                if !st.started {
                    out.push(ChunkEvent::FirstToken);
                }
                out.push(ChunkEvent::Text(t.clone()));
                let mut v = chars_of(st.content.as_str());
                extend_str(&mut v, t.as_str());
                st.content = string_of(&v);
                st.started = true;
            }
        },
        None => {},
    }
    let ghost mid = events_view(out@);
    let ghost started_mid = st.started;
    match &c.delta.tool_calls {
        Some(ds) => {
            if !st.started {
                out.push(ChunkEvent::FirstToken);
            }
            st.started = true;
            let any = fold_deltas(&mut st.calls, ds);
            if any {
                out.push(ChunkEvent::ToolTick);
            }
        },
        None => {},
    }
    let ghost (s1, e) = absorb_choice(sv0, *c);
    assert(events_view(out@) =~= e0 + e);
    assert(state_view(*st) == s1);
}

/// Takes in one parsed chunk of the stream: its usage report replaces the
/// previous one, its choices are taken in in order. Returns what the
/// caller should do, in order.
pub fn absorb_chunk(st: &mut StreamState, chunk: StreamChunk) -> (r: Vec<ChunkEvent>)
    ensures
        ({
            let (s1, e) = absorb_choices(state_view(*old(st)), chunk.choices@, 0);
            &&& state_view(*final(st)) == s1
            &&& events_view(r@) == e
        }),
        final(st).usage == if chunk.usage is Some {
            chunk.usage
        } else {
            old(st).usage
        },
{
    let ghost sv0 = state_view(*st);
    let ghost cs = chunk.choices@;
    let StreamChunk { choices, usage } = chunk;
    match usage {
        Some(u) => {
            st.usage = Some(u);
        },
        None => {},
    }
    let ghost u1 = st.usage;
    let mut out: Vec<ChunkEvent> = Vec::new();
    let mut i: usize = 0;
    assert(events_view(out@) =~= Seq::<EventView>::empty());
    while i < choices.len()
        invariant
            i <= choices@.len(),
            cs == choices@,
            st.usage == u1,
            ({
                let (sa, ea) = absorb_choices(state_view(*st), cs, i as nat);
                let (sb, eb) = absorb_choices(sv0, cs, 0);
                sa == sb && events_view(out@) + ea == eb
            }),
        decreases choices@.len() - i,
    {
        let ghost svi = state_view(*st);
        let ghost ei = events_view(out@);
        absorb_one(st, &choices[i], &mut out);
        proof {
            let (s1, e1) = absorb_choice(svi, cs[i as int]);
            let (s2, e2) = absorb_choices(s1, cs, (i + 1) as nat);
            assert(absorb_choices(svi, cs, i as nat) == (s2, e1 + e2));
            assert(ei + (e1 + e2) =~= (ei + e1) + e2);
        }
        i += 1;
    }
    proof {
        let (sa, ea) = absorb_choices(state_view(*st), cs, i as nat);
        assert(ea =~= Seq::<EventView>::empty());
        assert(events_view(out@) + ea =~= events_view(out@));
    }
    out
}

} // verus!
