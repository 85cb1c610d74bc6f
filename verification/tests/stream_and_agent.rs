use hip::agent::{count_round, decide_round, finish_note, record_round, LoopStats, RoundOutcome};
use hip::client::{
    absorb_chunk, apply_tool_call_delta, classify_sse_line, event_payloads, find_double_newline, finish_tool_calls,
    strip_ansi_len, ChunkEvent, SseLine, StreamError, StreamState,
};
use hip::panels::{args_panel, result_panel, ArgValue};
use hip::pretty::{Emit, PrettyOut};
use hip::schema::{
    ChatMessage, Delta, FunctionCall, FunctionCallDelta, StreamChoice, StreamChunk, ToolCall, ToolCallDelta, Usage,
};
use hip::typeahead::PendingQueue;
use std::time::Duration;

fn chars(s: &str) -> Vec<char> {
    s.chars().collect()
}

fn render(v: &[Emit]) -> Vec<(bool, String)> {
    v.iter()
        .map(|e| match e {
            Emit::Stdout(s) => (true, s.clone()),
            Emit::Stderr(s) => (false, s.clone()),
        })
        .collect()
}

const THINK_HEADER: &str = "\n\x1b[2m╭─ 🤔 thinking\x1b[2m ─────────────────────\x1b[0m\n";
const RESPONSE_HEADER: &str = "\n\x1b[2m╭─ 💬 response\x1b[2m ─────────────────────\x1b[0m\n";
const FOOTER: &str = "\n\x1b[2m╰─────────────────────────────────────\x1b[0m\n";

#[test]
fn pretty_splits_thinking_and_response_sections() {
    let mut p = PrettyOut::new(true, true);
    let out = render(&p.push_content("<think>hmm</think>hello"));
    let expected: Vec<(bool, String)> = vec![
        (false, THINK_HEADER.to_string()),
        (true, "\x1b[2;3m".to_string()),
        (true, "hmm".to_string()),
        (true, "\x1b[0m".to_string()),
        (false, FOOTER.to_string()),
        (false, RESPONSE_HEADER.to_string()),
        (true, "\x1b[0m".to_string()),
        (true, "hello".to_string()),
    ];
    assert_eq!(out, expected);
    let end = render(&p.flush_end());
    assert_eq!(end, vec![(true, "\x1b[0m".to_string()), (false, FOOTER.to_string())]);
}

#[test]
fn pretty_holds_back_a_split_marker() {
    let mut p = PrettyOut::new(true, false);
    let first = render(&p.push_content("abc<thi"));
    assert!(first.iter().all(|(_, s)| !s.contains("<thi")), "{:?}", first);
    assert!(first.iter().any(|(o, s)| *o && s == "abc"), "{:?}", first);
    let second = render(&p.push_content("nk>secret</think>x"));
    assert!(second.iter().all(|(_, s)| !s.contains("secret")), "hidden thinking leaked: {:?}", second);
    assert!(second.iter().any(|(o, s)| *o && s == "x"), "{:?}", second);
}

#[test]
fn pretty_plain_mode_passes_text_through() {
    let mut p = PrettyOut::new(false, true);
    let out = render(&p.push_content("<think>a</think>b"));
    assert_eq!(out, vec![(true, "<think>a</think>b".to_string())]);
    assert!(p.flush_end().is_empty());
}

#[test]
fn typeahead_queue_is_first_in_first_out() {
    let mut q = PendingQueue::new();
    assert!(q.is_empty());
    q.push("one".to_string());
    q.push("two".to_string());
    assert_eq!(q.len(), 2);
    assert_eq!(q.peek_all(), vec!["one".to_string(), "two".to_string()]);
    assert_eq!(q.pop_front(), Some("one".to_string()));
    assert_eq!(q.pop_front(), Some("two".to_string()));
    assert_eq!(q.pop_front(), None);
    q.push("three".to_string());
    q.clear();
    assert_eq!(q.len(), 0);
}

#[test]
fn strip_ansi_len_counts_visible_chars() {
    assert_eq!(strip_ansi_len("\x1b[31mred\x1b[0m"), 3);
    assert_eq!(strip_ansi_len("plain"), 5);
    assert_eq!(strip_ansi_len("é\x1b[1;2mx"), 2);
}

#[test]
fn find_double_newline_finds_first_separator() {
    assert_eq!(find_double_newline(b"ab\n\ncd\n\n"), Some(2));
    assert_eq!(find_double_newline(b"ab\ncd\n"), None);
    assert_eq!(find_double_newline(b""), None);
}

#[test]
fn classify_sse_line_recognises_data_done_and_skip() {
    assert_eq!(classify_sse_line(&chars("data: {\"a\":1}\r")), SseLine::Payload("{\"a\":1}".to_string()));
    assert_eq!(classify_sse_line(&chars("data: [DONE]")), SseLine::Done);
    assert_eq!(classify_sse_line(&chars("data:   ")), SseLine::Skip);
    assert_eq!(classify_sse_line(&chars(": keep-alive")), SseLine::Skip);
}

#[test]
fn event_payloads_stop_at_done() {
    let (p, done) = event_payloads("data: a\nevent: x\ndata: b\ndata: [DONE]\ndata: c");
    assert_eq!(p, vec!["a".to_string(), "b".to_string()]);
    assert!(done);
    let (p2, done2) = event_payloads("data: z\r\n");
    assert_eq!(p2, vec!["z".to_string()]);
    assert!(!done2);
}

#[test]
fn tool_call_deltas_accumulate_and_finish() {
    let mut acc: Vec<(String, String, String)> = Vec::new();
    apply_tool_call_delta(&mut acc, 0, Some("id0".to_string()), Some("read".to_string()), Some("{\"pa".to_string()));
    apply_tool_call_delta(&mut acc, 0, Some(String::new()), None, Some("th\":1}".to_string()));
    apply_tool_call_delta(&mut acc, 2, None, Some("bash".to_string()), Some("{}".to_string()));
    assert_eq!(acc.len(), 3);
    assert_eq!(acc[0], ("id0".to_string(), "read".to_string(), "{\"path\":1}".to_string()));
    let calls = finish_tool_calls(&acc);
    assert_eq!(calls.len(), 2);
    assert_eq!(calls[0].id, "id0");
    assert_eq!(calls[0].kind, "function");
    assert_eq!(calls[0].function.name, "read");
    assert_eq!(calls[0].function.arguments, "{\"path\":1}");
    assert_eq!(calls[1].id, "call_2");
    assert_eq!(calls[1].function.name, "bash");
}

#[test]
fn decide_round_covers_every_outcome() {
    assert_eq!(decide_round(Some("error"), Some("Malformed TOOL_CALL at 3"), 0), RoundOutcome::DropTurn);
    assert_eq!(decide_round(Some("error"), Some("out of memory"), 0), RoundOutcome::Final);
    assert_eq!(decide_round(Some("error"), None, 1), RoundOutcome::ToolCalls);
    assert_eq!(decide_round(Some("length"), None, 0), RoundOutcome::AutoContinue);
    assert_eq!(decide_round(Some("length"), None, 1), RoundOutcome::ToolCalls);
    assert_eq!(decide_round(Some("stop"), None, 0), RoundOutcome::Final);
    assert_eq!(decide_round(None, None, 2), RoundOutcome::ToolCalls);
}

fn call(id: &str) -> ToolCall {
    ToolCall {
        id: id.to_string(),
        kind: "function".to_string(),
        function: FunctionCall { name: "read".to_string(), arguments: "{}".to_string() },
    }
}

#[test]
fn record_round_adds_the_right_messages() {
    let mut conv: Vec<ChatMessage> = vec![ChatMessage::user("hi")];
    record_round(&mut conv, RoundOutcome::DropTurn, "junk", Vec::new());
    assert_eq!(conv.len(), 1);
    record_round(&mut conv, RoundOutcome::AutoContinue, "partial", Vec::new());
    assert_eq!(conv.len(), 3);
    assert_eq!(conv[1].role, "assistant");
    assert_eq!(conv[1].content.as_deref(), Some("partial"));
    assert_eq!(conv[2].role, "user");
    assert_eq!(conv[2].content.as_deref(), Some("continue"));
    record_round(&mut conv, RoundOutcome::ToolCalls, "   ", vec![call("c1")]);
    assert_eq!(conv.len(), 4);
    assert_eq!(conv[3].content, None);
    assert_eq!(conv[3].tool_calls.as_ref().map(|c| c.len()), Some(1));
    record_round(&mut conv, RoundOutcome::Final, "done", Vec::new());
    assert_eq!(conv[4].content.as_deref(), Some("done"));
    assert!(conv[4].tool_calls.is_none());
}

#[test]
fn count_round_keeps_first_figures_and_sums_completion() {
    let mut s = LoopStats::default();
    count_round(&mut s, 0, Some(Duration::from_millis(120)), Some(900), Some(40));
    count_round(&mut s, 1, Some(Duration::from_millis(80)), Some(1200), Some(2));
    count_round(&mut s, 2, None, None, None);
    assert_eq!(s.rounds, 3);
    assert_eq!(s.first_ttft, Some(Duration::from_millis(120)));
    assert_eq!(s.first_prompt_tokens, Some(900));
    assert_eq!(s.total_completion_tokens, 42);
    assert_eq!(s.total_tool_calls, 0);
}

#[test]
fn finish_note_formats_each_reason() {
    assert_eq!(finish_note(0, "tool_calls", 5, None), None);
    assert_eq!(
        finish_note(0, "stop", 12, None),
        Some("\x1b[2m[hip] round 1 finish_reason=stop ctok=12\x1b[0m".to_string())
    );
    let err = StreamError { message: Some("boom".to_string()), kind: Some("ValueError".to_string()), status_code: Some(500) };
    assert_eq!(
        finish_note(2, "error", 7, Some(&err)),
        Some("\x1b[2m[hip] round 3 finish_reason=error ctok=7 \x1b[31mValueError/500: boom\x1b[0m".to_string())
    );
    let bare = StreamError { message: None, kind: None, status_code: None };
    assert_eq!(
        finish_note(0, "error", 0, Some(&bare)),
        Some("\x1b[2m[hip] round 1 finish_reason=error ctok=0 \x1b[31m?/?: (no message)\x1b[0m".to_string())
    );
    assert_eq!(
        finish_note(0, "error", 1, None),
        Some("\x1b[2m[hip] round 1 finish_reason=error ctok=1 \x1b[31m(server sent no error payload — likely upstream cutoff)\x1b[0m".to_string())
    );
}

fn text_chunk(t: &str, finish: Option<&str>) -> StreamChunk {
    StreamChunk {
        choices: vec![StreamChoice {
            delta: Delta { role: None, content: Some(t.to_string()), tool_calls: None },
            finish_reason: finish.map(|f| f.to_string()),
        }],
        usage: None,
    }
}

#[test]
fn absorb_chunk_collects_text_and_marks_first_token_once() {
    let mut st = StreamState::default();
    assert_eq!(absorb_chunk(&mut st, text_chunk("", None)), vec![]);
    assert_eq!(
        absorb_chunk(&mut st, text_chunk("Hel", None)),
        vec![ChunkEvent::FirstToken, ChunkEvent::Text("Hel".to_string())]
    );
    assert_eq!(absorb_chunk(&mut st, text_chunk("lo", Some("stop"))), vec![ChunkEvent::Text("lo".to_string())]);
    assert_eq!(st.content, "Hello");
    assert_eq!(st.finish_reason.as_deref(), Some("stop"));
    assert!(st.started);
    let usage = StreamChunk {
        choices: vec![],
        usage: Some(Usage { prompt_tokens: Some(10), completion_tokens: Some(2), total_tokens: Some(12) }),
    };
    assert_eq!(absorb_chunk(&mut st, usage), vec![]);
    assert_eq!(st.usage.as_ref().and_then(|u| u.completion_tokens), Some(2));
}

#[test]
fn absorb_chunk_folds_tool_call_deltas() {
    let mut st = StreamState::default();
    let d = |index: u32, id: Option<&str>, name: Option<&str>, args: Option<&str>| ToolCallDelta {
        index,
        id: id.map(|s| s.to_string()),
        kind: None,
        function: Some(FunctionCallDelta { name: name.map(|s| s.to_string()), arguments: args.map(|s| s.to_string()) }),
    };
    let chunk = StreamChunk {
        choices: vec![StreamChoice {
            delta: Delta { role: None, content: None, tool_calls: Some(vec![d(0, Some("c0"), Some("read"), Some("{\"p"))]) },
            finish_reason: None,
        }],
        usage: None,
    };
    assert_eq!(absorb_chunk(&mut st, chunk), vec![ChunkEvent::FirstToken, ChunkEvent::ToolTick]);
    let chunk2 = StreamChunk {
        choices: vec![StreamChoice {
            delta: Delta { role: None, content: None, tool_calls: Some(vec![d(0, None, None, Some("\":1}"))]) },
            finish_reason: Some("tool_calls".to_string()),
        }],
        usage: None,
    };
    assert_eq!(absorb_chunk(&mut st, chunk2), vec![ChunkEvent::ToolTick]);
    let calls = finish_tool_calls(&st.calls);
    assert_eq!(calls.len(), 1);
    assert_eq!(calls[0].function.arguments, "{\"p\":1}");
    assert_eq!(st.finish_reason.as_deref(), Some("tool_calls"));
}

#[test]
fn result_panel_shortens_long_output() {
    let body: String = (1..=10).map(|i| format!("l{}\n", i)).collect();
    let rows = result_panel("read", true, &body, 3);
    assert_eq!(rows.len(), 1 + 3 + 1 + 1);
    assert_eq!(rows[0], "\x1b[2m╭─ \x1b[0;32m✓\x1b[0;2m result: \x1b[1mread\x1b[0;2m ─────────────────────\x1b[0m");
    assert_eq!(rows[1], "\x1b[2m│\x1b[0m l1");
    assert_eq!(rows[4], "\x1b[2m│ ... (7 more lines, truncated; --full-output to see all)\x1b[0m");
    assert_eq!(rows[5], "\x1b[2m╰─────────────────────────────────────\x1b[0m");
    // Two lines over the limit are shown in full.
    let short = result_panel("bash", false, "a\nb\nc\nd\ne", 3);
    assert_eq!(short.len(), 1 + 5 + 1);
    assert!(short[0].contains("\x1b[0;31m✗"));
}

#[test]
fn args_panel_aligns_keys_and_indents_multiline_values() {
    let args = vec![
        ("path".to_string(), ArgValue::Text("a.rs".to_string())),
        ("new_string".to_string(), ArgValue::Text("x\ny".to_string())),
        ("replace_all".to_string(), ArgValue::Json("true".to_string())),
    ];
    let out = args_panel(&args);
    let key = |k: &str| format!("\x1b[0;33m{}\x1b[0m:", k);
    let expected = format!(
        "{:<w$}  a.rs\n{:<w$}  x\n{}y\n{:<w$}  true",
        key("path"),
        key("new_string"),
        " ".repeat(13),
        key("replace_all"),
        w = 11 + 12
    );
    assert_eq!(out, expected);
}

fn visible_text(es: &[hip::pretty::Emit]) -> String {
    let mut out = String::new();
    for e in es {
        if let hip::pretty::Emit::Stdout(s) = e {
            if !s.starts_with('\x1b') {
                out.push_str(s);
            }
        }
    }
    out
}

#[test]
fn hidden_thinking_output_does_not_depend_on_the_split() {
    let text = "pre<think>secret</think>post <think>x</think>end";
    let splits: Vec<Vec<&str>> = vec![
        vec![text],
        vec!["pre<thi", "nk>secret</th", "ink>post <think>x</think>e", "nd"],
        vec!["p", "r", "e", "<", "t", "h", "i", "n", "k", ">", "s", "</think>", "post <think>x</think>end"],
    ];
    for parts in splits {
        let mut p = hip::pretty::PrettyOut::new(true, false);
        let mut all = Vec::new();
        for d in parts {
            all.extend(p.push_content(d));
        }
        all.extend(p.flush_end());
        assert_eq!(visible_text(&all), "prepost end");
    }
}
