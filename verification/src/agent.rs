//! The decisions of the agent loop: after each streamed round, whether the
//! turn is dropped, continued, finished or followed by tool calls, what
//! goes into the conversation, and the round's counters.

use vstd::prelude::*;
use std::time::Duration;
use crate::schema::{ChatMessage, ToolCall, opt_view};
use crate::client::StreamError;
use crate::text::{chars_of, contains_chars, contains_seq, extend_str, push_decimal, string_of, decimal, trim, trim_chars};
use crate::edit::{lowercase, str_to_lowercase};

verus! {

/// What one agent-loop run did and how long it took.
#[derive(Debug, Default)]
pub struct LoopStats {
    pub rounds: u32,
    pub total_tool_calls: u32,
    /// Time to first token of the first round.
    pub first_ttft: Option<Duration>,
    pub total: Duration,
    /// Prompt tokens the server reported for the first round.
    pub first_prompt_tokens: Option<u32>,
    pub total_completion_tokens: u32,
}

/// How a round ends.
#[derive(Debug, Clone, Copy, PartialEq, Eq, Structural)]
pub enum RoundOutcome {
    /// The server rejected a malformed tool call: the turn is dropped and
    /// the loop ends.
    DropTurn,
    /// The answer was cut at the token limit without tool calls: it is
    /// kept, "continue" is asked, and the loop goes on.
    AutoContinue,
    /// A final answer: kept, and the loop ends.
    Final,
    /// The assistant called tools: they run and the loop goes on.
    ToolCalls,
}

/// The server's error message names a malformed tool call.
pub open spec fn rejects_tool_call(msg: Seq<char>) -> bool {
    let lo = lowercase(msg);
    contains_seq(lo, "malformed tool_call"@) || contains_seq(lo, "unclosed <tool_call>"@) || contains_seq(
        lo,
        "unsupported tool_call payload"@,
    )
}

/// How a round with this finish reason, server error message and number
/// of tool calls ends.
pub open spec fn outcome_spec(finish_reason: Option<Seq<char>>, error_message: Option<Seq<char>>, n_calls: nat) -> RoundOutcome {
    if finish_reason == Some("error"@) && (match error_message {
        Some(m) => rejects_tool_call(m),
        None => false,
    }) {
        RoundOutcome::DropTurn
    } else if finish_reason == Some("length"@) && n_calls == 0 {
        RoundOutcome::AutoContinue
    } else if n_calls == 0 {
        RoundOutcome::Final
    } else {
        RoundOutcome::ToolCalls
    }
}

/// Decides how a round ends.
pub fn decide_round(finish_reason: Option<&str>, error_message: Option<&str>, n_calls: usize) -> (r: RoundOutcome)
    ensures
        r == outcome_spec(
            match finish_reason {
                Some(f) => Some(f@),
                None => None,
            },
            match error_message {
                Some(m) => Some(m@),
                None => None,
            },
            n_calls as nat,
        ),
{
    let is_error = match finish_reason {
        Some(f) => crate::text::chars_eq_str(&chars_of(f), "error"),
        None => false,
    };
    let rejected = is_error && match error_message {
        Some(m) => {
            let lo = str_to_lowercase(m);
            let lc = chars_of(lo.as_str());
            contains_chars(&lc, &chars_of("malformed tool_call")) || contains_chars(&lc, &chars_of("unclosed <tool_call>"))
                || contains_chars(&lc, &chars_of("unsupported tool_call payload"))
        },
        None => false,
    };
    if rejected {
        return RoundOutcome::DropTurn;
    }
    let is_length = match finish_reason {
        Some(f) => crate::text::chars_eq_str(&chars_of(f), "length"),
        None => false,
    };
    if is_length && n_calls == 0 {
        RoundOutcome::AutoContinue
    } else if n_calls == 0 {
        RoundOutcome::Final
    } else {
        RoundOutcome::ToolCalls
    }
}

/// The messages a round adds to the conversation: the kept answer (and a
/// "continue" request when it was cut), or the assistant turn carrying the
/// tool calls, with its text only when that is not blank.
pub open spec fn added_spec(outcome: RoundOutcome, content: Seq<char>, n_calls: nat) -> Seq<(Seq<char>, Option<Seq<char>>, bool)> {
    match outcome {
        RoundOutcome::DropTurn => Seq::empty(),
        RoundOutcome::AutoContinue => seq![("assistant"@, Some(content), false), ("user"@, Some("continue"@), false)],
        RoundOutcome::Final => seq![("assistant"@, Some(content), false)],
        RoundOutcome::ToolCalls => seq![("assistant"@, if trim(content).len() == 0 {
            None
        } else {
            Some(content)
        }, true)],
    }
}

/// A message as the round contracts see it: role, text, whether it calls
/// tools.
pub open spec fn msg_view(m: ChatMessage) -> (Seq<char>, Option<Seq<char>>, bool) {
    (m.role@, opt_view(m.content), m.tool_calls is Some)
}

/// Adds the messages a round produced to the conversation.
pub fn record_round(conv: &mut Vec<ChatMessage>, outcome: RoundOutcome, content: &str, calls: Vec<ToolCall>)
    ensures
        final(conv)@.len() == old(conv)@.len() + added_spec(outcome, content@, calls@.len()).len(),
        forall|i: int| 0 <= i < old(conv)@.len() ==> #[trigger] final(conv)@[i] == old(conv)@[i],
        forall|i: int|
            0 <= i < added_spec(outcome, content@, calls@.len()).len() ==> msg_view(
                #[trigger] final(conv)@[old(conv)@.len() + i],
            ) == added_spec(outcome, content@, calls@.len())[i],
        outcome == RoundOutcome::ToolCalls ==> final(conv)@[old(conv)@.len() as int].tool_calls == Some(calls),
{
    match outcome {
        RoundOutcome::DropTurn => {},
        RoundOutcome::AutoContinue => {
            conv.push(ChatMessage::assistant_text(content));
            conv.push(ChatMessage::user("continue"));
        },
        RoundOutcome::Final => {
            conv.push(ChatMessage::assistant_text(content));
        },
        RoundOutcome::ToolCalls => {
            let t = trim_chars(&chars_of(content));
            let text = if t.len() == 0 {
                None
            } else {
                Some(content.to_owned())
            };
            conv.push(ChatMessage::assistant_tool_calls(text, calls));
        },
    }
}

/// Adds a round's server figures to the counters: the first round's time
/// to first token and prompt tokens are kept, completion tokens add up.
pub fn count_round(stats: &mut LoopStats, round: u32, ttft: Option<Duration>, prompt_tokens: Option<u32>, completion_tokens: Option<u32>)
    requires
        round < u32::MAX,
        match completion_tokens {
            Some(c) => old(stats).total_completion_tokens + c <= u32::MAX,
            None => true,
        },
    ensures
        final(stats).rounds == round + 1,
        final(stats).first_ttft == if old(stats).first_ttft is None { ttft } else { old(stats).first_ttft },
        final(stats).first_prompt_tokens == if old(stats).first_prompt_tokens is None {
            prompt_tokens
        } else {
            old(stats).first_prompt_tokens
        },
        final(stats).total_completion_tokens == match completion_tokens {
            Some(c) => (old(stats).total_completion_tokens + c) as u32,
            None => old(stats).total_completion_tokens,
        },
        final(stats).total_tool_calls == old(stats).total_tool_calls,
        final(stats).total == old(stats).total,
{
    stats.rounds = round + 1;
    if stats.first_ttft.is_none() {
        stats.first_ttft = ttft;
    }
    if stats.first_prompt_tokens.is_none() {
        stats.first_prompt_tokens = prompt_tokens;
    }
    if let Some(c) = completion_tokens {
        stats.total_completion_tokens = stats.total_completion_tokens + c;
    }
}

/// The dim note shown when a round ends for another reason than tool
/// calls: the round, the reason and the completion tokens, and for an
/// error the server's kind, status and message.
pub open spec fn finish_note_spec(round: nat, reason: Seq<char>, ctok: nat, err: Option<(Option<Seq<char>>, Option<Seq<char>>, Option<u16>)>) -> Option<Seq<char>> {
    if reason == "tool_calls"@ {
        None
    } else if reason == "error"@ {
        match err {
            Some((msg, kind, status)) => Some("\x1b[2m[hip] round "@ + decimal(round + 1) + " finish_reason=error ctok="@
                + decimal(ctok) + " \x1b[31m"@ + (match kind {
                Some(k) => k,
                None => "?"@,
            }) + "/"@ + (match status {
                Some(c) => decimal(c as nat),
                None => "?"@,
            }) + ": "@ + (match msg {
                Some(m) => m,
                None => "(no message)"@,
            }) + "\x1b[0m"@),
            None => Some("\x1b[2m[hip] round "@ + decimal(round + 1) + " finish_reason=error ctok="@ + decimal(ctok)
                + " \x1b[31m(server sent no error payload — likely upstream cutoff)\x1b[0m"@),
        }
    } else {
        Some("\x1b[2m[hip] round "@ + decimal(round + 1) + " finish_reason="@ + reason + " ctok="@ + decimal(ctok)
            + "\x1b[0m"@)
    }
}

fn push_opt(v: &mut Vec<char>, o: &Option<String>, fallback: &str)
    ensures
        final(v)@ == old(v)@ + match o {
            Some(s) => s@,
            None => fallback@,
        },
{
    match o {
        Some(s) => extend_str(v, s.as_str()),
        None => extend_str(v, fallback),
    }
}

/// The note for a round that ended with `reason`; `None` for tool calls.
pub fn finish_note(round: u32, reason: &str, ctok: u32, err: Option<&StreamError>) -> (r: Option<String>)
    requires
        round < u32::MAX,
    ensures
        match r {
            Some(s) => finish_note_spec(round as nat, reason@, ctok as nat, match err {
                Some(e) => Some((opt_view(e.message), opt_view(e.kind), e.status_code)),
                None => None,
            }) == Some(s@),
            None => finish_note_spec(round as nat, reason@, ctok as nat, match err {
                Some(e) => Some((opt_view(e.message), opt_view(e.kind), e.status_code)),
                None => None,
            }) is None,
        },
{
    let rc = chars_of(reason);
    if crate::text::chars_eq_str(&rc, "tool_calls") {
        return None;
    }
    let mut v = chars_of("\x1b[2m[hip] round ");
    push_decimal(&mut v, round as u64 + 1);
    if crate::text::chars_eq_str(&rc, "error") {
        extend_str(&mut v, " finish_reason=error ctok=");
        push_decimal(&mut v, ctok as u64);
        match err {
            Some(e) => {
                extend_str(&mut v, " \x1b[31m");
                push_opt(&mut v, &e.kind, "?");
                extend_str(&mut v, "/");
                match e.status_code {
                    Some(c) => push_decimal(&mut v, c as u64),
                    None => extend_str(&mut v, "?"),
                }
                extend_str(&mut v, ": ");
                push_opt(&mut v, &e.message, "(no message)");
                extend_str(&mut v, "\x1b[0m");
            },
            None => {
                extend_str(&mut v, " \x1b[31m(server sent no error payload — likely upstream cutoff)\x1b[0m");
            },
        }
    } else {
        extend_str(&mut v, " finish_reason=");
        extend_str(&mut v, reason);
        extend_str(&mut v, " ctok=");
        push_decimal(&mut v, ctok as u64);
        extend_str(&mut v, "\x1b[0m");
    }
    Some(string_of(&v))
}

/// A server error whose lowercased message names a malformed tool call
/// (`malformed tool_call`, `unclosed <tool_call>` or `unsupported
/// tool_call payload`) drops the turn, whatever the number of calls; a
/// round that does not end in such an error is never dropped.
pub proof fn lemma_rejected_tool_call_drops_turn(msg: Seq<char>, n_calls: nat, f: Option<Seq<char>>, m: Option<Seq<char>>)
    ensures
        contains_seq(lowercase(msg), "malformed tool_call"@) ==> outcome_spec(Some("error"@), Some(msg), n_calls)
            == RoundOutcome::DropTurn,
        contains_seq(lowercase(msg), "unclosed <tool_call>"@) ==> outcome_spec(Some("error"@), Some(msg), n_calls)
            == RoundOutcome::DropTurn,
        contains_seq(lowercase(msg), "unsupported tool_call payload"@) ==> outcome_spec(Some("error"@), Some(msg), n_calls)
            == RoundOutcome::DropTurn,
        outcome_spec(f, m, n_calls) == RoundOutcome::DropTurn ==> f == Some("error"@) && m is Some,
        f != Some("error"@) && f != Some("length"@) ==> outcome_spec(f, m, n_calls) == if n_calls == 0 {
            RoundOutcome::Final
        } else {
            RoundOutcome::ToolCalls
        },
{
}

/// A round that ends for length without tool calls continues; one with
/// tool calls runs them; a server error whose lowercased message names
/// none of the three malformed-tool-call phrases is not dropped.
pub proof fn lemma_round_outcomes(msg: Seq<char>, m: Option<Seq<char>>, n_calls: nat)
    ensures
        outcome_spec(Some("length"@), m, n_calls) == if n_calls == 0 {
            RoundOutcome::AutoContinue
        } else {
            RoundOutcome::ToolCalls
        },
        !contains_seq(lowercase(msg), "malformed tool_call"@) && !contains_seq(lowercase(msg), "unclosed <tool_call>"@)
            && !contains_seq(lowercase(msg), "unsupported tool_call payload"@) ==> outcome_spec(Some("error"@), Some(msg), n_calls)
            == if n_calls == 0 {
            RoundOutcome::Final
        } else {
            RoundOutcome::ToolCalls
        },
        outcome_spec(Some("error"@), None, n_calls) == if n_calls == 0 {
            RoundOutcome::Final
        } else {
            RoundOutcome::ToolCalls
        },
{
    reveal_strlit("length");
    reveal_strlit("error");
    assert("length"@ != "error"@) by {
        assert("length"@[0] != "error"@[0]);
    }
}

} // verus!
