//! Auto-pruning of older tool-result messages once a conversation grows
//! past a watermark.
//!
//! 1. Estimate prompt tokens as characters / 3.
//! 2. Below `trigger_tokens`, do nothing.
//! 3. Walk back from the latest message accumulating tokens until the
//!    total reaches `recent_window_tokens`; that message and everything
//!    older is eligible.
//! 4. Among eligible messages, tool results of at least
//!    `min_prunable_chars` characters are candidates.
//! 5. If their tokens sum to less than `min_savings_tokens`, do nothing.
//! 6. Otherwise replace each candidate's content with a short stub naming
//!    its original size.

use vstd::prelude::*;
use crate::schema::ChatMessage;
use crate::text::{chars_of, extend_str, push_decimal, string_of, decimal};

verus! {

/// Thresholds of the pruning pass.
#[derive(Debug, Clone, Copy)]
pub struct PruneOpts {
    /// Prune only when the estimated prompt is at least this many tokens.
    pub trigger_tokens: usize,
    /// Keep every message within this many tokens of the end intact.
    pub recent_window_tokens: usize,
    /// Prune only when it saves at least this many tokens.
    pub min_savings_tokens: usize,
    /// Prune only tool results of at least this many characters.
    pub min_prunable_chars: usize,
}

impl Default for PruneOpts {
    fn default() -> (r: Self)
        ensures
            r.trigger_tokens == 20_000,
            r.recent_window_tokens == 40_000,
            r.min_savings_tokens == 10_000,
            r.min_prunable_chars == 200,
    {
        PruneOpts {
            trigger_tokens: 20_000,
            recent_window_tokens: 40_000,
            min_savings_tokens: 10_000,
            min_prunable_chars: 200,
        }
    }
}

/// What a pruning pass did.
#[derive(Debug, Clone)]
pub struct PruneReport {
    pub pruned_count: usize,
    pub savings_tokens: usize,
    pub total_before_tokens: usize,
    pub total_after_tokens: usize,
}

/// Estimated tokens of a text: its characters divided by 3.
pub open spec fn tokens_of(s: Seq<char>) -> nat {
    s.len() / 3
}

/// Estimated tokens of a message's content (0 without content).
pub open spec fn msg_tokens(m: ChatMessage) -> nat {
    match m.content {
        Some(c) => tokens_of(c@),
        None => 0,
    }
}

/// Estimated tokens of the first `n` messages.
pub open spec fn tokens_upto(s: Seq<ChatMessage>, n: int) -> nat
    decreases n,
{
    if n <= 0 {
        0
    } else {
        tokens_upto(s, n - 1) + msg_tokens(s[n - 1])
    }
}

/// Estimated tokens of a whole conversation.
pub open spec fn conv_tokens(s: Seq<ChatMessage>) -> nat {
    tokens_upto(s, s.len() as int)
}

/// Scanning back from message `i - 1`: the first message at which the
/// tokens from it to the end reach `w`.
pub open spec fn window_scan(s: Seq<ChatMessage>, w: nat, i: int) -> Option<nat>
    decreases i,
{
    if i <= 0 {
        None
    } else if conv_tokens(s) - tokens_upto(s, i - 1) >= w {
        Some((i - 1) as nat)
    } else {
        window_scan(s, w, i - 1)
    }
}

/// The oldest message still needed to cover the recent window, scanning
/// back from the end; `None` when the whole conversation is shorter.
pub open spec fn window_start(s: Seq<ChatMessage>, w: nat) -> Option<nat> {
    window_scan(s, w, s.len() as int)
}

/// A tool result with content of at least `min_chars` characters.
pub open spec fn prunable(m: ChatMessage, min_chars: nat) -> bool {
    &&& m.role@ == "tool"@
    &&& m.content is Some
    &&& m.content->0@.len() >= min_chars
}

/// Tokens of the prunable messages among the first `n`.
pub open spec fn savings_upto(s: Seq<ChatMessage>, min_chars: nat, n: int) -> nat
    decreases n,
{
    if n <= 0 {
        0
    } else {
        savings_upto(s, min_chars, n - 1) + if prunable(s[n - 1], min_chars) {
            msg_tokens(s[n - 1])
        } else {
            0
        }
    }
}

/// Number of prunable messages among the first `n`.
pub open spec fn count_upto(s: Seq<ChatMessage>, min_chars: nat, n: int) -> nat
    decreases n,
{
    if n <= 0 {
        0
    } else {
        count_upto(s, min_chars, n - 1) + if prunable(s[n - 1], min_chars) {
            1nat
        } else {
            0nat
        }
    }
}

/// The stub that replaces a pruned tool output of `chars` characters.
pub open spec fn stub_text(chars: nat) -> Seq<char> {
    "[tool output pruned for context window: "@ + decimal(chars) + " chars (~"@ + decimal(chars / 3)
        + " tok). Re-run the tool if you need this content again.]"@
}

/// `m` with its content replaced by the stub for its original size.
pub open spec fn stubbed(m: ChatMessage, n: ChatMessage) -> bool {
    &&& n.role == m.role
    &&& n.tool_calls == m.tool_calls
    &&& n.tool_call_id == m.tool_call_id
    &&& n.content is Some
    &&& n.content->0@ == stub_text(m.content->0@.len())
}

/// Whether a pass prunes, and up to which message.
pub open spec fn prune_cut(s: Seq<ChatMessage>, o: PruneOpts) -> Option<nat> {
    if conv_tokens(s) < o.trigger_tokens {
        None
    } else {
        match window_start(s, o.recent_window_tokens as nat) {
            None => None,
            Some(ws) => if savings_upto(s, o.min_prunable_chars as nat, ws + 1 as int) < o.min_savings_tokens {
                None
            } else {
                Some(ws)
            },
        }
    }
}

proof fn lemma_tokens_upto_mono(s: Seq<ChatMessage>, i: int, j: int)
    requires
        i <= j,
    ensures
        tokens_upto(s, i) <= tokens_upto(s, j),
    decreases j - i,
{
    if i < j {
        lemma_tokens_upto_mono(s, i, j - 1);
    }
}

proof fn lemma_savings_le(s: Seq<ChatMessage>, m: nat, n: int)
    ensures
        savings_upto(s, m, n) <= tokens_upto(s, n),
        count_upto(s, m, n) <= if n < 0 { 0 } else { n },
    decreases n,
{
    if n > 0 {
        lemma_savings_le(s, m, n - 1);
    }
}

/// Estimated tokens of a text: its characters divided by 3.
pub fn estimate_tokens(s: &str) -> (r: usize)
    ensures
        r == tokens_of(s@),
{
    let c = chars_of(s);
    c.len() / 3
}

fn message_tokens(m: &ChatMessage) -> (r: usize)
    ensures
        r == msg_tokens(*m),
{
    match &m.content {
        Some(c) => estimate_tokens(c.as_str()),
        None => 0,
    }
}

/// Estimated tokens of every message's content.
pub fn estimate_conv_tokens(conv: &[ChatMessage]) -> (r: usize)
    requires
        conv_tokens(conv@) <= usize::MAX,
    ensures
        r == conv_tokens(conv@),
{
    let mut total: usize = 0;
    let mut i: usize = 0;
    while i < conv.len()
        invariant
            i <= conv.len(),
            total == tokens_upto(conv@, i as int),
            conv_tokens(conv@) <= usize::MAX,
        decreases conv.len() - i,
    {
        proof {
            lemma_tokens_upto_mono(conv@, i + 1, conv@.len() as int);
        }
        total = total + message_tokens(&conv[i]);
        i += 1;
    }
    total
}

fn is_prunable(m: &ChatMessage, min_chars: usize) -> (r: bool)
    ensures
        r == prunable(*m, min_chars as nat),
{
    let tool = "tool".to_owned();
    if m.role != tool {
        return false;
    }
    match &m.content {
        Some(c) => chars_of(c.as_str()).len() >= min_chars,
        None => false,
    }
}

fn stub_for(content: &String) -> (r: String)
    ensures
        r@ == stub_text(content@.len()),
{
    let chars = chars_of(content.as_str()).len();
    let toks = chars / 3;
    let mut v: Vec<char> = Vec::new();
    extend_str(&mut v, "[tool output pruned for context window: ");
    push_decimal(&mut v, chars as u64);
    extend_str(&mut v, " chars (~");
    push_decimal(&mut v, toks as u64);
    extend_str(&mut v, " tok). Re-run the tool if you need this content again.]");
    string_of(&v)
}

/// Prunes older large tool results when the conversation is over the
/// trigger and the savings are worth it; `Some(report)` when it did.
pub fn maybe_prune_tool_outputs(conv: &mut Vec<ChatMessage>, opts: PruneOpts) -> (r: Option<PruneReport>)
    requires
        conv_tokens(old(conv)@) <= usize::MAX,
    ensures
        final(conv)@.len() == old(conv)@.len(),
        match prune_cut(old(conv)@, opts) {
            None => r is None && final(conv)@ == old(conv)@,
            Some(ws) => {
                let s = old(conv)@;
                let m = opts.min_prunable_chars as nat;
                &&& r is Some
                &&& r->0.pruned_count == count_upto(s, m, ws + 1 as int)
                &&& r->0.savings_tokens == savings_upto(s, m, ws + 1 as int)
                &&& r->0.total_before_tokens == conv_tokens(s)
                &&& r->0.total_after_tokens == conv_tokens(s) - savings_upto(s, m, ws + 1 as int)
                &&& forall|i: int|
                    0 <= i < s.len() ==> if i <= ws && prunable(s[i], m) {
                        stubbed(s[i], #[trigger] final(conv)@[i])
                    } else {
                        final(conv)@[i] == s[i]
                    }
            },
        },
{
    let ghost s = conv@;
    let total_before = estimate_conv_tokens(conv.as_slice());
    if total_before < opts.trigger_tokens {
        return None;
    }
    // Walk back from the end until the recent window is covered.
    let mut accumulated: usize = 0;
    let mut i: usize = conv.len();
    let mut window_start_idx: usize = 0;
    let mut crossed = false;
    while i > 0
        invariant_except_break
            !crossed,
            accumulated == conv_tokens(s) - tokens_upto(s, i as int),
            window_scan(s, opts.recent_window_tokens as nat, s.len() as int) == window_scan(
                s,
                opts.recent_window_tokens as nat,
                i as int,
            ),
        invariant
            i <= s.len(),
            conv@ == s,
            conv_tokens(s) <= usize::MAX,
        ensures
            crossed ==> window_start_idx < s.len() && window_start(s, opts.recent_window_tokens as nat)
                == Some(window_start_idx as nat),
            !crossed ==> window_start(s, opts.recent_window_tokens as nat) is None,
        decreases i,
    {
        proof {
            lemma_tokens_upto_mono(s, i - 1, i as int);
            lemma_tokens_upto_mono(s, i as int, s.len() as int);
        }
        accumulated = accumulated + message_tokens(&conv[i - 1]);
        if accumulated >= opts.recent_window_tokens {
            window_start_idx = i - 1;
            crossed = true;
            break;
        }
        i -= 1;
    }
    if !crossed {
        return None;
    }
    let ws = window_start_idx;
    let m = opts.min_prunable_chars;
    // Candidates: prunable messages at or before the window start.
    let mut eligible: Vec<usize> = Vec::new();
    let mut savings: usize = 0;
    let mut k: usize = 0;
    while k <= ws
        invariant
            ws < s.len(),
            ws < conv.len(),
            k <= ws + 1,
            conv@ == s,
            conv_tokens(s) <= usize::MAX,
            savings == savings_upto(s, m as nat, k as int),
            eligible@.len() == count_upto(s, m as nat, k as int),
            forall|j: int| 0 <= j < eligible@.len() ==> #[trigger] eligible@[j] < k,
            forall|j: int, l: int| 0 <= j < l < eligible@.len() ==> eligible@[j] < eligible@[l],
            forall|j: int| 0 <= j < eligible@.len() ==> prunable(s[#[trigger] eligible@[j] as int], m as nat),
            forall|x: int| 0 <= x < k && prunable(s[x], m as nat) ==> exists|j: int| 0 <= j < eligible@.len() && #[trigger] eligible@[j] == x,
        decreases ws + 1 - k,
    {
        proof {
            lemma_savings_le(s, m as nat, k + 1);
            lemma_tokens_upto_mono(s, k + 1, s.len() as int);
        }
        if is_prunable(&conv[k], m) {
            let ghost before = eligible@;
            savings = savings + message_tokens(&conv[k]);
            eligible.push(k);
            proof {
                assert forall|x: int| 0 <= x < k + 1 && prunable(s[x], m as nat) implies exists|j: int| 0 <= j < eligible@.len() && #[trigger] eligible@[j] == x by {
                    if x == k {
                        assert(eligible@[before.len() as int] == x);
                    } else {
                        let j = choose|j: int| 0 <= j < before.len() && #[trigger] before[j] == x;
                        assert(eligible@[j] == x);
                    }
                }
            }
        }
        k += 1;
    }
    if savings < opts.min_savings_tokens {
        return None;
    }
    proof {
        lemma_savings_le(s, m as nat, ws + 1 as int);
        lemma_tokens_upto_mono(s, ws + 1, s.len() as int);
    }
    // Replace each candidate's content with the stub.
    let mut e: usize = 0;
    while e < eligible.len()
        invariant
            e <= eligible@.len(),
            conv@.len() == s.len(),
            forall|j: int| 0 <= j < eligible@.len() ==> #[trigger] eligible@[j] <= ws,
            ws < s.len(),
            forall|j: int, l: int| 0 <= j < l < eligible@.len() ==> eligible@[j] < eligible@[l],
            forall|j: int| 0 <= j < eligible@.len() ==> prunable(s[#[trigger] eligible@[j] as int], m as nat),
            forall|i: int|
                0 <= i < s.len() ==> if (exists|j: int| 0 <= j < e && #[trigger] eligible@[j] == i) {
                    stubbed(s[i], #[trigger] conv@[i])
                } else {
                    conv@[i] == s[i]
                },
        decreases eligible@.len() - e,
    {
        let idx = eligible[e];
        let ghost before = conv@;
        assert(before[idx as int] == s[idx as int]) by {
            if exists|j: int| 0 <= j < e && #[trigger] eligible@[j] == idx {
                let j = choose|j: int| 0 <= j < e && #[trigger] eligible@[j] == idx;
                assert(eligible@[j] < eligible@[e as int]);
            }
        }
        let mut msg = conv.remove(idx);
        let stub = match &msg.content {
            Some(c) => stub_for(c),
            None => String::new(),
        };
        msg.content = Some(stub);
        conv.insert(idx, msg);
        proof {
            assert(conv@ =~= before.update(idx as int, msg));
            assert forall|i: int| 0 <= i < s.len() implies (if (exists|j: int| 0 <= j < e + 1 && #[trigger] eligible@[j] == i) {
                stubbed(s[i], #[trigger] conv@[i])
            } else {
                conv@[i] == s[i]
            }) by {
                if i == idx {
                    assert(eligible@[e as int] == i);
                } else {
                    if exists|j: int| 0 <= j < e + 1 && #[trigger] eligible@[j] == i {
                        let j = choose|j: int| 0 <= j < e + 1 && #[trigger] eligible@[j] == i;
                        assert(j != e);
                    }
                }
            }
        }
        e += 1;
    }
    proof {
        assert forall|i: int| 0 <= i < s.len() implies (if i <= ws && prunable(s[i], m as nat) {
            stubbed(s[i], #[trigger] conv@[i])
        } else {
            conv@[i] == s[i]
        }) by {
            if i <= ws && prunable(s[i], m as nat) {
                let j = choose|j: int| 0 <= j < eligible@.len() && #[trigger] eligible@[j] == i;
                assert(exists|j: int| 0 <= j < e && #[trigger] eligible@[j] == i);
            } else {
                if exists|j: int| 0 <= j < e && #[trigger] eligible@[j] == i {
                    let j = choose|j: int| 0 <= j < e && #[trigger] eligible@[j] == i;
                    assert(prunable(s[eligible@[j] as int], m as nat));
                }
            }
        }
    }
    Some(PruneReport {
        pruned_count: eligible.len(),
        savings_tokens: savings,
        total_before_tokens: total_before,
        total_after_tokens: total_before - savings,
    })
}

/// The conversation estimate adds up over concatenation: the tokens of
/// `a` followed by `b` are those of `a` plus those of `b`, and the empty
/// conversation has none.
pub proof fn lemma_conv_tokens_concat(a: Seq<ChatMessage>, b: Seq<ChatMessage>)
    ensures
        conv_tokens(a + b) == conv_tokens(a) + conv_tokens(b),
        conv_tokens(Seq::<ChatMessage>::empty()) == 0,
    decreases b.len(),
{
    if b.len() > 0 {
        let b2 = b.drop_last();
        lemma_conv_tokens_concat(a, b2);
        assert((a + b).drop_last() =~= a + b2);
        lemma_tokens_upto_prefix(a + b, (a + b).len() - 1);
        lemma_tokens_upto_prefix(b, b.len() - 1);
        assert((a + b)[(a + b).len() - 1] == b[b.len() - 1]);
    }
}

proof fn lemma_tokens_upto_prefix(s: Seq<ChatMessage>, n: int)
    requires
        0 <= n <= s.len(),
    ensures
        tokens_upto(s, n) == conv_tokens(s.take(n)),
    decreases n,
{
    if n > 0 {
        lemma_tokens_upto_prefix(s, n - 1);
        lemma_tokens_upto_prefix(s.take(n), n - 1);
        assert(s.take(n).take(n - 1) =~= s.take(n - 1));
        assert(s.take(n)[n - 1] == s[n - 1]);
    }
}

} // verus!
