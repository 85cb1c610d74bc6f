//! Chat-completions message shapes exchanged with the model server.
//!
//! These are the bare data types; the wire encoding lives with the program
//! that talks to the server.

use vstd::prelude::*;

verus! {

/// A single chat message. `role` is one of "system", "user", "assistant",
/// "tool". `content` is absent when the assistant only calls tools.
#[derive(Debug, Clone)]
pub struct ChatMessage {
    pub role: String,
    pub content: Option<String>,
    pub tool_calls: Option<Vec<ToolCall>>,
    pub tool_call_id: Option<String>,
}

/// The text of an optional string, if any.
pub open spec fn opt_view(o: Option<String>) -> Option<Seq<char>> {
    match o {
        Some(s) => Some(s@),
        None => None,
    }
}

impl ChatMessage {
    /// A system prompt message.
    pub fn system(s: &str) -> (r: Self)
        ensures
            r.role@ == "system"@,
            opt_view(r.content) == Some(s@),
            r.tool_calls is None,
            r.tool_call_id is None,
    {
        ChatMessage { role: "system".to_owned(), content: Some(s.to_owned()), tool_calls: None, tool_call_id: None }
    }

    /// A user turn.
    pub fn user(s: &str) -> (r: Self)
        ensures
            r.role@ == "user"@,
            opt_view(r.content) == Some(s@),
            r.tool_calls is None,
            r.tool_call_id is None,
    {
        ChatMessage { role: "user".to_owned(), content: Some(s.to_owned()), tool_calls: None, tool_call_id: None }
    }

    /// An assistant turn that carries only text.
    pub fn assistant_text(s: &str) -> (r: Self)
        ensures
            r.role@ == "assistant"@,
            opt_view(r.content) == Some(s@),
            r.tool_calls is None,
            r.tool_call_id is None,
    {
        ChatMessage {
            role: "assistant".to_owned(),
            content: Some(s.to_owned()),
            tool_calls: None,
            tool_call_id: None,
        }
    }

    /// An assistant turn that calls tools, with optional accompanying text.
    pub fn assistant_tool_calls(content: Option<String>, calls: Vec<ToolCall>) -> (r: Self)
        ensures
            r.role@ == "assistant"@,
            r.content == content,
            r.tool_calls == Some(calls),
            r.tool_call_id is None,
    {
        ChatMessage { role: "assistant".to_owned(), content, tool_calls: Some(calls), tool_call_id: None }
    }

    /// The result of the tool call `id`, with `body` as its content.
    pub fn tool_result(id: &str, body: &str) -> (r: Self)
        ensures
            r.role@ == "tool"@,
            opt_view(r.content) == Some(body@),
            r.tool_calls is None,
            opt_view(r.tool_call_id) == Some(id@),
    {
        ChatMessage {
            role: "tool".to_owned(),
            content: Some(body.to_owned()),
            tool_calls: None,
            tool_call_id: Some(id.to_owned()),
        }
    }
}

/// A tool invocation requested by the assistant.
#[derive(Debug, Clone)]
pub struct ToolCall {
    pub id: String,
    /// The call's type; "function" when the server leaves it out.
    pub kind: String,
    pub function: FunctionCall,
}

/// The type a tool call has when the server does not say.
pub fn default_type() -> (r: String)
    ensures
        r@ == "function"@,
{
    "function".to_owned()
}

/// Name and JSON-encoded arguments of a called function.
#[derive(Debug, Clone)]
pub struct FunctionCall {
    pub name: String,
    pub arguments: String,
}

/// One streamed delta envelope.
#[derive(Debug)]
pub struct StreamChunk {
    pub choices: Vec<StreamChoice>,
    pub usage: Option<Usage>,
}

/// One choice inside a streamed chunk.
#[derive(Debug)]
pub struct StreamChoice {
    pub delta: Delta,
    pub finish_reason: Option<String>,
}

/// The incremental part of a streamed choice.
#[derive(Debug, Default)]
pub struct Delta {
    pub role: Option<String>,
    pub content: Option<String>,
    pub tool_calls: Option<Vec<ToolCallDelta>>,
}

/// A fragment of a tool call, keyed by its position `index`.
#[derive(Debug)]
pub struct ToolCallDelta {
    pub index: u32,
    pub id: Option<String>,
    pub kind: Option<String>,
    pub function: Option<FunctionCallDelta>,
}

/// A fragment of a called function's name or arguments.
#[derive(Debug)]
pub struct FunctionCallDelta {
    pub name: Option<String>,
    pub arguments: Option<String>,
}

/// Token accounting reported by the server.
#[derive(Debug, Clone)]
pub struct Usage {
    pub prompt_tokens: Option<u32>,
    pub completion_tokens: Option<u32>,
    pub total_tokens: Option<u32>,
}

} // verus!
