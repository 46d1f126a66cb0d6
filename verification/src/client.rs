//! The chat-completions exchange: the request body sent for a message, the
//! endpoint it goes to, and the reply read back from a complete response.

use vstd::prelude::*;
use crate::config::{Config, opt_view};
use crate::json::{choice_content, lookup_choice_content};
use crate::state::opt_str_view;

verus! {

/// The path of the chat-completions endpoint under the server URL.
pub const COMPLETIONS_PATH: &'static str = "/v1/chat/completions";

/// One message of the request.
#[derive(Debug)]
pub struct ChatMessage {
    pub role: String,
    pub content: String,
}

impl ChatMessage {
    pub open spec fn pair(self) -> (Seq<char>, Seq<char>) {
        (self.role@, self.content@)
    }
}

/// The metadata sent with a request: the conversation it continues, if any.
#[derive(Debug)]
pub struct Metadata {
    pub conversation_id: Option<String>,
}

/// The request body (`/v1/chat/completions`). Only the new user message is
/// sent, preceded by a system prompt when one is given.
#[derive(Debug)]
pub struct CompletionRequest {
    pub model: String,
    pub messages: Vec<ChatMessage>,
    pub stream: bool,
    pub store: bool,
    pub metadata: Option<Metadata>,
}

/// The outcome of one exchange.
#[derive(Debug)]
pub struct SendResult {
    /// The full assistant reply.
    pub reply: String,
    /// The upstream conversation id, when the server sent one.
    pub conversation_id: Option<String>,
}

/// Why a complete (non-streamed) response gave no reply.
#[derive(Debug, PartialEq, Eq, Structural)]
pub enum ReplyError {
    /// The body is not JSON.
    InvalidJson,
    /// The body is JSON without a string at `choices[0].message.content`.
    UnexpectedShape,
}

/// The (role, content) pairs sent for `message`, after the optional system
/// prompt.
pub open spec fn request_messages(system: Option<Seq<char>>, message: Seq<char>) -> Seq<
    (Seq<char>, Seq<char>),
> {
    match system {
        Some(s) => seq![("system"@, s), ("user"@, message)],
        None => seq![("user"@, message)],
    }
}

/// The system prompt goes out whole, as the first message, and the user's
/// message whole, as the last; without a system prompt only the user's
/// message goes.
pub proof fn law_prompts_are_sent_whole(system: Seq<char>, message: Seq<char>)
    ensures
        request_messages(Some(system), message).len() == 2,
        request_messages(Some(system), message)[0] == ("system"@, system),
        request_messages(Some(system), message)[1] == ("user"@, message),
        request_messages(None, message).len() == 1,
        request_messages(None, message)[0] == ("user"@, message),
{
}

/// Builds the request for `message`: the model is `model_override` when
/// given, else the configured one; the request is always stored, and its
/// metadata names the conversation to continue (none for a new one).
pub fn build_request(
    cfg: &Config,
    message: &str,
    system: Option<&str>,
    conversation_id: Option<&str>,
    model_override: Option<&str>,
    stream: bool,
) -> (res: CompletionRequest)
    ensures
        res.model@ == match model_override {
            Some(m) => m@,
            None => cfg.model@,
        },
        res.messages@.map_values(|m: ChatMessage| m.pair()) == request_messages(
            opt_str_view(system),
            message@,
        ),
        res.stream == stream,
        res.store,
        res.metadata matches Some(md) && opt_view(md.conversation_id) == opt_str_view(
            conversation_id,
        ),
{
    let model = match model_override {
        Some(m) => String::from_str(m),
        None => cfg.model.clone(),
    };
    let mut messages: Vec<ChatMessage> = Vec::new();
    if let Some(sys) = system {
        messages.push(
            ChatMessage { role: String::from_str("system"), content: String::from_str(sys) },
        );
    }
    messages.push(ChatMessage { role: String::from_str("user"), content: String::from_str(message) });
    let conversation_id = match conversation_id {
        Some(id) => Some(String::from_str(id)),
        None => None,
    };
    let res = CompletionRequest {
        model,
        messages,
        stream,
        store: true,
        metadata: Some(Metadata { conversation_id }),
    };
    assert(res.messages@.map_values(|m: ChatMessage| m.pair()) =~= request_messages(
        opt_str_view(system),
        message@,
    ));
    res
}

/// The chat-completions endpoint of the server at `base_url`.
pub fn completions_url(base_url: &str) -> (res: String)
    ensures
        res@ == base_url@ + COMPLETIONS_PATH@,
{
    let url = String::from_str(base_url);
    url.concat(COMPLETIONS_PATH)
}

/// The view of a send result: the reply and the conversation id.
pub open spec fn result_view(r: SendResult) -> (Seq<char>, Option<Seq<char>>) {
    (r.reply@, opt_view(r.conversation_id))
}

/// What a complete response gives, for the lookup of
/// `choices[0].message.content` in its body and the conversation id from its
/// header.
pub open spec fn reply_outcome(lookup: Option<Option<Seq<char>>>, header_id: Option<Seq<char>>) -> Result<
    (Seq<char>, Option<Seq<char>>),
    ReplyError,
> {
    match lookup {
        None => Err(ReplyError::InvalidJson),
        Some(None) => Err(ReplyError::UnexpectedShape),
        Some(Some(reply)) => Ok((reply, header_id)),
    }
}

/// The view of a reply result.
pub open spec fn reply_view(r: Result<SendResult, ReplyError>) -> Result<
    (Seq<char>, Option<Seq<char>>),
    ReplyError,
> {
    match r {
        Ok(s) => Ok(result_view(s)),
        Err(e) => Err(e),
    }
}

/// The result of a complete response, given what the lookup of
/// `choices[0].message.content` in its body found.
pub fn reply_from_lookup(lookup: Option<Option<String>>, header_id: Option<String>) -> (res: Result<
    SendResult,
    ReplyError,
>)
    ensures
        reply_view(res) == reply_outcome(crate::json::nested_view(lookup), opt_view(header_id)),
{
    match lookup {
        None => Err(ReplyError::InvalidJson),
        Some(None) => Err(ReplyError::UnexpectedShape),
        Some(Some(reply)) => Ok(SendResult { reply, conversation_id: header_id }),
    }
}

/// The result of a complete (non-streamed) response whose body is `body` and
/// whose `x-mirror-conversation-id` header is `header_id`.
pub fn reply_from_body(body: &str, header_id: Option<String>) -> (res: Result<SendResult, ReplyError>)
    ensures
        reply_view(res) == reply_outcome(choice_content(body@, "message"@), opt_view(header_id)),
{
    let lookup = lookup_choice_content(body, "message");
    reply_from_lookup(lookup, header_id)
}

/// The result of a streamed response: the conversation id from the header
/// when there is one, else the one the stream announced.
pub fn streamed_result(header_id: Option<String>, reply: String, stream_id: Option<String>) -> (res:
    SendResult)
    ensures
        res.reply@ == reply@,
        opt_view(res.conversation_id) == match opt_view(header_id) {
            Some(h) => Some(h),
            None => opt_view(stream_id),
        },
{
    let conversation_id = match header_id {
        Some(h) => Some(h),
        None => stream_id,
    };
    SendResult { reply, conversation_id }
}

} // verus!
