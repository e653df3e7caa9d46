//! The messages exchanged with the model service.

use vstd::prelude::*;

verus! {

broadcast use vstd::string::group_string_axioms;

/// One chat message: who speaks (`role`) and what is said (`content`).
pub struct Messages {
    pub role: String,
    pub content: String,
}

impl Messages {
    /// A field-by-field copy of the message.
    pub fn duplicate(&self) -> (copy: Messages)
        ensures
            copy == *self,
    {
        Messages { role: self.role.clone(), content: self.content.clone() }
    }
}

/// The body of a chat request sent to the model service.
pub struct ChatRequest {
    pub model: String,
    pub messages: Vec<Messages>,
    pub stream: bool,
}

/// The address of the model service's chat endpoint.
pub const CHAT_URL: &'static str = "http://localhost:11434/api/chat";

/// The model that is asked.
pub const MODEL_NAME: &'static str = "codegemma:7b-instruct";

impl ChatRequest {
    /// The request that asks `MODEL_NAME` for its reply to `messages`, in one
    /// piece rather than streamed.
    pub fn new(messages: Vec<Messages>) -> (request: Self)
        ensures
            request.model@ == MODEL_NAME@,
            request.messages == messages,
            !request.stream,
    {
        ChatRequest { model: MODEL_NAME.to_string(), messages, stream: false }
    }
}

/// The reply of the model service to one chat request.
pub struct ModelResponse {
    pub model_name: String,
    pub created_at: String,
    pub message: Messages,
    pub done: bool,
    pub done_reason: String,
    pub total_duration: i64,
    pub load_duration: i64,
    pub prompt_eval_count: i64,
    pub prompt_eval_duration: i64,
    pub eval_count: i64,
    pub eval_duration: i64,
}

} // verus!
