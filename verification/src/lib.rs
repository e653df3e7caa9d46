//! Conversation memory and prompt assembly for a chat agent that talks to a
//! local language-model service.

pub mod client;
pub mod clock;
pub mod dynamic_prompt;
pub mod run;
pub mod short_term_context;
pub mod short_term_context_deq;
pub mod short_term_context_treap;
pub mod utils;
pub mod window;
