//! What the chat loop does with a line the user typed.

use vstd::prelude::*;
use vstd::string::*;
use crate::client::Messages;
use crate::short_term_context_deq::ShortTermMemory;
use crate::window::{latest, slide, window_capacity};
use crate::dynamic_prompt::{system_text, task_view, DynamicPromptManager};

verus! {

broadcast use vstd::string::group_string_axioms;

/// Whether `c` is white space in the sense of `char::is_whitespace`: the
/// characters with the Unicode property White_Space.
pub open spec fn is_white_space(c: char) -> bool {
    ||| c == '\t' || c == '\n' || c == '\u{0B}' || c == '\u{0C}' || c == '\r' || c == ' '
    ||| c == '\u{85}' || c == '\u{A0}' || c == '\u{1680}'
    ||| ('\u{2000}' <= c && c <= '\u{200A}')
    ||| c == '\u{2028}' || c == '\u{2029}' || c == '\u{202F}' || c == '\u{205F}' || c == '\u{3000}'
}

/// `s` without its leading white space.
pub open spec fn trim_start_view(s: Seq<char>) -> Seq<char>
    decreases s.len(),
{
    if s.len() > 0 && is_white_space(s[0]) {
        trim_start_view(s.drop_first())
    } else {
        s
    }
}

/// `s` without its trailing white space.
pub open spec fn trim_end_view(s: Seq<char>) -> Seq<char>
    decreases s.len(),
{
    if s.len() > 0 && is_white_space(s.last()) {
        trim_end_view(s.drop_last())
    } else {
        s
    }
}

/// `s` without leading and trailing white space.
pub open spec fn trim_view(s: Seq<char>) -> Seq<char> {
    trim_end_view(trim_start_view(s))
}

/// The lower-case form of a text, as `str::to_lowercase` computes it (the
/// Unicode lower-case mapping, with the final-sigma rule).
pub uninterp spec fn lowercase_view(s: Seq<char>) -> Seq<char>;

/// Calls `str::trim`, which removes leading and trailing white space.
#[verifier::external_body]
fn trim(s: &str) -> (t: &str)
    ensures
        t@ == trim_view(s@),
{
    s.trim()
}

/// Calls `str::to_lowercase`; its result is named `lowercase_view`.
#[verifier::external_body]
fn to_lowercase(s: &str) -> (l: String)
    ensures
        l@ == lowercase_view(s@),
{
    s.to_lowercase()
}

/// What a line typed by the user asks for.
pub enum UserInput {
    /// Nothing but white space: ask again.
    Empty,
    /// The word that ends the conversation.
    Exit,
    /// A question for the model: the line without surrounding white space.
    Query(String),
}

/// The word that ends the conversation, compared in lower case.
pub const EXIT_WORD: &'static str = "sair";

/// What a line asks for, given the line without surrounding white space
/// (`trimmed`) and that in lower case (`lowered`).
pub fn classify_trimmed(trimmed: &str, lowered: &str) -> (input: UserInput)
    ensures
        trimmed@.len() == 0 ==> input is Empty,
        trimmed@.len() > 0 && lowered@ == EXIT_WORD@ ==> input is Exit,
        trimmed@.len() > 0 && lowered@ != EXIT_WORD@ ==> (input matches UserInput::Query(q) && q@
            == trimmed@),
{
    if trimmed.is_empty() {
        return UserInput::Empty;
    }
    let lowered = String::from_str(lowered);
    let exit = String::from_str(EXIT_WORD);
    if lowered == exit {
        UserInput::Exit
    } else {
        UserInput::Query(trimmed.to_string())
    }
}

/// What the line `line` asks for: nothing when it is only white space, the
/// end when it reads the exit word in any case, else the trimmed question.
pub fn classify_input(line: &str) -> (input: UserInput)
    ensures
        trim_view(line@).len() == 0 ==> input is Empty,
        trim_view(line@).len() > 0 && lowercase_view(trim_view(line@)) == EXIT_WORD@ ==> input is Exit,
        trim_view(line@).len() > 0 && lowercase_view(trim_view(line@)) != EXIT_WORD@ ==> (
        input matches UserInput::Query(q) && q@ == trim_view(line@)),
{
    let trimmed = trim(line);
    let lowered = to_lowercase(trimmed);
    classify_trimmed(trimmed, lowered.as_str())
}

/// `m` is a message of the user saying `content`.
pub open spec fn user_says(m: Messages, content: String) -> bool {
    m.role@ == "user"@ && m.content == content
}

/// `m` is a message of the model saying `content`.
pub open spec fn assistant_says(m: Messages, content: String) -> bool {
    m.role@ == "assistant"@ && m.content == content
}

/// Remembers one exchange after a request to the model: when a reply came
/// (`answer` is `Some`), the user's query and then the answer are stored, as
/// role "user" and role "assistant"; when none came, the memory stays as it
/// was.
pub fn record_exchange(memory: &mut ShortTermMemory, query: String, answer: Option<String>)
    ensures
        final(memory).max_nodes() == old(memory).max_nodes(),
        answer is None ==> final(memory)@ == old(memory)@ && final(memory).stored_since_clear()
            == old(memory).stored_since_clear(),
        answer matches Some(a) ==> exists|u: Messages, r: Messages|
            #![trigger user_says(u, query), assistant_says(r, a)]
            user_says(u, query) && assistant_says(r, a) && final(memory)@ == slide(
                slide(old(memory)@, u, old(memory).max_nodes()),
                r,
                old(memory).max_nodes(),
            ) && final(memory).stored_since_clear() == old(memory).stored_since_clear().push(
                u,
            ).push(r) && final(memory).holds_latest(),
{
    if let Some(a) = answer {
        let ghost ga = a;
        let u = Messages { role: String::from_str("user"), content: query };
        let r = Messages { role: String::from_str("assistant"), content: a };
        let ghost gu = u;
        let ghost gr = r;
        memory.store(u);
        memory.store(r);
        proof {
            assert(user_says(gu, query) && assistant_says(gr, ga));
        }
    }
}

/// One conversation: the short-term memory of the exchanges so far and the
/// persona and task that open every prompt.
pub struct ChatSession {
    memory: ShortTermMemory,
    prompts: DynamicPromptManager,
}

impl ChatSession {
    /// The memory holds the latest exchanges recorded.
    #[verifier::type_invariant]
    closed spec fn memory_holds_latest(&self) -> bool {
        self.memory.holds_latest()
    }

    /// Every message recorded so far, in order: for each request that got a
    /// reply, the user's query and then the reply.
    pub closed spec fn exchanges(&self) -> Seq<Messages> {
        self.memory.stored_since_clear()
    }

    /// How many of the latest recorded messages a prompt carries.
    pub closed spec fn window(&self) -> nat {
        window_capacity(self.memory.max_nodes())
    }

    /// The text of the system message of every prompt.
    pub closed spec fn system_message_text(&self) -> Seq<char> {
        system_text(self.prompts.system_base@, task_view(self.prompts.current_task))
    }

    /// A session that remembers at most `max_nodes` messages (at least one),
    /// with persona `persona` and task `task`, and nothing recorded yet.
    pub fn new(max_nodes: usize, persona: &str, task: &str) -> (session: Self)
        ensures
            session.exchanges() == Seq::<Messages>::empty(),
            session.window() == window_capacity(max_nodes as nat),
            session.system_message_text() == system_text(persona@, Some(task@)),
    {
        let memory = ShortTermMemory::new(max_nodes);
        let mut prompts = DynamicPromptManager::new(persona);
        prompts.set_task(task);
        ChatSession { memory, prompts }
    }

    /// The messages for a request with `query`: the system message, the
    /// latest `window()` messages recorded so far, and the query.
    pub fn prompt(&self, query: &str) -> (full: Vec<Messages>)
        ensures
            full@.len() == latest(self.exchanges(), self.window()).len() + 2,
            full@[0].role@ == "system"@,
            full@[0].content@ == self.system_message_text(),
            full@.subrange(1, full@.len() - 1) == latest(self.exchanges(), self.window()),
            full@.last().role@ == "user"@,
            full@.last().content@ == query@,
    {
        proof {
            use_type_invariant(self);
        }
        self.prompts.build_contextual_prompt(query, &self.memory)
    }

    /// Records the outcome of a request with `query`: the query and the
    /// answer when a reply came, nothing when none came.
    pub fn record(&mut self, query: String, answer: Option<String>)
        ensures
            final(self).window() == old(self).window(),
            final(self).system_message_text() == old(self).system_message_text(),
            answer is None ==> final(self).exchanges() == old(self).exchanges(),
            answer matches Some(a) ==> exists|u: Messages, r: Messages|
                #![trigger user_says(u, query), assistant_says(r, a)]
                user_says(u, query) && assistant_says(r, a) && final(self).exchanges()
                    == old(self).exchanges().push(u).push(r),
    {
        proof {
            use_type_invariant(&*self);
        }
        let mut taken = ChatSession::new(0, "", "");
        std::mem::swap(&mut taken, self);
        proof {
            use_type_invariant(&taken);
        }
        let ChatSession { memory, prompts } = taken;
        let mut memory = memory;
        record_exchange(&mut memory, query, answer);
        *self = ChatSession { memory, prompts };
    }

    /// The number of messages the memory holds.
    pub fn remembered(&self) -> (n: usize)
        ensures
            n == latest(self.exchanges(), self.window()).len(),
    {
        proof {
            use_type_invariant(self);
        }
        self.memory.len()
    }
}

} // verus!
