//! Assembly of the message list sent to the model: a system message with the
//! persona and the current task, the remembered conversation, the new query.

use vstd::prelude::*;
use vstd::string::*;
use crate::client::Messages;
use crate::short_term_context;
use crate::short_term_context_deq;
use crate::short_term_context_treap;

verus! {

broadcast use vstd::string::group_string_axioms;

/// A memory that can hand out its messages in order.
pub trait MessageHistory {
    /// The messages, in the order the memory keeps them.
    spec fn history(&self) -> Seq<Messages>;

    /// A copy of the messages, in order.
    fn ordered_messages(&self) -> (history: Vec<Messages>)
        ensures
            history@ == self.history(),
    ;
}

impl MessageHistory for short_term_context_deq::ShortTermMemory {
    open spec fn history(&self) -> Seq<Messages> {
        self@
    }

    fn ordered_messages(&self) -> (history: Vec<Messages>) {
        self.get_ordered_history()
    }
}

impl MessageHistory for short_term_context_treap::ShortTermMemory {
    open spec fn history(&self) -> Seq<Messages> {
        self@
    }

    fn ordered_messages(&self) -> (history: Vec<Messages>) {
        self.get_ordered_history()
    }
}

impl MessageHistory for short_term_context::ShortTermMemory {
    open spec fn history(&self) -> Seq<Messages> {
        short_term_context::entry_messages(self@)
    }

    fn ordered_messages(&self) -> (history: Vec<Messages>) {
        self.get_ordered_history()
    }
}

/// The text of the system message: the persona, then the current task when
/// there is one.
pub open spec fn system_text(base: Seq<char>, task: Option<Seq<char>>) -> Seq<char> {
    "## PERSONA\n"@ + base + "\n"@ + match task {
        Some(t) => "## TAREFA ATUAL \n"@ + t + "\n"@,
        None => Seq::empty(),
    }
}

/// The deque memory hands the prompt its whole content, oldest first: the
/// latest messages stored since it was made or last cleared.
pub proof fn lemma_deque_history_is_whole(m: &short_term_context_deq::ShortTermMemory)
    ensures
        m.history() == m@,
        m.holds_latest() ==> m.history() == crate::window::latest(
            m.stored_since_clear(),
            crate::window::window_capacity(m.max_nodes()),
        ),
{
}

/// The treap memory hands the prompt its whole content, oldest first: the
/// latest messages stored since it was made or last cleared, as many as it
/// holds.
pub proof fn lemma_treap_history_is_whole(m: &short_term_context_treap::ShortTermMemory)
    ensures
        m.history() == m@,
        m.well_kept() ==> m.history() == crate::window::latest(
            m.stored_since_clear(),
            crate::window::window_capacity(m.max_nodes()),
        ),
{
}

/// The search-tree memory hands the prompt the messages of all its entries,
/// in key order.
pub proof fn lemma_tree_history_is_whole(m: &short_term_context::ShortTermMemory)
    ensures
        m.history() == short_term_context::entry_messages(m@),
        m.history().len() == m@.len(),
{
}

/// The system text starts with the persona block, then carries the whole task
/// text, untouched, right after the task heading, and ends with a line break.
pub proof fn lemma_system_text_carries_task(base: Seq<char>, task: Seq<char>)
    ensures
        system_text(base, Some(task)).len() == 11 + base.len() + 1 + 17 + task.len() + 1,
        system_text(base, Some(task)).subrange(0, 12int + base.len()) == system_text(base, None),
        system_text(base, Some(task)).subrange(29int + base.len(), 29int + base.len() + task.len()) == task,
        system_text(base, Some(task)).last() == '\n',
        system_text(base, None).subrange(11, 11int + base.len()) == base,
{
    reveal_strlit("## PERSONA\n");
    reveal_strlit("\n");
    reveal_strlit("## TAREFA ATUAL \n");
    let p = "## PERSONA\n"@ + base + "\n"@;
    let t = system_text(base, Some(task));
    assert(system_text(base, None) =~= p);
    assert(t =~= p + ("## TAREFA ATUAL \n"@ + task + "\n"@));
    assert(t.subrange(0, p.len() as int) =~= p);
    assert(t.subrange(p.len() + 17int, p.len() + 17int + task.len()) =~= task);
    assert(p.subrange(11, 11int + base.len()) =~= base);
}

/// The views of an optional task text.
pub open spec fn task_view(task: Option<String>) -> Option<Seq<char>> {
    match task {
        Some(t) => Some(t@),
        None => None,
    }
}

/// Builds prompts from a fixed persona and a task that may change.
pub struct DynamicPromptManager {
    pub system_base: String,
    pub current_task: Option<String>,
}

impl DynamicPromptManager {
    /// A manager with the persona `role_description` and no task.
    pub fn new(role_description: &str) -> (manager: Self)
        ensures
            manager.system_base@ == role_description@,
            manager.current_task.is_none(),
    {
        Self { system_base: role_description.to_string(), current_task: None }
    }

    /// Sets the current task to `task_description`.
    pub fn set_task(&mut self, task_description: &str)
        ensures
            final(self).system_base == old(self).system_base,
            final(self).current_task matches Some(t) && t@ == task_description@,
    {
        self.current_task = Some(task_description.to_string());
    }

    /// The messages for one request: a system message with the persona and the
    /// current task, the remembered history in order, and the user's query.
    pub fn build_contextual_prompt<M: MessageHistory>(&self, user_query: &str, memory: &M) -> (full: Vec<
        Messages,
    >)
        ensures
            full@.len() == memory.history().len() + 2,
            full@[0].role@ == "system"@,
            full@[0].content@ == system_text(self.system_base@, task_view(self.current_task)),
            full@[0].content@ == "## PERSONA\n"@ + self.system_base@ + "\n"@ + match self.current_task {
                Some(t) => "## TAREFA ATUAL \n"@ + t@ + "\n"@,
                None => Seq::<char>::empty(),
            },
            full@.subrange(1, full@.len() - 1) == memory.history(),
            full@.last().role@ == "user"@,
            full@.last().content@ == user_query@,
    {
        let mut full_messages: Vec<Messages> = Vec::new();

        let mut system_content = String::from_str("## PERSONA\n");
        system_content.append(self.system_base.as_str());
        system_content.append("\n");
        if let Some(task) = &self.current_task {
            system_content.append("## TAREFA ATUAL \n");
            system_content.append(task.as_str());
            system_content.append("\n");
        }
        proof {
            assert(system_content@ =~= system_text(self.system_base@, task_view(self.current_task)));
        }

        full_messages.push(Messages { role: String::from_str("system"), content: system_content });

        let history = memory.ordered_messages();
        let ghost h = history@;
        for msg in it: history
            invariant
                full_messages@.len() == 1 + it.index(),
                full_messages@[0].role@ == "system"@,
                full_messages@[0].content@ == system_text(self.system_base@, task_view(self.current_task)),
                it.seq() == h,
                forall|j: int| 0 <= j < it.index() ==> #[trigger] full_messages@[j + 1] == h[j],
        {
            full_messages.push(msg);
        }

        full_messages.push(Messages { role: String::from_str("user"), content: user_query.to_string() });

        proof {
            assert(full_messages@.subrange(1, full_messages@.len() - 1) =~= h);
        }
        full_messages
    }
}

} // verus!
