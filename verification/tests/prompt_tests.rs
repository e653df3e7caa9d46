use llm_service::client::{ChatRequest, Messages, CHAT_URL, MODEL_NAME};
use llm_service::dynamic_prompt::DynamicPromptManager;
use llm_service::run::{classify_input, classify_trimmed, record_exchange, ChatSession, UserInput};
use llm_service::short_term_context::{MemorySortStrategy, ShortTermMemory as TreeMemory};
use llm_service::short_term_context_deq::ShortTermMemory as DequeMemory;
use llm_service::utils::measure_execution;

fn msg(role: &str, content: &str) -> Messages {
    Messages { role: role.to_string(), content: content.to_string() }
}

#[test]
fn prompt_without_task() {
    let manager = DynamicPromptManager::new("Senior engineer.");
    assert!(manager.current_task.is_none());
    let memory = DequeMemory::new(5);
    let prompt = manager.build_contextual_prompt("What is Rust?", &memory);
    assert_eq!(prompt.len(), 2);
    assert_eq!(prompt[0].role, "system");
    assert_eq!(prompt[0].content, "## PERSONA\nSenior engineer.\n");
    assert_eq!(prompt[1].role, "user");
    assert_eq!(prompt[1].content, "What is Rust?");
}

#[test]
fn prompt_with_task_and_history() {
    let mut manager = DynamicPromptManager::new("Persona");
    manager.set_task("Explain code.");
    assert_eq!(manager.current_task.as_deref(), Some("Explain code."));
    let mut memory = DequeMemory::new(20);
    memory.store(msg("user", "q1"));
    memory.store(msg("assistant", "a1"));
    let prompt = manager.build_contextual_prompt("q2", &memory);
    assert_eq!(prompt.len(), 4);
    assert_eq!(prompt[0].content, "## PERSONA\nPersona\n## TAREFA ATUAL \nExplain code.\n");
    assert_eq!(prompt[1].role, "user");
    assert_eq!(prompt[1].content, "q1");
    assert_eq!(prompt[2].role, "assistant");
    assert_eq!(prompt[2].content, "a1");
    assert_eq!(prompt[3].role, "user");
    assert_eq!(prompt[3].content, "q2");
}

#[test]
fn prompt_from_tree_memory() {
    let manager = DynamicPromptManager::new("P");
    let mut memory = TreeMemory::new(4, Some(MemorySortStrategy::Score));
    memory.store_at(msg("user", "high"), Some(9), 0);
    memory.store_at(msg("user", "low"), Some(1), 0);
    let prompt = manager.build_contextual_prompt("now", &memory);
    assert_eq!(prompt.len(), 4);
    assert_eq!(prompt[1].content, "low");
    assert_eq!(prompt[2].content, "high");
}

#[test]
fn set_task_replaces_the_task() {
    let mut manager = DynamicPromptManager::new("P");
    manager.set_task("one");
    manager.set_task("two");
    assert_eq!(manager.system_base, "P");
    assert_eq!(manager.current_task.as_deref(), Some("two"));
}

#[test]
fn chat_request_for_messages() {
    let request = ChatRequest::new(vec![msg("user", "hi")]);
    assert_eq!(request.model, "codegemma:7b-instruct");
    assert_eq!(request.model, MODEL_NAME);
    assert!(!request.stream);
    assert_eq!(request.messages.len(), 1);
    assert_eq!(request.messages[0].content, "hi");
    assert_eq!(CHAT_URL, "http://localhost:11434/api/chat");
}

#[test]
fn message_duplicate_copies_fields() {
    let m = msg("assistant", "text");
    let d = m.duplicate();
    assert_eq!(d.role, "assistant");
    assert_eq!(d.content, "text");
}

#[test]
fn classify_lines() {
    assert!(matches!(classify_input("   \n"), UserInput::Empty));
    assert!(matches!(classify_input(""), UserInput::Empty));
    assert!(matches!(classify_input("sair\n"), UserInput::Exit));
    assert!(matches!(classify_input("  SAIR  "), UserInput::Exit));
    assert!(matches!(classify_input("Sair\r\n"), UserInput::Exit));
    match classify_input("  What is a treap?\n") {
        UserInput::Query(q) => assert_eq!(q, "What is a treap?"),
        _ => panic!("expected a query"),
    }
    match classify_input("sair agora") {
        UserInput::Query(q) => assert_eq!(q, "sair agora"),
        _ => panic!("expected a query"),
    }
}

#[test]
fn classify_trimmed_uses_lowered_form() {
    assert!(matches!(classify_trimmed("", ""), UserInput::Empty));
    assert!(matches!(classify_trimmed("SAIR", "sair"), UserInput::Exit));
    match classify_trimmed("SAIR", "SAIR") {
        UserInput::Query(q) => assert_eq!(q, "SAIR"),
        _ => panic!("expected a query"),
    }
}

#[test]
fn measure_execution_returns_result() {
    let (value, _elapsed) = measure_execution(|| 6 * 7);
    assert_eq!(value, 42);
    let memory = DequeMemory::new(3);
    let manager = DynamicPromptManager::new("P");
    let (prompt, _elapsed) = measure_execution(|| manager.build_contextual_prompt("q", &memory));
    assert_eq!(prompt.len(), 2);
}

#[test]
fn record_exchange_stores_query_then_answer() {
    let mut memory = DequeMemory::new(3);
    record_exchange(&mut memory, "q1".to_string(), Some("a1".to_string()));
    record_exchange(&mut memory, "q2".to_string(), None);
    record_exchange(&mut memory, "q3".to_string(), Some("a3".to_string()));
    let history = memory.get_ordered_history();
    let pairs: Vec<(String, String)> = history.iter().map(|m| (m.role.clone(), m.content.clone())).collect();
    assert_eq!(
        pairs,
        vec![
            ("assistant".to_string(), "a1".to_string()),
            ("user".to_string(), "q3".to_string()),
            ("assistant".to_string(), "a3".to_string()),
        ]
    );
}

#[test]
fn chat_session_prompts_carry_latest_exchanges() {
    let mut session = ChatSession::new(3, "P", "T");
    let first = session.prompt("q1");
    assert_eq!(first.len(), 2);
    assert_eq!(first[0].content, "## PERSONA\nP\n## TAREFA ATUAL \nT\n");
    assert_eq!(first[1].content, "q1");
    session.record("q1".to_string(), Some("a1".to_string()));
    session.record("q2".to_string(), None);
    session.record("q3".to_string(), Some("a3".to_string()));
    assert_eq!(session.remembered(), 3);
    let prompt = session.prompt("q4");
    let got: Vec<(String, String)> = prompt.iter().map(|m| (m.role.clone(), m.content.clone())).collect();
    assert_eq!(
        got,
        vec![
            ("system".to_string(), "## PERSONA\nP\n## TAREFA ATUAL \nT\n".to_string()),
            ("assistant".to_string(), "a1".to_string()),
            ("user".to_string(), "q3".to_string()),
            ("assistant".to_string(), "a3".to_string()),
            ("user".to_string(), "q4".to_string()),
        ]
    );
}
