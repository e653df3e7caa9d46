use llm_service::client::Messages;
use llm_service::short_term_context::{MemoryNode, MemorySortStrategy, ShortTermMemory as TreeMemory, NEUTRAL_SCORE};
use llm_service::short_term_context_deq::ShortTermMemory as DequeMemory;
use llm_service::short_term_context_treap::{rand_u32, ShortTermMemory as TreapMemory};

fn msg(role: &str, content: &str) -> Messages {
    Messages { role: role.to_string(), content: content.to_string() }
}

fn contents(history: &[Messages]) -> Vec<String> {
    history.iter().map(|m| m.content.clone()).collect()
}

#[test]
fn deque_keeps_latest_window() {
    let mut memory = DequeMemory::new(3);
    for i in 0..5 {
        memory.store(msg("user", &format!("m{}", i)));
    }
    assert_eq!(contents(&memory.get_ordered_history()), vec!["m2", "m3", "m4"]);
    assert_eq!(memory.len(), 3);
    assert!(!memory.is_empty());
}

#[test]
fn deque_below_capacity_keeps_everything_in_order() {
    let mut memory = DequeMemory::new(20);
    memory.store(msg("user", "hello"));
    memory.store(msg("assistant", "hi there"));
    let history = memory.get_ordered_history();
    assert_eq!(history.len(), 2);
    assert_eq!(history[0].role, "user");
    assert_eq!(history[0].content, "hello");
    assert_eq!(history[1].role, "assistant");
    assert_eq!(history[1].content, "hi there");
}

#[test]
fn deque_with_zero_limit_keeps_the_last_message() {
    let mut memory = DequeMemory::new(0);
    assert!(memory.is_empty());
    memory.store(msg("user", "a"));
    memory.store(msg("user", "b"));
    assert_eq!(contents(&memory.get_ordered_history()), vec!["b"]);
}

#[test]
fn deque_clear_forgets_and_keeps_limit() {
    let mut memory = DequeMemory::new(2);
    memory.store(msg("user", "a"));
    memory.store(msg("user", "b"));
    memory.clear();
    assert!(memory.is_empty());
    assert_eq!(memory.len(), 0);
    memory.store(msg("user", "c"));
    memory.store(msg("user", "d"));
    memory.store(msg("user", "e"));
    assert_eq!(contents(&memory.get_ordered_history()), vec!["d", "e"]);
}

#[test]
fn treap_keeps_latest_window_in_order() {
    let mut memory = TreapMemory::new(4);
    for i in 0..10 {
        memory.store(msg("user", &format!("m{}", i)));
    }
    assert_eq!(contents(&memory.get_ordered_history()), vec!["m6", "m7", "m8", "m9"]);
    assert_eq!(memory.len(), 4);
    assert!(memory.tree_height() >= 3 && memory.tree_height() <= 4);
    assert!(!memory.is_empty());
}

#[test]
fn treap_matches_deque_on_the_same_messages() {
    let mut treap = TreapMemory::new(7);
    let mut deque = DequeMemory::new(7);
    for i in 0..50 {
        treap.store(msg(if i % 2 == 0 { "user" } else { "assistant" }, &format!("t{}", i)));
        deque.store(msg(if i % 2 == 0 { "user" } else { "assistant" }, &format!("t{}", i)));
        assert_eq!(contents(&treap.get_ordered_history()), contents(&deque.get_ordered_history()));
    }
}

#[test]
fn treap_empty_and_clear() {
    let mut memory = TreapMemory::new(5);
    assert!(memory.is_empty());
    assert_eq!(memory.tree_height(), 0);
    memory.store(msg("user", "x"));
    assert_eq!(memory.tree_height(), 1);
    assert_eq!(memory.len(), 1);
    memory.clear();
    assert!(memory.is_empty());
    assert!(memory.get_ordered_history().is_empty());
}

#[test]
fn treap_height_stays_within_size() {
    let mut memory = TreapMemory::new(1000);
    for i in 0..300 {
        memory.store(msg("user", &format!("{}", i)));
    }
    assert_eq!(memory.len(), 300);
    let h = memory.tree_height();
    assert!(h >= 9 && h <= 300);
    let history = memory.get_ordered_history();
    for (i, m) in history.iter().enumerate() {
        assert_eq!(m.content, format!("{}", i));
    }
}

#[test]
fn xorshift_generator_values() {
    let mut state: u32 = 0;
    assert_eq!(rand_u32(&mut state, 0), 723471715);
    assert_eq!(state, 723471715);
    assert_eq!(rand_u32(&mut state, 0), 2497366906);
    let mut fresh: u32 = 0;
    assert_eq!(rand_u32(&mut fresh, 12345), 706168231);
    let mut seven: u32 = 7;
    assert_eq!(rand_u32(&mut seven, 1), 1622214);
}

#[test]
fn memory_node_stamp_and_default_score() {
    let node = MemoryNode::new(msg("user", "a"), None, 0b1100, 0b1010);
    assert_eq!(node.timestamp, 0b1100);
    assert_eq!(node.order, 0b1010);
    assert_eq!(node.score, NEUTRAL_SCORE);
    assert!(node.left.is_none() && node.right.is_none());
    assert_eq!(node.get_key(MemorySortStrategy::TimeStamp), 0b1100);
    assert_eq!(node.get_key(MemorySortStrategy::Score), 0x8000_0000);
    let scored = MemoryNode::new(msg("user", "b"), Some(42), 5, 0);
    assert_eq!(scored.get_key(MemorySortStrategy::Score), 42);
    assert_eq!(scored.get_key(MemorySortStrategy::TimeStamp), 5);
}

#[test]
fn tree_orders_by_score_and_drops_least() {
    let mut memory = TreeMemory::new(3, Some(MemorySortStrategy::Score));
    memory.store_at(msg("user", "ten"), Some(10), 100);
    memory.store_at(msg("user", "five"), Some(5), 200);
    memory.store_at(msg("user", "neutral"), None, 300);
    assert_eq!(contents(&memory.get_ordered_history()), vec!["five", "ten", "neutral"]);
    memory.store_at(msg("user", "seven"), Some(7), 400);
    assert_eq!(contents(&memory.get_ordered_history()), vec!["seven", "ten", "neutral"]);
}

#[test]
fn tree_orders_by_time_stamp() {
    let mut memory = TreeMemory::new(10, None);
    memory.store_at(msg("user", "late"), None, 1000);
    memory.store_at(msg("user", "early"), None, 100);
    memory.store_at(msg("user", "middle"), None, 500);
    assert_eq!(contents(&memory.get_ordered_history()), vec!["early", "middle", "late"]);
}

#[test]
fn tree_equal_keys_keep_arrival_order() {
    let mut memory = TreeMemory::new(10, Some(MemorySortStrategy::Score));
    memory.store_at(msg("user", "first"), Some(3), 0);
    memory.store_at(msg("user", "second"), Some(3), 0);
    memory.store_at(msg("user", "third"), Some(3), 0);
    assert_eq!(contents(&memory.get_ordered_history()), vec!["first", "second", "third"]);
}

#[test]
fn tree_with_clock_keeps_window() {
    let mut memory = TreeMemory::new(2, None);
    memory.store(msg("user", "a"), None);
    memory.store(msg("user", "b"), Some(1));
    memory.store(msg("user", "c"), None);
    assert_eq!(memory.get_ordered_history().len(), 2);
}

#[test]
fn insert_recursive_places_by_key() {
    let mut root = Box::new(MemoryNode::new(msg("user", "m"), Some(50), 0, 5));
    TreeMemory::insert_recursive(&mut root, Box::new(MemoryNode::new(msg("user", "l"), Some(20), 0, 6)), MemorySortStrategy::Score);
    TreeMemory::insert_recursive(&mut root, Box::new(MemoryNode::new(msg("user", "r"), Some(80), 0, 7)), MemorySortStrategy::Score);
    TreeMemory::insert_recursive(&mut root, Box::new(MemoryNode::new(msg("user", "e"), Some(50), 0, 8)), MemorySortStrategy::Score);
    TreeMemory::insert_recursive(&mut root, Box::new(MemoryNode::new(msg("user", "t"), Some(50), 0, 1)), MemorySortStrategy::Score);
    let left = root.left.as_ref().unwrap();
    assert_eq!(left.message.content, "l");
    assert!(left.left.is_none() && left.right.is_none());
    let right = root.right.as_ref().unwrap();
    assert_eq!(right.message.content, "r");
    let equal = right.left.as_ref().unwrap();
    assert_eq!(equal.message.content, "e");
    assert_eq!(equal.right.as_ref().unwrap().message.content, "t");
    assert!(right.right.is_none());
}

#[test]
fn same_nanosecond_keeps_arrival_order() {
    let mut memory = TreeMemory::new(10, None);
    memory.store_at(msg("user", "first"), None, 3);
    memory.store_at(msg("user", "second"), None, 3);
    memory.store_at(msg("user", "earlier clock"), None, 2);
    memory.store_at(msg("user", "third"), None, 3);
    assert_eq!(
        contents(&memory.get_ordered_history()),
        vec!["earlier clock", "first", "second", "third"]
    );
}

#[test]
fn remove_least_keeps_right_subtree_in_place() {
    let mut memory = TreeMemory::new(3, Some(MemorySortStrategy::Score));
    memory.store_at(msg("user", "mid"), Some(5), 0);
    memory.store_at(msg("user", "low"), Some(1), 0);
    memory.store_at(msg("user", "lowish"), Some(2), 0);
    memory.store_at(msg("user", "high"), Some(9), 0);
    assert_eq!(contents(&memory.get_ordered_history()), vec!["lowish", "mid", "high"]);
}

#[test]
fn storing_keeps_the_new_message_last() {
    let mut memory = DequeMemory::new(2);
    memory.store(msg("user", "a"));
    memory.store(msg("user", "b"));
    memory.store(msg("assistant", "c"));
    let history = memory.get_ordered_history();
    assert_eq!(history.last().unwrap().content, "c");
    assert_eq!(history.last().unwrap().role, "assistant");
    assert_eq!(history[0].content, "b");
}

#[test]
fn treap_clear_then_store_holds_only_the_new_message() {
    let mut memory = TreapMemory::new(3);
    memory.store(msg("user", "a"));
    memory.store(msg("user", "b"));
    memory.clear();
    memory.store(msg("user", "c"));
    assert_eq!(contents(&memory.get_ordered_history()), vec!["c"]);
    assert_eq!(memory.len(), 1);
}

#[test]
fn treap_and_deque_agree_with_clears() {
    let mut treap = TreapMemory::new(4);
    let mut deque = DequeMemory::new(4);
    for i in 0..30 {
        if i % 11 == 10 {
            treap.clear();
            deque.clear();
        } else {
            treap.store(msg("user", &format!("c{}", i)));
            deque.store(msg("user", &format!("c{}", i)));
        }
        assert_eq!(contents(&treap.get_ordered_history()), contents(&deque.get_ordered_history()));
        assert_eq!(treap.len(), deque.len());
        assert_eq!(treap.is_empty(), deque.is_empty());
    }
}
