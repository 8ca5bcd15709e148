use wisp::chat::{Chat, ChatError, ThreadTreeItem};
use wisp::conversations::ConversationError;
use wisp::types::{MessageError, MessageRole};

fn chat_with_conversation() -> Chat {
    let mut chat = Chat::new();
    chat.create_conversation("c1", "First", "a test conversation").unwrap();
    chat
}

fn item<'a>(items: &'a [ThreadTreeItem], key: &str) -> &'a ThreadTreeItem {
    items.iter().find(|i| i.key == key).expect("item present")
}

fn sorted(mut v: Vec<String>) -> Vec<String> {
    v.sort();
    v
}

fn entry(chat: &Chat, conv: &str) -> Option<String> {
    chat.get_conversation(conv).unwrap().entry_message_id
}

#[test]
fn empty_conversation_reads_empty() {
    let chat = chat_with_conversation();
    assert_eq!(chat.get_thread_tree("c1").unwrap().len(), 0);
    assert_eq!(chat.get_all_message_involved("c1").unwrap().len(), 0);
}

#[test]
fn missing_conversation_is_not_found() {
    let chat = Chat::new();
    assert!(matches!(
        chat.get_thread_tree("nope"),
        Err(ChatError::Conversation(ConversationError::NotFound(_)))
    ));
    assert!(matches!(
        chat.get_all_message_involved("nope"),
        Err(ChatError::Conversation(ConversationError::NotFound(_)))
    ));
}

#[test]
fn duplicate_conversation_is_refused() {
    let mut chat = chat_with_conversation();
    assert!(matches!(
        chat.create_conversation("c1", "Again", ""),
        Err(ChatError::Conversation(ConversationError::AlreadyExists(_)))
    ));
}

#[test]
fn new_root_replaces_entry() {
    let mut chat = chat_with_conversation();
    chat.add_message("c1", "a", "hello", None, "user", None, 10).unwrap();
    chat.add_message("c1", "b", "reply", None, "bot", Some("a"), 11).unwrap();
    assert_eq!(entry(&chat, "c1"), Some("a".to_string()));
    chat.add_message("c1", "r2", "fresh start", None, "user", None, 12).unwrap();
    assert_eq!(entry(&chat, "c1"), Some("r2".to_string()));
    let ids: Vec<String> = chat.get_all_message_involved("c1").unwrap().into_iter().map(|m| m.id).collect();
    assert_eq!(ids, vec!["r2".to_string()]);
    // The old tree is unreachable but still stored.
    assert_eq!(chat.get_message("a").unwrap().text, "hello");
}

#[test]
fn add_message_errors() {
    let mut chat = chat_with_conversation();
    chat.add_message("c1", "a", "hello", None, "user", None, 1).unwrap();
    assert!(matches!(
        chat.add_message("c1", "a", "again", None, "user", None, 2),
        Err(ChatError::Message(MessageError::AlreadyExists(_)))
    ));
    assert!(matches!(
        chat.add_message("c1", "b", "orphan", None, "user", Some("ghost"), 2),
        Err(ChatError::Message(MessageError::NotFound(_)))
    ));
    assert!(matches!(
        chat.add_message("nope", "c", "root", None, "user", None, 2),
        Err(ChatError::Conversation(ConversationError::NotFound(_)))
    ));
    assert!(matches!(chat.get_message("b"), Err(ChatError::Message(MessageError::NotFound(_)))));
    assert!(matches!(chat.get_message("c"), Err(ChatError::Message(MessageError::NotFound(_)))));
    assert_eq!(chat.get_all_message_involved("c1").unwrap().len(), 1);
}

#[test]
fn delete_only_root_clears_entry() {
    let mut chat = chat_with_conversation();
    chat.add_message("c1", "a", "only", None, "user", None, 1).unwrap();
    assert_eq!(chat.delete_message("a", false).unwrap(), None);
    assert_eq!(entry(&chat, "c1"), None);
    assert!(chat.get_thread_tree("c1").unwrap().is_empty());
    assert!(matches!(chat.get_message("a"), Err(ChatError::Message(MessageError::NotFound(_)))));
}

#[test]
fn delete_middle_splices_children() {
    let mut chat = chat_with_conversation();
    chat.add_message("c1", "A", "a", None, "user", None, 1).unwrap();
    chat.add_message("c1", "B", "b", None, "bot", Some("A"), 2).unwrap();
    chat.add_message("c1", "C", "c", None, "user", Some("B"), 3).unwrap();
    assert_eq!(chat.delete_message("B", false).unwrap(), Some("A".to_string()));
    let tree = chat.get_thread_tree("c1").unwrap();
    assert_eq!(tree.len(), 2);
    assert_eq!(item(&tree, "C").parent, Some("A".to_string()));
    assert_eq!(item(&tree, "A").children, vec!["C".to_string()]);
    assert_eq!(entry(&chat, "c1"), Some("A".to_string()));
}

#[test]
fn delete_root_with_two_children_refused() {
    let mut chat = chat_with_conversation();
    chat.add_message("c1", "A", "a", None, "user", None, 1).unwrap();
    chat.add_message("c1", "B", "b", None, "bot", Some("A"), 2).unwrap();
    chat.add_message("c1", "C", "c", None, "bot", Some("A"), 3).unwrap();
    assert!(matches!(
        chat.delete_message("A", false),
        Err(ChatError::Conversation(ConversationError::InvalidOperation(_)))
    ));
    let tree = chat.get_thread_tree("c1").unwrap();
    assert_eq!(tree.len(), 3);
    assert_eq!(sorted(item(&tree, "A").children.clone()), vec!["B".to_string(), "C".to_string()]);
    assert_eq!(entry(&chat, "c1"), Some("A".to_string()));
}

#[test]
fn delete_root_with_one_child_promotes_it() {
    let mut chat = chat_with_conversation();
    chat.add_message("c1", "A", "a", None, "user", None, 1).unwrap();
    chat.add_message("c1", "B", "b", None, "bot", Some("A"), 2).unwrap();
    chat.add_message("c1", "C", "c", None, "user", Some("B"), 3).unwrap();
    assert_eq!(chat.delete_message("A", false).unwrap(), None);
    assert_eq!(entry(&chat, "c1"), Some("B".to_string()));
    let tree = chat.get_thread_tree("c1").unwrap();
    assert_eq!(tree.len(), 2);
    assert_eq!(item(&tree, "B").parent, None);
    assert_eq!(item(&tree, "C").parent, Some("B".to_string()));
}

#[test]
fn delete_unowned_root_is_refused() {
    let mut chat = chat_with_conversation();
    chat.add_message("c1", "A", "a", None, "user", None, 1).unwrap();
    chat.add_message("c1", "R", "r", None, "user", None, 2).unwrap();
    assert!(matches!(
        chat.delete_message("A", false),
        Err(ChatError::Conversation(ConversationError::NotFound(_)))
    ));
    assert!(chat.get_message("A").is_ok());
}

#[test]
fn delete_missing_message_is_not_found() {
    let mut chat = chat_with_conversation();
    assert!(matches!(
        chat.delete_message("nope", true),
        Err(ChatError::Message(MessageError::NotFound(_)))
    ));
}

#[test]
fn recursive_delete_removes_branch() {
    let mut chat = chat_with_conversation();
    chat.add_message("c1", "A", "a", None, "user", None, 1).unwrap();
    chat.add_message("c1", "B", "b", None, "bot", Some("A"), 2).unwrap();
    chat.add_message("c1", "C", "c", None, "user", Some("B"), 3).unwrap();
    chat.add_message("c1", "D", "d", None, "user", Some("B"), 4).unwrap();
    assert_eq!(chat.delete_message("B", true).unwrap(), None);
    let all = chat.get_all_message_involved("c1").unwrap();
    assert_eq!(all.len(), 1);
    assert_eq!(all[0].id, "A");
    for gone in ["B", "C", "D"] {
        assert!(matches!(chat.get_message(gone), Err(ChatError::Message(MessageError::NotFound(_)))));
    }
    assert_eq!(entry(&chat, "c1"), Some("A".to_string()));
    assert!(item(&chat.get_thread_tree("c1").unwrap(), "A").children.is_empty());
}

#[test]
fn recursive_delete_of_root_clears_entry() {
    let mut chat = chat_with_conversation();
    chat.add_message("c1", "A", "a", None, "user", None, 1).unwrap();
    chat.add_message("c1", "B", "b", None, "bot", Some("A"), 2).unwrap();
    chat.add_message("c1", "C", "c", None, "bot", Some("A"), 3).unwrap();
    assert_eq!(chat.delete_message("A", true).unwrap(), None);
    assert_eq!(entry(&chat, "c1"), None);
    assert!(chat.get_all_message_involved("c1").unwrap().is_empty());
    assert!(chat.get_message("C").is_err());
}

#[test]
fn add_then_get_round_trip() {
    let mut chat = chat_with_conversation();
    chat.add_message("c1", "m", "question", Some("thinking"), "bot", None, 42).unwrap();
    let m = chat.get_message("m").unwrap();
    assert_eq!(m.id, "m");
    assert_eq!(m.text, "question");
    assert_eq!(m.reasoning, Some("thinking".to_string()));
    assert_eq!(m.sender, MessageRole::Assistant);
    assert_eq!(m.timestamp, 42);
}

#[test]
fn update_text_keeps_other_fields() {
    let mut chat = chat_with_conversation();
    chat.add_message("c1", "m", "first", Some("why"), "system", None, 7).unwrap();
    chat.update_message("m", "second").unwrap();
    let m = chat.get_message("m").unwrap();
    assert_eq!(m.text, "second");
    assert_eq!(m.sender, MessageRole::System);
    assert_eq!(m.timestamp, 7);
    assert_eq!(m.reasoning, Some("why".to_string()));
    chat.update_reasoning("m", "because").unwrap();
    assert_eq!(chat.get_message("m").unwrap().reasoning, Some("because".to_string()));
}

#[test]
fn unknown_sender_reads_as_invalid_role() {
    let mut chat = chat_with_conversation();
    chat.add_message("c1", "m", "text", None, "robot", None, 1).unwrap();
    assert!(matches!(chat.get_message("m"), Err(ChatError::Message(MessageError::InvalidRole(_)))));
    assert!(matches!(
        chat.get_all_message_involved("c1"),
        Err(ChatError::Message(MessageError::InvalidRole(_)))
    ));
    assert_eq!(chat.get_thread_tree("c1").unwrap().len(), 1);
}

#[test]
fn thread_tree_of_four() {
    let mut chat = chat_with_conversation();
    chat.add_message("c1", "R", "root", None, "user", None, 1).unwrap();
    chat.add_message("c1", "X", "x", None, "bot", Some("R"), 2).unwrap();
    chat.add_message("c1", "Y", "y", None, "bot", Some("R"), 3).unwrap();
    chat.add_message("c1", "Z", "z", None, "user", Some("X"), 4).unwrap();
    let tree = chat.get_thread_tree("c1").unwrap();
    assert_eq!(tree.len(), 4);
    assert_eq!(tree[0].key, "R");
    assert_eq!(item(&tree, "R").parent, None);
    assert_eq!(sorted(item(&tree, "R").children.clone()), vec!["X".to_string(), "Y".to_string()]);
    assert_eq!(item(&tree, "X").parent, Some("R".to_string()));
    assert_eq!(item(&tree, "X").children, vec!["Z".to_string()]);
    assert_eq!(item(&tree, "Y").parent, Some("R".to_string()));
    assert!(item(&tree, "Y").children.is_empty());
    assert_eq!(item(&tree, "Z").parent, Some("X".to_string()));
    assert!(item(&tree, "Z").children.is_empty());
    for (i, it) in tree.iter().enumerate() {
        for child in &it.children {
            let hits: Vec<usize> = tree.iter().enumerate().filter(|(_, t)| &t.key == child).map(|(k, _)| k).collect();
            assert_eq!(hits.len(), 1);
            assert_ne!(hits[0], i);
        }
    }
    let all = chat.get_all_message_involved("c1").unwrap();
    assert_eq!(all.len(), 4);
    assert_eq!(all[0].id, "R");
}

#[test]
fn delete_conversation_removes_its_tree() {
    let mut chat = chat_with_conversation();
    chat.create_conversation("c2", "Second", "").unwrap();
    chat.add_message("c1", "A", "a", None, "user", None, 1).unwrap();
    chat.add_message("c1", "B", "b", None, "bot", Some("A"), 2).unwrap();
    chat.add_message("c2", "K", "k", None, "user", None, 3).unwrap();
    chat.delete_conversation("c1").unwrap();
    assert!(chat.get_conversation("c1").is_none());
    assert!(chat.get_message("A").is_err());
    assert!(chat.get_message("B").is_err());
    assert!(chat.get_message("K").is_ok());
    chat.delete_conversation("c1").unwrap();
}

#[test]
fn conversations_listed_by_name() {
    let mut chat = Chat::new();
    chat.create_conversation("1", "delta", "").unwrap();
    chat.create_conversation("2", "alpha", "").unwrap();
    chat.create_conversation("3", "charlie", "").unwrap();
    chat.update_conversation_name("1", "bravo");
    let names: Vec<String> = chat.list_conversations().unwrap().into_iter().map(|c| c.name).collect();
    assert_eq!(names, vec!["alpha", "bravo", "charlie"]);
    chat.update_conversation_description("3", "third");
    assert_eq!(chat.get_conversation("3").unwrap().description, Some("third".to_string()));
}

#[test]
fn entry_can_be_pointed_elsewhere() {
    let mut chat = chat_with_conversation();
    chat.add_message("c1", "A", "a", None, "user", None, 1).unwrap();
    chat.add_message("c1", "B", "b", None, "bot", Some("A"), 2).unwrap();
    chat.update_conversation_entry_id("c1", Some("B"));
    let tree = chat.get_thread_tree("c1").unwrap();
    assert_eq!(tree.len(), 1);
    assert_eq!(tree[0].key, "B");
    assert_eq!(tree[0].parent, Some("A".to_string()));
}
