use wisp::conversations::{ConversationError, Conversations};
use wisp::messages::Messages;
use wisp::threads::{ThreadError, Threads};
use wisp::types::{MessageError, MessageRole};

#[test]
fn messages_listed_newest_first() {
    let mut m = Messages::new();
    m.add("a", "one", None, "user", None, None, 10).unwrap();
    m.add("b", "two", None, "bot", Some(5), Some(vec![1, 2]), 30).unwrap();
    m.add("c", "three", None, "system", None, None, 20).unwrap();
    let ids: Vec<String> = m.list(-1, 0).unwrap().into_iter().map(|x| x.id).collect();
    assert_eq!(ids, vec!["b", "c", "a"]);
    let window: Vec<String> = m.list(1, 1).unwrap().into_iter().map(|x| x.id).collect();
    assert_eq!(window, vec!["c"]);
    assert!(m.list(5, 10).unwrap().is_empty());
    let b = m.get("b").unwrap();
    assert_eq!(b.tokens, Some(5));
    assert_eq!(b.embedding, Some(vec![1, 2]));
}

#[test]
fn messages_errors() {
    let mut m = Messages::new();
    m.add("a", "one", None, "user", None, None, 1).unwrap();
    assert!(matches!(m.add("a", "x", None, "user", None, None, 2), Err(MessageError::AlreadyExists(_))));
    assert!(matches!(m.get("zz"), Err(MessageError::NotFound(_))));
    m.add("bad", "x", None, "martian", None, None, 3).unwrap();
    assert!(matches!(m.get("bad"), Err(MessageError::InvalidRole(_))));
    assert!(matches!(m.list(-1, 0), Err(MessageError::InvalidRole(_))));
    m.update_sender("bad", MessageRole::User);
    assert_eq!(m.get("bad").unwrap().sender, MessageRole::User);
    m.delete("bad");
    assert!(!m.contains("bad"));
    m.delete("bad");
    assert!(m.contains("a"));
}

#[test]
fn role_text_round_trip() {
    for r in [MessageRole::User, MessageRole::Assistant, MessageRole::System] {
        assert_eq!(MessageRole::try_from_text(&r.as_text()).unwrap(), r);
    }
    assert_eq!(MessageRole::Assistant.as_text(), "bot");
    assert!(matches!(MessageRole::try_from_text("assistant"), Err(MessageError::InvalidRole(_))));
}

#[test]
fn threads_single_hop_lookups() {
    let mut t = Threads::new();
    t.add("b", "a").unwrap();
    t.add("c", "a").unwrap();
    t.add("d", "b").unwrap();
    assert!(matches!(t.add("b", "a"), Err(ThreadError::AlreadyExists)));
    assert_eq!(t.get_children("a"), vec!["b".to_string(), "c".to_string()]);
    assert_eq!(t.get_parent("d"), Some("b".to_string()));
    assert_eq!(t.get_parent("a"), None);
    assert!(t.exists_relation("d", "b"));
    assert!(!t.exists_relation("d", "a"));
    assert!(t.exists_node("c"));
    assert!(!t.exists_node("a"));
    t.update_parent("d", Some("c"));
    assert_eq!(t.get_parent("d"), Some("c".to_string()));
    t.update_parent("a", Some("c"));
    assert_eq!(t.get_parent("a"), None);
    t.update_parent("d", None);
    assert_eq!(t.get_parent("d"), None);
}

#[test]
fn threads_deletes() {
    let mut t = Threads::new();
    t.add("b", "a").unwrap();
    t.add("c", "a").unwrap();
    t.add("d", "c").unwrap();
    assert!(matches!(t.delete("b", "x"), Err(ThreadError::InvalidRelation)));
    t.delete("b", "a").unwrap();
    assert!(!t.exists_node("b"));
    t.delete_with_parent("a");
    assert!(t.get_children("a").is_empty());
    assert!(t.exists_node("d"));
    t.delete_with_child("d");
    assert!(t.relations().is_empty());
}

#[test]
fn conversation_store() {
    let mut c = Conversations::new();
    c.create("1", "zeta", Some("d"), None).unwrap();
    c.create("2", "eta", None, Some("m")).unwrap();
    assert!(matches!(c.create("1", "x", None, None), Err(ConversationError::AlreadyExists(_))));
    assert_eq!(c.get_by_entry_id("m").unwrap().id, "2");
    assert!(c.get_by_entry_id("zz").is_none());
    c.update_entry_message_id("2", None);
    assert!(c.get_by_entry_id("m").is_none());
    let names: Vec<String> = c.list().into_iter().map(|x| x.name).collect();
    assert_eq!(names, vec!["eta", "zeta"]);
    c.update_name("1", "beta");
    let names: Vec<String> = c.list().into_iter().map(|x| x.name).collect();
    assert_eq!(names, vec!["beta", "eta"]);
    c.delete("1");
    assert!(c.get("1").is_none());
    assert_eq!(c.list().len(), 1);
}

#[test]
fn message_batches_are_all_or_nothing() {
    let mut m = Messages::new();
    m.add("a", "one", None, "user", None, None, 1).unwrap();
    let clash = [("b", "two", None, "user", None, None), ("a", "dup", None, "user", None, None)];
    assert!(matches!(m.add_batch(&clash, 5), Err(MessageError::AlreadyExists(_))));
    assert!(!m.contains("b"));
    let twice = [("c", "x", None, "user", None, None), ("c", "y", None, "user", None, None)];
    assert!(m.add_batch(&twice, 5).is_err());
    assert!(!m.contains("c"));
    let ok = [("b", "two", Some("r"), "bot", Some(3), None), ("c", "three", None, "system", None, Some(vec![9]))];
    m.add_batch(&ok, 5).unwrap();
    assert_eq!(m.get("b").unwrap().reasoning, Some("r".to_string()));
    assert_eq!(m.get("c").unwrap().timestamp, 5);
    m.delete_batch(&["a", "c", "zz"]);
    assert!(!m.contains("a") && !m.contains("c") && m.contains("b"));
}

#[test]
fn thread_batches_are_all_or_nothing() {
    let mut t = Threads::new();
    t.add("b", "a").unwrap();
    assert!(matches!(t.add_batch(&[("c", "a"), ("b", "a")]), Err(ThreadError::AlreadyExists)));
    assert!(!t.exists_node("c"));
    t.add_batch(&[("c", "a"), ("d", "c")]).unwrap();
    assert_eq!(t.relations().len(), 3);
    assert!(matches!(t.delete_batch(&[("b", "a"), ("x", "y")]), Err(ThreadError::InvalidRelationBatch(1))));
    assert!(t.exists_relation("b", "a"));
    t.delete_batch(&[("b", "a"), ("d", "c")]).unwrap();
    assert_eq!(t.relations().len(), 1);
    assert!(t.exists_relation("c", "a"));
}
