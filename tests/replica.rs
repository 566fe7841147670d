use chat_sync::directory::Directory;
use chat_sync::history::History;
use chat_sync::state::{Message, MessageType, Notice, State};

fn chat(source: &str, text: &str) -> Message {
    Message::create(source.to_string(), text.to_string())
}

fn state_with(count: usize, names: &[(&str, &str)]) -> State {
    let mut s = State::new();
    for i in 0..count {
        s.history.insert(chat("peer", &format!("line {}", i)));
    }
    for (p, n) in names {
        s.usernames.insert_if_absent(p.to_string(), n.to_string());
    }
    s
}

fn texts(s: &State) -> Vec<String> {
    s.history
        .get_all()
        .iter()
        .map(|m| String::from_utf8(m.data.clone()).unwrap())
        .collect()
}

#[test]
fn history_keeps_insertion_order() {
    let mut h: History<u32> = History::new();
    assert_eq!(h.get_count(), 0);
    h.insert(3);
    h.insert(1);
    h.insert(3);
    assert_eq!(h.get_count(), 3);
    assert_eq!(h.get_all(), &[3, 1, 3]);
}

#[test]
fn directory_first_writer_wins() {
    let mut d = Directory::new();
    assert!(d.insert_if_absent("p1".to_string(), "ana".to_string()));
    assert!(!d.insert_if_absent("p1".to_string(), "bia".to_string()));
    assert_eq!(d.lookup(&"p1".to_string()), Some("ana".to_string()));
    assert_eq!(d.entries().len(), 1);
}

#[test]
fn directory_remove_reports_presence() {
    let mut d = Directory::new();
    d.insert_if_absent("p1".to_string(), "ana".to_string());
    d.insert_if_absent("p2".to_string(), "bia".to_string());
    assert!(d.remove(&"p1".to_string()));
    assert!(!d.remove(&"p1".to_string()));
    assert!(!d.contains(&"p1".to_string()));
    assert!(d.contains(&"p2".to_string()));
    assert_eq!(d.lookup(&"p1".to_string()), None);
}

#[test]
fn unknown_user_is_anonimo() {
    let s = state_with(0, &[("p1", "ana")]);
    assert_eq!(s.get_username(&"p1".to_string()), "ana");
    assert_eq!(s.get_username(&"p9".to_string()), "anonimo");
}

#[test]
fn create_builds_broadcast_chat_line() {
    let m = Message::create("p1".to_string(), "olá".to_string());
    assert_eq!(m.message_type, MessageType::Message);
    assert_eq!(m.data, "olá".as_bytes().to_vec());
    assert_eq!(m.addressee, None);
    assert_eq!(m.source, "p1");
}

#[test]
fn empty_replica_takes_five_messages_in_order() {
    let mut local = State::new();
    let foreign = state_with(5, &[]);
    local.merge(foreign);
    assert_eq!(local.history.get_count(), 5);
    assert_eq!(texts(&local), vec!["line 0", "line 1", "line 2", "line 3", "line 4"]);
}

#[test]
fn replica_with_history_keeps_its_own() {
    let mut local = state_with(3, &[]);
    let foreign = state_with(5, &[]);
    let notices = local.merge(foreign);
    assert_eq!(local.history.get_count(), 3);
    assert_eq!(texts(&local), vec!["line 0", "line 1", "line 2"]);
    assert!(notices.is_empty());
}

#[test]
fn single_foreign_message_is_not_taken() {
    let mut local = State::new();
    local.merge(state_with(1, &[]));
    assert_eq!(local.history.get_count(), 0);
}

#[test]
fn merge_never_drops_or_renames_known_peers() {
    let mut local = state_with(0, &[("p1", "ana"), ("p2", "bia")]);
    let notices = local.merge(state_with(0, &[("p1", "impostor"), ("p3", "caio")]));
    assert_eq!(local.get_username(&"p1".to_string()), "ana");
    assert_eq!(local.get_username(&"p2".to_string()), "bia");
    assert_eq!(local.get_username(&"p3".to_string()), "caio");
    assert_eq!(notices.len(), 1);
    assert!(matches!(&notices[0], Notice::Joined { name } if name == "caio"));
    local.merge(state_with(0, &[]));
    assert!(local.usernames.contains(&"p2".to_string()));
}

#[test]
fn merge_replays_taken_messages_under_merged_names() {
    let mut local = State::new();
    let mut foreign = state_with(0, &[("peer", "pam")]);
    foreign.history.insert(chat("peer", "a"));
    foreign.history.insert(chat("ghost", "b"));
    let notices = local.merge(foreign);
    assert_eq!(notices.len(), 3);
    assert!(matches!(&notices[0], Notice::Joined { name } if name == "pam"));
    assert!(matches!(&notices[1], Notice::Said { name, text } if name == "pam" && text == b"a"));
    assert!(matches!(&notices[2], Notice::Said { name, text } if name == "anonimo" && text == b"b"));
}
