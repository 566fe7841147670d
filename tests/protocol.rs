use chat_sync::command::Command;
use chat_sync::controller::{depart, direct, next_phase, receive, say, seed, snapshot_for, Phase, Signal};
use chat_sync::state::{Message, MessageType, Notice, State};

fn s(x: &str) -> String {
    x.to_string()
}

fn named(names: &[(&str, &str)]) -> State {
    let mut st = State::new();
    for (p, n) in names {
        st.usernames.insert_if_absent(s(p), s(n));
    }
    st
}

fn same(a: &Message, b: &Message) -> bool {
    a.message_type == b.message_type && a.data == b.data && a.addressee == b.addressee && a.source == b.source
}

#[test]
fn message_round_trip_keeps_every_field() {
    let plain = Message::create(s("peer-a"), s("hello"));
    let back = Message::from_bytes(&plain.to_bytes()).unwrap();
    assert!(same(&plain, &back));
    let directed = Message {
        message_type: MessageType::State,
        data: vec![0, 255, 7],
        addressee: Some(s("José")),
        source: s("ñ"),
    };
    let back = Message::from_bytes(&directed.to_bytes()).unwrap();
    assert!(same(&directed, &back));
}

#[test]
fn message_encoding_is_exact() {
    let m = Message { message_type: MessageType::Message, data: vec![9], addressee: None, source: s("ab") };
    let expected: Vec<u8> = vec![
        0, 0, 2, 0, 0, 0, 0, 0, 0, 0, b'a', b'b', 1, 0, 0, 0, 0, 0, 0, 0, 9,
    ];
    assert_eq!(m.to_bytes(), expected);
}

#[test]
fn malformed_encodings_are_refused() {
    let good = Message::create(s("p"), s("hi")).to_bytes();
    assert!(Message::from_bytes(&good[..good.len() - 1]).is_none());
    let mut longer = good.clone();
    longer.push(0);
    assert!(Message::from_bytes(&longer).is_none());
    let mut bad_tag = good.clone();
    bad_tag[0] = 2;
    assert!(Message::from_bytes(&bad_tag).is_none());
    assert!(Message::from_bytes(&[]).is_none());
    let bad_utf8 = vec![0, 0, 1, 0, 0, 0, 0, 0, 0, 0, 0xff, 0, 0, 0, 0, 0, 0, 0, 0];
    assert!(Message::from_bytes(&bad_utf8).is_none());
}

#[test]
fn state_round_trip() {
    let mut st = named(&[("p1", "ana"), ("p2", "bia")]);
    st.history.insert(Message::create(s("p1"), s("x")));
    let back = State::from_bytes(&st.to_bytes()).unwrap();
    assert_eq!(back.history.get_count(), 1);
    assert!(same(&back.history.get_all()[0], &st.history.get_all()[0]));
    assert_eq!(back.get_username(&s("p2")), "bia");
    assert_eq!(back.usernames.entries().len(), 2);
}

#[test]
fn corrupted_bytes_change_nothing() {
    let mut st = named(&[("p1", "ana")]);
    st.history.insert(Message::create(s("p1"), s("x")));
    for junk in [vec![], vec![7u8; 3], vec![1, 1, 200, 0, 0], vec![0u8; 40]] {
        let notices = receive(&mut st, &s("me"), &junk);
        assert!(notices.is_empty());
        assert_eq!(st.history.get_count(), 1);
        assert_eq!(st.usernames.entries().len(), 1);
    }
}

#[test]
fn directed_line_reaches_only_its_addressee() {
    let bytes = direct(&s("p1"), s("x"), s("psst"));
    let mut at_y = named(&[("p1", "ana")]);
    assert!(receive(&mut at_y, &s("y"), &bytes).is_empty());
    assert_eq!(at_y.history.get_count(), 0);
    let mut at_x = named(&[("p1", "ana")]);
    let notices = receive(&mut at_x, &s("x"), &bytes);
    assert_eq!(at_x.history.get_count(), 1);
    assert_eq!(notices.len(), 1);
    assert!(matches!(&notices[0], Notice::Said { name, text } if name == "ana" && text == b"psst"));
}

#[test]
fn broadcast_line_is_shown_and_logged() {
    let mut sender = named(&[("p1", "ana")]);
    let bytes = say(&mut sender, &s("p1"), s("oi"));
    assert_eq!(sender.history.get_count(), 1);
    let mut other = State::new();
    let notices = receive(&mut other, &s("p2"), &bytes);
    assert_eq!(other.history.get_count(), 1);
    assert!(matches!(&notices[0], Notice::Said { name, text } if name == "anonimo" && text == b"oi"));
}

#[test]
fn newcomer_bootstraps_from_snapshot() {
    let mut b = named(&[("B", "bob")]);
    b.history.insert(Message::create(s("B"), s("first")));
    b.history.insert(Message::create(s("B"), s("second")));
    let mut a = State::new();
    let push = snapshot_for(&b, &s("B"), s("A"));
    let notices = receive(&mut a, &s("A"), &push);
    assert_eq!(a.history.get_count(), 2);
    assert_eq!(a.get_username(&s("B")), "bob");
    assert_eq!(notices.len(), 3);
    assert!(matches!(&notices[0], Notice::Joined { name } if name == "bob"));
    assert!(matches!(&notices[1], Notice::Said { name, text } if name == "bob" && text == b"first"));
    assert!(matches!(&notices[2], Notice::Said { name, text } if name == "bob" && text == b"second"));
    let mut c = State::new();
    assert!(receive(&mut c, &s("C"), &push).is_empty());
    assert_eq!(c.history.get_count(), 0);
}

#[test]
fn departure_is_local_and_named() {
    let mut st = named(&[("p1", "ana")]);
    let n = depart(&mut st, &s("p1"));
    assert!(matches!(n, Notice::Left { name } if name == "ana"));
    assert!(!st.usernames.contains(&s("p1")));
    let n = depart(&mut st, &s("p1"));
    assert!(matches!(n, Notice::Left { name } if name == "anonimo"));
}

#[test]
fn commands_are_parsed() {
    assert!(matches!(Command::parse(&s("/msg p7 hi there")),
        Command::Direct { peer, text } if peer == "p7" && text == "hi there"));
    assert!(matches!(Command::parse(&s("/msg p7")),
        Command::Direct { peer, text } if peer == "p7" && text.is_empty()));
    assert!(matches!(Command::parse(&s("/kick p7")), Command::Kick { peer } if peer == "p7"));
    assert!(matches!(Command::parse(&s("/users")), Command::Users));
    assert!(matches!(Command::parse(&s("/users now")), Command::Say { text } if text == "/users now"));
    assert!(matches!(Command::parse(&s("olá")), Command::Say { text } if text == "olá"));
}

fn field(bytes: &[u8]) -> Vec<u8> {
    let mut out = (bytes.len() as u64).to_le_bytes().to_vec();
    out.extend_from_slice(bytes);
    out
}

#[test]
fn snapshot_with_repeated_peer_is_refused() {
    let mut b = 0u64.to_le_bytes().to_vec();
    b.extend(2u64.to_le_bytes());
    b.extend(field(b"a"));
    b.extend(field(b"x"));
    b.extend(field(b"a"));
    b.extend(field(b"y"));
    assert!(State::from_bytes(&b).is_none());
    let mut ok = 0u64.to_le_bytes().to_vec();
    ok.extend(1u64.to_le_bytes());
    ok.extend(field(b"a"));
    ok.extend(field(b"x"));
    let st = State::from_bytes(&ok).unwrap();
    assert_eq!(st.get_username(&s("a")), "x");
}

#[test]
fn seeded_state_names_the_local_peer() {
    let st = seed(s("me"), s("ana"));
    assert_eq!(st.get_username(&s("me")), "ana");
    assert_eq!(st.history.get_count(), 0);
    let st = seed(s("me"), s(""));
    assert_eq!(st.get_username(&s("me")), "anonimo");
    assert!(st.usernames.contains(&s("me")));
}

#[test]
fn lifecycle_moves_forward_only_on_its_signals() {
    let p = next_phase(Phase::Idle, Signal::Start);
    assert_eq!(p, Phase::AwaitingUsername);
    assert_eq!(next_phase(p, Signal::Interrupt), Phase::AwaitingUsername);
    let p = next_phase(p, Signal::NameGiven);
    assert_eq!(p, Phase::Active);
    assert_eq!(next_phase(p, Signal::Interrupt), Phase::ShuttingDown);
    assert_eq!(next_phase(Phase::ShuttingDown, Signal::Start), Phase::ShuttingDown);
}

#[test]
fn own_traffic_is_ignored() {
    let mut st = named(&[("p1", "ana")]);
    let bytes = say(&mut st, &s("p1"), s("echo"));
    assert!(receive(&mut st, &s("p1"), &bytes).is_empty());
    assert_eq!(st.history.get_count(), 1);
}
