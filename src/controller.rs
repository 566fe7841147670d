use vstd::prelude::*;
use crate::directory::{default_name, name_in};
use crate::state::{
    Message, MessageType, Notice, NoticeView, State, accepts_log, joined_notices, notice_views,
    replay_notices,
};
use crate::wire::{MessageModel, decode_message, enc_message, enc_state, models, parse_state};

verus! {

/// Whether a peer whose identifier is `local` is to process `m`: never its
/// own traffic; otherwise a message without addressee is for every peer,
/// one with an addressee only for it.
pub open spec fn addressed_to(m: MessageModel, local: Seq<char>) -> bool {
    m.source != local && match m.addressee {
        Some(a) => a == local,
        None => true,
    }
}

/// `after` and `notices` are what merging `foreign` into `before` gives.
pub open spec fn merged(before: State, foreign: State, after: State, notices: Seq<NoticeView>) -> bool {
    &&& after.wf()
    &&& after.usernames@ == foreign.usernames@.union_prefer_right(before.usernames@)
    &&& after.history@ == if accepts_log(before.history@.len(), foreign.history@.len()) {
        before.history@ + foreign.history@
    } else {
        before.history@
    }
    &&& notices == joined_notices(before.usernames@, foreign.usernames.pairs()) + if accepts_log(
        before.history@.len(),
        foreign.history@.len(),
    ) {
        replay_notices(after.usernames@, foreign.history@)
    } else {
        Seq::empty()
    }
}

/// `after` holds the same history and usernames as `before`.
pub open spec fn unchanged(before: State, after: State) -> bool {
    &&& after.wf()
    &&& after.history@ == before.history@
    &&& after.usernames@ == before.usernames@
}

/// Applies a payload received from the channel to the local state, at the
/// peer whose identifier is `local`, and returns what is to be shown.
///
/// A payload that is not the encoding of one message, a message meant for
/// another peer, or one this peer sent itself, changes nothing and shows
/// nothing. A chat line is
/// shown under its sender's name and appended to the history. A snapshot
/// whose payload encodes a state is merged; one whose payload does not
/// changes nothing.
pub fn receive(state: &mut State, local: &String, bytes: &[u8]) -> (notices: Vec<Notice>)
    requires
        old(state).wf(),
    ensures
        final(state).wf(),
        match decode_message(bytes@) {
            None => unchanged(*old(state), *final(state)) && notices@.len() == 0,
            Some(m) => if !addressed_to(m, local@) {
                unchanged(*old(state), *final(state)) && notices@.len() == 0
            } else if m.kind == MessageType::Message {
                &&& final(state).usernames@ == old(state).usernames@
                &&& final(state).history@.len() == old(state).history@.len() + 1
                &&& final(state).history@.drop_last() == old(state).history@
                &&& final(state).history@.last()@ == m
                &&& notice_views(notices@) == seq![
                    NoticeView::Said(name_in(old(state).usernames@, m.source), m.data),
                ]
            } else {
                match parse_state(m.data) {
                    None => unchanged(*old(state), *final(state)) && notices@.len() == 0,
                    Some((msgs, pairs)) => exists|foreign: State|
                        foreign.wf() && models(foreign.history@) == msgs && foreign.usernames.pairs()
                            == pairs && #[trigger] merged(
                            *old(state),
                            foreign,
                            *final(state),
                            notice_views(notices@),
                        ),
                }
            },
        },
{
    let m = match Message::from_bytes(bytes) {
        Some(m) => m,
        None => return Vec::new(),
    };
    if m.source == *local {
        return Vec::new();
    }
    if let Some(a) = &m.addressee {
        if !(*a == *local) {
            return Vec::new();
        }
    }
    match m.message_type {
        MessageType::Message => {
            let name = state.get_username(&m.source);
            let text = vstd::slice::slice_to_vec(m.data.as_slice());
            let mut notices: Vec<Notice> = Vec::new();
            notices.push(Notice::Said { name, text });
            assert(notice_views(notices@) =~= seq![
                NoticeView::Said(name_in(state.usernames@, m.source@), m.data@),
            ]);
            state.history.insert(m);
            notices
        },
        MessageType::State => {
            match State::from_bytes(m.data.as_slice()) {
                Some(foreign) => {
                    let ghost f = foreign;
                    let notices = state.merge(foreign);
                    assert(merged(*old(state), f, *state, notice_views(notices@)));
                    notices
                },
                None => Vec::new(),
            }
        },
    }
}

/// The payload that answers the subscription of `peer`: a snapshot of the
/// whole local state, addressed to `peer` and sent by `local`.
pub fn snapshot_for(state: &State, local: &String, peer: String) -> (r: Vec<u8>)
    ensures
        r@ == enc_message(
            MessageModel {
                kind: MessageType::State,
                data: enc_state(*state),
                addressee: Some(peer@),
                source: local@,
            },
        ),
{
    let m = Message {
        message_type: MessageType::State,
        data: state.to_bytes(),
        addressee: Some(peer),
        source: local.clone(),
    };
    m.to_bytes()
}

/// Handles the departure of `peer`: it leaves the directory, and a notice
/// under the name it had is returned. The history is untouched.
pub fn depart(state: &mut State, peer: &String) -> (r: Notice)
    requires
        old(state).wf(),
    ensures
        final(state).wf(),
        final(state).history@ == old(state).history@,
        final(state).usernames@ == old(state).usernames@.remove(peer@),
        r@ == NoticeView::Left(name_in(old(state).usernames@, peer@)),
{
    let name = state.get_username(peer);
    state.usernames.remove(peer);
    Notice::Left { name }
}

/// Sends `text` from `local` to every peer: the line joins the local
/// history, and its encoding is returned for publication.
pub fn say(state: &mut State, local: &String, text: String) -> (r: Vec<u8>)
    requires
        old(state).wf(),
    ensures
        final(state).wf(),
        final(state).usernames@ == old(state).usernames@,
        final(state).history@.len() == old(state).history@.len() + 1,
        final(state).history@.drop_last() == old(state).history@,
        r@ == enc_message(final(state).history@.last()@),
        final(state).history@.last()@ == (MessageModel {
            kind: MessageType::Message,
            data: vstd::utf8::encode_utf8(text@),
            addressee: None,
            source: local@,
        }),
{
    let m = Message::create(local.clone(), text);
    let r = m.to_bytes();
    state.history.insert(m);
    r
}

/// The encoding of a chat line from `local` meant for `peer` alone. The
/// sender's own history is left as it is.
pub fn direct(local: &String, peer: String, text: String) -> (r: Vec<u8>)
    ensures
        r@ == enc_message(
            MessageModel {
                kind: MessageType::Message,
                data: vstd::utf8::encode_utf8(text@),
                addressee: Some(peer@),
                source: local@,
            },
        ),
{
    let mut m = Message::create(local.clone(), text);
    m.addressee = Some(peer);
    m.to_bytes()
}


/// The phases of a running participant.
#[derive(PartialEq, Eq, Structural, Clone, Copy, Debug)]
pub enum Phase {
    Idle,
    AwaitingUsername,
    Active,
    ShuttingDown,
}

/// What moves a participant from one phase to the next.
#[derive(PartialEq, Eq, Structural, Clone, Copy, Debug)]
pub enum Signal {
    /// The process started.
    Start,
    /// A display name was obtained.
    NameGiven,
    /// An interrupt or an explicit quit.
    Interrupt,
}

/// The phase that `signal` leads to from `phase`; a signal that does not
/// apply leaves the phase as it is.
pub open spec fn phase_after(phase: Phase, signal: Signal) -> Phase {
    match (phase, signal) {
        (Phase::Idle, Signal::Start) => Phase::AwaitingUsername,
        (Phase::AwaitingUsername, Signal::NameGiven) => Phase::Active,
        (Phase::Active, Signal::Interrupt) => Phase::ShuttingDown,
        _ => phase,
    }
}

/// Steps the participant's lifecycle.
pub fn next_phase(phase: Phase, signal: Signal) -> (r: Phase)
    ensures
        r == phase_after(phase, signal),
{
    match (phase, signal) {
        (Phase::Idle, Signal::Start) => Phase::AwaitingUsername,
        (Phase::AwaitingUsername, Signal::NameGiven) => Phase::Active,
        (Phase::Active, Signal::Interrupt) => Phase::ShuttingDown,
        _ => phase,
    }
}

/// The local state of a participant that has just chosen `name`: no
/// history, and its own identifier registered under `name`, or under the
/// default name when `name` is empty.
pub fn seed(local: String, name: String) -> (r: State)
    ensures
        r.wf(),
        r.history@ == Seq::<Message>::empty(),
        r.usernames@ == Map::<Seq<char>, Seq<char>>::empty().insert(
            local@,
            if name@.len() == 0 {
                default_name()
            } else {
                name@
            },
        ),
{
    let mut r = State::new();
    let chosen = if name.as_str().is_empty() {
        let d = "anonimo".to_owned();
        proof {
            reveal_strlit("anonimo");
        }
        assert(d@ =~= default_name());
        d
    } else {
        name
    };
    r.usernames.insert_if_absent(local, chosen);
    r
}

} // verus!
